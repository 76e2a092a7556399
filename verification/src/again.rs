//! Logic that is put back unchanged is read the same again.

use crate::cell::PrimitiveCell;
use crate::error::ErrorView;
use crate::func::{lut_func, LogicCell};
use crate::lang::{
    args_text, before, dag, leaf, place_text, roots_of, sexpr_text, written, CircuitLang, LutLang,
    NodeView, Op,
};
use crate::level::WireView;
use crate::mapper::{
    can_map, law_mapping_fails_for_a_reason, law_readable_nets_can_be_mapped, law_what_is_behind_is_in_the_netlist, maps_to, unconnected,
    unmapped_for,
};
use crate::mapping::{mapping_ok, MappingView};
use crate::netlist::{
    cyclic, driven_by, has_net, has_nets, lemma_operand, linked, netlist_ok, object_ok, on_cycle,
    pruned, reaches, same_nets, same_operand, walk, wire_of, DrivenNet, NetlistView, ObjectKind,
};
use crate::order::{
    any_cyclic, behind, first_net, law_longer_cycles_are_tangled, law_order_has_all_that_is_behind,
    fork, forked, law_tangled_nets_have_no_order, lemma_behind, lemma_driver_has_net,
    lemma_first_net, lemma_reaches_driver,
    lemma_reaches_last, lemma_reaches_self, order_ok, sorts_to,
};
use crate::param::{bits_value, law_bits_read_back, ParamView};
use crate::primitive::{input_names, lut_size};
use crate::reading::{
    all_readable, driven_up_to, func_of, init_name, law_leaves_are_known,
    law_leaves_have_no_function, law_nets_are_readable, law_nodes_come_from_nets,
    law_nodes_follow_nets, law_roots_are_the_mapped_nets, lemma_all_readable, lemma_ids_read, mapped, nets_read,
    program_of, programmed, readable,
};
use crate::restored::{
    law_nodes_are_inserted, law_rewriting_puts_the_expression_in, leaves_stay, lemma_new_nets,
    lemma_nodes_inserted, lemma_others_stay, lemma_prefix_inserted, realizes,
};
use crate::rewrite::{
    has_own_net, instance_of, node_inserted, nodes_inserted, operand_ids, operands_have_nets,
    prepared, reconnected, rewritable, root_renamed, root_wires, roots_replaced, table_of,
    wires_set, InsertState,
};
use crate::roundtrip::{law_luts_go_back, law_truth_tables_come_back};
use vstd::arithmetic::power2::pow2;
use vstd::prelude::*;

verus! {

/// Whether node `i` of one expression and node `j` of another are the same
/// logic: the same operator over children that are the same logic.
pub open spec fn same_logic(a: Seq<NodeView>, i: int, b: Seq<NodeView>, j: int) -> bool
    decreases i,
{
    &&& a[i].op == b[j].op
    &&& a[i].args.len() == b[j].args.len()
    &&& forall|k: int|
        #![trigger a[i].args[k]]
        #![trigger b[j].args[k]]
        0 <= k < a[i].args.len() ==> a[i].args[k] < i && b[j].args[k] < j && same_logic(
            a,
            a[i].args[k] as int,
            b,
            b[j].args[k] as int,
        )
}

/// The same logic has the same text, wherever its nodes stand.
pub proof fn law_same_logic_has_the_same_text<L: CircuitLang>(
    a: Seq<NodeView>,
    i: int,
    b: Seq<NodeView>,
    j: int,
)
    requires
        0 <= i < a.len(),
        0 <= j < b.len(),
        same_logic(a, i, b, j),
    ensures
        place_text(written::<L>(a), i) == place_text(written::<L>(b), j),
    decreases i, a[i].args.len() + 1,
{
    assert(written::<L>(a)[i] == (L::op_text(a[i].op), a[i].args));
    assert(written::<L>(b)[j] == (L::op_text(b[j].op), b[j].args));
    lemma_same_args_text::<L>(a, i, b, j, a[i].args.len() as int);
}

proof fn lemma_same_args_text<L: CircuitLang>(
    a: Seq<NodeView>,
    i: int,
    b: Seq<NodeView>,
    j: int,
    k: int,
)
    requires
        0 <= i < a.len(),
        0 <= j < b.len(),
        same_logic(a, i, b, j),
        0 <= k <= a[i].args.len(),
    ensures
        args_text(written::<L>(a), i, k) == args_text(written::<L>(b), j, k),
    decreases i, k,
{
    assert(written::<L>(a)[i] == (L::op_text(a[i].op), a[i].args));
    assert(written::<L>(b)[j] == (L::op_text(b[j].op), b[j].args));
    if k > 0 {
        lemma_same_args_text::<L>(a, i, b, j, k - 1);
        let c = a[i].args[k - 1] as int;
        let d = b[j].args[k - 1] as int;
        law_same_logic_has_the_same_text::<L>(a, c, b, d);
    }
}

/// While nodes are inserted, their nets are nets of the netlist.
proof fn lemma_nets_in_range<L: LogicCell<PrimitiveCell>>(
    m: MappingView,
    v: NetlistView,
    n: int,
    i: int,
)
    requires
        rewritable::<L>(m, v),
        0 <= i < n <= m.nodes.len() <= usize::MAX,
        nodes_inserted::<L>(m, v, n) is Ok,
        (nodes_inserted::<L>(m, v, n)->Ok_0).netlist.objects.len() <= usize::MAX,
        has_own_net(m.nodes[i]),
    ensures
        ({
            let s = nodes_inserted::<L>(m, v, n)->Ok_0;
            s.nets[i as usize].node < s.netlist.objects.len()
        }),
    decreases n,
{
    let s = nodes_inserted::<L>(m, v, n - 1)->Ok_0;
    let t = nodes_inserted::<L>(m, v, n)->Ok_0;
    assert(node_inserted::<L>(m.nodes, m.leaves, s, n - 1) == Ok::<InsertState, ErrorView>(t));
    lemma_nodes_inserted::<L>(m, v, n);
    if i < n - 1 {
        lemma_nets_in_range::<L>(m, v, n - 1, i);
        assert(t.nets[i as usize] == s.nets[i as usize]);
    }
}

/// What is inserted is behind the nets of the nodes before it.
proof fn lemma_nets_before<L: LogicCell<PrimitiveCell>>(
    m: MappingView,
    v: NetlistView,
    n: int,
    i: int,
    c: int,
)
    requires
        rewritable::<L>(m, v),
        0 <= c < i < n <= m.nodes.len() <= usize::MAX,
        nodes_inserted::<L>(m, v, n) is Ok,
        (nodes_inserted::<L>(m, v, n)->Ok_0).netlist.objects.len() <= usize::MAX,
        has_own_net(m.nodes[i]),
        !(m.nodes[i].op is Var),
        has_own_net(m.nodes[c]),
    ensures
        ({
            let s = nodes_inserted::<L>(m, v, n)->Ok_0;
            s.nets[c as usize].node < s.nets[i as usize].node
        }),
    decreases n,
{
    let s = nodes_inserted::<L>(m, v, n - 1)->Ok_0;
    let t = nodes_inserted::<L>(m, v, n)->Ok_0;
    assert(node_inserted::<L>(m.nodes, m.leaves, s, n - 1) == Ok::<InsertState, ErrorView>(t));
    assert(t.nets[c as usize] == s.nets[c as usize]);
    if i < n - 1 {
        lemma_nets_before::<L>(m, v, n - 1, i, c);
        assert(t.nets[i as usize] == s.nets[i as usize]);
    } else {
        lemma_nets_in_range::<L>(m, v, n - 1, c);
    }
}

/// Every object that is inserted is that of a node.
proof fn lemma_inserted_for<L: LogicCell<PrimitiveCell>>(
    m: MappingView,
    v: NetlistView,
    n: int,
    o: usize,
) -> (i: int)
    requires
        0 <= n <= m.nodes.len() <= usize::MAX,
        nodes_inserted::<L>(m, v, n) is Ok,
        (nodes_inserted::<L>(m, v, n)->Ok_0).netlist.objects.len() <= usize::MAX,
        v.objects.len() <= o < (nodes_inserted::<L>(m, v, n)->Ok_0).netlist.objects.len(),
    ensures
        0 <= i < n,
        has_own_net(m.nodes[i]),
        !(m.nodes[i].op is Var),
        (nodes_inserted::<L>(m, v, n)->Ok_0).nets[i as usize] == first_net(o),
    decreases n,
{
    let s = nodes_inserted::<L>(m, v, n - 1)->Ok_0;
    let t = nodes_inserted::<L>(m, v, n)->Ok_0;
    assert(node_inserted::<L>(m.nodes, m.leaves, s, n - 1) == Ok::<InsertState, ErrorView>(t));
    if o < s.netlist.objects.len() {
        let i = lemma_inserted_for::<L>(m, v, n - 1, o);
        assert(t.nets[i as usize] == s.nets[i as usize]);
        i
    } else {
        n - 1
    }
}

/// Whether object `n` comes with a truth table of full size, if it is a
/// lookup table.
pub open spec fn full_table(v: NetlistView, n: usize) -> bool {
    v.objects[n as int].kind matches ObjectKind::Instance(_, cell) ==> lut_size(cell.ptype) > 0 ==> {
        &&& programmed(cell)
        &&& cell.params[init_name()] matches ParamView::BitVec(bits) && bits.len() == pow2(
            lut_size(cell.ptype),
        )
    }
}

/// What is known when logic is put back: it was read from `v` in `order` as
/// `m`, inserted as `s`, put in place of the root in `w`, and what is left is
/// `x`, with the root at `r`.
#[verifier::opaque]
spec fn put_back(
    v: NetlistView,
    root: DrivenNet,
    order: Seq<DrivenNet>,
    m: MappingView,
    s: InsertState,
    w: NetlistView,
    x: NetlistView,
    keep: Seq<usize>,
    r: DrivenNet,
) -> bool {
    &&& netlist_ok(v)
    &&& has_net(v, root)
    &&& order_ok(v, seq![root], order)
    &&& forall|i: int|
        0 <= i < order.len() ==> readable::<LutLang>(v, #[trigger] order[i]) && full_table(
            v,
            order[i].node,
        )
    &&& func_of::<LutLang>(v, root) is Some
    &&& mapped::<LutLang>(v, seq![root], order) == Ok::<MappingView, Seq<char>>(m)
    &&& mapping_ok(m)
    &&& 0 < m.nodes.len() <= usize::MAX
    &&& rewritable::<LutLang>(m, v)
    &&& nodes_inserted::<LutLang>(m, v, m.nodes.len() as int) == Ok::<
        InsertState,
        (NetlistView, ErrorView),
    >(s)
    &&& s.netlist.objects.len() <= usize::MAX
    &&& roots_replaced(
        s.netlist,
        seq![root],
        seq![s.nets[(m.nodes.len() - 1) as usize]],
        Seq::empty(),
        1,
    ) == Ok::<
        NetlistView,
        (NetlistView, ErrorView),
    >(w)
    &&& pruned(w, x, keep)
    &&& same_operand(Some(s.nets[(m.nodes.len() - 1) as usize]), Some(r), keep)
    &&& !(m.nodes[m.nodes.len() - 1].op is Var)
    &&& has_own_net(m.nodes[m.nodes.len() - 1])
}

/// What is left, with the wire of the root.
spec fn named(x: NetlistView, r: DrivenNet, wire: WireView) -> NetlistView {
    wires_set(x, seq![r], seq![wire], 1)
}

/// Whether an object of what is left belongs to the logic that was put back:
/// it is new, or one behind the old root.
spec fn inside(v: NetlistView, root: DrivenNet, keep: Seq<usize>, e: usize) -> bool {
    e < keep.len() && (keep[e as int] >= v.objects.len() || (behind(v, seq![root], keep[e as int])
        && keep[e as int] != root.node))
}

/// Objects behind the old root are not driven by it, nor by themselves, and
/// what drives them is behind it too.
proof fn lemma_old_driver(
    v: NetlistView,
    root: DrivenNet,
    order: Seq<DrivenNet>,
    o: usize,
    d: usize,
)
    requires
        netlist_ok(v),
        has_net(v, root),
        order_ok(v, seq![root], order),
        behind(v, seq![root], o),
        o != root.node,
        o < v.objects.len(),
        d < v.objects.len(),
        driven_by(v, o, d),
    ensures
        behind(v, seq![root], d),
        d != root.node,
        d != o,
        order.contains(first_net(o)),
        order.contains(first_net(d)),
        order.index_of(first_net(d)) < order.index_of(first_net(o)),
{
    let roots = seq![root];
    law_tangled_nets_have_no_order(v, roots, order);
    lemma_reaches_self(v, o);
    lemma_reaches_driver(v, o, o, d);
    lemma_behind(v, roots, o, d);
    let i = choose|i: int| 0 <= i < roots.len() && reaches(v, (#[trigger] roots[i]).node, o);
    assert(reaches(v, root.node, o));
    if d == root.node {
        law_longer_cycles_are_tangled(v, roots, o, d);
    }
    law_order_has_all_that_is_behind(v, roots, order, o);
    law_order_has_all_that_is_behind(v, roots, order, d);
    if d == o {
        let p = choose|p: Seq<usize>| #[trigger]
            walk(v, p) && p.first() == root.node && p.last() == o;
        let q = lemma_reaches_last(v, root.node, p);
        lemma_reaches_self(v, root.node);
        assert(behind(v, roots, q)) by {
            assert(reaches(v, roots[0].node, q));
        }
        assert(on_cycle(v, o));
        assert(crate::order::knot(v, roots, o, q));
    }
    let j = order.index_of(first_net(o));
    assert(order[j] == first_net(o));
    assert(driven_by(v, order[j].node, d));
    let k = choose|k: int| 0 <= k < order.take(j).len() && order.take(j)[k] == first_net(d);
    assert(order[k] == first_net(d));
    assert(order.index_of(first_net(d)) == k);
}

/// Replacing the one root changes the operands that are that root, and the
/// wire of the root, and nothing else.
proof fn lemma_replaced_object(
    v: NetlistView,
    root: DrivenNet,
    order: Seq<DrivenNet>,
    m: MappingView,
    s: InsertState,
    w: NetlistView,
    x: NetlistView,
    keep: Seq<usize>,
    r: DrivenNet,
    o: int,
)
    requires
        put_back(v, root, order, m, s, w, x, keep, r),
        0 <= o < s.netlist.objects.len(),
    ensures
        w.objects.len() == s.netlist.objects.len(),
        w.objects[o].kind == s.netlist.objects[o].kind,
        w.objects[o].operands.len() == s.netlist.objects[o].operands.len(),
        forall|k: int|
            #![trigger w.objects[o].operands[k]]
            0 <= k < s.netlist.objects[o].operands.len() && s.netlist.objects[o].operands[k] != Some(
                root,
            ) ==> w.objects[o].operands[k] == s.netlist.objects[o].operands[k],
        o != root.node ==> w.objects[o].wires == s.netlist.objects[o].wires,
{
    reveal(put_back);
    let n = m.nodes.len() as int;
    let olds = seq![root];
    let news = seq![s.nets[(n - 1) as usize]];
    lemma_nodes_inserted::<LutLang>(m, v, n);
    assert(s.netlist.objects[root.node as int] == v.objects[root.node as int]);
    assert(has_net(s.netlist, olds[0]));
    lemma_others_stay(s.netlist, olds, news, Seq::empty(), 1, o);
    reveal_with_fuel(roots_replaced, 2);
    let y = root_renamed(s.netlist, root);
    let held = olds.skip(1) + news + Seq::empty();
    assert(roots_replaced(s.netlist, olds, news, Seq::empty(), 0) == Ok::<NetlistView, (NetlistView, ErrorView)>(
        s.netlist,
    ));
    assert(w.objects[o].wires == y.objects[o].wires);
}

/// What is left of an object is what it was, but for the wire of the root.
proof fn lemma_left_object(
    v: NetlistView,
    root: DrivenNet,
    order: Seq<DrivenNet>,
    m: MappingView,
    s: InsertState,
    w: NetlistView,
    x: NetlistView,
    keep: Seq<usize>,
    r: DrivenNet,
    wire: WireView,
    e: int,
)
    requires
        put_back(v, root, order, m, s, w, x, keep, r),
        0 <= e < keep.len(),
    ensures
        ({
            let f = named(x, r, wire);
            let o = w.objects[keep[e] as int];
            &&& keep[e] < w.objects.len()
            &&& f.objects.len() == keep.len()
            &&& f.objects[e].kind == o.kind
            &&& f.objects[e].operands.len() == o.operands.len()
            &&& forall|k: int|
                0 <= k < o.operands.len() ==> same_operand(
                    o.operands[k],
                    #[trigger] f.objects[e].operands[k],
                    keep,
                )
            &&& e != r.node ==> f.objects[e].wires == o.wires
        }),
{
    reveal(put_back);
    let f = named(x, r, wire);
    let o = w.objects[keep[e] as int];
    reveal_with_fuel(wires_set, 2);
    assert(r.node < x.objects.len());
    assert(x.objects[e].kind == o.kind);
    assert(f.objects[e].operands == x.objects[e].operands);
    assert forall|k: int| 0 <= k < o.operands.len() implies same_operand(
        o.operands[k],
        #[trigger] f.objects[e].operands[k],
        keep,
    ) by {
        assert(same_operand(o.operands[k], x.objects[e].operands[k], keep));
    }
}

/// The nets of leaves are behind the root, and are not it.
proof fn lemma_leaf_net(
    v: NetlistView,
    root: DrivenNet,
    order: Seq<DrivenNet>,
    m: MappingView,
    s: InsertState,
    w: NetlistView,
    x: NetlistView,
    keep: Seq<usize>,
    r: DrivenNet,
    i: int,
)
    requires
        put_back(v, root, order, m, s, w, x, keep, r),
        0 <= i < m.nodes.len(),
        m.nodes[i].op is Var,
    ensures
        ({
            let sym = m.nodes[i].op->Var_0;
            let d = m.leaves[sym];
            &&& m.nodes[i] == leaf(Op::Var(sym))
            &&& s.nets[i as usize] == d
            &&& has_net(v, d)
            &&& d == first_net(d.node)
            &&& order.contains(d)
            &&& behind(v, seq![root], d.node)
            &&& d.node != root.node
            &&& func_of::<LutLang>(v, d) is None
            &&& crate::ident::ident_text(wire_of(v, d).id) == sym
        }),
{
    reveal(put_back);
    let n = m.nodes.len() as int;
    let sym = m.nodes[i].op->Var_0;
    let t = nets_read::<LutLang>(v, order)->Ok_0;
    law_leaves_are_known::<LutLang>(v, order);
    assert(t.nodes[i] == m.nodes[i]);
    law_leaves_have_no_function::<LutLang>(v, order, sym);
    let d = m.leaves[sym];
    let j = choose|j: int| 0 <= j < order.len() && order[j] == d;
    assert(has_net(v, order[j]) && behind(v, seq![root], order[j].node));
    lemma_first_net(v, d);
    lemma_first_net(v, root);
    law_nodes_are_inserted::<LutLang>(m, v, n, i);
}

/// The rank of an object of what is left: objects from before in the order in
/// which they were read, and then new ones.
spec fn rank(v: NetlistView, order: Seq<DrivenNet>, keep: Seq<usize>, e: usize) -> int {
    let o = keep[e as int];
    if o >= v.objects.len() {
        order.len() + o
    } else {
        order.index_of(first_net(o))
    }
}

/// Whether a new object is the instance of node `i`, over nets of the logic.
spec fn is_new_gate(
    v: NetlistView,
    root: DrivenNet,
    order: Seq<DrivenNet>,
    m: MappingView,
    keep: Seq<usize>,
    f: NetlistView,
    e: usize,
    i: int,
) -> bool {
    &&& 0 <= i < m.nodes.len()
    &&& has_own_net(m.nodes[i])
    &&& !(m.nodes[i].op is Var)
    &&& LutLang::cell_of(m.nodes[i]) matches Some(cell) && {
        let ids = operand_ids(m.nodes[i], cell);
        &&& f.objects[e as int].kind == ObjectKind::Instance(
            instance_of(i as nat),
            prepared(cell, table_of(m.nodes, i)),
        )
        &&& f.objects[e as int].operands.len() == ids.len()
    }
    &&& forall|k: int|
        0 <= k < f.objects[e as int].operands.len() ==> ((
        #[trigger] f.objects[e as int].operands[k]) matches Some(d) && inside(
            v,
            root,
            keep,
            d.node,
        ) && rank(v, order, keep, d.node) < rank(v, order, keep, e))
}

/// New objects are instances of nodes.
proof fn lemma_new_gate(
    v: NetlistView,
    root: DrivenNet,
    order: Seq<DrivenNet>,
    m: MappingView,
    s: InsertState,
    w: NetlistView,
    x: NetlistView,
    keep: Seq<usize>,
    r: DrivenNet,
    wire: WireView,
    e: usize,
) -> (i: int)
    requires
        put_back(v, root, order, m, s, w, x, keep, r),
        e < keep.len(),
        keep[e as int] >= v.objects.len(),
    ensures
        is_new_gate(v, root, order, m, keep, named(x, r, wire), e, i),
{
    let n = m.nodes.len() as int;
    let f = named(x, r, wire);
    let o = keep[e as int];
    lemma_left_object(v, root, order, m, s, w, x, keep, r, wire, e as int);
    assert(w.objects.len() == s.netlist.objects.len()) by {
        reveal(put_back);
        lemma_nodes_inserted::<LutLang>(m, v, n);
        lemma_replaced_object(v, root, order, m, s, w, x, keep, r, 0);
    }
    lemma_replaced_object(v, root, order, m, s, w, x, keep, r, o as int);
    assert(has_net(v, root) && rewritable::<LutLang>(m, v) && dag(m.nodes)
        && nodes_inserted::<LutLang>(m, v, n) == Ok::<InsertState, (NetlistView, ErrorView)>(s)
        && s.netlist.objects.len() <= usize::MAX && n <= usize::MAX && order_ok(
        v,
        seq![root],
        order,
    )) by {
        reveal(put_back);
    }
    let i = lemma_inserted_for::<LutLang>(m, v, n, o);
    law_nodes_are_inserted::<LutLang>(m, v, n, i);
    let cell = LutLang::cell_of(m.nodes[i])->0;
    let ids = operand_ids(m.nodes[i], cell);
    assert(before(m.nodes[i].args, i as nat));
    assert(operands_have_nets::<LutLang>(m.nodes, i)) by {
        lemma_prefix_inserted::<LutLang>(m, v, i, n);
    }
    assert forall|k: int| 0 <= k < f.objects[e as int].operands.len() implies ((
    #[trigger] f.objects[e as int].operands[k]) matches Some(d) && inside(v, root, keep, d.node)
        && rank(v, order, keep, d.node) < rank(v, order, keep, e)) by {
        if ids == m.nodes[i].args {
            assert(m.nodes[i].args[k] == ids[k]);
        } else {
            assert(m.nodes[i].args[k + 1] == ids[k]);
        }
        let c = ids[k] as int;
        assert(has_own_net(m.nodes[c]));
        let d = s.nets[ids[k]];
        assert(s.netlist.objects[o as int].operands[k] == Some(d));
        lemma_nets_before::<LutLang>(m, v, n, i, c);
        if m.nodes[c].op is Var {
            lemma_leaf_net(v, root, order, m, s, w, x, keep, r, c);
        } else {
            lemma_new_nets::<LutLang>(m, v, n, c);
        }
        assert(d != root);
        assert(w.objects[o as int].operands[k] == Some(d));
        assert(same_operand(
            w.objects[o as int].operands[k],
            f.objects[e as int].operands[k],
            keep,
        ));
    }
    i
}

/// Whether an object that was there before is as it was, over nets of the
/// logic.
spec fn is_old_object(
    v: NetlistView,
    root: DrivenNet,
    order: Seq<DrivenNet>,
    keep: Seq<usize>,
    f: NetlistView,
    e: usize,
) -> bool {
    let o = v.objects[keep[e as int] as int];
    &&& keep[e as int] < v.objects.len()
    &&& f.objects[e as int].kind == o.kind
    &&& f.objects[e as int].wires == o.wires
    &&& f.objects[e as int].operands.len() == o.operands.len()
    &&& forall|k: int|
        0 <= k < o.operands.len() ==> match (o.operands[k], #[trigger] f.objects[e as int].operands[k]) {
            (Some(_), Some(d)) => inside(v, root, keep, d.node) && rank(v, order, keep, d.node)
                < rank(v, order, keep, e),
            (None, None) => true,
            _ => false,
        }
}

/// Objects behind the old root are as they were.
proof fn lemma_old_object(
    v: NetlistView,
    root: DrivenNet,
    order: Seq<DrivenNet>,
    m: MappingView,
    s: InsertState,
    w: NetlistView,
    x: NetlistView,
    keep: Seq<usize>,
    r: DrivenNet,
    wire: WireView,
    e: usize,
)
    requires
        put_back(v, root, order, m, s, w, x, keep, r),
        inside(v, root, keep, e),
        keep[e as int] < v.objects.len(),
    ensures
        is_old_object(v, root, order, keep, named(x, r, wire), e),
{
    let n = m.nodes.len() as int;
    let f = named(x, r, wire);
    let o = keep[e as int];
    lemma_left_object(v, root, order, m, s, w, x, keep, r, wire, e as int);
    assert(netlist_ok(v) && has_net(v, root) && order_ok(v, seq![root], order)
        && s.netlist.objects.len() >= v.objects.len() && s.netlist.objects[o as int]
        == v.objects[o as int] && e != r.node) by {
        reveal(put_back);
        lemma_nodes_inserted::<LutLang>(m, v, n);
        lemma_new_nets::<LutLang>(m, v, n, n - 1);
    }
    lemma_replaced_object(v, root, order, m, s, w, x, keep, r, o as int);
    let p = v.objects[o as int];
    assert forall|k: int| 0 <= k < p.operands.len() implies match (
        p.operands[k],
        #[trigger] f.objects[e as int].operands[k],
    ) {
        (Some(_), Some(d)) => inside(v, root, keep, d.node) && rank(v, order, keep, d.node) < rank(
            v,
            order,
            keep,
            e,
        ),
        (None, None) => true,
        _ => false,
    } by {
        if let Some(d) = p.operands[k] {
            lemma_operand(v, o as int, k);
            assert(driven_by(v, o, d.node));
            lemma_old_driver(v, root, order, o, d.node);
            lemma_first_net(v, d);
        }
        assert(w.objects[o as int].operands[k] == p.operands[k]);
        assert(same_operand(
            w.objects[o as int].operands[k],
            f.objects[e as int].operands[k],
            keep,
        ));
    }
}

/// What drives an object of the logic is in it, and of lower rank.
proof fn lemma_driver_inside(
    v: NetlistView,
    root: DrivenNet,
    order: Seq<DrivenNet>,
    m: MappingView,
    s: InsertState,
    w: NetlistView,
    x: NetlistView,
    keep: Seq<usize>,
    r: DrivenNet,
    wire: WireView,
    e: usize,
    d: usize,
)
    requires
        put_back(v, root, order, m, s, w, x, keep, r),
        inside(v, root, keep, e),
        driven_by(named(x, r, wire), e, d),
    ensures
        inside(v, root, keep, d),
        rank(v, order, keep, d) < rank(v, order, keep, e),
{
    let f = named(x, r, wire);
    let k = choose|k: int|
        0 <= k < f.objects[e as int].operands.len() && ((
        #[trigger] f.objects[e as int].operands[k]) matches Some(c) && c.node == d);
    if keep[e as int] >= v.objects.len() {
        let i = lemma_new_gate(v, root, order, m, s, w, x, keep, r, wire, e);
    } else {
        lemma_old_object(v, root, order, m, s, w, x, keep, r, wire, e);
    }
}

/// A walk from an object of the logic stays in it, and leads down in rank.
proof fn lemma_walk_inside(
    v: NetlistView,
    root: DrivenNet,
    order: Seq<DrivenNet>,
    m: MappingView,
    s: InsertState,
    w: NetlistView,
    x: NetlistView,
    keep: Seq<usize>,
    r: DrivenNet,
    wire: WireView,
    p: Seq<usize>,
)
    requires
        put_back(v, root, order, m, s, w, x, keep, r),
        walk(named(x, r, wire), p),
        inside(v, root, keep, p.first()),
    ensures
        inside(v, root, keep, p.last()),
        rank(v, order, keep, p.last()) <= rank(v, order, keep, p.first()),
    decreases p.len(),
{
    let f = named(x, r, wire);
    if p.len() > 1 {
        let q = p.drop_last();
        assert forall|i: int| 0 < i < q.len() implies #[trigger] linked(f, q, i) by {
            assert(linked(f, p, i));
        }
        lemma_walk_inside(v, root, order, m, s, w, x, keep, r, wire, q);
        assert(linked(f, p, p.len() - 1));
        lemma_driver_inside(v, root, order, m, s, w, x, keep, r, wire, q.last(), p.last());
    }
}

/// What is behind the new root belongs to the logic, and there is no cycle in
/// it.
proof fn lemma_no_cycle(
    v: NetlistView,
    root: DrivenNet,
    order: Seq<DrivenNet>,
    m: MappingView,
    s: InsertState,
    w: NetlistView,
    x: NetlistView,
    keep: Seq<usize>,
    r: DrivenNet,
    wire: WireView,
)
    requires
        put_back(v, root, order, m, s, w, x, keep, r),
    ensures
        !any_cyclic(named(x, r, wire), seq![r]),
        forall|n: usize| #[trigger]
            behind(named(x, r, wire), seq![r], n) ==> inside(v, root, keep, n),
        inside(v, root, keep, r.node),
{
    let f = named(x, r, wire);
    let roots = seq![r];
    assert(inside(v, root, keep, r.node)) by {
        reveal(put_back);
        let n = m.nodes.len() as int;
        lemma_new_nets::<LutLang>(m, v, n, n - 1);
    }
    assert forall|n: usize| #[trigger] behind(f, roots, n) implies inside(v, root, keep, n) by {
        let i = choose|i: int| 0 <= i < roots.len() && reaches(f, (#[trigger] roots[i]).node, n);
        let p = choose|p: Seq<usize>| #[trigger] walk(f, p) && p.first() == r.node && p.last() == n;
        lemma_walk_inside(v, root, order, m, s, w, x, keep, r, wire, p);
    }
    if any_cyclic(f, roots) {
        let i = choose|i: int| 0 <= i < roots.len() && cyclic(f, (#[trigger] roots[i]).node);
        let n = choose|n: usize| #[trigger] reaches(f, r.node, n) && on_cycle(f, n);
        let p = choose|p: Seq<usize>| #[trigger] walk(f, p) && p.first() == r.node && p.last() == n;
        lemma_walk_inside(v, root, order, m, s, w, x, keep, r, wire, p);
        let d = choose|d: usize| #[trigger] driven_by(f, n, d) && reaches(f, d, n);
        lemma_driver_inside(v, root, order, m, s, w, x, keep, r, wire, n, d);
        let q = choose|q: Seq<usize>| #[trigger] walk(f, q) && q.first() == d && q.last() == n;
        lemma_walk_inside(v, root, order, m, s, w, x, keep, r, wire, q);
    }
}

/// The cell of a node is that node's function, if it has as many inputs as
/// the node has operands.
proof fn lemma_cell_is_function(node: NodeView)
    requires
        LutLang::cell_of(node) matches Some(cell) && cell.inputs.len() == operand_ids(
            node,
            cell,
        ).len(),
    ensures
        LutLang::cell_of(node) matches Some(cell) && lut_func(cell.ptype) matches Some(func)
            && func.op == node.op && func.args.len() == node.args.len() && (lut_size(cell.ptype) > 0
            <==> node.op is Lut),
{
    let cell = LutLang::cell_of(node)->0;
    assert(cell.inputs.len() == input_names(cell.ptype).len());
}

/// What is behind the root of an order, and is not it, drives one net.
proof fn lemma_behind_is_single(
    v: NetlistView,
    root: DrivenNet,
    order: Seq<DrivenNet>,
    o: usize,
)
    requires
        netlist_ok(v),
        order_ok(v, seq![root], order),
        behind(v, seq![root], o),
        o != root.node,
    ensures
        v.objects[o as int].wires.len() == 1,
{
    let roots = seq![root];
    let i = choose|i: int| 0 <= i < roots.len() && reaches(v, (#[trigger] roots[i]).node, o);
    let p = choose|p: Seq<usize>| #[trigger]
        walk(v, p) && p.first() == root.node && p.last() == o;
    let n = lemma_reaches_last(v, root.node, p);
    assert(behind(v, roots, n)) by {
        assert(reaches(v, roots[0].node, n));
    }
    let k = law_order_has_all_that_is_behind(v, roots, order, n);
    assert(driven_by(v, order[k].node, o));
}

/// Objects of the logic can be read, drive one net, and are connected where
/// they have a function.
proof fn lemma_inside_readable(
    v: NetlistView,
    root: DrivenNet,
    order: Seq<DrivenNet>,
    m: MappingView,
    s: InsertState,
    w: NetlistView,
    x: NetlistView,
    keep: Seq<usize>,
    r: DrivenNet,
    wire: WireView,
    e: usize,
)
    requires
        put_back(v, root, order, m, s, w, x, keep, r),
        netlist_ok(named(x, r, wire)),
        inside(v, root, keep, e),
        e < named(x, r, wire).objects.len(),
    ensures
        readable::<LutLang>(named(x, r, wire), first_net(e)),
        named(x, r, wire).objects[e as int].wires.len() == 1,
        forall|k: int| !(#[trigger] unconnected::<LutLang>(named(x, r, wire), e, k)),
{
    let f = named(x, r, wire);
    assert(object_ok(f.objects[e as int]));
    if keep[e as int] >= v.objects.len() {
        let i = lemma_new_gate(v, root, order, m, s, w, x, keep, r, wire, e);
        let cell = LutLang::cell_of(m.nodes[i])->0;
        law_nets_are_readable(f, first_net(e));
        vstd::arithmetic::power2::lemma2_to64();
        law_bits_read_back(table_of(m.nodes, i) as nat, pow2(lut_size(cell.ptype)));
        assert(cell.params =~= Map::empty());
        assert(readable::<LutLang>(f, first_net(e)));
        assert forall|k: int| !(#[trigger] unconnected::<LutLang>(f, e, k)) by {
            if 0 <= k < f.objects[e as int].operands.len() {
                assert(f.objects[e as int].operands[k] is Some);
            }
        }
    } else {
        lemma_old_object(v, root, order, m, s, w, x, keep, r, wire, e);
        let o = keep[e as int];
        let d = first_net(o);
        reveal(put_back);
        lemma_behind_is_single(v, root, order, o);
        law_order_has_all_that_is_behind(v, seq![root], order, o);
        let j = choose|j: int| 0 <= j < order.len() && order[j] == d;
        assert(readable::<LutLang>(v, order[j]));
        law_nodes_follow_nets::<LutLang>(v, order, j);
        let a = v.objects[o as int].operands;
        let b = f.objects[e as int].operands;
        assert(func_of::<LutLang>(f, first_net(e)) == func_of::<LutLang>(v, d));
        assert forall|k: int| 0 <= k < a.len() implies ((#[trigger] a[k]) is Some <==> b[k] is Some) by {
            assert(f.objects[e as int].operands[k] == b[k]);
        }
        assert forall|k: int| 0 <= k < b.len() && #[trigger] driven_up_to(
            b,
            k,
        ) implies driven_up_to(a, k) by {
            assert forall|l: int| 0 <= l <= k implies (#[trigger] a[l]) is Some by {
                assert(b[l] is Some);
            }
        }
        assert forall|k: int| !(#[trigger] unconnected::<LutLang>(f, e, k)) by {
            if 0 <= k < b.len() && func_of::<LutLang>(f, first_net(e)) is Some {
                assert(a[k] is Some);
            }
        }
    }
}

/// A lookup table that was read has its truth table for its first child, and
/// comes back with it.
proof fn lemma_table(
    v: NetlistView,
    root: DrivenNet,
    order: Seq<DrivenNet>,
    m: MappingView,
    s: InsertState,
    w: NetlistView,
    x: NetlistView,
    keep: Seq<usize>,
    r: DrivenNet,
    i: int,
) -> (bits: Seq<bool>)
    requires
        put_back(v, root, order, m, s, w, x, keep, r),
        0 <= i < m.nodes.len(),
        m.nodes[i].op is Lut,
    ensures
        ({
            let node = m.nodes[i];
            &&& node.args.len() > 0
            &&& m.nodes[node.args[0] as int] == leaf(
                Op::Program(bits_value(bits) as u64),
            )
            &&& LutLang::cell_of(node) matches Some(cell) && prepared(
                cell,
                table_of(m.nodes, i),
            ).params[init_name()] == ParamView::BitVec(bits)
        }),
{
    reveal(put_back);
    let t = nets_read::<LutLang>(v, order)->Ok_0;
    assert(t.nodes == m.nodes);
    law_nodes_come_from_nets::<LutLang>(v, order, i);
    let d = choose|d: DrivenNet| #[trigger] t.ids.contains_key(d) && t.ids[d] == i;
    lemma_ids_read::<LutLang>(v, order);
    let j = choose|j: int| 0 <= j < order.len() && order[j] == d;
    assert(has_net(v, order[j]) && full_table(v, order[j].node));
    law_nodes_follow_nets::<LutLang>(v, order, j);
    let cell = v.objects[d.node as int].kind->Instance_1;
    assert(func_of::<LutLang>(v, d) == lut_func(cell.ptype));
    assert(lut_size(cell.ptype) > 0);
    let bits = cell.params[init_name()]->BitVec_0;
    law_truth_tables_come_back(v, t, d, cell, bits);
    bits
}

/// The operands of a node have nets.
proof fn lemma_child_has_net(
    v: NetlistView,
    root: DrivenNet,
    order: Seq<DrivenNet>,
    m: MappingView,
    s: InsertState,
    w: NetlistView,
    x: NetlistView,
    keep: Seq<usize>,
    r: DrivenNet,
    i: int,
    k: int,
)
    requires
        put_back(v, root, order, m, s, w, x, keep, r),
        0 <= i < m.nodes.len(),
        has_own_net(m.nodes[i]),
        !(m.nodes[i].op is Var),
        LutLang::cell_of(m.nodes[i]) matches Some(cell) && 0 <= k < operand_ids(
            m.nodes[i],
            cell,
        ).len(),
    ensures
        has_own_net(
            m.nodes[operand_ids(m.nodes[i], LutLang::cell_of(m.nodes[i])->0)[k] as int],
        ),
{
    reveal(put_back);
    let n = m.nodes.len() as int;
    lemma_prefix_inserted::<LutLang>(m, v, i, n);
    assert(operands_have_nets::<LutLang>(m.nodes, i));
    let ids = operand_ids(m.nodes[i], LutLang::cell_of(m.nodes[i])->0);
    assert(ids[k] < m.nodes.len());
}

/// A net that computes a node is read as the same logic.
proof fn lemma_read_same(
    v: NetlistView,
    root: DrivenNet,
    order: Seq<DrivenNet>,
    m: MappingView,
    s: InsertState,
    w: NetlistView,
    x: NetlistView,
    keep: Seq<usize>,
    r: DrivenNet,
    wire: WireView,
    again: Seq<DrivenNet>,
    net: DrivenNet,
    i: int,
)
    requires
        put_back(v, root, order, m, s, w, x, keep, r),
        netlist_ok(named(x, r, wire)),
        order_ok(named(x, r, wire), seq![r], again),
        all_readable::<LutLang>(named(x, r, wire), again),
        nets_read::<LutLang>(named(x, r, wire), again) is Ok,
        (nets_read::<LutLang>(named(x, r, wire), again)->Ok_0).nodes.len() <= usize::MAX,
        dag((nets_read::<LutLang>(named(x, r, wire), again)->Ok_0).nodes),
        again.contains(net),
        inside(v, root, keep, net.node),
        0 <= i < m.nodes.len(),
        has_own_net(m.nodes[i]),
        realizes::<LutLang>(m, keep, named(x, r, wire), net, i),
    ensures
        ({
            let t = nets_read::<LutLang>(named(x, r, wire), again)->Ok_0;
            same_logic(m.nodes, i, t.nodes, t.ids[net] as int)
        }),
    decreases i,
{
    let f = named(x, r, wire);
    let t = nets_read::<LutLang>(f, again)->Ok_0;
    let j = choose|j: int| 0 <= j < again.len() && again[j] == net;
    assert(has_net(f, again[j]));
    law_nodes_follow_nets::<LutLang>(f, again, j);
    lemma_first_net(f, net);
    let id = t.ids[net] as int;
    let node = m.nodes[i];
    assert(dag(m.nodes)) by {
        reveal(put_back);
    }
    assert(before(node.args, i as nat));
    assert(before(t.nodes[id].args, id as nat));
    if let Op::Var(sym) = node.op {
        lemma_leaf_net(v, root, order, m, s, w, x, keep, r, i);
        let d = m.leaves[sym];
        lemma_old_object(v, root, order, m, s, w, x, keep, r, wire, net.node);
        assert(func_of::<LutLang>(f, net) == func_of::<LutLang>(v, d));
        assert(wire_of(f, net) == wire_of(v, d));
        assert(t.nodes[id] == leaf(Op::Var(sym)));
    } else {
        let cell = LutLang::cell_of(node)->0;
        let o = f.objects[net.node as int];
        let ids = operand_ids(node, cell);
        assert(object_ok(o));
        assert(cell.inputs.len() == ids.len());
        lemma_cell_is_function(node);
        let full = prepared(cell, table_of(m.nodes, i));
        assert(cell.params =~= Map::empty());
        assert(programmed(full) <==> lut_size(cell.ptype) > 0);
        assert(func_of::<LutLang>(f, net) == lut_func(cell.ptype));
        let shift = if programmed(full) {
            1int
        } else {
            0int
        };
        assert forall|k: int|
            #![trigger node.args[k]]
            #![trigger t.nodes[id].args[k]]
            0 <= k < node.args.len() implies node.args[k] < i && t.nodes[id].args[k] < id
            && same_logic(
            m.nodes,
            node.args[k] as int,
            t.nodes,
            t.nodes[id].args[k] as int,
        ) by {
            assert(node.args[k] < i && t.nodes[id].args[k] < id);
            if shift == 1 && k == 0 {
                let bits = lemma_table(v, root, order, m, s, w, x, keep, r, i);
                assert(program_of::<LutLang>(full) == Some(
                    leaf(Op::Program(bits_value(bits) as u64)),
                ));
                assert(t.nodes[id].args[0] == id - 1);
            } else {
                let l = k - shift;
                assert(ids[l] == node.args[k]);
                let d = o.operands[l]->0;
                assert(o.operands[l] is Some);
                assert(t.nodes[id].args[l + shift] == t.ids[d]);
                assert(realizes::<LutLang>(m, keep, f, d, ids[l] as int));
                lemma_ids_read::<LutLang>(f, again);
                assert(again.contains(d));
                assert(driven_by(f, net.node, d.node));
                lemma_driver_inside(
                    v,
                    root,
                    order,
                    m,
                    s,
                    w,
                    x,
                    keep,
                    r,
                    wire,
                    net.node,
                    d.node,
                );
                lemma_child_has_net(v, root, order, m, s, w, x, keep, r, i, l);
                lemma_read_same(
                    v,
                    root,
                    order,
                    m,
                    s,
                    w,
                    x,
                    keep,
                    r,
                    wire,
                    again,
                    d,
                    ids[l] as int,
                );
            }
        }
    }
}

/// What the law is about is logic that is put back.
proof fn lemma_put_back(
    v: NetlistView,
    root: DrivenNet,
    m: MappingView,
    x: NetlistView,
    keep: Seq<usize>,
    r: DrivenNet,
) -> (order: Seq<DrivenNet>)
    requires
        netlist_ok(v),
        has_net(v, root),
        func_of::<LutLang>(v, root) is Some,
        can_map::<LutLang>(v, seq![root]),
        forall|n: usize| #[trigger] behind(v, seq![root], n) ==> full_table(v, n),
        maps_to::<LutLang>(v, seq![root], Ok(m)),
        mapping_ok(m),
        m.nodes.len() <= usize::MAX,
        reconnected::<LutLang>(m, v, Seq::empty()) is Ok,
        (reconnected::<LutLang>(m, v, Seq::empty())->Ok_0).0.objects.len() <= usize::MAX,
        pruned((reconnected::<LutLang>(m, v, Seq::empty())->Ok_0).0, x, keep),
        same_nets((reconnected::<LutLang>(m, v, Seq::empty())->Ok_0).1, seq![r], keep),
    ensures
        put_back(
            v,
            root,
            order,
            m,
            nodes_inserted::<LutLang>(m, v, m.nodes.len() as int)->Ok_0,
            (reconnected::<LutLang>(m, v, Seq::empty())->Ok_0).0,
            x,
            keep,
            r,
        ),
        (reconnected::<LutLang>(m, v, Seq::empty())->Ok_0).1 == seq![
            (nodes_inserted::<LutLang>(m, v, m.nodes.len() as int)->Ok_0).nets[(m.nodes.len()
                - 1) as usize],
        ],
{
    let roots = seq![root];
    let order = choose|order: Seq<DrivenNet>| #[trigger]
        sorts_to(v, roots, Ok(order)) && order_ok(v, roots, order) && Ok::<MappingView, Seq<char>>(m)
            == mapped::<LutLang>(v, roots, order);
    let (w, news) = reconnected::<LutLang>(m, v, Seq::empty())->Ok_0;
    let n = m.nodes.len() as int;
    let s = nodes_inserted::<LutLang>(m, v, n)->Ok_0;
    let t = nets_read::<LutLang>(v, order)->Ok_0;
    lemma_all_readable::<LutLang>(v, order);
    assert forall|i: int| 0 <= i < order.len() implies readable::<LutLang>(v, #[trigger] order[i])
        && full_table(v, order[i].node) by {
        assert(behind(v, roots, order[i].node));
    }
    assert forall|i: int| 0 <= i < order.len() implies (v.objects[(
    #[trigger] order[i]).node as int].kind matches ObjectKind::Instance(_, cell) ==> lut_size(
        cell.ptype,
    ) > 0 ==> programmed(cell)) by {
        assert(full_table(v, order[i].node));
    }
    assert(has_net(v, roots[0]));
    law_luts_go_back(v, roots, order);
    law_roots_are_the_mapped_nets::<LutLang>(v, roots, order);
    law_leaves_are_known::<LutLang>(v, order);
    assert(order.contains(roots[0]));
    let j = choose|j: int| 0 <= j < order.len() && order[j] == root;
    law_nodes_follow_nets::<LutLang>(v, order, j);
    assert(!(t.nodes[n - 1].op is Bus));
    assert(roots_of(m.nodes) =~= seq![(n - 1) as usize]);
    assert(roots_of(m.nodes)[0] == t.ids[root]);
    if let ObjectKind::Instance(_, cell) = v.objects[root.node as int].kind {
        <PrimitiveCell as crate::func::LogicFunc<LutLang>>::law_func(cell, root.pos as nat);
    }
    assert(news =~= seq![s.nets[(n - 1) as usize]]);
    assert(same_operand(Some(news[0]), Some(seq![r][0]), keep));
    lemma_nodes_inserted::<LutLang>(m, v, n);
    assert(s.netlist.objects[root.node as int] == v.objects[root.node as int]);
    assert(has_net(s.netlist, roots[0]));
    lemma_others_stay(s.netlist, roots, news, Seq::empty(), 1, 0);
    assert(put_back(v, root, order, m, s, w, x, keep, r)) by {
        reveal(put_back);
    }
    order
}

/// All that is behind the new root can be read and is connected.
proof fn lemma_inside_all(
    v: NetlistView,
    root: DrivenNet,
    order: Seq<DrivenNet>,
    m: MappingView,
    s: InsertState,
    w: NetlistView,
    x: NetlistView,
    keep: Seq<usize>,
    r: DrivenNet,
    wire: WireView,
)
    requires
        put_back(v, root, order, m, s, w, x, keep, r),
        netlist_ok(named(x, r, wire)),
    ensures
        forall|n: usize| #[trigger]
            behind(named(x, r, wire), seq![r], n) ==> readable::<LutLang>(
                named(x, r, wire),
                first_net(n),
            ),
        forall|n: usize, k: int|
            behind(named(x, r, wire), seq![r], n) ==> !(#[trigger] unconnected::<LutLang>(
                named(x, r, wire),
                n,
                k,
            )),
        !forked(named(x, r, wire), seq![r]),
{
    let f = named(x, r, wire);
    lemma_no_cycle(v, root, order, m, s, w, x, keep, r, wire);
    assert forall|n: usize| #[trigger] behind(f, seq![r], n) implies readable::<LutLang>(
        f,
        first_net(n),
    ) by {
        law_what_is_behind_is_in_the_netlist(f, seq![r], n);
        lemma_inside_readable(v, root, order, m, s, w, x, keep, r, wire, n);
    }
    assert forall|n: usize, k: int| behind(f, seq![r], n) implies !(
    #[trigger] unconnected::<LutLang>(f, n, k)) by {
        law_what_is_behind_is_in_the_netlist(f, seq![r], n);
        lemma_inside_readable(v, root, order, m, s, w, x, keep, r, wire, n);
    }
    if forked(f, seq![r]) {
        let (n, d) = choose|n: usize, d: usize| #[trigger] fork(f, seq![r], n, d);
        law_what_is_behind_is_in_the_netlist(f, seq![r], n);
        lemma_driver_has_net(f, n, d);
        lemma_reaches_self(f, n);
        lemma_reaches_driver(f, n, n, d);
        lemma_behind(f, seq![r], n, d);
        lemma_inside_readable(v, root, order, m, s, w, x, keep, r, wire, d);
    }
}

/// The order in which the new net is read.
proof fn lemma_again(f: NetlistView, r: DrivenNet, m2: MappingView) -> (again: Seq<DrivenNet>)
    requires
        maps_to::<LutLang>(f, seq![r], Ok(m2)),
    ensures
        order_ok(f, seq![r], again),
        mapped::<LutLang>(f, seq![r], again) == Ok::<MappingView, Seq<char>>(m2),
        nets_read::<LutLang>(f, again) matches Ok(t) && t.nodes == m2.nodes,
{
    choose|order: Seq<DrivenNet>| #[trigger]
        sorts_to(f, seq![r], Ok(order)) && order_ok(f, seq![r], order) && Ok::<
            MappingView,
            Seq<char>,
        >(m2) == mapped::<LutLang>(f, seq![r], order)
}

/// The new root computes the expression.
proof fn lemma_root_realized(
    v: NetlistView,
    root: DrivenNet,
    order: Seq<DrivenNet>,
    m: MappingView,
    s: InsertState,
    w: NetlistView,
    x: NetlistView,
    keep: Seq<usize>,
    r: DrivenNet,
    wire: WireView,
)
    requires
        put_back(v, root, order, m, s, w, x, keep, r),
        has_net(named(x, r, wire), r),
        reconnected::<LutLang>(m, v, Seq::empty()) == Ok::<
            (NetlistView, Seq<DrivenNet>),
            (NetlistView, ErrorView),
        >((w, seq![s.nets[(m.nodes.len() - 1) as usize]])),
        w.objects.len() <= usize::MAX,
    ensures
        realizes::<LutLang>(m, keep, named(x, r, wire), r, m.nodes.len() - 1),
        has_own_net(m.nodes[m.nodes.len() - 1]),
{
    let n = m.nodes.len() as int;
    let news = seq![s.nets[(n - 1) as usize]];
    assert forall|i: int, j: int|
        0 <= i < m.nodes.len() && 0 <= j < m.roots.len() implies ((
    #[trigger] m.nodes[i]).op matches Op::Var(sym) ==> m.leaves[sym] == #[trigger] m.roots[j]
        ==> news[j] == m.roots[j]) by {
        if m.nodes[i].op is Var {
            lemma_leaf_net(v, root, order, m, s, w, x, keep, r, i);
            reveal(put_back);
        }
    }
    assert(leaves_stay(m, news));
    reveal(put_back);
    assert(has_nets(x, seq![r])) by {
        let d = news[0];
        law_nodes_are_inserted::<LutLang>(m, v, n, n - 1);
        lemma_new_nets::<LutLang>(m, v, n, n - 1);
        lemma_replaced_object(v, root, order, m, s, w, x, keep, r, d.node as int);
        lemma_cell_is_function(m.nodes[n - 1]);
        assert(x.objects[r.node as int].wires == s.netlist.objects[d.node as int].wires);
        assert(has_net(x, r));
    }
    assert(roots_of(m.nodes) =~= seq![(n - 1) as usize]);
    assert(same_nets(news, seq![r], keep));
    law_rewriting_puts_the_expression_in::<LutLang>(m, v, Seq::empty(), x, keep, seq![r], seq![wire], 0);
}

/// Logic in terms of lookup tables that is read from behind one net and put
/// back unchanged can be read again from behind the new net. The net is no
/// leaf, and every lookup table behind it comes with a truth table of full
/// size.
pub proof fn law_unchanged_logic_is_readable(
    v: NetlistView,
    root: DrivenNet,
    m: MappingView,
    x: NetlistView,
    keep: Seq<usize>,
    r: DrivenNet,
)
    requires
        netlist_ok(v),
        has_net(v, root),
        func_of::<LutLang>(v, root) is Some,
        can_map::<LutLang>(v, seq![root]),
        forall|n: usize| #[trigger] behind(v, seq![root], n) ==> full_table(v, n),
        maps_to::<LutLang>(v, seq![root], Ok(m)),
        mapping_ok(m),
        m.nodes.len() <= usize::MAX,
        reconnected::<LutLang>(m, v, Seq::empty()) is Ok,
        (reconnected::<LutLang>(m, v, Seq::empty())->Ok_0).0.objects.len() <= usize::MAX,
        pruned((reconnected::<LutLang>(m, v, Seq::empty())->Ok_0).0, x, keep),
        same_nets((reconnected::<LutLang>(m, v, Seq::empty())->Ok_0).1, seq![r], keep),
        netlist_ok(wires_set(x, seq![r], root_wires(m, v), 1)),
    ensures
        can_map::<LutLang>(wires_set(x, seq![r], root_wires(m, v), 1), seq![r]),
{
    let (w, news) = reconnected::<LutLang>(m, v, Seq::empty())->Ok_0;
    let s = nodes_inserted::<LutLang>(m, v, m.nodes.len() as int)->Ok_0;
    let order = lemma_put_back(v, root, m, x, keep, r);
    assert(root_wires(m, v) =~= seq![wire_of(v, root)]) by {
        reveal(put_back);
    }
    lemma_inside_all(v, root, order, m, s, w, x, keep, r, wire_of(v, root));
    law_readable_nets_can_be_mapped::<LutLang>(named(x, r, wire_of(v, root)), seq![r]);
}

/// Logic in terms of lookup tables that is read from behind one net, put back
/// unchanged and read again from behind the new net is the same logic, and
/// has the same text. The net is no leaf, and every lookup table behind it
/// comes with a truth table of full size.
pub proof fn law_unchanged_logic_reads_the_same(
    v: NetlistView,
    root: DrivenNet,
    m: MappingView,
    x: NetlistView,
    keep: Seq<usize>,
    r: DrivenNet,
    res: Result<MappingView, Seq<char>>,
)
    requires
        netlist_ok(v),
        has_net(v, root),
        func_of::<LutLang>(v, root) is Some,
        can_map::<LutLang>(v, seq![root]),
        forall|n: usize| #[trigger] behind(v, seq![root], n) ==> full_table(v, n),
        maps_to::<LutLang>(v, seq![root], Ok(m)),
        mapping_ok(m),
        m.nodes.len() <= usize::MAX,
        reconnected::<LutLang>(m, v, Seq::empty()) is Ok,
        (reconnected::<LutLang>(m, v, Seq::empty())->Ok_0).0.objects.len() <= usize::MAX,
        pruned((reconnected::<LutLang>(m, v, Seq::empty())->Ok_0).0, x, keep),
        same_nets((reconnected::<LutLang>(m, v, Seq::empty())->Ok_0).1, seq![r], keep),
        netlist_ok(wires_set(x, seq![r], root_wires(m, v), 1)),
        has_net(wires_set(x, seq![r], root_wires(m, v), 1), r),
        maps_to::<LutLang>(wires_set(x, seq![r], root_wires(m, v), 1), seq![r], res),
        res matches Ok(m2) ==> mapping_ok(m2) && m2.nodes.len() <= usize::MAX,
    ensures
        res matches Ok(m2) && same_logic(
            m.nodes,
            m.nodes.len() - 1,
            m2.nodes,
            m2.nodes.len() - 1,
        ) && sexpr_text(written::<LutLang>(m2.nodes)) == sexpr_text(written::<LutLang>(m.nodes)),
{
    let wire = wire_of(v, root);
    let f = named(x, r, wire);
    let (w, news) = reconnected::<LutLang>(m, v, Seq::empty())->Ok_0;
    let n = m.nodes.len() as int;
    let s = nodes_inserted::<LutLang>(m, v, n)->Ok_0;
    let order = lemma_put_back(v, root, m, x, keep, r);
    assert(root_wires(m, v) =~= seq![wire]) by {
        reveal(put_back);
    }
    lemma_no_cycle(v, root, order, m, s, w, x, keep, r, wire);
    lemma_inside_all(v, root, order, m, s, w, x, keep, r, wire);
    if let Err(e) = res {
        assert(has_net(f, seq![r][0]));
        law_mapping_fails_for_a_reason::<LutLang>(f, seq![r], e);
        assert(unmapped_for::<LutLang>(f, seq![r], e));
        let (o, k) = choose|o: usize, k: int| #[trigger]
            unconnected::<LutLang>(f, o, k) && behind(f, seq![r], o);
        assert(false);
    }
    let m2 = res->Ok_0;
    let again = lemma_again(f, r, m2);
    let t = nets_read::<LutLang>(f, again)->Ok_0;
    assert forall|i: int| 0 <= i < again.len() implies readable::<LutLang>(f, #[trigger] again[i]) by {
        assert(has_net(f, again[i]) && behind(f, seq![r], again[i].node));
        lemma_first_net(f, again[i]);
    }
    law_roots_are_the_mapped_nets::<LutLang>(f, seq![r], again);
    assert(roots_of(m2.nodes)[0] == t.ids[r]);
    law_leaves_are_known::<LutLang>(f, again);
    assert(again.contains(seq![r][0]));
    lemma_ids_read::<LutLang>(f, again);
    assert(t.nodes.len() > 0);
    assert(!(t.nodes[t.nodes.len() - 1].op is Bus));
    assert(t.ids[r] == m2.nodes.len() - 1);
    lemma_root_realized(v, root, order, m, s, w, x, keep, r, wire);
    lemma_read_same(v, root, order, m, s, w, x, keep, r, wire, again, r, n - 1);
    law_same_logic_has_the_same_text::<LutLang>(m.nodes, n - 1, m2.nodes, m2.nodes.len() - 1);
}

} // verus!
