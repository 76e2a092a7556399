//! What rewriting keeps, and what it puts in.

use crate::cell::PrimitiveCell;
use crate::error::ErrorView;
use crate::func::LogicCell;
use crate::ident::{ident_of, join_idents};
use crate::lang::{before, dag, roots_of, Id, NodeView, Op};
use crate::level::WireView;
use crate::mapping::{mapping_ok, MappingView};
use crate::netlist::{
    aliases, connected, driven_by, gate_object, has_net, has_nets, holds, lasts, linked, netlist_ok,
    object_rewired, pruned, reaches, rewired, same_nets, same_operand, walk, wire_of, DrivenNet,
    NetlistView, ObjectKind,
};
use crate::primitive::lut_size;
use crate::rewrite::{
    has_own_net, instance_of, last_program, node_inserted, nodes_inserted, operand_ids, prepared,
    reconnected, rewritable, root_renamed, root_wires, roots_replaced, table_of, trimmed,
    wires_set, InsertState,
};
use crate::text::decimal;
use vstd::prelude::*;

verus! {

/// Whether `w` is a name of an output.
pub open spec fn is_output_name(v: NetlistView, w: WireView) -> bool {
    exists|d: DrivenNet| #[trigger] aliases(v, d).contains(w)
}

/// After the wires of nets are set, each net has the one that was meant for
/// it last.
pub proof fn law_nets_get_their_wires(
    v: NetlistView,
    nets: Seq<DrivenNet>,
    wires: Seq<WireView>,
    n: int,
    j: int,
)
    requires
        has_nets(v, nets),
        0 <= j < n <= nets.len(),
        forall|k: int| j < k < n ==> #[trigger] nets[k] != nets[j],
    ensures
        wire_of(wires_set(v, nets, wires, n), nets[j]) == wires[j],
    decreases n,
{
    lemma_wires_set(v, nets, wires, n - 1);
    assert(has_net(v, nets[n - 1]) && has_net(v, nets[j]));
    if j < n - 1 {
        law_nets_get_their_wires(v, nets, wires, n - 1, j);
        assert(nets[n - 1] != nets[j]);
    }
}

/// Setting wires changes no more than that.
pub proof fn lemma_wires_set(v: NetlistView, nets: Seq<DrivenNet>, wires: Seq<WireView>, n: int)
    requires
        has_nets(v, nets),
        n <= nets.len(),
    ensures
        ({
            let w = wires_set(v, nets, wires, n);
            &&& w.outputs == v.outputs
            &&& w.name == v.name
            &&& w.objects.len() == v.objects.len()
            &&& forall|i: int|
                #![trigger w.objects[i]]
                0 <= i < v.objects.len() ==> {
                    &&& w.objects[i].kind == v.objects[i].kind
                    &&& w.objects[i].operands == v.objects[i].operands
                    &&& w.objects[i].wires.len() == v.objects[i].wires.len()
                }
        }),
    decreases n,
{
    if n > 0 {
        lemma_wires_set(v, nets, wires, n - 1);
        assert(has_net(v, nets[n - 1]));
    }
}

/// Inserting nodes adds objects behind the others, and changes no more.
pub proof fn lemma_nodes_inserted<L: LogicCell<PrimitiveCell>>(m: MappingView, v: NetlistView, n: int)
    ensures
        nodes_inserted::<L>(m, v, n) matches Ok(s) ==> {
            &&& s.netlist.outputs == v.outputs
            &&& s.netlist.name == v.name
            &&& s.netlist.objects.len() >= v.objects.len()
            &&& forall|i: int|
                0 <= i < v.objects.len() ==> #[trigger] s.netlist.objects[i] == v.objects[i]
        },
    decreases n,
{
    if n > 0 {
        lemma_nodes_inserted::<L>(m, v, n - 1);
    }
}

/// Whether node `i` is in the netlist: a leaf as the net of its name, and
/// anything else as an instance of its cell, over the nets of its operands
/// and with its truth table.
pub open spec fn in_netlist<L: LogicCell<PrimitiveCell>>(m: MappingView, s: InsertState, i: int) -> bool {
    let node = m.nodes[i];
    let net = s.nets[i as usize];
    &&& s.nets.contains_key(i as usize)
    &&& match node.op {
        Op::Var(sym) => net == m.leaves[sym],
        _ => L::cell_of(node) matches Some(cell) && {
            &&& net.pos == 0
            &&& net.node < s.netlist.objects.len()
            &&& s.netlist.objects[net.node as int] == gate_object(
                prepared(cell, table_of(m.nodes, i)),
                instance_of(i as nat),
                connected(operand_ids(node, cell).map_values(|id: Id| s.nets[id])),
            )
        },
    }
}

/// After an expression is inserted, all its nodes are in the netlist. So
/// what was inserted has the structure of the expression.
pub proof fn law_nodes_are_inserted<L: LogicCell<PrimitiveCell>>(
    m: MappingView,
    v: NetlistView,
    n: int,
    i: int,
)
    requires
        dag(m.nodes),
        0 <= i < n <= m.nodes.len(),
        m.nodes.len() <= usize::MAX,
        nodes_inserted::<L>(m, v, n) is Ok,
        (nodes_inserted::<L>(m, v, n)->Ok_0).netlist.objects.len() <= usize::MAX,
        has_own_net(m.nodes[i]),
    ensures
        in_netlist::<L>(m, nodes_inserted::<L>(m, v, n)->Ok_0, i),
    decreases n,
{
    let s = nodes_inserted::<L>(m, v, n - 1)->Ok_0;
    let t = nodes_inserted::<L>(m, v, n)->Ok_0;
    assert(node_inserted::<L>(m.nodes, m.leaves, s, n - 1) == Ok::<InsertState, ErrorView>(t));
    assert(before(m.nodes[i].args, i as nat));
    if let Some(cell) = L::cell_of(m.nodes[i]) {
        let ids = operand_ids(m.nodes[i], cell);
        assert forall|k: int| 0 <= k < ids.len() implies (#[trigger] ids[k]) < i by {
            if ids == m.nodes[i].args {
                assert(m.nodes[i].args[k] == ids[k]);
            } else {
                assert(m.nodes[i].args[k + 1] == ids[k]);
            }
        }
        assert(ids.map_values(|id: Id| t.nets[id]) =~= ids.map_values(|id: Id| s.nets[id])) by {
            assert forall|k: int| 0 <= k < ids.len() implies t.nets[#[trigger] ids[k]]
                == s.nets[ids[k]] by {
                assert(ids[k] < i <= n - 1);
            }
        }
    }
    if i < n - 1 {
        law_nodes_are_inserted::<L>(m, v, n - 1, i);
        assert(t.nets[i as usize] == s.nets[i as usize]);
    }
}

/// Renaming a root keeps the names of outputs, and so does replacing its
/// uses.
proof fn lemma_replaced_outputs(
    v: NetlistView,
    olds: Seq<DrivenNet>,
    news: Seq<DrivenNet>,
    held: Seq<DrivenNet>,
    n: int,
    name: WireView,
)
    requires
        roots_replaced(v, olds, news, held, n) is Ok,
    ensures
        is_output_name(roots_replaced(v, olds, news, held, n)->Ok_0, name) == is_output_name(v, name),
    decreases n,
{
    if n > 0 {
        lemma_replaced_outputs(v, olds, news, held, n - 1, name);
        let w = roots_replaced(v, olds, news, held, n - 1)->Ok_0;
        let of = olds[n - 1];
        let all = olds.skip(n) + news + held;
        let with = all[olds.len() - 1];
        let y = root_renamed(w, of);
        let x = roots_replaced(v, olds, news, held, n)->Ok_0;
        assert(forall|d: DrivenNet| #[trigger] aliases(y, d) == aliases(w, d));
        if of != with {
            assert(x == rewired(y, of, with));
            if is_output_name(w, name) {
                let d = choose|d: DrivenNet| #[trigger] aliases(w, d).contains(name);
                assert(aliases(y, d).contains(name));
                if d == of {
                    assert(aliases(x, with).contains(name));
                } else {
                    assert(aliases(x, d).contains(name));
                }
            }
            if is_output_name(x, name) {
                let d = choose|d: DrivenNet| #[trigger] aliases(x, d).contains(name);
                assert(aliases(y, d).contains(name) || aliases(y, of).contains(name));
                assert(aliases(w, d).contains(name) || aliases(w, of).contains(name));
            }
        } else {
            assert(x == y);
            if is_output_name(w, name) {
                let d = choose|d: DrivenNet| #[trigger] aliases(w, d).contains(name);
                assert(aliases(y, d).contains(name));
            }
            if is_output_name(x, name) {
                let d = choose|d: DrivenNet| #[trigger] aliases(x, d).contains(name);
                assert(aliases(w, d).contains(name));
            }
        }
    }
}

/// What is left of a netlist has the same names of outputs.
proof fn lemma_pruned_outputs(a: NetlistView, b: NetlistView, keep: Seq<usize>, name: WireView)
    requires
        pruned(a, b, keep),
    ensures
        is_output_name(b, name) == is_output_name(a, name),
{
    if is_output_name(a, name) {
        let d = choose|d: DrivenNet| #[trigger] aliases(a, d).contains(name);
        assert(a.outputs.contains_key(d));
        let e = choose|e: DrivenNet|
            same_operand(Some(d), Some(e), keep) && #[trigger] b.outputs.contains_key(e);
        assert(d == DrivenNet { node: keep[e.node as int], pos: e.pos });
        assert(aliases(b, e).contains(name));
    }
    if is_output_name(b, name) {
        let e = choose|e: DrivenNet| #[trigger] aliases(b, e).contains(name);
        assert(b.outputs.contains_key(e));
        let d = DrivenNet { node: keep[e.node as int], pos: e.pos };
        assert(aliases(a, d).contains(name));
    }
}

/// Rewriting loses no name of an output and makes up none.
pub proof fn law_rewriting_keeps_output_names<L: LogicCell<PrimitiveCell>>(
    m: MappingView,
    v: NetlistView,
    held: Seq<DrivenNet>,
    x: NetlistView,
    r: Seq<DrivenNet>,
    wires: Seq<WireView>,
    name: WireView,
)
    requires
        reconnected::<L>(m, v, held) is Ok,
        trimmed((reconnected::<L>(m, v, held)->Ok_0).0, (reconnected::<L>(m, v, held)->Ok_0).1, x, r),
        has_nets(x, r),
    ensures
        is_output_name(wires_set(x, r, wires, r.len() as int), name) == is_output_name(v, name),
{
    let (w, news) = reconnected::<L>(m, v, held)->Ok_0;
    let s = nodes_inserted::<L>(m, v, m.nodes.len() as int)->Ok_0;
    lemma_nodes_inserted::<L>(m, v, m.nodes.len() as int);
    assert(forall|d: DrivenNet| #[trigger] aliases(s.netlist, d) == aliases(v, d));
    lemma_replaced_outputs(s.netlist, m.roots, news, held, m.roots.len() as int, name);
    let keep = choose|keep: Seq<usize>| #[trigger]
        pruned(w, x, keep) && same_nets(news, r, keep);
    lemma_pruned_outputs(w, x, keep, name);
    lemma_wires_set(x, r, wires, r.len() as int);
    let y = wires_set(x, r, wires, r.len() as int);
    assert(forall|d: DrivenNet| #[trigger] aliases(y, d) == aliases(x, d));
    lemma_same_aliases(v, s.netlist, name);
    lemma_same_aliases(x, y, name);
}

/// Netlists with the same outputs have the same names of outputs.
proof fn lemma_same_aliases(a: NetlistView, b: NetlistView, name: WireView)
    requires
        forall|d: DrivenNet| #[trigger] aliases(b, d) == aliases(a, d),
    ensures
        is_output_name(a, name) == is_output_name(b, name),
{
    if is_output_name(a, name) {
        let d = choose|d: DrivenNet| #[trigger] aliases(a, d).contains(name);
        assert(aliases(b, d).contains(name));
    }
    if is_output_name(b, name) {
        let d = choose|d: DrivenNet| #[trigger] aliases(b, d).contains(name);
        assert(aliases(a, d).contains(name));
    }
}

/// Whether `w` is `v` with the uses of the first `n` of the old roots
/// replaced by the new ones, and no other uses.
pub open spec fn uses_replaced(
    v: NetlistView,
    w: NetlistView,
    olds: Seq<DrivenNet>,
    news: Seq<DrivenNet>,
    n: int,
) -> bool {
    &&& w.objects.len() == v.objects.len()
    &&& forall|i: int|
        #![trigger w.objects[i]]
        0 <= i < v.objects.len() ==> w.objects[i].kind == v.objects[i].kind
            && w.objects[i].operands.len() == v.objects[i].operands.len()
    &&& forall|i: int, k: int, j: int|
        #![trigger w.objects[i].operands[k], olds[j]]
        0 <= i < v.objects.len() && 0 <= k < v.objects[i].operands.len() && 0 <= j < n
            && v.objects[i].operands[k] == Some(olds[j]) ==> w.objects[i].operands[k] == Some(
            news[j],
        )
    &&& forall|i: int, k: int|
        #![trigger w.objects[i].operands[k]]
        0 <= i < v.objects.len() && 0 <= k < v.objects[i].operands.len() && (forall|j: int|
            0 <= j < n ==> v.objects[i].operands[k] != Some(#[trigger] olds[j]))
            ==> w.objects[i].operands[k] == v.objects[i].operands[k]
    &&& forall|j: int|
        #![trigger olds[j]]
        0 <= j < n ==> aliases(v, olds[j]).subset_of(aliases(w, news[j])) && aliases(w, olds[j])
            == Set::<WireView>::empty()
    &&& forall|j: int|
        #![trigger olds[j]]
        n <= j < olds.len() ==> aliases(w, olds[j]) == aliases(v, olds[j])
}

/// Where no new root is an old one, replacing the roots replaces all uses of
/// the old roots by the new ones, as operands and as outputs.
pub proof fn law_roots_are_replaced(
    v: NetlistView,
    olds: Seq<DrivenNet>,
    news: Seq<DrivenNet>,
    held: Seq<DrivenNet>,
    n: int,
)
    requires
        has_nets(v, olds),
        olds.no_duplicates(),
        olds.len() == news.len(),
        forall|j: int, k: int|
            0 <= j < olds.len() && 0 <= k < news.len() ==> #[trigger] olds[j] != #[trigger] news[k],
        0 <= n <= olds.len(),
        roots_replaced(v, olds, news, held, n) is Ok,
    ensures
        uses_replaced(v, roots_replaced(v, olds, news, held, n)->Ok_0, olds, news, n),
    decreases n,
{
    if n > 0 {
        law_roots_are_replaced(v, olds, news, held, n - 1);
        let w = roots_replaced(v, olds, news, held, n - 1)->Ok_0;
        let of = olds[n - 1];
        let with = news[n - 1];
        let all = olds.skip(n) + news + held;
        assert(all[olds.len() - 1] == with);
        assert(has_net(v, olds[n - 1]));
        let y = root_renamed(w, of);
        let x = roots_replaced(v, olds, news, held, n)->Ok_0;
        assert(x == rewired(y, of, with));
        assert(forall|d: DrivenNet| #[trigger] aliases(y, d) == aliases(w, d));
        assert forall|i: int| 0 <= i < v.objects.len() implies (#[trigger] x.objects[i]).kind
            == w.objects[i].kind && x.objects[i].operands == object_rewired(
            w.objects[i],
            of,
            with,
        ).operands by {
            assert(y.objects[i].kind == w.objects[i].kind);
            assert(y.objects[i].operands == w.objects[i].operands);
            assert(x.objects[i] == object_rewired(y.objects[i], of, with));
        }
        assert forall|i: int, k: int, j: int|
            #![trigger x.objects[i].operands[k], olds[j]]
            0 <= i < v.objects.len() && 0 <= k < v.objects[i].operands.len() && 0 <= j < n
                && v.objects[i].operands[k] == Some(olds[j]) implies x.objects[i].operands[k]
            == Some(news[j]) by {
            let before = w.objects[i].operands[k];
            if j < n - 1 {
                assert(before == Some(news[j]));
                assert(of != news[j]);
            } else {
                assert(forall|l: int|
                    0 <= l < n - 1 ==> v.objects[i].operands[k] != Some(#[trigger] olds[l]));
                assert(before == v.objects[i].operands[k]);
            }
        }
        assert forall|i: int, k: int|
            #![trigger x.objects[i].operands[k]]
            0 <= i < v.objects.len() && 0 <= k < v.objects[i].operands.len() && (forall|j: int|
                0 <= j < n ==> v.objects[i].operands[k] != Some(
                    #[trigger] olds[j],
                )) implies x.objects[i].operands[k] == v.objects[i].operands[k] by {
            assert(v.objects[i].operands[k] != Some(olds[n - 1]));
            assert(w.objects[i].operands[k] == v.objects[i].operands[k]);
        }
        assert forall|j: int|
            #![trigger olds[j]]
            0 <= j < n implies aliases(v, olds[j]).subset_of(aliases(x, news[j])) && aliases(
            x,
            olds[j],
        ) == Set::<WireView>::empty() by {
            assert(of != news[j]);
            assert(with != olds[j]);
            if j < n - 1 {
                assert(olds[j] != of);
                assert(aliases(x, olds[j]) == aliases(w, olds[j]));
            }
        }
        assert forall|j: int|
            #![trigger olds[j]]
            n <= j < olds.len() implies aliases(x, olds[j]) == aliases(v, olds[j]) by {
            assert(olds[j] != of);
            assert(with != olds[j]);
        }
    }
}

/// Whether a net computes the node at place `i`, in a netlist of which the
/// objects `keep` are left: a leaf is the net of its name, and any other
/// node an instance of its cell, with the truth table of the node and
/// operands that compute the node's own.
pub open spec fn realizes<L: LogicCell<PrimitiveCell>>(
    m: MappingView,
    keep: Seq<usize>,
    v: NetlistView,
    net: DrivenNet,
    i: int,
) -> bool
    decreases i,
{
    let node = m.nodes[i];
    &&& net.node < v.objects.len()
    &&& match node.op {
        Op::Var(sym) => same_operand(Some(m.leaves[sym]), Some(net), keep),
        _ => L::cell_of(node) matches Some(cell) && {
            let o = v.objects[net.node as int];
            let ids = operand_ids(node, cell);
            &&& net.pos == 0
            &&& o.kind == ObjectKind::Instance(
                instance_of(i as nat),
                prepared(cell, table_of(m.nodes, i)),
            )
            &&& o.operands.len() == ids.len()
            &&& forall|k: int|
                0 <= k < ids.len() ==> ids[k] < i && ((
                #[trigger] o.operands[k]) matches Some(d) && realizes::<L>(
                    m,
                    keep,
                    v,
                    d,
                    ids[k] as int,
                ))
        },
    }
}

/// Whether a root that is a leaf of the expression too stays in place.
pub open spec fn leaves_stay(m: MappingView, news: Seq<DrivenNet>) -> bool {
    forall|i: int, j: int|
        0 <= i < m.nodes.len() && 0 <= j < m.roots.len() ==> ((
        #[trigger] m.nodes[i]).op matches Op::Var(sym) ==> m.leaves[sym] == #[trigger] m.roots[j]
            ==> news[j] == m.roots[j])
}

/// Replacing roots changes operands that are such a root, and no others.
pub proof fn lemma_others_stay(
    v: NetlistView,
    olds: Seq<DrivenNet>,
    news: Seq<DrivenNet>,
    held: Seq<DrivenNet>,
    n: int,
    i: int,
)
    requires
        has_nets(v, olds),
        olds.len() == news.len(),
        0 <= n <= olds.len(),
        roots_replaced(v, olds, news, held, n) is Ok,
        0 <= i < v.objects.len(),
    ensures
        ({
            let w = roots_replaced(v, olds, news, held, n)->Ok_0;
            &&& w.objects.len() == v.objects.len()
            &&& w.objects[i].kind == v.objects[i].kind
            &&& w.objects[i].operands.len() == v.objects[i].operands.len()
            &&& forall|k: int|
                #![trigger w.objects[i].operands[k]]
                0 <= k < v.objects[i].operands.len() && (forall|j: int|
                    0 <= j < n && v.objects[i].operands[k] == Some(#[trigger] olds[j]) ==> olds[j]
                        == news[j]) ==> w.objects[i].operands[k] == v.objects[i].operands[k]
        }),
    decreases n,
{
    if n > 0 {
        lemma_others_stay(v, olds, news, held, n - 1, i);
        let w = roots_replaced(v, olds, news, held, n - 1)->Ok_0;
        let of = olds[n - 1];
        let with = news[n - 1];
        assert((olds.skip(n) + news + held)[olds.len() - 1] == with);
        assert(has_net(v, olds[n - 1]));
        let y = root_renamed(w, of);
        let x = roots_replaced(v, olds, news, held, n)->Ok_0;
        assert(y.objects[i].kind == w.objects[i].kind);
        assert(y.objects[i].operands == w.objects[i].operands);
        if of != with {
            assert(x == rewired(y, of, with));
            assert(x.objects[i] == object_rewired(y.objects[i], of, with));
            assert forall|k: int|
                #![trigger x.objects[i].operands[k]]
                0 <= k < v.objects[i].operands.len() && (forall|j: int|
                    0 <= j < n && v.objects[i].operands[k] == Some(#[trigger] olds[j]) ==> olds[j]
                        == news[j]) implies x.objects[i].operands[k] == v.objects[i].operands[k] by {
                assert(v.objects[i].operands[k] != Some(olds[n - 1]));
                assert(w.objects[i].operands[k] == v.objects[i].operands[k]);
            }
        } else {
            assert(x == y);
        }
    }
}

/// What the parts of a rewriting are, for a proof about it: the insertion
/// `s`, the netlist `w` with the roots replaced, and what is left of it.
spec fn rewriting<L: LogicCell<PrimitiveCell>>(
    m: MappingView,
    v: NetlistView,
    s: InsertState,
    w: NetlistView,
    news: Seq<DrivenNet>,
    held: Seq<DrivenNet>,
    keep: Seq<usize>,
    f: NetlistView,
) -> bool {
    &&& dag(m.nodes)
    &&& m.nodes.len() <= usize::MAX
    &&& netlist_ok(v)
    &&& rewritable::<L>(m, v)
    &&& nodes_inserted::<L>(m, v, m.nodes.len() as int) == Ok::<
        InsertState,
        (NetlistView, ErrorView),
    >(s)
    &&& s.netlist.objects.len() <= usize::MAX
    &&& roots_replaced(s.netlist, m.roots, news, held, m.roots.len() as int) == Ok::<
        NetlistView,
        (NetlistView, ErrorView),
    >(w)
    &&& m.roots.len() == news.len()
    &&& leaves_stay(m, news)
    &&& f.objects.len() == keep.len()
    &&& forall|i: int|
        #![trigger f.objects[i]]
        0 <= i < keep.len() ==> keep[i] < w.objects.len() && {
            let o = w.objects[keep[i] as int];
            &&& f.objects[i].kind == o.kind
            &&& f.objects[i].operands.len() == o.operands.len()
            &&& forall|k: int|
                0 <= k < o.operands.len() ==> same_operand(
                    o.operands[k],
                    #[trigger] f.objects[i].operands[k],
                    keep,
                )
        }
}

/// The operands of an inserted node are still those after the roots are
/// replaced.
proof fn lemma_inserted_stay<L: LogicCell<PrimitiveCell>>(
    m: MappingView,
    v: NetlistView,
    s: InsertState,
    w: NetlistView,
    news: Seq<DrivenNet>,
    held: Seq<DrivenNet>,
    keep: Seq<usize>,
    f: NetlistView,
    i: int,
)
    requires
        rewriting::<L>(m, v, s, w, news, held, keep, f),
        0 <= i < m.nodes.len(),
        has_own_net(m.nodes[i]),
        !(m.nodes[i].op is Var),
    ensures
        L::cell_of(m.nodes[i]) matches Some(cell) && {
            let ids = operand_ids(m.nodes[i], cell);
            let net = s.nets[i as usize];
            &&& net.pos == 0
            &&& net.node < w.objects.len()
            &&& w.objects[net.node as int].kind == ObjectKind::Instance(
                instance_of(i as nat),
                prepared(cell, table_of(m.nodes, i)),
            )
            &&& w.objects[net.node as int].operands.len() == ids.len()
            &&& forall|k: int|
                0 <= k < ids.len() ==> ids[k] < i && has_own_net(m.nodes[ids[k] as int]) && (
                #[trigger] w.objects[net.node as int].operands[k]) == Some(s.nets[ids[k]])
        },
{
    let n = m.nodes.len() as int;
    law_nodes_are_inserted::<L>(m, v, n, i);
    lemma_nodes_inserted::<L>(m, v, n);
    let cell = L::cell_of(m.nodes[i])->0;
    let ids = operand_ids(m.nodes[i], cell);
    let net = s.nets[i as usize];
    let o = s.netlist.objects[net.node as int];
    assert forall|j: int| 0 <= j < m.roots.len() implies has_net(
        s.netlist,
        #[trigger] m.roots[j],
    ) by {
        assert(has_net(v, m.roots[j]));
        assert(s.netlist.objects[m.roots[j].node as int] == v.objects[m.roots[j].node as int]);
    }
    lemma_others_stay(s.netlist, m.roots, news, held, m.roots.len() as int, net.node as int);
    assert(before(m.nodes[i].args, i as nat));
    lemma_prefix_inserted::<L>(m, v, i, n);
    assert(crate::rewrite::operands_have_nets::<L>(m.nodes, i));
    assert forall|k: int| 0 <= k < ids.len() implies ids[k] < i && has_own_net(
        m.nodes[ids[k] as int],
    ) && (#[trigger] w.objects[net.node as int].operands[k]) == Some(s.nets[ids[k]]) by {
        if ids == m.nodes[i].args {
            assert(m.nodes[i].args[k] == ids[k]);
        } else {
            assert(m.nodes[i].args[k + 1] == ids[k]);
        }
        let child = ids[k] as int;
        assert(has_own_net(m.nodes[child]));
        law_nodes_are_inserted::<L>(m, v, n, child);
        if !(m.nodes[child].op is Var) {
            lemma_new_nets::<L>(m, v, n, child);
        }
        assert(o.operands[k] == Some(s.nets[ids[k]]));
        assert forall|j: int|
            0 <= j < m.roots.len() && o.operands[k] == Some(
                #[trigger] m.roots[j],
            ) implies m.roots[j] == news[j] by {
            assert(has_net(v, m.roots[j]));
            assert(m.nodes[child].op is Var);
        }
    }
}

/// Where all nodes are inserted, the first ones are.
pub proof fn lemma_prefix_inserted<L: LogicCell<PrimitiveCell>>(
    m: MappingView,
    v: NetlistView,
    i: int,
    n: int,
)
    requires
        i <= n,
        nodes_inserted::<L>(m, v, n) is Ok,
    ensures
        nodes_inserted::<L>(m, v, i) is Ok,
    decreases n - i,
{
    if i < n {
        lemma_prefix_inserted::<L>(m, v, i, n - 1);
    }
}

/// The nets of nodes that are no leaves are new.
pub proof fn lemma_new_nets<L: LogicCell<PrimitiveCell>>(m: MappingView, v: NetlistView, n: int, i: int)
    requires
        0 <= i < n <= m.nodes.len(),
        m.nodes.len() <= usize::MAX,
        nodes_inserted::<L>(m, v, n) is Ok,
        (nodes_inserted::<L>(m, v, n)->Ok_0).netlist.objects.len() <= usize::MAX,
        has_own_net(m.nodes[i]),
        !(m.nodes[i].op is Var),
    ensures
        (nodes_inserted::<L>(m, v, n)->Ok_0).nets[i as usize].node >= v.objects.len(),
    decreases n,
{
    lemma_nodes_inserted::<L>(m, v, n - 1);
    let s = nodes_inserted::<L>(m, v, n - 1)->Ok_0;
    let t = nodes_inserted::<L>(m, v, n)->Ok_0;
    assert(node_inserted::<L>(m.nodes, m.leaves, s, n - 1) == Ok::<InsertState, ErrorView>(t));
    if i < n - 1 {
        lemma_new_nets::<L>(m, v, n - 1, i);
        assert(t.nets[i as usize] == s.nets[i as usize]);
    }
}

/// What is left of the net of a node computes the node.
proof fn lemma_realizes<L: LogicCell<PrimitiveCell>>(
    m: MappingView,
    v: NetlistView,
    s: InsertState,
    w: NetlistView,
    news: Seq<DrivenNet>,
    held: Seq<DrivenNet>,
    keep: Seq<usize>,
    f: NetlistView,
    i: int,
    net: DrivenNet,
)
    requires
        rewriting::<L>(m, v, s, w, news, held, keep, f),
        0 <= i < m.nodes.len(),
        has_own_net(m.nodes[i]),
        same_operand(Some(s.nets[i as usize]), Some(net), keep),
    ensures
        realizes::<L>(m, keep, f, net, i),
    decreases i,
{
    let n = m.nodes.len() as int;
    law_nodes_are_inserted::<L>(m, v, n, i);
    if !(m.nodes[i].op is Var) {
        lemma_inserted_stay::<L>(m, v, s, w, news, held, keep, f, i);
        let cell = L::cell_of(m.nodes[i])->0;
        let ids = operand_ids(m.nodes[i], cell);
        let o = f.objects[net.node as int];
        let p = w.objects[keep[net.node as int] as int];
        assert forall|k: int| 0 <= k < ids.len() implies ids[k] < i && ((
        #[trigger] o.operands[k]) matches Some(d) && realizes::<L>(
            m,
            keep,
            f,
            d,
            ids[k] as int,
        )) by {
            assert(p.operands[k] == Some(s.nets[ids[k]]));
            assert(same_operand(p.operands[k], f.objects[net.node as int].operands[k], keep));
            lemma_realizes::<L>(m, v, s, w, news, held, keep, f, ids[k] as int, o.operands[k]->0);
        }
    }
}

/// After a rewriting, the new roots compute the expression. A root that is
/// also a leaf of the expression has to stay in place, as its uses within
/// the expression would be replaced too.
pub proof fn law_rewriting_puts_the_expression_in<L: LogicCell<PrimitiveCell>>(
    m: MappingView,
    v: NetlistView,
    held: Seq<DrivenNet>,
    x: NetlistView,
    keep: Seq<usize>,
    r: Seq<DrivenNet>,
    wires: Seq<WireView>,
    j: int,
)
    requires
        mapping_ok(m),
        m.nodes.len() <= usize::MAX,
        netlist_ok(v),
        rewritable::<L>(m, v),
        reconnected::<L>(m, v, held) is Ok,
        (reconnected::<L>(m, v, held)->Ok_0).0.objects.len() <= usize::MAX,
        leaves_stay(m, (reconnected::<L>(m, v, held)->Ok_0).1),
        pruned((reconnected::<L>(m, v, held)->Ok_0).0, x, keep),
        same_nets((reconnected::<L>(m, v, held)->Ok_0).1, r, keep),
        has_nets(x, r),
        0 <= j < r.len(),
    ensures
        realizes::<L>(
            m,
            keep,
            wires_set(x, r, wires, r.len() as int),
            r[j],
            roots_of(m.nodes)[j] as int,
        ),
{
    let (w, news) = reconnected::<L>(m, v, held)->Ok_0;
    let n = m.nodes.len() as int;
    let s = nodes_inserted::<L>(m, v, n)->Ok_0;
    let f = wires_set(x, r, wires, r.len() as int);
    let id = roots_of(m.nodes)[j];
    lemma_wires_set(x, r, wires, r.len() as int);
    lemma_nodes_inserted::<L>(m, v, n);
    assert forall|j: int| 0 <= j < m.roots.len() implies has_net(
        s.netlist,
        #[trigger] m.roots[j],
    ) by {
        assert(has_net(v, m.roots[j]));
        assert(s.netlist.objects[m.roots[j].node as int] == v.objects[m.roots[j].node as int]);
    }
    assert(s.netlist.objects.len() > 0) by {
        assert(has_net(s.netlist, m.roots[0]));
    }
    lemma_others_stay(s.netlist, m.roots, news, held, m.roots.len() as int, 0);
    assert forall|i: int|
        #![trigger f.objects[i]]
        0 <= i < keep.len() implies keep[i] < w.objects.len() && {
        let o = w.objects[keep[i] as int];
        &&& f.objects[i].kind == o.kind
        &&& f.objects[i].operands.len() == o.operands.len()
        &&& forall|k: int|
            0 <= k < o.operands.len() ==> same_operand(
                o.operands[k],
                #[trigger] f.objects[i].operands[k],
                keep,
            )
    } by {
        assert(f.objects[i].operands == x.objects[i].operands);
        let o = w.objects[keep[i] as int];
        assert forall|k: int| 0 <= k < o.operands.len() implies same_operand(
            o.operands[k],
            #[trigger] f.objects[i].operands[k],
            keep,
        ) by {
            assert(same_operand(o.operands[k], x.objects[i].operands[k], keep));
        }
    }
    assert(rewriting::<L>(m, v, s, w, news, held, keep, f));
    assert(news[j] == s.nets[id]);
    assert(same_operand(Some(news[j]), Some(r[j]), keep));
    assert(has_own_net(m.nodes[id as int]));
    lemma_realizes::<L>(m, v, s, w, news, held, keep, f, id as int, r[j]);
}

/// Nets of other objects do not hold on to an object.
proof fn lemma_not_held(held: Seq<DrivenNet>, node: usize)
    requires
        forall|i: int| 0 <= i < held.len() ==> (#[trigger] held[i]).node != node,
    ensures
        holds(held, node) == 0,
    decreases held.len(),
{
    reveal(Seq::filter);
    if held.len() > 0 {
        let rest = held.drop_last();
        assert forall|i: int| 0 <= i < rest.len() implies (#[trigger] rest[i]).node != node by {
            assert(rest[i] == held[i]);
        }
        lemma_not_held(rest, node);
        assert(held[held.len() - 1].node != node);
    }
}

/// Whether the wire that a root gets is free to be taken: none of the names
/// that the root goes by outside.
pub open spec fn rename_is_free(v: NetlistView, d: DrivenNet) -> bool {
    !aliases(v, d).contains(wire_of(root_renamed(v, d), d))
}

/// Different roots of a netlist can be replaced by new nets, unless one goes
/// outside by the very name that it would be given.
proof fn lemma_roots_replaced(
    v: NetlistView,
    olds: Seq<DrivenNet>,
    news: Seq<DrivenNet>,
    held: Seq<DrivenNet>,
    bound: nat,
    n: int,
)
    requires
        has_nets(v, olds),
        olds.len() == news.len(),
        0 <= n <= olds.len(),
        forall|i: int, j: int|
            0 <= i < j < olds.len() ==> (#[trigger] olds[i]).node != (#[trigger] olds[j]).node,
        forall|i: int| 0 <= i < olds.len() ==> (#[trigger] olds[i]).node < bound,
        forall|i: int| 0 <= i < news.len() ==> (#[trigger] news[i]).node >= bound,
        forall|i: int, j: int|
            0 <= i < olds.len() && 0 <= j < held.len() ==> (#[trigger] olds[i]).node != (
            #[trigger] held[j]).node,
        forall|i: int| 0 <= i < olds.len() ==> rename_is_free(v, #[trigger] olds[i]),
    ensures
        roots_replaced(v, olds, news, held, n) matches Ok(w) && w.objects.len() == v.objects.len() && (
        forall|j: int|
            #![trigger olds[j]]
            n <= j < olds.len() ==> {
                &&& w.objects[olds[j].node as int].wires == v.objects[olds[j].node as int].wires
                &&& w.outputs.contains_key(olds[j]) == v.outputs.contains_key(olds[j])
                &&& aliases(w, olds[j]) == aliases(v, olds[j])
            }),
    decreases n,
{
    if n > 0 {
        lemma_roots_replaced(v, olds, news, held, bound, n - 1);
        let w = roots_replaced(v, olds, news, held, n - 1)->Ok_0;
        let of = olds[n - 1];
        let with = news[n - 1];
        let all = olds.skip(n) + news + held;
        assert(has_net(v, olds[n - 1]));
        assert(rename_is_free(v, olds[n - 1]));
        assert(all[olds.len() - 1] == with);
        assert(of.node < bound && with.node >= bound);
        let y = root_renamed(w, of);
        assert(wire_of(w, of) == wire_of(v, of));
        assert(wire_of(y, of) == wire_of(root_renamed(v, of), of));
        assert forall|i: int| 0 <= i < all.len() implies (#[trigger] all[i]).node != of.node by {
            if i < olds.len() - n {
                assert(all[i] == olds[n + i]);
            } else if i < olds.len() - n + news.len() {
                assert(all[i] == news[i - (olds.len() - n)]);
            } else {
                assert(all[i] == held[i - (olds.len() - n) - news.len()]);
            }
        }
        lemma_not_held(all, of.node);
        let x = rewired(y, of, with);
        assert(roots_replaced(v, olds, news, held, n) == Ok::<NetlistView, (NetlistView, ErrorView)>(x));
        assert forall|j: int|
            #![trigger olds[j]]
            n <= j < olds.len() implies {
            &&& x.objects[olds[j].node as int].wires == v.objects[olds[j].node as int].wires
            &&& x.outputs.contains_key(olds[j]) == v.outputs.contains_key(olds[j])
            &&& aliases(x, olds[j]) == aliases(v, olds[j])
        } by {
            assert(has_net(v, olds[j]));
            assert(olds[n - 1].node != olds[j].node);
            assert(olds[j].node < bound);
        }
    }
}

/// An expression that can be inserted is put in place of the old roots, if
/// none of its roots is a leaf, the old roots are nets of different objects
/// that nothing else holds on to, and none of them goes outside by the name
/// that it would be given.
pub proof fn law_reconnection_succeeds<L: LogicCell<PrimitiveCell>>(
    m: MappingView,
    v: NetlistView,
    held: Seq<DrivenNet>,
)
    requires
        mapping_ok(m),
        m.nodes.len() <= usize::MAX,
        netlist_ok(v),
        rewritable::<L>(m, v),
        nodes_inserted::<L>(m, v, m.nodes.len() as int) matches Ok(s) && s.netlist.objects.len()
            <= usize::MAX,
        forall|i: int, j: int|
            0 <= i < j < m.roots.len() ==> (#[trigger] m.roots[i]).node != (
            #[trigger] m.roots[j]).node,
        forall|i: int, j: int|
            0 <= i < m.roots.len() && 0 <= j < held.len() ==> (#[trigger] m.roots[i]).node != (
            #[trigger] held[j]).node,
        forall|i: int|
            0 <= i < m.roots.len() ==> !(m.nodes[(
            #[trigger] roots_of(m.nodes)[i]) as int].op is Var),
        forall|i: int| 0 <= i < m.roots.len() ==> rename_is_free(v, #[trigger] m.roots[i]),
    ensures
        reconnected::<L>(m, v, held) is Ok,
{
    let n = m.nodes.len() as int;
    let s = nodes_inserted::<L>(m, v, n)->Ok_0;
    let news = crate::rewrite::new_roots(m, s.nets);
    lemma_nodes_inserted::<L>(m, v, n);
    assert forall|i: int| 0 <= i < m.roots.len() implies has_net(s.netlist, #[trigger] m.roots[i])
        && rename_is_free(s.netlist, m.roots[i]) && m.roots[i].node < v.objects.len() by {
        let d = m.roots[i];
        assert(has_net(v, m.roots[i]) && rename_is_free(v, m.roots[i]));
        assert(s.netlist.objects[d.node as int] == v.objects[d.node as int]);
        assert(wire_of(root_renamed(s.netlist, d), d) == wire_of(root_renamed(v, d), d));
    }
    assert forall|i: int| 0 <= i < news.len() implies (#[trigger] news[i]).node
        >= v.objects.len() by {
        let id = roots_of(m.nodes)[i];
        assert(has_own_net(m.nodes[id as int]));
        lemma_new_nets::<L>(m, v, n, id as int);
    }
    lemma_roots_replaced(s.netlist, m.roots, news, held, v.objects.len(), m.roots.len() as int);
}

/// Replacing roots keeps outputs: one that was a root is then the new root,
/// and any other still is one.
proof fn lemma_outputs_move(
    v: NetlistView,
    olds: Seq<DrivenNet>,
    news: Seq<DrivenNet>,
    held: Seq<DrivenNet>,
    n: int,
    d: DrivenNet,
)
    requires
        olds.len() == news.len(),
        0 <= n <= olds.len(),
        roots_replaced(v, olds, news, held, n) is Ok,
        v.outputs.contains_key(d),
        forall|j: int, k: int|
            0 <= j < olds.len() && 0 <= k < news.len() ==> #[trigger] olds[j] != #[trigger] news[k],
        olds.no_duplicates(),
    ensures
        ({
            let w = roots_replaced(v, olds, news, held, n)->Ok_0;
            &&& (forall|j: int| 0 <= j < n ==> #[trigger] olds[j] != d) ==> w.outputs.contains_key(d)
            &&& forall|j: int|
                0 <= j < n && #[trigger] olds[j] == d ==> w.outputs.contains_key(news[j])
        }),
    decreases n,
{
    if n > 0 {
        lemma_outputs_move(v, olds, news, held, n - 1, d);
        let w = roots_replaced(v, olds, news, held, n - 1)->Ok_0;
        let of = olds[n - 1];
        let with = news[n - 1];
        assert((olds.skip(n) + news + held)[olds.len() - 1] == with);
        let y = root_renamed(w, of);
        let x = roots_replaced(v, olds, news, held, n)->Ok_0;
        assert(y.outputs == w.outputs);
        assert(of != with);
        assert(x == rewired(y, of, with));
        assert forall|j: int| 0 <= j < n && #[trigger] olds[j] == d implies x.outputs.contains_key(
            news[j],
        ) by {
            assert(of != news[j]);
            if j == n - 1 {
                assert forall|k: int| 0 <= k < n - 1 implies #[trigger] olds[k] != d by {}
            }
        }
        if forall|j: int| 0 <= j < n ==> #[trigger] olds[j] != d {
            assert(olds[n - 1] != d);
        }
    }
}

/// Where an output is reached along a walk over which no root of the mapping
/// is met but the last, the new root is behind an output after the old roots
/// are replaced, and so stays when the netlist is cleaned. So a rewriting does
/// not fail for a dangling reference to a root that something outside uses.
pub proof fn law_used_roots_stay<L: LogicCell<PrimitiveCell>>(
    m: MappingView,
    v: NetlistView,
    held: Seq<DrivenNet>,
    i: int,
    d: DrivenNet,
    p: Seq<usize>,
)
    requires
        mapping_ok(m),
        netlist_ok(v),
        rewritable::<L>(m, v),
        reconnected::<L>(m, v, held) is Ok,
        netlist_ok((reconnected::<L>(m, v, held)->Ok_0).0),
        has_nets((reconnected::<L>(m, v, held)->Ok_0).0, (reconnected::<L>(m, v, held)->Ok_0).1),
        m.roots.no_duplicates(),
        forall|j: int, k: int|
            0 <= j < m.roots.len() && 0 <= k < m.roots.len() ==> #[trigger] m.roots[j] != (
            #[trigger] (reconnected::<L>(m, v, held)->Ok_0).1[k]),
        0 <= i < m.roots.len(),
        v.objects[m.roots[i].node as int].wires.len() == 1,
        v.outputs.contains_key(d),
        walk(v, p),
        p.first() == d.node,
        p.last() == m.roots[i].node,
        forall|t: int, j: int|
            0 <= t < p.len() - 1 && 0 <= j < m.roots.len() ==> #[trigger] p[t] != (
            #[trigger] m.roots[j]).node,
    ensures
        lasts(
            (reconnected::<L>(m, v, held)->Ok_0).0,
            (reconnected::<L>(m, v, held)->Ok_0).1[i].node,
        ),
{
    let (w, news) = reconnected::<L>(m, v, held)->Ok_0;
    let n = m.nodes.len() as int;
    let s = nodes_inserted::<L>(m, v, n)->Ok_0;
    let last = m.roots.len() as int;
    let root = m.roots[i];
    let new = news[i];
    lemma_nodes_inserted::<L>(m, v, n);
    assert forall|j: int| 0 <= j < m.roots.len() implies has_net(
        s.netlist,
        #[trigger] m.roots[j],
    ) by {
        assert(has_net(v, m.roots[j]));
        assert(s.netlist.objects[m.roots[j].node as int] == v.objects[m.roots[j].node as int]);
    }
    assert(s.netlist.outputs == v.outputs);
    lemma_outputs_move(s.netlist, m.roots, news, held, last, d);
    assert(has_net(v, m.roots[i]) && has_net(v, d));
    assert(has_net(w, news[i]));
    crate::order::lemma_reaches_self(w, new.node);
    if p.len() == 1 {
        crate::order::lemma_first_net(v, d);
        crate::order::lemma_first_net(v, root);
        assert(m.roots[i] == d);
        crate::netlist::law_what_outputs_need_stays(w, new, new.node);
    } else {
        assert forall|j: int| 0 <= j < last implies #[trigger] m.roots[j] != d by {
            assert(p[0] != m.roots[j].node);
        }
        law_roots_are_replaced(s.netlist, m.roots, news, held, last);
        let t = p.len() - 2;
        lemma_walk_stays(m, v, s.netlist, w, news, p, t);
        let q = p.take(t + 1);
        assert(reaches(w, d.node, p[t])) by {
            assert(walk(w, q) && q.first() == d.node && q.last() == p[t]);
        }
        assert(linked(v, p, t + 1));
        let k = choose|k: int|
            0 <= k < v.objects[p[t] as int].operands.len() && ((
            #[trigger] v.objects[p[t] as int].operands[k]) matches Some(e) && e.node == root.node);
        let e = v.objects[p[t] as int].operands[k]->0;
        crate::netlist::lemma_operand(v, p[t] as int, k);
        crate::order::lemma_first_net(v, e);
        crate::order::lemma_first_net(v, root);
        assert(e == m.roots[i]);
        assert(s.netlist.objects[p[t] as int] == v.objects[p[t] as int]);
        assert(w.objects[p[t] as int].operands[k] == Some(news[i]));
        assert(driven_by(w, p[t], new.node));
        crate::order::lemma_reaches_driver(w, d.node, p[t], new.node);
        crate::netlist::law_what_outputs_need_stays(w, d, new.node);
    }
}

/// A walk over which no old root is met is one after they are replaced.
proof fn lemma_walk_stays(
    m: MappingView,
    v: NetlistView,
    u: NetlistView,
    w: NetlistView,
    news: Seq<DrivenNet>,
    p: Seq<usize>,
    t: int,
)
    requires
        walk(v, p),
        0 <= t < p.len() - 1,
        v.objects.len() <= u.objects.len(),
        forall|i: int| 0 <= i < v.objects.len() ==> #[trigger] u.objects[i] == v.objects[i],
        uses_replaced(u, w, m.roots, news, m.roots.len() as int),
        forall|t: int, j: int|
            0 <= t < p.len() - 1 && 0 <= j < m.roots.len() ==> #[trigger] p[t] != (
            #[trigger] m.roots[j]).node,
    ensures
        walk(w, p.take(t + 1)),
{
    let q = p.take(t + 1);
    assert forall|i: int| 0 < i < q.len() implies #[trigger] linked(w, q, i) by {
        assert(linked(v, p, i));
        let a = p[i - 1];
        let k = choose|k: int|
            0 <= k < v.objects[a as int].operands.len() && ((
            #[trigger] v.objects[a as int].operands[k]) matches Some(e) && e.node == p[i]);
        assert(u.objects[a as int] == v.objects[a as int]);
        assert forall|j: int| 0 <= j < m.roots.len() implies u.objects[a as int].operands[k]
            != Some(#[trigger] m.roots[j]) by {
            assert(p[i] != m.roots[j].node);
        }
        assert(w.objects[a as int].operands[k] == u.objects[a as int].operands[k]);
        assert(driven_by(w, q[i - 1], q[i]));
    }
}

/// After a rewriting, each new root has the wire that the old one had before,
/// where no later root is the same net.
pub proof fn law_new_roots_take_the_wires(
    m: MappingView,
    v: NetlistView,
    x: NetlistView,
    r: Seq<DrivenNet>,
    j: int,
)
    requires
        has_nets(x, r),
        r.len() == m.roots.len(),
        0 <= j < r.len(),
        forall|k: int| j < k < r.len() ==> #[trigger] r[k] != r[j],
    ensures
        wire_of(
            wires_set(x, r, root_wires(m, v), r.len() as int),
            r[j],
        ) == v.objects[m.roots[j].node as int].wires[m.roots[j].pos as int],
{
    law_nets_get_their_wires(x, r, root_wires(m, v), r.len() as int, j);
}

/// After a rewriting, a net that is not a new root has the wire that it had
/// where nothing was taken out yet.
pub proof fn law_other_nets_keep_their_wires(
    x: NetlistView,
    r: Seq<DrivenNet>,
    wires: Seq<WireView>,
    n: int,
    d: DrivenNet,
)
    requires
        has_nets(x, r),
        n <= r.len(),
        has_net(x, d),
        forall|k: int| 0 <= k < n ==> #[trigger] r[k] != d,
    ensures
        wire_of(wires_set(x, r, wires, n), d) == wire_of(x, d),
    decreases n,
{
    if n > 0 {
        law_other_nets_keep_their_wires(x, r, wires, n - 1, d);
        lemma_wires_set(x, r, wires, n - 1);
        assert(has_net(x, r[n - 1]));
        assert(r[n - 1] != d);
    }
}

/// A root that is an output gives up its wire: the new one is called like the
/// old, with `_old` behind it. One that is no output keeps it, and so do all
/// other nets.
pub proof fn law_replaced_roots_are_renamed(v: NetlistView, root: DrivenNet, d: DrivenNet)
    requires
        has_net(v, root),
        has_net(v, d),
    ensures
        d != root ==> wire_of(root_renamed(v, root), d) == wire_of(v, d),
        !v.outputs.contains_key(root) ==> root_renamed(v, root) == v,
        v.outputs.contains_key(root) ==> wire_of(root_renamed(v, root), root).id == join_idents(
            wire_of(v, root).id,
            ident_of(seq!['_', 'o', 'l', 'd']),
        ),
        root_renamed(v, root).outputs == v.outputs,
{
    reveal_strlit("_old");
    assert("_old"@ =~= seq!['_', 'o', 'l', 'd']);
}

/// A node without a truth table of its own has the one that comes last before
/// it.
pub proof fn law_tables_are_the_last_before(nodes: Seq<NodeView>, i: int, j: int)
    requires
        0 <= i < nodes.len(),
    ensures
        nodes[i].args.len() > 0 && nodes[nodes[i].args[0] as int].op is Program
            ==> nodes[nodes[i].args[0] as int].op == Op::Program(table_of(nodes, i)),
        !(nodes[i].args.len() > 0 && nodes[nodes[i].args[0] as int].op is Program) && 0 <= j < i
            && nodes[j].op is Program && (forall|k: int|
            j < k < i ==> !((#[trigger] nodes[k]).op is Program)) ==> nodes[j].op == Op::Program(
            table_of(nodes, i),
        ),
{
    if 0 <= j < i && nodes[j].op is Program && (forall|k: int|
        j < k < i ==> !((#[trigger] nodes[k]).op is Program)) {
        lemma_last_program(nodes, i, j);
    }
}

/// What is met last is the last that there is.
proof fn lemma_last_program(nodes: Seq<NodeView>, i: int, j: int)
    requires
        0 <= j < i,
        nodes[j].op is Program,
        forall|k: int| j < k < i ==> !((#[trigger] nodes[k]).op is Program),
    ensures
        nodes[j].op == Op::Program(last_program(nodes, i)),
    decreases i,
{
    if j < i - 1 {
        assert(!(nodes[i - 1].op is Program));
        lemma_last_program(nodes, i - 1, j);
    }
}

/// A node that no cell computes is refused with the text of its operator. One
/// whose cell has another number of input ports than the node has children for
/// them is refused with both numbers, that of the ports first. Whatever was
/// inserted before stays, and nothing else is.
pub proof fn law_nodes_are_refused_for_a_reason<L: LogicCell<PrimitiveCell>>(
    m: MappingView,
    v: NetlistView,
    n: int,
)
    requires
        0 < n <= m.nodes.len(),
        m.nodes.len() <= usize::MAX,
        nodes_inserted::<L>(m, v, n - 1) is Ok,
        has_own_net(m.nodes[n - 1]),
        !(m.nodes[n - 1].op is Var),
        m.nodes[n - 1].args.len() <= usize::MAX,
        L::cell_of(m.nodes[n - 1]) matches Some(cell) ==> cell.inputs.len() <= usize::MAX,
        L::cell_of(m.nodes[n - 1]) matches Some(cell) ==> lut_size(cell.ptype) > 0
            ==> m.nodes[n - 1].args.len() > 0,
    ensures
        match (L::cell_of(m.nodes[n - 1]), nodes_inserted::<L>(m, v, n)) {
            (None, Err((w, ErrorView::ParseError(e)))) => w == (nodes_inserted::<L>(
                m,
                v,
                n - 1,
            )->Ok_0).netlist && e == "Cannot reinsert node "@ + L::op_text(m.nodes[n - 1].op)
                + " without associated cell"@,
            (Some(cell), Err((w, ErrorView::ArgumentMismatch(want, got)))) => {
                &&& w == (nodes_inserted::<L>(m, v, n - 1)->Ok_0).netlist
                &&& want == cell.inputs.len()
                &&& lut_size(cell.ptype) == 0 ==> got == m.nodes[n - 1].args.len()
                &&& lut_size(cell.ptype) > 0 ==> got == m.nodes[n - 1].args.len() - 1
                &&& want != got
            },
            (Some(cell), Ok(t)) => {
                &&& lut_size(cell.ptype) == 0 ==> cell.inputs.len() == m.nodes[n - 1].args.len()
                &&& lut_size(cell.ptype) > 0 ==> cell.inputs.len() == m.nodes[n - 1].args.len() - 1
                &&& t.netlist.objects.len() == (nodes_inserted::<L>(
                    m,
                    v,
                    n - 1,
                )->Ok_0).netlist.objects.len() + 1
            },
            _ => false,
        },
{
    let s = nodes_inserted::<L>(m, v, n - 1)->Ok_0;
    assert(nodes_inserted::<L>(m, v, n) == match node_inserted::<L>(m.nodes, m.leaves, s, n - 1) {
        Ok(t) => Ok::<InsertState, (NetlistView, ErrorView)>(t),
        Err(e) => Err((s.netlist, e)),
    });
    assert(m.nodes[n - 1].args.len() > 0 ==> m.nodes[n - 1].args.skip(1).len()
        == m.nodes[n - 1].args.len() - 1);
}

/// The instances of different nodes have different names, made of `reinst_`
/// and the place of the node.
pub proof fn law_instances_are_named_by_place(i: nat, j: nat)
    ensures
        instance_of(i) == ident_of(seq!['r', 'e', 'i', 'n', 's', 't', '_'] + decimal(i)),
        decimal(i) == decimal(j) ==> i == j,
{
    reveal_strlit("reinst_");
    assert("reinst_"@ =~= seq!['r', 'e', 'i', 'n', 's', 't', '_']);
    crate::text::law_decimal_reads_back(i);
    crate::text::law_decimal_reads_back(j);
}

/// Replacing roots leaves all other nets the outputs that they are.
pub proof fn law_other_outputs_stay(
    v: NetlistView,
    olds: Seq<DrivenNet>,
    news: Seq<DrivenNet>,
    held: Seq<DrivenNet>,
    n: int,
    d: DrivenNet,
)
    requires
        olds.len() == news.len(),
        0 <= n <= olds.len(),
        roots_replaced(v, olds, news, held, n) is Ok,
        forall|j: int| 0 <= j < n ==> #[trigger] olds[j] != d,
        forall|j: int| 0 <= j < n ==> #[trigger] news[j] != d,
    ensures
        aliases(roots_replaced(v, olds, news, held, n)->Ok_0, d) == aliases(v, d),
    decreases n,
{
    if n > 0 {
        law_other_outputs_stay(v, olds, news, held, n - 1, d);
        let w = roots_replaced(v, olds, news, held, n - 1)->Ok_0;
        let all = olds.skip(n) + news + held;
        assert(all[olds.len() - 1] == news[n - 1]);
        assert(olds[n - 1] != d && news[n - 1] != d);
        assert(aliases(root_renamed(w, olds[n - 1]), d) == aliases(w, d));
    }
}

} // verus!
