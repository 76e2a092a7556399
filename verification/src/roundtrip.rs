//! Logic that was read can be put back.

use crate::cell::{CellView, PrimitiveCell};
use crate::func::{cell_func, lut_func, AddProgram, LogicCell, LogicFunc};
use crate::lang::{roots_of, CellLang, LutLang, NodeView, Op};
use crate::mapping::MappingView;
use crate::netlist::{has_net, has_nets, netlist_ok, object_ok, DrivenNet, NetlistView, ObjectKind};
use crate::order::order_ok;
use crate::param::{bits_value, law_bits_come_back, lemma_bits_value_bound, ParamView};
use crate::primitive::{input_names, lut_size, PrimitiveType};
use crate::reading::{
    all_readable, driven_up_to, filled, func_of, init_name, law_leaves_are_known,
    law_nodes_follow_nets, law_roots_are_the_mapped_nets, lemma_all_readable, lemma_filled,
    lemma_filled_room, lemma_ids_read, mapped, net_read, nets_read, node_follows, program_of,
    programmed, readable, BuildState,
};
use crate::rewrite::{
    all_nets, has_own_net, has_program, nodes_inserted, operand_ids, operands_have_nets,
    own_program, prepared, rewritable,
};
use vstd::arithmetic::power2::pow2;
use vstd::prelude::*;

verus! {

/// A lookup table that is read and put back is of the same size, and has
/// the same truth table.
pub proof fn law_truth_tables_come_back(
    v: NetlistView,
    s: BuildState,
    net: DrivenNet,
    cell: CellView,
    bits: Seq<bool>,
)
    requires
        netlist_ok(v),
        has_net(v, net),
        v.objects[net.node as int].kind matches ObjectKind::Instance(_, c) && c == cell,
        lut_size(cell.ptype) > 0,
        programmed(cell),
        cell.params[init_name()] == ParamView::BitVec(bits),
        bits.len() == pow2(lut_size(cell.ptype)),
        node_follows::<LutLang>(v, s, net),
    ensures
        has_program(s.nodes, s.nodes[s.ids[net] as int]),
        LutLang::cell_of(s.nodes[s.ids[net] as int]) matches Some(c) && c.ptype == cell.ptype
            && prepared(c, own_program(s.nodes, s.nodes[s.ids[net] as int])).params[init_name()]
            == ParamView::BitVec(bits),
{
    let id = s.ids[net] as int;
    vstd::arithmetic::power2::lemma2_to64();
    lemma_bits_value_bound(bits);
    law_bits_come_back(bits);
    assert(bits.len() <= 64);
    if bits.len() < 64 {
        vstd::arithmetic::power2::lemma_pow2_strictly_increases(bits.len(), 64);
    }
    assert(pow2(64) == 0x10000000000000000);
    let value = bits_value(bits) as u64;
    assert(value == bits_value(bits));
    assert(program_of::<LutLang>(cell) == Some(crate::lang::leaf(Op::Program(value))));
    assert(s.nodes[id - 1].op == Op::Program(value));
    assert(own_program(s.nodes, s.nodes[id]) == value);
    assert(func_of::<LutLang>(v, net) == lut_func(cell.ptype));
    assert(s.nodes[id].args.len() == input_names(cell.ptype).len() + 1);
}

/// Whether the function of the object behind a net, whatever its children,
/// has a cell with as many inputs. If it has any, that is a lookup table
/// exactly where the object came with a truth table.
pub open spec fn comes_back<L: LogicCell<PrimitiveCell>>(v: NetlistView, net: DrivenNet) -> bool where
    PrimitiveCell: LogicFunc<L>,
 {
    match (v.objects[net.node as int].kind, func_of::<L>(v, net)) {
        (ObjectKind::Instance(_, cell), Some(func)) => forall|node: NodeView|
            node.op == func.op && node.args.len() == func.args.len() ==> ((#[trigger] L::cell_of(
                node,
            )) matches Some(c) && c.inputs.len() == cell.inputs.len() && operand_ids(node, c).len()
                == c.inputs.len() && (cell.inputs.len() > 0 ==> (lut_size(c.ptype) > 0
                <==> programmed(cell)))),
        _ => true,
    }
}

/// Whether the node at place `i` can be put back.
pub open spec fn node_goes_back<L: LogicCell<PrimitiveCell>>(nodes: Seq<NodeView>, i: int) -> bool {
    has_own_net(nodes[i]) && !(nodes[i].op is Var) ==> (L::cell_of(nodes[i]) matches Some(cell)
        && cell.inputs.len() == operand_ids(nodes[i], cell).len() && all_nets(
        nodes,
        operand_ids(nodes[i], cell),
    ))
}

/// Whether everything that was read can be put back.
spec fn all_go_back<L: LogicCell<PrimitiveCell>>(s: BuildState) -> bool {
    &&& forall|i: int| 0 <= i < s.nodes.len() ==> #[trigger] node_goes_back::<L>(s.nodes, i)
    &&& forall|d: DrivenNet| #[trigger]
        s.ids.contains_key(d) ==> s.ids[d] < s.nodes.len() && has_own_net(s.nodes[s.ids[d] as int])
}

/// More nodes behind it do not matter to a node.
proof fn lemma_goes_back_on<L: LogicCell<PrimitiveCell>>(
    nodes: Seq<NodeView>,
    more: Seq<NodeView>,
    i: int,
)
    requires
        0 <= i < nodes.len() <= more.len(),
        forall|j: int| 0 <= j < nodes.len() ==> #[trigger] more[j] == nodes[j],
        node_goes_back::<L>(nodes, i),
    ensures
        node_goes_back::<L>(more, i),
{
    assert(more[i] == nodes[i]);
    if let Some(cell) = L::cell_of(nodes[i]) {
        if has_own_net(nodes[i]) && !(nodes[i].op is Var) {
            let ids = operand_ids(nodes[i], cell);
            assert forall|k: int| 0 <= k < ids.len() implies (#[trigger] ids[k]) < more.len()
                && has_own_net(more[ids[k] as int]) by {
                assert(more[ids[k] as int] == nodes[ids[k] as int]);
            }
        }
    }
}

/// One more net that comes back.
proof fn lemma_net_goes_back<L: LogicCell<PrimitiveCell>>(
    v: NetlistView,
    s: BuildState,
    net: DrivenNet,
) where PrimitiveCell: LogicFunc<L> + AddProgram<L>
    requires
        netlist_ok(v),
        has_net(v, net),
        readable::<L>(v, net),
        comes_back::<L>(v, net),
        all_go_back::<L>(s),
        net_read::<L>(v, s, net) is Ok,
        (net_read::<L>(v, s, net)->Ok_0).nodes.len() <= usize::MAX,
    ensures
        all_go_back::<L>(net_read::<L>(v, s, net)->Ok_0),
{
    let t = net_read::<L>(v, s, net)->Ok_0;
    let o = v.objects[net.node as int];
    assert(object_ok(o));
    match (o.kind, func_of::<L>(v, net)) {
        (ObjectKind::Instance(_, cell), Some(func)) => {
            <PrimitiveCell as LogicFunc<L>>::law_func(cell, net.pos as nat);
            if programmed(cell) {
                if let ParamView::BitVec(bits) = cell.params[init_name()] {
                    <PrimitiveCell as AddProgram<L>>::law_program(cell, bits_value(bits) as u64);
                }
            }
            let program = program_of::<L>(cell);
            let shift = if programmed(cell) {
                1int
            } else {
                0int
            };
            let nodes = match program {
                Some(p) => s.nodes.push(p),
                None => s.nodes,
            };
            let args = match program {
                Some(_) => func.args.update(0, s.nodes.len() as usize),
                None => func.args,
            };
            lemma_filled_room(v, net, s.ids, args, shift);
            lemma_filled(v, net, s.ids, args, shift, 0);
            let out = filled(v, net, s.ids, args, shift, 0)->Ok_0;
            let node = NodeView { op: func.op, args: out };
            let last = nodes.len() as int;
            assert(t.nodes == nodes.push(node));
            assert(t.nodes[last] == node);
            let c = L::cell_of(node)->0;
            let ids = operand_ids(node, c);
            assert(out.len() == func.args.len());
            assert forall|k: int| 0 <= k < ids.len() implies (#[trigger] ids[k]) < t.nodes.len()
                && has_own_net(t.nodes[ids[k] as int]) by {
                assert(ids[k] == out[k + shift]);
                assert(o.operands[k] is Some);
                let d = o.operands[k]->0;
                assert(s.ids.contains_key(d));
                assert(t.nodes[s.ids[d] as int] == s.nodes[s.ids[d] as int]);
            }
            assert(node_goes_back::<L>(t.nodes, last));
            assert forall|i: int| 0 <= i < t.nodes.len() implies #[trigger] node_goes_back::<L>(
                t.nodes,
                i,
            ) by {
                if i < s.nodes.len() {
                    lemma_goes_back_on::<L>(s.nodes, t.nodes, i);
                }
            }
        },
        _ => {
            assert forall|i: int| 0 <= i < t.nodes.len() implies #[trigger] node_goes_back::<L>(
                t.nodes,
                i,
            ) by {
                if i < s.nodes.len() {
                    lemma_goes_back_on::<L>(s.nodes, t.nodes, i);
                }
            }
        },
    }
    assert forall|d: DrivenNet| #[trigger] t.ids.contains_key(d) implies t.ids[d] < t.nodes.len()
        && has_own_net(t.nodes[t.ids[d] as int]) by {
        if d != net {
            assert(s.ids.contains_key(d));
            assert(t.nodes[s.ids[d] as int] == s.nodes[s.ids[d] as int]);
        }
    }
}

/// If all nets come back, everything that was read does.
proof fn lemma_all_go_back<L: LogicCell<PrimitiveCell>>(v: NetlistView, order: Seq<DrivenNet>) where
    PrimitiveCell: LogicFunc<L> + AddProgram<L>,

    requires
        netlist_ok(v),
        has_nets(v, order),
        all_readable::<L>(v, order),
        forall|i: int| 0 <= i < order.len() ==> comes_back::<L>(v, #[trigger] order[i]),
        nets_read::<L>(v, order) is Ok,
        (nets_read::<L>(v, order)->Ok_0).nodes.len() <= usize::MAX,
    ensures
        all_go_back::<L>(nets_read::<L>(v, order)->Ok_0),
    decreases order.len(),
{
    lemma_all_readable::<L>(v, order);
    if order.len() > 0 {
        let rest = order.drop_last();
        assert forall|i: int| 0 <= i < rest.len() implies has_net(v, #[trigger] rest[i])
            && readable::<L>(v, rest[i]) && comes_back::<L>(v, rest[i]) by {
            assert(rest[i] == order[i]);
            assert(has_net(v, order[i]));
        }
        assert(has_net(v, order[order.len() - 1]));
        lemma_all_go_back::<L>(v, rest);
        lemma_net_goes_back::<L>(v, nets_read::<L>(v, rest)->Ok_0, order[order.len() - 1]);
    }
}

/// An expression whose nodes all go back is inserted without fail.
proof fn lemma_inserted<L: LogicCell<PrimitiveCell>>(m: MappingView, v: NetlistView, n: int)
    requires
        0 <= n <= m.nodes.len(),
        forall|i: int| 0 <= i < m.nodes.len() ==> #[trigger] node_goes_back::<L>(m.nodes, i),
    ensures
        nodes_inserted::<L>(m, v, n) is Ok,
    decreases n,
{
    if n > 0 {
        lemma_inserted::<L>(m, v, n - 1);
        assert(node_goes_back::<L>(m.nodes, n - 1));
    }
}

/// A mapping all of whose nets come back can be rewritten, and its
/// expression is inserted without fail.
proof fn lemma_goes_back<L: LogicCell<PrimitiveCell>>(
    v: NetlistView,
    roots: Seq<DrivenNet>,
    order: Seq<DrivenNet>,
) where PrimitiveCell: LogicFunc<L> + AddProgram<L>
    requires
        netlist_ok(v),
        has_nets(v, roots),
        order_ok(v, roots, order),
        all_readable::<L>(v, order),
        forall|i: int| 0 <= i < order.len() ==> comes_back::<L>(v, #[trigger] order[i]),
        roots.len() > 0,
        mapped::<L>(v, roots, order) is Ok,
        (mapped::<L>(v, roots, order)->Ok_0).nodes.len() <= usize::MAX,
    ensures
        ({
            let m = mapped::<L>(v, roots, order)->Ok_0;
            &&& rewritable::<L>(m, v)
            &&& nodes_inserted::<L>(m, v, m.nodes.len() as int) is Ok
        }),
{
    let m = mapped::<L>(v, roots, order)->Ok_0;
    let s = nets_read::<L>(v, order)->Ok_0;
    lemma_all_go_back::<L>(v, order);
    law_leaves_are_known::<L>(v, order);
    law_roots_are_the_mapped_nets::<L>(v, roots, order);
    lemma_ids_read::<L>(v, order);
    assert forall|j: int| 0 <= j < s.nodes.len() implies #[trigger] m.nodes[j] == s.nodes[j] by {}
    assert forall|i: int| 0 <= i < m.nodes.len() implies #[trigger] node_goes_back::<L>(
        m.nodes,
        i,
    ) by {
        if i < s.nodes.len() {
            assert(node_goes_back::<L>(s.nodes, i));
            lemma_goes_back_on::<L>(s.nodes, m.nodes, i);
        }
    }
    lemma_inserted::<L>(m, v, m.nodes.len() as int);
    assert forall|i: int| 0 <= i < m.nodes.len() implies #[trigger] operands_have_nets::<L>(
        m.nodes,
        i,
    ) by {
        assert(node_goes_back::<L>(m.nodes, i));
    }
    let ids = roots_of(m.nodes);
    assert forall|k: int| 0 <= k < ids.len() implies (#[trigger] ids[k]) < m.nodes.len()
        && has_own_net(m.nodes[ids[k] as int]) by {
        assert(ids[k] == s.ids[roots[k]]);
        assert(order.contains(roots[k]));
        assert(s.ids.contains_key(roots[k]));
    }
    assert(order.contains(roots[0]));
    assert(s.ids.contains_key(roots[0]));
    assert forall|i: int| 0 <= i < m.nodes.len() implies ((
    #[trigger] m.nodes[i]).op matches Op::Var(sym) ==> has_net(v, m.leaves[sym])) by {
        if i < s.nodes.len() {
            assert(m.nodes[i] == s.nodes[i]);
        }
    }
}

/// The function of a cell in terms of standard cells has a cell with as
/// many inputs, which is no lookup table.
proof fn lemma_cell_func_comes_back(t: PrimitiveType, node: NodeView)
    requires
        cell_func(t) is Some,
        node.op == (cell_func(t)->0).op,
        node.args.len() == (cell_func(t)->0).args.len(),
    ensures
        CellLang::cell_of(node) matches Some(c) && c.inputs.len() == input_names(t).len()
            && node.args.len() == input_names(t).len() && lut_size(c.ptype) == 0,
{
    crate::primitive::law_cell_names_read_back(t, None);
}

/// The function of a cell in terms of lookup tables has a cell with as many
/// inputs, which is a lookup table exactly where the cell is one.
proof fn lemma_lut_func_comes_back(t: PrimitiveType, node: NodeView)
    requires
        lut_func(t) is Some,
        node.op == (lut_func(t)->0).op,
        node.args.len() == (lut_func(t)->0).args.len(),
    ensures
        LutLang::cell_of(node) matches Some(c) && c.inputs.len() == input_names(t).len()
            && node.args.len() == input_names(t).len() + (if lut_size(t) > 0 {
            1int
        } else {
            0int
        }) && (lut_size(c.ptype) > 0 <==> lut_size(t) > 0),
{
}

/// Whether all input ports of the object behind a net are connected.
pub open spec fn all_driven(v: NetlistView, net: DrivenNet) -> bool {
    forall|k: int|
        0 <= k < v.objects[net.node as int].operands.len() ==> (
        #[trigger] v.objects[net.node as int].operands[k]) is Some
}

/// A net that can be read in terms of standard cells comes back, if all its
/// input ports are connected.
proof fn lemma_cell_comes_back(v: NetlistView, net: DrivenNet)
    requires
        netlist_ok(v),
        has_net(v, net),
        readable::<CellLang>(v, net),
        func_of::<CellLang>(v, net) is Some ==> all_driven(v, net),
    ensures
        comes_back::<CellLang>(v, net),
{
    assert(object_ok(v.objects[net.node as int]));
    let operands = v.objects[net.node as int].operands;
    if let (ObjectKind::Instance(_, cell), Some(func)) = (
        v.objects[net.node as int].kind,
        func_of::<CellLang>(v, net),
    ) {
        assert(func == cell_func(cell.ptype)->0);
        assert(cell.inputs.len() == input_names(cell.ptype).len());
        if operands.len() > 0 {
            assert(driven_up_to(operands, operands.len() - 1));
        }
        lemma_cell_func_comes_back(cell.ptype, func);
        assert forall|node: NodeView|
            node.op == func.op && node.args.len() == func.args.len() implies ((
        #[trigger] CellLang::cell_of(node)) matches Some(c) && c.inputs.len() == cell.inputs.len()
            && operand_ids(node, c).len() == c.inputs.len() && (cell.inputs.len() > 0 ==> (lut_size(
            c.ptype,
        ) > 0 <==> programmed(cell)))) by {
            lemma_cell_func_comes_back(cell.ptype, node);
        }
    }
}

/// A net that can be read in terms of lookup tables comes back, if it is no
/// lookup table without a truth table.
proof fn lemma_lut_comes_back(v: NetlistView, net: DrivenNet)
    requires
        netlist_ok(v),
        has_net(v, net),
        readable::<LutLang>(v, net),
        func_of::<LutLang>(v, net) is Some ==> all_driven(v, net),
        v.objects[net.node as int].kind matches ObjectKind::Instance(_, cell) ==> lut_size(
            cell.ptype,
        ) > 0 ==> programmed(cell),
    ensures
        comes_back::<LutLang>(v, net),
{
    assert(object_ok(v.objects[net.node as int]));
    let operands = v.objects[net.node as int].operands;
    if let (ObjectKind::Instance(_, cell), Some(func)) = (
        v.objects[net.node as int].kind,
        func_of::<LutLang>(v, net),
    ) {
        assert(func == lut_func(cell.ptype)->0);
        assert(cell.inputs.len() == input_names(cell.ptype).len());
        if operands.len() > 0 {
            assert(driven_up_to(operands, operands.len() - 1));
        }
        lemma_lut_func_comes_back(cell.ptype, func);
        assert forall|node: NodeView|
            node.op == func.op && node.args.len() == func.args.len() implies ((
        #[trigger] LutLang::cell_of(node)) matches Some(c) && c.inputs.len() == cell.inputs.len()
            && operand_ids(node, c).len() == c.inputs.len() && (cell.inputs.len() > 0 ==> (lut_size(
            c.ptype,
        ) > 0 <==> programmed(cell)))) by {
            lemma_lut_func_comes_back(cell.ptype, node);
        }
    }
}

/// Logic that is read in terms of standard cells can be put back as it is.
pub proof fn law_cells_go_back(v: NetlistView, roots: Seq<DrivenNet>, order: Seq<DrivenNet>)
    requires
        netlist_ok(v),
        has_nets(v, roots),
        order_ok(v, roots, order),
        all_readable::<CellLang>(v, order),
        roots.len() > 0,
        mapped::<CellLang>(v, roots, order) is Ok,
        (mapped::<CellLang>(v, roots, order)->Ok_0).nodes.len() <= usize::MAX,
    ensures
        ({
            let m = mapped::<CellLang>(v, roots, order)->Ok_0;
            &&& rewritable::<CellLang>(m, v)
            &&& nodes_inserted::<CellLang>(m, v, m.nodes.len() as int) is Ok
        }),
{
    lemma_all_readable::<CellLang>(v, order);
    assert forall|i: int| 0 <= i < order.len() implies comes_back::<CellLang>(
        v,
        #[trigger] order[i],
    ) by {
        assert(has_net(v, order[i]) && readable::<CellLang>(v, order[i]));
        law_nodes_follow_nets::<CellLang>(v, order, i);
        lemma_cell_comes_back(v, order[i]);
    }
    lemma_goes_back::<CellLang>(v, roots, order);
}

/// Logic that is read in terms of lookup tables can be put back as it is, if
/// all lookup tables in it come with truth tables.
pub proof fn law_luts_go_back(v: NetlistView, roots: Seq<DrivenNet>, order: Seq<DrivenNet>)
    requires
        netlist_ok(v),
        has_nets(v, roots),
        order_ok(v, roots, order),
        all_readable::<LutLang>(v, order),
        forall|i: int|
            0 <= i < order.len() ==> (v.objects[(
            #[trigger] order[i]).node as int].kind matches ObjectKind::Instance(_, cell)
                ==> lut_size(cell.ptype) > 0 ==> programmed(cell)),
        roots.len() > 0,
        mapped::<LutLang>(v, roots, order) is Ok,
        (mapped::<LutLang>(v, roots, order)->Ok_0).nodes.len() <= usize::MAX,
    ensures
        ({
            let m = mapped::<LutLang>(v, roots, order)->Ok_0;
            &&& rewritable::<LutLang>(m, v)
            &&& nodes_inserted::<LutLang>(m, v, m.nodes.len() as int) is Ok
        }),
{
    lemma_all_readable::<LutLang>(v, order);
    assert forall|i: int| 0 <= i < order.len() implies comes_back::<LutLang>(
        v,
        #[trigger] order[i],
    ) by {
        assert(has_net(v, order[i]) && readable::<LutLang>(v, order[i]));
        law_nodes_follow_nets::<LutLang>(v, order, i);
        lemma_lut_comes_back(v, order[i]);
    }
    lemma_goes_back::<LutLang>(v, roots, order);
}

} // verus!
