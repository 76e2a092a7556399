//! That the values of nets are those of the nodes that stand for them: when
//! logic is read, and when an expression is put in.

use crate::again::full_table;
use crate::cell::{cell_ok, CellView, PrimitiveCell};
use crate::func::{AddProgram, LogicCell, LogicFunc};
use crate::lang::{before, dag, roots_of, CellLang, CircuitLang, Id, LutLang, NodeView, Op};
use crate::level::WireView;
use crate::mapping::{leaves_at, mapping_ok, MappingView};
use crate::meaning::{
    cell_value, child_values, expr_value, law_programs_become_truth_tables, law_rows_are_binary_digits,
    law_standard_cells_compute_the_same, law_standard_functions_compute_the_same,
    law_table_cells_compute_the_same, law_table_functions_compute_the_same, lemma_child_values,
    lemma_row_bound,     op_value, row, type_value,
};
use crate::netlist::{
    has_net, has_nets, netlist_ok, object_ok, pruned, same_nets, same_operand, DrivenNet,
    NetlistView, ObjectKind,
};
use crate::order::{first_net, order_ok};
use crate::param::{bits_value, lemma_bits_value_bound, ParamView};
use crate::primitive::{input_names, lut_size, named_type};
use crate::reading::{
    all_readable, driven_up_to, func_of, init_name, law_leaves_are_found_again, law_nodes_follow_nets,
    law_roots_are_the_mapped_nets, lemma_all_readable, lemma_ids_read, readable, mapped, nets_read, node_follows, program_of,
    programmed, BuildState,
};
use crate::restored::{
    law_nodes_are_inserted, law_rewriting_puts_the_expression_in, leaves_stay, lemma_prefix_inserted, lemma_wires_set, realizes,
};
use crate::rewrite::{
    has_own_net, has_program, node_inserted, nodes_inserted, operand_ids, operands_have_nets, own_program, prepared, reconnected,
    rewritable, table_of, wires_set,
};
use vstd::prelude::*;

verus! {

/// The values of the nets that drive an object.
pub open spec fn operand_values(
    v: NetlistView,
    val: spec_fn(DrivenNet) -> bool,
    n: usize,
) -> Seq<bool> {
    let operands = v.objects[n as int].operands;
    Seq::new(operands.len(), |k: int| val(operands[k]->0))
}

/// Whether the net of object `n` has the value that its cell drives, as far
/// as all of its input ports are connected.
pub open spec fn settled(
    v: NetlistView,
    reg: spec_fn(Seq<bool>) -> bool,
    val: spec_fn(DrivenNet) -> bool,
    n: usize,
) -> bool {
    v.objects[n as int].kind matches ObjectKind::Instance(_, cell) ==> (forall|k: int|
        0 <= k < v.objects[n as int].operands.len() ==> (
        #[trigger] v.objects[n as int].operands[k]) is Some) ==> val(first_net(n)) == cell_value(
        cell,
        reg,
        operand_values(v, val, n),
    )
}

/// Whether the function of a cell has the children and the values that the
/// cell's input ports and outputs have.
pub open spec fn func_means<L: CircuitLang>(
    cell: CellView,
    ind: nat,
    reg: spec_fn(Seq<bool>) -> bool,
) -> bool where PrimitiveCell: LogicFunc<L> {
    <PrimitiveCell as LogicFunc<L>>::logic_func(cell, ind) matches Some(node) ==> if lut_size(
        cell.ptype,
    ) > 0 {
        node.op is Lut && node.args.len() == cell.inputs.len() + 1
    } else {
        &&& !(node.op is Lut || node.op is Var)
        &&& node.args.len() == cell.inputs.len()
        &&& forall|ins: Seq<bool>|
            ins.len() == cell.inputs.len() ==> #[trigger] op_value(node.op, reg, ins) == cell_value(
                cell,
                reg,
                ins,
            )
    }
}

/// Whether the truth table of a lookup table becomes the node of its rows.
pub open spec fn program_means<L: CircuitLang>(cell: CellView) -> bool where
    PrimitiveCell: AddProgram<L>,
 {
    lut_size(cell.ptype) > 0 ==> (cell.params[init_name()] matches ParamView::BitVec(bits) ==> (
    program_of::<L>(cell) matches Some(p) && p.op == Op::Program(bits_value(bits) as u64)))
}

/// The values that the leaves of what was read have, by place.
pub open spec fn leaf_values(
    leaves_by_id: Map<Id, DrivenNet>,
    val: spec_fn(DrivenNet) -> bool,
) -> spec_fn(int) -> bool {
    |i: int| val(leaves_by_id[i as usize])
}

/// A node that follows the netlist has the value of its net, if its children
/// have those of the nets that drive it.
proof fn lemma_node_value<L: CircuitLang>(
    v: NetlistView,
    s: BuildState,
    net: DrivenNet,
    reg: spec_fn(Seq<bool>) -> bool,
    val: spec_fn(DrivenNet) -> bool,
    env: spec_fn(int) -> bool,
) where PrimitiveCell: LogicFunc<L> + AddProgram<L>
    requires
        netlist_ok(v),
        has_net(v, net),
        dag(s.nodes),
        node_follows::<L>(v, s, net),
        settled(v, reg, val, net.node),
        full_table(v, net.node),
        func_of::<L>(v, net) is Some,
        v.objects[net.node as int].kind matches ObjectKind::Instance(_, cell) && func_means::<L>(
            cell,
            net.pos as nat,
            reg,
        ) && program_means::<L>(cell) && (lut_size(cell.ptype) == 0 ==> !programmed(cell)
            || cell.inputs.len() == 0),
        forall|k: int|
            0 <= k < v.objects[net.node as int].operands.len() ==> ((
            #[trigger] v.objects[net.node as int].operands[k]) matches Some(d) ==> expr_value(
                s.nodes,
                reg,
                env,
                s.ids[d] as int,
            ) == val(d)),
    ensures
        expr_value(s.nodes, reg, env, s.ids[net] as int) == val(net),
{
    let o = v.objects[net.node as int];
    assert(object_ok(o));
    let cell = o.kind->Instance_1;
    let func = func_of::<L>(v, net)->0;
    let id = s.ids[net] as int;
    let node = s.nodes[id];
    let ins = child_values(s.nodes, reg, env, id, node.args.len() as int);
    lemma_child_values(s.nodes, reg, env, id, node.args.len() as int);
    let outs = operand_values(v, val, net.node);
    let shift = if lut_size(cell.ptype) > 0 {
        1int
    } else {
        0int
    };
    assert(net == first_net(net.node));
    assert(before(node.args, id as nat));
    assert(forall|k: int| 0 <= k < o.operands.len() ==> (#[trigger] o.operands[k]) is Some);
    assert(val(net) == cell_value(cell, reg, outs));
    assert forall|k: int| 0 <= k < outs.len() implies outs[k] == #[trigger] ins[k + shift] by {
        assert(o.operands[k] is Some);
        assert(node.args[k + shift] == s.ids[o.operands[k]->0]);
        assert(node.args[k + shift] < id);
    }
    if shift == 1 {
        assert(ins.skip(1) =~= outs);
        let bits = cell.params[init_name()]->BitVec_0;
        assert(cell.inputs.len() == input_names(cell.ptype).len());
        vstd::arithmetic::power2::lemma2_to64();
        lemma_row_bound(outs);
        lemma_bits_value_bound(bits);
        law_rows_are_binary_digits(bits, row(outs));
        assert(s.nodes[id - 1] == program_of::<L>(cell)->0);
    } else {
        assert(ins =~= outs);
        assert(op_value(node.op, reg, ins) == cell_value(cell, reg, ins));
    }
}

/// Whether cells that have a function have the right one.
spec fn reads_right<L: CircuitLang>(cell: CellView, ind: nat, reg: spec_fn(Seq<bool>) -> bool) -> bool where
    PrimitiveCell: LogicFunc<L> + AddProgram<L>,
 {
    cell_ok(cell) && (lut_size(cell.ptype) > 0 ==> programmed(cell)) && <PrimitiveCell as LogicFunc<
        L,
    >>::logic_func(cell, ind) is Some ==> func_means::<L>(cell, ind, reg) && program_means::<L>(
        cell,
    )
}

/// The node of every net that was read has the value of the net, where cells
/// have the right functions.
proof fn lemma_values_read<L: CircuitLang>(
    v: NetlistView,
    order: Seq<DrivenNet>,
    reg: spec_fn(Seq<bool>) -> bool,
    val: spec_fn(DrivenNet) -> bool,
    i: int,
) where PrimitiveCell: LogicFunc<L> + AddProgram<L>
    requires
        netlist_ok(v),
        has_nets(v, order),
        order.no_duplicates(),
        all_readable::<L>(v, order),
        nets_read::<L>(v, order) is Ok,
        (nets_read::<L>(v, order)->Ok_0).nodes.len() <= usize::MAX,
        dag((nets_read::<L>(v, order)->Ok_0).nodes),
        forall|j: int|
            0 <= j < order.len() ==> settled(v, reg, val, (#[trigger] order[j]).node) && full_table(
                v,
                order[j].node,
            ),
        forall|cell: CellView, ind: nat| #[trigger] reads_right::<L>(cell, ind, reg),
        0 <= i < order.len(),
    ensures
        ({
            let s = nets_read::<L>(v, order)->Ok_0;
            expr_value(s.nodes, reg, leaf_values(s.leaves_by_id, val), s.ids[order[i]] as int)
                == val(order[i])
        }),
    decreases (nets_read::<L>(v, order)->Ok_0).ids[order[i]],
{
    let s = nets_read::<L>(v, order)->Ok_0;
    let net = order[i];
    let env = leaf_values(s.leaves_by_id, val);
    let o = v.objects[net.node as int];
    assert(has_net(v, net));
    assert(object_ok(o));
    law_nodes_follow_nets::<L>(v, order, i);
    if func_of::<L>(v, net) is None {
        law_leaves_are_found_again::<L>(v, order, i);
    } else {
        let cell = o.kind->Instance_1;
        let id = s.ids[net] as int;
        lemma_ids_read::<L>(v, order);
        lemma_all_readable::<L>(v, order);
        assert(readable::<L>(v, order[i]));
        assert(reads_right::<L>(cell, net.pos as nat, reg));
        assert(before(s.nodes[id].args, id as nat));
        if lut_size(cell.ptype) == 0 && programmed(cell) && cell.inputs.len() > 0 {
            assert(driven_up_to(o.operands, o.operands.len() - 1)) by {
                assert(forall|k: int|
                    0 <= k < o.operands.len() ==> (#[trigger] o.operands[k]) is Some);
            }
        }
        let shift = if programmed(cell) {
            1int
        } else {
            0int
        };
        assert forall|k: int| 0 <= k < o.operands.len() implies ((
        #[trigger] o.operands[k]) matches Some(d) ==> expr_value(
            s.nodes,
            reg,
            env,
            s.ids[d] as int,
        ) == val(d)) by {
            let d = o.operands[k]->0;
            assert(s.ids.contains_key(d) && s.nodes[id].args[k + shift] == s.ids[d]);
            let j = choose|j: int| 0 <= j < order.len() && order[j] == d;
            lemma_values_read::<L>(v, order, reg, val, j);
        }
        lemma_node_value::<L>(v, s, net, reg, val, env);
    }
}

/// Reading keeps values in terms of standard cells: whatever values the nets
/// behind the roots have, as long as each is what its cell drives, the roots
/// of the expression have the values of the nets that are mapped.
pub proof fn law_reading_keeps_values_of_standard_cells(
    v: NetlistView,
    roots: Seq<DrivenNet>,
    order: Seq<DrivenNet>,
    m: MappingView,
    reg: spec_fn(Seq<bool>) -> bool,
    val: spec_fn(DrivenNet) -> bool,
    j: int,
)
    requires
        netlist_ok(v),
        order_ok(v, roots, order),
        all_readable::<CellLang>(v, order),
        mapped::<CellLang>(v, roots, order) == Ok::<MappingView, Seq<char>>(m),
        mapping_ok(m),
        m.nodes.len() <= usize::MAX,
        forall|i: int|
            0 <= i < order.len() ==> settled(v, reg, val, (#[trigger] order[i]).node) && full_table(
                v,
                order[i].node,
            ),
        0 <= j < roots.len(),
    ensures
        expr_value(m.nodes, reg, leaf_values(m.leaves_by_id, val), roots_of(m.nodes)[j] as int)
            == val(roots[j]),
{
    assert forall|cell: CellView, ind: nat| #[trigger] reads_right::<CellLang>(cell, ind, reg) by {
        lemma_standard_reads_right(cell, ind, reg);
    }
    lemma_mapping_keeps_values::<CellLang>(v, roots, order, m, reg, val, j);
}

/// Reading keeps values in terms of lookup tables: whatever values the nets
/// behind the roots have, as long as each is what its cell drives, the roots
/// of the expression have the values of the nets that are mapped.
pub proof fn law_reading_keeps_values_of_lookup_tables(
    v: NetlistView,
    roots: Seq<DrivenNet>,
    order: Seq<DrivenNet>,
    m: MappingView,
    reg: spec_fn(Seq<bool>) -> bool,
    val: spec_fn(DrivenNet) -> bool,
    j: int,
)
    requires
        netlist_ok(v),
        order_ok(v, roots, order),
        all_readable::<LutLang>(v, order),
        mapped::<LutLang>(v, roots, order) == Ok::<MappingView, Seq<char>>(m),
        mapping_ok(m),
        m.nodes.len() <= usize::MAX,
        forall|i: int|
            0 <= i < order.len() ==> settled(v, reg, val, (#[trigger] order[i]).node) && full_table(
                v,
                order[i].node,
            ),
        0 <= j < roots.len(),
    ensures
        expr_value(m.nodes, reg, leaf_values(m.leaves_by_id, val), roots_of(m.nodes)[j] as int)
            == val(roots[j]),
{
    assert forall|cell: CellView, ind: nat| #[trigger] reads_right::<LutLang>(cell, ind, reg) by {
        lemma_tables_read_right(cell, ind, reg);
    }
    lemma_mapping_keeps_values::<LutLang>(v, roots, order, m, reg, val, j);
}

/// Standard cells have the right functions.
proof fn lemma_standard_reads_right(cell: CellView, ind: nat, reg: spec_fn(Seq<bool>) -> bool)
    ensures
        reads_right::<CellLang>(cell, ind, reg),
{
    if cell_ok(cell) {
        law_standard_functions_compute_the_same(cell, ind, reg, cell.inputs.map_values(|w| false));
        if let Some(node) = <PrimitiveCell as LogicFunc<CellLang>>::logic_func(cell, ind) {
            assert forall|ins: Seq<bool>| ins.len() == cell.inputs.len() implies #[trigger] op_value(
                node.op,
                reg,
                ins,
            ) == cell_value(cell, reg, ins) by {
                law_standard_functions_compute_the_same(cell, ind, reg, ins);
            }
        }
    }
}

/// Lookup tables, and what else has one there, have the right functions.
proof fn lemma_tables_read_right(cell: CellView, ind: nat, reg: spec_fn(Seq<bool>) -> bool)
    ensures
        reads_right::<LutLang>(cell, ind, reg),
{
    if cell_ok(cell) {
        law_table_functions_compute_the_same(cell, ind, reg, cell.inputs.map_values(|w| false));
        if let Some(node) = <PrimitiveCell as LogicFunc<LutLang>>::logic_func(cell, ind) {
            assert forall|ins: Seq<bool>|
                ins.len() == cell.inputs.len() && lut_size(
                    cell.ptype,
                ) == 0 implies #[trigger] op_value(node.op, reg, ins) == cell_value(
                cell,
                reg,
                ins,
            ) by {
                law_table_functions_compute_the_same(cell, ind, reg, ins);
            }
        }
    }
}

/// The roots of a mapping have the values of the mapped nets.
proof fn lemma_mapping_keeps_values<L: CircuitLang>(
    v: NetlistView,
    roots: Seq<DrivenNet>,
    order: Seq<DrivenNet>,
    m: MappingView,
    reg: spec_fn(Seq<bool>) -> bool,
    val: spec_fn(DrivenNet) -> bool,
    j: int,
) where PrimitiveCell: LogicFunc<L> + AddProgram<L>
    requires
        netlist_ok(v),
        order_ok(v, roots, order),
        all_readable::<L>(v, order),
        mapped::<L>(v, roots, order) == Ok::<MappingView, Seq<char>>(m),
        mapping_ok(m),
        m.nodes.len() <= usize::MAX,
        forall|i: int|
            0 <= i < order.len() ==> settled(v, reg, val, (#[trigger] order[i]).node) && full_table(
                v,
                order[i].node,
            ),
        forall|cell: CellView, ind: nat| #[trigger] reads_right::<L>(cell, ind, reg),
        0 <= j < roots.len(),
    ensures
        expr_value(m.nodes, reg, leaf_values(m.leaves_by_id, val), roots_of(m.nodes)[j] as int)
            == val(roots[j]),
{
    let s = nets_read::<L>(v, order)->Ok_0;
    let env = leaf_values(m.leaves_by_id, val);
    law_roots_are_the_mapped_nets::<L>(v, roots, order);
    assert(dag(s.nodes)) by {
        assert forall|i: int| 0 <= i < s.nodes.len() implies before(
            (#[trigger] s.nodes[i]).args,
            i as nat,
        ) by {
            assert(m.nodes[i] == s.nodes[i]);
        }
    }
    assert(order.contains(roots[j]));
    let i = choose|i: int| 0 <= i < order.len() && order[i] == roots[j];
    lemma_values_read::<L>(v, order, reg, val, i);
    law_nodes_follow_nets::<L>(v, order, i);
    lemma_same_values(s.nodes, m.nodes, reg, env, s.ids[roots[j]] as int);
}

/// Nodes behind a node make no difference to its value.
pub proof fn lemma_same_values(
    a: Seq<NodeView>,
    b: Seq<NodeView>,
    reg: spec_fn(Seq<bool>) -> bool,
    env: spec_fn(int) -> bool,
    i: int,
)
    requires
        dag(a),
        0 <= i < a.len() <= b.len(),
        forall|k: int| 0 <= k < a.len() ==> #[trigger] b[k] == a[k],
    ensures
        expr_value(a, reg, env, i) == expr_value(b, reg, env, i),
    decreases i,
{
    assert(b[i] == a[i]);
    let args = a[i].args;
    let n = args.len() as int;
    assert(before(args, i as nat));
    lemma_child_values(a, reg, env, i, n);
    lemma_child_values(b, reg, env, i, n);
    let x = child_values(a, reg, env, i, n);
    let y = child_values(b, reg, env, i, n);
    assert forall|k: int| 0 <= k < n implies #[trigger] x[k] == y[k] by {
        assert(args[k] < i);
        lemma_same_values(a, b, reg, env, args[k] as int);
        assert(y[k] == expr_value(b, reg, env, b[i].args[k] as int));
    }
    assert(x =~= y);
    if n > 0 {
        assert(args[0] < i);
        assert(b[args[0] as int] == a[args[0] as int]);
    }
}

/// How many children of a node stand before those for the input ports of a
/// cell of this kind: a lookup table has its program there.
pub open spec fn children_before(cell: CellView) -> int {
    if lut_size(cell.ptype) > 0 {
        1
    } else {
        0
    }
}

/// When an expression is inserted, the instance of a node is driven by the
/// nets of the node's children, in their order: operand `k` is the net of
/// child `k`, and for a lookup table that of child `k + 1`. There are no other
/// children.
pub proof fn law_children_become_operands<L: LogicCell<PrimitiveCell>>(
    m: MappingView,
    v: NetlistView,
    n: int,
    i: int,
    k: int,
)
    requires
        dag(m.nodes),
        0 <= i < n <= m.nodes.len(),
        m.nodes.len() <= usize::MAX,
        nodes_inserted::<L>(m, v, n) is Ok,
        (nodes_inserted::<L>(m, v, n)->Ok_0).netlist.objects.len() <= usize::MAX,
        has_own_net(m.nodes[i]),
        !(m.nodes[i].op is Var),
        L::cell_of(m.nodes[i]) matches Some(cell) ==> cell_ok(cell),
    ensures
        ({
            let s = nodes_inserted::<L>(m, v, n)->Ok_0;
            let args = m.nodes[i].args;
            let o = s.netlist.objects[s.nets[i as usize].node as int];
            &&& s.nets[i as usize].node < s.netlist.objects.len()
            &&& s.nets[i as usize].pos == 0
            &&& o.kind matches ObjectKind::Instance(_, cell) && {
                let first = children_before(cell);
                &&& o.operands.len() == args.len() - first
                &&& first <= k < args.len() ==> o.operands[k - first] == Some(s.nets[args[k]])
            }
        }),
{
    let s = nodes_inserted::<L>(m, v, n)->Ok_0;
    let node = m.nodes[i];
    law_nodes_are_inserted::<L>(m, v, n, i);
    lemma_inserted_sizes::<L>(m, v, n, i);
    let cell = L::cell_of(node)->0;
    let ids = operand_ids(node, cell);
    let first = children_before(cell);
    assert forall|j: int| 0 <= j < ids.len() implies #[trigger] ids[j] == node.args[j + first] by {
    }
    if first <= k < node.args.len() {
        assert(ids[k - first] == node.args[k]);
    }
}

/// What is inserted has as many children as its cell has input ports, and one
/// more for a lookup table.
proof fn lemma_inserted_sizes<L: LogicCell<PrimitiveCell>>(
    m: MappingView,
    v: NetlistView,
    n: int,
    i: int,
)
    requires
        0 <= i < n <= m.nodes.len(),
        nodes_inserted::<L>(m, v, n) is Ok,
        has_own_net(m.nodes[i]),
        !(m.nodes[i].op is Var),
        L::cell_of(m.nodes[i]) matches Some(cell) ==> cell_ok(cell),
    ensures
        L::cell_of(m.nodes[i]) matches Some(cell) && m.nodes[i].args.len() == cell.inputs.len()
            + children_before(cell),
    decreases n,
{
    if i < n - 1 {
        lemma_inserted_sizes::<L>(m, v, n - 1, i);
    } else {
        let s = nodes_inserted::<L>(m, v, n - 1)->Ok_0;
        assert(node_inserted::<L>(m.nodes, m.leaves, s, i) is Ok);
        let cell = L::cell_of(m.nodes[i])->0;
        assert(cell.inputs.len() == input_names(cell.ptype).len());
    }
}

/// Whether a net is the node at place `i` in a netlist of which the objects
/// `keep` are left: a leaf is where the net of its name is now, and any other
/// node an instance whose operands are the nodes of the children, in their
/// order, behind the program of a lookup table.
pub open spec fn built(
    m: MappingView,
    keep: Seq<usize>,
    v: NetlistView,
    net: DrivenNet,
    i: int,
) -> bool
    decreases i,
{
    let args = m.nodes[i].args;
    let o = v.objects[net.node as int];
    &&& net.node < v.objects.len()
    &&& match m.nodes[i].op {
        Op::Var(sym) => net.node < keep.len() && keep[net.node as int] == m.leaves[sym].node
            && net.pos == m.leaves[sym].pos,
        _ => net.pos == 0 && (o.kind matches ObjectKind::Instance(_, cell) && {
            let first = children_before(cell);
            &&& o.operands.len() == args.len() - first
            &&& forall|k: int|
                first <= k < args.len() ==> (#[trigger] args[k]) < i && (o.operands[k
                    - first] matches Some(d) && built(m, keep, v, d, args[k] as int))
        }),
    }
}

/// After a rewriting, each root is the net of an instance whose operands are
/// the nets of the node's children, in their order, and so on down to the
/// leaves.
pub proof fn law_rewriting_keeps_the_order_of_children<L: LogicCell<PrimitiveCell>>(
    m: MappingView,
    v: NetlistView,
    held: Seq<DrivenNet>,
    x: NetlistView,
    keep: Seq<usize>,
    r: Seq<DrivenNet>,
    wires: Seq<WireView>,
    j: int,
)
    requires
        mapping_ok(m),
        m.nodes.len() <= usize::MAX,
        netlist_ok(v),
        rewritable::<L>(m, v),
        reconnected::<L>(m, v, held) is Ok,
        (reconnected::<L>(m, v, held)->Ok_0).0.objects.len() <= usize::MAX,
        leaves_stay(m, (reconnected::<L>(m, v, held)->Ok_0).1),
        pruned((reconnected::<L>(m, v, held)->Ok_0).0, x, keep),
        same_nets((reconnected::<L>(m, v, held)->Ok_0).1, r, keep),
        has_nets(x, r),
        0 <= j < r.len(),
        forall|i: int|
            0 <= i < m.nodes.len() ==> (L::cell_of(#[trigger] m.nodes[i]) matches Some(cell)
                ==> cell_ok(cell)),
    ensures
        built(
            m,
            keep,
            wires_set(x, r, wires, r.len() as int),
            r[j],
            roots_of(m.nodes)[j] as int,
        ),
{
    let f = wires_set(x, r, wires, r.len() as int);
    law_rewriting_puts_the_expression_in::<L>(m, v, held, x, keep, r, wires, j);
    lemma_roots_are_nodes(m, j);
    assert(r.len() == m.roots.len());
    lemma_built::<L>(m, v, keep, f, r[j], roots_of(m.nodes)[j] as int);
}

/// The roots of an expression are places of nodes.
proof fn lemma_roots_are_nodes(m: MappingView, j: int)
    requires
        mapping_ok(m),
        m.nodes.len() > 0,
        m.nodes.len() <= usize::MAX,
        0 <= j < roots_of(m.nodes).len(),
    ensures
        roots_of(m.nodes)[j] < m.nodes.len(),
{
    assert(before(m.nodes[m.nodes.len() - 1].args, (m.nodes.len() - 1) as nat));
}

/// What computes a node is that node.
proof fn lemma_built<L: LogicCell<PrimitiveCell>>(
    m: MappingView,
    v: NetlistView,
    keep: Seq<usize>,
    f: NetlistView,
    net: DrivenNet,
    i: int,
)
    requires
        dag(m.nodes),
        rewritable::<L>(m, v),
        nodes_inserted::<L>(m, v, m.nodes.len() as int) is Ok,
        0 <= i < m.nodes.len(),
        has_own_net(m.nodes[i]),
        realizes::<L>(m, keep, f, net, i),
        forall|i: int|
            0 <= i < m.nodes.len() ==> (L::cell_of(#[trigger] m.nodes[i]) matches Some(cell)
                ==> cell_ok(cell)),
    ensures
        built(m, keep, f, net, i),
    decreases i,
{
    let node = m.nodes[i];
    if !(node.op is Var) {
        let cell = L::cell_of(node)->0;
        let ids = operand_ids(node, cell);
        let o = f.objects[net.node as int];
        let first = children_before(cell);
        assert(before(node.args, i as nat));
        lemma_inserted_sizes::<L>(m, v, m.nodes.len() as int, i);
        lemma_prefix_inserted::<L>(m, v, i, m.nodes.len() as int);
        assert(operands_have_nets::<L>(m.nodes, i));
        assert forall|k: int| first <= k < node.args.len() implies (#[trigger] node.args[k]) < i && (
        o.operands[k - first] matches Some(d) && built(m, keep, f, d, node.args[k] as int)) by {
            assert(ids[k - first] == node.args[k]);
            assert(has_own_net(m.nodes[ids[k - first] as int]));
            assert(o.operands[k - first] is Some);
            lemma_built::<L>(m, v, keep, f, o.operands[k - first]->0, node.args[k] as int);
        }
    }
}

/// Whether the cell of the node at place `i` computes what the node does.
spec fn cell_right<L: LogicCell<PrimitiveCell>>(
    nodes: Seq<NodeView>,
    i: int,
    reg: spec_fn(Seq<bool>) -> bool,
) -> bool {
    L::cell_of(nodes[i]) matches Some(cell) ==> cell_ok(cell) && if lut_size(cell.ptype) > 0 {
        &&& nodes[i].op is Lut
        &&& nodes[i].args.len() == cell.inputs.len() + 1
        &&& has_program(nodes, nodes[i])
    } else {
        &&& !(nodes[i].op is Lut)
        &&& forall|ins: Seq<bool>| #[trigger]
            op_value(nodes[i].op, reg, ins) == type_value(cell.ptype, reg, ins)
    }
}

/// Whether leaves have the values that `env` gives, where they are now.
pub open spec fn leaves_have(
    m: MappingView,
    keep: Seq<usize>,
    val: spec_fn(DrivenNet) -> bool,
    env: spec_fn(int) -> bool,
) -> bool {
    forall|i: int, d: DrivenNet|
        #![trigger m.nodes[i], val(d)]
        0 <= i < m.nodes.len() ==> (m.nodes[i].op matches Op::Var(sym) ==> same_operand(
            Some(m.leaves[sym]),
            Some(d),
            keep,
        ) ==> val(d) == env(i))
}

/// What computes a node has its value.
proof fn lemma_value_realized<L: LogicCell<PrimitiveCell>>(
    m: MappingView,
    keep: Seq<usize>,
    f: NetlistView,
    net: DrivenNet,
    i: int,
    reg: spec_fn(Seq<bool>) -> bool,
    val: spec_fn(DrivenNet) -> bool,
    env: spec_fn(int) -> bool,
)
    requires
        dag(m.nodes),
        0 <= i < m.nodes.len(),
        realizes::<L>(m, keep, f, net, i),
        forall|n: usize| n < f.objects.len() ==> #[trigger] settled(f, reg, val, n),
        leaves_have(m, keep, val, env),
        forall|i: int| 0 <= i < m.nodes.len() ==> #[trigger] cell_right::<L>(m.nodes, i, reg),
    ensures
        val(net) == expr_value(m.nodes, reg, env, i),
    decreases i,
{
    let node = m.nodes[i];
    if !(node.op is Var) {
        assert(cell_right::<L>(m.nodes, i, reg));
        let cell = L::cell_of(node)->0;
        let ids = operand_ids(node, cell);
        let o = f.objects[net.node as int];
        let program = table_of(m.nodes, i);
        let n = node.args.len() as int;
        let ins = child_values(m.nodes, reg, env, i, n);
        let outs = operand_values(f, val, net.node);
        let first = children_before(cell);
        assert(net == first_net(net.node));
        assert(before(node.args, i as nat));
        assert(settled(f, reg, val, net.node));
        assert(forall|k: int| 0 <= k < o.operands.len() ==> (#[trigger] o.operands[k]) is Some);
        assert(val(net) == cell_value(prepared(cell, program), reg, outs));
        lemma_child_values(m.nodes, reg, env, i, n);
        assert forall|k: int| 0 <= k < outs.len() implies outs[k] == #[trigger] ins[k + first] by {
            assert(ids[k] == node.args[k + first]);
            assert(o.operands[k] is Some);
            lemma_value_realized::<L>(
                m,
                keep,
                f,
                o.operands[k]->0,
                ids[k] as int,
                reg,
                val,
                env,
            );
        }
        law_programs_become_truth_tables(cell, program, row(outs));
        if first == 1 {
            assert(ins.skip(1) =~= outs);
            assert(cell.inputs.len() == input_names(cell.ptype).len());
            lemma_row_bound(outs);
            assert(program == own_program(m.nodes, node));
        } else {
            assert forall|k: int| 0 <= k < outs.len() implies #[trigger] ins[k] == outs[k] by {
                assert(outs[k] == ins[k + first]);
            }
            assert(ins =~= outs);
            assert(op_value(node.op, reg, ins) == type_value(cell.ptype, reg, ins));
        }
    }
}

/// Rewriting keeps values in terms of standard cells: whatever values nets
/// have afterwards, as long as each is what its cell drives, the new roots
/// have the values of the expression over those of the leaves.
pub proof fn law_rewriting_keeps_values_of_standard_cells(
    m: MappingView,
    v: NetlistView,
    held: Seq<DrivenNet>,
    x: NetlistView,
    keep: Seq<usize>,
    r: Seq<DrivenNet>,
    wires: Seq<WireView>,
    reg: spec_fn(Seq<bool>) -> bool,
    val: spec_fn(DrivenNet) -> bool,
    env: spec_fn(int) -> bool,
    j: int,
)
    requires
        mapping_ok(m),
        m.nodes.len() <= usize::MAX,
        netlist_ok(v),
        rewritable::<CellLang>(m, v),
        reconnected::<CellLang>(m, v, held) is Ok,
        (reconnected::<CellLang>(m, v, held)->Ok_0).0.objects.len() <= usize::MAX,
        leaves_stay(m, (reconnected::<CellLang>(m, v, held)->Ok_0).1),
        pruned((reconnected::<CellLang>(m, v, held)->Ok_0).0, x, keep),
        same_nets((reconnected::<CellLang>(m, v, held)->Ok_0).1, r, keep),
        has_nets(x, r),
        0 <= j < r.len(),
        forall|n: usize|
            n < x.objects.len() ==> #[trigger] settled(
                wires_set(x, r, wires, r.len() as int),
                reg,
                val,
                n,
            ),
        leaves_have(m, keep, val, env),
        forall|i: int|
            0 <= i < m.nodes.len() ==> ((#[trigger] m.nodes[i]).op matches Op::Cell(name) ==> (
            named_type(name) matches Some(t) ==> lut_size(t) == 0)),
    ensures
        val(r[j]) == expr_value(m.nodes, reg, env, roots_of(m.nodes)[j] as int),
{
    let f = wires_set(x, r, wires, r.len() as int);
    law_rewriting_puts_the_expression_in::<CellLang>(m, v, held, x, keep, r, wires, j);
    lemma_roots_are_nodes(m, j);
    lemma_wires_set(x, r, wires, r.len() as int);
    assert forall|i: int| 0 <= i < m.nodes.len() implies #[trigger] cell_right::<CellLang>(
        m.nodes,
        i,
        reg,
    ) by {
        law_standard_cells_compute_the_same(m.nodes[i], reg, Seq::empty());
        if let Some(cell) = <CellLang as LogicCell<PrimitiveCell>>::cell_of(m.nodes[i]) {
            assert forall|ins: Seq<bool>| #[trigger]
                op_value(m.nodes[i].op, reg, ins) == type_value(cell.ptype, reg, ins) by {
                law_standard_cells_compute_the_same(m.nodes[i], reg, ins);
            }
        }
    }
    lemma_value_realized::<CellLang>(
        m,
        keep,
        f,
        r[j],
        roots_of(m.nodes)[j] as int,
        reg,
        val,
        env,
    );
}

/// Rewriting keeps values in terms of lookup tables: whatever values nets
/// have afterwards, as long as each is what its cell drives, the new roots
/// have the values of the expression over those of the leaves. The first child
/// of a lookup table has to be its program.
pub proof fn law_rewriting_keeps_values_of_lookup_tables(
    m: MappingView,
    v: NetlistView,
    held: Seq<DrivenNet>,
    x: NetlistView,
    keep: Seq<usize>,
    r: Seq<DrivenNet>,
    wires: Seq<WireView>,
    reg: spec_fn(Seq<bool>) -> bool,
    val: spec_fn(DrivenNet) -> bool,
    env: spec_fn(int) -> bool,
    j: int,
)
    requires
        mapping_ok(m),
        m.nodes.len() <= usize::MAX,
        netlist_ok(v),
        rewritable::<LutLang>(m, v),
        reconnected::<LutLang>(m, v, held) is Ok,
        (reconnected::<LutLang>(m, v, held)->Ok_0).0.objects.len() <= usize::MAX,
        leaves_stay(m, (reconnected::<LutLang>(m, v, held)->Ok_0).1),
        pruned((reconnected::<LutLang>(m, v, held)->Ok_0).0, x, keep),
        same_nets((reconnected::<LutLang>(m, v, held)->Ok_0).1, r, keep),
        has_nets(x, r),
        0 <= j < r.len(),
        forall|n: usize|
            n < x.objects.len() ==> #[trigger] settled(
                wires_set(x, r, wires, r.len() as int),
                reg,
                val,
                n,
            ),
        leaves_have(m, keep, val, env),
        forall|i: int|
            0 <= i < m.nodes.len() && (#[trigger] m.nodes[i]).op is Lut ==> has_program(
                m.nodes,
                m.nodes[i],
            ),
    ensures
        val(r[j]) == expr_value(m.nodes, reg, env, roots_of(m.nodes)[j] as int),
{
    let f = wires_set(x, r, wires, r.len() as int);
    law_rewriting_puts_the_expression_in::<LutLang>(m, v, held, x, keep, r, wires, j);
    lemma_roots_are_nodes(m, j);
    lemma_wires_set(x, r, wires, r.len() as int);
    assert forall|i: int| 0 <= i < m.nodes.len() implies #[trigger] cell_right::<LutLang>(
        m.nodes,
        i,
        reg,
    ) by {
        law_table_cells_compute_the_same(m.nodes[i], reg, Seq::empty());
        if let Some(cell) = <LutLang as LogicCell<PrimitiveCell>>::cell_of(m.nodes[i]) {
            if lut_size(cell.ptype) == 0 {
                assert forall|ins: Seq<bool>| #[trigger]
                    op_value(m.nodes[i].op, reg, ins) == type_value(cell.ptype, reg, ins) by {
                    law_table_cells_compute_the_same(m.nodes[i], reg, ins);
                }
            }
        }
    }
    lemma_value_realized::<LutLang>(
        m,
        keep,
        f,
        r[j],
        roots_of(m.nodes)[j] as int,
        reg,
        val,
        env,
    );
}

/// The values of leaves by place, where `g` gives them by name.
pub open spec fn named_values(
    nodes: Seq<NodeView>,
    g: spec_fn(Seq<char>) -> bool,
) -> spec_fn(int) -> bool {
    |i: int| g(nodes[i].op->Var_0)
}

/// Whether root `j` has the same value in both expressions, whatever values
/// leaves have by name.
pub open spec fn equal_roots(
    a: Seq<NodeView>,
    b: Seq<NodeView>,
    reg: spec_fn(Seq<bool>) -> bool,
    j: int,
) -> bool {
    forall|g: spec_fn(Seq<char>) -> bool|
        expr_value(a, reg, #[trigger] named_values(a, g), roots_of(a)[j] as int) == expr_value(
            b,
            reg,
            named_values(b, g),
            roots_of(b)[j] as int,
        )
}

/// Whether the leaf at each place is the leaf by the name that it has there.
pub open spec fn leaves_agree(m: MappingView) -> bool {
    forall|i: int|
        0 <= i < m.nodes.len() ==> ((#[trigger] m.nodes[i]).op matches Op::Var(sym)
            ==> m.leaves_by_id[i as usize] == m.leaves[sym])
}

/// The mapping with its expression exchanged.
pub open spec fn exchanged(m: MappingView, expr: Seq<NodeView>) -> MappingView {
    MappingView { nodes: expr, leaves_by_id: leaves_at(expr, m.leaves), ..m }
}

/// Only the values of leaves make a difference.
proof fn lemma_same_leaves(
    nodes: Seq<NodeView>,
    reg: spec_fn(Seq<bool>) -> bool,
    a: spec_fn(int) -> bool,
    b: spec_fn(int) -> bool,
    i: int,
)
    requires
        dag(nodes),
        0 <= i < nodes.len(),
        forall|k: int| 0 <= k < nodes.len() && (#[trigger] nodes[k]).op is Var ==> a(k) == b(k),
    ensures
        expr_value(nodes, reg, a, i) == expr_value(nodes, reg, b, i),
    decreases i,
{
    let args = nodes[i].args;
    let n = args.len() as int;
    assert(before(args, i as nat));
    lemma_child_values(nodes, reg, a, i, n);
    lemma_child_values(nodes, reg, b, i, n);
    let x = child_values(nodes, reg, a, i, n);
    let y = child_values(nodes, reg, b, i, n);
    assert forall|k: int| 0 <= k < n implies #[trigger] x[k] == y[k] by {
        assert(args[k] < i);
        lemma_same_leaves(nodes, reg, a, b, args[k] as int);
        assert(y[k] == expr_value(nodes, reg, b, nodes[i].args[k] as int));
    }
    assert(x =~= y);
}

/// Rewriting by an equal expression changes no value, in terms of standard cells:
/// where the nets behind the roots were read and the expression was exchanged
/// for one with equal roots, the new roots have the values that the old ones
/// had, if the leaves have theirs.
pub proof fn law_equal_expressions_keep_values_of_standard_cells(
    v: NetlistView,
    roots: Seq<DrivenNet>,
    order: Seq<DrivenNet>,
    m: MappingView,
    expr: Seq<NodeView>,
    held: Seq<DrivenNet>,
    x: NetlistView,
    keep: Seq<usize>,
    r: Seq<DrivenNet>,
    wires: Seq<WireView>,
    reg: spec_fn(Seq<bool>) -> bool,
    val: spec_fn(DrivenNet) -> bool,
    after: spec_fn(DrivenNet) -> bool,
    j: int,
)
    requires
        netlist_ok(v),
        order_ok(v, roots, order),
        all_readable::<CellLang>(v, order),
        mapped::<CellLang>(v, roots, order) == Ok::<MappingView, Seq<char>>(m),
        mapping_ok(m),
        m.nodes.len() <= usize::MAX,
        forall|i: int|
            0 <= i < order.len() ==> settled(v, reg, val, (#[trigger] order[i]).node) && full_table(
                v,
                order[i].node,
            ),
        leaves_agree(m),
        mapping_ok(exchanged(m, expr)),
        expr.len() <= usize::MAX,
        rewritable::<CellLang>(exchanged(m, expr), v),
        reconnected::<CellLang>(exchanged(m, expr), v, held) is Ok,
        (reconnected::<CellLang>(exchanged(m, expr), v, held)->Ok_0).0.objects.len() <= usize::MAX,
        leaves_stay(
            exchanged(m, expr),
            (reconnected::<CellLang>(exchanged(m, expr), v, held)->Ok_0).1,
        ),
        pruned((reconnected::<CellLang>(exchanged(m, expr), v, held)->Ok_0).0, x, keep),
        same_nets((reconnected::<CellLang>(exchanged(m, expr), v, held)->Ok_0).1, r, keep),
        has_nets(x, r),
        0 <= j < r.len(),
        j < roots.len(),
        forall|n: usize|
            n < x.objects.len() ==> #[trigger] settled(
                wires_set(x, r, wires, r.len() as int),
                reg,
                after,
                n,
            ),
        forall|i: int|
            0 <= i < expr.len() ==> ((#[trigger] expr[i]).op matches Op::Cell(name) ==> (
            named_type(name) matches Some(t) ==> lut_size(t) == 0)),
        forall|sym: Seq<char>, d: DrivenNet|
            #![trigger m.leaves[sym], after(d)]
            m.leaves.contains_key(sym) && same_operand(Some(m.leaves[sym]), Some(d), keep)
                ==> after(d) == val(m.leaves[sym]),
        equal_roots(m.nodes, expr, reg, j),
    ensures
        after(r[j]) == val(roots[j]),
{
    let n = exchanged(m, expr);
    let g = |sym: Seq<char>| val(m.leaves[sym]);
    let env = named_values(expr, g);
    law_reading_keeps_values_of_standard_cells(v, roots, order, m, reg, val, j);
    lemma_roots_are_nodes(m, j);
    lemma_same_leaves(
        m.nodes,
        reg,
        leaf_values(m.leaves_by_id, val),
        named_values(m.nodes, g),
        roots_of(m.nodes)[j] as int,
    );
    law_rewriting_keeps_values_of_standard_cells(n, v, held, x, keep, r, wires, reg, after, env, j);
}

/// Rewriting by an equal expression changes no value, in terms of lookup tables:
/// where the nets behind the roots were read and the expression was exchanged
/// for one with equal roots, the new roots have the values that the old ones
/// had, if the leaves have theirs.
pub proof fn law_equal_expressions_keep_values_of_lookup_tables(
    v: NetlistView,
    roots: Seq<DrivenNet>,
    order: Seq<DrivenNet>,
    m: MappingView,
    expr: Seq<NodeView>,
    held: Seq<DrivenNet>,
    x: NetlistView,
    keep: Seq<usize>,
    r: Seq<DrivenNet>,
    wires: Seq<WireView>,
    reg: spec_fn(Seq<bool>) -> bool,
    val: spec_fn(DrivenNet) -> bool,
    after: spec_fn(DrivenNet) -> bool,
    j: int,
)
    requires
        netlist_ok(v),
        order_ok(v, roots, order),
        all_readable::<LutLang>(v, order),
        mapped::<LutLang>(v, roots, order) == Ok::<MappingView, Seq<char>>(m),
        mapping_ok(m),
        m.nodes.len() <= usize::MAX,
        forall|i: int|
            0 <= i < order.len() ==> settled(v, reg, val, (#[trigger] order[i]).node) && full_table(
                v,
                order[i].node,
            ),
        leaves_agree(m),
        mapping_ok(exchanged(m, expr)),
        expr.len() <= usize::MAX,
        rewritable::<LutLang>(exchanged(m, expr), v),
        reconnected::<LutLang>(exchanged(m, expr), v, held) is Ok,
        (reconnected::<LutLang>(exchanged(m, expr), v, held)->Ok_0).0.objects.len() <= usize::MAX,
        leaves_stay(
            exchanged(m, expr),
            (reconnected::<LutLang>(exchanged(m, expr), v, held)->Ok_0).1,
        ),
        pruned((reconnected::<LutLang>(exchanged(m, expr), v, held)->Ok_0).0, x, keep),
        same_nets((reconnected::<LutLang>(exchanged(m, expr), v, held)->Ok_0).1, r, keep),
        has_nets(x, r),
        0 <= j < r.len(),
        j < roots.len(),
        forall|n: usize|
            n < x.objects.len() ==> #[trigger] settled(
                wires_set(x, r, wires, r.len() as int),
                reg,
                after,
                n,
            ),
        forall|i: int|
            0 <= i < expr.len() && (#[trigger] expr[i]).op is Lut ==> has_program(expr, expr[i]),
        forall|sym: Seq<char>, d: DrivenNet|
            #![trigger m.leaves[sym], after(d)]
            m.leaves.contains_key(sym) && same_operand(Some(m.leaves[sym]), Some(d), keep)
                ==> after(d) == val(m.leaves[sym]),
        equal_roots(m.nodes, expr, reg, j),
    ensures
        after(r[j]) == val(roots[j]),
{
    let n = exchanged(m, expr);
    let g = |sym: Seq<char>| val(m.leaves[sym]);
    let env = named_values(expr, g);
    law_reading_keeps_values_of_lookup_tables(v, roots, order, m, reg, val, j);
    lemma_roots_are_nodes(m, j);
    lemma_same_leaves(
        m.nodes,
        reg,
        leaf_values(m.leaves_by_id, val),
        named_values(m.nodes, g),
        roots_of(m.nodes)[j] as int,
    );
    law_rewriting_keeps_values_of_lookup_tables(n, v, held, x, keep, r, wires, reg, after, env, j);
}

} // verus!
