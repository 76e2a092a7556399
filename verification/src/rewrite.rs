//! Putting an expression into a netlist in place of the logic that it was
//! read from.

use crate::cell::{CellView, PrimitiveCell};
use crate::error::{ErrorView, NetlistError};
use crate::func::LogicCell;
use crate::ident::{ident_of, join_idents, Ident, IdentView};
use crate::lang::{roots_of, Id, NodeView, Op};
use crate::level::{LogicValue, Wire, WireView};
use crate::mapping::{holds_net, mapping_ok, moved_mapping, LogicMapping, MappingView};
use crate::netlist::{
    clean_outcome, clean_result, connected, gate_object, has_net, has_nets, keeps_what_lasts,
    netlist_ok, pruned, replace_outcome, same_nets, wire_of, with_object, with_wire, DrivenNet,
    Netlist, NetlistView,
};
use crate::param::{bitvec, value_bits, Param, ParamView};
use crate::primitive::{lut_size, PrimitiveType};
use crate::reading::init_name;
use crate::text::{decimal, decimal_text};
use vstd::arithmetic::power2::pow2;
use vstd::prelude::*;

verus! {

/// How far the insertion of nodes has come: the netlist, and the nets of the
/// nodes so far.
#[verifier::ext_equal]
pub struct InsertState {
    pub netlist: NetlistView,
    pub nets: Map<Id, DrivenNet>,
}

/// Whether the first child of a node is a program.
pub open spec fn has_program(nodes: Seq<NodeView>, node: NodeView) -> bool {
    node.args.len() > 0 && nodes[node.args[0] as int].op is Program
}

/// The truth table that is the first child of a node.
pub open spec fn own_program(nodes: Seq<NodeView>, node: NodeView) -> u64
    recommends
        has_program(nodes, node),
{
    nodes[node.args[0] as int].op->Program_0
}

/// The truth table that is met last before place `i`.
pub open spec fn last_program(nodes: Seq<NodeView>, i: int) -> u64
    decreases i,
{
    if i <= 0 {
        0
    } else if nodes[i - 1].op is Program {
        nodes[i - 1].op->Program_0
    } else {
        last_program(nodes, i - 1)
    }
}

/// The truth table of the node at place `i`: its own, or where it has none
/// the one that is met last before it.
pub open spec fn table_of(nodes: Seq<NodeView>, i: int) -> u64 {
    if has_program(nodes, nodes[i]) {
        own_program(nodes, nodes[i])
    } else {
        last_program(nodes, i)
    }
}

/// A cell as it goes into the netlist: a lookup table gets its truth table,
/// and a register an unknown initial state.
pub open spec fn prepared(cell: CellView, init: u64) -> CellView {
    if lut_size(cell.ptype) > 0 {
        CellView {
            params: cell.params.insert(
                init_name(),
                ParamView::BitVec(value_bits(init as nat, pow2(lut_size(cell.ptype)))),
            ),
            ..cell
        }
    } else if cell.ptype == PrimitiveType::FDRE {
        CellView {
            params: cell.params.insert(init_name(), ParamView::Logic(LogicValue::X)),
            ..cell
        }
    } else {
        cell
    }
}

/// The children of a node that are operands of its cell. The first child of
/// a lookup table is its program.
pub open spec fn operand_ids(node: NodeView, cell: CellView) -> Seq<Id> {
    if lut_size(cell.ptype) > 0 && node.args.len() > 0 {
        node.args.skip(1)
    } else {
        node.args
    }
}

/// The name of the instance of the node at place `i`.
pub open spec fn instance_of(i: nat) -> IdentView {
    ident_of("reinst_"@ + decimal(i))
}

/// What is said of a node that no cell computes.
pub open spec fn no_cell_text(op: Seq<char>) -> Seq<char> {
    "Cannot reinsert node "@ + op + " without associated cell"@
}

/// Inserts the node at place `i`: a leaf is the net of its name, and of any
/// other node but a program and one that gathers roots an instance of its
/// cell is added, with the truth table of the node.
pub open spec fn node_inserted<L: LogicCell<PrimitiveCell>>(
    nodes: Seq<NodeView>,
    leaves: Map<Seq<char>, DrivenNet>,
    s: InsertState,
    i: int,
) -> Result<InsertState, ErrorView> {
    let node = nodes[i];
    match node.op {
        Op::Var(sym) => Ok(InsertState { nets: s.nets.insert(i as usize, leaves[sym]), ..s }),
        Op::Program(_) => Ok(s),
        Op::Bus => Ok(s),
        _ => match L::cell_of(node) {
            None => Err(ErrorView::ParseError(no_cell_text(L::op_text(node.op)))),
            Some(cell) => {
                let ids = operand_ids(node, cell);
                if cell.inputs.len() != ids.len() {
                    Err(
                        ErrorView::ArgumentMismatch(cell.inputs.len() as usize, ids.len() as usize),
                    )
                } else {
                    Ok(
                        InsertState {
                            netlist: with_object(
                                s.netlist,
                                gate_object(
                                    prepared(cell, table_of(nodes, i)),
                                    instance_of(i as nat),
                                    connected(ids.map_values(|id: Id| s.nets[id])),
                                ),
                            ),
                            nets: s.nets.insert(
                                i as usize,
                                DrivenNet { node: s.netlist.objects.len() as usize, pos: 0 },
                            ),
                        },
                    )
                }
            },
        },
    }
}

/// Inserts the first `n` nodes, until one cannot be inserted. What was
/// inserted before stays.
pub open spec fn nodes_inserted<L: LogicCell<PrimitiveCell>>(
    m: MappingView,
    v: NetlistView,
    n: int,
) -> Result<InsertState, (NetlistView, ErrorView)>
    decreases n,
{
    if n <= 0 {
        Ok(InsertState { netlist: v, nets: Map::empty() })
    } else {
        match nodes_inserted::<L>(m, v, n - 1) {
            Ok(s) => match node_inserted::<L>(m.nodes, m.leaves, s, n - 1) {
                Ok(t) => Ok(t),
                Err(e) => Err((s.netlist, e)),
            },
            Err(e) => Err(e),
        }
    }
}

/// Whether a node has a net of its own.
pub open spec fn has_own_net(node: NodeView) -> bool {
    !(node.op is Program || node.op is Bus)
}

/// Whether all of `ids` are places of nodes with nets.
pub open spec fn all_nets(nodes: Seq<NodeView>, ids: Seq<Id>) -> bool {
    forall|k: int|
        0 <= k < ids.len() ==> (#[trigger] ids[k]) < nodes.len() && has_own_net(
            nodes[ids[k] as int],
        )
}

/// Whether the operands of the node at place `i` have nets.
pub open spec fn operands_have_nets<L: LogicCell<PrimitiveCell>>(
    nodes: Seq<NodeView>,
    i: int,
) -> bool {
    has_own_net(nodes[i]) && !(nodes[i].op is Var) ==> (L::cell_of(nodes[i]) matches Some(cell)
        ==> all_nets(nodes, operand_ids(nodes[i], cell)))
}

/// Whether a mapping can be rewritten in a netlist: roots and leaves are
/// nets of it, and what is inserted has nets for operands and roots.
pub open spec fn rewritable<L: LogicCell<PrimitiveCell>>(m: MappingView, v: NetlistView) -> bool {
    &&& m.nodes.len() > 0
    &&& has_nets(v, m.roots)
    &&& forall|i: int|
        0 <= i < m.nodes.len() ==> ((#[trigger] m.nodes[i]).op matches Op::Var(sym) ==> has_net(
            v,
            m.leaves[sym],
        ))
    &&& forall|i: int|
        0 <= i < m.nodes.len() && nodes_inserted::<L>(m, v, i) is Ok ==> #[trigger]
            operands_have_nets::<L>(m.nodes, i)
    &&& nodes_inserted::<L>(m, v, m.nodes.len() as int) is Ok ==> all_nets(
        m.nodes,
        roots_of(m.nodes),
    )
}

/// The netlist with the wire of a root renamed, if it is an output, so that
/// the output can go by its name.
pub open spec fn root_renamed(v: NetlistView, d: DrivenNet) -> NetlistView {
    if v.outputs.contains_key(d) {
        let w = wire_of(v, d);
        with_wire(v, d, WireView { id: join_idents(w.id, ident_of("_old"@)), signal: w.signal })
    } else {
        v
    }
}

/// Replaces the uses of the first `n` of the old roots by the new ones.
/// While it does, the new roots, the old ones still to be replaced and the
/// nets `held` are held on to.
pub open spec fn roots_replaced(
    v: NetlistView,
    olds: Seq<DrivenNet>,
    news: Seq<DrivenNet>,
    held: Seq<DrivenNet>,
    n: int,
) -> Result<NetlistView, (NetlistView, ErrorView)>
    decreases n,
{
    if n <= 0 {
        Ok(v)
    } else {
        match roots_replaced(v, olds, news, held, n - 1) {
            Ok(w) => {
                let w = root_renamed(w, olds[n - 1]);
                match replace_outcome(w, olds[n - 1], olds.skip(n) + news + held, olds.len() - 1) {
                    Ok(x) => Ok(x),
                    Err(e) => Err((w, e)),
                }
            },
            Err(e) => Err(e),
        }
    }
}

/// The netlist with the wires of the first `n` of `nets` set.
pub open spec fn wires_set(
    v: NetlistView,
    nets: Seq<DrivenNet>,
    wires: Seq<WireView>,
    n: int,
) -> NetlistView
    decreases n,
{
    if n <= 0 {
        v
    } else {
        with_wire(wires_set(v, nets, wires, n - 1), nets[n - 1], wires[n - 1])
    }
}

/// The nets of the roots of an expression.
pub open spec fn new_roots(m: MappingView, nets: Map<Id, DrivenNet>) -> Seq<DrivenNet> {
    roots_of(m.nodes).map_values(|id: Id| nets[id])
}

/// The wires of the roots of a mapping.
pub open spec fn root_wires(m: MappingView, v: NetlistView) -> Seq<WireView> {
    m.roots.map_values(|d: DrivenNet| wire_of(v, d))
}

/// The netlist with the expression inserted and used in place of the old
/// roots, while the nets `held` are held on to, and the new roots.
pub open spec fn reconnected<L: LogicCell<PrimitiveCell>>(
    m: MappingView,
    v: NetlistView,
    held: Seq<DrivenNet>,
) -> Result<(NetlistView, Seq<DrivenNet>), (NetlistView, ErrorView)> {
    match nodes_inserted::<L>(m, v, m.nodes.len() as int) {
        Ok(s) => match roots_replaced(
            s.netlist,
            m.roots,
            new_roots(m, s.nets),
            held,
            m.roots.len() as int,
        ) {
            Ok(w) => Ok((w, new_roots(m, s.nets))),
            Err(e) => Err(e),
        },
        Err(e) => Err(e),
    }
}

/// Whether `x` is what is left of `w` after everything that nothing uses is
/// taken out, and `r` is where `nets` are in it.
pub open spec fn cleaned(
    w: NetlistView,
    nets: Seq<DrivenNet>,
    x: NetlistView,
    r: Seq<DrivenNet>,
) -> bool {
    exists|keep: Seq<usize>| #[trigger]
        pruned(w, x, keep) && same_nets(nets, r, keep) && keeps_what_lasts(w, keep)
}

/// Whether `x` is a part of `w` from which something that nothing uses may be
/// gone, and `r` is where `nets` are in it.
pub open spec fn trimmed(
    w: NetlistView,
    nets: Seq<DrivenNet>,
    x: NetlistView,
    r: Seq<DrivenNet>,
) -> bool {
    exists|keep: Seq<usize>| #[trigger] pruned(w, x, keep) && same_nets(nets, r, keep)
}

/// The nets of nodes, by place.
spec fn net_map(nets: Seq<Option<DrivenNet>>) -> Map<Id, DrivenNet> {
    Map::new(
        |id: Id| id < nets.len() && nets[id as int] is Some,
        |id: Id| nets[id as int]->0,
    )
}

/// The message for a node that no cell computes.
fn no_cell_message(op: &str) -> (r: String)
    ensures
        r@ == no_cell_text(op@),
{
    let mut r = "Cannot reinsert node ".to_owned();
    r.append(op);
    r.append(" without associated cell");
    r
}

/// The name of the instance of the node at place `i`.
fn instance_name(i: usize) -> (r: Ident)
    ensures
        r@ == instance_of(i as nat),
{
    proof {
        reveal_strlit("reinst_");
    }
    let mut text = "reinst_".to_owned();
    text.append(decimal_text(i as u64).as_str());
    Ident::new(text.as_str())
}

/// Gets a cell ready for the netlist.
fn prepare(cell: PrimitiveCell, init: u64) -> (r: PrimitiveCell)
    ensures
        r@ == prepared(cell@, init),
{
    let mut cell = cell;
    let ptype = cell.get_type();
    proof {
        reveal_strlit("INIT");
    }
    if ptype.is_lut() {
        let k = ptype.get_num_inputs();
        proof {
            vstd::arithmetic::power2::lemma2_to64();
            assert(1usize << 1usize == 2usize) by (bit_vector);
            assert(1usize << 2usize == 4usize) by (bit_vector);
            assert(1usize << 3usize == 8usize) by (bit_vector);
            assert(1usize << 4usize == 16usize) by (bit_vector);
            assert(1usize << 5usize == 32usize) by (bit_vector);
            assert(1usize << 6usize == 64usize) by (bit_vector);
        }
        let size: usize = 1usize << k;
        let _ = cell.set_parameter(&Ident::new("INIT"), bitvec(size, init));
    } else if ptype.is_reg() {
        let _ = cell.set_parameter(&Ident::new("INIT"), Param::Logic(LogicValue::X));
    }
    cell
}

/// Whether the nodes so far that have nets have them in `nets`.
spec fn nets_ok(nodes: Seq<NodeView>, v: NetlistView, nets: Seq<Option<DrivenNet>>) -> bool {
    forall|j: int|
        0 <= j < nets.len() ==> {
            &&& has_own_net(nodes[j]) ==> (#[trigger] nets[j]) is Some
            &&& nets[j] matches Some(d) ==> has_net(v, d)
        }
}

/// The nets at the places `ids`, all of which have one.
fn nets_at(nets: &Vec<Option<DrivenNet>>, ids: &Vec<Id>) -> (r: Vec<DrivenNet>)
    requires
        forall|k: int|
            0 <= k < ids@.len() ==> (#[trigger] ids@[k]) < nets@.len() && nets@[ids@[k] as int] is Some,
    ensures
        r@ == ids@.map_values(|id: Id| net_map(nets@)[id]),
{
    let mut r: Vec<DrivenNet> = Vec::new();
    for i in 0..ids.len()
        invariant
            forall|k: int|
                0 <= k < ids@.len() ==> (#[trigger] ids@[k]) < nets@.len()
                    && nets@[ids@[k] as int] is Some,
            r@.len() == i,
            forall|k: int| 0 <= k < i ==> (#[trigger] r@[k]) == net_map(nets@)[ids@[k]],
    {
        assert(nets@[ids@[i as int] as int] is Some);
        if let Some(net) = nets[ids[i]] {
            assert(net_map(nets@).contains_key(ids@[i as int]));
            r.push(net);
        }
    }
    assert(r@ =~= ids@.map_values(|id: Id| net_map(nets@)[id]));
    r
}

/// All of `args` but the first.
fn without_first(args: Vec<Id>) -> (r: Vec<Id>)
    ensures
        r@ == if args@.len() > 0 {
            args@.skip(1)
        } else {
            args@
        },
{
    let mut r: Vec<Id> = Vec::new();
    for k in 0..args.len()
        invariant
            r@ == if k > 0 {
                args@.subrange(1, k as int)
            } else {
                Seq::empty()
            },
    {
        if k > 0 {
            r.push(args[k]);
        }
        assert(r@ =~= args@.subrange(1, k + 1));
    }
    proof {
        if args@.len() > 0 {
            assert(r@ =~= args@.skip(1));
        } else {
            assert(r@ =~= args@);
        }
    }
    r
}

impl<L: LogicCell<PrimitiveCell>> LogicMapping<L> {
    /// Inserts the node behind those whose nets are in `nets`, where `last`
    /// is the truth table that was met last, and returns which one that is
    /// then.
    fn insert_node(
        &self,
        netlist: &mut Netlist,
        nets: &mut Vec<Option<DrivenNet>>,
        last: u64,
    ) -> (r: Result<u64, NetlistError>)
        requires
            last == last_program(self@.nodes, old(nets)@.len() as int),
            mapping_ok(self@),
            netlist_ok(old(netlist)@),
            old(nets)@.len() < self@.nodes.len(),
            nets_ok(self@.nodes, old(netlist)@, old(nets)@),
            operands_have_nets::<L>(self@.nodes, old(nets)@.len() as int),
            self@.nodes[old(nets)@.len() as int].op matches Op::Var(sym) ==> has_net(
                old(netlist)@,
                self@.leaves[sym],
            ),
        ensures
            netlist_ok(final(netlist)@),
            forall|d: DrivenNet|
                has_net(old(netlist)@, d) ==> #[trigger] has_net(final(netlist)@, d),
            ({
                let s = InsertState { netlist: old(netlist)@, nets: net_map(old(nets)@) };
                match (node_inserted::<L>(
                    self@.nodes,
                    self@.leaves,
                    s,
                    old(nets)@.len() as int,
                ), r) {
                    (Ok(t), Ok(value)) => {
                        &&& t == (InsertState {
                            netlist: final(netlist)@,
                            nets: net_map(final(nets)@),
                        })
                        &&& value == last_program(self@.nodes, final(nets)@.len() as int)
                        &&& final(nets)@.len() == old(nets)@.len() + 1
                        &&& nets_ok(self@.nodes, final(netlist)@, final(nets)@)
                    },
                    (Err(e), Err(err)) => err@ == e && final(netlist)@ == old(netlist)@,
                    _ => false,
                }
            }),
    {
        let i = nets.len();
        let ghost v = netlist@;
        let ghost before = nets@;
        let node = self.node(i);
        let ghost n = self@.nodes[i as int];
        if let Some(sym) = node.get_var() {
            let net = self.get_leaf(sym.as_str());
            nets.push(net);
            proof {
                assert(net_map(nets@) =~= net_map(before).insert(i, self@.leaves[sym@]));
            }
            Ok(last)
        } else if let Some(value) = node.extract_program() {
            nets.push(None);
            assert(net_map(nets@) =~= net_map(before));
            Ok(value)
        } else if node.is_bus() {
            nets.push(None);
            assert(net_map(nets@) =~= net_map(before));
            Ok(last)
        } else {
            let cell = match node.get_cell() {
                Some(cell) => cell,
                None => {
                    return Err(NetlistError::ParseError(no_cell_message(node.to_text().as_str())));
                },
            };
            let lut = cell.get_type().is_lut();
            let args = node.children();
            assert(crate::lang::before(n.args, i as nat));
            let mut table: u64 = last;
            if args.len() > 0 {
                assert(n.args[0] < i);
                if let Some(value) = self.node(args[0]).extract_program() {
                    table = value;
                }
            }
            assert(table == table_of(self@.nodes, i as int));
            let ids = if lut {
                without_first(args)
            } else {
                args
            };
            proof {
                assert(L::cell_of(n) == Some(cell@));
                assert(ids@ == operand_ids(n, cell@));
                assert forall|k: int| 0 <= k < ids@.len() implies (#[trigger] ids@[k])
                    < nets@.len() && nets@[ids@[k] as int] is Some && has_net(
                    v,
                    nets@[ids@[k] as int]->0,
                ) by {
                    assert(all_nets(self@.nodes, ids@));
                    assert(n.args.contains(ids@[k])) by {
                        if ids@ == n.args {
                            assert(n.args[k] == ids@[k]);
                        } else {
                            assert(n.args[k + 1] == ids@[k]);
                        }
                    }
                    assert(has_own_net(self@.nodes[ids@[k] as int]));
                }
            }
            let operands = nets_at(nets, &ids);
            proof {
                assert forall|k: int| 0 <= k < operands@.len() implies has_net(
                    v,
                    #[trigger] operands@[k],
                ) by {
                    assert(net_map(nets@).contains_key(ids@[k]));
                }
            }
            let cell = prepare(cell, table);
            match netlist.insert_gate(cell, instance_name(i), &operands) {
                Ok(place) => {
                    nets.push(Some(DrivenNet { node: place, pos: 0 }));
                    proof {
                        assert(net_map(nets@) =~= net_map(before).insert(
                            i,
                            DrivenNet { node: place, pos: 0 },
                        ));
                        assert forall|j: int| 0 <= j < nets@.len() implies {
                            &&& has_own_net(self@.nodes[j]) ==> (#[trigger] nets@[j]) is Some
                            &&& nets@[j] matches Some(d) ==> has_net(netlist@, d)
                        } by {
                            if j < before.len() {
                                assert(nets@[j] == before[j]);
                            }
                        }
                    }
                    Ok(last)
                },
                Err(e) => Err(e),
            }
        }
    }
}

/// Where inserting some nodes fails, inserting more fails in the same way.
proof fn lemma_insert_stays_failed<L: LogicCell<PrimitiveCell>>(
    m: MappingView,
    v: NetlistView,
    i: int,
    n: int,
)
    requires
        i <= n,
        nodes_inserted::<L>(m, v, i) is Err,
    ensures
        nodes_inserted::<L>(m, v, n) == nodes_inserted::<L>(m, v, i),
    decreases n - i,
{
    if i < n {
        lemma_insert_stays_failed::<L>(m, v, i, n - 1);
    }
}

/// Where replacing some roots fails, replacing more fails in the same way.
proof fn lemma_replace_stays_failed(
    v: NetlistView,
    olds: Seq<DrivenNet>,
    news: Seq<DrivenNet>,
    held: Seq<DrivenNet>,
    i: int,
    n: int,
)
    requires
        i <= n,
        roots_replaced(v, olds, news, held, i) is Err,
    ensures
        roots_replaced(v, olds, news, held, n) == roots_replaced(v, olds, news, held, i),
    decreases n - i,
{
    if i < n {
        lemma_replace_stays_failed(v, olds, news, held, i, n - 1);
    }
}

/// The nets of `a` from number `from` on, and then those of `b`.
fn joined(a: &Vec<DrivenNet>, from: usize, b: &Vec<DrivenNet>) -> (r: Vec<DrivenNet>)
    requires
        from <= a@.len(),
    ensures
        r@ == a@.skip(from as int) + b@,
{
    let mut r: Vec<DrivenNet> = Vec::new();
    for i in from..a.len()
        invariant
            from <= a@.len(),
            r@ == a@.subrange(from as int, i as int),
    {
        r.push(a[i]);
        assert(r@ =~= a@.subrange(from as int, i + 1));
    }
    assert(r@ =~= a@.skip(from as int));
    for i in 0..b.len()
        invariant
            from <= a@.len(),
            r@ == a@.skip(from as int) + b@.take(i as int),
    {
        r.push(b[i]);
        assert(r@ =~= a@.skip(from as int) + b@.take(i + 1));
    }
    assert(r@ =~= a@.skip(from as int) + b@);
    r
}

/// Replaces the uses of the old roots by the new ones, while the nets `held`
/// are held on to.
fn replace_roots(
    netlist: &mut Netlist,
    olds: &Vec<DrivenNet>,
    news: &Vec<DrivenNet>,
    held: &Vec<DrivenNet>,
) -> (r: Result<(), NetlistError>)
    requires
        netlist_ok(old(netlist)@),
        has_nets(old(netlist)@, olds@),
        has_nets(old(netlist)@, news@),
        has_nets(old(netlist)@, held@),
        olds@.len() == news@.len(),
    ensures
        netlist_ok(final(netlist)@),
        forall|d: DrivenNet| #[trigger] has_net(final(netlist)@, d) == has_net(old(netlist)@, d),
        match (roots_replaced(old(netlist)@, olds@, news@, held@, olds@.len() as int), r) {
            (Ok(w), Ok(_)) => final(netlist)@ == w,
            (Err((w, e)), Err(err)) => final(netlist)@ == w && err@ == e,
            _ => false,
        },
{
    let ghost v = netlist@;
    for i in 0..olds.len()
        invariant
            netlist_ok(netlist@),
            has_nets(v, olds@),
            has_nets(v, news@),
            has_nets(v, held@),
            olds@.len() == news@.len(),
            v == old(netlist)@,
            forall|d: DrivenNet| #[trigger] has_net(netlist@, d) == has_net(v, d),
            roots_replaced(v, olds@, news@, held@, i as int) == Ok::<
                NetlistView,
                (NetlistView, ErrorView),
            >(netlist@),
    {
        let root = olds[i];
        let ghost w = netlist@;
        assert(has_net(v, olds@[i as int]));
        if netlist.is_top_level_output(root) {
            let wire = netlist.wire(root);
            proof {
                reveal_strlit("_old");
            }
            let id = wire.id.join(&Ident::new("_old"));
            netlist.set_wire(root, Wire { id, signal: wire.signal });
        }
        assert(netlist@ == root_renamed(w, root));
        let all = joined(&joined(olds, i + 1, news), 0, held);
        proof {
            assert(all@ =~= olds@.skip(i + 1) + news@ + held@);
            assert forall|k: int| 0 <= k < all@.len() implies has_net(
                netlist@,
                #[trigger] all@[k],
            ) by {
                let rest = olds@.len() - (i + 1);
                if k < rest {
                    assert(all@[k] == olds@[k + i + 1]);
                    assert(has_net(v, olds@[k + i + 1]));
                } else if k < rest + news@.len() {
                    assert(all@[k] == news@[k - rest]);
                    assert(has_net(v, news@[k - rest]));
                } else {
                    assert(all@[k] == held@[k - rest - news@.len()]);
                    assert(has_net(v, held@[k - rest - news@.len()]));
                }
            }
        }
        match netlist.replace_net_uses(root, &all, olds.len() - 1) {
            Ok(_) => {},
            Err(e) => {
                proof {
                    lemma_replace_stays_failed(v, olds@, news@, held@, i + 1, olds@.len() as int);
                }
                return Err(e);
            },
        }
    }
    Ok(())
}

/// Sets the wires of `nets`.
fn set_wires(netlist: &mut Netlist, nets: &Vec<DrivenNet>, wires: &Vec<Wire>)
    requires
        netlist_ok(old(netlist)@),
        has_nets(old(netlist)@, nets@),
        nets@.len() == wires@.len(),
    ensures
        netlist_ok(final(netlist)@),
        final(netlist)@ == wires_set(
            old(netlist)@,
            nets@,
            crate::level::wire_views(wires@),
            nets@.len() as int,
        ),
        forall|d: DrivenNet| #[trigger] has_net(final(netlist)@, d) == has_net(old(netlist)@, d),
{
    let ghost v = netlist@;
    for i in 0..nets.len()
        invariant
            netlist_ok(netlist@),
            has_nets(v, nets@),
            nets@.len() == wires@.len(),
            forall|d: DrivenNet| #[trigger] has_net(netlist@, d) == has_net(v, d),
            netlist@ == wires_set(v, nets@, crate::level::wire_views(wires@), i as int),
    {
        assert(has_net(v, nets@[i as int]));
        netlist.set_wire(nets[i], wires[i].clone());
    }
}

impl<L: LogicCell<PrimitiveCell>> LogicMapping<L> {
    /// Inserts all nodes, and returns their nets.
    fn insert_nodes(&self, netlist: &mut Netlist) -> (r: Result<
        Vec<Option<DrivenNet>>,
        NetlistError,
    >)
        requires
            mapping_ok(self@),
            netlist_ok(old(netlist)@),
            rewritable::<L>(self@, old(netlist)@),
        ensures
            netlist_ok(final(netlist)@),
            forall|d: DrivenNet|
                has_net(old(netlist)@, d) ==> #[trigger] has_net(final(netlist)@, d),
            match (nodes_inserted::<L>(self@, old(netlist)@, self@.nodes.len() as int), r) {
                (Ok(s), Ok(nets)) => {
                    &&& s.netlist == final(netlist)@
                    &&& s.nets == net_map(nets@)
                    &&& nets@.len() == self@.nodes.len()
                    &&& nets_ok(self@.nodes, final(netlist)@, nets@)
                },
                (Err((w, e)), Err(err)) => final(netlist)@ == w && err@ == e,
                _ => false,
            },
    {
        let ghost v = netlist@;
        let ghost m = self@;
        let mut nets: Vec<Option<DrivenNet>> = Vec::new();
        let mut last: u64 = 0;
        let n = self.len();
        assert(net_map(nets@) =~= Map::<Id, DrivenNet>::empty());
        for i in 0..n
            invariant
                m == self@,
                v == old(netlist)@,
                mapping_ok(m),
                rewritable::<L>(m, v),
                n == m.nodes.len(),
                netlist_ok(netlist@),
                nets@.len() == i,
                nets_ok(m.nodes, netlist@, nets@),
                forall|d: DrivenNet| has_net(v, d) ==> #[trigger] has_net(netlist@, d),
                nodes_inserted::<L>(m, v, i as int) == Ok::<
                    InsertState,
                    (NetlistView, ErrorView),
                >(InsertState { netlist: netlist@, nets: net_map(nets@) }),
                last == last_program(m.nodes, i as int),
        {
            assert(operands_have_nets::<L>(m.nodes, i as int));
            match self.insert_node(netlist, &mut nets, last) {
                Ok(value) => {
                    last = value;
                },
                Err(e) => {
                    proof {
                        lemma_insert_stays_failed::<L>(m, v, i + 1, n as int);
                    }
                    return Err(e);
                },
            }
        }
        Ok(nets)
    }

    /// Puts the expression into the netlist in place of the logic behind the
    /// roots, and takes out what is not used any more. The new roots get the
    /// wires of the old ones. Returns the nets of the new roots.
    ///
    /// The mapping is used up, and nothing else is held on to. Nets that were
    /// handed out before are stale afterwards: see
    /// [`LogicMapping::rewrite_holding`].
    pub fn rewrite(self, netlist: &mut Netlist) -> (r: Result<Vec<DrivenNet>, NetlistError>)
        requires
            netlist_ok(old(netlist)@),
            rewritable::<L>(self@, old(netlist)@),
        ensures
            netlist_ok(final(netlist)@),
            match reconnected::<L>(self@, old(netlist)@, Seq::empty()) {
                Err((w, e)) => final(netlist)@ == w && (r matches Err(err) && err@ == e),
                Ok((w, news)) => {
                    let (x, nets) = clean_outcome(w, news);
                    &&& netlist_ok(w)
                    &&& has_nets(w, news)
                    &&& clean_result(w, news, r)
                    &&& match r {
                        Ok(r) => {
                            &&& nets == r@
                            &&& has_nets(final(netlist)@, r@)
                            &&& cleaned(w, news, x, r@)
                            &&& final(netlist)@ == wires_set(
                                x,
                                r@,
                                root_wires(self@, old(netlist)@),
                                r@.len() as int,
                            )
                        },
                        Err(_) => final(netlist)@ == x,
                    }
                },
            },
    {
        let mut held: Vec<DrivenNet> = Vec::new();
        assert(held@ =~= Seq::empty());
        proof {
            if let Ok((w, news)) = reconnected::<L>(self@, netlist@, Seq::empty()) {
                assert(news + held@ =~= news);
            }
        }
        let r = self.rewrite_holding(netlist, &mut held);
        proof {
            if let Ok((w, news)) = reconnected::<L>(self@, old(netlist)@, Seq::empty()) {
                let nets = clean_outcome(w, news).1;
                assert(nets.take(news.len() as int) =~= nets);
            }
        }
        r
    }

    /// Does what [`LogicMapping::rewrite`] does while the nets in `held` are
    /// held on to, and sets those to where they are then. It is an error to
    /// replace a root whose object is held on to, or to take out an object
    /// that is.
    pub fn rewrite_holding(self, netlist: &mut Netlist, held: &mut Vec<DrivenNet>) -> (r: Result<
        Vec<DrivenNet>,
        NetlistError,
    >)
        requires
            netlist_ok(old(netlist)@),
            rewritable::<L>(self@, old(netlist)@),
            has_nets(old(netlist)@, old(held)@),
        ensures
            netlist_ok(final(netlist)@),
            has_nets(final(netlist)@, final(held)@),
            match reconnected::<L>(self@, old(netlist)@, old(held)@) {
                Err((w, e)) => final(netlist)@ == w && final(held)@ == old(held)@ && (
                r matches Err(err) && err@ == e),
                Ok((w, news)) => {
                    let all = news + old(held)@;
                    let (x, nets) = clean_outcome(w, all);
                    &&& netlist_ok(w)
                    &&& has_nets(w, all)
                    &&& nets.len() == all.len()
                    &&& clean_result(w, all, r)
                    &&& trimmed(w, all, x, nets)
                    &&& final(held)@ == nets.skip(news.len() as int)
                    &&& match r {
                        Ok(r) => {
                            &&& r@ == nets.take(news.len() as int)
                            &&& has_nets(final(netlist)@, r@)
                            &&& cleaned(w, all, x, nets)
                            &&& final(netlist)@ == wires_set(
                                x,
                                r@,
                                root_wires(self@, old(netlist)@),
                                r@.len() as int,
                            )
                        },
                        Err(_) => final(netlist)@ == x,
                    }
                },
            },
    {
        let ghost v = netlist@;
        let ghost m = self@;
        let ghost first = held@;
        let _ = self.get_expr();
        let roots = self.root_nets();
        let mut wires: Vec<Wire> = Vec::new();
        for i in 0..roots.len()
            invariant
                roots@ == m.roots,
                has_nets(v, roots@),
                v == netlist@,
                wires@.len() == i,
                forall|j: int| 0 <= j < i ==> (#[trigger] wires@[j])@ == wire_of(v, roots@[j]),
        {
            assert(has_net(v, roots@[i as int]));
            wires.push(netlist.wire(roots[i]));
        }
        assert(crate::level::wire_views(wires@) =~= root_wires(m, v));
        let nets = match self.insert_nodes(netlist) {
            Ok(nets) => nets,
            Err(e) => {
                proof {
                    lemma_still_nets(v, netlist@, first);
                }
                return Err(e);
            },
        };
        let ids = self.root_ids();
        proof {
            assert(all_nets(m.nodes, ids@));
            assert forall|k: int| 0 <= k < ids@.len() implies (#[trigger] ids@[k]) < nets@.len()
                && nets@[ids@[k] as int] is Some by {
                assert(has_own_net(m.nodes[ids@[k] as int]));
            }
        }
        let news = nets_at(&nets, &ids);
        let ghost n = news@.len() as int;
        proof {
            assert forall|k: int| 0 <= k < news@.len() implies has_net(
                netlist@,
                #[trigger] news@[k],
            ) by {
                assert(ids@[k] < nets@.len());
                assert(net_map(nets@).contains_key(ids@[k]));
            }
            lemma_still_nets(v, netlist@, roots@);
            lemma_still_nets(v, netlist@, first);
        }
        let ghost inserted = netlist@;
        match replace_roots(netlist, &roots, &news, held) {
            Ok(_) => {},
            Err(e) => {
                proof {
                    lemma_still_nets(inserted, netlist@, first);
                }
                return Err(e);
            },
        }
        let ghost w = netlist@;
        let mut all = joined(&news, 0, held);
        proof {
            assert(all@ =~= news@ + first);
            lemma_still_nets(inserted, w, news@);
            lemma_still_nets(inserted, w, first);
            assert forall|k: int| 0 <= k < all@.len() implies has_net(w, #[trigger] all@[k]) by {
                if k < n {
                    assert(has_net(w, news@[k]));
                } else {
                    assert(has_net(w, first[k - n]));
                }
            }
        }
        let r = netlist.clean(&mut all);
        let ghost x = netlist@;
        let count = news.len();
        let fresh = first_nets(&all, count);
        *held = joined(&all, count, &Vec::new());
        proof {
            assert(held@ =~= all@.skip(n));
            assert forall|k: int| 0 <= k < fresh@.len() implies has_net(x, #[trigger] fresh@[k]) by {
                assert(has_net(x, all@[k]));
            }
            assert forall|k: int| 0 <= k < held@.len() implies has_net(x, #[trigger] held@[k]) by {
                assert(has_net(x, all@[k + n]));
            }
        }
        match r {
            Ok(_) => {
                set_wires(netlist, &fresh, &wires);
                proof {
                    lemma_still_nets(x, netlist@, held@);
                    lemma_still_nets(x, netlist@, fresh@);
                }
                Ok(fresh)
            },
            Err(e) => Err(e),
        }
    }
}

/// Whether the node at place `i` can be inserted.
spec fn insertable<L: LogicCell<PrimitiveCell>>(nodes: Seq<NodeView>, i: int) -> bool {
    has_own_net(nodes[i]) && !(nodes[i].op is Var) ==> (L::cell_of(nodes[i]) matches Some(cell)
        && cell.inputs.len() == operand_ids(nodes[i], cell).len())
}

/// Inserting one more node succeeds exactly if it can be inserted.
proof fn lemma_insertable<L: LogicCell<PrimitiveCell>>(m: MappingView, v: NetlistView, i: int)
    requires
        0 <= i,
    ensures
        nodes_inserted::<L>(m, v, i + 1) is Ok <==> nodes_inserted::<L>(m, v, i) is Ok
            && insertable::<L>(m.nodes, i),
{
}

/// Whether nodes can be inserted does not depend on the netlist or the nets.
proof fn lemma_inserted_alike<L: LogicCell<PrimitiveCell>>(
    m: MappingView,
    v: NetlistView,
    o: MappingView,
    x: NetlistView,
    n: int,
)
    requires
        m.nodes == o.nodes,
    ensures
        nodes_inserted::<L>(m, v, n) is Ok <==> nodes_inserted::<L>(o, x, n) is Ok,
    decreases n,
{
    if n > 0 {
        lemma_inserted_alike::<L>(m, v, o, x, n - 1);
        lemma_insertable::<L>(m, v, n - 1);
        lemma_insertable::<L>(o, x, n - 1);
    }
}

/// A mapping that could be rewritten still can be when its nets have moved. So
/// mappings can be rewritten one after the other, if the nets of the others are
/// held on to and moved along.
pub proof fn law_moved_mappings_can_be_rewritten<L: LogicCell<PrimitiveCell>>(
    m: MappingView,
    v: NetlistView,
    x: NetlistView,
    from: Seq<DrivenNet>,
    to: Seq<DrivenNet>,
)
    requires
        mapping_ok(m),
        rewritable::<L>(m, v),
        from.len() == to.len(),
        forall|d: DrivenNet| #[trigger] holds_net(m, d) ==> from.contains(d),
        has_nets(x, to),
    ensures
        rewritable::<L>(moved_mapping(m, from, to), x),
{
    let o = moved_mapping(m, from, to);
    assert forall|i: int| 0 <= i < o.roots.len() implies has_net(x, #[trigger] o.roots[i]) by {
        let d = m.roots[i];
        assert(m.roots.contains(d));
        assert(holds_net(m, d));
        from.index_of_first_ensures(d);
        assert(has_net(x, to[from.index_of_first(d)->0]));
    }
    assert forall|i: int| 0 <= i < o.nodes.len() implies ((
    #[trigger] o.nodes[i]).op matches Op::Var(sym) ==> has_net(x, o.leaves[sym])) by {
        if let Op::Var(sym) = o.nodes[i].op {
            assert(m.nodes[i].op == Op::Var(sym));
            assert(m.leaves.contains_key(sym));
            let d = m.leaves[sym];
            assert(holds_net(m, d));
            from.index_of_first_ensures(d);
            assert(has_net(x, to[from.index_of_first(d)->0]));
        }
    }
    assert forall|i: int|
        0 <= i < o.nodes.len() && nodes_inserted::<L>(o, x, i) is Ok implies #[trigger]
        operands_have_nets::<L>(o.nodes, i) by {
        lemma_inserted_alike::<L>(m, v, o, x, i);
        assert(operands_have_nets::<L>(m.nodes, i));
    }
    lemma_inserted_alike::<L>(m, v, o, x, m.nodes.len() as int);
}

/// Whether all of `nets` are nets of the netlist.
fn are_nets(netlist: &Netlist, nets: &Vec<DrivenNet>) -> (r: bool)
    ensures
        r == has_nets(netlist@, nets@),
{
    for i in 0..nets.len()
        invariant
            forall|j: int| 0 <= j < i ==> has_net(netlist@, #[trigger] nets@[j]),
    {
        if !netlist.has(nets[i]) {
            assert(!has_net(netlist@, nets@[i as int]));
            return false;
        }
    }
    true
}

impl<L: LogicCell<PrimitiveCell>> LogicMapping<L> {
    /// Whether all of `ids` are places of nodes with nets.
    fn have_nets(&self, ids: &Vec<Id>) -> (r: bool)
        ensures
            r == all_nets(self@.nodes, ids@),
    {
        for k in 0..ids.len()
            invariant
                forall|j: int|
                    0 <= j < k ==> (#[trigger] ids@[j]) < self@.nodes.len() && has_own_net(
                        self@.nodes[ids@[j] as int],
                    ),
        {
            if ids[k] >= self.len() {
                assert(ids@[k as int] >= self@.nodes.len());
                return false;
            }
            let node = self.node(ids[k]);
            if node.extract_program().is_some() || node.is_bus() {
                assert(!has_own_net(self@.nodes[ids@[k as int] as int]));
                return false;
            }
        }
        true
    }

    /// Whether the mapping can be rewritten in the netlist.
    pub fn is_rewritable(&self, netlist: &Netlist) -> (r: bool)
        ensures
            r == rewritable::<L>(self@, netlist@),
    {
        let ghost m = self@;
        let ghost v = netlist@;
        let n = self.len();
        if n == 0 || !are_nets(netlist, &self.root_nets()) {
            return false;
        }
        let _ = self.get_expr();
        let mut inserted: bool = true;
        for i in 0..n
            invariant
                m == self@,
                v == netlist@,
                mapping_ok(m),
                n == m.nodes.len(),
                n > 0,
                has_nets(v, m.roots),
                inserted == nodes_inserted::<L>(m, v, i as int) is Ok,
                forall|j: int|
                    0 <= j < i ==> ((#[trigger] m.nodes[j]).op matches Op::Var(sym) ==> has_net(
                        v,
                        m.leaves[sym],
                    )),
                forall|j: int|
                    0 <= j < i && nodes_inserted::<L>(m, v, j) is Ok ==> #[trigger]
                        operands_have_nets::<L>(m.nodes, j),
        {
            let node = self.node(i);
            let ghost now = m.nodes[i as int];
            proof {
                lemma_insertable::<L>(m, v, i as int);
            }
            if let Some(sym) = node.get_var() {
                if let Some(net) = self.get_leaf(sym.as_str()) {
                    if !netlist.has(net) {
                        assert(!has_net(v, m.leaves[now.op->Var_0]));
                        return false;
                    }
                }
            } else if node.extract_program().is_none() && !node.is_bus() {
                match node.get_cell() {
                    Some(cell) => {
                        let lut = cell.get_type().is_lut();
                        let args = node.children();
                        let ids = if lut {
                            without_first(args)
                        } else {
                            args
                        };
                        assert(L::cell_of(now) == Some(cell@));
                        assert(ids@ == operand_ids(now, cell@));
                        let fits = cell.get_input_ports().len() == ids.len();
                        assert(fits == (cell@.inputs.len() == ids@.len()));
                        if inserted && !self.have_nets(&ids) {
                            assert(!operands_have_nets::<L>(m.nodes, i as int));
                            return false;
                        }
                        inserted = inserted && fits;
                    },
                    None => {
                        inserted = false;
                    },
                }
            }
        }
        !inserted || self.have_nets(&self.root_ids())
    }
}

/// Nets stay nets where none is lost.
proof fn lemma_still_nets(v: NetlistView, w: NetlistView, nets: Seq<DrivenNet>)
    requires
        has_nets(v, nets),
        forall|d: DrivenNet| has_net(v, d) ==> #[trigger] has_net(w, d),
    ensures
        has_nets(w, nets),
{
    assert forall|i: int| 0 <= i < nets.len() implies has_net(w, #[trigger] nets[i]) by {
        assert(has_net(v, nets[i]));
    }
}

/// The first `n` of `nets`.
fn first_nets(nets: &Vec<DrivenNet>, n: usize) -> (r: Vec<DrivenNet>)
    requires
        n <= nets@.len(),
    ensures
        r@ == nets@.take(n as int),
{
    let mut r: Vec<DrivenNet> = Vec::new();
    for i in 0..n
        invariant
            n <= nets@.len(),
            r@ == nets@.take(i as int),
    {
        r.push(nets[i]);
        assert(r@ =~= nets@.take(i + 1));
    }
    r
}

} // verus!
