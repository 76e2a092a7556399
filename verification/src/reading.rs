//! Reading nets, one after the other, into the nodes of an expression.

use crate::cell::{CellView, PrimitiveCell};
use crate::func::{AddProgram, LogicFunc};
use crate::ident::{ident_of, ident_text, Ident, IdentView};
use crate::lang::{
    before, leaf, roots_of, CellLang, CircuitLang, Id, LutLang, NodeView, Op, RecExpr,
};
use crate::leaves::LeafTable;
use crate::mapping::{LogicMapping, MappingView};
use crate::netlist::{
    has_net, has_nets, netlist_ok, wire_of, DrivenNet, Netlist, NetlistView, ObjectKind,
};
use crate::order::order_ok;
use crate::param::{bits_value, load_le, Param, ParamView};
use crate::places::Places;
use crate::primitive::{lut_size, PrimitiveType};
use crate::text::{decimal, decimal_text};
use std::collections::HashMap;
use vstd::prelude::*;

verus! {

/// How far the reading of nets has come: the nodes so far, the place of
/// each net among them, and the nets that are leaves, by name and by place.
#[verifier::ext_equal]
pub struct BuildState {
    pub nodes: Seq<NodeView>,
    pub ids: Map<DrivenNet, Id>,
    pub leaves: Map<Seq<char>, DrivenNet>,
    pub leaves_by_id: Map<Id, DrivenNet>,
}

/// The name of the parameter that holds a truth table or an initial state.
pub open spec fn init_name() -> IdentView {
    ident_of("INIT"@)
}

/// Whether a cell comes with a truth table. In a register `INIT` is
/// something else.
pub open spec fn programmed(cell: CellView) -> bool {
    cell.params.contains_key(init_name()) && cell.ptype != PrimitiveType::FDRE
}

/// The function of the object behind a net, where there is one.
pub open spec fn func_of<L: CircuitLang>(v: NetlistView, net: DrivenNet) -> Option<NodeView> where
    PrimitiveCell: LogicFunc<L>,
 {
    match v.objects[net.node as int].kind {
        ObjectKind::Instance(_, cell) => <PrimitiveCell as LogicFunc<L>>::logic_func(
            cell,
            net.pos as nat,
        ),
        _ => None,
    }
}

/// The node of a cell's truth table, where it has one and the language has
/// such nodes.
pub open spec fn program_of<L: CircuitLang>(cell: CellView) -> Option<NodeView> where
    PrimitiveCell: AddProgram<L>,
 {
    if !programmed(cell) {
        None
    } else {
        match cell.params[init_name()] {
            ParamView::BitVec(bits) => <PrimitiveCell as AddProgram<L>>::program_node(
                cell,
                bits_value(bits) as u64,
            ),
            _ => None,
        }
    }
}

/// The children `args` of a node with the places of `operands` filled in
/// from number `i` on, behind `shift` other children.
pub open spec fn filled(
    v: NetlistView,
    net: DrivenNet,
    ids: Map<DrivenNet, Id>,
    args: Seq<Id>,
    shift: int,
    i: int,
) -> Result<Seq<Id>, Seq<char>>
    decreases v.objects[net.node as int].operands.len() - i,
{
    let operands = v.objects[net.node as int].operands;
    if i >= operands.len() {
        Ok(args)
    } else {
        match operands[i] {
            None => Err(missing_text(i as nat, wire_of(v, net).id)),
            Some(d) => if ids.contains_key(d) {
                filled(v, net, ids, args.update(i + shift, ids[d]), shift, i + 1)
            } else {
                Err(cycle_text())
            },
        }
    }
}

/// What is said of a cycle.
pub open spec fn cycle_text() -> Seq<char> {
    "Cycle detected in netlist"@
}

/// What is said of an input port that is not connected.
pub open spec fn missing_text(i: nat, id: IdentView) -> Seq<char> {
    "Failed to get driver for input "@ + decimal(i) + " of net "@ + ident_text(id)
}

/// Reads a net whose object has the function `func`: behind the node of its
/// truth table, if it has one, comes the function with the nets that drive
/// the object as children.
pub open spec fn gate_read(
    v: NetlistView,
    s: BuildState,
    net: DrivenNet,
    func: NodeView,
    program: Option<NodeView>,
    shift: int,
) -> Result<BuildState, Seq<char>> {
    let nodes = match program {
        Some(p) => s.nodes.push(p),
        None => s.nodes,
    };
    let args = match program {
        Some(_) => func.args.update(0, s.nodes.len() as usize),
        None => func.args,
    };
    match filled(v, net, s.ids, args, shift, 0) {
        Ok(args) => Ok(
            BuildState {
                nodes: nodes.push(NodeView { op: func.op, args }),
                ids: s.ids.insert(net, nodes.len() as usize),
                ..s
            },
        ),
        Err(e) => Err(e),
    }
}

/// Reads a net as a leaf, by its name.
pub open spec fn leaf_read(v: NetlistView, s: BuildState, net: DrivenNet) -> BuildState {
    let sym = ident_text(wire_of(v, net).id);
    let id = s.nodes.len() as usize;
    BuildState {
        nodes: s.nodes.push(leaf(Op::Var(sym))),
        ids: s.ids.insert(net, id),
        leaves: s.leaves.insert(sym, net),
        leaves_by_id: s.leaves_by_id.insert(id, net),
    }
}

/// Reads one net: as its function where the object behind it has one, and
/// else as a leaf.
pub open spec fn net_read<L: CircuitLang>(v: NetlistView, s: BuildState, net: DrivenNet) -> Result<
    BuildState,
    Seq<char>,
> where PrimitiveCell: LogicFunc<L> + AddProgram<L> {
    match (v.objects[net.node as int].kind, func_of::<L>(v, net)) {
        (ObjectKind::Instance(_, cell), Some(func)) => gate_read(
            v,
            s,
            net,
            func,
            program_of::<L>(cell),
            if programmed(cell) {
                1
            } else {
                0
            },
        ),
        _ => Ok(leaf_read(v, s, net)),
    }
}

/// Before any net is read.
pub open spec fn nothing_read() -> BuildState {
    BuildState {
        nodes: Seq::empty(),
        ids: Map::empty(),
        leaves: Map::empty(),
        leaves_by_id: Map::empty(),
    }
}

/// Reads nets one after the other, until one cannot be read.
pub open spec fn nets_read<L: CircuitLang>(v: NetlistView, order: Seq<DrivenNet>) -> Result<
    BuildState,
    Seq<char>,
> where PrimitiveCell: LogicFunc<L> + AddProgram<L>
    decreases order.len(),
{
    if order.len() == 0 {
        Ok(nothing_read())
    } else {
        match nets_read::<L>(v, order.drop_last()) {
            Ok(s) => net_read::<L>(v, s, order.last()),
            Err(e) => Err(e),
        }
    }
}

/// The mapping of `roots`, whose nets are read in `order`. Several roots are
/// gathered by one more node.
pub open spec fn mapped<L: CircuitLang>(
    v: NetlistView,
    roots: Seq<DrivenNet>,
    order: Seq<DrivenNet>,
) -> Result<MappingView, Seq<char>> where PrimitiveCell: LogicFunc<L> + AddProgram<L> {
    match nets_read::<L>(v, order) {
        Ok(s) => Ok(
            MappingView {
                nodes: if roots.len() > 1 {
                    s.nodes.push(
                        NodeView {
                            op: Op::Bus,
                            args: roots.map_values(|d: DrivenNet| s.ids[d]),
                        },
                    )
                } else {
                    s.nodes
                },
                roots,
                leaves: s.leaves,
                leaves_by_id: s.leaves_by_id,
            },
        ),
        Err(e) => Err(e),
    }
}

/// Whether the input ports up to number `k` are all connected.
pub open spec fn driven_up_to(operands: Seq<Option<DrivenNet>>, k: int) -> bool {
    forall|j: int| 0 <= j <= k ==> (#[trigger] operands[j]) is Some
}

/// Whether a node of `n` children has one for every operand, behind `shift`
/// others, as far as the input ports are connected.
pub open spec fn has_room(operands: Seq<Option<DrivenNet>>, shift: int, n: nat) -> bool {
    forall|k: int|
        0 <= k < operands.len() && #[trigger] driven_up_to(operands, k) ==> k + shift < n
}

/// Whether a net can be read: its function has a child for every operand as
/// far as the input ports are connected, and one for a truth table that
/// becomes a node. A truth table has to be of 1 to 64 bits.
pub open spec fn readable<L: CircuitLang>(v: NetlistView, net: DrivenNet) -> bool where
    PrimitiveCell: LogicFunc<L> + AddProgram<L>,
 {
    match (v.objects[net.node as int].kind, func_of::<L>(v, net)) {
        (ObjectKind::Instance(_, cell), Some(func)) => {
            &&& has_room(
                v.objects[net.node as int].operands,
                if programmed(cell) {
                    1
                } else {
                    0
                },
                func.args.len(),
            )
            &&& program_of::<L>(cell) is Some ==> func.args.len() > 0
            &&& func.args.len() > 0 ==> cell.inputs.len() > 0
            &&& programmed(cell) ==> (cell.params[init_name()] matches ParamView::BitVec(bits)
                ==> 0 < bits.len() <= 64)
        },
        _ => true,
    }
}

/// Whether a net can be read.
pub fn is_readable<L: CircuitLang>(netlist: &Netlist, net: DrivenNet) -> (r: bool) where
    PrimitiveCell: LogicFunc<L> + AddProgram<L>,

    requires
        netlist_ok(netlist@),
        has_net(netlist@, net),
    ensures
        r == readable::<L>(netlist@, net),
{
    let cell = match netlist.cell(net.node) {
        Some(cell) => cell,
        None => {
            return true;
        },
    };
    let func: Option<L> = cell.get_logic_func(net.pos);
    let n = match func {
        Some(logic) => logic.children().len(),
        None => {
            return true;
        },
    };
    if n > 0 && cell.get_input_ports().len() == 0 {
        return false;
    }
    proof {
        reveal_strlit("INIT");
    }
    let mut shift: usize = 0;
    if let Some(param) = cell.get_parameter(&Ident::new("INIT")) {
        if !cell.is_seq() {
            shift = 1;
            if let Param::BitVec(bits) = param {
                if bits.len() == 0 || bits.len() > 64 {
                    return false;
                }
                let mut expr: RecExpr<L> = RecExpr::new();
                let id = cell.add_program(&mut expr, load_le(&bits));
                if n == 0 && id.is_some() {
                    return false;
                }
            }
        }
    }
    let drivers = netlist.drivers(net.node);
    let mut k: usize = 0;
    while k < drivers.len() && drivers[k].is_some()
        invariant
            k <= drivers@.len(),
            forall|j: int| 0 <= j < k ==> (#[trigger] drivers@[j]) is Some,
        decreases drivers@.len() - k,
    {
        k = k + 1;
    }
    let r = k == 0 || (shift < n && k <= n - shift);
    proof {
        assert(driven_up_to(drivers@, k - 1));
        assert(has_room(drivers@, shift as int, n as nat) == r);
    }
    r
}

/// The nets that were read so far.
struct Build<L: CircuitLang> {
    expr: RecExpr<L>,
    ids: Places,
    leaves: LeafTable,
    leaves_by_id: HashMap<Id, DrivenNet>,
}

/// The message for an input port that is not connected.
fn missing_message(i: usize, id: &Ident) -> (r: String)
    ensures
        r@ == missing_text(i as nat, id@),
{
    let mut r = "Failed to get driver for input ".to_owned();
    r.append(decimal_text(i as u64).as_str());
    r.append(" of net ");
    r.append(id.to_text().as_str());
    r
}

impl<L: CircuitLang> Build<L> {
    spec fn state(self) -> BuildState {
        BuildState {
            nodes: self.expr@,
            ids: self.ids@,
            leaves: self.leaves@,
            leaves_by_id: self.leaves_by_id@,
        }
    }

    /// Whether there is room for every object, and every net that was read is
    /// at one of the nodes.
    spec fn ok(self, v: NetlistView) -> bool {
        &&& self.ids.size() == v.objects.len()
        &&& forall|d: DrivenNet| #[trigger]
            self.ids@.contains_key(d) ==> self.ids@[d] < self.expr@.len()
    }

    fn new(netlist: &Netlist) -> (r: Build<L>)
        ensures
            r.ok(netlist@),
            r.state() == nothing_read(),
    {
        broadcast use vstd::std_specs::hash::group_hash_axioms;

        let r = Build {
            expr: RecExpr::new(),
            ids: Places::new(netlist.len()),
            leaves: LeafTable::new(),
            leaves_by_id: HashMap::new(),
        };
        assert(r.state() =~= nothing_read());
        r
    }

    /// Fills in the children of `logic`, behind `shift` others.
    fn fill(&self, netlist: &Netlist, net: DrivenNet, logic: L, shift: usize) -> (r: Result<
        L,
        String,
    >)
        requires
            netlist_ok(netlist@),
            has_net(netlist@, net),
            self.ok(netlist@),
            shift <= 1,
            has_room(
                netlist@.objects[net.node as int].operands,
                shift as int,
                logic.node().args.len(),
            ),
            forall|k: int|
                0 <= k < logic.node().args.len() ==> (#[trigger] logic.node().args[k]) == 0
                    || logic.node().args[k] < self.expr@.len(),
        ensures
            match r {
                Ok(l) => {
                    &&& l.node().op == logic.node().op
                    &&& filled(
                        netlist@,
                        net,
                        self.state().ids,
                        logic.node().args,
                        shift as int,
                        0,
                    ) == Ok::<Seq<Id>, Seq<char>>(l.node().args)
                    &&& netlist@.objects[net.node as int].operands.len() > 0 ==> self.expr@.len()
                        > 0
                    &&& forall|k: int|
                        0 <= k < l.node().args.len() ==> (#[trigger] l.node().args[k]) == 0
                            || l.node().args[k] < self.expr@.len()
                },
                Err(e) => filled(
                    netlist@,
                    net,
                    self.state().ids,
                    logic.node().args,
                    shift as int,
                    0,
                ) == Err::<Seq<Id>, Seq<char>>(e@),
            },
    {
        let ghost v = netlist@;
        let ghost first = logic.node().args;
        let ghost op = logic.node().op;
        let mut node = logic;
        let drivers = netlist.drivers(net.node);
        for i in 0..drivers.len()
            invariant
                v == netlist@,
                netlist_ok(v),
                has_net(v, net),
                self.ok(v),
                shift <= 1,
                drivers@ == v.objects[net.node as int].operands,
                has_room(drivers@, shift as int, node.node().args.len()),
                forall|j: int| 0 <= j < i ==> (#[trigger] drivers@[j]) is Some,
                forall|k: int|
                    0 <= k < node.node().args.len() ==> (#[trigger] node.node().args[k]) == 0
                        || node.node().args[k] < self.expr@.len(),
                i > 0 ==> self.expr@.len() > 0,
                first == logic.node().args,
                op == logic.node().op,
                node.node().op == op,
                filled(v, net, self.state().ids, first, shift as int, 0) == filled(
                    v,
                    net,
                    self.state().ids,
                    node.node().args,
                    shift as int,
                    i as int,
                ),
        {
            match drivers[i] {
                None => {
                    return Err(missing_message(i, &netlist.wire(net).id));
                },
                Some(d) => {
                    match self.ids.get(d) {
                        None => {
                            return Err("Cycle detected in netlist".to_owned());
                        },
                        Some(id) => {
                            assert(driven_up_to(drivers@, i as int));
                            node.set_child(i + shift, id);
                        },
                    }
                },
            }
        }
        Ok(node)
    }
}

impl<L: CircuitLang> Build<L> where PrimitiveCell: LogicFunc<L> + AddProgram<L> {
    /// Reads a net whose object is `cell` and has the function `logic`.
    fn read_gate(&mut self, netlist: &Netlist, net: DrivenNet, cell: &PrimitiveCell, logic: L) -> (r:
        Result<(), String>)
        requires
            netlist_ok(netlist@),
            has_net(netlist@, net),
            old(self).ok(netlist@),
            netlist@.objects[net.node as int].kind matches ObjectKind::Instance(_, c) && c == cell@,
            func_of::<L>(netlist@, net) == Some(logic.node()),
            logic.node() == crate::lang::blank(logic.node().op, logic.node().args.len()),
            readable::<L>(netlist@, net),
        ensures
            match r {
                Ok(_) => final(self).ok(netlist@) && net_read::<L>(
                    netlist@,
                    old(self).state(),
                    net,
                ) == Ok::<BuildState, Seq<char>>(final(self).state()),
                Err(e) => net_read::<L>(netlist@, old(self).state(), net) == Err::<
                    BuildState,
                    Seq<char>,
                >(e@),
            },
    {
        let ghost v = netlist@;
        let ghost s = self.state();
        let mut logic = logic;
        let mut shift: usize = 0;
        proof {
            reveal_strlit("INIT");
            assert(crate::netlist::object_ok(v.objects[net.node as int]));
        }
        let init = cell.get_parameter(&Ident::new("INIT"));
        if let Some(param) = init {
            if !cell.is_seq() {
                shift = 1;
                if let Param::BitVec(bits) = param {
                    let value = load_le(&bits);
                    let id = cell.add_program(&mut self.expr, value);
                    if let Some(id) = id {
                        logic.set_child(0, id);
                    }
                }
            }
        }
        proof {
            assert(shift == if programmed(cell@) {
                1int
            } else {
                0int
            });
            assert(self.expr@ == match program_of::<L>(cell@) {
                Some(p) => s.nodes.push(p),
                None => s.nodes,
            });
            assert(self.state().ids == s.ids);
        }
        match self.fill(netlist, net, logic, shift) {
            Ok(logic) => {
                let id = self.expr.add(logic);
                self.ids.insert(net, id);
                Ok(())
            },
            Err(e) => Err(e),
        }
    }

    /// Reads one net.
    fn read_net(&mut self, netlist: &Netlist, net: DrivenNet) -> (r: Result<(), String>)
        requires
            netlist_ok(netlist@),
            has_net(netlist@, net),
            old(self).ok(netlist@),
            readable::<L>(netlist@, net),
        ensures
            match r {
                Ok(_) => final(self).ok(netlist@) && net_read::<L>(
                    netlist@,
                    old(self).state(),
                    net,
                ) == Ok::<BuildState, Seq<char>>(final(self).state()),
                Err(e) => net_read::<L>(netlist@, old(self).state(), net) == Err::<
                    BuildState,
                    Seq<char>,
                >(e@),
            },
    {
        broadcast use vstd::std_specs::hash::group_hash_axioms;

        let ghost s = self.state();
        if let Some(cell) = netlist.cell(net.node) {
            let logic: Option<L> = cell.get_logic_func(net.pos);
            if let Some(logic) = logic {
                proof {
                    <PrimitiveCell as LogicFunc<L>>::law_func(cell@, net.pos as nat);
                }
                return self.read_gate(netlist, net, &cell, logic);
            }
        }
        let sym = netlist.wire(net).id.to_text();
        let id = self.expr.add(L::var(sym.clone()));
        let mut leaves = LeafTable::new();
        std::mem::swap(&mut leaves, &mut self.leaves);
        self.leaves = leaves.with(sym, net);
        self.leaves_by_id.insert(id, net);
        self.ids.insert(net, id);
        assert(self.state() =~= leaf_read(netlist@, s, net));
        Ok(())
    }
}

/// Whether every net of `order` can be read, up to the first whose reading
/// fails.
pub open spec fn all_readable<L: CircuitLang>(v: NetlistView, order: Seq<DrivenNet>) -> bool where
    PrimitiveCell: LogicFunc<L> + AddProgram<L>,
 {
    forall|i: int|
        0 <= i < order.len() && nets_read::<L>(v, order.take(i)) is Ok ==> readable::<L>(
            v,
            #[trigger] order[i],
        )
}

/// Whether every net of `order` can be read, up to the first whose reading
/// fails.
pub fn is_order_readable<L: CircuitLang>(netlist: &Netlist, order: &Vec<DrivenNet>) -> (r: bool) where
    PrimitiveCell: LogicFunc<L> + AddProgram<L>,

    requires
        netlist_ok(netlist@),
        has_nets(netlist@, order@),
    ensures
        r == all_readable::<L>(netlist@, order@),
{
    let ghost v = netlist@;
    let mut build: Build<L> = Build::new(netlist);
    assert(order@.take(0) =~= Seq::<DrivenNet>::empty());
    for i in 0..order.len()
        invariant
            v == netlist@,
            netlist_ok(v),
            has_nets(v, order@),
            build.ok(v),
            nets_read::<L>(v, order@.take(i as int)) == Ok::<BuildState, Seq<char>>(build.state()),
            forall|j: int| 0 <= j < i ==> readable::<L>(v, #[trigger] order@[j]),
    {
        let net = order[i];
        assert(has_net(v, order@[i as int]));
        if !is_readable::<L>(netlist, net) {
            assert(!readable::<L>(v, order@[i as int]));
            return false;
        }
        let ghost next = order@.take(i + 1);
        assert(next.drop_last() =~= order@.take(i as int));
        match build.read_net(netlist, net) {
            Ok(_) => {},
            Err(_) => {
                proof {
                    assert forall|j: int|
                        0 <= j < order@.len() && nets_read::<L>(
                            v,
                            order@.take(j),
                        ) is Ok implies readable::<L>(v, #[trigger] order@[j]) by {
                        if j > i {
                            assert(order@.take(j).take(i + 1) =~= next);
                            lemma_stays_failed::<L>(v, order@.take(j), i + 1);
                        }
                    }
                }
                return true;
            },
        }
    }
    true
}

/// Where all nets are read, all can be.
pub proof fn lemma_all_readable<L: CircuitLang>(v: NetlistView, order: Seq<DrivenNet>) where
    PrimitiveCell: LogicFunc<L> + AddProgram<L>,

    requires
        all_readable::<L>(v, order),
        nets_read::<L>(v, order) is Ok,
    ensures
        forall|i: int| 0 <= i < order.len() ==> readable::<L>(v, #[trigger] order[i]),
{
    assert forall|i: int| 0 <= i < order.len() implies readable::<L>(v, #[trigger] order[i]) by {
        if nets_read::<L>(v, order.take(i)) is Err {
            lemma_stays_failed::<L>(v, order, i);
        }
    }
}

/// After some nets are read, exactly those have a place.
pub proof fn lemma_ids_read<L: CircuitLang>(v: NetlistView, order: Seq<DrivenNet>) where
    PrimitiveCell: LogicFunc<L> + AddProgram<L>,

    ensures
        nets_read::<L>(v, order) matches Ok(s) ==> forall|d: DrivenNet| #[trigger]
            s.ids.contains_key(d) == order.contains(d),
    decreases order.len(),
{
    if order.len() > 0 {
        let rest = order.drop_last();
        lemma_ids_read::<L>(v, rest);
        if let Ok(s) = nets_read::<L>(v, order) {
            assert forall|d: DrivenNet| #[trigger] s.ids.contains_key(d) == order.contains(d) by {
                if order.contains(d) {
                    let i = choose|i: int| 0 <= i < order.len() && order[i] == d;
                    if i < rest.len() {
                        assert(rest[i] == d);
                    }
                }
                if rest.contains(d) {
                    let i = choose|i: int| 0 <= i < rest.len() && rest[i] == d;
                    assert(order[i] == d);
                }
                assert(order[order.len() - 1] == order.last());
            }
        }
    }
}

/// Whether the nets that were read as leaves are known by name and by
/// place.
pub open spec fn leaves_ok(v: NetlistView, s: BuildState) -> bool {
    &&& forall|i: int|
        0 <= i < s.nodes.len() ==> !((#[trigger] s.nodes[i]).op is Bus) && (
        s.nodes[i].op matches Op::Var(sym) ==> s.leaves.contains_key(sym) && s.nodes[i] == leaf(
            Op::Var(sym),
        ))
    &&& forall|id: Id| #[trigger]
        s.leaves_by_id.contains_key(id) <==> id < s.nodes.len() && s.nodes[id as int].op is Var
    &&& forall|sym: Seq<char>| #[trigger]
        s.leaves.contains_key(sym) ==> has_net(v, s.leaves[sym]) && ident_text(
            wire_of(v, s.leaves[sym]).id,
        ) == sym
    &&& forall|id: Id| #[trigger]
        s.leaves_by_id.contains_key(id) ==> s.nodes[id as int].op == Op::Var(
            ident_text(wire_of(v, s.leaves_by_id[id]).id),
        )
    &&& s.nodes.len() == 0 ==> s.ids.dom() == Set::<DrivenNet>::empty()
}

/// Whatever is read, the leaves are known.
pub proof fn law_leaves_are_known<L: CircuitLang>(v: NetlistView, order: Seq<DrivenNet>) where
    PrimitiveCell: LogicFunc<L> + AddProgram<L>,

    requires
        has_nets(v, order),
        nets_read::<L>(v, order) matches Ok(s) ==> s.nodes.len() <= usize::MAX,
    ensures
        nets_read::<L>(v, order) matches Ok(s) ==> leaves_ok(v, s),
    decreases order.len(),
{
    if let Ok(t) = nets_read::<L>(v, order) {
        if order.len() == 0 {
            assert(t.ids.dom() =~= Set::<DrivenNet>::empty());
        } else {
            let s = nets_read::<L>(v, order.drop_last())->Ok_0;
            let net = order.last();
            assert forall|i: int| 0 <= i < order.len() - 1 implies has_net(
                v,
                #[trigger] order.drop_last()[i],
            ) by {
                assert(has_net(v, order[i]));
            }
            assert(has_net(v, order[order.len() - 1]));
            law_leaves_are_known::<L>(v, order.drop_last());
            match (v.objects[net.node as int].kind, func_of::<L>(v, net)) {
                (ObjectKind::Instance(_, cell), Some(func)) => {
                    <PrimitiveCell as LogicFunc<L>>::law_func(cell, net.pos as nat);
                    if programmed(cell) {
                        if let ParamView::BitVec(bits) = cell.params[init_name()] {
                            <PrimitiveCell as AddProgram<L>>::law_program(
                                cell,
                                bits_value(bits) as u64,
                            );
                        }
                    }
                    assert(leaves_ok(v, t));
                },
                _ => {
                    assert(t == leaf_read(v, s, net));
                    assert(leaves_ok(v, t));
                },
            }
        }
    }
}

/// The mapping of `roots`, whose nets are read in `order`.
pub fn read_order<L: CircuitLang>(
    netlist: &Netlist,
    roots: Vec<DrivenNet>,
    order: &Vec<DrivenNet>,
) -> (r: Result<LogicMapping<L>, String>) where PrimitiveCell: LogicFunc<L> + AddProgram<L>
    requires
        netlist_ok(netlist@),
        has_nets(netlist@, order@),
        all_readable::<L>(netlist@, order@),
        forall|i: int| 0 <= i < roots@.len() ==> order@.contains(#[trigger] roots@[i]),
        roots@.len() == 0 ==> order@.len() == 0,
    ensures
        match r {
            Ok(m) => mapped::<L>(netlist@, roots@, order@) == Ok::<MappingView, Seq<char>>(m@),
            Err(e) => mapped::<L>(netlist@, roots@, order@) == Err::<MappingView, Seq<char>>(e@),
        },
{
    let ghost v = netlist@;
    let mut build: Build<L> = Build::new(netlist);
    assert(order@.take(0) =~= Seq::<DrivenNet>::empty());
    for i in 0..order.len()
        invariant
            v == netlist@,
            netlist_ok(v),
            has_nets(v, order@),
            all_readable::<L>(v, order@),
            build.ok(v),
            nets_read::<L>(v, order@.take(i as int)) == Ok::<BuildState, Seq<char>>(build.state()),
    {
        let net = order[i];
        assert(has_net(v, order@[i as int]) && readable::<L>(v, order@[i as int]));
        let ghost next = order@.take(i + 1);
        assert(next.drop_last() =~= order@.take(i as int));
        match build.read_net(netlist, net) {
            Ok(_) => {},
            Err(e) => {
                proof {
                    lemma_stays_failed::<L>(v, order@, i + 1);
                }
                return Err(e);
            },
        }
    }
    assert(order@.take(order@.len() as int) =~= order@);
    let ghost s = build.state();
    let n = build.expr.len();
    proof {
        law_leaves_are_known::<L>(v, order@);
        lemma_ids_read::<L>(v, order@);
    }
    if roots.len() > 1 {
        let mut args: Vec<Id> = Vec::new();
        for i in 0..roots.len()
            invariant
                v == netlist@,
                netlist_ok(v),
                has_nets(v, order@),
                build.ok(v),
                s == build.state(),
                forall|d: DrivenNet| #[trigger] s.ids.contains_key(d) == order@.contains(d),
                forall|i: int| 0 <= i < roots@.len() ==> order@.contains(#[trigger] roots@[i]),
                args@.len() == i,
                forall|k: int| 0 <= k < i ==> (#[trigger] args@[k]) == s.ids[roots@[k]],
                before(args@, build.expr@.len()),
        {
            let root = roots[i];
            assert(s.ids.contains_key(roots@[i as int]));
            match build.ids.get(root) {
                Some(id) => {
                    args.push(id);
                },
                None => {},
            }
        }
        proof {
            assert(args@ =~= roots@.map_values(|d: DrivenNet| s.ids[d]));
        }
        let _ = build.expr.add(L::bus(args));
    }
    let m = build.expr.len();
    proof {
        assert forall|i: int| 0 <= i < m implies ((
        #[trigger] build.expr@[i]).op matches Op::Var(sym) ==> s.leaves.contains_key(sym)) by {
            if i < n {
                assert(build.expr@[i] == s.nodes[i]);
            }
        }
        assert forall|id: Id| #[trigger]
            s.leaves_by_id.contains_key(id) <==> id < m && build.expr@[id as int].op is Var by {
            if id < n {
                assert(build.expr@[id as int] == s.nodes[id as int]);
            }
        }
        if m > 0 && roots@.len() <= 1 {
            assert(!(s.nodes[m - 1].op is Bus));
        }
    }
    Ok(LogicMapping::new(build.expr, roots, build.leaves, build.leaves_by_id))
}

/// Where reading some nets fails, reading more fails in the same way.
proof fn lemma_stays_failed<L: CircuitLang>(v: NetlistView, order: Seq<DrivenNet>, i: int) where
    PrimitiveCell: LogicFunc<L> + AddProgram<L>,

    requires
        0 <= i <= order.len(),
        nets_read::<L>(v, order.take(i)) is Err,
    ensures
        nets_read::<L>(v, order) == nets_read::<L>(v, order.take(i)),
    decreases order.len(),
{
    if i == order.len() {
        assert(order.take(i) =~= order);
    } else {
        let rest = order.drop_last();
        assert(rest.take(i) =~= order.take(i));
        lemma_stays_failed::<L>(v, rest, i);
    }
}

/// Filling in children sets those of the operands, and no others.
pub proof fn lemma_filled(
    v: NetlistView,
    net: DrivenNet,
    ids: Map<DrivenNet, Id>,
    args: Seq<Id>,
    shift: int,
    i: int,
)
    requires
        0 <= i,
        0 <= shift,
        i < v.objects[net.node as int].operands.len() ==> args.len()
            >= v.objects[net.node as int].operands.len() + shift,
    ensures
        filled(v, net, ids, args, shift, i) matches Ok(out) ==> {
            let operands = v.objects[net.node as int].operands;
            &&& out.len() == args.len()
            &&& forall|k: int|
                i <= k < operands.len() ==> ((#[trigger] operands[k]) matches Some(d)
                    && ids.contains_key(d) && out[k + shift] == ids[d])
            &&& forall|j: int|
                0 <= j < i + shift && j < args.len() ==> #[trigger] out[j] == args[j]
        },
    decreases v.objects[net.node as int].operands.len() - i,
{
    let operands = v.objects[net.node as int].operands;
    if i < operands.len() {
        if let Some(d) = operands[i] {
            if ids.contains_key(d) {
                lemma_filled(v, net, ids, args.update(i + shift, ids[d]), shift, i + 1);
                if let Ok(out) = filled(v, net, ids, args, shift, i) {
                    assert(out[i + shift] == ids[d]);
                }
            }
        }
    }
}

/// Where children are filled in, all input ports are connected.
proof fn lemma_filled_driven(
    v: NetlistView,
    net: DrivenNet,
    ids: Map<DrivenNet, Id>,
    args: Seq<Id>,
    shift: int,
    i: int,
)
    requires
        0 <= i,
        filled(v, net, ids, args, shift, i) is Ok,
    ensures
        forall|k: int|
            i <= k < v.objects[net.node as int].operands.len() ==> (
            #[trigger] v.objects[net.node as int].operands[k]) is Some,
    decreases v.objects[net.node as int].operands.len() - i,
{
    let operands = v.objects[net.node as int].operands;
    if i < operands.len() {
        if let Some(d) = operands[i] {
            lemma_filled_driven(v, net, ids, args.update(i + shift, ids[d]), shift, i + 1);
        }
    }
}

/// Where children are filled in, there is one for every operand.
pub proof fn lemma_filled_room(
    v: NetlistView,
    net: DrivenNet,
    ids: Map<DrivenNet, Id>,
    args: Seq<Id>,
    shift: int,
)
    requires
        filled(v, net, ids, args, shift, 0) is Ok,
        has_room(v.objects[net.node as int].operands, shift, args.len()),
    ensures
        v.objects[net.node as int].operands.len() > 0 ==> args.len()
            >= v.objects[net.node as int].operands.len() + shift,
{
    let operands = v.objects[net.node as int].operands;
    lemma_filled_driven(v, net, ids, args, shift, 0);
    if operands.len() > 0 {
        assert(driven_up_to(operands, operands.len() - 1));
    }
}

/// Whether the node of a net follows the netlist: it is the function of the
/// object behind the net, over the nodes of the nets that drive that object,
/// right behind the node of the object's truth table if it has one; or it is
/// a leaf with the name of the net.
pub open spec fn node_follows<L: CircuitLang>(v: NetlistView, s: BuildState, net: DrivenNet) -> bool where
    PrimitiveCell: LogicFunc<L> + AddProgram<L>,
 {
    let id = s.ids[net] as int;
    let operands = v.objects[net.node as int].operands;
    &&& s.ids.contains_key(net)
    &&& id < s.nodes.len()
    &&& match (v.objects[net.node as int].kind, func_of::<L>(v, net)) {
        (ObjectKind::Instance(_, cell), Some(func)) => {
            let node = s.nodes[id];
            let shift = if programmed(cell) {
                1int
            } else {
                0int
            };
            &&& node.op == func.op
            &&& node.args.len() == func.args.len()
            &&& forall|k: int|
                0 <= k < operands.len() ==> ((#[trigger] operands[k]) matches Some(d)
                    && s.ids.contains_key(d) && node.args[k + shift] == s.ids[d])
            &&& program_of::<L>(cell) matches Some(p) ==> id > 0 && node.args[0] == id - 1
                && s.nodes[id - 1] == p
        },
        _ => s.nodes[id] == leaf(Op::Var(ident_text(wire_of(v, net).id))),
    }
}

/// Whether `t` has everything that was read in `s`, in the same places.
spec fn extends(s: BuildState, t: BuildState) -> bool {
    &&& s.nodes.len() <= t.nodes.len()
    &&& forall|i: int| 0 <= i < s.nodes.len() ==> #[trigger] t.nodes[i] == s.nodes[i]
    &&& forall|d: DrivenNet| #[trigger]
        s.ids.contains_key(d) ==> t.ids.contains_key(d) && t.ids[d] == s.ids[d]
}

/// Reading one more net keeps what was read, and puts the net last.
proof fn lemma_net_read<L: CircuitLang>(v: NetlistView, s: BuildState, net: DrivenNet) where
    PrimitiveCell: LogicFunc<L> + AddProgram<L>,

    requires
        netlist_ok(v),
        has_net(v, net),
        readable::<L>(v, net),
        !s.ids.contains_key(net),
        net_read::<L>(v, s, net) is Ok,
        (net_read::<L>(v, s, net)->Ok_0).nodes.len() <= usize::MAX,
    ensures
        ({
            let t = net_read::<L>(v, s, net)->Ok_0;
            &&& extends(s, t)
            &&& node_follows::<L>(v, t, net)
            &&& t.ids[net] == t.nodes.len() - 1
            &&& s.nodes.len() < t.nodes.len()
        }),
{
    let t = net_read::<L>(v, s, net)->Ok_0;
    let o = v.objects[net.node as int];
    assert(crate::netlist::object_ok(o));
    match (o.kind, func_of::<L>(v, net)) {
        (ObjectKind::Instance(_, cell), Some(func)) => {
            let program = program_of::<L>(cell);
            let shift = if programmed(cell) {
                1int
            } else {
                0int
            };
            let args = match program {
                Some(_) => func.args.update(0, s.nodes.len() as usize),
                None => func.args,
            };
            lemma_filled_room(v, net, s.ids, args, shift);
            lemma_filled(v, net, s.ids, args, shift, 0);
            let out = filled(v, net, s.ids, args, shift, 0)->Ok_0;
            assert(t.nodes.last() == NodeView { op: func.op, args: out });
            if program is Some {
                assert(out[0] == args[0]);
            }
            assert forall|k: int| 0 <= k < o.operands.len() implies ((
            #[trigger] o.operands[k]) matches Some(d) && t.ids.contains_key(d) && out[k + shift]
                == t.ids[d]) by {
                assert(o.operands[k] is Some);
            }
            assert(node_follows::<L>(v, t, net));
        },
        _ => {},
    }
}

/// What follows the netlist still does when more nets are read.
proof fn lemma_follows_on<L: CircuitLang>(
    v: NetlistView,
    s: BuildState,
    t: BuildState,
    net: DrivenNet,
) where PrimitiveCell: LogicFunc<L> + AddProgram<L>
    requires
        extends(s, t),
        node_follows::<L>(v, s, net),
    ensures
        node_follows::<L>(v, t, net),
{
    let id = s.ids[net] as int;
    assert(t.nodes[id] == s.nodes[id]);
    if id > 0 {
        assert(t.nodes[id - 1] == s.nodes[id - 1]);
    }
    let operands = v.objects[net.node as int].operands;
    match (v.objects[net.node as int].kind, func_of::<L>(v, net)) {
        (ObjectKind::Instance(_, cell), Some(func)) => {
            let shift = if programmed(cell) {
                1int
            } else {
                0int
            };
            assert forall|k: int| 0 <= k < operands.len() implies ((
            #[trigger] operands[k]) matches Some(d) && t.ids.contains_key(d)
                && t.nodes[id].args[k + shift] == t.ids[d]) by {
                assert(operands[k] is Some);
            }
        },
        _ => {},
    }
}

/// The node of every net that was read follows the netlist. So the
/// expression has the structure of the logic behind the roots.
pub proof fn law_nodes_follow_nets<L: CircuitLang>(v: NetlistView, order: Seq<DrivenNet>, i: int) where
    PrimitiveCell: LogicFunc<L> + AddProgram<L>,

    requires
        netlist_ok(v),
        has_nets(v, order),
        order.no_duplicates(),
        all_readable::<L>(v, order),
        nets_read::<L>(v, order) is Ok,
        (nets_read::<L>(v, order)->Ok_0).nodes.len() <= usize::MAX,
        0 <= i < order.len(),
    ensures
        node_follows::<L>(v, nets_read::<L>(v, order)->Ok_0, order[i]),
    decreases order.len(),
{
    let rest = order.drop_last();
    let net = order.last();
    let s = nets_read::<L>(v, rest)->Ok_0;
    let t = nets_read::<L>(v, order)->Ok_0;
    lemma_all_readable::<L>(v, order);
    lemma_ids_read::<L>(v, rest);
    assert(net == order[order.len() - 1]);
    assert(!rest.contains(net)) by {
        if rest.contains(net) {
            let j = choose|j: int| 0 <= j < rest.len() && rest[j] == net;
            assert(order[j] == net);
        }
    }
    assert(has_net(v, net) && readable::<L>(v, net));
    lemma_net_read::<L>(v, s, net);
    if i < rest.len() {
        assert forall|j: int| 0 <= j < rest.len() implies has_net(v, #[trigger] rest[j])
            && readable::<L>(v, rest[j]) by {
            assert(rest[j] == order[j]);
            assert(has_net(v, order[j]) && readable::<L>(v, order[j]));
        }
        law_nodes_follow_nets::<L>(v, rest, i);
        lemma_follows_on::<L>(v, s, t, rest[i]);
    }
}

/// The roots of the expression are the nodes of the nets that are mapped.
pub proof fn law_roots_are_the_mapped_nets<L: CircuitLang>(
    v: NetlistView,
    roots: Seq<DrivenNet>,
    order: Seq<DrivenNet>,
) where PrimitiveCell: LogicFunc<L> + AddProgram<L>
    requires
        netlist_ok(v),
        order_ok(v, roots, order),
        all_readable::<L>(v, order),
        roots.len() > 0,
        mapped::<L>(v, roots, order) is Ok,
        (mapped::<L>(v, roots, order)->Ok_0).nodes.len() <= usize::MAX,
    ensures
        roots_of((mapped::<L>(v, roots, order)->Ok_0).nodes) == roots.map_values(
            |d: DrivenNet| (nets_read::<L>(v, order)->Ok_0).ids[d],
        ),
{
    let m = mapped::<L>(v, roots, order)->Ok_0;
    let s = nets_read::<L>(v, order)->Ok_0;
    lemma_all_readable::<L>(v, order);
    if roots.len() == 1 {
        let i = order.len() - 1;
        let rest = order.drop_last();
        lemma_ids_read::<L>(v, rest);
        assert(order[i] == roots[0]);
        assert(!rest.contains(order[i])) by {
            if rest.contains(order[i]) {
                let j = choose|j: int| 0 <= j < rest.len() && rest[j] == order[i];
                assert(order[j] == order[i]);
            }
        }
        assert(has_net(v, order[i]) && readable::<L>(v, order[i]));
        lemma_net_read::<L>(v, nets_read::<L>(v, rest)->Ok_0, order[i]);
        law_leaves_are_known::<L>(v, order);
        assert(!(s.nodes[s.nodes.len() - 1].op is Bus));
        assert(roots_of(m.nodes) =~= roots.map_values(|d: DrivenNet| s.ids[d]));
    } else {
        assert(roots_of(m.nodes) =~= roots.map_values(|d: DrivenNet| s.ids[d]));
    }
}

/// A net whose cell carries no truth table can be read, in either language.
/// So can a lookup table with a truth table of 1 to 64 bits, in terms of
/// lookup tables, and a constant with anything else for a truth table.
pub proof fn law_nets_are_readable(v: NetlistView, net: DrivenNet)
    requires
        netlist_ok(v),
        has_net(v, net),
    ensures
        !(v.objects[net.node as int].kind is Instance) ==> readable::<CellLang>(v, net) && readable::<
            LutLang,
        >(v, net),
        v.objects[net.node as int].kind matches ObjectKind::Instance(_, cell) ==> {
            &&& !programmed(cell) ==> readable::<CellLang>(v, net) && readable::<LutLang>(v, net)
            &&& lut_size(cell.ptype) > 0 ==> readable::<CellLang>(v, net)
            &&& lut_size(cell.ptype) > 0 && (cell.params[init_name()] matches ParamView::BitVec(b)
                && 0 < b.len() <= 64) ==> readable::<LutLang>(v, net)
            &&& cell.inputs.len() == 0 && !(cell.params[init_name()] is BitVec) ==> readable::<
                CellLang,
            >(v, net) && readable::<LutLang>(v, net)
            &&& cell.inputs.len() == 0 && (cell.params[init_name()] matches ParamView::BitVec(b)
                && 0 < b.len() <= 64) ==> readable::<CellLang>(v, net)
        },
{
    assert(crate::netlist::object_ok(v.objects[net.node as int]));
    if let ObjectKind::Instance(_, cell) = v.objects[net.node as int].kind {
        assert(cell.inputs.len() == crate::primitive::input_names(cell.ptype).len());
    }
}

/// Whether the node at place `i` is that of a net that was read.
pub open spec fn is_of_a_net(s: BuildState, i: int) -> bool {
    exists|d: DrivenNet| #[trigger] s.ids.contains_key(d) && s.ids[d] == i
}

/// Every node is that of a net, or a truth table.
pub proof fn law_nodes_come_from_nets<L: CircuitLang>(v: NetlistView, order: Seq<DrivenNet>, i: int) where
    PrimitiveCell: LogicFunc<L> + AddProgram<L>,

    requires
        netlist_ok(v),
        has_nets(v, order),
        order.no_duplicates(),
        all_readable::<L>(v, order),
        nets_read::<L>(v, order) is Ok,
        (nets_read::<L>(v, order)->Ok_0).nodes.len() <= usize::MAX,
        0 <= i < (nets_read::<L>(v, order)->Ok_0).nodes.len(),
    ensures
        ({
            let s = nets_read::<L>(v, order)->Ok_0;
            s.nodes[i].op is Program || is_of_a_net(s, i)
        }),
    decreases order.len(),
{
    lemma_all_readable::<L>(v, order);
    let t = nets_read::<L>(v, order)->Ok_0;
    let rest = order.drop_last();
    let net = order.last();
    let s = nets_read::<L>(v, rest)->Ok_0;
    lemma_ids_read::<L>(v, rest);
    assert(net == order[order.len() - 1]);
    assert(!rest.contains(net)) by {
        if rest.contains(net) {
            let j = choose|j: int| 0 <= j < rest.len() && rest[j] == net;
            assert(order[j] == net);
        }
    }
    assert(has_net(v, net) && readable::<L>(v, net));
    lemma_net_read::<L>(v, s, net);
    if i < s.nodes.len() {
        assert forall|j: int| 0 <= j < rest.len() implies has_net(v, #[trigger] rest[j])
            && readable::<L>(v, rest[j]) by {
            assert(rest[j] == order[j]);
            assert(has_net(v, order[j]) && readable::<L>(v, order[j]));
        }
        law_nodes_come_from_nets::<L>(v, rest, i);
        if is_of_a_net(s, i) {
            let d = choose|d: DrivenNet| #[trigger] s.ids.contains_key(d) && s.ids[d] == i;
            assert(t.ids.contains_key(d) && t.ids[d] == i);
        }
    } else if i == t.nodes.len() - 1 {
        assert(t.ids.contains_key(net) && t.ids[net] == i);
    } else {
        if let ObjectKind::Instance(_, cell) = v.objects[net.node as int].kind {
            if let ParamView::BitVec(bits) = cell.params[init_name()] {
                <PrimitiveCell as AddProgram<L>>::law_program(cell, bits_value(bits) as u64);
            }
        }
    }
}

/// The nets of leaves were read, and have no function.
pub proof fn law_leaves_have_no_function<L: CircuitLang>(
    v: NetlistView,
    order: Seq<DrivenNet>,
    sym: Seq<char>,
) where PrimitiveCell: LogicFunc<L> + AddProgram<L>
    requires
        nets_read::<L>(v, order) is Ok,
        (nets_read::<L>(v, order)->Ok_0).leaves.contains_key(sym),
    ensures
        ({
            let d = (nets_read::<L>(v, order)->Ok_0).leaves[sym];
            order.contains(d) && func_of::<L>(v, d) is None
        }),
    decreases order.len(),
{
    let rest = order.drop_last();
    let net = order.last();
    let s = nets_read::<L>(v, rest)->Ok_0;
    let t = nets_read::<L>(v, order)->Ok_0;
    assert(order[order.len() - 1] == net);
    if !(func_of::<L>(v, net) is None && sym == ident_text(wire_of(v, net).id)) {
        assert(s.leaves.contains_key(sym) && t.leaves[sym] == s.leaves[sym]);
        law_leaves_have_no_function::<L>(v, rest, sym);
        let j = choose|j: int| 0 <= j < rest.len() && rest[j] == s.leaves[sym];
        assert(order[j] == s.leaves[sym]);
    }
}

/// A net without a function is the leaf at its place, by place. By name it is
/// the leaf too, unless a net that is read later has the same name.
pub proof fn law_leaves_are_found_again<L: CircuitLang>(
    v: NetlistView,
    order: Seq<DrivenNet>,
    i: int,
) where PrimitiveCell: LogicFunc<L> + AddProgram<L>
    requires
        netlist_ok(v),
        has_nets(v, order),
        order.no_duplicates(),
        all_readable::<L>(v, order),
        nets_read::<L>(v, order) is Ok,
        (nets_read::<L>(v, order)->Ok_0).nodes.len() <= usize::MAX,
        0 <= i < order.len(),
        func_of::<L>(v, order[i]) is None,
    ensures
        ({
            let s = nets_read::<L>(v, order)->Ok_0;
            let sym = ident_text(wire_of(v, order[i]).id);
            let id = s.ids[order[i]];
            &&& s.nodes[id as int] == leaf(Op::Var(sym))
            &&& s.leaves_by_id.contains_key(id)
            &&& s.leaves_by_id[id] == order[i]
            &&& s.leaves.contains_key(sym)
            &&& (forall|j: int|
                i < j < order.len() && func_of::<L>(v, #[trigger] order[j]) is None ==> ident_text(
                    wire_of(v, order[j]).id,
                ) != sym) ==> s.leaves[sym] == order[i]
        }),
    decreases order.len(),
{
    let rest = order.drop_last();
    let net = order.last();
    let s = nets_read::<L>(v, rest)->Ok_0;
    let t = nets_read::<L>(v, order)->Ok_0;
    lemma_all_readable::<L>(v, order);
    lemma_ids_read::<L>(v, rest);
    assert(net == order[order.len() - 1]);
    assert(!rest.contains(net)) by {
        if rest.contains(net) {
            let j = choose|j: int| 0 <= j < rest.len() && rest[j] == net;
            assert(order[j] == net);
        }
    }
    assert(has_net(v, net) && readable::<L>(v, net));
    lemma_net_read::<L>(v, s, net);
    law_nodes_follow_nets::<L>(v, order, i);
    if i < rest.len() {
        assert forall|j: int| 0 <= j < rest.len() implies has_net(v, #[trigger] rest[j])
            && readable::<L>(v, rest[j]) by {
            assert(rest[j] == order[j]);
            assert(has_net(v, order[j]) && readable::<L>(v, order[j]));
        }
        law_leaves_are_found_again::<L>(v, rest, i);
        law_nodes_follow_nets::<L>(v, rest, i);
        let sym = ident_text(wire_of(v, order[i]).id);
        let id = s.ids[order[i]];
        assert(t.ids[rest[i]] == s.ids[rest[i]]);
        assert(id < s.nodes.len());
        if forall|j: int|
            i < j < order.len() && func_of::<L>(v, #[trigger] order[j]) is None ==> ident_text(
                wire_of(v, order[j]).id,
            ) != sym {
            assert forall|j: int|
                i < j < rest.len() && func_of::<L>(
                    v,
                    #[trigger] rest[j],
                ) is None implies ident_text(wire_of(v, rest[j]).id) != sym by {
                assert(rest[j] == order[j]);
            }
            assert(func_of::<L>(v, order[order.len() - 1]) is None ==> ident_text(
                wire_of(v, net).id,
            ) != sym);
        }
    }
}

/// A single net that is mapped is the last node. Several are gathered by the
/// last node, whose children are the nodes of the nets in the order in which
/// they were given. No other node gathers anything.
pub proof fn law_roots_come_last<L: CircuitLang>(
    v: NetlistView,
    roots: Seq<DrivenNet>,
    order: Seq<DrivenNet>,
    i: int,
) where PrimitiveCell: LogicFunc<L> + AddProgram<L>
    requires
        netlist_ok(v),
        order_ok(v, roots, order),
        all_readable::<L>(v, order),
        roots.len() > 0,
        mapped::<L>(v, roots, order) is Ok,
        (mapped::<L>(v, roots, order)->Ok_0).nodes.len() <= usize::MAX,
    ensures
        ({
            let m = mapped::<L>(v, roots, order)->Ok_0;
            let ids = (nets_read::<L>(v, order)->Ok_0).ids;
            let n = m.nodes.len() as int;
            &&& m.roots == roots
            &&& n > 0
            &&& roots.len() == 1 ==> ids[roots[0]] == n - 1
            &&& roots.len() > 1 ==> m.nodes[n - 1].op is Bus && m.nodes[n - 1].args.len()
                == roots.len()
            &&& roots.len() > 1 && 0 <= i < roots.len() ==> m.nodes[n - 1].args[i] == ids[roots[i]]
            &&& 0 <= i < n && m.nodes[i].op is Bus ==> i == n - 1 && roots.len() > 1
        }),
{
    let m = mapped::<L>(v, roots, order)->Ok_0;
    let s = nets_read::<L>(v, order)->Ok_0;
    law_roots_are_the_mapped_nets::<L>(v, roots, order);
    law_leaves_are_known::<L>(v, order);
    assert(order.contains(roots[0]));
    let j = choose|j: int| 0 <= j < order.len() && order[j] == roots[0];
    law_nodes_follow_nets::<L>(v, order, j);
    if roots.len() == 1 {
        assert(!(s.nodes[s.nodes.len() - 1].op is Bus));
        assert(roots_of(m.nodes)[0] == s.ids[roots[0]]);
    }
    if 0 <= i < s.nodes.len() {
        assert(m.nodes[i] == s.nodes[i]);
    }
}

/// Nets have their places in the order in which they are read.
pub proof fn law_nodes_are_in_order<L: CircuitLang>(
    v: NetlistView,
    order: Seq<DrivenNet>,
    i: int,
    j: int,
) where PrimitiveCell: LogicFunc<L> + AddProgram<L>
    requires
        netlist_ok(v),
        has_nets(v, order),
        order.no_duplicates(),
        all_readable::<L>(v, order),
        nets_read::<L>(v, order) is Ok,
        (nets_read::<L>(v, order)->Ok_0).nodes.len() <= usize::MAX,
        0 <= i < j < order.len(),
    ensures
        (nets_read::<L>(v, order)->Ok_0).ids[order[i]] < (nets_read::<L>(
            v,
            order,
        )->Ok_0).ids[order[j]],
    decreases order.len(),
{
    let rest = order.drop_last();
    let net = order.last();
    let s = nets_read::<L>(v, rest)->Ok_0;
    lemma_all_readable::<L>(v, order);
    lemma_ids_read::<L>(v, rest);
    assert(net == order[order.len() - 1]);
    assert(!rest.contains(net)) by {
        if rest.contains(net) {
            let k = choose|k: int| 0 <= k < rest.len() && rest[k] == net;
            assert(order[k] == net);
        }
    }
    assert(has_net(v, net) && readable::<L>(v, net));
    lemma_net_read::<L>(v, s, net);
    assert forall|k: int| 0 <= k < rest.len() implies has_net(v, #[trigger] rest[k])
        && readable::<L>(v, rest[k]) by {
        assert(rest[k] == order[k]);
        assert(has_net(v, order[k]) && readable::<L>(v, order[k]));
    }
    law_nodes_follow_nets::<L>(v, rest, i);
    if j < rest.len() {
        law_nodes_follow_nets::<L>(v, rest, j);
        law_nodes_are_in_order::<L>(v, rest, i, j);
        assert(s.ids.contains_key(rest[j]));
    }
    assert(s.ids.contains_key(rest[i]));
}

/// In what was read, the leaf at a place is the leaf by the name that the node
/// there has, where no two nets that are leaves have the same name.
pub proof fn law_leaves_by_place_and_by_name_agree<L: CircuitLang>(
    v: NetlistView,
    order: Seq<DrivenNet>,
    id: Id,
    sym: Seq<char>,
) where PrimitiveCell: LogicFunc<L> + AddProgram<L>
    requires
        netlist_ok(v),
        has_nets(v, order),
        order.no_duplicates(),
        all_readable::<L>(v, order),
        nets_read::<L>(v, order) is Ok,
        (nets_read::<L>(v, order)->Ok_0).nodes.len() <= usize::MAX,
        forall|i: int, j: int|
            0 <= i < j < order.len() && func_of::<L>(v, #[trigger] order[i]) is None && func_of::<
                L,
            >(v, #[trigger] order[j]) is None ==> ident_text(wire_of(v, order[i]).id)
                != ident_text(wire_of(v, order[j]).id),
        id < (nets_read::<L>(v, order)->Ok_0).nodes.len(),
        (nets_read::<L>(v, order)->Ok_0).nodes[id as int].op == Op::Var(sym),
    ensures
        ({
            let s = nets_read::<L>(v, order)->Ok_0;
            &&& s.leaves_by_id.contains_key(id)
            &&& s.leaves.contains_key(sym)
            &&& s.leaves_by_id[id] == s.leaves[sym]
        }),
{
    let s = nets_read::<L>(v, order)->Ok_0;
    law_nodes_come_from_nets::<L>(v, order, id as int);
    lemma_ids_read::<L>(v, order);
    let d = choose|d: DrivenNet| #[trigger] s.ids.contains_key(d) && s.ids[d] == id;
    assert(order.contains(d));
    let i = choose|i: int| 0 <= i < order.len() && order[i] == d;
    law_nodes_follow_nets::<L>(v, order, i);
    if let ObjectKind::Instance(_, cell) = v.objects[d.node as int].kind {
        <PrimitiveCell as LogicFunc<L>>::law_func(cell, d.pos as nat);
    }
    law_leaves_are_found_again::<L>(v, order, i);
}

/// A net cannot be read if an input port is not connected, and what is said
/// has the number of the first such port and the name of the net. It cannot be
/// read either if what drives a port before that was not read.
pub proof fn law_ports_without_drivers_are_named(
    v: NetlistView,
    net: DrivenNet,
    ids: Map<DrivenNet, Id>,
    args: Seq<Id>,
    shift: int,
    i: int,
    k: int,
)
    requires
        0 <= i <= k < v.objects[net.node as int].operands.len(),
        forall|j: int|
            i <= j < k ==> ((#[trigger] v.objects[net.node as int].operands[j]) matches Some(d)
                && ids.contains_key(d)),
    ensures
        v.objects[net.node as int].operands[k] is None ==> filled(v, net, ids, args, shift, i)
            == Err::<Seq<Id>, Seq<char>>(
            "Failed to get driver for input "@ + decimal(k as nat) + " of net "@ + ident_text(
                v.objects[net.node as int].wires[net.pos as int].id,
            ),
        ),
        v.objects[net.node as int].operands[k] matches Some(d) && !ids.contains_key(d) ==> filled(
            v,
            net,
            ids,
            args,
            shift,
            i,
        ) == Err::<Seq<Id>, Seq<char>>("Cycle detected in netlist"@),
    decreases k - i,
{
    let operands = v.objects[net.node as int].operands;
    if i < k {
        assert(operands[i] is Some);
        let d = operands[i]->0;
        law_ports_without_drivers_are_named(
            v,
            net,
            ids,
            args.update(i + shift, ids[d]),
            shift,
            i + 1,
            k,
        );
    }
}

/// A register can be read in either language whatever parameters it has: its
/// initial state is no truth table. Its node has its operands as children, from
/// the first on.
pub proof fn law_registers_can_be_read<L: CircuitLang>(
    v: NetlistView,
    s: BuildState,
    net: DrivenNet,
    k: int,
) where PrimitiveCell: LogicFunc<L> + AddProgram<L>
    requires
        netlist_ok(v),
        has_net(v, net),
        v.objects[net.node as int].kind matches ObjectKind::Instance(_, cell) && cell.ptype
            == PrimitiveType::FDRE,
    ensures
        readable::<CellLang>(v, net),
        readable::<LutLang>(v, net),
        node_follows::<L>(v, s, net) && func_of::<L>(v, net) is Some && 0 <= k
            < v.objects[net.node as int].operands.len() ==> (
        v.objects[net.node as int].operands[k] matches Some(d)
            && s.nodes[s.ids[net] as int].args[k] == s.ids[d]),
{
    law_nets_are_readable(v, net);
    if node_follows::<L>(v, s, net) && 0 <= k < v.objects[net.node as int].operands.len() {
        assert(func_of::<L>(v, net) is Some ==> v.objects[net.node as int].operands[k] is Some);
    }
}

/// A lookup table that is programmed is read in terms of lookup tables as a
/// node with the number that its truth table is, and behind that its operands
/// in their order.
pub proof fn law_lookup_tables_are_read_with_programs(
    v: NetlistView,
    s: BuildState,
    net: DrivenNet,
    k: int,
)
    requires
        netlist_ok(v),
        has_net(v, net),
        node_follows::<LutLang>(v, s, net),
        v.objects[net.node as int].kind matches ObjectKind::Instance(_, cell) && lut_size(cell.ptype)
            > 0 && cell.params.contains_key(init_name()) && (
        cell.params[init_name()] matches ParamView::BitVec(bits) && bits.len() <= 64),
    ensures
        ({
            let node = s.nodes[s.ids[net] as int];
            let operands = v.objects[net.node as int].operands;
            let cell = v.objects[net.node as int].kind->Instance_1;
            &&& node.op is Lut
            &&& node.args.len() == operands.len() + 1
            &&& s.nodes[node.args[0] as int].op matches Op::Program(p) && p as nat == bits_value(
                cell.params[init_name()]->BitVec_0,
            )
            &&& 1 <= k < node.args.len() ==> (operands[k - 1] matches Some(d) && node.args[k]
                == s.ids[d])
        }),
{
    let o = v.objects[net.node as int];
    assert(crate::netlist::object_ok(o));
    let cell = o.kind->Instance_1;
    let bits = cell.params[init_name()]->BitVec_0;
    assert(cell.inputs.len() == crate::primitive::input_names(cell.ptype).len());
    crate::param::lemma_bits_value_bound(bits);
    vstd::arithmetic::power2::lemma2_to64();
    if bits.len() < 64 {
        vstd::arithmetic::power2::lemma_pow2_strictly_increases(bits.len(), 64);
    }
    let node = s.nodes[s.ids[net] as int];
    assert(program_of::<LutLang>(cell)->0 == s.nodes[node.args[0] as int]);
    if 1 <= k < node.args.len() {
        assert(o.operands[k - 1] is Some);
    }
}

} // verus!
