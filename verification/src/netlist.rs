//! Netlists: inputs and instances of cells, and the nets between them.

use crate::cell::{cell_ok, constant_cell, constant_of, CellView, PrimitiveCell};
use crate::error::{describe_error, ErrorView, NetlistError};
use crate::ident::{describe, ident_view, join_idents, outside_ident, Ident, IdentView};
use crate::level::{
    describe_level, describe_wire, level_text, level_view, outside_level, outside_nets, raw_level,
    raw_wire, raw_wires, wire_views, LogicValue, Wire, WireView,
};
use crate::param::{describe_param, outside_param, param_view, raw_param, Param, ParamView};
use crate::part::{BlackBox, BoxView, Part, PartView};
use crate::primitive::PrimitiveType;
use std::rc::Rc;
use vstd::prelude::*;
use vstd::std_specs::vec::into_iter_elts;

verus! {

/// A net of a netlist: the place of the object that drives it, and which of
/// that object's outputs it is. A `DrivenNet` is a plain value. Holding one
/// keeps nothing alive, and it goes stale when the netlist is cleaned, unless it
/// is handed to what cleans it: that says where it is then.
#[derive(Debug, Clone, Copy, PartialEq, Eq, Hash, Structural)]
pub struct DrivenNet {
    pub node: usize,
    pub pos: usize,
}

/// What an object of a netlist is.
pub enum ObjectKind {
    /// An input of the netlist.
    Input,
    /// An instance of a primitive cell, with its name.
    Instance(IdentView, CellView),
    /// An instance of a cell of which only the ports are known, with its
    /// name.
    Closed(IdentView, BoxView),
}

/// An instance of `part` called `name`.
pub open spec fn kind_of(part: PartView, name: IdentView) -> ObjectKind {
    match part {
        PartView::Gate(cell) => ObjectKind::Instance(name, cell),
        PartView::Closed(cell) => ObjectKind::Closed(name, cell),
    }
}

/// What an object is an instance of, where it is one.
pub open spec fn part_of(kind: ObjectKind) -> Option<PartView> {
    match kind {
        ObjectKind::Input => None,
        ObjectKind::Instance(_, cell) => Some(PartView::Gate(cell)),
        ObjectKind::Closed(_, cell) => Some(PartView::Closed(cell)),
    }
}

/// The name of an instance.
pub open spec fn instance_id(kind: ObjectKind) -> Option<IdentView> {
    match kind {
        ObjectKind::Input => None,
        ObjectKind::Instance(name, _) => Some(name),
        ObjectKind::Closed(name, _) => Some(name),
    }
}

/// An object of a netlist: the nets that it drives, and those that drive it.
pub struct ObjectView {
    pub kind: ObjectKind,
    pub wires: Seq<WireView>,
    pub operands: Seq<Option<DrivenNet>>,
}

/// What a netlist stands for. `outputs` holds for every net that is an
/// output the names that it goes by outside.
#[verifier::ext_equal]
pub struct NetlistView {
    pub name: Seq<char>,
    pub objects: Seq<ObjectView>,
    pub outputs: Map<DrivenNet, Set<WireView>>,
}

/// Whether a net is one of the netlist.
pub open spec fn has_net(v: NetlistView, d: DrivenNet) -> bool {
    d.node < v.objects.len() && d.pos < v.objects[d.node as int].wires.len()
}

/// Whether all of `nets` are nets of the netlist.
pub open spec fn has_nets(v: NetlistView, nets: Seq<DrivenNet>) -> bool {
    forall|i: int| 0 <= i < nets.len() ==> has_net(v, #[trigger] nets[i])
}

/// The wire of a net.
pub open spec fn wire_of(v: NetlistView, d: DrivenNet) -> WireView {
    v.objects[d.node as int].wires[d.pos as int]
}

/// Whether an object has the nets and operands of what it is.
pub open spec fn object_ok(o: ObjectView) -> bool {
    match o.kind {
        ObjectKind::Input => o.wires.len() == 1 && o.operands.len() == 0,
        ObjectKind::Instance(_, cell) => {
            &&& cell_ok(cell)
            &&& o.wires.len() == cell.outputs.len()
            &&& o.operands.len() == cell.inputs.len()
        },
        ObjectKind::Closed(_, cell) => {
            &&& o.wires.len() == cell.outputs.len()
            &&& o.operands.len() == cell.inputs.len()
        },
    }
}

/// Whether an object is driven by nets of the netlist alone.
pub open spec fn operands_ok(v: NetlistView, o: ObjectView) -> bool {
    forall|k: int|
        0 <= k < o.operands.len() ==> ((#[trigger] o.operands[k]) matches Some(d) ==> has_net(v, d))
}

/// Whether a netlist is well formed: every object is, and operands and
/// outputs are nets of it.
pub open spec fn netlist_ok(v: NetlistView) -> bool {
    &&& v.objects.len() <= usize::MAX
    &&& forall|i: int|
        0 <= i < v.objects.len() ==> object_ok(#[trigger] v.objects[i]) && operands_ok(
            v,
            v.objects[i],
        )
    &&& forall|d: DrivenNet| #[trigger] v.outputs.contains_key(d) ==> has_net(v, d)
}

/// Whether object `n` has a net of object `m` as an operand.
pub open spec fn driven_by(v: NetlistView, n: usize, m: usize) -> bool {
    exists|k: int|
        0 <= k < v.objects[n as int].operands.len() && ((
        #[trigger] v.objects[n as int].operands[k]) matches Some(d) && d.node == m)
}

/// Whether object number `i` of `p` drives the one before it.
pub open spec fn linked(v: NetlistView, p: Seq<usize>, i: int) -> bool {
    driven_by(v, p[i - 1], p[i])
}

/// Whether every object in `p` is driven by the next.
pub open spec fn walk(v: NetlistView, p: Seq<usize>) -> bool {
    &&& p.len() > 0
    &&& forall|i: int| 0 <= i < p.len() ==> (#[trigger] p[i]) < v.objects.len()
    &&& forall|i: int| 0 < i < p.len() ==> #[trigger] linked(v, p, i)
}

/// Whether a walk leads from `a` to `b`.
pub open spec fn reaches(v: NetlistView, a: usize, b: usize) -> bool {
    exists|p: Seq<usize>| #[trigger] walk(v, p) && p.first() == a && p.last() == b
}

/// Whether an object takes part in driving itself.
pub open spec fn on_cycle(v: NetlistView, n: usize) -> bool {
    exists|m: usize| #[trigger] driven_by(v, n, m) && reaches(v, m, n)
}

/// Whether a cycle drives object `n`.
pub open spec fn cyclic(v: NetlistView, n: usize) -> bool {
    exists|m: usize| #[trigger] reaches(v, n, m) && on_cycle(v, m)
}

/// The netlist with one more object.
pub open spec fn with_object(v: NetlistView, o: ObjectView) -> NetlistView {
    NetlistView { objects: v.objects.push(o), ..v }
}

/// An input that drives `wire`.
pub open spec fn input_object(wire: WireView) -> ObjectView {
    ObjectView { kind: ObjectKind::Input, wires: seq![wire], operands: Seq::empty() }
}

/// An instance of a part. Its nets are named after it and the ports.
pub open spec fn part_object(
    part: PartView,
    name: IdentView,
    operands: Seq<Option<DrivenNet>>,
) -> ObjectView {
    ObjectView {
        kind: kind_of(part, name),
        wires: part.outputs().map_values(
            |w: WireView| WireView { id: join_idents(name, w.id), signal: w.signal },
        ),
        operands,
    }
}

/// An instance of a primitive cell.
pub open spec fn gate_object(
    cell: CellView,
    name: IdentView,
    operands: Seq<Option<DrivenNet>>,
) -> ObjectView {
    part_object(PartView::Gate(cell), name, operands)
}

/// Operands that are all there.
pub open spec fn connected(nets: Seq<DrivenNet>) -> Seq<Option<DrivenNet>> {
    nets.map_values(|d: DrivenNet| Some(d))
}

/// `n` operands that are all missing.
pub open spec fn disconnected(n: nat) -> Seq<Option<DrivenNet>> {
    Seq::new(n, |i: int| None)
}

/// The netlist with the wire of one net set.
pub open spec fn with_wire(v: NetlistView, d: DrivenNet, wire: WireView) -> NetlistView {
    let o = v.objects[d.node as int];
    NetlistView {
        objects: v.objects.update(
            d.node as int,
            ObjectView { wires: o.wires.update(d.pos as int, wire), ..o },
        ),
        ..v
    }
}

/// The netlist with one operand set.
pub open spec fn with_operand(v: NetlistView, node: usize, input: usize, d: DrivenNet) -> NetlistView {
    let o = v.objects[node as int];
    NetlistView {
        objects: v.objects.update(
            node as int,
            ObjectView { operands: o.operands.update(input as int, Some(d)), ..o },
        ),
        ..v
    }
}

/// No outputs at all.
pub open spec fn no_outputs() -> Map<DrivenNet, Set<WireView>> {
    Map::empty()
}

/// The names that a net goes by outside.
pub open spec fn aliases(v: NetlistView, d: DrivenNet) -> Set<WireView> {
    if v.outputs.contains_key(d) {
        v.outputs[d]
    } else {
        Set::empty()
    }
}

/// The netlist with a net exposed as an output called `name`.
pub open spec fn exposed(v: NetlistView, d: DrivenNet, name: IdentView) -> NetlistView {
    NetlistView {
        outputs: v.outputs.insert(
            d,
            aliases(v, d).insert(WireView { id: name, signal: wire_of(v, d).signal }),
        ),
        ..v
    }
}

/// An object with `of` replaced by `with` among its operands.
pub open spec fn object_rewired(o: ObjectView, of: DrivenNet, with: DrivenNet) -> ObjectView {
    ObjectView {
        operands: o.operands.map_values(
            |d: Option<DrivenNet>|
                if d == Some(of) {
                    Some(with)
                } else {
                    d
                },
        ),
        ..o
    }
}

/// The netlist with all uses of `of` replaced by `with`, as an operand and
/// as an output.
pub open spec fn rewired(v: NetlistView, of: DrivenNet, with: DrivenNet) -> NetlistView {
    NetlistView {
        objects: v.objects.map_values(|o: ObjectView| object_rewired(o, of, with)),
        outputs: if v.outputs.contains_key(of) {
            v.outputs.remove(of).insert(with, aliases(v, with).union(aliases(v, of)))
        } else {
            v.outputs
        },
        ..v
    }
}

/// How many of `held` are nets of object `node`.
pub open spec fn holds(held: Seq<DrivenNet>, node: usize) -> nat {
    held.filter(|d: DrivenNet| d.node == node).len()
}

/// What comes of replacing the uses of `of` by `held[with]`, while the nets
/// in `held` are held on to. Nothing happens where both are the same net. It
/// is an error if anything but the replacement holds on to the object of
/// `of`, or if `of` is an output under its own name.
pub open spec fn replace_outcome(
    v: NetlistView,
    of: DrivenNet,
    held: Seq<DrivenNet>,
    with: int,
) -> Result<NetlistView, ErrorView> {
    if of == held[with] {
        Ok(v)
    } else if holds(held, of.node) > if of.node == held[with].node {
        1nat
    } else {
        0nat
    } {
        Err(ErrorView::DanglingReference(v.objects[of.node as int].wires))
    } else if aliases(v, of).contains(wire_of(v, of)) {
        Err(ErrorView::NonuniqueNets(aliases(v, of)))
    } else {
        Ok(rewired(v, of, held[with]))
    }
}

/// Whether two different nets have names that differ.
pub open spec fn wires_unique(v: NetlistView) -> bool {
    forall|a: DrivenNet, b: DrivenNet|
        has_net(v, a) && has_net(v, b) && a != b ==> (#[trigger] wire_of(v, a)).id != (
        #[trigger] wire_of(v, b)).id
}

/// Whether objects `i` and `j` are instances of the same name.
pub open spec fn same_instance(v: NetlistView, i: int, j: int) -> bool {
    instance_id(v.objects[i].kind) is Some && instance_id(v.objects[i].kind) == instance_id(
        v.objects[j].kind,
    )
}

/// Whether two different instances have names that differ.
pub open spec fn instances_unique(v: NetlistView) -> bool {
    forall|i: int, j: int|
        0 <= i < j < v.objects.len() ==> !(#[trigger] same_instance(v, i, j))
}

/// Whether a wire is in use: as an operand, as the net of an output, or as
/// the name of one.
pub open spec fn in_use(v: NetlistView, w: WireView) -> bool {
    ||| exists|n: int, k: int|
        0 <= n < v.objects.len() && 0 <= k < v.objects[n].operands.len() && (
        (#[trigger] v.objects[n].operands[k]) matches Some(d) && wire_of(v, d) == w)
    ||| exists|d: DrivenNet| #[trigger]
        v.outputs.contains_key(d) && (wire_of(v, d) == w || v.outputs[d].contains(w))
}

/// Whether every instance drives a wire that is in use.
pub open spec fn all_in_use(v: NetlistView) -> bool {
    forall|n: int|
        0 <= n < v.objects.len() && !((#[trigger] v.objects[n]).kind is Input) ==> exists|k: int|
            0 <= k < v.objects[n].wires.len() && in_use(v, #[trigger] v.objects[n].wires[k])
}

/// Whether operand `b` of the smaller netlist is operand `a` of the larger,
/// of which the objects `keep` are left.
pub open spec fn same_operand(
    a: Option<DrivenNet>,
    b: Option<DrivenNet>,
    keep: Seq<usize>,
) -> bool {
    match (a, b) {
        (Some(d), Some(e)) => e.node < keep.len() && keep[e.node as int] == d.node && e.pos == d.pos,
        (None, None) => true,
        _ => false,
    }
}

/// Whether `b` is the part of `a` that is left when only the objects `keep`
/// are, in the same order. No input, no output and no operand of an object
/// that is left is lost.
pub open spec fn pruned(a: NetlistView, b: NetlistView, keep: Seq<usize>) -> bool {
    &&& b.name == a.name
    &&& b.objects.len() == keep.len()
    &&& forall|i: int| 0 <= i < keep.len() ==> (#[trigger] keep[i]) < a.objects.len()
    &&& forall|i: int, j: int| 0 <= i < j < keep.len() ==> keep[i] < keep[j]
    &&& forall|i: int|
        #![trigger b.objects[i]]
        0 <= i < keep.len() ==> {
            let o = a.objects[keep[i] as int];
            &&& b.objects[i].kind == o.kind
            &&& b.objects[i].wires == o.wires
            &&& b.objects[i].operands.len() == o.operands.len()
            &&& forall|k: int|
                0 <= k < o.operands.len() ==> same_operand(
                    o.operands[k],
                    #[trigger] b.objects[i].operands[k],
                    keep,
                )
        }
    &&& forall|n: int|
        0 <= n < a.objects.len() && (#[trigger] a.objects[n]).kind is Input ==> keep.contains(
            n as usize,
        )
    &&& forall|d: DrivenNet| #[trigger]
        a.outputs.contains_key(d) ==> exists|e: DrivenNet|
            same_operand(Some(d), Some(e), keep) && #[trigger] b.outputs.contains_key(e)
    &&& forall|e: DrivenNet| #[trigger]
        b.outputs.contains_key(e) ==> e.node < keep.len() && {
            let d = DrivenNet { node: keep[e.node as int], pos: e.pos };
            a.outputs.contains_key(d) && a.outputs[d] == b.outputs[e]
        }
}

/// Whether `b` are the nets `a` after all but the objects `keep` are gone.
pub open spec fn same_nets(a: Seq<DrivenNet>, b: Seq<DrivenNet>, keep: Seq<usize>) -> bool {
    &&& a.len() == b.len()
    &&& forall|i: int| 0 <= i < a.len() ==> same_operand(Some(a[i]), Some(#[trigger] b[i]), keep)
}

/// What a walk from object `from` over the operands visits, in order, and
/// whether it has met a cycle by then.
pub uninterp spec fn dfs_visits(v: NetlistView, from: usize) -> Seq<(usize, bool)>;

/// What is left of a netlist that is cleaned while the nets `held` are held
/// on to, and where those nets are then.
pub uninterp spec fn clean_outcome(
    v: NetlistView,
    held: Seq<DrivenNet>,
) -> (NetlistView, Seq<DrivenNet>);

/// What holds of the visits of a walk from `from`: it starts there, visits
/// nothing twice, and goes on from what it has visited to all operands. It
/// has met a cycle only if there is one, and always when it visits what
/// `from` or the visited object itself drives, and from then on.
pub open spec fn visits_ok(v: NetlistView, from: usize, visits: Seq<(usize, bool)>) -> bool {
    &&& visits.len() > 0
    &&& visits[0].0 == from
    &&& forall|k: int| 0 <= k < visits.len() ==> (#[trigger] visits[k]).0 < v.objects.len()
    &&& forall|j: int, k: int|
        0 <= j < k < visits.len() ==> (#[trigger] visits[j]).0 != (#[trigger] visits[k]).0
    &&& forall|k: int|
        0 < k < visits.len() ==> exists|j: int|
            0 <= j < k && driven_by(v, (#[trigger] visits[j]).0, (#[trigger] visits[k]).0)
    &&& forall|k: int, m: usize|
        0 <= k < visits.len() && #[trigger] driven_by(v, (#[trigger] visits[k]).0, m) ==> exists|
            j: int,
        |
            0 <= j < visits.len() && (#[trigger] visits[j]).0 == m
    &&& forall|k: int| 0 <= k < visits.len() && (#[trigger] visits[k]).1 ==> cyclic(v, from)
    &&& forall|j: int, k: int|
        0 <= j < k < visits.len() && (#[trigger] visits[j]).1 ==> (#[trigger] visits[k]).1
    &&& forall|k: int|
        0 <= k < visits.len() && (driven_by(v, (#[trigger] visits[k]).0, from) || driven_by(
            v,
            visits[k].0,
            visits[k].0,
        )) ==> visits[k].1
}

/// Whether one of the objects `among` has the wire `w` as an operand, or it is
/// the net or the name of an output.
pub open spec fn used_among(v: NetlistView, among: Set<usize>, w: WireView) -> bool {
    ||| exists|n: usize, k: int|
        among.contains(n) && 0 <= k < v.objects[n as int].operands.len() && ((
        #[trigger] v.objects[n as int].operands[k]) matches Some(d) && wire_of(v, d) == w)
    ||| exists|d: DrivenNet| #[trigger]
        v.outputs.contains_key(d) && (wire_of(v, d) == w || v.outputs[d].contains(w))
}

/// Whether object `n` drives a wire that is used among `among`.
pub open spec fn has_use(v: NetlistView, among: Set<usize>, n: usize) -> bool {
    exists|k: int|
        0 <= k < v.objects[n as int].wires.len() && used_among(
            v,
            among,
            #[trigger] v.objects[n as int].wires[k],
        )
}

/// Whether the objects `among` keep each other in use: each is an input, or
/// drives a wire that is used among them.
pub open spec fn self_used(v: NetlistView, among: Set<usize>) -> bool {
    forall|n: usize| #[trigger]
        among.contains(n) ==> n < v.objects.len() && (v.objects[n as int].kind is Input || has_use(
            v,
            among,
            n,
        ))
}

/// Whether object `n` stays when all that nothing uses is taken out.
pub open spec fn lasts(v: NetlistView, n: usize) -> bool {
    exists|among: Set<usize>| #[trigger] self_used(v, among) && among.contains(n)
}

/// Whether the objects of all of `nets` stay then.
pub open spec fn all_last(v: NetlistView, nets: Seq<DrivenNet>) -> bool {
    forall|i: int| 0 <= i < nets.len() ==> lasts(v, (#[trigger] nets[i]).node)
}

/// A cell in the form that `safety_net` takes.
pub struct GateInst {
    part: Part,
    name: safety_net::Identifier,
    inputs: Vec<safety_net::Net>,
    outputs: Vec<safety_net::Net>,
}

/// `Clone` of `safety_net::Net` is derived: the copy has the same name and
/// type.
pub assume_specification[ <safety_net::Net as Clone>::clone ](
    net: &safety_net::Net,
) -> (r: safety_net::Net)
    ensures
        r == *net,
;

impl View for GateInst {
    type V = PartView;

    closed spec fn view(&self) -> PartView {
        self.part@
    }
}

impl GateInst {
    #[verifier::type_invariant]
    spec fn well_formed(self) -> bool {
        &&& self.name == outside_ident(self@.name())
        &&& self.inputs@ == outside_nets(self@.inputs())
        &&& self.outputs@ == outside_nets(self@.outputs())
    }

    fn of(part: &Part) -> (r: GateInst)
        ensures
            r@ == part@,
    {
        let inputs = raw_wires(part.get_input_ports());
        let outputs = raw_wires(part.get_output_ports());
        GateInst { part: part.clone(), name: part.get_name().raw(), inputs, outputs }
    }
}

impl Clone for GateInst {
    fn clone(&self) -> (r: GateInst)
        ensures
            r@ == self@,
    {
        proof {
            use_type_invariant(self);
        }
        let inputs = self.inputs.clone();
        let outputs = self.outputs.clone();
        assert(inputs@ =~= self.inputs@);
        assert(outputs@ =~= self.outputs@);
        GateInst { part: self.part.clone(), name: self.name.clone(), inputs, outputs }
    }
}

/// A parameter that may be missing, in the form that `safety_net` has it.
pub open spec fn outside_entry(params: Map<IdentView, ParamView>, id: IdentView) -> Option<
    safety_net::Parameter,
> {
    if params.contains_key(id) {
        Some(outside_param(params[id]))
    } else {
        None
    }
}

impl safety_net::Instantiable for GateInst {
    fn get_name(&self) -> (r: &safety_net::Identifier)
        ensures
            *r == outside_ident(self@.name()),
    {
        proof {
            use_type_invariant(self);
        }
        &self.name
    }

    #[allow(refining_impl_trait)]
    fn get_input_ports(&self) -> (r: &Vec<safety_net::Net>)
        ensures
            r@ == outside_nets(self@.inputs()),
    {
        proof {
            use_type_invariant(self);
        }
        &self.inputs
    }

    #[allow(refining_impl_trait)]
    fn get_output_ports(&self) -> (r: &Vec<safety_net::Net>)
        ensures
            r@ == outside_nets(self@.outputs()),
    {
        proof {
            use_type_invariant(self);
        }
        &self.outputs
    }

    fn has_parameter(&self, id: &safety_net::Identifier) -> (r: bool)
        ensures
            r == self@.params().contains_key(ident_view(*id)),
    {
        match &self.part {
            Part::Gate(cell) => cell.has_parameter(&describe(id.clone())),
            Part::Closed(_) => false,
        }
    }

    fn get_parameter(&self, id: &safety_net::Identifier) -> (r: Option<safety_net::Parameter>)
        ensures
            r == outside_entry(self@.params(), ident_view(*id)),
    {
        match &self.part {
            Part::Gate(cell) => match cell.get_parameter(&describe(id.clone())) {
                Some(p) => Some(raw_param(&p)),
                None => None,
            },
            Part::Closed(_) => None,
        }
    }

    fn set_parameter(
        &mut self,
        id: &safety_net::Identifier,
        val: safety_net::Parameter,
    ) -> (r: Option<safety_net::Parameter>)
        ensures
            final(self)@ == old(self)@.with_param(ident_view(*id), param_view(val)),
            r == outside_entry(old(self)@.params(), ident_view(*id)),
    {
        proof {
            use_type_invariant(&*self);
        }
        let part = self.part.clone();
        match part {
            Part::Gate(cell) => {
                let mut cell = cell;
                let before = cell.set_parameter(&describe(id.clone()), describe_param(val));
                self.part = Part::Gate(cell);
                match before {
                    Some(p) => Some(raw_param(&p)),
                    None => None,
                }
            },
            Part::Closed(_) => None,
        }
    }

    #[allow(refining_impl_trait)]
    fn parameters(&self) -> (r: std::vec::IntoIter<
        (safety_net::Identifier, safety_net::Parameter),
    >)
        ensures
            lists_params(into_iter_elts(r), self@.params()),
    {
        broadcast use vstd::std_specs::vec::axiom_spec_into_iter;

        let params = match &self.part {
            Part::Gate(cell) => cell.parameters(),
            Part::Closed(_) => Vec::new(),
        };
        let mut r: Vec<(safety_net::Identifier, safety_net::Parameter)> = Vec::new();
        for i in 0..params.len()
            invariant
                r@.len() == i,
                forall|j: int|
                    0 <= j < i ==> (#[trigger] r@[j]) == (
                        outside_ident(params@[j].0@),
                        outside_param(params@[j].1@),
                    ),
        {
            r.push((params[i].0.raw(), raw_param(&params[i].1)));
        }
        proof {
            let ids = params@.map_values(|p: (Ident, Param)| p.0@);
            assert(lists_in_order(r@, self@.params(), ids)) by {
                assert forall|id: IdentView| #[trigger] self@.params().contains_key(
                    id,
                ) implies ids.contains(id) by {
                    let i = choose|i: int| 0 <= i < params@.len() && params@[i].0@ == id;
                    assert(ids[i] == id);
                }
            }
        }
        r.into_iter()
    }

    fn from_constant(val: safety_net::Logic) -> (r: Option<GateInst>)
        ensures
            match r {
                Some(inst) => constant_cell(level_view(val)) matches Some(cell) && inst@
                    == PartView::Gate(cell),
                None => constant_cell(level_view(val)) is None,
            },
    {
        match PrimitiveCell::from_constant(describe_level(val)) {
            Some(cell) => Some(GateInst::of(&Part::Gate(cell))),
            None => None,
        }
    }

    fn get_constant(&self) -> (r: Option<safety_net::Logic>)
        ensures
            r == match self@ {
                PartView::Gate(cell) => match constant_of(cell.ptype) {
                    Some(val) => Some(outside_level(val)),
                    None => None,
                },
                PartView::Closed(_) => None,
            },
    {
        match &self.part {
            Part::Gate(cell) => match cell.get_constant() {
                Some(val) => Some(raw_level(val)),
                None => None,
            },
            Part::Closed(_) => None,
        }
    }

    fn is_seq(&self) -> (r: bool)
        ensures
            r == (self@ matches PartView::Gate(cell) && cell.ptype == PrimitiveType::FDRE),
    {
        match &self.part {
            Part::Gate(cell) => cell.is_seq(),
            Part::Closed(_) => false,
        }
    }
}

/// Whether `list` holds the parameters called `ids`, in that order, which are
/// all parameters, each once.
pub open spec fn lists_in_order(
    list: Seq<(safety_net::Identifier, safety_net::Parameter)>,
    params: Map<IdentView, ParamView>,
    ids: Seq<IdentView>,
) -> bool {
    &&& ids.no_duplicates()
    &&& forall|id: IdentView| #[trigger] params.contains_key(id) <==> ids.contains(id)
    &&& list.len() == ids.len()
    &&& forall|i: int|
        0 <= i < ids.len() ==> #[trigger] list[i] == (
            outside_ident(ids[i]),
            outside_param(params[ids[i]]),
        )
}

/// Whether `list` holds all parameters with their names, each once, in some
/// order.
pub open spec fn lists_params(
    list: Seq<(safety_net::Identifier, safety_net::Parameter)>,
    params: Map<IdentView, ParamView>,
) -> bool {
    exists|ids: Seq<IdentView>| #[trigger] lists_in_order(list, params, ids)
}

/// A netlist, held as a `safety_net::Netlist`.
#[verifier::external_body]
pub struct Netlist {
    inner: Rc<safety_net::Netlist<GateInst>>,
}

/// The name of a netlist.
pub uninterp spec fn netlist_name(n: Netlist) -> Seq<char>;

/// The objects of a netlist, in order.
pub uninterp spec fn netlist_objects(n: Netlist) -> Seq<ObjectView>;

/// The nets of a netlist that are outputs, with their names outside.
pub uninterp spec fn netlist_outputs(n: Netlist) -> Map<DrivenNet, Set<WireView>>;

impl View for Netlist {
    type V = NetlistView;

    open spec fn view(&self) -> NetlistView {
        NetlistView {
            name: netlist_name(*self),
            objects: netlist_objects(*self),
            outputs: netlist_outputs(*self),
        }
    }
}

impl Netlist {
    /// Calls `safety_net::Netlist::new`: the netlist has no objects and no
    /// outputs.
    #[verifier::external_body]
    fn raw_new(name: &str) -> (r: Netlist)
        ensures
            netlist_name(r) == name@,
            netlist_objects(r) == Seq::<ObjectView>::empty(),
            netlist_outputs(r) == no_outputs(),
    {
        Netlist { inner: safety_net::Netlist::new(name.to_string()) }
    }

    /// Calls `safety_net::Netlist::get_name`.
    #[verifier::external_body]
    fn raw_name(&self) -> (r: String)
        ensures
            r@ == self@.name,
    {
        self.inner.get_name().clone()
    }

    /// Calls `safety_net::Netlist::len`, the number of objects.
    #[verifier::external_body]
    fn raw_len(&self) -> (r: usize)
        ensures
            r == self@.objects.len(),
    {
        self.inner.len()
    }

    /// Calls `safety_net::Netlist::insert_input`, which puts an input behind
    /// the other objects.
    #[verifier::external_body]
    fn raw_insert_input(&mut self, wire: &Wire)
        ensures
            final(self)@ == with_object(old(self)@, input_object(wire@)),
            final(self)@.objects.len() <= usize::MAX,
    {
        let _ = self.inner.insert_input(raw_wire(wire));
    }

    /// Calls `safety_net::Netlist::insert_gate`, which puts an instance
    /// behind the other objects. Its nets are named after it and the output
    /// ports of the cell. It fails, and changes nothing, if the number of
    /// operands is not that of the input ports.
    #[verifier::external_body]
    fn raw_insert_gate(
        &mut self,
        part: &Part,
        name: &Ident,
        operands: &Vec<DrivenNet>,
    ) -> (r: Result<(), NetlistError>)
        requires
            has_nets(old(self)@, operands@),
        ensures
            r is Ok <==> part@.inputs().len() == operands@.len(),
            r is Ok ==> final(self)@ == with_object(
                old(self)@,
                part_object(part@, name@, connected(operands@)),
            ),
            r matches Err(e) ==> final(self)@ == old(self)@ && e@ == ErrorView::ArgumentMismatch(
                part@.inputs().len() as usize,
                operands@.len() as usize,
            ),
            r is Ok ==> final(self)@.objects.len() <= usize::MAX,
    {
        let nets: Vec<_> = operands.iter().map(|d| {
            self.inner.objects().nth(d.node).unwrap().get_output(d.pos)
        }).collect();
        match self.inner.insert_gate(GateInst::of(part), name.raw(), &nets) {
            Ok(_) => Ok(()),
            Err(e) => Err(describe_error(e)),
        }
    }

    /// Calls `safety_net::Netlist::insert_gate_disconnected`, which puts an
    /// instance without operands behind the other objects.
    #[verifier::external_body]
    fn raw_insert_disconnected(&mut self, part: &Part, name: &Ident)
        ensures
            final(self)@ == with_object(
                old(self)@,
                part_object(part@, name@, disconnected(part@.inputs().len())),
            ),
            final(self)@.objects.len() <= usize::MAX,
    {
        let _ = self.inner.insert_gate_disconnected(GateInst::of(part), name.raw());
    }

    /// Calls `safety_net::Netlist::insert_constant`, which puts an instance
    /// of the cell that stands for the constant behind the other objects. It
    /// fails, and changes nothing, if there is no such cell.
    #[verifier::external_body]
    fn raw_insert_constant(&mut self, value: LogicValue, name: &Ident) -> (r: Result<
        (),
        NetlistError,
    >)
        ensures
            r is Ok <==> constant_cell(value) is Some,
            r is Ok ==> final(self)@ == with_object(
                old(self)@,
                gate_object(
                    constant_cell(value)->0,
                    name@,
                    disconnected((constant_cell(value)->0).inputs.len()),
                ),
            ),
            r matches Err(e) ==> final(self)@ == old(self)@ && e@ == ErrorView::InstantiableError(
                "Instantiable type does not support constant value "@ + level_text(value),
            ),
            r is Ok ==> final(self)@.objects.len() <= usize::MAX,
    {
        match self.inner.insert_constant(raw_level(value), name.raw()) {
            Ok(_) => Ok(()),
            Err(e) => Err(describe_error(e)),
        }
    }

    /// Calls `safety_net::DrivenNet::connect`, which makes a net an operand
    /// of an instance.
    #[verifier::external_body]
    fn raw_connect(&mut self, net: DrivenNet, node: usize, input: usize)
        requires
            has_net(old(self)@, net),
            node < old(self)@.objects.len(),
            !(old(self)@.objects[node as int].kind is Input),
            input < old(self)@.objects[node as int].operands.len(),
        ensures
            final(self)@ == with_operand(old(self)@, node, input, net),
    {
        let port = self.inner.objects().nth(node).unwrap().get_input(input);
        self.inner.objects().nth(net.node).unwrap().get_output(net.pos).connect(port);
    }

    /// Calls `safety_net::DrivenNet::expose_with_name`, which adds a name to
    /// those that a net goes by outside.
    #[verifier::external_body]
    fn raw_expose(&mut self, net: DrivenNet, name: &Ident)
        requires
            has_net(old(self)@, net),
        ensures
            final(self)@ == exposed(old(self)@, net, name@),
    {
        let object = self.inner.objects().nth(net.node).unwrap();
        let _ = object.get_output(net.pos).expose_with_name(name.raw());
    }

    /// Calls `safety_net::NetRef::nets`, the wires that an object drives.
    #[verifier::external_body]
    fn raw_nets(&self, node: usize) -> (r: Vec<Wire>)
        requires
            node < self@.objects.len(),
        ensures
            wire_views(r@) == self@.objects[node as int].wires,
    {
        self.inner.objects().nth(node).unwrap().nets().map(|net| describe_wire(&net)).collect()
    }

    /// Calls `safety_net::NetRef::get_instance_type`, the part that an
    /// instance is one of. An input has none.
    #[verifier::external_body]
    fn raw_part(&self, node: usize) -> (r: Option<Part>)
        requires
            node < self@.objects.len(),
        ensures
            match (part_of(self@.objects[node as int].kind), r) {
                (Some(part), Some(p)) => p@ == part,
                (None, None) => true,
                _ => false,
            },
    {
        let object = self.inner.objects().nth(node).unwrap();
        let part = object.get_instance_type().map(|inst| inst.part.clone());
        part
    }

    /// Calls `safety_net::NetRef::get_instance_name`, the name of an
    /// instance. An input has none.
    #[verifier::external_body]
    fn raw_instance_name(&self, node: usize) -> (r: Option<Ident>)
        requires
            node < self@.objects.len(),
        ensures
            match (instance_id(self@.objects[node as int].kind), r) {
                (Some(name), Some(id)) => id@ == name,
                (None, None) => true,
                _ => false,
            },
    {
        let name = self.inner.objects().nth(node).unwrap().get_instance_name();
        name.map(|id| describe(id))
    }

    /// Calls `safety_net::NetRef::inputs` and, on each of them,
    /// `safety_net::InputPort::get_driver`: the operands of an object.
    #[verifier::external_body]
    fn raw_drivers(&self, node: usize) -> (r: Vec<Option<DrivenNet>>)
        requires
            netlist_ok(self@),
            node < self@.objects.len(),
        ensures
            r@ == self@.objects[node as int].operands,
    {
        let object = self.inner.objects().nth(node).unwrap();
        let drivers = object.inputs().map(|port| port.get_driver().map(|net| DrivenNet {
            pos: net.get_output_index().unwrap_or(0),
            node: self.inner.objects().position(|o| o == net.clone().unwrap()).unwrap(),
        })).collect();
        drivers
    }

    /// Calls `safety_net::DrivenNet::is_top_level_output`.
    #[verifier::external_body]
    fn raw_is_output(&self, net: DrivenNet) -> (r: bool)
        requires
            has_net(self@, net),
        ensures
            r == self@.outputs.contains_key(net),
    {
        let object = self.inner.objects().nth(net.node).unwrap();
        object.get_output(net.pos).is_top_level_output()
    }

    /// Calls `safety_net::Netlist::outputs`: each net that is an output with
    /// each of its names outside. Their order is that of a hash map and not
    /// stated.
    #[verifier::external_body]
    fn raw_outputs(&self) -> (r: Vec<(DrivenNet, Wire)>)
        requires
            netlist_ok(self@),
        ensures
            forall|i: int|
                0 <= i < r@.len() ==> aliases(self@, (#[trigger] r@[i]).0).contains(r@[i].1@),
            forall|d: DrivenNet, w: WireView| #[trigger]
                aliases(self@, d).contains(w) ==> exists|i: int|
                    0 <= i < r@.len() && (#[trigger] r@[i]).0 == d && r@[i].1@ == w,
            forall|i: int, j: int|
                0 <= i < j < r@.len() ==> ((#[trigger] r@[i]).0, r@[i].1@) != ((
                #[trigger] r@[j]).0, r@[j].1@),
    {
        self.inner.outputs().into_iter().map(|(net, wire)| (DrivenNet {
            pos: net.get_output_index().unwrap_or(0),
            node: self.inner.objects().position(|o| o == net.clone().unwrap()).unwrap(),
        }, describe_wire(&wire))).collect()
    }

    /// Sets a net through `safety_net::DrivenNet::as_net_mut`.
    #[verifier::external_body]
    fn raw_set_wire(&mut self, net: DrivenNet, wire: &Wire)
        requires
            has_net(old(self)@, net),
        ensures
            final(self)@ == with_wire(old(self)@, net, wire@),
    {
        let object = self.inner.objects().nth(net.node).unwrap();
        *object.get_output(net.pos).as_net_mut() = raw_wire(wire);
    }

    /// Runs a `safety_net::iter::DFSIterator` to its end, asking it after
    /// each step whether it has met a cycle. It takes walks off a stack.
    /// From an object that was not visited before it puts the walks to its
    /// operands on the stack, and a walk that would come back to an object
    /// on it is a cycle. What [`visits_ok`] says follows from that; which
    /// operand comes first is not stated.
    #[verifier::external_body]
    fn raw_dfs(&self, from: usize) -> (r: Vec<(usize, bool)>)
        requires
            netlist_ok(self@),
            from < self@.objects.len(),
        ensures
            r@ == dfs_visits(self@, from),
            visits_ok(self@, from, r@),
    {
        let objects: Vec<_> = self.inner.objects().collect();
        let mut dfs = safety_net::iter::DFSIterator::new(&self.inner, objects[from].clone());
        let mut visits = Vec::new();
        while let Some(n) = dfs.next() {
            visits.push((objects.iter().position(|o| *o == n).unwrap(), dfs.check_cycles()));
        }
        visits
    }

    /// Calls `safety_net::Netlist::replace_net_uses` while the nets in
    /// `held` are held on to, and no others but `of`. It counts the
    /// references to the object of `of`, and does what [`replace_outcome`]
    /// says.
    #[verifier::external_body]
    fn raw_replace(&mut self, of: DrivenNet, held: &Vec<DrivenNet>, with: usize) -> (r: Result<
        (),
        NetlistError,
    >)
        requires
            has_net(old(self)@, of),
            has_nets(old(self)@, held@),
            with < held@.len(),
        ensures
            match (replace_outcome(old(self)@, of, held@, with as int), r) {
                (Ok(v), Ok(_)) => final(self)@ == v,
                (Err(e), Err(err)) => err@ == e && final(self)@ == old(self)@,
                _ => false,
            },
    {
        let nets: Vec<_> = held.iter().map(|d| {
            self.inner.objects().nth(d.node).unwrap().get_output(d.pos)
        }).collect();
        let old_net = self.inner.objects().nth(of.node).unwrap().get_output(of.pos);
        match self.inner.replace_net_uses(old_net, &nets[with]) {
            Ok(_) => Ok(()),
            Err(e) => Err(describe_error(e)),
        }
    }

    /// Calls `safety_net::Netlist::clean` while the nets in `held` are held
    /// on to, and no others, and asks where those nets are then. It takes out
    /// the instances none of whose wires is in use, all at once, and again
    /// until there are none. It fails on a netlist without outputs or with
    /// names that are not unique, and before it would take out an object that
    /// is held on to. What stays if it succeeds are the objects that keep each
    /// other in use. Which wires it complains of where it fails is not stated.
    #[verifier::external_body]
    fn raw_clean(&mut self, held: &mut Vec<DrivenNet>) -> (r: Result<(), NetlistError>)
        requires
            netlist_ok(old(self)@),
            has_nets(old(self)@, old(held)@),
        ensures
            (final(self)@, final(held)@) == clean_outcome(old(self)@, old(held)@),
            exists|keep: Seq<usize>| #[trigger]
                pruned(old(self)@, final(self)@, keep) && same_nets(old(held)@, final(held)@, keep)
                    && (r is Ok ==> keeps_what_lasts(old(self)@, keep)),
            clean_result(old(self)@, old(held)@, r),
            !(r is Ok || r matches Err(NetlistError::DanglingReference(_))) ==> final(self)@ == old(
                self,
            )@,
    {
        let nets: Vec<_> = held.iter().map(|d| {
            self.inner.objects().nth(d.node).unwrap().get_output(d.pos)
        }).collect();
        let r = self.inner.clean();
        *held = nets.into_iter().map(|net| DrivenNet {
            pos: net.get_output_index().unwrap_or(0),
            node: self.inner.objects().position(|o| o == net.clone().unwrap()).unwrap(),
        }).collect();
        match r {
            Ok(_) => Ok(()),
            Err(e) => Err(describe_error(e)),
        }
    }
}

/// Whether `keep` has the objects that stay when all that nothing uses is
/// taken out.
pub open spec fn keeps_what_lasts(v: NetlistView, keep: Seq<usize>) -> bool {
    forall|n: usize| #[trigger] keep.contains(n) <==> n < v.objects.len() && lasts(v, n)
}

/// When cleaning a netlist succeeds, and how it fails. It takes out nothing
/// that is held on to.
pub open spec fn clean_result<T>(
    v: NetlistView,
    held: Seq<DrivenNet>,
    r: Result<T, NetlistError>,
) -> bool {
    if v.outputs.dom() == Set::<DrivenNet>::empty() {
        r matches Err(NetlistError::NoOutputs)
    } else if !wires_unique(v) {
        r matches Err(NetlistError::NonuniqueNets(_))
    } else if !instances_unique(v) {
        r matches Err(NetlistError::NonuniqueInsts(_))
    } else if !all_last(v, held) {
        r matches Err(NetlistError::DanglingReference(_))
    } else {
        r is Ok
    }
}

/// A netlist stays well formed when a well formed object is added.
proof fn lemma_object_added(v: NetlistView, o: ObjectView)
    requires
        netlist_ok(v),
        object_ok(o),
        operands_ok(v, o),
        v.objects.len() < usize::MAX,
    ensures
        netlist_ok(with_object(v, o)),
        forall|d: DrivenNet| has_net(v, d) ==> #[trigger] has_net(with_object(v, o), d),
{
    let w = with_object(v, o);
    assert forall|i: int| 0 <= i < w.objects.len() implies object_ok(#[trigger] w.objects[i])
        && operands_ok(w, w.objects[i]) by {
        let x = w.objects[i];
        if i < v.objects.len() {
            assert(x == v.objects[i]);
        }
        assert forall|k: int| 0 <= k < x.operands.len() implies ((
        #[trigger] x.operands[k]) matches Some(d) ==> has_net(w, d)) by {
            if let Some(d) = x.operands[k] {
                assert(has_net(v, d));
            }
        }
    }
    assert forall|d: DrivenNet| #[trigger] w.outputs.contains_key(d) implies has_net(w, d) by {
        assert(v.outputs.contains_key(d));
    }
}

/// Whether two netlists have the same shape: the same kinds of objects, with
/// as many wires and operands.
pub open spec fn same_shape(a: NetlistView, b: NetlistView) -> bool {
    &&& a.objects.len() == b.objects.len()
    &&& forall|i: int|
        #![trigger b.objects[i]]
        0 <= i < a.objects.len() ==> {
            &&& a.objects[i].kind == b.objects[i].kind
            &&& a.objects[i].wires.len() == b.objects[i].wires.len()
            &&& a.objects[i].operands.len() == b.objects[i].operands.len()
        }
}

/// Netlists of the same shape have the same nets.
proof fn lemma_same_shape(a: NetlistView, b: NetlistView)
    requires
        same_shape(a, b),
    ensures
        forall|d: DrivenNet| #[trigger] has_net(b, d) == has_net(a, d),
{
    assert forall|d: DrivenNet| #[trigger] has_net(b, d) == has_net(a, d) by {
        if d.node < a.objects.len() {
            assert(a.objects[d.node as int].wires.len() == b.objects[d.node as int].wires.len());
        }
    }
}

/// A netlist stays well formed under changes that keep its shape, if they
/// bring in no nets of another.
proof fn lemma_shape_kept(a: NetlistView, b: NetlistView)
    requires
        netlist_ok(a),
        same_shape(a, b),
        forall|i: int, k: int|
            0 <= i < b.objects.len() && 0 <= k < b.objects[i].operands.len() ==> ((
            #[trigger] b.objects[i].operands[k]) matches Some(d) ==> has_net(a, d)),
        forall|d: DrivenNet| #[trigger] b.outputs.contains_key(d) ==> has_net(a, d),
    ensures
        netlist_ok(b),
        forall|d: DrivenNet| #[trigger] has_net(b, d) == has_net(a, d),
{
    lemma_same_shape(a, b);
    assert forall|i: int| 0 <= i < b.objects.len() implies object_ok(#[trigger] b.objects[i])
        && operands_ok(b, b.objects[i]) by {
        assert(object_ok(a.objects[i]));
        assert forall|k: int| 0 <= k < b.objects[i].operands.len() implies ((
        #[trigger] b.objects[i].operands[k]) matches Some(d) ==> has_net(b, d)) by {}
    }
}

/// The operands of a well formed netlist are nets of it.
pub proof fn lemma_operand(v: NetlistView, n: int, k: int)
    requires
        netlist_ok(v),
        0 <= n < v.objects.len(),
        0 <= k < v.objects[n].operands.len(),
        v.objects[n].operands[k] is Some,
    ensures
        has_net(v, v.objects[n].operands[k]->0),
{
    assert(operands_ok(v, v.objects[n]));
}

/// Setting a wire keeps a netlist well formed.
proof fn lemma_wire_set(v: NetlistView, d: DrivenNet, wire: WireView)
    requires
        netlist_ok(v),
        has_net(v, d),
    ensures
        netlist_ok(with_wire(v, d, wire)),
        forall|e: DrivenNet| #[trigger] has_net(with_wire(v, d, wire), e) == has_net(v, e),
{
    let w = with_wire(v, d, wire);
    assert forall|i: int, k: int|
        0 <= i < w.objects.len() && 0 <= k < w.objects[i].operands.len() implies ((
    #[trigger] w.objects[i].operands[k]) matches Some(e) ==> has_net(v, e)) by {
        assert(w.objects[i].operands == v.objects[i].operands);
        if w.objects[i].operands[k] is Some {
            lemma_operand(v, i, k);
        }
    }
    lemma_shape_kept(v, w);
}

/// Setting an operand keeps a netlist well formed.
proof fn lemma_operand_set(v: NetlistView, node: usize, input: usize, d: DrivenNet)
    requires
        netlist_ok(v),
        has_net(v, d),
        node < v.objects.len(),
        input < v.objects[node as int].operands.len(),
    ensures
        netlist_ok(with_operand(v, node, input, d)),
        forall|e: DrivenNet| #[trigger] has_net(with_operand(v, node, input, d), e) == has_net(v, e),
{
    let w = with_operand(v, node, input, d);
    assert forall|i: int, k: int|
        0 <= i < w.objects.len() && 0 <= k < w.objects[i].operands.len() implies ((
    #[trigger] w.objects[i].operands[k]) matches Some(e) ==> has_net(v, e)) by {
        if w.objects[i].operands[k] is Some && (i != node || k != input) {
            lemma_operand(v, i, k);
        }
    }
    lemma_shape_kept(v, w);
}

/// Replacing uses of a net keeps a netlist well formed.
proof fn lemma_rewired(v: NetlistView, of: DrivenNet, with: DrivenNet)
    requires
        netlist_ok(v),
        has_net(v, with),
    ensures
        netlist_ok(rewired(v, of, with)),
        forall|e: DrivenNet| #[trigger] has_net(rewired(v, of, with), e) == has_net(v, e),
{
    let w = rewired(v, of, with);
    assert forall|i: int, k: int|
        0 <= i < w.objects.len() && 0 <= k < w.objects[i].operands.len() implies ((
    #[trigger] w.objects[i].operands[k]) matches Some(e) ==> has_net(v, e)) by {
        if v.objects[i].operands[k] is Some {
            lemma_operand(v, i, k);
        }
    }
    lemma_shape_kept(v, w);
}

/// What is left of a well formed netlist is well formed.
proof fn lemma_pruned(a: NetlistView, b: NetlistView, keep: Seq<usize>)
    requires
        netlist_ok(a),
        pruned(a, b, keep),
    ensures
        netlist_ok(b),
        forall|d: DrivenNet, e: DrivenNet|
            has_net(a, d) && #[trigger] same_operand(Some(d), Some(e), keep) ==> has_net(b, e)
                && wire_of(b, e) == wire_of(a, d),
{
    assert forall|d: DrivenNet, e: DrivenNet|
        has_net(a, d) && #[trigger] same_operand(Some(d), Some(e), keep) implies has_net(b, e)
        && wire_of(b, e) == wire_of(a, d) by {
        assert(b.objects[e.node as int].wires == a.objects[d.node as int].wires);
    }
    if keep.len() > 0 {
        lemma_increasing(keep, keep.len() - 1);
    }
    assert forall|i: int| 0 <= i < b.objects.len() implies object_ok(#[trigger] b.objects[i])
        && operands_ok(b, b.objects[i]) by {
        let o = a.objects[keep[i] as int];
        assert(object_ok(o) && operands_ok(a, o));
        assert forall|k: int| 0 <= k < b.objects[i].operands.len() implies ((
        #[trigger] b.objects[i].operands[k]) matches Some(e) ==> has_net(b, e)) by {
            assert(same_operand(o.operands[k], b.objects[i].operands[k], keep));
        }
    }
    assert forall|e: DrivenNet| #[trigger] b.outputs.contains_key(e) implies has_net(b, e) by {
        let d = DrivenNet { node: keep[e.node as int], pos: e.pos };
        assert(a.outputs.contains_key(d));
        assert(same_operand(Some(d), Some(e), keep));
    }
}

/// All objects that stay keep each other in use.
proof fn lemma_what_lasts(v: NetlistView) -> (all: Set<usize>)
    ensures
        self_used(v, all),
        forall|n: usize| #[trigger] all.contains(n) <==> lasts(v, n),
{
    let all = Set::new(|n: usize| lasts(v, n));
    assert forall|n: usize| #[trigger] all.contains(n) implies n < v.objects.len() && (
    v.objects[n as int].kind is Input || has_use(v, all, n)) by {
        let among = choose|among: Set<usize>| #[trigger]
            self_used(v, among) && among.contains(n);
        assert forall|m: usize| among.contains(m) implies #[trigger] all.contains(m) by {
            assert(self_used(v, among) && among.contains(m));
        }
        if !(v.objects[n as int].kind is Input) {
            assert(has_use(v, among, n));
            let k = choose|k: int|
                0 <= k < v.objects[n as int].wires.len() && used_among(
                    v,
                    among,
                    #[trigger] v.objects[n as int].wires[k],
                );
            lemma_used_among_more(v, among, all, v.objects[n as int].wires[k]);
        }
    }
    all
}

/// What is used among some objects is used among more.
proof fn lemma_used_among_more(v: NetlistView, among: Set<usize>, more: Set<usize>, w: WireView)
    requires
        used_among(v, among, w),
        forall|m: usize| among.contains(m) ==> #[trigger] more.contains(m),
    ensures
        used_among(v, more, w),
{
    if !(exists|d: DrivenNet| #[trigger]
        v.outputs.contains_key(d) && (wire_of(v, d) == w || v.outputs[d].contains(w))) {
        let (n, k) = choose|n: usize, k: int|
            among.contains(n) && 0 <= k < v.objects[n as int].operands.len() && ((
            #[trigger] v.objects[n as int].operands[k]) matches Some(d) && wire_of(v, d) == w);
        assert(more.contains(n));
        assert(v.objects[n as int].operands[k] is Some);
    }
}

/// After cleaning, every instance drives a wire that is in use.
pub proof fn law_what_is_left_is_in_use(a: NetlistView, b: NetlistView, keep: Seq<usize>)
    requires
        netlist_ok(a),
        pruned(a, b, keep),
        keeps_what_lasts(a, keep),
    ensures
        all_in_use(b),
{
    let all = lemma_what_lasts(a);
    lemma_pruned(a, b, keep);
    assert forall|i: int| 0 <= i < b.objects.len() && !((
    #[trigger] b.objects[i]).kind is Input) implies exists|k: int|
        0 <= k < b.objects[i].wires.len() && in_use(b, #[trigger] b.objects[i].wires[k]) by {
        let n = keep[i];
        assert(keep.contains(n));
        assert(all.contains(n));
        assert(has_use(a, all, n));
        let k = choose|k: int|
            0 <= k < a.objects[n as int].wires.len() && used_among(
                a,
                all,
                #[trigger] a.objects[n as int].wires[k],
            );
        let w = a.objects[n as int].wires[k];
        assert(b.objects[i].wires[k] == w);
        if exists|d: DrivenNet| #[trigger]
            a.outputs.contains_key(d) && (wire_of(a, d) == w || a.outputs[d].contains(w)) {
            let d = choose|d: DrivenNet| #[trigger]
                a.outputs.contains_key(d) && (wire_of(a, d) == w || a.outputs[d].contains(w));
            let e = choose|e: DrivenNet|
                same_operand(Some(d), Some(e), keep) && #[trigger] b.outputs.contains_key(e);
            assert(d == DrivenNet { node: keep[e.node as int], pos: e.pos });
            assert(has_net(a, d));
            assert(b.outputs.contains_key(e) && (wire_of(b, e) == w || b.outputs[e].contains(w)));
        } else {
            let (m, j) = choose|m: usize, j: int|
                all.contains(m) && 0 <= j < a.objects[m as int].operands.len() && ((
                #[trigger] a.objects[m as int].operands[j]) matches Some(d) && wire_of(a, d) == w);
            assert(self_used(a, all) && all.contains(m));
            assert(keep.contains(m));
            let h = choose|h: int| 0 <= h < keep.len() && keep[h] == m;
            let d = a.objects[m as int].operands[j]->0;
            lemma_operand(a, m as int, j);
            assert(b.objects[h].operands.len() == a.objects[m as int].operands.len());
            assert(same_operand(Some(d), b.objects[h].operands[j], keep));
            let e = b.objects[h].operands[j]->0;
            assert(wire_of(b, e) == w);
        }
        assert(in_use(b, b.objects[i].wires[k]));
    }
}

/// What is behind an output stays when a netlist is cleaned.
pub proof fn law_what_outputs_need_stays(v: NetlistView, d: DrivenNet, n: usize)
    requires
        netlist_ok(v),
        v.outputs.contains_key(d),
        reaches(v, d.node, n),
    ensures
        lasts(v, n),
{
    let among = Set::new(
        |m: usize| exists|e: DrivenNet| #[trigger]
            v.outputs.contains_key(e) && reaches(v, e.node, m),
    );
    assert forall|m: usize| #[trigger] among.contains(m) implies m < v.objects.len() && (
    v.objects[m as int].kind is Input || has_use(v, among, m)) by {
        let e = choose|e: DrivenNet| #[trigger]
            v.outputs.contains_key(e) && reaches(v, e.node, m);
        let p = choose|p: Seq<usize>| #[trigger]
            walk(v, p) && p.first() == e.node && p.last() == m;
        assert(p[p.len() - 1] == m);
        if p.len() == 1 {
            assert(has_net(v, e));
            let w = v.objects[m as int].wires[e.pos as int];
            assert(v.outputs.contains_key(e) && wire_of(v, e) == w);
            assert(used_among(v, among, v.objects[m as int].wires[e.pos as int]));
        } else {
            let q = p.drop_last();
            let u = q.last();
            assert forall|i: int| 0 < i < q.len() implies #[trigger] linked(v, q, i) by {
                assert(linked(v, p, i));
            }
            assert(walk(v, q) && q.first() == e.node && q.last() == u);
            assert(reaches(v, e.node, u));
            assert(among.contains(u));
            assert(linked(v, p, p.len() - 1));
            let k = choose|k: int|
                0 <= k < v.objects[u as int].operands.len() && ((
                #[trigger] v.objects[u as int].operands[k]) matches Some(f) && f.node == m);
            let f = v.objects[u as int].operands[k]->0;
            lemma_operand(v, u as int, k);
            assert(wire_of(v, f) == v.objects[m as int].wires[f.pos as int]);
            assert(used_among(v, among, v.objects[m as int].wires[f.pos as int]));
        }
    }
    assert(self_used(v, among) && among.contains(n));
}

/// In an increasing sequence every number is at least its place.
proof fn lemma_increasing(keep: Seq<usize>, i: int)
    requires
        0 <= i < keep.len(),
        forall|i: int, j: int| 0 <= i < j < keep.len() ==> keep[i] < keep[j],
    ensures
        keep[i] >= i,
    decreases i,
{
    if i > 0 {
        lemma_increasing(keep, i - 1);
    }
}

impl Netlist {
    /// An empty netlist.
    pub fn new(name: &str) -> (r: Netlist)
        ensures
            r@ == (NetlistView { name: name@, objects: Seq::empty(), outputs: no_outputs() }),
            netlist_ok(r@),
    {
        Netlist::raw_new(name)
    }

    /// The name of the netlist.
    pub fn get_name(&self) -> (r: String)
        ensures
            r@ == self@.name,
    {
        self.raw_name()
    }

    /// The number of objects.
    pub fn len(&self) -> (r: usize)
        ensures
            r == self@.objects.len(),
    {
        self.raw_len()
    }

    /// The first object.
    pub fn first(&self) -> (r: Option<usize>)
        ensures
            r == if self@.objects.len() > 0 {
                Some(0usize)
            } else {
                None
            },
    {
        if self.raw_len() > 0 {
            Some(0)
        } else {
            None
        }
    }

    /// The last object.
    pub fn last(&self) -> (r: Option<usize>)
        ensures
            match r {
                Some(n) => n == self@.objects.len() - 1,
                None => self@.objects.len() == 0,
            },
    {
        let n = self.raw_len();
        if n > 0 {
            Some(n - 1)
        } else {
            None
        }
    }

    /// Adds an input that drives `wire`, and returns its net.
    pub fn insert_input(&mut self, wire: Wire) -> (r: DrivenNet)
        requires
            netlist_ok(old(self)@),
        ensures
            netlist_ok(final(self)@),
            final(self)@ == with_object(old(self)@, input_object(wire@)),
            r.node == old(self)@.objects.len(),
            r.pos == 0,
            has_net(final(self)@, r),
            forall|d: DrivenNet| has_net(old(self)@, d) ==> #[trigger] has_net(final(self)@, d),
    {
        let node = self.raw_len();
        self.raw_insert_input(&wire);
        proof {
            lemma_object_added(old(self)@, input_object(wire@));
        }
        DrivenNet { node, pos: 0 }
    }

    /// Adds an instance of a cell, with `operands` on its input ports, and
    /// returns its place. There have to be as many operands as ports.
    pub fn insert_gate(
        &mut self,
        cell: PrimitiveCell,
        name: Ident,
        operands: &Vec<DrivenNet>,
    ) -> (r: Result<usize, NetlistError>)
        requires
            netlist_ok(old(self)@),
            has_nets(old(self)@, operands@),
        ensures
            netlist_ok(final(self)@),
            forall|d: DrivenNet| has_net(old(self)@, d) ==> #[trigger] has_net(final(self)@, d),
            match r {
                Ok(node) => {
                    &&& cell@.inputs.len() == operands@.len()
                    &&& node == old(self)@.objects.len()
                    &&& has_net(final(self)@, DrivenNet { node, pos: 0 })
                    &&& final(self)@ == with_object(
                        old(self)@,
                        gate_object(cell@, name@, connected(operands@)),
                    )
                },
                Err(e) => {
                    &&& cell@.inputs.len() != operands@.len()
                    &&& e@ == ErrorView::ArgumentMismatch(
                        cell@.inputs.len() as usize,
                        operands@.len() as usize,
                    )
                    &&& final(self)@ == old(self)@
                },
            },
    {
        let _ = cell.get_type();
        let node = self.raw_len();
        match self.raw_insert_gate(&Part::Gate(cell), &name, operands) {
            Ok(_) => {
                proof {
                    let o = gate_object(cell@, name@, connected(operands@));
                    assert forall|k: int| 0 <= k < o.operands.len() implies ((
                    #[trigger] o.operands[k]) matches Some(d) ==> has_net(old(self)@, d)) by {
                        assert(has_net(old(self)@, operands@[k]));
                    }
                    lemma_object_added(old(self)@, o);
                }
                Ok(node)
            },
            Err(e) => Err(e),
        }
    }

    /// Adds an instance of a cell without operands, and returns its place.
    pub fn insert_gate_disconnected(&mut self, cell: PrimitiveCell, name: Ident) -> (r: usize)
        requires
            netlist_ok(old(self)@),
        ensures
            netlist_ok(final(self)@),
            r == old(self)@.objects.len(),
            has_net(final(self)@, DrivenNet { node: r, pos: 0 }),
            final(self)@ == with_object(
                old(self)@,
                gate_object(cell@, name@, disconnected(cell@.inputs.len())),
            ),
            forall|d: DrivenNet| has_net(old(self)@, d) ==> #[trigger] has_net(final(self)@, d),
    {
        let _ = cell.get_type();
        let node = self.raw_len();
        self.raw_insert_disconnected(&Part::Gate(cell), &name);
        proof {
            lemma_object_added(
                old(self)@,
                gate_object(cell@, name@, disconnected(cell@.inputs.len())),
            );
        }
        node
    }

    /// Adds an instance of a cell of which only the ports are known, with
    /// `operands` on its input ports, and returns its place. There have to be
    /// as many operands as ports.
    pub fn insert_black_box(
        &mut self,
        cell: BlackBox,
        name: Ident,
        operands: &Vec<DrivenNet>,
    ) -> (r: Result<usize, NetlistError>)
        requires
            netlist_ok(old(self)@),
            has_nets(old(self)@, operands@),
        ensures
            netlist_ok(final(self)@),
            forall|d: DrivenNet| has_net(old(self)@, d) ==> #[trigger] has_net(final(self)@, d),
            match r {
                Ok(node) => {
                    &&& cell@.inputs.len() == operands@.len()
                    &&& node == old(self)@.objects.len()
                    &&& final(self)@ == with_object(
                        old(self)@,
                        part_object(PartView::Closed(cell@), name@, connected(operands@)),
                    )
                },
                Err(e) => {
                    &&& cell@.inputs.len() != operands@.len()
                    &&& e@ == ErrorView::ArgumentMismatch(
                        cell@.inputs.len() as usize,
                        operands@.len() as usize,
                    )
                    &&& final(self)@ == old(self)@
                },
            },
    {
        let node = self.raw_len();
        match self.raw_insert_gate(&Part::Closed(cell), &name, operands) {
            Ok(_) => {
                proof {
                    let o = part_object(PartView::Closed(cell@), name@, connected(operands@));
                    assert forall|k: int| 0 <= k < o.operands.len() implies ((
                    #[trigger] o.operands[k]) matches Some(d) ==> has_net(old(self)@, d)) by {
                        assert(has_net(old(self)@, operands@[k]));
                    }
                    lemma_object_added(old(self)@, o);
                }
                Ok(node)
            },
            Err(e) => Err(e),
        }
    }

    /// Adds an instance of the cell that stands for a constant, and returns
    /// its net. There has to be such a cell.
    pub fn insert_constant(&mut self, value: LogicValue, name: Ident) -> (r: Result<
        DrivenNet,
        NetlistError,
    >)
        requires
            netlist_ok(old(self)@),
        ensures
            netlist_ok(final(self)@),
            forall|d: DrivenNet| has_net(old(self)@, d) ==> #[trigger] has_net(final(self)@, d),
            match r {
                Ok(net) => {
                    &&& constant_cell(value) is Some
                    &&& net.node == old(self)@.objects.len()
                    &&& net.pos == 0
                    &&& has_net(final(self)@, net)
                    &&& final(self)@ == with_object(
                        old(self)@,
                        gate_object(
                            constant_cell(value)->0,
                            name@,
                            disconnected((constant_cell(value)->0).inputs.len()),
                        ),
                    )
                },
                Err(e) => {
                    &&& constant_cell(value) is None
                    &&& e@ == ErrorView::InstantiableError(
                        "Instantiable type does not support constant value "@ + level_text(value),
                    )
                    &&& final(self)@ == old(self)@
                },
            },
    {
        let node = self.raw_len();
        match self.raw_insert_constant(value, &name) {
            Ok(_) => {
                proof {
                    let cell = constant_cell(value)->0;
                    lemma_object_added(
                        old(self)@,
                        gate_object(cell, name@, disconnected(cell.inputs.len())),
                    );
                }
                Ok(DrivenNet { node, pos: 0 })
            },
            Err(e) => Err(e),
        }
    }

    /// Makes `net` the operand on input port `input` of instance `node`.
    pub fn connect(&mut self, net: DrivenNet, node: usize, input: usize)
        requires
            netlist_ok(old(self)@),
            has_net(old(self)@, net),
            node < old(self)@.objects.len(),
            input < old(self)@.objects[node as int].operands.len(),
        ensures
            netlist_ok(final(self)@),
            final(self)@ == with_operand(old(self)@, node, input, net),
            forall|d: DrivenNet| #[trigger] has_net(final(self)@, d) == has_net(old(self)@, d),
    {
        proof {
            assert(object_ok(old(self)@.objects[node as int]));
            lemma_operand_set(old(self)@, node, input, net);
        }
        self.raw_connect(net, node, input);
    }

    /// Makes `net` an output of the netlist, under one more name.
    pub fn expose_with_name(&mut self, net: DrivenNet, name: Ident)
        requires
            netlist_ok(old(self)@),
            has_net(old(self)@, net),
        ensures
            netlist_ok(final(self)@),
            final(self)@ == exposed(old(self)@, net, name@),
            forall|d: DrivenNet| #[trigger] has_net(final(self)@, d) == has_net(old(self)@, d),
    {
        self.raw_expose(net, &name);
        proof {
            assert forall|i: int, k: int|
                0 <= i < self@.objects.len() && 0 <= k < self@.objects[i].operands.len() implies ((
            #[trigger] self@.objects[i].operands[k]) matches Some(e) ==> has_net(old(self)@, e)) by {
                if self@.objects[i].operands[k] is Some {
                    lemma_operand(old(self)@, i, k);
                }
            }
            lemma_shape_kept(old(self)@, self@);
        }
    }

    /// The wires that object `node` drives.
    pub fn wires(&self, node: usize) -> (r: Vec<Wire>)
        requires
            node < self@.objects.len(),
        ensures
            wire_views(r@) == self@.objects[node as int].wires,
    {
        self.raw_nets(node)
    }

    /// Whether `net` is one of the netlist.
    pub fn has(&self, net: DrivenNet) -> (r: bool)
        ensures
            r == has_net(self@, net),
    {
        if net.node >= self.raw_len() {
            return false;
        }
        let wires = self.raw_nets(net.node);
        assert(wires@.len() == wire_views(wires@).len());
        net.pos < wires.len()
    }

    /// The wire of a net.
    pub fn wire(&self, net: DrivenNet) -> (r: Wire)
        requires
            has_net(self@, net),
        ensures
            r@ == wire_of(self@, net),
    {
        let wires = self.raw_nets(net.node);
        assert(wires@.len() == wire_views(wires@).len());
        wires[net.pos].clone()
    }

    /// The primitive cell of instance `node`. Other objects have none.
    pub fn cell(&self, node: usize) -> (r: Option<PrimitiveCell>)
        requires
            node < self@.objects.len(),
        ensures
            match (self@.objects[node as int].kind, r) {
                (ObjectKind::Instance(_, cell), Some(c)) => c@ == cell,
                (ObjectKind::Instance(_, _), None) => false,
                (_, r) => r is None,
            },
    {
        match self.raw_part(node) {
            Some(Part::Gate(cell)) => Some(cell),
            _ => None,
        }
    }

    /// The cell of instance `node` of which only the ports are known. Other
    /// objects have none.
    pub fn black_box(&self, node: usize) -> (r: Option<BlackBox>)
        requires
            node < self@.objects.len(),
        ensures
            match (self@.objects[node as int].kind, r) {
                (ObjectKind::Closed(_, cell), Some(c)) => c@ == cell,
                (ObjectKind::Closed(_, _), None) => false,
                (_, r) => r is None,
            },
    {
        match self.raw_part(node) {
            Some(Part::Closed(cell)) => Some(cell),
            _ => None,
        }
    }

    /// The name of instance `node`. An input has none.
    pub fn instance_name(&self, node: usize) -> (r: Option<Ident>)
        requires
            node < self@.objects.len(),
        ensures
            match (instance_id(self@.objects[node as int].kind), r) {
                (Some(name), Some(id)) => id@ == name,
                (None, None) => true,
                _ => false,
            },
    {
        self.raw_instance_name(node)
    }

    /// The nets that drive object `node`, one for each input port, where it
    /// is connected.
    pub fn drivers(&self, node: usize) -> (r: Vec<Option<DrivenNet>>)
        requires
            netlist_ok(self@),
            node < self@.objects.len(),
        ensures
            r@ == self@.objects[node as int].operands,
    {
        self.raw_drivers(node)
    }

    /// Whether a net is driven by an input of the netlist.
    pub fn is_an_input(&self, net: DrivenNet) -> (r: bool)
        requires
            net.node < self@.objects.len(),
        ensures
            r == self@.objects[net.node as int].kind is Input,
    {
        self.raw_part(net.node).is_none()
    }

    /// Whether object `node` drives more than one net.
    pub fn is_multi_output(&self, node: usize) -> (r: bool)
        requires
            node < self@.objects.len(),
        ensures
            r == (self@.objects[node as int].wires.len() > 1),
    {
        let wires = self.raw_nets(node);
        assert(wires@.len() == wire_views(wires@).len());
        wires.len() > 1
    }

    /// Whether a net is an output of the netlist.
    pub fn is_top_level_output(&self, net: DrivenNet) -> (r: bool)
        requires
            has_net(self@, net),
        ensures
            r == self@.outputs.contains_key(net),
    {
        self.raw_is_output(net)
    }

    /// The nets that are outputs, each with each of its names outside, in no
    /// particular order.
    pub fn outputs(&self) -> (r: Vec<(DrivenNet, Wire)>)
        requires
            netlist_ok(self@),
        ensures
            forall|i: int|
                0 <= i < r@.len() ==> aliases(self@, (#[trigger] r@[i]).0).contains(r@[i].1@),
            forall|d: DrivenNet, w: WireView| #[trigger]
                aliases(self@, d).contains(w) ==> exists|i: int|
                    0 <= i < r@.len() && (#[trigger] r@[i]).0 == d && r@[i].1@ == w,
            forall|i: int, j: int|
                0 <= i < j < r@.len() ==> ((#[trigger] r@[i]).0, r@[i].1@) != ((
                #[trigger] r@[j]).0, r@[j].1@),
    {
        self.raw_outputs()
    }

    /// Sets the wire of a net.
    pub fn set_wire(&mut self, net: DrivenNet, wire: Wire)
        requires
            netlist_ok(old(self)@),
            has_net(old(self)@, net),
        ensures
            netlist_ok(final(self)@),
            final(self)@ == with_wire(old(self)@, net, wire@),
            forall|d: DrivenNet| #[trigger] has_net(final(self)@, d) == has_net(old(self)@, d),
    {
        proof {
            lemma_wire_set(old(self)@, net, wire@);
        }
        self.raw_set_wire(net, &wire);
    }

    /// The objects behind object `from`, starting with it, each with whether
    /// a cycle was met by then.
    pub fn dfs(&self, from: usize) -> (r: Vec<(usize, bool)>)
        requires
            netlist_ok(self@),
            from < self@.objects.len(),
        ensures
            r@ == dfs_visits(self@, from),
            visits_ok(self@, from, r@),
    {
        self.raw_dfs(from)
    }

    /// Replaces all uses of `of` by `held[with]`, while the nets in `held`
    /// are held on to.
    pub fn replace_net_uses(&mut self, of: DrivenNet, held: &Vec<DrivenNet>, with: usize) -> (r:
        Result<(), NetlistError>)
        requires
            netlist_ok(old(self)@),
            has_net(old(self)@, of),
            has_nets(old(self)@, held@),
            with < held@.len(),
        ensures
            netlist_ok(final(self)@),
            forall|d: DrivenNet| #[trigger] has_net(final(self)@, d) == has_net(old(self)@, d),
            match (replace_outcome(old(self)@, of, held@, with as int), r) {
                (Ok(v), Ok(_)) => final(self)@ == v,
                (Err(e), Err(err)) => err@ == e && final(self)@ == old(self)@,
                _ => false,
            },
    {
        proof {
            assert(has_net(old(self)@, held@[with as int]));
            lemma_rewired(old(self)@, of, held@[with as int]);
        }
        self.raw_replace(of, held, with)
    }

    /// Takes out all instances that nothing uses, while the nets in `held`
    /// are held on to, and sets those to where they are then.
    pub fn clean(&mut self, held: &mut Vec<DrivenNet>) -> (r: Result<(), NetlistError>)
        requires
            netlist_ok(old(self)@),
            has_nets(old(self)@, old(held)@),
        ensures
            netlist_ok(final(self)@),
            has_nets(final(self)@, final(held)@),
            (final(self)@, final(held)@) == clean_outcome(old(self)@, old(held)@),
            exists|keep: Seq<usize>| #[trigger]
                pruned(old(self)@, final(self)@, keep) && same_nets(old(held)@, final(held)@, keep)
                    && (r is Ok ==> keeps_what_lasts(old(self)@, keep)),
            clean_result(old(self)@, old(held)@, r),
            !(r is Ok || r matches Err(NetlistError::DanglingReference(_))) ==> final(self)@ == old(
                self,
            )@,
    {
        let r = self.raw_clean(held);
        proof {
            let keep = choose|keep: Seq<usize>| #[trigger]
                pruned(old(self)@, self@, keep) && same_nets(old(held)@, held@, keep) && (r is Ok
                    ==> keeps_what_lasts(old(self)@, keep));
            lemma_pruned(old(self)@, self@, keep);
            assert forall|i: int| 0 <= i < held@.len() implies has_net(self@, #[trigger] held@[i]) by {
                assert(has_net(old(self)@, old(held)@[i]));
                assert(same_operand(Some(old(held)@[i]), Some(held@[i]), keep));
            }
        }
        r
    }
}

} // verus!
