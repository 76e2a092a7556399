//! From nets of a netlist to the expressions of the logic behind them.

use crate::cell::PrimitiveCell;
use crate::error::NetlistError;
use crate::func::{AddProgram, LogicFunc};
use crate::lang::{CircuitLang, Id, NodeView, RecExpr};
use crate::mapping::{LogicMapping, MappingView};
use crate::netlist::{
    driven_by, has_net, has_nets, lemma_operand, linked, netlist_ok, reaches, walk, wire_of,
    DrivenNet, Netlist, NetlistView, ObjectKind,
};
use crate::order::{
    any_cyclic, behind, first_net, fork, forked, law_forked_nets_have_no_order,
    law_longer_cycles_are_tangled, law_order_is_unique, law_tangled_nets_have_no_order,
    lemma_driver_has_net, lemma_drives_itself, lemma_first_net, lemma_reaches_last,
    lemma_tangled_is_cyclic, order_ok, order_view, sort, sorts_to, tangled, OrderError,
};
use crate::reading::{
    all_readable, cycle_text, filled, func_of, is_order_readable, lemma_ids_read, mapped,
    missing_text, nets_read, program_of, programmed, read_order, readable, BuildState,
};
use vstd::prelude::*;

verus! {

/// What is said of an object that drives more than one net.
pub open spec fn multi_text() -> Seq<char> {
    "Cannot map multi-output cells"@
}

/// What is said of an input as a root.
pub open spec fn trivial_text() -> Seq<char> {
    "Inputs have trivial mappings"@
}

/// What mapping `nets` comes to: the nets behind them are put in order and
/// read. It fails if they cannot be put in order, for a cycle or an object
/// that drives several nets and another object.
pub open spec fn maps_to<L: CircuitLang>(
    v: NetlistView,
    nets: Seq<DrivenNet>,
    r: Result<MappingView, Seq<char>>,
) -> bool where PrimitiveCell: LogicFunc<L> + AddProgram<L> {
    ||| {
        &&& r == Err::<MappingView, Seq<char>>(cycle_text())
        &&& sorts_to(v, nets, Err(OrderError::Cycle))
        &&& tangled(v, nets)
    }
    ||| {
        &&& r == Err::<MappingView, Seq<char>>(multi_text())
        &&& sorts_to(v, nets, Err(OrderError::Multi))
        &&& forked(v, nets)
    }
    ||| exists|order: Seq<DrivenNet>| #[trigger]
        sorts_to(v, nets, Ok(order)) && order_ok(v, nets, order) && r == mapped::<L>(v, nets, order)
}

/// Whether the mapping of `nets`, with the expression `expr`, is added to the
/// mappings.
pub open spec fn inserted<L: CircuitLang>(
    v: NetlistView,
    nets: Seq<DrivenNet>,
    before: Seq<MappingView>,
    after: Seq<MappingView>,
    expr: Seq<NodeView>,
) -> bool where PrimitiveCell: LogicFunc<L> + AddProgram<L> {
    exists|m: MappingView|
        {
            &&& maps_to::<L>(v, nets, Ok::<MappingView, Seq<char>>(m))
            &&& expr == m.nodes
            &&& after == #[trigger] before.push(m)
        }
}

/// Mapping the same nets of the same netlist comes to the same.
pub proof fn law_mapping_is_unique<L: CircuitLang>(
    v: NetlistView,
    nets: Seq<DrivenNet>,
    a: Result<MappingView, Seq<char>>,
    b: Result<MappingView, Seq<char>>,
) where PrimitiveCell: LogicFunc<L> + AddProgram<L>
    requires
        maps_to::<L>(v, nets, a),
        maps_to::<L>(v, nets, b),
    ensures
        a == b,
{
    let x = lemma_sorted::<L>(v, nets, a);
    let y = lemma_sorted::<L>(v, nets, b);
    law_order_is_unique(v, nets, x, y);
}

/// The ordering behind a mapping.
proof fn lemma_sorted<L: CircuitLang>(
    v: NetlistView,
    nets: Seq<DrivenNet>,
    r: Result<MappingView, Seq<char>>,
) -> (o: Result<Seq<DrivenNet>, OrderError>) where PrimitiveCell: LogicFunc<L> + AddProgram<L>
    requires
        maps_to::<L>(v, nets, r),
    ensures
        sorts_to(v, nets, o),
        r == match o {
            Ok(order) => mapped::<L>(v, nets, order),
            Err(OrderError::Cycle) => Err(cycle_text()),
            Err(OrderError::Multi) => Err(multi_text()),
        },
{
    if r == Err::<MappingView, Seq<char>>(cycle_text()) && sorts_to(
        v,
        nets,
        Err(OrderError::Cycle),
    ) {
        Err(OrderError::Cycle)
    } else if r == Err::<MappingView, Seq<char>>(multi_text()) && sorts_to(
        v,
        nets,
        Err(OrderError::Multi),
    ) {
        Err(OrderError::Multi)
    } else {
        let order = choose|order: Seq<DrivenNet>| #[trigger]
            sorts_to(v, nets, Ok(order)) && order_ok(v, nets, order) && r == mapped::<L>(
                v,
                nets,
                order,
            );
        Ok(order)
    }
}

/// Nets behind which there is no cycle, but an object other than that of the
/// net, with several outputs, are answered with the error for those. It makes
/// no difference which input ports are connected.
pub proof fn law_several_outputs_are_refused<L: CircuitLang>(
    v: NetlistView,
    nets: Seq<DrivenNet>,
    i: int,
    m: usize,
    r: Result<MappingView, Seq<char>>,
) where PrimitiveCell: LogicFunc<L> + AddProgram<L>
    requires
        netlist_ok(v),
        0 <= i < nets.len(),
        reaches(v, nets[i].node, m),
        m != nets[i].node,
        v.objects[m as int].wires.len() > 1,
        !tangled(v, nets),
        maps_to::<L>(v, nets, r),
    ensures
        r == Err::<MappingView, Seq<char>>(multi_text()),
{
    let a = nets[i].node;
    let p = choose|p: Seq<usize>| #[trigger] walk(v, p) && p.first() == a && p.last() == m;
    let n = lemma_reaches_last(v, a, p);
    assert(behind(v, nets, n)) by {
        assert(reaches(v, nets[i].node, n));
    }
    assert(fork(v, nets, n, m));
    if r != Err::<MappingView, Seq<char>>(multi_text()) {
        let order = choose|order: Seq<DrivenNet>| #[trigger]
            sorts_to(v, nets, Ok(order)) && order_ok(v, nets, order) && r == mapped::<L>(
                v,
                nets,
                order,
            );
        law_forked_nets_have_no_order(v, nets, order);
    }
}

/// Nets behind which a cycle leads through two or more objects are answered
/// with the error for a cycle, unless an object with several outputs drives
/// another one there. Then it may be the error for that.
pub proof fn law_longer_cycles_are_refused<L: CircuitLang>(
    v: NetlistView,
    nets: Seq<DrivenNet>,
    a: usize,
    b: usize,
    r: Result<MappingView, Seq<char>>,
) where PrimitiveCell: LogicFunc<L> + AddProgram<L>
    requires
        netlist_ok(v),
        behind(v, nets, a),
        reaches(v, a, b),
        reaches(v, b, a),
        a != b,
        maps_to::<L>(v, nets, r),
    ensures
        r == Err::<MappingView, Seq<char>>(cycle_text()) || (forked(v, nets) && r == Err::<
            MappingView,
            Seq<char>,
        >(multi_text())),
{
    law_longer_cycles_are_tangled(v, nets, a, b);
    if r != Err::<MappingView, Seq<char>>(cycle_text()) && !(forked(v, nets) && r == Err::<
        MappingView,
        Seq<char>,
    >(multi_text())) {
        let order = choose|order: Seq<DrivenNet>| #[trigger]
            sorts_to(v, nets, Ok(order)) && order_ok(v, nets, order) && r == mapped::<L>(
                v,
                nets,
                order,
            );
        law_tangled_nets_have_no_order(v, nets, order);
    }
}

/// Mapping fails only for a cycle behind the nets, for an object with several
/// outputs that drives another there, or for an input port behind them that is
/// not connected. So nets without any of those are mapped.
pub proof fn law_mapping_fails_for_a_reason<L: CircuitLang>(
    v: NetlistView,
    nets: Seq<DrivenNet>,
    e: Seq<char>,
) where PrimitiveCell: LogicFunc<L> + AddProgram<L>
    requires
        netlist_ok(v),
        has_nets(v, nets),
        maps_to::<L>(v, nets, Err(e)),
    ensures
        unmapped_for::<L>(v, nets, e),
{
    if e == cycle_text() && tangled(v, nets) {
        lemma_tangled_is_cyclic(v, nets);
    } else if !(e == multi_text() && forked(v, nets)) {
        let order = lemma_order_of::<L>(v, nets, e);
        assert(order.take(order.len() as int) =~= order);
        lemma_read_fails::<L>(v, nets, order, order.len() as int, e);
    }
}

/// The order behind a mapping that did not fail before there was one.
proof fn lemma_order_of<L: CircuitLang>(
    v: NetlistView,
    nets: Seq<DrivenNet>,
    e: Seq<char>,
) -> (order: Seq<DrivenNet>) where PrimitiveCell: LogicFunc<L> + AddProgram<L>
    requires
        maps_to::<L>(v, nets, Err(e)),
        !(e == cycle_text() && tangled(v, nets)),
        !(e == multi_text() && forked(v, nets)),
    ensures
        order_ok(v, nets, order),
        nets_read::<L>(v, order) == Err::<BuildState, Seq<char>>(e),
{
    choose|order: Seq<DrivenNet>| #[trigger]
        sorts_to(v, nets, Ok(order)) && order_ok(v, nets, order) && Err::<
            MappingView,
            Seq<char>,
        >(e) == mapped::<L>(v, nets, order)
}

/// Why nets were not mapped, where `e` says so.
pub open spec fn unmapped_for<L: CircuitLang>(
    v: NetlistView,
    nets: Seq<DrivenNet>,
    e: Seq<char>,
) -> bool where PrimitiveCell: LogicFunc<L> {
    ||| e == cycle_text() && any_cyclic(v, nets)
    ||| e == multi_text() && forked(v, nets)
    ||| exists|n: usize, k: int| #[trigger]
        unconnected::<L>(v, n, k) && behind(v, nets, n) && e == missing_text(
            k as nat,
            wire_of(v, first_net(n)).id,
        )
}

/// Whether input port `k` of object `n`, which has a function, is not
/// connected.
pub open spec fn unconnected<L: CircuitLang>(v: NetlistView, n: usize, k: int) -> bool where
    PrimitiveCell: LogicFunc<L>,
 {
    &&& func_of::<L>(v, first_net(n)) is Some
    &&& 0 <= k < v.objects[n as int].operands.len()
    &&& v.objects[n as int].operands[k] is None
}

/// What is behind nets is in the netlist.
pub proof fn law_what_is_behind_is_in_the_netlist(v: NetlistView, nets: Seq<DrivenNet>, n: usize)
    requires
        netlist_ok(v),
        behind(v, nets, n),
    ensures
        n < v.objects.len(),
        has_nets(v, nets) ==> has_net(v, first_net(n)),
{
    let i = choose|i: int| 0 <= i < nets.len() && reaches(v, (#[trigger] nets[i]).node, n);
    let p = choose|p: Seq<usize>| #[trigger]
        walk(v, p) && p.first() == nets[i].node && p.last() == n;
    assert(p[p.len() - 1] == n);
    if has_nets(v, nets) {
        if p.len() == 1 {
            assert(has_net(v, nets[i]));
        } else {
            assert(linked(v, p, p.len() - 1));
            lemma_driver_has_net(v, p[p.len() - 2], n);
        }
    }
}

/// Whether `nets` can be mapped or refused: where they can be put in order,
/// every net in it can be read, up to the first whose reading fails.
pub open spec fn can_map<L: CircuitLang>(v: NetlistView, nets: Seq<DrivenNet>) -> bool where
    PrimitiveCell: LogicFunc<L> + AddProgram<L>,
 {
    forall|order: Seq<DrivenNet>| #[trigger]
        sorts_to(v, nets, Ok(order)) && order_ok(v, nets, order) ==> all_readable::<L>(v, order)
}

/// Nets can be mapped or refused where the first net of every object behind
/// them can be read.
pub proof fn law_readable_nets_can_be_mapped<L: CircuitLang>(v: NetlistView, nets: Seq<DrivenNet>) where
    PrimitiveCell: LogicFunc<L> + AddProgram<L>,

    requires
        netlist_ok(v),
        forall|n: usize| #[trigger] behind(v, nets, n) ==> readable::<L>(v, first_net(n)),
    ensures
        can_map::<L>(v, nets),
{
    assert forall|order: Seq<DrivenNet>| #[trigger]
        sorts_to(v, nets, Ok(order)) && order_ok(v, nets, order) implies all_readable::<L>(
        v,
        order,
    ) by {
        assert forall|i: int|
            0 <= i < order.len() && nets_read::<L>(v, order.take(i)) is Ok implies readable::<L>(
            v,
            #[trigger] order[i],
        ) by {
            assert(has_net(v, order[i]) && behind(v, nets, order[i].node));
            lemma_first_net(v, order[i]);
        }
    }
}

/// Where the children of a node cannot be filled in, an operand is missing
/// or was not read.
proof fn lemma_fill_fails(
    v: NetlistView,
    net: DrivenNet,
    ids: Map<DrivenNet, Id>,
    args: Seq<Id>,
    shift: int,
    i: int,
) -> (k: int)
    requires
        0 <= i,
        filled(v, net, ids, args, shift, i) is Err,
    ensures
        i <= k < v.objects[net.node as int].operands.len(),
        match v.objects[net.node as int].operands[k] {
            None => filled(v, net, ids, args, shift, i) == Err::<Seq<Id>, Seq<char>>(
                missing_text(k as nat, wire_of(v, net).id),
            ),
            Some(d) => !ids.contains_key(d) && filled(v, net, ids, args, shift, i) == Err::<
                Seq<Id>,
                Seq<char>,
            >(cycle_text()),
        },
    decreases v.objects[net.node as int].operands.len() - i,
{
    match v.objects[net.node as int].operands[i] {
        Some(d) => if ids.contains_key(d) {
            lemma_fill_fails(v, net, ids, args.update(i + shift, ids[d]), shift, i + 1)
        } else {
            i
        },
        None => i,
    }
}

/// Reading the first nets of an order fails only for such a reason.
proof fn lemma_read_fails<L: CircuitLang>(
    v: NetlistView,
    nets: Seq<DrivenNet>,
    order: Seq<DrivenNet>,
    i: int,
    e: Seq<char>,
) where PrimitiveCell: LogicFunc<L> + AddProgram<L>
    requires
        netlist_ok(v),
        order_ok(v, nets, order),
        0 <= i <= order.len(),
        nets_read::<L>(v, order.take(i)) == Err::<BuildState, Seq<char>>(e),
    ensures
        unmapped_for::<L>(v, nets, e),
    decreases i,
{
    let now = order.take(i);
    assert(i > 0);
    assert(now.drop_last() =~= order.take(i - 1));
    if nets_read::<L>(v, order.take(i - 1)) is Err {
        lemma_read_fails::<L>(v, nets, order, i - 1, e);
    } else {
        let s = nets_read::<L>(v, order.take(i - 1))->Ok_0;
        let net = order[i - 1];
        assert(now.last() == net);
        assert(has_net(v, order[i - 1]) && behind(v, nets, order[i - 1].node));
        lemma_first_net(v, net);
        lemma_ids_read::<L>(v, order.take(i - 1));
        if let (ObjectKind::Instance(_, cell), Some(func)) = (
            v.objects[net.node as int].kind,
            func_of::<L>(v, net),
        ) {
            let args = match program_of::<L>(cell) {
                Some(_) => func.args.update(0, s.nodes.len() as usize),
                None => func.args,
            };
            let shift = if programmed(cell) {
                1int
            } else {
                0int
            };
            let k = lemma_fill_fails(v, net, s.ids, args, shift, 0);
            match v.objects[net.node as int].operands[k] {
                None => {
                    assert(unconnected::<L>(v, net.node, k));
                },
                Some(d) => {
                    lemma_operand(v, net.node as int, k);
                    lemma_first_net(v, d);
                    assert(driven_by(v, net.node, d.node));
                    if d.node != net.node {
                        assert(driven_by(v, order[i - 1].node, d.node));
                        assert(order.take(i - 1).contains(first_net(d.node)));
                    }
                    lemma_drives_itself(v, nets, net.node);
                },
            }
        }
    }
}

/// Extracts the logic equation from a portion of a netlist.
pub struct LogicMapper<'a, L: CircuitLang> {
    netlist: &'a Netlist,
    mappings: Vec<LogicMapping<L>>,
}

/// What mappings stand for.
pub open spec fn mapping_views<L: CircuitLang>(mappings: Seq<LogicMapping<L>>) -> Seq<MappingView> {
    mappings.map_values(|m: LogicMapping<L>| m@)
}

impl<'a, L: CircuitLang> LogicMapper<'a, L> {
    /// The netlist whose nets are mapped.
    pub closed spec fn source(self) -> NetlistView {
        self.netlist@
    }

    /// The mappings so far.
    pub closed spec fn all(self) -> Seq<MappingView> {
        mapping_views(self.mappings@)
    }

    /// A mapper for a netlist. It has no mappings yet.
    pub fn build(netlist: &'a Netlist) -> (r: Result<LogicMapper<'a, L>, NetlistError>)
        ensures
            r matches Ok(mapper) && mapper.source() == netlist@ && mapper.all() == Seq::<
                MappingView,
            >::empty(),
    {
        let mappings: Vec<LogicMapping<L>> = Vec::new();
        assert(mapping_views(mappings@) =~= Seq::<MappingView>::empty());
        Ok(LogicMapper { netlist, mappings })
    }

    /// The mappings, in the order in which they were made.
    pub fn mappings(self) -> (r: Vec<LogicMapping<L>>)
        ensures
            mapping_views(r@) == self.all(),
    {
        self.mappings
    }
}

impl<'a, L: CircuitLang> LogicMapper<'a, L> where PrimitiveCell: LogicFunc<L> + AddProgram<L> {
    /// Whether `nets` can be mapped or refused.
    pub fn can_insert(&self, nets: &Vec<DrivenNet>) -> (r: bool)
        requires
            netlist_ok(self.source()),
            has_nets(self.source(), nets@),
        ensures
            r == can_map::<L>(self.source(), nets@),
    {
        let ghost v = self.netlist@;
        match sort(self.netlist, nets) {
            Ok(order) => {
                let r = is_order_readable::<L>(self.netlist, &order);
                proof {
                    assert forall|other: Seq<DrivenNet>| #[trigger]
                        sorts_to(v, nets@, Ok(other)) implies other == order@ by {
                        law_order_is_unique(v, nets@, Ok(other), Ok(order@));
                    }
                }
                r
            },
            Err(e) => {
                proof {
                    assert forall|other: Seq<DrivenNet>| !(#[trigger] sorts_to(
                        v,
                        nets@,
                        Ok(other),
                    )) by {
                        if sorts_to(v, nets@, Ok(other)) {
                            law_order_is_unique(v, nets@, Ok(other), Err(e));
                        }
                    }
                }
                true
            },
        }
    }

    /// Maps `nets` as [`LogicMapper::insert`] does, unless a net behind them
    /// cannot be read.
    pub fn try_insert(&mut self, nets: Vec<DrivenNet>) -> (r: Option<Result<RecExpr<L>, String>>)
        requires
            netlist_ok(old(self).source()),
            has_nets(old(self).source(), nets@),
        ensures
            final(self).source() == old(self).source(),
            r is Some <==> can_map::<L>(old(self).source(), nets@),
            match r {
                Some(Ok(expr)) => inserted::<L>(
                    old(self).source(),
                    nets@,
                    old(self).all(),
                    final(self).all(),
                    expr@,
                ),
                Some(Err(e)) => maps_to::<L>(
                    old(self).source(),
                    nets@,
                    Err::<MappingView, Seq<char>>(e@),
                ) && final(self).all() == old(self).all(),
                None => final(self).all() == old(self).all(),
            },
    {
        if self.can_insert(&nets) {
            Some(self.insert(nets))
        } else {
            None
        }
    }

    /// Maps `nets`, and returns the expression of the logic behind them.
    /// There is one mapping more, unless the nets cannot be mapped.
    pub fn insert(&mut self, nets: Vec<DrivenNet>) -> (r: Result<RecExpr<L>, String>)
        requires
            netlist_ok(old(self).source()),
            has_nets(old(self).source(), nets@),
            can_map::<L>(old(self).source(), nets@),
        ensures
            final(self).source() == old(self).source(),
            match r {
                Ok(expr) => inserted::<L>(
                    old(self).source(),
                    nets@,
                    old(self).all(),
                    final(self).all(),
                    expr@,
                ),
                Err(e) => maps_to::<L>(
                    old(self).source(),
                    nets@,
                    Err::<MappingView, Seq<char>>(e@),
                ) && final(self).all() == old(self).all(),
            },
            r matches Ok(expr) ==> {
                &&& final(self).all().len() == old(self).all().len() + 1
                &&& final(self).all().drop_last() == old(self).all()
                &&& final(self).all().last().nodes == expr@
                &&& final(self).all().last().roots == nets@
            },
            sorts_to(old(self).source(), nets@, Err(OrderError::Cycle)) ==> (r matches Err(e) && e@
                == "Cycle detected in netlist"@),
            sorts_to(old(self).source(), nets@, Err(OrderError::Multi)) ==> (r matches Err(e) && e@
                == "Cannot map multi-output cells"@),
    {
        let ghost v = self.netlist@;
        let ghost roots = nets@;
        let sorted = sort(self.netlist, &nets);
        proof {
            if sorts_to(v, roots, Err(OrderError::Cycle)) {
                law_order_is_unique(v, roots, Err(OrderError::Cycle), order_view(sorted));
            }
            if sorts_to(v, roots, Err(OrderError::Multi)) {
                law_order_is_unique(v, roots, Err(OrderError::Multi), order_view(sorted));
            }
        }
        let order = match sorted {
            Ok(order) => order,
            Err(OrderError::Cycle) => {
                return Err("Cycle detected in netlist".to_owned());
            },
            Err(OrderError::Multi) => {
                return Err("Cannot map multi-output cells".to_owned());
            },
        };
        match read_order::<L>(self.netlist, nets, &order) {
            Ok(m) => {
                let expr = m.get_expr();
                self.mappings.push(m);
                proof {
                    assert(mapping_views(self.mappings@) =~= old(self).all().push(m@));
                    assert(self.all().drop_last() =~= old(self).all());
                }
                Ok(expr)
            },
            Err(e) => Err(e),
        }
    }

    /// Maps one net that is not an input.
    pub fn insert_single_net(&mut self, net: DrivenNet) -> (r: Result<RecExpr<L>, String>)
        requires
            netlist_ok(old(self).source()),
            has_net(old(self).source(), net),
            !(old(self).source().objects[net.node as int].kind is Input) ==> can_map::<L>(
                old(self).source(),
                seq![net],
            ),
        ensures
            final(self).source() == old(self).source(),
            match r {
                Ok(expr) => !(old(self).source().objects[net.node as int].kind is Input)
                    && inserted::<L>(
                    old(self).source(),
                    seq![net],
                    old(self).all(),
                    final(self).all(),
                    expr@,
                ),
                Err(e) => final(self).all() == old(self).all() && if old(
                    self,
                ).source().objects[net.node as int].kind is Input {
                    e@ == trivial_text()
                } else {
                    maps_to::<L>(
                        old(self).source(),
                        seq![net],
                        Err::<MappingView, Seq<char>>(e@),
                    )
                },
            },
            old(self).source().objects[net.node as int].kind is Input ==> (r matches Err(e) && e@
                == "Inputs have trivial mappings"@),
            r matches Ok(expr) ==> {
                &&& final(self).all().len() == old(self).all().len() + 1
                &&& final(self).all().drop_last() == old(self).all()
                &&& final(self).all().last().nodes == expr@
                &&& final(self).all().last().roots == seq![net]
            },
    {
        if self.netlist.is_an_input(net) {
            return Err("Inputs have trivial mappings".to_owned());
        }
        let nets: Vec<DrivenNet> = vec![net];
        assert(nets@ =~= seq![net]);
        self.insert(nets)
    }
}

} // verus!
