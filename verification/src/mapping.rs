//! Mappings: expressions of logic, with the nets that their roots and
//! leaves are.

use crate::lang::{dag, roots_of, CircuitLang, Id, NodeView, Op, RecExpr};
use crate::leaves::{is_listed, LeafTable};
use crate::netlist::DrivenNet;
use crate::order::copy_nets;
use std::collections::HashMap;
use vstd::prelude::*;

verus! {

/// What a mapping stands for.
#[verifier::ext_equal]
pub struct MappingView {
    pub nodes: Seq<NodeView>,
    pub roots: Seq<DrivenNet>,
    pub leaves: Map<Seq<char>, DrivenNet>,
    pub leaves_by_id: Map<Id, DrivenNet>,
}

/// Whether a mapping is well formed: its expression is, every leaf has a
/// net, those at the places of leaves are by place too, and there are as
/// many roots of the expression as nets for them.
pub open spec fn mapping_ok(m: MappingView) -> bool {
    &&& dag(m.nodes)
    &&& forall|i: int|
        0 <= i < m.nodes.len() ==> ((#[trigger] m.nodes[i]).op matches Op::Var(sym)
            ==> m.leaves.contains_key(sym))
    &&& forall|id: Id| #[trigger]
        m.leaves_by_id.contains_key(id) <==> id < m.nodes.len() && m.nodes[id as int].op is Var
    &&& m.nodes.len() > 0 ==> roots_of(m.nodes).len() == m.roots.len()
}

/// The nets of the leaves of an expression, by place.
pub open spec fn leaves_at(nodes: Seq<NodeView>, leaves: Map<Seq<char>, DrivenNet>) -> Map<
    Id,
    DrivenNet,
> {
    Map::new(
        |id: Id| id < nodes.len() && nodes[id as int].op is Var,
        |id: Id| leaves[nodes[id as int].op->Var_0],
    )
}

/// The nets of leaves by place are those by the names that the leaves have. So
/// leaves of one name have one net, wherever they are.
pub proof fn law_leaves_by_place_are_those_by_name(
    nodes: Seq<NodeView>,
    leaves: Map<Seq<char>, DrivenNet>,
    id: Id,
    sym: Seq<char>,
)
    requires
        id < nodes.len(),
        nodes[id as int].op == Op::Var(sym),
    ensures
        leaves_at(nodes, leaves).contains_key(id),
        leaves_at(nodes, leaves)[id] == leaves[sym],
{
}

/// Whether a mapping has the net `d`, as a root or as a leaf.
pub open spec fn holds_net(m: MappingView, d: DrivenNet) -> bool {
    ||| m.roots.contains(d)
    ||| exists|sym: Seq<char>| #[trigger] m.leaves.contains_key(sym) && m.leaves[sym] == d
    ||| exists|id: Id| #[trigger] m.leaves_by_id.contains_key(id) && m.leaves_by_id[id] == d
}

/// Where the net `d` is when the nets `from` are at `to`.
pub open spec fn moved_net(d: DrivenNet, from: Seq<DrivenNet>, to: Seq<DrivenNet>) -> DrivenNet {
    to[from.index_of_first(d)->0]
}

/// The mapping with all of its nets moved.
pub open spec fn moved_mapping(
    m: MappingView,
    from: Seq<DrivenNet>,
    to: Seq<DrivenNet>,
) -> MappingView {
    MappingView {
        roots: m.roots.map_values(|d: DrivenNet| moved_net(d, from, to)),
        leaves: m.leaves.map_values(|d: DrivenNet| moved_net(d, from, to)),
        leaves_by_id: m.leaves_by_id.map_values(|d: DrivenNet| moved_net(d, from, to)),
        ..m
    }
}

/// Where `net`, one of `from`, is when those are at `to`.
fn move_net(net: DrivenNet, from: &Vec<DrivenNet>, to: &Vec<DrivenNet>) -> (r: DrivenNet)
    requires
        from@.contains(net),
        from@.len() == to@.len(),
    ensures
        r == moved_net(net, from@, to@),
{
    let n = from.len();
    let mut i: usize = 0;
    while from[i] != net
        invariant
            from@.contains(net),
            from@.len() == to@.len(),
            n == from@.len(),
            i < n,
            forall|j: int| 0 <= j < i ==> from@[j] != net,
        decreases n - i,
    {
        let ghost at = choose|j: int| 0 <= j < from@.len() && from@[j] == net;
        assert(i < at < n);
        i = i + 1;
    }
    proof {
        from@.index_of_first_ensures(net);
    }
    to[i]
}

/// The expression of the logic behind some nets, and the nets that its
/// roots and leaves are.
pub struct LogicMapping<L: CircuitLang> {
    expr: RecExpr<L>,
    roots: Vec<DrivenNet>,
    leaves: LeafTable,
    leaves_by_id: HashMap<Id, DrivenNet>,
}

impl<L: CircuitLang> View for LogicMapping<L> {
    type V = MappingView;

    closed spec fn view(&self) -> MappingView {
        MappingView {
            nodes: self.expr@,
            roots: self.roots@,
            leaves: self.leaves@,
            leaves_by_id: self.leaves_by_id@,
        }
    }
}

impl<L: CircuitLang> LogicMapping<L> {
    #[verifier::type_invariant]
    spec fn well_formed(self) -> bool {
        mapping_ok(self@)
    }

    pub(crate) fn new(
        expr: RecExpr<L>,
        roots: Vec<DrivenNet>,
        leaves: LeafTable,
        leaves_by_id: HashMap<Id, DrivenNet>,
    ) -> (r: LogicMapping<L>)
        requires
            mapping_ok(
                MappingView {
                    nodes: expr@,
                    roots: roots@,
                    leaves: leaves@,
                    leaves_by_id: leaves_by_id@,
                },
            ),
        ensures
            r@ == (MappingView {
                nodes: expr@,
                roots: roots@,
                leaves: leaves@,
                leaves_by_id: leaves_by_id@,
            }),
    {
        LogicMapping { expr, roots, leaves, leaves_by_id }
    }

    /// The expression.
    pub fn get_expr(&self) -> (r: RecExpr<L>)
        ensures
            r@ == self@.nodes,
            mapping_ok(self@),
    {
        proof {
            use_type_invariant(self);
        }
        self.expr.copy()
    }

    /// The number of nodes of the expression.
    pub(crate) fn len(&self) -> (r: usize)
        ensures
            r == self@.nodes.len(),
    {
        self.expr.len()
    }

    /// The node at place `id`.
    pub(crate) fn node(&self, id: Id) -> (r: &L)
        requires
            id < self@.nodes.len(),
        ensures
            r.node() == self@.nodes[id as int],
    {
        self.expr.get(id)
    }

    /// Whether several nets are mapped.
    pub fn is_multi_mapping(&self) -> (r: bool)
        ensures
            r == (self@.roots.len() > 1),
    {
        self.roots.len() > 1
    }

    /// The nets at the roots of the expression.
    pub fn root_nets(&self) -> (r: Vec<DrivenNet>)
        ensures
            r@ == self@.roots,
    {
        copy_nets(&self.roots)
    }

    /// The places of the roots of the expression.
    pub fn root_ids(&self) -> (r: Vec<Id>)
        requires
            self@.nodes.len() > 0,
        ensures
            r@ == roots_of(self@.nodes),
    {
        self.expr.root_ids()
    }

    /// The net that the leaf called `sym` is.
    pub fn get_leaf(&self, sym: &str) -> (r: Option<DrivenNet>)
        ensures
            r == if self@.leaves.contains_key(sym@) {
                Some(self@.leaves[sym@])
            } else {
                None
            },
    {
        self.leaves.get(sym)
    }

    /// The net that the leaf at place `id` is.
    pub fn get_leaf_by_id(&self, id: &Id) -> (r: Option<DrivenNet>)
        ensures
            r == if self@.leaves_by_id.contains_key(*id) {
                Some(self@.leaves_by_id[*id])
            } else {
                None
            },
    {
        broadcast use vstd::std_specs::hash::group_hash_axioms;

        match self.leaves_by_id.get(id) {
            Some(net) => Some(*net),
            None => None,
        }
    }

    /// The mapping with its expression replaced by a rewritten one, which
    /// has as many roots and no leaves that the mapping does not know.
    pub fn with_expr(self, expr: RecExpr<L>) -> (r: LogicMapping<L>)
        requires
            self@.nodes.len() > 0,
            expr@.len() > 0,
            roots_of(expr@).len() == roots_of(self@.nodes).len(),
            forall|i: int|
                0 <= i < expr@.len() ==> ((#[trigger] expr@[i]).op matches Op::Var(sym)
                    ==> self@.leaves.contains_key(sym)),
        ensures
            r@ == (MappingView {
                nodes: expr@,
                leaves_by_id: leaves_at(expr@, self@.leaves),
                ..self@
            }),
            forall|id: Id, sym: Seq<char>|
                id < expr@.len() && (#[trigger] expr@[id as int]).op == Op::Var(sym)
                    ==> r@.leaves_by_id.contains_key(id) && r@.leaves_by_id[id]
                    == #[trigger] r@.leaves[sym] && r@.leaves[sym] == self@.leaves[sym],
    {
        broadcast use vstd::std_specs::hash::group_hash_axioms;

        proof {
            use_type_invariant(&self);
        }
        let n = expr.len();
        let mut leaves_by_id: HashMap<Id, DrivenNet> = HashMap::new();
        for i in 0..n
            invariant
                n == expr@.len(),
                forall|i: int|
                    0 <= i < expr@.len() ==> ((#[trigger] expr@[i]).op matches Op::Var(sym)
                        ==> self@.leaves.contains_key(sym)),
                forall|id: Id| #[trigger]
                    leaves_by_id@.contains_key(id) <==> id < i && expr@[id as int].op is Var,
                forall|id: Id| #[trigger]
                    leaves_by_id@.contains_key(id) ==> leaves_by_id@[id]
                        == self@.leaves[expr@[id as int].op->Var_0],
        {
            broadcast use vstd::std_specs::hash::group_hash_axioms;

            let node = expr.get(i);
            if let Some(sym) = node.get_var() {
                if let Some(net) = self.leaves.get(sym.as_str()) {
                    leaves_by_id.insert(i, net);
                }
            }
        }
        assert(leaves_by_id@ =~= leaves_at(expr@, self@.leaves));
        LogicMapping { expr, leaves_by_id, roots: self.roots, leaves: self.leaves }
    }

    /// All nets of the mapping, roots and leaves.
    pub fn nets(&self) -> (r: Vec<DrivenNet>)
        ensures
            forall|d: DrivenNet| #[trigger] r@.contains(d) <==> holds_net(self@, d),
    {
        broadcast use vstd::std_specs::hash::group_hash_axioms;

        proof {
            use_type_invariant(self);
        }
        let ghost m = self@;
        let mut r = copy_nets(&self.roots);
        let names = self.leaves.names();
        proof {
            lemma_each_held(m, r@);
        }
        for i in 0..names.len()
            invariant
                m == self@,
                m.roots == self.roots@,
                forall|name: Seq<char>| #[trigger]
                    m.leaves.contains_key(name) <==> is_listed(names@, name),
                forall|j: int| 0 <= j < r@.len() ==> holds_net(m, #[trigger] r@[j]),
                forall|d: DrivenNet| m.roots.contains(d) ==> #[trigger] r@.contains(d),
                forall|j: int| 0 <= j < i ==> r@.contains(m.leaves[(#[trigger] names@[j])@]),
        {
            let ghost before = r@;
            assert(is_listed(names@, names@[i as int]@));
            if let Some(net) = self.leaves.get(names[i].as_str()) {
                r.push(net);
                proof {
                    assert(m.leaves.contains_key(names@[i as int]@));
                    lemma_pushed(before, net);
                }
            }
        }
        let n = self.expr.len();
        for i in 0..n
            invariant
                m == self@,
                mapping_ok(m),
                n == m.nodes.len(),
                forall|name: Seq<char>| #[trigger]
                    m.leaves.contains_key(name) <==> is_listed(names@, name),
                forall|j: int| 0 <= j < r@.len() ==> holds_net(m, #[trigger] r@[j]),
                forall|d: DrivenNet| m.roots.contains(d) ==> #[trigger] r@.contains(d),
                forall|j: int|
                    0 <= j < names@.len() ==> r@.contains(m.leaves[(#[trigger] names@[j])@]),
                forall|id: Id| #[trigger]
                    m.leaves_by_id.contains_key(id) && id < i ==> r@.contains(m.leaves_by_id[id]),
        {
            let ghost before = r@;
            if let Some(net) = self.get_leaf_by_id(&i) {
                r.push(net);
                proof {
                    lemma_pushed(before, net);
                }
            }
        }
        proof {
            assert forall|d: DrivenNet| #[trigger] r@.contains(d) <==> holds_net(m, d) by {
                if r@.contains(d) {
                    let j = choose|j: int| 0 <= j < r@.len() && r@[j] == d;
                    assert(holds_net(m, r@[j]));
                }
                if exists|sym: Seq<char>| #[trigger]
                    m.leaves.contains_key(sym) && m.leaves[sym] == d {
                    let sym = choose|sym: Seq<char>| #[trigger]
                        m.leaves.contains_key(sym) && m.leaves[sym] == d;
                    let j = choose|j: int| 0 <= j < names@.len() && (#[trigger] names@[j])@ == sym;
                    assert(r@.contains(m.leaves[names@[j]@]));
                }
            }
        }
        r
    }

    /// The mapping after its nets have moved: those at `from` are at `to`.
    pub fn moved(self, from: &Vec<DrivenNet>, to: &Vec<DrivenNet>) -> (r: LogicMapping<L>)
        requires
            from@.len() == to@.len(),
            forall|d: DrivenNet| #[trigger] holds_net(self@, d) ==> from@.contains(d),
        ensures
            r@ == moved_mapping(self@, from@, to@),
    {
        broadcast use vstd::std_specs::hash::group_hash_axioms;

        proof {
            use_type_invariant(&self);
        }
        let ghost m = self@;
        let ghost want = moved_mapping(m, from@, to@);
        let mut roots: Vec<DrivenNet> = Vec::new();
        for i in 0..self.roots.len()
            invariant
                m == self@,
                m.roots == self.roots@,
                from@.len() == to@.len(),
                forall|d: DrivenNet| #[trigger] holds_net(m, d) ==> from@.contains(d),
                roots@.len() == i,
                forall|j: int|
                    0 <= j < i ==> #[trigger] roots@[j] == moved_net(m.roots[j], from@, to@),
        {
            assert(m.roots.contains(m.roots[i as int]));
            assert(holds_net(m, m.roots[i as int]));
            roots.push(move_net(self.roots[i], from, to));
        }
        assert(roots@ =~= want.roots);
        let names = self.leaves.names();
        let mut leaves = LeafTable::new();
        for i in 0..names.len()
            invariant
                m == self@,
                m.leaves == self.leaves@,
                from@.len() == to@.len(),
                forall|d: DrivenNet| #[trigger] holds_net(m, d) ==> from@.contains(d),
                forall|name: Seq<char>| #[trigger]
                    m.leaves.contains_key(name) <==> is_listed(names@, name),
                forall|name: Seq<char>| #[trigger]
                    leaves@.contains_key(name) ==> m.leaves.contains_key(name) && leaves@[name]
                        == moved_net(m.leaves[name], from@, to@),
                forall|j: int| 0 <= j < i ==> leaves@.contains_key((#[trigger] names@[j])@),
        {
            assert(is_listed(names@, names@[i as int]@));
            if let Some(net) = self.leaves.get(names[i].as_str()) {
                assert(m.leaves.contains_key(names@[i as int]@));
                assert(holds_net(m, net));
                leaves = leaves.with(names[i].clone(), move_net(net, from, to));
            }
        }
        proof {
            assert forall|name: Seq<char>| #[trigger]
                m.leaves.contains_key(name) implies leaves@.contains_key(name) by {
                let j = choose|j: int| 0 <= j < names@.len() && (#[trigger] names@[j])@ == name;
            }
            assert(leaves@ =~= want.leaves);
        }
        let n = self.expr.len();
        let mut leaves_by_id: HashMap<Id, DrivenNet> = HashMap::new();
        for i in 0..n
            invariant
                m == self@,
                mapping_ok(m),
                n == m.nodes.len(),
                from@.len() == to@.len(),
                forall|d: DrivenNet| #[trigger] holds_net(m, d) ==> from@.contains(d),
                forall|id: Id| #[trigger]
                    leaves_by_id@.contains_key(id) <==> m.leaves_by_id.contains_key(id) && id < i,
                forall|id: Id| #[trigger]
                    leaves_by_id@.contains_key(id) ==> leaves_by_id@[id] == moved_net(
                        m.leaves_by_id[id],
                        from@,
                        to@,
                    ),
        {
            broadcast use vstd::std_specs::hash::group_hash_axioms;

            if let Some(net) = self.get_leaf_by_id(&i) {
                assert(m.leaves_by_id.contains_key(i));
                assert(holds_net(m, net));
                leaves_by_id.insert(i, move_net(net, from, to));
            }
        }
        assert(leaves_by_id@ =~= want.leaves_by_id);
        LogicMapping { expr: self.expr, roots, leaves, leaves_by_id }
    }
}

/// The roots of a mapping are nets of it.
proof fn lemma_each_held(m: MappingView, nets: Seq<DrivenNet>)
    requires
        nets == m.roots,
    ensures
        forall|j: int| 0 <= j < nets.len() ==> holds_net(m, #[trigger] nets[j]),
{
    assert forall|j: int| 0 <= j < nets.len() implies holds_net(m, #[trigger] nets[j]) by {
        assert(m.roots.contains(nets[j]));
    }
}

/// One more net loses none.
proof fn lemma_pushed(nets: Seq<DrivenNet>, net: DrivenNet)
    ensures
        nets.push(net).contains(net),
        forall|d: DrivenNet| nets.contains(d) ==> #[trigger] nets.push(net).contains(d),
{
    assert(nets.push(net)[nets.len() as int] == net);
    assert forall|d: DrivenNet| nets.contains(d) implies #[trigger] nets.push(net).contains(d) by {
        let i = choose|i: int| 0 <= i < nets.len() && nets[i] == d;
        assert(nets.push(net)[i] == d);
    }
}

impl<L: CircuitLang> Clone for LogicMapping<L> {
    fn clone(&self) -> (r: LogicMapping<L>)
        ensures
            r@ == self@,
    {
        broadcast use vstd::std_specs::hash::group_hash_axioms;

        proof {
            use_type_invariant(self);
        }
        let n = self.expr.len();
        let mut leaves_by_id: HashMap<Id, DrivenNet> = HashMap::new();
        for i in 0..n
            invariant
                n == self@.nodes.len(),
                forall|id: Id| #[trigger]
                    leaves_by_id@.contains_key(id) <==> self@.leaves_by_id.contains_key(id) && id
                        < i,
                forall|id: Id| #[trigger]
                    leaves_by_id@.contains_key(id) ==> leaves_by_id@[id] == self@.leaves_by_id[id],
        {
            broadcast use vstd::std_specs::hash::group_hash_axioms;

            if let Some(net) = self.get_leaf_by_id(&i) {
                leaves_by_id.insert(i, net);
            }
        }
        assert(leaves_by_id@ =~= self@.leaves_by_id);
        LogicMapping {
            expr: self.expr.copy(),
            roots: copy_nets(&self.roots),
            leaves: self.leaves.clone(),
            leaves_by_id,
        }
    }
}

/// Where nets are found again by what is left of a netlist, so is each of
/// them: it is of the object that is left of its own, at the same output.
pub proof fn law_moved_nets_are_the_same(
    d: DrivenNet,
    from: Seq<DrivenNet>,
    to: Seq<DrivenNet>,
    keep: Seq<usize>,
)
    requires
        from.contains(d),
        crate::netlist::same_nets(from, to, keep),
    ensures
        moved_net(d, from, to).node < keep.len(),
        keep[moved_net(d, from, to).node as int] == d.node,
        moved_net(d, from, to).pos == d.pos,
{
    from.index_of_first_ensures(d);
    let i = from.index_of_first(d)->0;
    assert(from[i] == d);
    assert(crate::netlist::same_operand(Some(from[i]), Some(to[i]), keep));
}

/// Moving the nets of a mapping keeps its expression, and which leaves have
/// the same net by place and by name.
pub proof fn law_moving_keeps_the_expression(
    m: MappingView,
    from: Seq<DrivenNet>,
    to: Seq<DrivenNet>,
    keep: Seq<usize>,
    id: Id,
    sym: Seq<char>,
    j: int,
)
    requires
        crate::netlist::same_nets(from, to, keep),
        forall|d: DrivenNet| #[trigger] holds_net(m, d) ==> from.contains(d),
    ensures
        ({
            let n = moved_mapping(m, from, to);
            &&& n.nodes == m.nodes
            &&& n.roots.len() == m.roots.len()
            &&& 0 <= j < m.roots.len() ==> n.roots[j].node < keep.len()
                && keep[n.roots[j].node as int] == m.roots[j].node && n.roots[j].pos
                == m.roots[j].pos
            &&& n.leaves.contains_key(sym) <==> m.leaves.contains_key(sym)
            &&& m.leaves.contains_key(sym) ==> n.leaves[sym].node < keep.len()
                && keep[n.leaves[sym].node as int] == m.leaves[sym].node && n.leaves[sym].pos
                == m.leaves[sym].pos
            &&& n.leaves_by_id.contains_key(id) <==> m.leaves_by_id.contains_key(id)
            &&& m.leaves_by_id.contains_key(id) ==> n.leaves_by_id[id].node < keep.len()
                && keep[n.leaves_by_id[id].node as int] == m.leaves_by_id[id].node
                && n.leaves_by_id[id].pos == m.leaves_by_id[id].pos
            &&& m.leaves.contains_key(sym) && m.leaves_by_id.contains_key(id) && m.leaves[sym]
                == m.leaves_by_id[id] ==> n.leaves[sym] == n.leaves_by_id[id]
        }),
{
    if 0 <= j < m.roots.len() {
        assert(m.roots.contains(m.roots[j]));
        assert(holds_net(m, m.roots[j]));
        law_moved_nets_are_the_same(m.roots[j], from, to, keep);
    }
    if m.leaves.contains_key(sym) {
        assert(holds_net(m, m.leaves[sym]));
        law_moved_nets_are_the_same(m.leaves[sym], from, to, keep);
    }
    if m.leaves_by_id.contains_key(id) {
        assert(holds_net(m, m.leaves_by_id[id]));
        law_moved_nets_are_the_same(m.leaves_by_id[id], from, to, keep);
    }
}

} // verus!
