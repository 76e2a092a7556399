//! The order in which the nets behind some roots are mapped: each after the
//! nets that drive it.

use crate::netlist::{
    cyclic, dfs_visits, driven_by, has_net, has_nets, lemma_operand, linked, netlist_ok, object_ok,
    on_cycle, reaches, visits_ok, walk, DrivenNet, Netlist, NetlistView,
};
use vstd::prelude::*;

verus! {

/// What comes of looking through the objects behind a net.
#[derive(Debug, Clone, Copy, PartialEq, Eq, Structural)]
pub enum Scan {
    /// All of them are in the order already.
    Ready,
    /// A cycle was met.
    Cycle,
    /// One drives more than one net.
    Multi,
    /// This one is not in the order yet.
    Wait(usize),
}

/// Why nets could not be put in order.
#[derive(Debug, Clone, Copy, PartialEq, Eq, Structural)]
pub enum OrderError {
    /// There is a cycle.
    Cycle,
    /// An object drives more than one net.
    Multi,
}

/// The first output of object `n`.
pub open spec fn first_net(n: usize) -> DrivenNet {
    DrivenNet { node: n, pos: 0 }
}

/// Looks through the visited objects from number `k` on. `sorted` tells
/// which objects are in the order already.
pub open spec fn scan_from(
    v: NetlistView,
    visits: Seq<(usize, bool)>,
    sorted: Seq<bool>,
    k: int,
) -> Scan
    decreases visits.len() - k,
{
    if k >= visits.len() {
        Scan::Ready
    } else if visits[k].1 {
        Scan::Cycle
    } else if v.objects[visits[k].0 as int].wires.len() > 1 {
        Scan::Multi
    } else if !sorted[visits[k].0 as int] {
        Scan::Wait(visits[k].0)
    } else {
        scan_from(v, visits, sorted, k + 1)
    }
}

/// Looks through all visited objects but the first.
pub fn scan(netlist: &Netlist, visits: &Vec<(usize, bool)>, sorted: &Vec<bool>) -> (r: Scan)
    requires
        sorted@.len() == netlist@.objects.len(),
        forall|k: int| 0 <= k < visits@.len() ==> (#[trigger] visits@[k]).0 < sorted@.len(),
    ensures
        r == scan_from(netlist@, visits@, sorted@, 1),
{
    let mut k: usize = 1;
    while k < visits.len()
        invariant
            sorted@.len() == netlist@.objects.len(),
            forall|k: int| 0 <= k < visits@.len() ==> (#[trigger] visits@[k]).0 < sorted@.len(),
            scan_from(netlist@, visits@, sorted@, 1) == scan_from(
                netlist@,
                visits@,
                sorted@,
                k as int,
            ),
        decreases visits@.len() - k,
    {
        let (n, cycle) = visits[k];
        if cycle {
            return Scan::Cycle;
        }
        if netlist.is_multi_output(n) {
            return Scan::Multi;
        }
        if !sorted[n] {
            return Scan::Wait(n);
        }
        k = k + 1;
    }
    Scan::Ready
}

/// How far the ordering has come: the roots still to do, the nets that wait,
/// each for the next, and the order so far.
pub struct OrderState {
    pub roots: Seq<DrivenNet>,
    pub chain: Seq<DrivenNet>,
    pub order: Seq<DrivenNet>,
}

/// Either the ordering goes on, or it is done.
pub enum Progress {
    Going(OrderState),
    Done(Result<Seq<DrivenNet>, OrderError>),
}

/// Which of `n` objects have their first net in `order`.
pub open spec fn marks(order: Seq<DrivenNet>, n: nat) -> Seq<bool> {
    Seq::new(n, |i: int| order.contains(first_net(i as usize)))
}

/// One step. Roots are taken from the end. A net goes into the order when
/// everything behind it is there, and else waits for the first object that
/// is not. One that waits for itself is on a cycle.
pub open spec fn step(v: NetlistView, s: OrderState) -> Progress {
    if s.chain.len() == 0 {
        if s.roots.len() == 0 {
            Progress::Done(Ok(s.order))
        } else if s.order.contains(s.roots.last()) {
            Progress::Going(OrderState { roots: s.roots.drop_last(), ..s })
        } else {
            Progress::Going(
                OrderState { roots: s.roots.drop_last(), chain: seq![s.roots.last()], ..s },
            )
        }
    } else {
        let net = s.chain.last();
        let found = if v.objects[net.node as int].kind is Input {
            Scan::Ready
        } else {
            scan_from(v, dfs_visits(v, net.node), marks(s.order, v.objects.len()), 1)
        };
        match found {
            Scan::Ready => Progress::Going(
                OrderState { chain: s.chain.drop_last(), order: s.order.push(net), ..s },
            ),
            Scan::Cycle => Progress::Done(Err(OrderError::Cycle)),
            Scan::Multi => Progress::Done(Err(OrderError::Multi)),
            Scan::Wait(n) => if s.chain.contains(first_net(n)) {
                Progress::Done(Err(OrderError::Cycle))
            } else {
                Progress::Going(OrderState { chain: s.chain.push(first_net(n)), ..s })
            },
        }
    }
}

/// `n` steps, or as many as it takes.
pub open spec fn run(v: NetlistView, s: OrderState, n: nat) -> Progress
    decreases n,
{
    if n == 0 {
        Progress::Going(s)
    } else {
        match step(v, s) {
            Progress::Going(t) => run(v, t, (n - 1) as nat),
            Progress::Done(r) => Progress::Done(r),
        }
    }
}

/// How the ordering of `roots` starts.
pub open spec fn start(roots: Seq<DrivenNet>) -> OrderState {
    OrderState { roots, chain: Seq::empty(), order: Seq::empty() }
}

/// Whether ordering `roots` comes to `r`.
pub open spec fn sorts_to(
    v: NetlistView,
    roots: Seq<DrivenNet>,
    r: Result<Seq<DrivenNet>, OrderError>,
) -> bool {
    exists|n: nat| #[trigger] run(v, start(roots), n) == Progress::Done(r)
}

/// Once done, more steps change nothing.
proof fn lemma_run_done(v: NetlistView, s: OrderState, n: nat, m: nat)
    requires
        run(v, s, n) is Done,
        n <= m,
    ensures
        run(v, s, m) == run(v, s, n),
    decreases n,
{
    if let Progress::Going(t) = step(v, s) {
        lemma_run_done(v, t, (n - 1) as nat, (m - 1) as nat);
    }
}

/// One more step at the end.
proof fn lemma_run_step(v: NetlistView, s: OrderState, n: nat)
    requires
        run(v, s, n) is Going,
    ensures
        run(v, s, n + 1) == step(v, run(v, s, n)->Going_0),
    decreases n,
{
    reveal_with_fuel(run, 2);
    if n > 0 {
        if let Progress::Going(t) = step(v, s) {
            lemma_run_step(v, t, (n - 1) as nat);
        }
    }
}

/// Ordering the same roots of the same netlist comes to the same.
pub proof fn law_order_is_unique(
    v: NetlistView,
    roots: Seq<DrivenNet>,
    a: Result<Seq<DrivenNet>, OrderError>,
    b: Result<Seq<DrivenNet>, OrderError>,
)
    requires
        sorts_to(v, roots, a),
        sorts_to(v, roots, b),
    ensures
        a == b,
{
    let n = choose|n: nat| #[trigger] run(v, start(roots), n) == Progress::Done(a);
    let m = choose|n: nat| #[trigger] run(v, start(roots), n) == Progress::Done(b);
    if n <= m {
        lemma_run_done(v, start(roots), n, m);
    } else {
        lemma_run_done(v, start(roots), m, n);
    }
}

/// Whether object `n` is behind one of `roots`.
pub open spec fn behind(v: NetlistView, roots: Seq<DrivenNet>, n: usize) -> bool {
    exists|i: int| 0 <= i < roots.len() && reaches(v, (#[trigger] roots[i]).node, n)
}

/// Whether every net stands after the first nets of all objects that drive
/// its own.
pub open spec fn after_drivers(v: NetlistView, order: Seq<DrivenNet>) -> bool {
    forall|i: int, m: usize|
        0 <= i < order.len() && #[trigger] driven_by(v, (#[trigger] order[i]).node, m) && m
            != order[i].node ==> order.take(i).contains(first_net(m))
}

/// Whether no object that drives itself drives another or is driven by one.
pub open spec fn loops_apart(v: NetlistView, order: Seq<DrivenNet>) -> bool {
    forall|i: int, m: usize|
        0 <= i < order.len() && #[trigger] driven_by(v, (#[trigger] order[i]).node, m) && m
            != order[i].node ==> !driven_by(v, order[i].node, order[i].node) && !driven_by(v, m, m)
}

/// Whether all objects that drive those of `order` drive one net.
pub open spec fn single_drivers(v: NetlistView, order: Seq<DrivenNet>) -> bool {
    forall|i: int, m: usize|
        0 <= i < order.len() && #[trigger] driven_by(v, (#[trigger] order[i]).node, m) && m
            != order[i].node ==> v.objects[m as int].wires.len() == 1
}

/// Whether every net is the first of its object, or a root.
pub open spec fn first_or_root(roots: Seq<DrivenNet>, nets: Seq<DrivenNet>) -> bool {
    forall|i: int|
        0 <= i < nets.len() ==> (#[trigger] nets[i]) == first_net(nets[i].node) || roots.contains(
            nets[i],
        )
}

/// Whether `order` is one of the nets behind `roots`: it has every root and
/// nothing that is behind none, nothing twice, and every net after its
/// drivers, each of which drives that net alone. An object that drives itself
/// has nothing else around it.
pub open spec fn order_ok(v: NetlistView, roots: Seq<DrivenNet>, order: Seq<DrivenNet>) -> bool {
    &&& has_nets(v, order)
    &&& first_or_root(roots, order)
    &&& order.no_duplicates()
    &&& forall|i: int| 0 <= i < roots.len() ==> order.contains(#[trigger] roots[i])
    &&& forall|i: int| 0 <= i < order.len() ==> behind(v, roots, (#[trigger] order[i]).node)
    &&& after_drivers(v, order)
    &&& loops_apart(v, order)
    &&& single_drivers(v, order)
    &&& roots.len() == 1 ==> order.len() > 0 && order.last() == roots[0]
}

/// Every object reaches itself.
pub proof fn lemma_reaches_self(v: NetlistView, n: usize)
    requires
        n < v.objects.len(),
    ensures
        reaches(v, n, n),
{
    let p = seq![n];
    assert(walk(v, p) && p.first() == n && p.last() == n);
}

/// What drives an object that is reached is reached.
pub proof fn lemma_reaches_driver(v: NetlistView, a: usize, b: usize, c: usize)
    requires
        reaches(v, a, b),
        driven_by(v, b, c),
        c < v.objects.len(),
    ensures
        reaches(v, a, c),
{
    let p = choose|p: Seq<usize>| #[trigger] walk(v, p) && p.first() == a && p.last() == b;
    let q = p.push(c);
    assert forall|i: int| 0 < i < q.len() implies #[trigger] linked(v, q, i) by {
        if i < p.len() {
            assert(linked(v, p, i));
        }
    }
    assert(walk(v, q) && q.first() == a && q.last() == c);
}

/// Walks can be joined.
proof fn lemma_reaches_on(v: NetlistView, a: usize, b: usize, c: usize)
    requires
        reaches(v, a, b),
        reaches(v, b, c),
    ensures
        reaches(v, a, c),
{
    let p = choose|p: Seq<usize>| #[trigger] walk(v, p) && p.first() == a && p.last() == b;
    let q = choose|q: Seq<usize>| #[trigger] walk(v, q) && q.first() == b && q.last() == c;
    lemma_walk_on(v, a, b, q);
}

proof fn lemma_walk_on(v: NetlistView, a: usize, b: usize, q: Seq<usize>)
    requires
        reaches(v, a, b),
        walk(v, q),
        q.first() == b,
    ensures
        reaches(v, a, q.last()),
    decreases q.len(),
{
    if q.len() > 1 {
        let p = q.drop_last();
        assert forall|i: int| 0 < i < p.len() implies #[trigger] linked(v, p, i) by {
            assert(linked(v, q, i));
        }
        assert(walk(v, p));
        lemma_walk_on(v, a, b, p);
        assert(linked(v, q, q.len() - 1));
        lemma_reaches_driver(v, a, p.last(), q.last());
    }
}

/// Everything that is visited is behind where the visits start.
proof fn lemma_visits_reached(v: NetlistView, from: usize, visits: Seq<(usize, bool)>, k: int)
    requires
        visits_ok(v, from, visits),
        0 <= k < visits.len(),
    ensures
        reaches(v, from, visits[k].0),
    decreases k,
{
    if k == 0 {
        lemma_reaches_self(v, from);
    } else {
        let j = choose|j: int|
            0 <= j < k && driven_by(v, (#[trigger] visits[j]).0, visits[k].0);
        lemma_visits_reached(v, from, visits, j);
        lemma_reaches_driver(v, from, visits[j].0, visits[k].0);
    }
}

/// Something else that an object reaches is reached through a driver.
proof fn lemma_reaches_first(v: NetlistView, a: usize, b: usize) -> (m: usize)
    requires
        reaches(v, a, b),
        a != b,
    ensures
        driven_by(v, a, m),
        reaches(v, m, b),
{
    let p = choose|p: Seq<usize>| #[trigger] walk(v, p) && p.first() == a && p.last() == b;
    let q = p.skip(1);
    assert forall|i: int| 0 < i < q.len() implies #[trigger] linked(v, q, i) by {
        assert(linked(v, p, i + 1));
    }
    assert(linked(v, p, 1));
    assert(walk(v, q) && q.first() == p[1] && q.last() == b);
    p[1]
}

/// Two objects that reach each other are on a cycle.
proof fn lemma_reach_each_other(v: NetlistView, a: usize, b: usize)
    requires
        reaches(v, a, b),
        reaches(v, b, a),
        a != b,
    ensures
        on_cycle(v, a),
{
    let m = lemma_reaches_first(v, a, b);
    lemma_reaches_on(v, m, b, a);
}

/// There are no more first nets and roots than there are objects and roots.
proof fn lemma_net_count(v: NetlistView, roots: Seq<DrivenNet>, nets: Seq<DrivenNet>)
    requires
        has_nets(v, nets),
        nets.no_duplicates(),
        first_or_root(roots, nets),
    ensures
        nets.len() <= v.objects.len() + roots.len(),
{
    let total = v.objects.len() + roots.len();
    let number = |d: DrivenNet|
        if d == first_net(d.node) {
            d.node as int
        } else {
            v.objects.len() + roots.index_of(d)
        };
    let numbers = nets.map_values(number);
    assert forall|i: int| 0 <= i < nets.len() implies 0 <= (#[trigger] numbers[i]) < total by {
        assert(has_net(v, nets[i]));
    }
    assert(numbers.no_duplicates()) by {
        assert forall|i: int, j: int|
            0 <= i < numbers.len() && 0 <= j < numbers.len() && i != j implies numbers[i]
            != numbers[j] by {
            assert(has_net(v, nets[i]) && has_net(v, nets[j]));
            assert(nets[i] != nets[j]);
        }
    }
    numbers.unique_seq_to_set();
    let all = vstd::set_lib::set_int_range(0, total as int);
    vstd::set_lib::lemma_int_range(0, total as int);
    assert(numbers.to_set().subset_of(all)) by {
        assert forall|x: int| numbers.to_set().contains(x) implies all.contains(x) by {
            let i = choose|i: int| 0 <= i < numbers.len() && numbers[i] == x;
            assert(0 <= numbers[i] < total);
        }
    }
    vstd::set_lib::lemma_len_subset(numbers.to_set(), all);
}

/// The net of an object that drives one is the first of it, and all but cells
/// of which only the ports are known drive one.
pub proof fn lemma_first_net(v: NetlistView, d: DrivenNet)
    requires
        netlist_ok(v),
        has_net(v, d),
    ensures
        v.objects[d.node as int].wires.len() == 1 ==> d == first_net(d.node),
        !(v.objects[d.node as int].kind is Closed) ==> d == first_net(d.node)
            && v.objects[d.node as int].wires.len() == 1,
{
    assert(object_ok(v.objects[d.node as int]));
}

/// An object that drives another has a first net.
pub proof fn lemma_driver_has_net(v: NetlistView, n: usize, m: usize)
    requires
        netlist_ok(v),
        n < v.objects.len(),
        driven_by(v, n, m),
    ensures
        has_net(v, first_net(m)),
{
    let k = choose|k: int|
        0 <= k < v.objects[n as int].operands.len() && ((
        #[trigger] v.objects[n as int].operands[k]) matches Some(d) && d.node == m);
    lemma_operand(v, n as int, k);
}

/// What holds at every step: what is in the order is a good start, and what
/// waits is not in it, and waits for the next.
pub open spec fn state_ok(v: NetlistView, roots: Seq<DrivenNet>, s: OrderState) -> bool {
    &&& has_nets(v, s.roots)
    &&& has_nets(v, s.chain)
    &&& has_nets(v, s.order)
    &&& first_or_root(roots, s.order)
    &&& first_or_root(roots, s.chain)
    &&& s.order.no_duplicates()
    &&& s.chain.no_duplicates()
    &&& forall|i: int| 0 <= i < s.chain.len() ==> !s.order.contains(#[trigger] s.chain[i])
    &&& forall|i: int| 0 <= i < s.order.len() ==> behind(v, roots, (#[trigger] s.order[i]).node)
    &&& forall|i: int| 0 <= i < s.chain.len() ==> behind(v, roots, (#[trigger] s.chain[i]).node)
    &&& forall|i: int, j: int|
        0 <= i <= j < s.chain.len() ==> reaches(
            v,
            (#[trigger] s.chain[i]).node,
            (#[trigger] s.chain[j]).node,
        )
    &&& s.roots.len() <= roots.len()
    &&& s.roots == roots.take(s.roots.len() as int)
    &&& forall|i: int|
        s.roots.len() <= i < roots.len() ==> s.order.contains(#[trigger] roots[i]) || (s.chain.len()
            > 0 && s.chain[0] == roots[i])
    &&& after_drivers(v, s.order)
    &&& loops_apart(v, s.order)
    &&& single_drivers(v, s.order)
    &&& s.chain.len() > 0 ==> s.roots.len() < roots.len() && s.chain[0] == roots[s.roots.len() as int]
    &&& s.roots.len() == roots.len() ==> s.order.len() == 0
    &&& s.roots.len() == 0 && s.chain.len() == 0 && roots.len() == 1 ==> s.order.len() > 0
        && s.order.last() == roots[0]
}

/// What a scan finds is so.
proof fn lemma_scan(v: NetlistView, visits: Seq<(usize, bool)>, sorted: Seq<bool>, k: int)
    requires
        0 <= k,
    ensures
        match scan_from(v, visits, sorted, k) {
            Scan::Ready => forall|j: int|
                k <= j < visits.len() ==> sorted[(#[trigger] visits[j]).0 as int] && !visits[j].1
                    && v.objects[visits[j].0 as int].wires.len() <= 1,
            Scan::Cycle => exists|j: int| k <= j < visits.len() && (#[trigger] visits[j]).1,
            Scan::Multi => exists|j: int|
                k <= j < visits.len() && v.objects[(#[trigger] visits[j]).0 as int].wires.len() > 1,
            Scan::Wait(n) => exists|j: int|
                k <= j < visits.len() && (#[trigger] visits[j]).0 == n && !sorted[n as int]
                    && v.objects[n as int].wires.len() <= 1,
        },
    decreases visits.len() - k,
{
    if k < visits.len() {
        lemma_scan(v, visits, sorted, k + 1);
    }
}

/// Whether a cycle drives one of `roots`.
pub open spec fn any_cyclic(v: NetlistView, roots: Seq<DrivenNet>) -> bool {
    exists|i: int| 0 <= i < roots.len() && cyclic(v, (#[trigger] roots[i]).node)
}

/// A cycle behind something that is behind the roots is behind a root.
proof fn lemma_cyclic_behind(v: NetlistView, roots: Seq<DrivenNet>, n: usize)
    requires
        behind(v, roots, n),
        cyclic(v, n),
    ensures
        any_cyclic(v, roots),
{
    let i = choose|i: int| 0 <= i < roots.len() && reaches(v, (#[trigger] roots[i]).node, n);
    let m = choose|m: usize| #[trigger] reaches(v, n, m) && on_cycle(v, m);
    lemma_reaches_on(v, roots[i].node, n, m);
    assert(cyclic(v, roots[i].node));
}

/// An object behind the roots that drives itself is a cycle behind a root.
pub proof fn lemma_drives_itself(v: NetlistView, roots: Seq<DrivenNet>, n: usize)
    requires
        behind(v, roots, n),
        n < v.objects.len(),
        driven_by(v, n, n),
    ensures
        any_cyclic(v, roots),
{
    lemma_reaches_self(v, n);
    assert(on_cycle(v, n));
    assert(cyclic(v, n));
    lemma_cyclic_behind(v, roots, n);
}

/// What is behind something that is behind the roots is behind them.
pub proof fn lemma_behind(v: NetlistView, roots: Seq<DrivenNet>, a: usize, b: usize)
    requires
        behind(v, roots, a),
        reaches(v, a, b),
    ensures
        behind(v, roots, b),
{
    let i = choose|i: int| 0 <= i < roots.len() && reaches(v, (#[trigger] roots[i]).node, a);
    lemma_reaches_on(v, roots[i].node, a, b);
    assert(behind(v, roots, b)) by {
        assert(reaches(v, roots[i].node, b));
    }
}

/// Whether `n` is on a cycle, and has another object `m` next to it, both
/// behind `roots`.
pub open spec fn knot(v: NetlistView, roots: Seq<DrivenNet>, n: usize, m: usize) -> bool {
    &&& n != m
    &&& behind(v, roots, n)
    &&& behind(v, roots, m)
    &&& on_cycle(v, n)
    &&& driven_by(v, n, m) || driven_by(v, m, n)
}

/// Whether there is a cycle behind `roots` that is more than an object that
/// drives itself and is apart from all others.
pub open spec fn tangled(v: NetlistView, roots: Seq<DrivenNet>) -> bool {
    exists|n: usize, m: usize| #[trigger] knot(v, roots, n, m)
}

/// Whether object `m` drives several nets, and another object `n` behind
/// `roots`.
pub open spec fn fork(v: NetlistView, roots: Seq<DrivenNet>, n: usize, m: usize) -> bool {
    &&& n != m
    &&& behind(v, roots, n)
    &&& driven_by(v, n, m)
    &&& v.objects[m as int].wires.len() > 1
}

/// Whether an object that drives several nets drives another object behind
/// `roots`.
pub open spec fn forked(v: NetlistView, roots: Seq<DrivenNet>) -> bool {
    exists|n: usize, m: usize| #[trigger] fork(v, roots, n, m)
}

/// Something that is reached from another object is reached over one that it
/// is not.
pub proof fn lemma_reaches_last(v: NetlistView, a: usize, p: Seq<usize>) -> (m: usize)
    requires
        walk(v, p),
        p.first() == a,
        p.last() != a,
    ensures
        m != p.last(),
        reaches(v, a, m),
        driven_by(v, m, p.last()),
    decreases p.len(),
{
    let q = p.drop_last();
    assert forall|i: int| 0 < i < q.len() implies #[trigger] linked(v, q, i) by {
        assert(linked(v, p, i));
    }
    assert(linked(v, p, p.len() - 1));
    assert(walk(v, q) && q.first() == a);
    if q.last() == p.last() {
        lemma_reaches_last(v, a, q)
    } else {
        q.last()
    }
}

/// An object that reaches another is driven by another.
proof fn lemma_reaches_other(v: NetlistView, a: usize, b: usize) -> (m: usize)
    requires
        reaches(v, a, b),
        a != b,
    ensures
        m != a,
        m < v.objects.len(),
        driven_by(v, a, m),
{
    let p = choose|p: Seq<usize>| #[trigger] walk(v, p) && p.first() == a && p.last() == b;
    lemma_walk_other(v, a, p, p.len() - 1)
}

proof fn lemma_walk_other(v: NetlistView, a: usize, p: Seq<usize>, i: int) -> (m: usize)
    requires
        walk(v, p),
        p.first() == a,
        0 <= i < p.len(),
        p[i] != a,
    ensures
        m != a,
        m < v.objects.len(),
        driven_by(v, a, m),
    decreases i,
{
    assert(linked(v, p, i));
    if p[i - 1] == a {
        p[i]
    } else {
        lemma_walk_other(v, a, p, i - 1)
    }
}

/// A cycle behind an object that another drives is a knot.
proof fn lemma_knot(v: NetlistView, roots: Seq<DrivenNet>, a: usize, x: usize)
    requires
        behind(v, roots, a),
        cyclic(v, a),
        driven_by(v, a, x),
        x != a,
        x < v.objects.len(),
        a < v.objects.len(),
    ensures
        tangled(v, roots),
{
    let m = choose|m: usize| #[trigger] reaches(v, a, m) && on_cycle(v, m);
    lemma_reaches_self(v, a);
    lemma_reaches_driver(v, a, a, x);
    lemma_behind(v, roots, a, x);
    lemma_behind(v, roots, a, m);
    if m == a {
        assert(knot(v, roots, a, x));
    } else {
        let p = choose|p: Seq<usize>| #[trigger] walk(v, p) && p.first() == a && p.last() == m;
        let n = lemma_reaches_last(v, a, p);
        lemma_behind(v, roots, a, n);
        assert(knot(v, roots, m, n));
    }
}

/// Putting a net into the order whose drivers are all there.
proof fn lemma_ready(v: NetlistView, roots: Seq<DrivenNet>, s: OrderState)
    requires
        netlist_ok(v),
        has_nets(v, roots),
        state_ok(v, roots, s),
        s.chain.len() > 0,
        forall|m: usize| #[trigger]
            driven_by(v, s.chain.last().node, m) && m != s.chain.last().node ==> s.order.contains(
                first_net(m),
            ) && !driven_by(v, m, m) && !driven_by(v, s.chain.last().node, s.chain.last().node)
                && v.objects[m as int].wires.len() == 1,
    ensures
        state_ok(
            v,
            roots,
            OrderState { chain: s.chain.drop_last(), order: s.order.push(s.chain.last()), ..s },
        ),
{
    let net = s.chain.last();
    let t = OrderState { chain: s.chain.drop_last(), order: s.order.push(net), ..s };
    assert(net == s.chain[s.chain.len() - 1]);
    assert forall|d: DrivenNet| s.order.contains(d) implies #[trigger] t.order.contains(d) by {
        let i = choose|i: int| 0 <= i < s.order.len() && s.order[i] == d;
        assert(t.order[i] == d);
    }
    assert(t.order[s.order.len() as int] == net);
    assert forall|i: int| 0 <= i < t.chain.len() implies !t.order.contains(
        #[trigger] t.chain[i],
    ) by {
        assert(t.chain[i] == s.chain[i]);
        assert(!s.order.contains(s.chain[i]));
        if t.order.contains(t.chain[i]) {
            let j = choose|j: int| 0 <= j < t.order.len() && t.order[j] == t.chain[i];
            if j < s.order.len() {
                assert(s.order[j] == s.chain[i]);
            }
        }
    }
    assert forall|i: int| 0 <= i < t.order.len() implies behind(
        v,
        roots,
        (#[trigger] t.order[i]).node,
    ) by {
        if i < s.order.len() {
            assert(t.order[i] == s.order[i]);
        }
    }
    assert(t.order.no_duplicates()) by {
        assert(!s.order.contains(net));
    }
    assert forall|i: int, m: usize|
        0 <= i < t.order.len() && #[trigger] driven_by(v, (#[trigger] t.order[i]).node, m) && m
            != t.order[i].node implies t.order.take(i).contains(first_net(m)) by {
        assert(t.order.take(i) =~= s.order.take(i));
        if i < s.order.len() {
            assert(t.order[i] == s.order[i]);
        } else {
            assert(s.order.take(i) =~= s.order);
        }
    }
    assert forall|i: int, m: usize|
        0 <= i < t.order.len() && #[trigger] driven_by(v, (#[trigger] t.order[i]).node, m) && m
            != t.order[i].node implies !driven_by(v, t.order[i].node, t.order[i].node)
        && !driven_by(v, m, m) by {
        if i < s.order.len() {
            assert(t.order[i] == s.order[i]);
        }
    }
    assert forall|i: int, m: usize|
        0 <= i < t.order.len() && #[trigger] driven_by(v, (#[trigger] t.order[i]).node, m) && m
            != t.order[i].node implies v.objects[m as int].wires.len() == 1 by {
        if i < s.order.len() {
            assert(t.order[i] == s.order[i]);
        }
    }
    assert forall|i: int| 0 <= i < t.order.len() implies (#[trigger] t.order[i]) == first_net(
        t.order[i].node,
    ) || roots.contains(t.order[i]) by {
        if i < s.order.len() {
            assert(t.order[i] == s.order[i]);
        }
    }
    assert forall|i: int| t.roots.len() <= i < roots.len() implies t.order.contains(
        #[trigger] roots[i],
    ) || (t.chain.len() > 0 && t.chain[0] == roots[i]) by {
        if !s.order.contains(roots[i]) {
            assert(s.chain[0] == roots[i]);
        }
    }
}

/// Letting a net wait for something behind it.
proof fn lemma_wait(v: NetlistView, roots: Seq<DrivenNet>, s: OrderState, n: usize)
    requires
        netlist_ok(v),
        has_nets(v, roots),
        state_ok(v, roots, s),
        s.chain.len() > 0,
        has_net(v, first_net(n)),
        reaches(v, s.chain.last().node, n),
        !s.order.contains(first_net(n)),
        !s.chain.contains(first_net(n)),
    ensures
        state_ok(v, roots, OrderState { chain: s.chain.push(first_net(n)), ..s }),
{
    let d = first_net(n);
    let t = OrderState { chain: s.chain.push(d), ..s };
    let last = s.chain.len() - 1;
    lemma_reaches_self(v, n);
    assert(s.chain[last] == s.chain.last());
    lemma_behind(v, roots, s.chain[last].node, n);
    assert forall|i: int, j: int| 0 <= i <= j < t.chain.len() implies reaches(
        v,
        (#[trigger] t.chain[i]).node,
        (#[trigger] t.chain[j]).node,
    ) by {
        if j < s.chain.len() {
            assert(t.chain[i] == s.chain[i] && t.chain[j] == s.chain[j]);
        } else if i < s.chain.len() {
            assert(t.chain[i] == s.chain[i]);
            assert(reaches(v, s.chain[i].node, s.chain[last].node));
            lemma_reaches_on(v, s.chain[i].node, s.chain[last].node, n);
        }
    }
}

/// A net that waits for one that waits for it is on a cycle.
proof fn lemma_wait_again(v: NetlistView, roots: Seq<DrivenNet>, s: OrderState, n: usize)
    requires
        state_ok(v, roots, s),
        s.chain.len() > 0,
        reaches(v, s.chain.last().node, n),
        n != s.chain.last().node,
        s.chain.contains(first_net(n)),
    ensures
        tangled(v, roots),
{
    let i = choose|i: int| 0 <= i < s.chain.len() && s.chain[i] == first_net(n);
    let last = s.chain.len() - 1;
    let a = s.chain[last].node;
    assert(reaches(v, s.chain[i].node, s.chain[last].node));
    lemma_reach_each_other(v, a, n);
    assert(has_net(v, s.chain[last]));
    lemma_reaches_self(v, a);
    assert(cyclic(v, a));
    assert(behind(v, roots, s.chain[last].node));
    let x = lemma_reaches_other(v, a, n);
    lemma_knot(v, roots, a, x);
}

/// Every step keeps what holds, and where the ordering is done the outcome
/// is right.
proof fn lemma_step(v: NetlistView, roots: Seq<DrivenNet>, s: OrderState)
    requires
        netlist_ok(v),
        has_nets(v, roots),
        state_ok(v, roots, s),
        s.chain.len() > 0 && !(v.objects[s.chain.last().node as int].kind is Input) ==> visits_ok(
            v,
            s.chain.last().node,
            dfs_visits(v, s.chain.last().node),
        ),
    ensures
        match step(v, s) {
            Progress::Going(t) => state_ok(v, roots, t),
            Progress::Done(Ok(order)) => order_ok(v, roots, order),
            Progress::Done(Err(OrderError::Cycle)) => tangled(v, roots),
            Progress::Done(Err(OrderError::Multi)) => forked(v, roots),
        },
{
    if s.chain.len() == 0 {
        if s.roots.len() == 0 {
            assert(order_ok(v, roots, s.order));
        } else {
            let k = s.roots.len() - 1;
            let root = s.roots.last();
            assert(root == s.roots[k] && root == roots[k]);
            assert(s.roots.drop_last() =~= roots.take(k));
            assert(has_net(v, roots[k]));
            lemma_reaches_self(v, root.node);
            assert(behind(v, roots, root.node)) by {
                assert(reaches(v, roots[k].node, root.node));
            }
            let t = step(v, s)->Going_0;
            assert(roots.contains(root));
            assert forall|i: int| 0 <= i < t.roots.len() implies has_net(
                v,
                #[trigger] t.roots[i],
            ) by {
                assert(t.roots[i] == roots[i]);
            }
            assert(state_ok(v, roots, t));
        }
    } else {
        let net = s.chain.last();
        let last = s.chain.len() - 1;
        assert(net == s.chain[last]);
        assert(has_net(v, net) && behind(v, roots, net.node));
        if v.objects[net.node as int].kind is Input {
            assert(object_ok(v.objects[net.node as int]));
            lemma_ready(v, roots, s);
        } else {
            let visits = dfs_visits(v, net.node);
            let sorted = marks(s.order, v.objects.len());
            lemma_scan(v, visits, sorted, 1);
            match scan_from(v, visits, sorted, 1) {
                Scan::Ready => {
                    assert forall|m: usize| #[trigger]
                        driven_by(v, net.node, m) && m != net.node implies s.order.contains(
                        first_net(m),
                    ) && !driven_by(v, m, m) && !driven_by(v, net.node, net.node)
                        && v.objects[m as int].wires.len() == 1 by {
                        assert(driven_by(v, visits[0].0, m));
                        let j = choose|j: int|
                            0 <= j < visits.len() && (#[trigger] visits[j]).0 == m;
                        assert(j != 0);
                        assert(sorted[visits[j].0 as int] && !visits[j].1);
                        assert(!visits[0].1);
                        lemma_driver_has_net(v, net.node, m);
                    }
                    lemma_ready(v, roots, s);
                },
                Scan::Cycle => {
                    let j = choose|j: int| 0 <= j < 1 && driven_by(
                        v,
                        (#[trigger] visits[j]).0,
                        visits[1].0,
                    );
                    assert(visits[0].0 != visits[1].0);
                    lemma_knot(v, roots, net.node, visits[1].0);
                },
                Scan::Multi => {
                    let j = choose|j: int|
                        1 <= j < visits.len() && v.objects[(
                        #[trigger] visits[j]).0 as int].wires.len() > 1;
                    let m = visits[j].0;
                    assert(visits[0].0 != visits[j].0);
                    lemma_visits_reached(v, net.node, visits, j);
                    let p = choose|p: Seq<usize>| #[trigger]
                        walk(v, p) && p.first() == net.node && p.last() == m;
                    let n = lemma_reaches_last(v, net.node, p);
                    lemma_behind(v, roots, net.node, n);
                    assert(fork(v, roots, n, m));
                },
                Scan::Wait(n) => {
                    let j = choose|j: int|
                        1 <= j < visits.len() && (#[trigger] visits[j]).0 == n
                            && !sorted[n as int] && v.objects[n as int].wires.len() <= 1;
                    assert(visits[0].0 != visits[j].0);
                    lemma_visits_reached(v, net.node, visits, j);
                    if s.chain.contains(first_net(n)) {
                        lemma_wait_again(v, roots, s, n);
                    } else {
                        assert(sorted[n as int] == s.order.contains(first_net(n)));
                        let i = choose|i: int|
                            0 <= i < j && driven_by(v, (#[trigger] visits[i]).0, visits[j].0);
                        lemma_driver_has_net(v, visits[i].0, n);
                        lemma_wait(v, roots, s, n);
                    }
                },
            }
        }
    }
}

/// Whether `net` is one of `nets`.
fn contains_net(nets: &Vec<DrivenNet>, net: DrivenNet) -> (r: bool)
    ensures
        r == nets@.contains(net),
{
    for i in 0..nets.len()
        invariant
            forall|j: int| 0 <= j < i ==> nets@[j] != net,
    {
        if nets[i] == net {
            return true;
        }
    }
    false
}

/// Copies of `nets`.
pub(crate) fn copy_nets(nets: &Vec<DrivenNet>) -> (r: Vec<DrivenNet>)
    ensures
        r@ == nets@,
{
    let mut r: Vec<DrivenNet> = Vec::new();
    for i in 0..nets.len()
        invariant
            r@ == nets@.take(i as int),
    {
        r.push(nets[i]);
        assert(r@ =~= nets@.take(i + 1));
    }
    assert(r@ =~= nets@);
    r
}

/// The outcome of an ordering, by its view.
pub open spec fn order_view(r: Result<Vec<DrivenNet>, OrderError>) -> Result<
    Seq<DrivenNet>,
    OrderError,
> {
    match r {
        Ok(order) => Ok(order@),
        Err(e) => Err(e),
    }
}

/// The nets behind `roots`, each after its drivers. It fails exactly if there
/// is a cycle behind the roots that is more than an object that drives itself
/// and is apart from all others, or an object that drives several nets and
/// another object behind the roots.
pub fn sort(netlist: &Netlist, roots: &Vec<DrivenNet>) -> (r: Result<Vec<DrivenNet>, OrderError>)
    requires
        netlist_ok(netlist@),
        has_nets(netlist@, roots@),
    ensures
        sorts_to(netlist@, roots@, order_view(r)),
        match r {
            Ok(order) => order_ok(netlist@, roots@, order@) && !tangled(netlist@, roots@)
                && !forked(netlist@, roots@),
            Err(OrderError::Cycle) => tangled(netlist@, roots@),
            Err(OrderError::Multi) => forked(netlist@, roots@),
        },
{
    let mut pending = copy_nets(roots);
    let mut chain: Vec<DrivenNet> = Vec::new();
    let mut order: Vec<DrivenNet> = Vec::new();
    let n = netlist.len();
    let mut sorted: Vec<bool> = Vec::new();
    for i in 0..n
        invariant
            sorted@ == marks(order@, i as nat),
            order@.len() == 0,
    {
        sorted.push(false);
        assert(sorted@ =~= marks(order@, (i + 1) as nat));
    }
    let ghost v = netlist@;
    let ghost mut steps: nat = 0;
    let ghost mut s = start(roots@);
    proof {
        assert(pending@ =~= roots@.take(pending@.len() as int));
        assert(state_ok(v, roots@, s));
    }
    loop
        invariant
            v == netlist@,
            netlist_ok(v),
            has_nets(v, roots@),
            state_ok(v, roots@, s),
            s == (OrderState { roots: pending@, chain: chain@, order: order@ }),
            run(v, start(roots@), steps) == Progress::Going(s),
            sorted@ == marks(order@, v.objects.len()),
        decreases
                v.objects.len() + roots@.len() - order@.len(),
                pending@.len(),
                v.objects.len() + roots@.len() - chain@.len(),
    {
        proof {
            lemma_net_count(v, roots@, order@);
            lemma_net_count(v, roots@, chain@);
            lemma_run_step(v, start(roots@), steps);
        }
        if chain.len() == 0 {
            match pending.pop() {
                None => {
                    proof {
                        lemma_step(v, roots@, s);
                        assert(run(v, start(roots@), steps + 1) == Progress::Done(Ok(order@)));
                        law_tangled_nets_have_no_order(v, roots@, order@);
                        law_forked_nets_have_no_order(v, roots@, order@);
                    }
                    return Ok(order);
                },
                Some(root) => {
                    proof {
                        lemma_step(v, roots@, s);
                        let k = s.roots.len() - 1;
                        assert(root == s.roots[k]);
                        assert(has_net(v, s.roots[k]));
                        assert(pending@ =~= s.roots.drop_last());
                    }
                    let done = if root.pos == 0 {
                        sorted[root.node]
                    } else {
                        contains_net(&order, root)
                    };
                    assert(done == order@.contains(root)) by {
                        if root.pos == 0 {
                            assert(root == first_net(root.node));
                        }
                    }
                    if !done {
                        chain.push(root);
                        assert(chain@ =~= seq![root]);
                    }
                    proof {
                        s = step(v, s)->Going_0;
                        steps = steps + 1;
                    }
                },
            }
        } else {
            let net = chain[chain.len() - 1];
            assert(net == s.chain.last());
            assert(has_net(v, s.chain[s.chain.len() - 1]));
            let found = if netlist.is_an_input(net) {
                Scan::Ready
            } else {
                let visits = netlist.dfs(net.node);
                scan(netlist, &visits, &sorted)
            };
            proof {
                lemma_step(v, roots@, s);
            }
            match found {
                Scan::Ready => {
                    let _ = chain.pop();
                    order.push(net);
                    if net.pos == 0 {
                        sorted.set(net.node, true);
                    }
                    proof {
                        lemma_mark(s.order, net, v.objects.len());
                        s = step(v, s)->Going_0;
                        steps = steps + 1;
                        assert(chain@ =~= s.chain);
                        lemma_net_count(v, roots@, order@);
                    }
                },
                Scan::Cycle => {
                    assert(run(v, start(roots@), steps + 1) == Progress::Done(
                        Err(OrderError::Cycle),
                    ));
                    return Err(OrderError::Cycle);
                },
                Scan::Multi => {
                    assert(run(v, start(roots@), steps + 1) == Progress::Done(
                        Err(OrderError::Multi),
                    ));
                    return Err(OrderError::Multi);
                },
                Scan::Wait(m) => {
                    let next = DrivenNet { node: m, pos: 0 };
                    if contains_net(&chain, next) {
                        assert(run(v, start(roots@), steps + 1) == Progress::Done(
                            Err(OrderError::Cycle),
                        ));
                        return Err(OrderError::Cycle);
                    }
                    chain.push(next);
                    proof {
                        s = step(v, s)->Going_0;
                        steps = steps + 1;
                        lemma_net_count(v, roots@, chain@);
                    }
                },
            }
        }
    }
}

/// The first net of an object marks the object and no other when it goes into
/// the order, and other nets mark none.
proof fn lemma_mark(order: Seq<DrivenNet>, net: DrivenNet, n: nat)
    requires
        net.node < n,
        n <= usize::MAX,
    ensures
        marks(order.push(net), n) == if net.pos == 0 {
            marks(order, n).update(net.node as int, true)
        } else {
            marks(order, n)
        },
{
    let next = order.push(net);
    let want = if net.pos == 0 {
        marks(order, n).update(net.node as int, true)
    } else {
        marks(order, n)
    };
    assert forall|i: int| 0 <= i < n implies marks(next, n)[i] == want[i] by {
        let d = first_net(i as usize);
        if order.contains(d) {
            let j = choose|j: int| 0 <= j < order.len() && order[j] == d;
            assert(next[j] == d);
        }
        if net == d {
            assert(next[order.len() as int] == d);
        } else if next.contains(d) {
            let j = choose|j: int| 0 <= j < next.len() && next[j] == d;
            assert(order[j] == d);
        }
    }
    assert(marks(next, n) =~= want);
}

/// In an order in which every net stands after its drivers, the only cycles
/// are objects that drive themselves.
pub proof fn law_ordered_nets_have_no_cycles(v: NetlistView, order: Seq<DrivenNet>, i: int)
    requires
        after_drivers(v, order),
        0 <= i < order.len(),
        on_cycle(v, order[i].node),
    ensures
        driven_by(v, order[i].node, order[i].node),
    decreases i,
{
    let n = order[i].node;
    let m = choose|m: usize| #[trigger] driven_by(v, n, m) && reaches(v, m, n);
    if m != n {
        assert(driven_by(v, order[i].node, m));
        let j = choose|j: int| 0 <= j < order.take(i).len() && order.take(i)[j] == first_net(m);
        let p = choose|p: Seq<usize>| #[trigger] walk(v, p) && p.first() == m && p.last() == n;
        assert(order[j] == first_net(m));
        let k = lemma_walk_back(v, order, p, j);
        law_ordered_nets_have_no_cycles(v, order, k);
    }
}

/// What is behind the roots of an order has a net in it.
pub proof fn law_order_has_all_that_is_behind(
    v: NetlistView,
    roots: Seq<DrivenNet>,
    order: Seq<DrivenNet>,
    n: usize,
) -> (k: int)
    requires
        netlist_ok(v),
        order_ok(v, roots, order),
        behind(v, roots, n),
    ensures
        0 <= k < order.len(),
        order[k].node == n,
        v.objects[n as int].wires.len() == 1 ==> order.contains(first_net(n)),
{
    let i = choose|i: int| 0 <= i < roots.len() && reaches(v, (#[trigger] roots[i]).node, n);
    let p = choose|p: Seq<usize>| #[trigger]
        walk(v, p) && p.first() == roots[i].node && p.last() == n;
    assert(order.contains(roots[i]));
    let j = choose|j: int| 0 <= j < order.len() && order[j] == roots[i];
    let k = lemma_walk_back(v, order, p, j);
    assert(has_net(v, order[k]));
    lemma_first_net(v, order[k]);
    k
}

/// Nets behind which an object that drives several nets drives another have no
/// order.
pub proof fn law_forked_nets_have_no_order(
    v: NetlistView,
    roots: Seq<DrivenNet>,
    order: Seq<DrivenNet>,
)
    requires
        netlist_ok(v),
        order_ok(v, roots, order),
    ensures
        !forked(v, roots),
{
    if forked(v, roots) {
        let (n, m) = choose|n: usize, m: usize| #[trigger] fork(v, roots, n, m);
        let k = law_order_has_all_that_is_behind(v, roots, order, n);
        assert(driven_by(v, order[k].node, m));
    }
}

/// Nets behind which there is such a cycle have no order.
pub proof fn law_tangled_nets_have_no_order(
    v: NetlistView,
    roots: Seq<DrivenNet>,
    order: Seq<DrivenNet>,
)
    requires
        netlist_ok(v),
        order_ok(v, roots, order),
    ensures
        !tangled(v, roots),
{
    if tangled(v, roots) {
        let (n, m) = choose|n: usize, m: usize| #[trigger] knot(v, roots, n, m);
        let i = law_order_has_all_that_is_behind(v, roots, order, n);
        let j = law_order_has_all_that_is_behind(v, roots, order, m);
        law_ordered_nets_have_no_cycles(v, order, i);
        if driven_by(v, n, m) {
            assert(driven_by(v, order[i].node, m));
        } else {
            assert(driven_by(v, order[j].node, n));
        }
    }
}

/// Two different objects behind the roots that reach each other are such a
/// cycle. So nets behind which a cycle leads through two or more objects have
/// no order.
pub proof fn law_longer_cycles_are_tangled(
    v: NetlistView,
    roots: Seq<DrivenNet>,
    a: usize,
    b: usize,
)
    requires
        netlist_ok(v),
        behind(v, roots, a),
        reaches(v, a, b),
        reaches(v, b, a),
        a != b,
    ensures
        tangled(v, roots),
        any_cyclic(v, roots),
{
    let p = choose|p: Seq<usize>| #[trigger] walk(v, p) && p.first() == a && p.last() == b;
    assert(p[0] == a);
    lemma_reach_each_other(v, a, b);
    lemma_reaches_self(v, a);
    assert(cyclic(v, a));
    let x = lemma_reaches_other(v, a, b);
    lemma_knot(v, roots, a, x);
    lemma_cyclic_behind(v, roots, a);
}

/// A knot behind the roots is a cycle behind one of them.
pub proof fn lemma_tangled_is_cyclic(v: NetlistView, roots: Seq<DrivenNet>)
    requires
        tangled(v, roots),
    ensures
        any_cyclic(v, roots),
{
    let (n, m) = choose|n: usize, m: usize| #[trigger] knot(v, roots, n, m);
    let x = choose|x: usize| #[trigger] driven_by(v, n, x) && reaches(v, x, n);
    let p = choose|p: Seq<usize>| #[trigger] walk(v, p) && p.first() == x && p.last() == n;
    assert(p[p.len() - 1] == n);
    lemma_reaches_self(v, n);
    assert(cyclic(v, n));
    lemma_cyclic_behind(v, roots, n);
}

/// A walk never leads on in the order.
proof fn lemma_walk_back(v: NetlistView, order: Seq<DrivenNet>, p: Seq<usize>, i: int) -> (j: int)
    requires
        after_drivers(v, order),
        walk(v, p),
        0 <= i < order.len(),
        order[i].node == p.first(),
    ensures
        0 <= j <= i,
        order[j].node == p.last(),
    decreases p.len(),
{
    if p.len() == 1 {
        i
    } else {
        let q = p.drop_last();
        assert forall|i: int| 0 < i < q.len() implies #[trigger] linked(v, q, i) by {
            assert(linked(v, p, i));
        }
        let k = lemma_walk_back(v, order, q, i);
        assert(linked(v, p, p.len() - 1));
        if p.last() == q.last() {
            k
        } else {
            assert(driven_by(v, order[k].node, p.last()));
            let j = choose|j: int|
                0 <= j < order.take(k).len() && order.take(k)[j] == first_net(p.last());
            j
        }
    }
}

/// What is in the order stays there, in its place.
proof fn lemma_order_grows(v: NetlistView, s: OrderState, n: nat, o: Seq<DrivenNet>)
    requires
        run(v, s, n) == Progress::Done(Ok::<Seq<DrivenNet>, OrderError>(o)),
    ensures
        s.order.len() <= o.len(),
        o.take(s.order.len() as int) == s.order,
    decreases n,
{
    match step(v, s) {
        Progress::Going(t) => {
            lemma_order_grows(v, t, (n - 1) as nat, o);
            assert(o.take(s.order.len() as int) =~= t.order.take(s.order.len() as int)) by {
                assert(o.take(t.order.len() as int) == t.order);
            }
            assert(t.order.take(s.order.len() as int) =~= s.order);
        },
        Progress::Done(_) => {
            assert(o.take(s.order.len() as int) =~= s.order);
        },
    }
}

/// Two orderings with the same still to do, of which one has more to do
/// afterwards.
proof fn lemma_side_by_side(
    v: NetlistView,
    s: OrderState,
    t: OrderState,
    roots: Seq<DrivenNet>,
    chain: Seq<DrivenNet>,
    n: nat,
    m: nat,
    a: Seq<DrivenNet>,
    b: Seq<DrivenNet>,
)
    requires
        t.order == s.order,
        t.roots == roots + s.roots,
        t.chain == chain + s.chain,
        chain.len() == 0 || s.roots.len() == 0,
        run(v, s, n) == Progress::Done(Ok::<Seq<DrivenNet>, OrderError>(a)),
        run(v, t, m) == Progress::Done(Ok::<Seq<DrivenNet>, OrderError>(b)),
    ensures
        a.len() <= b.len(),
        b.take(a.len() as int) == a,
    decreases n,
{
    match step(v, s) {
        Progress::Done(_) => {
            lemma_order_grows(v, t, m, b);
        },
        Progress::Going(p) => {
            if s.chain.len() == 0 {
                assert(t.chain.len() == 0);
                assert(t.roots.last() == s.roots.last());
                assert(t.roots.drop_last() =~= roots + s.roots.drop_last());
            } else {
                assert(t.chain.last() == s.chain.last());
                assert(t.chain.drop_last() =~= chain + s.chain.drop_last());
                assert forall|d: DrivenNet| s.chain.contains(d) implies #[trigger] t.chain.contains(
                    d,
                ) by {
                    let k = choose|k: int| 0 <= k < s.chain.len() && s.chain[k] == d;
                    assert(t.chain[k + chain.len()] == d);
                }
            }
            let q = step(v, t)->Going_0;
            assert(step(v, t) is Going);
            assert(q.order == p.order);
            assert(q.roots =~= roots + p.roots);
            assert(q.chain =~= chain + p.chain);
            lemma_side_by_side(v, p, q, roots, chain, (n - 1) as nat, (m - 1) as nat, a, b);
        },
    }
}

/// Later roots come first: what is behind the others is put in order before
/// anything for the first root is, just as it would be without it.
pub proof fn law_later_roots_come_first(
    v: NetlistView,
    roots: Seq<DrivenNet>,
    a: Seq<DrivenNet>,
    b: Seq<DrivenNet>,
)
    requires
        roots.len() > 0,
        sorts_to(v, roots.skip(1), Ok(a)),
        sorts_to(v, roots, Ok(b)),
    ensures
        a.len() <= b.len(),
        b.take(a.len() as int) == a,
{
    let rest = roots.skip(1);
    let n = choose|n: nat| #[trigger]
        run(v, start(rest), n) == Progress::Done(Ok::<Seq<DrivenNet>, OrderError>(a));
    let m = choose|n: nat| #[trigger]
        run(v, start(roots), n) == Progress::Done(Ok::<Seq<DrivenNet>, OrderError>(b));
    assert(roots =~= seq![roots[0]] + rest);
    assert(start(roots).chain =~= Seq::<DrivenNet>::empty() + start(rest).chain);
    lemma_side_by_side(v, start(rest), start(roots), seq![roots[0]], Seq::empty(), n, m, a, b);
}

/// The object that a walk from a root meets first comes first, with all that
/// is behind it, just as it would be put in order for itself.
pub proof fn law_first_met_come_first(
    v: NetlistView,
    net: DrivenNet,
    a: Seq<DrivenNet>,
    b: Seq<DrivenNet>,
)
    requires
        !(v.objects[net.node as int].kind is Input),
        dfs_visits(v, net.node).len() > 1,
        dfs_visits(v, net.node)[1].0 < v.objects.len(),
        sorts_to(v, seq![first_net(dfs_visits(v, net.node)[1].0)], Ok(a)),
        sorts_to(v, seq![net], Ok(b)),
    ensures
        a.len() <= b.len(),
        b.take(a.len() as int) == a,
{
    let d = first_net(dfs_visits(v, net.node)[1].0);
    let n = choose|n: nat| #[trigger]
        run(v, start(seq![d]), n) == Progress::Done(Ok::<Seq<DrivenNet>, OrderError>(a));
    let m = choose|n: nat| #[trigger]
        run(v, start(seq![net]), n) == Progress::Done(Ok::<Seq<DrivenNet>, OrderError>(b));
    let s = step(v, start(seq![d]))->Going_0;
    let t = step(v, start(seq![net]))->Going_0;
    assert(s.chain =~= seq![d] && s.roots =~= Seq::empty());
    assert(t.chain =~= seq![net] && t.roots =~= Seq::empty());
    assert(run(v, t, (m - 1) as nat) is Done);
    let u = step(v, t)->Going_0;
    assert(!marks(t.order, v.objects.len())[dfs_visits(v, net.node)[1].0 as int]);
    assert(scan_from(v, dfs_visits(v, net.node), marks(t.order, v.objects.len()), 1) == (if dfs_visits(
        v,
        net.node,
    )[1].1 {
        Scan::Cycle
    } else if v.objects[d.node as int].wires.len() > 1 {
        Scan::Multi
    } else {
        Scan::Wait(d.node)
    }));
    assert(step(v, t) is Going);
    assert(u.chain =~= seq![net] + s.chain);
    assert(u.roots =~= Seq::<DrivenNet>::empty() + s.roots);
    lemma_side_by_side(
        v,
        s,
        u,
        Seq::empty(),
        seq![net],
        (n - 1) as nat,
        (m - 2) as nat,
        a,
        b,
    );
}

} // verus!
