//! The places of nets in an expression.

use crate::lang::Id;
use crate::netlist::DrivenNet;
use vstd::prelude::*;

verus! {

/// The places of nets. Those of first nets are found by their object.
pub struct Places {
    firsts: Vec<Option<Id>>,
    others: Vec<(DrivenNet, Id)>,
}

/// Where the net `d` is listed.
spec fn listed_at(others: Seq<(DrivenNet, Id)>, d: DrivenNet, i: int) -> bool {
    0 <= i < others.len() && others[i].0 == d
}

/// Whether no net is listed twice.
spec fn listed_once(others: Seq<(DrivenNet, Id)>) -> bool {
    forall|i: int, j: int|
        0 <= i < j < others.len() ==> (#[trigger] others[i]).0 != (#[trigger] others[j]).0
}

impl View for Places {
    type V = Map<DrivenNet, Id>;

    closed spec fn view(&self) -> Map<DrivenNet, Id> {
        Map::new(
            |d: DrivenNet|
                if d.pos == 0 {
                    d.node < self.firsts@.len() && self.firsts@[d.node as int] is Some
                } else {
                    exists|i: int| #[trigger] listed_at(self.others@, d, i)
                },
            |d: DrivenNet|
                if d.pos == 0 {
                    self.firsts@[d.node as int]->0
                } else {
                    self.others@[choose|i: int| #[trigger] listed_at(self.others@, d, i)].1
                },
        )
    }
}

impl Places {
    #[verifier::type_invariant]
    spec fn well_formed(self) -> bool {
        listed_once(self.others@)
    }

    /// How many objects there is room for.
    pub closed spec fn size(self) -> nat {
        self.firsts@.len()
    }

    /// No places, with room for the nets of `n` objects.
    pub fn new(n: usize) -> (r: Places)
        ensures
            r@ == Map::<DrivenNet, Id>::empty(),
            r.size() == n,
    {
        let mut firsts: Vec<Option<Id>> = Vec::new();
        for i in 0..n
            invariant
                firsts@.len() == i,
                forall|j: int| 0 <= j < i ==> (#[trigger] firsts@[j]) is None,
        {
            firsts.push(None);
        }
        let r = Places { firsts, others: Vec::new() };
        assert(r@ =~= Map::<DrivenNet, Id>::empty());
        r
    }

    /// Where a net that is no first one is listed.
    fn find(&self, net: DrivenNet) -> (r: Option<usize>)
        ensures
            match r {
                Some(i) => listed_at(self.others@, net, i as int),
                None => forall|i: int| !(#[trigger] listed_at(self.others@, net, i)),
            },
    {
        for i in 0..self.others.len()
            invariant
                forall|j: int| 0 <= j < i ==> !(#[trigger] listed_at(self.others@, net, j)),
        {
            if self.others[i].0 == net {
                return Some(i);
            }
        }
        None
    }

    /// The place of a net.
    pub fn get(&self, net: DrivenNet) -> (r: Option<Id>)
        ensures
            r == if self@.contains_key(net) {
                Some(self@[net])
            } else {
                None
            },
    {
        proof {
            use_type_invariant(self);
        }
        if net.pos == 0 {
            if net.node < self.firsts.len() {
                self.firsts[net.node]
            } else {
                None
            }
        } else {
            match self.find(net) {
                Some(i) => {
                    assert(listed_at(self.others@, net, i as int));
                    Some(self.others[i].1)
                },
                None => None,
            }
        }
    }

    /// Sets the place of a net.
    pub fn insert(&mut self, net: DrivenNet, id: Id)
        requires
            net.node < old(self).size(),
        ensures
            final(self)@ == old(self)@.insert(net, id),
            final(self).size() == old(self).size(),
    {
        proof {
            use_type_invariant(&*self);
        }
        if net.pos == 0 {
            let mut firsts: Vec<Option<Id>> = Vec::new();
            std::mem::swap(&mut firsts, &mut self.firsts);
            firsts.set(net.node, Some(id));
            self.firsts = firsts;
        } else {
            let mut others: Vec<(DrivenNet, Id)> = Vec::new();
            let found = self.find(net);
            std::mem::swap(&mut others, &mut self.others);
            let ghost first = others@;
            match found {
                Some(i) => {
                    others.set(i, (net, id));
                    assert(listed_at(others@, net, i as int));
                },
                None => {
                    assert forall|i: int| 0 <= i < first.len() implies (#[trigger] first[i]).0
                        != net by {
                        assert(!listed_at(first, net, i));
                    }
                    others.push((net, id));
                    assert(listed_at(others@, net, first.len() as int));
                },
            }
            proof {
                assert forall|d: DrivenNet, i: int| d != net implies (#[trigger] listed_at(
                    others@,
                    d,
                    i,
                ) <==> listed_at(first, d, i)) by {}
                assert(listed_once(others@));
            }
            self.others = others;
        }
        proof {
            let now = self@;
            let want = old(self)@.insert(net, id);
            assert forall|d: DrivenNet| #[trigger] now.contains_key(d) <==> want.contains_key(d) by {
                if d.pos != 0 && d != net {
                    if old(self)@.contains_key(d) {
                        let i = choose|i: int| #[trigger] listed_at(old(self).others@, d, i);
                        assert(listed_at(self.others@, d, i));
                    }
                    if now.contains_key(d) {
                        let i = choose|i: int| #[trigger] listed_at(self.others@, d, i);
                        assert(listed_at(old(self).others@, d, i));
                    }
                }
            }
            assert forall|d: DrivenNet| #[trigger] now.contains_key(d) implies now[d] == want[d] by {
                if d.pos != 0 {
                    let i = choose|i: int| #[trigger] listed_at(self.others@, d, i);
                    if d != net {
                        let j = choose|j: int| #[trigger] listed_at(old(self).others@, d, j);
                        assert(listed_at(old(self).others@, d, i));
                        assert(i == j);
                    }
                }
            }
            assert(now =~= want);
        }
    }
}

} // verus!
