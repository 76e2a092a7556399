//! The nets that leaves are, by name.

use crate::netlist::DrivenNet;
use vstd::hash_map::StringHashMap;
use vstd::prelude::*;

verus! {

/// Nets by name. Their names can be listed.
pub struct LeafTable {
    nets: StringHashMap<DrivenNet>,
    names: Vec<String>,
}

impl View for LeafTable {
    type V = Map<Seq<char>, DrivenNet>;

    closed spec fn view(&self) -> Map<Seq<char>, DrivenNet> {
        self.nets@
    }
}

/// Whether `name` is one of `names`.
pub open spec fn is_listed(names: Seq<String>, name: Seq<char>) -> bool {
    exists|i: int| 0 <= i < names.len() && (#[trigger] names[i])@ == name
}

impl LeafTable {
    #[verifier::type_invariant]
    spec fn well_formed(self) -> bool {
        forall|name: Seq<char>| #[trigger]
            self.nets@.contains_key(name) <==> is_listed(self.names@, name)
    }

    /// A table without nets.
    pub fn new() -> (r: LeafTable)
        ensures
            r@ == Map::<Seq<char>, DrivenNet>::empty(),
    {
        LeafTable { nets: StringHashMap::new(), names: Vec::new() }
    }

    /// The net called `name`.
    pub fn get(&self, name: &str) -> (r: Option<DrivenNet>)
        ensures
            r == if self@.contains_key(name@) {
                Some(self@[name@])
            } else {
                None
            },
    {
        match self.nets.get(name) {
            Some(net) => Some(*net),
            None => None,
        }
    }

    /// All names.
    pub fn names(&self) -> (r: &Vec<String>)
        ensures
            forall|name: Seq<char>| #[trigger]
                self@.contains_key(name) <==> is_listed(r@, name),
    {
        proof {
            use_type_invariant(self);
        }
        &self.names
    }

    /// The same table with the net called `name` set.
    pub fn with(self, name: String, net: DrivenNet) -> (r: LeafTable)
        ensures
            r@ == self@.insert(name@, net),
    {
        proof {
            use_type_invariant(&self);
        }
        let known = self.nets.contains_key(name.as_str());
        let mut nets = self.nets;
        let mut names = self.names;
        let ghost first = names@;
        if !known {
            names.push(name.clone());
        }
        nets.insert(name, net);
        proof {
            assert forall|n: Seq<char>| #[trigger]
                nets@.contains_key(n) <==> is_listed(names@, n) by {
                if is_listed(first, n) {
                    let i = choose|i: int| 0 <= i < first.len() && (#[trigger] first[i])@ == n;
                    assert(names@[i]@ == n);
                }
                if is_listed(names@, n) {
                    let i = choose|i: int| 0 <= i < names@.len() && (#[trigger] names@[i])@ == n;
                    if i < first.len() {
                        assert(first[i]@ == n);
                    }
                }
                if n == name@ && !known {
                    assert(names@[first.len() as int]@ == n);
                }
            }
        }
        LeafTable { nets, names }
    }
}

impl Clone for LeafTable {
    fn clone(&self) -> (r: LeafTable)
        ensures
            r@ == self@,
    {
        let names = self.names();
        let mut r = LeafTable::new();
        for i in 0..names.len()
            invariant
                forall|name: Seq<char>| #[trigger]
                    self@.contains_key(name) <==> is_listed(names@, name),
                forall|name: Seq<char>| #[trigger]
                    r@.contains_key(name) ==> self@.contains_key(name) && r@[name] == self@[name],
                forall|j: int| 0 <= j < i ==> r@.contains_key((#[trigger] names@[j])@),
        {
            assert(self@.contains_key(names@[i as int]@));
            if let Some(net) = self.get(names[i].as_str()) {
                r = r.with(names[i].clone(), net);
            }
        }
        proof {
            assert forall|name: Seq<char>| #[trigger] self@.contains_key(name) implies r@.contains_key(
                name,
            ) by {
                let i = choose|i: int| 0 <= i < names@.len() && (#[trigger] names@[i])@ == name;
            }
            assert(r@ =~= self@);
        }
        r
    }
}

} // verus!
