//! Parameters of cells, such as the truth table of a lookup table.

use crate::ident::{Ident, IdentView};
use crate::level::LogicValue;
use vstd::arithmetic::power2::pow2;
use vstd::prelude::*;

verus! {

/// A parameter of the `safety_net` crate, carried along unread.
#[verifier::external_type_specification]
#[verifier::external_body]
pub struct ExParameter(safety_net::Parameter);

/// The value of a cell's parameter.
#[derive(Debug)]
pub enum Param {
    /// An unsigned integer.
    Integer(u64),
    /// The bits of a truth table, the lowest first.
    BitVec(Vec<bool>),
    /// A four-state logic value.
    Logic(LogicValue),
    /// A real number, in the form that `safety_net` has it.
    Real(safety_net::Parameter),
}

/// What a parameter stands for.
pub enum ParamView {
    Integer(u64),
    BitVec(Seq<bool>),
    Logic(LogicValue),
    Real(safety_net::Parameter),
}

impl View for Param {
    type V = ParamView;

    open spec fn view(&self) -> ParamView {
        match self {
            Param::Integer(n) => ParamView::Integer(*n),
            Param::BitVec(bits) => ParamView::BitVec(bits@),
            Param::Logic(v) => ParamView::Logic(*v),
            Param::Real(raw) => ParamView::Real(*raw),
        }
    }
}

/// The number whose binary digits, the lowest first, are `bits`.
pub open spec fn bits_value(bits: Seq<bool>) -> nat
    decreases bits.len(),
{
    if bits.len() == 0 {
        0
    } else {
        (if bits[0] {
            1nat
        } else {
            0nat
        }) + 2 * bits_value(bits.drop_first())
    }
}

/// The lowest `size` binary digits of `v`, the lowest first.
pub open spec fn value_bits(v: nat, size: nat) -> Seq<bool>
    decreases size,
{
    if size == 0 {
        Seq::empty()
    } else {
        seq![v % 2 == 1] + value_bits(v / 2, (size - 1) as nat)
    }
}

/// A truth table that was stored as bits is read back: what `size` bits
/// cannot hold is cut off, and nothing else is lost.
pub proof fn law_bits_read_back(v: nat, size: nat)
    ensures
        value_bits(v, size).len() == size,
        bits_value(value_bits(v, size)) == v % pow2(size),
    decreases size,
{
    broadcast use vstd::arithmetic::power2::lemma_pow2_pos;

    if size == 0 {
        assert(pow2(0) == 1) by {
            vstd::arithmetic::power2::lemma2_to64();
        }
        assert(v % 1 == 0);
    } else {
        let rest = (size - 1) as nat;
        law_bits_read_back(v / 2, rest);
        assert(value_bits(v, size).drop_first() =~= value_bits(v / 2, rest));
        vstd::arithmetic::power2::lemma_pow2_unfold(size);
        vstd::arithmetic::div_mod::lemma_mod_breakdown(v as int, 2, pow2(rest) as int);
        assert(value_bits(v, size)[0] == (v % 2 == 1));
    }
}

/// Bits that were read as a number are written back the same.
pub proof fn law_bits_come_back(bits: Seq<bool>)
    ensures
        value_bits(bits_value(bits), bits.len()) == bits,
    decreases bits.len(),
{
    if bits.len() > 0 {
        law_bits_come_back(bits.drop_first());
    }
    assert(value_bits(bits_value(bits), bits.len()) =~= bits);
}

/// A number of `n` bits is less than the `n`th power of two.
pub proof fn lemma_bits_value_bound(bits: Seq<bool>)
    ensures
        bits_value(bits) < pow2(bits.len()),
    decreases bits.len(),
{
    broadcast use vstd::arithmetic::power2::lemma_pow2_pos;

    if bits.len() > 0 {
        lemma_bits_value_bound(bits.drop_first());
        vstd::arithmetic::power2::lemma_pow2_unfold(bits.len());
    }
}

/// Calls `bitvec`'s `BitField::load_le::<u64>` on a vector of `bits`, which
/// reads them as one number, the lowest first. It panics on no bits and on
/// more than 64.
#[verifier::external_body]
pub(crate) fn load_le(bits: &Vec<bool>) -> (r: u64)
    requires
        1 <= bits@.len() <= 64,
    ensures
        r == bits_value(bits@),
{
    let bv: bitvec::vec::BitVec = bits.iter().collect();
    bitvec::field::BitField::load_le(&bv[..])
}

/// Calls `safety_net::Parameter::bitvec`, which holds the lowest `size` bits
/// of a number. It panics on more than 64 bits.
#[verifier::external_body]
pub(crate) fn bitvec(size: usize, val: u64) -> (r: Param)
    requires
        size <= 64,
    ensures
        r@ == ParamView::BitVec(value_bits(val as nat, size as nat)),
{
    describe_param(safety_net::Parameter::bitvec(size, val))
}

/// The `safety_net::Parameter` of a parameter.
pub uninterp spec fn outside_param(param: ParamView) -> safety_net::Parameter;

/// What a `safety_net::Parameter` stands for. What is no integer, no bits
/// and no logic value is a real number.
pub open spec fn param_view(raw: safety_net::Parameter) -> ParamView {
    if exists|p: ParamView| #[trigger] outside_param(p) == raw && !(p is Real) {
        choose|p: ParamView| #[trigger] outside_param(p) == raw && !(p is Real)
    } else {
        ParamView::Real(raw)
    }
}

/// The parameter of a `safety_net::Parameter`, variant by variant. An
/// integer, bits or a logic value are read, and one that holds them is the
/// parameter of no others. A real number is carried along.
#[verifier::external_body]
pub(crate) fn describe_param(raw: safety_net::Parameter) -> (r: Param)
    ensures
        r@ matches ParamView::Real(p) ==> p == raw,
        !(r@ is Real) ==> outside_param(r@) == raw,
        forall|p: ParamView| #[trigger] outside_param(p) == raw && !(p is Real) ==> p == r@,
{
    match raw {
        safety_net::Parameter::Integer(n) => Param::Integer(n),
        safety_net::Parameter::BitVec(bv) => Param::BitVec(bv.iter().by_vals().collect()),
        safety_net::Parameter::Logic(v) => Param::Logic(crate::level::describe_level(v)),
        other => Param::Real(other),
    }
}

/// The variant of `safety_net::Parameter` for a parameter, with what it
/// holds. A real number is handed back.
#[verifier::external_body]
pub(crate) fn raw_param(param: &Param) -> (r: safety_net::Parameter)
    ensures
        r == outside_param(param@),
        param@ matches ParamView::Real(p) ==> r == p,
{
    match param {
        Param::Integer(n) => safety_net::Parameter::Integer(*n),
        Param::BitVec(bits) => safety_net::Parameter::BitVec(bits.iter().collect()),
        Param::Logic(v) => safety_net::Parameter::Logic(crate::level::raw_level(*v)),
        Param::Real(raw) => raw.clone(),
    }
}

/// `Clone` of `safety_net::Parameter` is derived: the copy is the same.
pub assume_specification[ <safety_net::Parameter as Clone>::clone ](
    param: &safety_net::Parameter,
) -> (r: safety_net::Parameter)
    ensures
        r == *param,
;

impl Clone for Param {
    fn clone(&self) -> (r: Param)
        ensures
            r@ == self@,
    {
        match self {
            Param::Integer(n) => Param::Integer(*n),
            Param::BitVec(bits) => {
                let copy = bits.clone();
                assert(copy@ =~= bits@);
                Param::BitVec(copy)
            },
            Param::Logic(v) => Param::Logic(*v),
            Param::Real(raw) => Param::Real(raw.clone()),
        }
    }
}

/// The parameters of a cell, by their names.
#[derive(Debug)]
pub struct ParamTable {
    entries: Vec<(Ident, Param)>,
}

/// The parameter called `id` among the first `n` of `entries`, where the
/// last of that name counts.
spec fn find(entries: Seq<(Ident, Param)>, id: IdentView, n: int) -> Option<ParamView>
    decreases n,
{
    if n <= 0 {
        None
    } else if entries[n - 1].0@ == id {
        Some(entries[n - 1].1@)
    } else {
        find(entries, id, n - 1)
    }
}

/// Whether no two of `entries` have the same name.
spec fn distinct(entries: Seq<(Ident, Param)>) -> bool {
    forall|i: int, j: int|
        0 <= i < j < entries.len() ==> (#[trigger] entries[i]).0@ != (#[trigger] entries[j]).0@
}

proof fn lemma_find_at(entries: Seq<(Ident, Param)>, id: IdentView, n: int, i: int)
    requires
        distinct(entries),
        0 <= i < n <= entries.len(),
        entries[i].0@ == id,
    ensures
        find(entries, id, n) == Some(entries[i].1@),
    decreases n,
{
    if i < n - 1 {
        lemma_find_at(entries, id, n - 1, i);
    }
}

proof fn lemma_find_none(entries: Seq<(Ident, Param)>, id: IdentView, n: int)
    requires
        0 <= n <= entries.len(),
        forall|i: int| 0 <= i < n ==> (#[trigger] entries[i]).0@ != id,
    ensures
        find(entries, id, n) is None,
    decreases n,
{
    if n > 0 {
        lemma_find_none(entries, id, n - 1);
    }
}

proof fn lemma_found(entries: Seq<(Ident, Param)>, id: IdentView, n: int) -> (i: int)
    requires
        0 <= n <= entries.len(),
        find(entries, id, n) is Some,
    ensures
        0 <= i < n,
        entries[i].0@ == id,
        find(entries, id, n) == Some(entries[i].1@),
    decreases n,
{
    if entries[n - 1].0@ == id {
        n - 1
    } else {
        lemma_found(entries, id, n - 1)
    }
}

impl View for ParamTable {
    type V = Map<IdentView, ParamView>;

    closed spec fn view(&self) -> Map<IdentView, ParamView> {
        Map::new(
            |id: IdentView| find(self.entries@, id, self.entries@.len() as int) is Some,
            |id: IdentView| find(self.entries@, id, self.entries@.len() as int)->0,
        )
    }
}

impl ParamTable {
    #[verifier::type_invariant]
    spec fn named_once(self) -> bool {
        distinct(self.entries@)
    }

    /// A table without parameters.
    pub fn new() -> (r: ParamTable)
        ensures
            r@ == Map::<IdentView, ParamView>::empty(),
    {
        let r = ParamTable { entries: Vec::new() };
        assert(r@ =~= Map::<IdentView, ParamView>::empty());
        r
    }

    /// Where the parameter called `id` stands.
    fn position(&self, id: &Ident) -> (r: Option<usize>)
        ensures
            match r {
                Some(i) => i < self.entries@.len() && self.entries@[i as int].0@ == id@
                    && self@.contains_key(id@) && self@[id@] == self.entries@[i as int].1@,
                None => !self@.contains_key(id@) && forall|j: int|
                    0 <= j < self.entries@.len() ==> (#[trigger] self.entries@[j]).0@ != id@,
            },
    {
        proof {
            use_type_invariant(self);
        }
        let mut i: usize = 0;
        while i < self.entries.len()
            invariant
                i <= self.entries@.len(),
                distinct(self.entries@),
                forall|j: int| 0 <= j < i ==> (#[trigger] self.entries@[j]).0@ != id@,
            decreases self.entries@.len() - i,
        {
            if self.entries[i].0.same(id) {
                proof {
                    lemma_find_at(self.entries@, id@, self.entries@.len() as int, i as int);
                }
                return Some(i);
            }
            i += 1;
        }
        proof {
            lemma_find_none(self.entries@, id@, self.entries@.len() as int);
        }
        None
    }

    /// Whether there is a parameter called `id`.
    pub fn contains(&self, id: &Ident) -> (r: bool)
        ensures
            r == self@.contains_key(id@),
    {
        self.position(id).is_some()
    }

    /// The parameter called `id`.
    pub fn get(&self, id: &Ident) -> (r: Option<Param>)
        ensures
            match r {
                Some(p) => self@.contains_key(id@) && p@ == self@[id@],
                None => !self@.contains_key(id@),
            },
    {
        match self.position(id) {
            Some(i) => Some(self.entries[i].1.clone()),
            None => None,
        }
    }

    /// Sets the parameter called `id`, and returns what it was before.
    pub fn insert(&mut self, id: Ident, val: Param) -> (r: Option<Param>)
        ensures
            final(self)@ == old(self)@.insert(id@, val@),
            match r {
                Some(p) => old(self)@.contains_key(id@) && p@ == old(self)@[id@],
                None => !old(self)@.contains_key(id@),
            },
    {
        let at = self.position(&id);
        let ghost before = self.entries@;
        let ghost key = id@;
        proof {
            use_type_invariant(&*self);
        }
        let mut entries: Vec<(Ident, Param)> = Vec::new();
        std::mem::swap(&mut entries, &mut self.entries);
        let r = match at {
            Some(i) => {
                let was = entries[i].1.clone();
                entries.set(i, (id, val));
                Some(was)
            },
            None => {
                entries.push((id, val));
                None
            },
        };
        assert(distinct(entries@));
        proof {
            let n = entries@.len() as int;
            let m = before.len() as int;
            let pos = if at is Some {
                at->0 as int
            } else {
                m
            };
            lemma_find_at(entries@, key, n, pos);
            assert forall|other: IdentView| other != key implies find(entries@, other, n) == find(
                before,
                other,
                m,
            ) by {
                if find(before, other, m) is Some {
                    let j = lemma_found(before, other, m);
                    assert(entries@[j] == before[j]);
                    lemma_find_at(entries@, other, n, j);
                } else {
                    assert forall|j: int| 0 <= j < n implies (#[trigger] entries@[j]).0@
                        != other by {
                        if j < m && before[j].0@ == other {
                            lemma_find_at(before, other, m, j);
                        }
                    }
                    lemma_find_none(entries@, other, n);
                }
            }
        }
        self.entries = entries;
        assert(self@ =~= old(self)@.insert(key, val@));
        r
    }

    /// All parameters with their names, each once.
    pub fn entries(&self) -> (r: Vec<(Ident, Param)>)
        ensures
            forall|i: int, j: int|
                0 <= i < j < r@.len() ==> (#[trigger] r@[i]).0@ != (#[trigger] r@[j]).0@,
            forall|i: int|
                0 <= i < r@.len() ==> self@.contains_key((#[trigger] r@[i]).0@)
                    && self@[r@[i].0@] == r@[i].1@,
            forall|id: IdentView| #[trigger]
                self@.contains_key(id) ==> exists|i: int| 0 <= i < r@.len() && r@[i].0@ == id,
    {
        proof {
            use_type_invariant(self);
        }
        let mut r: Vec<(Ident, Param)> = Vec::new();
        for i in 0..self.entries.len()
            invariant
                r@.len() == i,
                forall|j: int|
                    0 <= j < i ==> (#[trigger] r@[j]).0@ == self.entries@[j].0@ && r@[j].1@
                        == self.entries@[j].1@,
        {
            r.push((self.entries[i].0.clone(), self.entries[i].1.clone()));
        }
        proof {
            let n = self.entries@.len() as int;
            assert forall|i: int| 0 <= i < r@.len() implies self@.contains_key(
                (#[trigger] r@[i]).0@,
            ) && self@[r@[i].0@] == r@[i].1@ by {
                lemma_find_at(self.entries@, r@[i].0@, n, i);
            }
            assert forall|id: IdentView| #[trigger] self@.contains_key(id) implies exists|i: int|
                0 <= i < r@.len() && r@[i].0@ == id by {
                let i = lemma_found(self.entries@, id, n);
                assert(r@[i].0@ == id);
            }
        }
        r
    }
}

impl Clone for ParamTable {
    fn clone(&self) -> (r: ParamTable)
        ensures
            r@ == self@,
    {
        let entries = self.entries();
        let r = ParamTable { entries };
        proof {
            use_type_invariant(self);
            let n = self.entries@.len() as int;
            let m = entries@.len() as int;
            assert forall|id: IdentView| find(entries@, id, m) == find(self.entries@, id, n) by {
                if self@.contains_key(id) {
                    let i = choose|i: int| 0 <= i < m && entries@[i].0@ == id;
                    lemma_find_at(entries@, id, m, i);
                } else {
                    assert forall|j: int| 0 <= j < m implies (#[trigger] entries@[j]).0@ != id by {
                    }
                    lemma_find_none(entries@, id, m);
                }
            }
            assert(r@ =~= self@);
        }
        r
    }
}

} // verus!
