//! Names of nets, ports, cells and instances.

use crate::text::{all_digits, decimal, digits_value, is_digit};
use vstd::prelude::*;

verus! {

/// An identifier of the `safety_net` crate, carried along unread.
#[verifier::external_type_specification]
#[verifier::external_body]
pub struct ExIdentifier(safety_net::Identifier);

/// How an identifier is written in Verilog.
#[derive(Debug, Clone, Copy, PartialEq, Eq, Structural)]
pub enum IdentKind {
    /// A plain name.
    Normal,
    /// One bit of a bus.
    BitSlice(usize),
    /// A name that has to be escaped.
    Escaped,
}

/// An identifier: its name, and how it is written.
#[derive(Debug)]
pub struct Ident {
    name: String,
    kind: IdentKind,
    raw: safety_net::Identifier,
}

/// What an identifier stands for.
pub struct IdentView {
    pub name: Seq<char>,
    pub kind: IdentKind,
}

impl View for Ident {
    type V = IdentView;

    closed spec fn view(&self) -> IdentView {
        IdentView { name: self.name@, kind: self.kind }
    }
}

/// The characters that make a name one that has to be escaped.
pub open spec fn needs_escape(c: char) -> bool {
    c == ' ' || c == '\\' || c == '(' || c == ')' || c == ',' || c == '+' || c == '-' || c == '$'
        || c == '\'' || c == '~' || c == ';' || c == '.' || c == '?' || c == '!'
}

/// The bit that `text` selects, and the position of its opening bracket,
/// where it has the form `name[digits]`.
pub open spec fn bit_select(text: Seq<char>) -> Option<(int, usize)> {
    match text.index_of_first('[') {
        Some(open) => {
            let digits = text.subrange(open + 1, text.len() - 1);
            if text.last() == ']' && all_digits(digits) && digits_value(digits) <= usize::MAX {
                Some((open, digits_value(digits) as usize))
            } else {
                None
            }
        },
        None => None,
    }
}

/// The identifier that non-empty text denotes. A leading backslash escapes
/// the rest, a leading digit or a special character escapes the whole, and
/// `name[digits]` selects a bit.
pub open spec fn ident_of(text: Seq<char>) -> IdentView {
    if text[0] == '\\' {
        IdentView { name: text.skip(1), kind: IdentKind::Escaped }
    } else if is_digit(text[0]) || exists|i: int|
        0 <= i < text.len() && needs_escape(#[trigger] text[i]) {
        IdentView { name: text, kind: IdentKind::Escaped }
    } else {
        match bit_select(text) {
            Some((open, bit)) => IdentView { name: text.take(open), kind: IdentKind::BitSlice(bit) },
            None => IdentView { name: text, kind: IdentKind::Normal },
        }
    }
}

/// The text of an identifier.
pub open spec fn ident_text(id: IdentView) -> Seq<char> {
    match id.kind {
        IdentKind::Normal => id.name,
        IdentKind::BitSlice(bit) => id.name + seq!['['] + decimal(bit as nat) + seq![']'],
        IdentKind::Escaped => seq!['\\'] + id.name + seq![' '],
    }
}

/// The name of an identifier as it goes into a joined one, with its bit
/// behind an underscore.
pub open spec fn flat_name(id: IdentView) -> Seq<char> {
    match id.kind {
        IdentKind::BitSlice(bit) => id.name + seq!['_'] + decimal(bit as nat),
        _ => id.name,
    }
}

/// Two identifiers joined by an underscore. The result has to be escaped
/// unless both parts are plain names.
pub open spec fn join_idents(a: IdentView, b: IdentView) -> IdentView {
    IdentView {
        name: flat_name(a) + seq!['_'] + flat_name(b),
        kind: if a.kind is Normal && b.kind is Normal {
            IdentKind::Normal
        } else {
            IdentKind::Escaped
        },
    }
}

/// The `safety_net::Identifier` of a given name and kind.
pub uninterp spec fn outside_ident(id: IdentView) -> safety_net::Identifier;

/// The name and the kind of a `safety_net::Identifier`.
pub open spec fn ident_view(raw: safety_net::Identifier) -> IdentView {
    choose|id: IdentView| #[trigger] outside_ident(id) == raw
}

/// Reads the name and the kind of an identifier of `safety_net`, through
/// `Identifier::get_name`, `get_bit_index` and `is_escaped`. An identifier
/// is made of these two and nothing else, so it is the one of that name and
/// kind, and of no other.
#[verifier::external_body]
pub(crate) fn describe(raw: safety_net::Identifier) -> (r: Ident)
    ensures
        outside_ident(r@) == raw,
        forall|id: IdentView| #[trigger] outside_ident(id) == raw ==> id == r@,
{
    let kind = match (raw.get_bit_index(), raw.is_escaped()) {
        (Some(bit), _) => IdentKind::BitSlice(bit),
        (None, true) => IdentKind::Escaped,
        (None, false) => IdentKind::Normal,
    };
    Ident { name: raw.get_name().to_string(), kind, raw }
}

/// Calls `safety_net::Identifier::new`, which tells escaped names, selected
/// bits and plain names apart as [`ident_of`] says.
#[verifier::external_body]
fn parse_ident(text: &str) -> (r: Ident)
    requires
        text@.len() > 0,
    ensures
        r@ == ident_of(text@),
{
    describe(safety_net::Identifier::new(text.to_string()))
}

/// Calls `Display` of `safety_net::Identifier`: an escaped name stands
/// between a backslash and a space, a selected bit in brackets.
#[verifier::external_body]
fn show_ident(id: &Ident) -> (r: String)
    ensures
        r@ == ident_text(id@),
{
    id.raw.to_string()
}

/// Calls `+` of `safety_net::Identifier`, which joins two names with an
/// underscore as [`join_idents`] says.
#[verifier::external_body]
fn join_raw(a: &Ident, b: &Ident) -> (r: Ident)
    ensures
        r@ == join_idents(a@, b@),
{
    describe(&a.raw + &b.raw)
}

/// `Clone` of `safety_net::Identifier` is derived: the copy has the same
/// name and kind.
pub assume_specification[ <safety_net::Identifier as Clone>::clone ](
    id: &safety_net::Identifier,
) -> (r: safety_net::Identifier)
    ensures
        r == *id,
;

impl Ident {
    #[verifier::type_invariant]
    spec fn well_formed(self) -> bool {
        self.raw == outside_ident(self@)
    }

    /// The identifier that `text` denotes.
    pub fn new(text: &str) -> (r: Ident)
        requires
            text@.len() > 0,
        ensures
            r@ == ident_of(text@),
    {
        parse_ident(text)
    }

    /// The text of the identifier.
    pub fn to_text(&self) -> (r: String)
        ensures
            r@ == ident_text(self@),
    {
        show_ident(self)
    }

    /// The name, without what escapes it or selects a bit.
    pub fn name(&self) -> (r: &str)
        ensures
            r@ == self@.name,
    {
        self.name.as_str()
    }

    /// How the identifier is written.
    pub fn kind(&self) -> (r: IdentKind)
        ensures
            r == self@.kind,
    {
        self.kind
    }

    /// This identifier and `other`, joined by an underscore.
    pub fn join(&self, other: &Ident) -> (r: Ident)
        ensures
            r@ == join_idents(self@, other@),
    {
        join_raw(self, other)
    }

    /// Whether two identifiers have the same name and kind.
    pub fn same(&self, other: &Ident) -> (r: bool)
        ensures
            r == (self@ == other@),
    {
        self.name == other.name && self.kind == other.kind
    }

    /// The identifier in the form that `safety_net` takes.
    pub(crate) fn raw(&self) -> (r: safety_net::Identifier)
        ensures
            r == outside_ident(self@),
    {
        proof {
            use_type_invariant(self);
        }
        self.raw.clone()
    }
}

impl Clone for Ident {
    fn clone(&self) -> (r: Ident)
        ensures
            r@ == self@,
    {
        proof {
            use_type_invariant(self);
        }
        Ident { name: self.name.clone(), kind: self.kind, raw: self.raw.clone() }
    }
}

} // verus!
