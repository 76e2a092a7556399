//! The primitive types of cells: their names and their ports.

use crate::ident::{ident_of, needs_escape, IdentKind};
use crate::text::{decimal, decimal_text, is_digit};
use vstd::prelude::*;

verus! {

/// The type of a primitive cell.
#[derive(Debug, Clone, Copy, PartialEq, Eq, Structural)]
pub enum PrimitiveType {
    /// Two-input and.
    AND,
    /// Two-input or.
    OR,
    /// Inverter.
    NOT,
    /// Two-input nor.
    NOR,
    /// Two-input exclusive or.
    XOR,
    /// Two-to-one multiplexer.
    MUX,
    /// Constant one.
    VCC,
    /// Constant zero.
    GND,
    /// Flip-flop with clock enable and synchronous reset.
    FDRE,
    /// Two-input and of a standard cell library.
    AND2,
    /// Two-input or of a standard cell library.
    OR2,
    /// Inverter of a standard cell library.
    INV,
    /// Lookup table of 1 input.
    LUT1,
    /// Lookup table of 2 inputs.
    LUT2,
    /// Lookup table of 3 inputs.
    LUT3,
    /// Lookup table of 4 inputs.
    LUT4,
    /// Lookup table of 5 inputs.
    LUT5,
    /// Lookup table of 6 inputs.
    LUT6,
}

/// The name of a primitive type.
pub open spec fn primitive_name(t: PrimitiveType) -> Seq<char> {
    match t {
        PrimitiveType::AND => "AND"@,
        PrimitiveType::OR => "OR"@,
        PrimitiveType::NOT => "NOT"@,
        PrimitiveType::NOR => "NOR"@,
        PrimitiveType::XOR => "XOR"@,
        PrimitiveType::MUX => "MUX"@,
        PrimitiveType::VCC => "VCC"@,
        PrimitiveType::GND => "GND"@,
        PrimitiveType::FDRE => "FDRE"@,
        PrimitiveType::AND2 => "AND2"@,
        PrimitiveType::OR2 => "OR2"@,
        PrimitiveType::INV => "INV"@,
        PrimitiveType::LUT1 => "LUT1"@,
        PrimitiveType::LUT2 => "LUT2"@,
        PrimitiveType::LUT3 => "LUT3"@,
        PrimitiveType::LUT4 => "LUT4"@,
        PrimitiveType::LUT5 => "LUT5"@,
        PrimitiveType::LUT6 => "LUT6"@,
    }
}

/// The names of the input ports of a primitive type, in order.
pub open spec fn input_names(t: PrimitiveType) -> Seq<Seq<char>> {
    match t {
        PrimitiveType::AND => seq!["A"@, "B"@],
        PrimitiveType::OR => seq!["A"@, "B"@],
        PrimitiveType::NOT => seq!["A"@],
        PrimitiveType::NOR => seq!["A"@, "B"@],
        PrimitiveType::XOR => seq!["A"@, "B"@],
        PrimitiveType::MUX => seq!["S"@, "A"@, "B"@],
        PrimitiveType::VCC => Seq::empty(),
        PrimitiveType::GND => Seq::empty(),
        PrimitiveType::FDRE => seq!["D"@, "C"@, "CE"@, "R"@],
        PrimitiveType::AND2 => seq!["A1"@, "A2"@],
        PrimitiveType::OR2 => seq!["A1"@, "A2"@],
        PrimitiveType::INV => seq!["A"@],
        PrimitiveType::LUT1 => seq!["I0"@],
        PrimitiveType::LUT2 => seq!["I0"@, "I1"@],
        PrimitiveType::LUT3 => seq!["I0"@, "I1"@, "I2"@],
        PrimitiveType::LUT4 => seq!["I0"@, "I1"@, "I2"@, "I3"@],
        PrimitiveType::LUT5 => seq!["I0"@, "I1"@, "I2"@, "I3"@, "I4"@],
        PrimitiveType::LUT6 => seq!["I0"@, "I1"@, "I2"@, "I3"@, "I4"@, "I5"@],
    }
}

/// The name of the output port of a primitive type.
pub open spec fn output_name(t: PrimitiveType) -> Seq<char> {
    match t {
        PrimitiveType::AND => "Y"@,
        PrimitiveType::OR => "Y"@,
        PrimitiveType::NOT => "Y"@,
        PrimitiveType::NOR => "Y"@,
        PrimitiveType::XOR => "Y"@,
        PrimitiveType::MUX => "Y"@,
        PrimitiveType::VCC => "P"@,
        PrimitiveType::GND => "G"@,
        PrimitiveType::FDRE => "Q"@,
        PrimitiveType::AND2 => "ZN"@,
        PrimitiveType::OR2 => "ZN"@,
        PrimitiveType::INV => "ZN"@,
        PrimitiveType::LUT1 => "O"@,
        PrimitiveType::LUT2 => "O"@,
        PrimitiveType::LUT3 => "O"@,
        PrimitiveType::LUT4 => "O"@,
        PrimitiveType::LUT5 => "O"@,
        PrimitiveType::LUT6 => "O"@,
    }
}

/// The number of inputs of a lookup table, and zero for any other type.
pub open spec fn lut_size(t: PrimitiveType) -> nat {
    match t {
        PrimitiveType::LUT1 => 1,
        PrimitiveType::LUT2 => 2,
        PrimitiveType::LUT3 => 3,
        PrimitiveType::LUT4 => 4,
        PrimitiveType::LUT5 => 5,
        PrimitiveType::LUT6 => 6,
        _ => 0,
    }
}

/// The characters that a sequence of strings stands for.
pub open spec fn texts(list: Seq<String>) -> Seq<Seq<char>> {
    list.map_values(|s: String| s@)
}

/// How many decimal digits `text` ends in.
pub open spec fn trailing_digits(text: Seq<char>) -> nat
    decreases text.len(),
{
    if text.len() > 0 && is_digit(text.last()) {
        1 + trailing_digits(text.drop_last())
    } else {
        0
    }
}

/// The name of a cell without the drive strength `_X<digits>` that it may
/// end in.
pub open spec fn base_name(text: Seq<char>) -> Seq<char> {
    let end = text.len() - trailing_digits(text);
    if end < text.len() && end >= 2 && text[end - 1] == 'X' && text[end - 2] == '_' {
        text.take(end - 2)
    } else {
        text
    }
}

/// The name of a cell of type `t`, with the drive strength `size` where one
/// is given.
pub open spec fn cell_name(t: PrimitiveType, size: Option<usize>) -> Seq<char> {
    match size {
        Some(s) => primitive_name(t) + "_X"@ + decimal(s as nat),
        None => primitive_name(t),
    }
}

/// The primitive type that a cell's name tells of, whatever its drive
/// strength.
pub open spec fn named_type(text: Seq<char>) -> Option<PrimitiveType> {
    if exists|t: PrimitiveType| #[trigger] primitive_name(t) == base_name(text) {
        Some(choose|t: PrimitiveType| #[trigger] primitive_name(t) == base_name(text))
    } else {
        None
    }
}

/// What is said of a name that is no primitive type's.
pub open spec fn unknown_type(text: Seq<char>) -> Seq<char> {
    "Unknown primitive type "@ + text
}

impl PrimitiveType {
    /// Every primitive type.
    fn all() -> (r: Vec<PrimitiveType>)
        ensures
            forall|t: PrimitiveType| #[trigger] r@.contains(t),
    {
        let r = vec![
            PrimitiveType::AND,
            PrimitiveType::OR,
            PrimitiveType::NOT,
            PrimitiveType::NOR,
            PrimitiveType::XOR,
            PrimitiveType::MUX,
            PrimitiveType::VCC,
            PrimitiveType::GND,
            PrimitiveType::FDRE,
            PrimitiveType::AND2,
            PrimitiveType::OR2,
            PrimitiveType::INV,
            PrimitiveType::LUT1,
            PrimitiveType::LUT2,
            PrimitiveType::LUT3,
            PrimitiveType::LUT4,
            PrimitiveType::LUT5,
            PrimitiveType::LUT6,
        ];
        proof {
            assert forall|t: PrimitiveType| #[trigger] r@.contains(t) by {
                let i: int = match t {
                    PrimitiveType::AND => 0,
                    PrimitiveType::OR => 1,
                    PrimitiveType::NOT => 2,
                    PrimitiveType::NOR => 3,
                    PrimitiveType::XOR => 4,
                    PrimitiveType::MUX => 5,
                    PrimitiveType::VCC => 6,
                    PrimitiveType::GND => 7,
                    PrimitiveType::FDRE => 8,
                    PrimitiveType::AND2 => 9,
                    PrimitiveType::OR2 => 10,
                    PrimitiveType::INV => 11,
                    PrimitiveType::LUT1 => 12,
                    PrimitiveType::LUT2 => 13,
                    PrimitiveType::LUT3 => 14,
                    PrimitiveType::LUT4 => 15,
                    PrimitiveType::LUT5 => 16,
                    PrimitiveType::LUT6 => 17,
                };
                assert(r@[i] == t);
            }
        }
        r
    }

    /// The name of the type.
    pub fn to_text(&self) -> (r: String)
        ensures
            r@ == primitive_name(*self),
    {
        match self {
            PrimitiveType::AND => "AND".to_owned(),
            PrimitiveType::OR => "OR".to_owned(),
            PrimitiveType::NOT => "NOT".to_owned(),
            PrimitiveType::NOR => "NOR".to_owned(),
            PrimitiveType::XOR => "XOR".to_owned(),
            PrimitiveType::MUX => "MUX".to_owned(),
            PrimitiveType::VCC => "VCC".to_owned(),
            PrimitiveType::GND => "GND".to_owned(),
            PrimitiveType::FDRE => "FDRE".to_owned(),
            PrimitiveType::AND2 => "AND2".to_owned(),
            PrimitiveType::OR2 => "OR2".to_owned(),
            PrimitiveType::INV => "INV".to_owned(),
            PrimitiveType::LUT1 => "LUT1".to_owned(),
            PrimitiveType::LUT2 => "LUT2".to_owned(),
            PrimitiveType::LUT3 => "LUT3".to_owned(),
            PrimitiveType::LUT4 => "LUT4".to_owned(),
            PrimitiveType::LUT5 => "LUT5".to_owned(),
            PrimitiveType::LUT6 => "LUT6".to_owned(),
        }
    }

    /// The names of the input ports, in order.
    pub fn get_input_list(&self) -> (r: Vec<String>)
        ensures
            texts(r@) == input_names(*self),
    {
        let r = match self {
            PrimitiveType::AND => vec!["A".to_owned(), "B".to_owned()],
            PrimitiveType::OR => vec!["A".to_owned(), "B".to_owned()],
            PrimitiveType::NOT => vec!["A".to_owned()],
            PrimitiveType::NOR => vec!["A".to_owned(), "B".to_owned()],
            PrimitiveType::XOR => vec!["A".to_owned(), "B".to_owned()],
            PrimitiveType::MUX => vec!["S".to_owned(), "A".to_owned(), "B".to_owned()],
            PrimitiveType::VCC => Vec::new(),
            PrimitiveType::GND => Vec::new(),
            PrimitiveType::FDRE => vec!["D".to_owned(), "C".to_owned(), "CE".to_owned(), "R".to_owned()],
            PrimitiveType::AND2 => vec!["A1".to_owned(), "A2".to_owned()],
            PrimitiveType::OR2 => vec!["A1".to_owned(), "A2".to_owned()],
            PrimitiveType::INV => vec!["A".to_owned()],
            PrimitiveType::LUT1 => vec!["I0".to_owned()],
            PrimitiveType::LUT2 => vec!["I0".to_owned(), "I1".to_owned()],
            PrimitiveType::LUT3 => vec!["I0".to_owned(), "I1".to_owned(), "I2".to_owned()],
            PrimitiveType::LUT4 => vec!["I0".to_owned(), "I1".to_owned(), "I2".to_owned(), "I3".to_owned()],
            PrimitiveType::LUT5 => vec!["I0".to_owned(), "I1".to_owned(), "I2".to_owned(), "I3".to_owned(), "I4".to_owned()],
            PrimitiveType::LUT6 => vec!["I0".to_owned(), "I1".to_owned(), "I2".to_owned(), "I3".to_owned(), "I4".to_owned(), "I5".to_owned()],
        };
        assert(texts(r@) =~= input_names(*self));
        r
    }

    /// The number of input ports.
    pub fn get_num_inputs(&self) -> (r: usize)
        ensures
            r == input_names(*self).len(),
    {
        self.get_input_list().len()
    }

    /// The name of the output port.
    pub fn get_output(&self) -> (r: String)
        ensures
            r@ == output_name(*self),
    {
        match self {
            PrimitiveType::AND => "Y".to_owned(),
            PrimitiveType::OR => "Y".to_owned(),
            PrimitiveType::NOT => "Y".to_owned(),
            PrimitiveType::NOR => "Y".to_owned(),
            PrimitiveType::XOR => "Y".to_owned(),
            PrimitiveType::MUX => "Y".to_owned(),
            PrimitiveType::VCC => "P".to_owned(),
            PrimitiveType::GND => "G".to_owned(),
            PrimitiveType::FDRE => "Q".to_owned(),
            PrimitiveType::AND2 => "ZN".to_owned(),
            PrimitiveType::OR2 => "ZN".to_owned(),
            PrimitiveType::INV => "ZN".to_owned(),
            PrimitiveType::LUT1 => "O".to_owned(),
            PrimitiveType::LUT2 => "O".to_owned(),
            PrimitiveType::LUT3 => "O".to_owned(),
            PrimitiveType::LUT4 => "O".to_owned(),
            PrimitiveType::LUT5 => "O".to_owned(),
            PrimitiveType::LUT6 => "O".to_owned(),
        }
    }

    /// Whether the type is a lookup table.
    pub fn is_lut(&self) -> (r: bool)
        ensures
            r == (lut_size(*self) > 0),
    {
        matches!(
            self,
            PrimitiveType::LUT1 | PrimitiveType::LUT2 | PrimitiveType::LUT3 | PrimitiveType::LUT4
                | PrimitiveType::LUT5 | PrimitiveType::LUT6
        )
    }

    /// Whether the type holds state.
    pub fn is_reg(&self) -> (r: bool)
        ensures
            r == (*self == PrimitiveType::FDRE),
    {
        matches!(self, PrimitiveType::FDRE)
    }

    /// The type that `text` names, whatever the drive strength.
    pub fn from_str(text: &str) -> (r: Result<PrimitiveType, String>)
        ensures
            match r {
                Ok(t) => named_type(text@) == Some(t),
                Err(e) => named_type(text@) is None && e@ == unknown_type(text@),
            },
            r matches Ok(t) ==> primitive_name(t) == base_name(text@),
            r matches Err(e) ==> e@ == "Unknown primitive type "@ + text@,
    {
        let base = base_text(text);
        let types = PrimitiveType::all();
        let mut i: usize = 0;
        while i < types.len()
            invariant
                i <= types@.len(),
                base@ == base_name(text@),
                forall|j: int| 0 <= j < i ==> primitive_name(#[trigger] types@[j]) != base@,
            decreases types@.len() - i,
        {
            if types[i].to_text() == base {
                proof {
                    let t = named_type(text@)->0;
                    assert(primitive_name(types@[i as int]) == base_name(text@));
                    law_names_tell_types_apart(types@[i as int], t);
                }
                return Ok(types[i]);
            }
            i += 1;
        }
        assert forall|t: PrimitiveType| #[trigger] primitive_name(t) != base@ by {
            assert(types@.contains(t));
        }
        let mut e = "Unknown primitive type ".to_owned();
        e.append(text);
        Err(e)
    }
}

/// `text` without the drive strength that it may end in.
fn base_text(text: &str) -> (r: String)
    ensures
        r@ == base_name(text@),
{
    let len = text.unicode_len();
    let mut end: usize = len;
    assert(text@.take(end as int) =~= text@);
    while end > 0 && is_digit_char(text.get_char(end - 1))
        invariant
            end <= len,
            len == text@.len(),
            trailing_digits(text@) == (len - end) + trailing_digits(text@.take(end as int)),
        decreases end,
    {
        assert(text@.take(end as int).drop_last() =~= text@.take(end - 1));
        end -= 1;
    }
    assert(trailing_digits(text@) == len - end);
    if end < len && end >= 2 && text.get_char(end - 1) == 'X' && text.get_char(end - 2) == '_' {
        let r = text.substring_char(0, end - 2).to_owned();
        assert(r@ =~= text@.take(end - 2));
        r
    } else {
        text.to_owned()
    }
}

/// Whether `c` is a decimal digit.
fn is_digit_char(c: char) -> (r: bool)
    ensures
        r == is_digit(c),
{
    '0' <= c && c <= '9'
}

/// The name of a cell of type `t` with drive strength `size`.
pub(crate) fn cell_text(t: PrimitiveType, size: Option<usize>) -> (r: String)
    ensures
        r@ == cell_name(t, size),
{
    match size {
        Some(s) => {
            let mut r = t.to_text();
            r.append("_X");
            r.append(decimal_text(s as u64).as_str());
            r
        },
        None => t.to_text(),
    }
}


/// What the names of types and ports are made of.
pub(crate) proof fn lemma_literals()
    ensures
        "_X"@ == seq!['_', 'X'],
        "AND"@ == seq!['A', 'N', 'D'],
        "A"@ == seq!['A'],
        "B"@ == seq!['B'],
        "Y"@ == seq!['Y'],
        "OR"@ == seq!['O', 'R'],
        "NOT"@ == seq!['N', 'O', 'T'],
        "NOR"@ == seq!['N', 'O', 'R'],
        "XOR"@ == seq!['X', 'O', 'R'],
        "MUX"@ == seq!['M', 'U', 'X'],
        "S"@ == seq!['S'],
        "VCC"@ == seq!['V', 'C', 'C'],
        "P"@ == seq!['P'],
        "GND"@ == seq!['G', 'N', 'D'],
        "G"@ == seq!['G'],
        "FDRE"@ == seq!['F', 'D', 'R', 'E'],
        "D"@ == seq!['D'],
        "C"@ == seq!['C'],
        "CE"@ == seq!['C', 'E'],
        "R"@ == seq!['R'],
        "Q"@ == seq!['Q'],
        "AND2"@ == seq!['A', 'N', 'D', '2'],
        "A1"@ == seq!['A', '1'],
        "A2"@ == seq!['A', '2'],
        "ZN"@ == seq!['Z', 'N'],
        "OR2"@ == seq!['O', 'R', '2'],
        "INV"@ == seq!['I', 'N', 'V'],
        "LUT1"@ == seq!['L', 'U', 'T', '1'],
        "I0"@ == seq!['I', '0'],
        "O"@ == seq!['O'],
        "LUT2"@ == seq!['L', 'U', 'T', '2'],
        "I1"@ == seq!['I', '1'],
        "LUT3"@ == seq!['L', 'U', 'T', '3'],
        "I2"@ == seq!['I', '2'],
        "LUT4"@ == seq!['L', 'U', 'T', '4'],
        "I3"@ == seq!['I', '3'],
        "LUT5"@ == seq!['L', 'U', 'T', '5'],
        "I4"@ == seq!['I', '4'],
        "LUT6"@ == seq!['L', 'U', 'T', '6'],
        "I5"@ == seq!['I', '5'],
{
    reveal_strlit("_X");
    assert("_X"@ =~= seq!['_', 'X']);
    reveal_strlit("AND");
    assert("AND"@ =~= seq!['A', 'N', 'D']);
    reveal_strlit("A");
    assert("A"@ =~= seq!['A']);
    reveal_strlit("B");
    assert("B"@ =~= seq!['B']);
    reveal_strlit("Y");
    assert("Y"@ =~= seq!['Y']);
    reveal_strlit("OR");
    assert("OR"@ =~= seq!['O', 'R']);
    reveal_strlit("NOT");
    assert("NOT"@ =~= seq!['N', 'O', 'T']);
    reveal_strlit("NOR");
    assert("NOR"@ =~= seq!['N', 'O', 'R']);
    reveal_strlit("XOR");
    assert("XOR"@ =~= seq!['X', 'O', 'R']);
    reveal_strlit("MUX");
    assert("MUX"@ =~= seq!['M', 'U', 'X']);
    reveal_strlit("S");
    assert("S"@ =~= seq!['S']);
    reveal_strlit("VCC");
    assert("VCC"@ =~= seq!['V', 'C', 'C']);
    reveal_strlit("P");
    assert("P"@ =~= seq!['P']);
    reveal_strlit("GND");
    assert("GND"@ =~= seq!['G', 'N', 'D']);
    reveal_strlit("G");
    assert("G"@ =~= seq!['G']);
    reveal_strlit("FDRE");
    assert("FDRE"@ =~= seq!['F', 'D', 'R', 'E']);
    reveal_strlit("D");
    assert("D"@ =~= seq!['D']);
    reveal_strlit("C");
    assert("C"@ =~= seq!['C']);
    reveal_strlit("CE");
    assert("CE"@ =~= seq!['C', 'E']);
    reveal_strlit("R");
    assert("R"@ =~= seq!['R']);
    reveal_strlit("Q");
    assert("Q"@ =~= seq!['Q']);
    reveal_strlit("AND2");
    assert("AND2"@ =~= seq!['A', 'N', 'D', '2']);
    reveal_strlit("A1");
    assert("A1"@ =~= seq!['A', '1']);
    reveal_strlit("A2");
    assert("A2"@ =~= seq!['A', '2']);
    reveal_strlit("ZN");
    assert("ZN"@ =~= seq!['Z', 'N']);
    reveal_strlit("OR2");
    assert("OR2"@ =~= seq!['O', 'R', '2']);
    reveal_strlit("INV");
    assert("INV"@ =~= seq!['I', 'N', 'V']);
    reveal_strlit("LUT1");
    assert("LUT1"@ =~= seq!['L', 'U', 'T', '1']);
    reveal_strlit("I0");
    assert("I0"@ =~= seq!['I', '0']);
    reveal_strlit("O");
    assert("O"@ =~= seq!['O']);
    reveal_strlit("LUT2");
    assert("LUT2"@ =~= seq!['L', 'U', 'T', '2']);
    reveal_strlit("I1");
    assert("I1"@ =~= seq!['I', '1']);
    reveal_strlit("LUT3");
    assert("LUT3"@ =~= seq!['L', 'U', 'T', '3']);
    reveal_strlit("I2");
    assert("I2"@ =~= seq!['I', '2']);
    reveal_strlit("LUT4");
    assert("LUT4"@ =~= seq!['L', 'U', 'T', '4']);
    reveal_strlit("I3");
    assert("I3"@ =~= seq!['I', '3']);
    reveal_strlit("LUT5");
    assert("LUT5"@ =~= seq!['L', 'U', 'T', '5']);
    reveal_strlit("I4");
    assert("I4"@ =~= seq!['I', '4']);
    reveal_strlit("LUT6");
    assert("LUT6"@ =~= seq!['L', 'U', 'T', '6']);
    reveal_strlit("I5");
    assert("I5"@ =~= seq!['I', '5']);
}


/// Different types have different names.
pub proof fn law_names_tell_types_apart(a: PrimitiveType, b: PrimitiveType)
    requires
        primitive_name(a) == primitive_name(b),
    ensures
        a == b,
{
    lemma_literals();
    let x = primitive_name(a);
    let y = primitive_name(b);
    assert(x.len() == y.len());
    assert(x[0] == y[0] && x[1] == y[1]);
    assert(x.len() >= 3 ==> x[2] == y[2]);
    assert(x.len() >= 4 ==> x[3] == y[3]);
    match a {
        PrimitiveType::AND => {
            assert(x == "AND"@);
        },
        PrimitiveType::OR => {
            assert(x == "OR"@);
        },
        PrimitiveType::NOT => {
            assert(x == "NOT"@);
        },
        PrimitiveType::NOR => {
            assert(x == "NOR"@);
        },
        PrimitiveType::XOR => {
            assert(x == "XOR"@);
        },
        PrimitiveType::MUX => {
            assert(x == "MUX"@);
        },
        PrimitiveType::VCC => {
            assert(x == "VCC"@);
        },
        PrimitiveType::GND => {
            assert(x == "GND"@);
        },
        PrimitiveType::FDRE => {
            assert(x == "FDRE"@);
        },
        PrimitiveType::AND2 => {
            assert(x == "AND2"@);
        },
        PrimitiveType::OR2 => {
            assert(x == "OR2"@);
        },
        PrimitiveType::INV => {
            assert(x == "INV"@);
        },
        PrimitiveType::LUT1 => {
            assert(x == "LUT1"@);
        },
        PrimitiveType::LUT2 => {
            assert(x == "LUT2"@);
        },
        PrimitiveType::LUT3 => {
            assert(x == "LUT3"@);
        },
        PrimitiveType::LUT4 => {
            assert(x == "LUT4"@);
        },
        PrimitiveType::LUT5 => {
            assert(x == "LUT5"@);
        },
        PrimitiveType::LUT6 => {
            assert(x == "LUT6"@);
        },
    }
}

/// The text of a cell's name holds letters, digits and underscores alone,
/// and starts with a letter.
proof fn lemma_cell_name_chars(t: PrimitiveType, size: Option<usize>)
    ensures
        cell_name(t, size).len() > 0,
        !is_digit(cell_name(t, size)[0]),
        forall|i: int|
            0 <= i < cell_name(t, size).len() ==> {
                let c = #[trigger] cell_name(t, size)[i];
                c != '[' && !needs_escape(c)
            },
{
    lemma_literals();
    let name = primitive_name(t);
    assert forall|i: int| 0 <= i < name.len() implies {
        let c = #[trigger] name[i];
        c != '[' && !needs_escape(c)
    } by {
        assert(i == 0 || i == 1 || i == 2 || i == 3);
    }
    if let Some(s) = size {
        crate::text::law_decimal_reads_back(s as nat);
        let digits = decimal(s as nat);
        let whole = cell_name(t, size);
        assert forall|i: int| 0 <= i < whole.len() implies {
            let c = #[trigger] whole[i];
            c != '[' && !needs_escape(c)
        } by {
            if i < name.len() {
                assert(whole[i] == name[i]);
            } else if i >= name.len() + 2 {
                assert(whole[i] == digits[i - name.len() - 2]);
            }
        }
    }
}

/// The name of a cell is a plain one, and no part of it is taken as a
/// selected bit.
pub proof fn law_cell_names_are_plain(t: PrimitiveType, size: Option<usize>)
    ensures
        ident_of(cell_name(t, size)).name == cell_name(t, size),
        ident_of(cell_name(t, size)).kind == IdentKind::Normal,
{
    lemma_cell_name_chars(t, size);
    let text = cell_name(t, size);
    text.index_of_first_ensures('[');
}

proof fn lemma_trailing_digits(head: Seq<char>, digits: Seq<char>)
    requires
        forall|i: int| 0 <= i < digits.len() ==> is_digit(#[trigger] digits[i]),
        head.len() > 0,
        !is_digit(head.last()),
    ensures
        trailing_digits(head + digits) == digits.len(),
    decreases digits.len(),
{
    let text = head + digits;
    if digits.len() == 0 {
        assert(text =~= head);
    } else {
        assert(text.drop_last() =~= head + digits.drop_last());
        lemma_trailing_digits(head, digits.drop_last());
    }
}

/// A cell's type is read back from its name, and the drive strength drops
/// out.
pub proof fn law_cell_names_read_back(t: PrimitiveType, size: Option<usize>)
    ensures
        base_name(cell_name(t, size)) == primitive_name(t),
        named_type(cell_name(t, size)) == Some(t),
{
    lemma_literals();
    let name = primitive_name(t);
    let text = cell_name(t, size);
    match size {
        Some(s) => {
            crate::text::law_decimal_reads_back(s as nat);
            let digits = decimal(s as nat);
            let head = name + "_X"@;
            lemma_trailing_digits(head, digits);
            assert(text =~= head + digits);
            assert(text.take(text.len() - digits.len() - 2) =~= name);
        },
        None => {
            // The only digits are at the end of names like LUT4, behind a
            // letter other than X.
            let n = name.len() as int;
            assert(name.drop_last().last() == name[n - 2]);
            assert(name.drop_last().drop_last() =~= name.take(n - 2));
            reveal_with_fuel(trailing_digits, 3);
            assert(base_name(name) == name);
        },
    }
    assert(primitive_name(t) == base_name(text));
    law_names_tell_types_apart(named_type(text)->0, t);
}

/// Whether `word` occurs in `text`.
pub open spec fn occurs(word: Seq<char>, text: Seq<char>) -> bool {
    exists|i: int|
        0 <= i <= text.len() - word.len() && #[trigger] text.subrange(i, i + word.len()) == word
}

/// Lookup tables, and no other cells, have `LUT` in their names; the
/// character behind it is the number of their inputs.
pub proof fn law_lut_names(t: PrimitiveType, size: Option<usize>)
    ensures
        occurs("LUT"@, cell_name(t, size)) <==> lut_size(t) > 0,
        lut_size(t) > 0 ==> cell_name(t, size)[3] == crate::text::digit_char(lut_size(t))
            && lut_size(t) == input_names(t).len(),
{
    lemma_literals();
    reveal_strlit("LUT");
    assert("LUT"@ =~= seq!['L', 'U', 'T']);
    let text = cell_name(t, size);
    let name = primitive_name(t);
    if lut_size(t) > 0 {
        assert(text.subrange(0, 0int + "LUT"@.len()) =~= "LUT"@);
    } else {
        if occurs("LUT"@, text) {
            let i = choose|i: int|
                0 <= i <= text.len() - 3 && #[trigger] text.subrange(i, i + 3) == "LUT"@;
            assert(text.subrange(i, i + 3)[0] == 'L');
            assert(text[i] == 'L');
            if size is Some {
                let s = size->0;
                crate::text::law_decimal_reads_back(s as nat);
                if i < name.len() {
                    assert(text[i] == name[i]);
                    assert(i == 0 || i == 1 || i == 2 || i == 3);
                } else if i >= name.len() + 2 {
                    assert(text[i] == decimal(s as nat)[i - name.len() - 2]);
                }
            } else {
                assert(i == 0 || i == 1 || i == 2 || i == 3);
            }
        }
    }
}

/// Registers, and no other cells, have `FDRE` in their names.
pub proof fn law_register_names(t: PrimitiveType, size: Option<usize>)
    ensures
        occurs("FDRE"@, cell_name(t, size)) <==> t == PrimitiveType::FDRE,
{
    lemma_literals();
    reveal_strlit("FDRE");
    assert("FDRE"@ =~= seq!['F', 'D', 'R', 'E']);
    let text = cell_name(t, size);
    let name = primitive_name(t);
    if t == PrimitiveType::FDRE {
        assert(text.subrange(0, 0int + "FDRE"@.len()) =~= "FDRE"@);
    } else if occurs("FDRE"@, text) {
        let i = choose|i: int|
            0 <= i <= text.len() - 4 && #[trigger] text.subrange(i, i + 4) == "FDRE"@;
        assert(text.subrange(i, i + 4)[0] == 'F');
        assert(text[i] == 'F');
        if size is Some {
            let s = size->0;
            crate::text::law_decimal_reads_back(s as nat);
            if i < name.len() {
                assert(text[i] == name[i]);
                assert(i == 0 || i == 1 || i == 2 || i == 3);
            } else if i >= name.len() + 2 {
                assert(text[i] == decimal(s as nat)[i - name.len() - 2]);
            }
        } else {
            assert(i == 0 || i == 1 || i == 2 || i == 3);
        }
    }
}

/// The input ports of a lookup table are called `I0`, `I1` and so on, and its
/// output port `O`. It is called `LUT` and the number of its inputs.
pub proof fn law_lut_ports_are_numbered(t: PrimitiveType, k: int)
    requires
        lut_size(t) > 0,
        0 <= k < input_names(t).len(),
    ensures
        input_names(t).len() == lut_size(t),
        input_names(t)[k] == seq!['I'] + decimal(k as nat),
        output_name(t) == seq!['O'],
        primitive_name(t) == seq!['L', 'U', 'T'] + decimal(lut_size(t)),
{
    lemma_literals();
    reveal_strlit("I0");
    reveal_strlit("I1");
    reveal_strlit("I2");
    reveal_strlit("I3");
    reveal_strlit("I4");
    reveal_strlit("I5");
    reveal_strlit("O");
    assert(decimal(k as nat) =~= seq![crate::text::digit_char(k as nat)]);
    assert(decimal(lut_size(t)) =~= seq![crate::text::digit_char(lut_size(t))]);
    assert(input_names(t)[k] =~= seq!['I'] + decimal(k as nat));
    assert(output_name(t) =~= seq!['O']);
    assert(primitive_name(t) =~= seq!['L', 'U', 'T'] + decimal(lut_size(t)));
}

/// No two input ports of a type have the same name, and none has that of the
/// output port.
pub proof fn law_ports_have_different_names(t: PrimitiveType, i: int, j: int)
    requires
        0 <= i < j < input_names(t).len(),
    ensures
        input_names(t)[i] != input_names(t)[j],
        input_names(t)[i] != output_name(t),
        input_names(t)[j] != output_name(t),
{
    reveal_strlit("A");
    reveal_strlit("B");
    reveal_strlit("S");
    reveal_strlit("A1");
    reveal_strlit("A2");
    reveal_strlit("D");
    reveal_strlit("C");
    reveal_strlit("CE");
    reveal_strlit("R");
    reveal_strlit("Q");
    reveal_strlit("Y");
    reveal_strlit("ZN");
    reveal_strlit("O");
    if lut_size(t) > 0 {
        law_lut_ports_are_numbered(t, i);
        law_lut_ports_are_numbered(t, j);
        assert(input_names(t)[i][1] == crate::text::digit_char(i as nat));
        assert(input_names(t)[j][1] == crate::text::digit_char(j as nat));
        assert(input_names(t)[i][0] == 'I' && input_names(t)[j][0] == 'I');
        assert(output_name(t)[0] == 'O');
    } else {
        let a = input_names(t)[i];
        let b = input_names(t)[j];
        let c = output_name(t);
        assert(a[0] != b[0] || a.len() != b.len() || a[1] != b[1]);
        assert(a[0] != c[0] && b[0] != c[0]);
    }
}

/// Gates of the same inputs have the same ports: those of two inputs in the
/// library of plain gates `A` and `B`, those of the standard cell library `A1`
/// and `A2`. A multiplexer is selected by `S`, and a register has its data, its
/// clock, its clock enable and its reset, in this order.
pub proof fn law_ports_of_gates(t: PrimitiveType)
    ensures
        (t == PrimitiveType::AND || t == PrimitiveType::OR || t == PrimitiveType::NOR || t
            == PrimitiveType::XOR) ==> input_names(t) == seq!["A"@, "B"@],
        (t == PrimitiveType::AND2 || t == PrimitiveType::OR2) ==> input_names(t) == seq![
            "A1"@,
            "A2"@,
        ],
        (t == PrimitiveType::NOT || t == PrimitiveType::INV) ==> input_names(t) == seq!["A"@],
        t == PrimitiveType::MUX ==> input_names(t) == seq!["S"@, "A"@, "B"@],
        t == PrimitiveType::FDRE ==> input_names(t) == seq!["D"@, "C"@, "CE"@, "R"@],
        (t == PrimitiveType::VCC || t == PrimitiveType::GND) ==> input_names(t).len() == 0,
        (t == PrimitiveType::AND2 || t == PrimitiveType::OR2 || t == PrimitiveType::INV)
            <==> output_name(t) == "ZN"@,
        t == PrimitiveType::FDRE <==> output_name(t) == "Q"@,
        t == PrimitiveType::VCC <==> output_name(t) == "P"@,
        t == PrimitiveType::GND <==> output_name(t) == "G"@,
        lut_size(t) > 0 <==> output_name(t) == "O"@,
        (t == PrimitiveType::AND || t == PrimitiveType::OR || t == PrimitiveType::NOR || t
            == PrimitiveType::XOR || t == PrimitiveType::NOT || t == PrimitiveType::MUX)
            <==> output_name(t) == "Y"@,
{
    reveal_strlit("Y");
    reveal_strlit("P");
    reveal_strlit("G");
    reveal_strlit("Q");
    reveal_strlit("O");
    reveal_strlit("ZN");
    assert(output_name(t)[0] == output_name(t)[0]);
    assert("Y"@[0] == 'Y' && "P"@[0] == 'P' && "G"@[0] == 'G' && "Q"@[0] == 'Q' && "O"@[0] == 'O'
        && "ZN"@[0] == 'Z');
}

/// A name tells a type whatever its drive strength, and the types are known by
/// these names.
pub proof fn law_types_are_known_by_name(t: PrimitiveType, size: Option<usize>)
    ensures
        named_type(cell_name(t, size)) == Some(t),
        t == PrimitiveType::AND <==> primitive_name(t) == "AND"@,
        t == PrimitiveType::OR <==> primitive_name(t) == "OR"@,
        t == PrimitiveType::NOT <==> primitive_name(t) == "NOT"@,
        t == PrimitiveType::NOR <==> primitive_name(t) == "NOR"@,
        t == PrimitiveType::XOR <==> primitive_name(t) == "XOR"@,
        t == PrimitiveType::MUX <==> primitive_name(t) == "MUX"@,
        t == PrimitiveType::VCC <==> primitive_name(t) == "VCC"@,
        t == PrimitiveType::GND <==> primitive_name(t) == "GND"@,
        t == PrimitiveType::FDRE <==> primitive_name(t) == "FDRE"@,
        t == PrimitiveType::AND2 <==> primitive_name(t) == "AND2"@,
        t == PrimitiveType::OR2 <==> primitive_name(t) == "OR2"@,
        t == PrimitiveType::INV <==> primitive_name(t) == "INV"@,
        lut_size(t) > 0 <==> primitive_name(t)[0] == 'L',
        lut_size(t) > 0 ==> primitive_name(t) == "LUT"@ + decimal(lut_size(t)),
{
    law_cell_names_read_back(t, size);
    lemma_literals();
    reveal_strlit("LUT");
    if primitive_name(t) == "AND"@ {
        law_names_tell_types_apart(t, PrimitiveType::AND);
    }
    if primitive_name(t) == "OR"@ {
        law_names_tell_types_apart(t, PrimitiveType::OR);
    }
    if primitive_name(t) == "NOT"@ {
        law_names_tell_types_apart(t, PrimitiveType::NOT);
    }
    if primitive_name(t) == "NOR"@ {
        law_names_tell_types_apart(t, PrimitiveType::NOR);
    }
    if primitive_name(t) == "XOR"@ {
        law_names_tell_types_apart(t, PrimitiveType::XOR);
    }
    if primitive_name(t) == "MUX"@ {
        law_names_tell_types_apart(t, PrimitiveType::MUX);
    }
    if primitive_name(t) == "VCC"@ {
        law_names_tell_types_apart(t, PrimitiveType::VCC);
    }
    if primitive_name(t) == "GND"@ {
        law_names_tell_types_apart(t, PrimitiveType::GND);
    }
    if primitive_name(t) == "FDRE"@ {
        law_names_tell_types_apart(t, PrimitiveType::FDRE);
    }
    if primitive_name(t) == "AND2"@ {
        law_names_tell_types_apart(t, PrimitiveType::AND2);
    }
    if primitive_name(t) == "OR2"@ {
        law_names_tell_types_apart(t, PrimitiveType::OR2);
    }
    if primitive_name(t) == "INV"@ {
        law_names_tell_types_apart(t, PrimitiveType::INV);
    }
    if lut_size(t) > 0 {
        law_lut_ports_are_numbered(t, 0);
        assert("LUT"@ =~= seq!['L', 'U', 'T']);
    }
}

/// A drive strength is dropped from any name, however many digits it has.
pub proof fn law_drive_strengths_are_dropped(head: Seq<char>, digits: Seq<char>)
    requires
        digits.len() > 0,
        crate::text::all_digits(digits),
    ensures
        base_name(head + seq!['_', 'X'] + digits) == head,
{
    let front = head + seq!['_', 'X'];
    let text = front + digits;
    lemma_trailing_digits(front, digits);
    assert(text[text.len() - digits.len() - 1] == 'X');
    assert(text[text.len() - digits.len() - 2] == '_');
    assert(text.take(text.len() - digits.len() - 2) =~= head);
}

/// Nothing but a drive strength is dropped: `_X`, and digits behind it up to
/// the end.
pub proof fn law_only_drive_strengths_are_dropped(text: Seq<char>) -> (digits: Seq<char>)
    requires
        base_name(text) != text,
    ensures
        digits.len() > 0,
        crate::text::all_digits(digits),
        text == base_name(text) + seq!['_', 'X'] + digits,
{
    let end = text.len() - trailing_digits(text);
    lemma_trailing_are_digits(text);
    let digits = text.skip(end);
    assert(text =~= base_name(text) + seq!['_', 'X'] + digits);
    digits
}

/// What a text ends in are digits.
proof fn lemma_trailing_are_digits(text: Seq<char>)
    ensures
        trailing_digits(text) <= text.len(),
        forall|i: int|
            text.len() - trailing_digits(text) <= i < text.len() ==> is_digit(#[trigger] text[i]),
    decreases text.len(),
{
    if text.len() > 0 && is_digit(text.last()) {
        let rest = text.drop_last();
        lemma_trailing_are_digits(rest);
        assert forall|i: int|
            text.len() - trailing_digits(text) <= i < text.len() implies is_digit(
            #[trigger] text[i],
        ) by {
            if i < rest.len() {
                assert(is_digit(rest[i]));
            }
        }
    }
}

} // verus!
