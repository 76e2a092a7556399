//! From cells to nodes of expressions, and back.

use crate::cell::{constant_cell, fresh_cell, CellView, PrimitiveCell};
use crate::lang::{blank, leaf, CellLang, CircuitLang, Id, LutLang, NodeView, Op, RecExpr};
use crate::level::LogicValue;
use crate::primitive::{input_names, lut_size, named_type, primitive_name, PrimitiveType};
use vstd::prelude::*;

verus! {

/// Whether an operator computes something from its children, as a leaf, a
/// truth table and a node that gathers roots do not.
pub open spec fn computes(op: Op) -> bool {
    !(op is Var || op is Program || op is Bus)
}

/// Circuit elements that compute a logic function.
pub trait LogicFunc<L: CircuitLang>: View {
    /// The node of the function behind output `ind`, with blank children.
    spec fn logic_func(cell: Self::V, ind: nat) -> Option<NodeView>;

    /// A function computes something, and its children are blank.
    proof fn law_func(cell: Self::V, ind: nat)
        ensures
            Self::logic_func(cell, ind) matches Some(node) ==> computes(node.op) && node == blank(
                node.op,
                node.args.len(),
            ),
    ;

    /// The node of the function behind output `ind`. Its children are
    /// blank.
    fn get_logic_func(&self, ind: usize) -> (r: Option<L>)
        ensures
            match r {
                Some(l) => Self::logic_func(self@, ind as nat) == Some(l.node()),
                None => Self::logic_func(self@, ind as nat) is None,
            },
    ;
}

/// Circuit elements whose truth table can be a node of an expression.
pub trait AddProgram<L: CircuitLang>: View {
    /// The node of the truth table `program_value`.
    spec fn program_node(cell: Self::V, program_value: u64) -> Option<NodeView>;

    /// The node of a truth table is a program.
    proof fn law_program(cell: Self::V, program_value: u64)
        ensures
            Self::program_node(cell, program_value) matches Some(node) ==> node == leaf(
                Op::Program(program_value),
            ),
    ;

    /// Adds the node of a truth table to an expression, where the language
    /// has such nodes, and returns its place.
    fn add_program(&self, recexpr: &mut RecExpr<L>, program_value: u64) -> (r: Option<Id>)
        ensures
            match Self::program_node(self@, program_value) {
                Some(node) => r == Some(old(recexpr)@.len() as usize) && final(recexpr)@ == old(
                    recexpr,
                )@.push(node),
                None => r is None && final(recexpr)@ == old(recexpr)@,
            },
    ;
}

/// Nodes that a cell can compute.
pub trait LogicCell<I: View>: CircuitLang {
    /// The cell that computes a node.
    spec fn cell_of(node: NodeView) -> Option<I::V>;

    /// The cell that computes this node.
    fn get_cell(&self) -> (r: Option<I>)
        ensures
            match r {
                Some(cell) => Self::cell_of(self.node()) == Some(cell@),
                None => Self::cell_of(self.node()) is None,
            },
    ;
}

/// `n` blank children.
fn blanks(n: usize) -> (r: Vec<Id>)
    ensures
        r@ == Seq::new(n as nat, |i: int| 0usize),
{
    let mut r: Vec<Id> = Vec::new();
    for i in 0..n
        invariant
            r@ == Seq::new(i as nat, |i: int| 0usize),
    {
        r.push(0);
        assert(r@ =~= Seq::new((i + 1) as nat, |i: int| 0usize));
    }
    r
}

/// The function of a cell in terms of standard cells.
pub open spec fn cell_func(t: PrimitiveType) -> Option<NodeView> {
    match t {
        PrimitiveType::AND => Some(blank(Op::And, 2)),
        PrimitiveType::VCC => Some(leaf(Op::Const(LogicValue::True))),
        PrimitiveType::GND => Some(leaf(Op::Const(LogicValue::False))),
        PrimitiveType::OR => Some(blank(Op::Or, 2)),
        PrimitiveType::NOT => Some(blank(Op::Not, 1)),
        _ => if lut_size(t) > 0 {
            None
        } else {
            Some(blank(Op::Cell(primitive_name(t)), input_names(t).len()))
        },
    }
}

/// The function of a cell in terms of lookup tables.
pub open spec fn lut_func(t: PrimitiveType) -> Option<NodeView> {
    match t {
        PrimitiveType::AND => Some(blank(Op::And, 2)),
        PrimitiveType::VCC => Some(leaf(Op::Const(LogicValue::True))),
        PrimitiveType::GND => Some(leaf(Op::Const(LogicValue::False))),
        PrimitiveType::NOR => Some(blank(Op::Nor, 2)),
        PrimitiveType::XOR => Some(blank(Op::Xor, 2)),
        PrimitiveType::MUX => Some(blank(Op::Mux, 3)),
        PrimitiveType::NOT => Some(blank(Op::Not, 1)),
        PrimitiveType::FDRE => Some(blank(Op::Reg, 4)),
        _ => if lut_size(t) > 0 {
            Some(blank(Op::Lut, input_names(t).len() + 1))
        } else {
            None
        },
    }
}

impl LogicFunc<CellLang> for PrimitiveCell {
    open spec fn logic_func(cell: CellView, ind: nat) -> Option<NodeView> {
        cell_func(cell.ptype)
    }

    proof fn law_func(cell: CellView, ind: nat) {
        if let Some(node) = cell_func(cell.ptype) {
            assert(node.args =~= blank(node.op, node.args.len()).args);
        }
    }

    fn get_logic_func(&self, ind: usize) -> (r: Option<CellLang>) {
        let ptype = self.get_type();
        let r = match ptype {
            PrimitiveType::AND => Some(CellLang::And([0, 0])),
            PrimitiveType::VCC => Some(CellLang::Const(true)),
            PrimitiveType::GND => Some(CellLang::Const(false)),
            PrimitiveType::OR => Some(CellLang::Or([0, 0])),
            PrimitiveType::NOT => Some(CellLang::Inv([0])),
            _ => if ptype.is_lut() {
                None
            } else {
                Some(CellLang::Cell(ptype.to_text(), blanks(ptype.get_num_inputs())))
            },
        };
        assert(r is Some ==> (r->0).node().args =~= (cell_func(ptype)->0).args);
        r
    }
}

impl LogicFunc<LutLang> for PrimitiveCell {
    open spec fn logic_func(cell: CellView, ind: nat) -> Option<NodeView> {
        lut_func(cell.ptype)
    }

    proof fn law_func(cell: CellView, ind: nat) {
        if let Some(node) = lut_func(cell.ptype) {
            assert(node.args =~= blank(node.op, node.args.len()).args);
        }
    }

    fn get_logic_func(&self, ind: usize) -> (r: Option<LutLang>) {
        let ptype = self.get_type();
        let r = match ptype {
            PrimitiveType::AND => Some(LutLang::And([0, 0])),
            PrimitiveType::VCC => Some(LutLang::Const(LogicValue::True)),
            PrimitiveType::GND => Some(LutLang::Const(LogicValue::False)),
            PrimitiveType::NOR => Some(LutLang::Nor([0, 0])),
            PrimitiveType::XOR => Some(LutLang::Xor([0, 0])),
            PrimitiveType::MUX => Some(LutLang::Mux([0, 0, 0])),
            PrimitiveType::NOT => Some(LutLang::Not([0])),
            PrimitiveType::FDRE => Some(LutLang::Reg([0, 0, 0, 0])),
            _ => if ptype.is_lut() {
                Some(LutLang::Lut(blanks(ptype.get_num_inputs() + 1)))
            } else {
                None
            },
        };
        assert(r is Some ==> (r->0).node().args =~= (lut_func(ptype)->0).args);
        r
    }
}

impl AddProgram<LutLang> for PrimitiveCell {
    open spec fn program_node(cell: CellView, program_value: u64) -> Option<NodeView> {
        Some(leaf(Op::Program(program_value)))
    }

    proof fn law_program(cell: CellView, program_value: u64) {
    }

    fn add_program(&self, recexpr: &mut RecExpr<LutLang>, program_value: u64) -> (r: Option<Id>) {
        Some(recexpr.add(LutLang::Program(program_value)))
    }
}

impl AddProgram<CellLang> for PrimitiveCell {
    open spec fn program_node(cell: CellView, program_value: u64) -> Option<NodeView> {
        None
    }

    proof fn law_program(cell: CellView, program_value: u64) {
    }

    fn add_program(&self, recexpr: &mut RecExpr<CellLang>, program_value: u64) -> (r: Option<Id>) {
        None
    }
}

/// The type of the lookup table whose node has `n` children, one of them
/// its program.
pub open spec fn lut_type(n: nat) -> Option<PrimitiveType> {
    if n == 2 {
        Some(PrimitiveType::LUT1)
    } else if n == 3 {
        Some(PrimitiveType::LUT2)
    } else if n == 4 {
        Some(PrimitiveType::LUT3)
    } else if n == 5 {
        Some(PrimitiveType::LUT4)
    } else if n == 6 {
        Some(PrimitiveType::LUT5)
    } else if n == 7 {
        Some(PrimitiveType::LUT6)
    } else {
        None
    }
}

impl LogicCell<PrimitiveCell> for CellLang {
    open spec fn cell_of(node: NodeView) -> Option<CellView> {
        match node.op {
            Op::And => Some(fresh_cell(PrimitiveType::AND2, Some(1))),
            Op::Or => Some(fresh_cell(PrimitiveType::OR2, Some(1))),
            Op::Not => Some(fresh_cell(PrimitiveType::INV, Some(1))),
            Op::Const(v) => constant_cell(v),
            Op::Cell(name) => match named_type(name) {
                Some(t) => Some(fresh_cell(t, Some(1))),
                None => None,
            },
            _ => None,
        }
    }

    fn get_cell(&self) -> (r: Option<PrimitiveCell>) {
        match self {
            CellLang::And(_) => Some(PrimitiveCell::new(PrimitiveType::AND2, Some(1))),
            CellLang::Or(_) => Some(PrimitiveCell::new(PrimitiveType::OR2, Some(1))),
            CellLang::Inv(_) => Some(PrimitiveCell::new(PrimitiveType::INV, Some(1))),
            CellLang::Const(b) => PrimitiveCell::from_constant(LogicValue::from_bool(*b)),
            CellLang::Cell(name, _) => match PrimitiveType::from_str(name.as_str()) {
                Ok(ptype) => Some(PrimitiveCell::new(ptype, Some(1))),
                Err(_) => None,
            },
            _ => None,
        }
    }
}

impl LogicCell<PrimitiveCell> for LutLang {
    open spec fn cell_of(node: NodeView) -> Option<CellView> {
        match node.op {
            Op::And => Some(fresh_cell(PrimitiveType::AND, None)),
            Op::Mux => Some(fresh_cell(PrimitiveType::MUX, None)),
            Op::Nor => Some(fresh_cell(PrimitiveType::NOR, None)),
            Op::Not => Some(fresh_cell(PrimitiveType::NOT, None)),
            Op::Const(v) => constant_cell(v),
            Op::Reg => Some(fresh_cell(PrimitiveType::FDRE, None)),
            Op::Xor => Some(fresh_cell(PrimitiveType::XOR, None)),
            Op::Lut => match lut_type(node.args.len()) {
                Some(t) => Some(fresh_cell(t, None)),
                None => None,
            },
            _ => None,
        }
    }

    fn get_cell(&self) -> (r: Option<PrimitiveCell>) {
        match self {
            LutLang::And(_) => Some(PrimitiveCell::new(PrimitiveType::AND, None)),
            LutLang::Mux(_) => Some(PrimitiveCell::new(PrimitiveType::MUX, None)),
            LutLang::Nor(_) => Some(PrimitiveCell::new(PrimitiveType::NOR, None)),
            LutLang::Not(_) => Some(PrimitiveCell::new(PrimitiveType::NOT, None)),
            LutLang::Const(b) => PrimitiveCell::from_constant(*b),
            LutLang::Reg(_) => Some(PrimitiveCell::new(PrimitiveType::FDRE, None)),
            LutLang::Xor(_) => Some(PrimitiveCell::new(PrimitiveType::XOR, None)),
            LutLang::Lut(l) => match l.len() {
                2 => Some(PrimitiveCell::new(PrimitiveType::LUT1, None)),
                3 => Some(PrimitiveCell::new(PrimitiveType::LUT2, None)),
                4 => Some(PrimitiveCell::new(PrimitiveType::LUT3, None)),
                5 => Some(PrimitiveCell::new(PrimitiveType::LUT4, None)),
                6 => Some(PrimitiveCell::new(PrimitiveType::LUT5, None)),
                7 => Some(PrimitiveCell::new(PrimitiveType::LUT6, None)),
                _ => None,
            },
            _ => None,
        }
    }
}

/// A node of the lookup table language that has a cell is the function of
/// that cell, but for its children.
pub proof fn law_lut_cells_read_back(l: LutLang)
    ensures
        LutLang::cell_of(l.node()) matches Some(cell) ==> lut_func(cell.ptype) == Some(
            blank(l.node().op, l.node().args.len()),
        ),
{
    if let Some(cell) = LutLang::cell_of(l.node()) {
        assert((lut_func(cell.ptype)->0).args =~= blank(l.node().op, l.node().args.len()).args);
    }
}

/// A cell that goes by its name alone in the standard cell language is
/// found again by that name, at the smallest drive strength.
pub proof fn law_named_cells_read_back(t: PrimitiveType)
    requires
        cell_func(t) is Some,
        (cell_func(t)->0).op is Cell,
    ensures
        CellLang::cell_of(cell_func(t)->0) == Some(fresh_cell(t, Some(1))),
{
    crate::primitive::law_cell_names_read_back(t, None);
}

/// In terms of lookup tables, the number that is a truth table is a node of
/// its own, without children, and different numbers are different nodes. In
/// terms of standard cells there is no such node.
pub proof fn law_programs_are_nodes(cell: CellView, other: CellView, a: u64, b: u64)
    ensures
        <PrimitiveCell as AddProgram<LutLang>>::program_node(cell, a) matches Some(node) && node.op
            == Op::Program(a) && node.args.len() == 0,
        <PrimitiveCell as AddProgram<LutLang>>::program_node(cell, a) == <PrimitiveCell as AddProgram<
            LutLang,
        >>::program_node(other, b) <==> a == b,
        <PrimitiveCell as AddProgram<CellLang>>::program_node(cell, a) is None,
{
    if let Some(node) = <PrimitiveCell as AddProgram<LutLang>>::program_node(cell, a) {
        assert(node.op == Op::Program(a));
    }
    if let Some(node) = <PrimitiveCell as AddProgram<LutLang>>::program_node(other, b) {
        assert(node.op == Op::Program(b));
    }
}

} // verus!
