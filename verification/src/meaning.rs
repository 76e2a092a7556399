//! What cells and operators compute, and that cells and the nodes of
//! expressions that stand for each other compute the same.

use crate::cell::{cell_ok, CellView, PrimitiveCell};
use crate::func::{LogicCell, LogicFunc};
use crate::lang::{CellLang, CircuitLang, LutLang, NodeView, Op};
use crate::level::LogicValue;
use crate::param::{bits_value, value_bits, ParamView};
use crate::primitive::{
    cell_name, input_names, law_cell_names_read_back, law_names_tell_types_apart, lemma_literals,
    lut_size, named_type, primitive_name, PrimitiveType,
};
use crate::reading::init_name;
use vstd::arithmetic::power2::pow2;
use vstd::prelude::*;

verus! {

/// The row of a truth table that `ins` select: the first input is the lowest
/// binary digit of its number.
pub open spec fn row(ins: Seq<bool>) -> nat
    decreases ins.len(),
{
    if ins.len() == 0 {
        0
    } else {
        row(ins.drop_last()) + if ins.last() {
            pow2((ins.len() - 1) as nat)
        } else {
            0
        }
    }
}

/// Row `k` of the truth table whose rows are the binary digits of a number.
pub open spec fn table_bit(table: nat, k: nat) -> bool {
    (table / pow2(k)) % 2 == 1
}

/// What a cell of type `t` drives when its input ports have the values `ins`.
/// What a register drives is some function `reg` of them. What a lookup table
/// does depends on its truth table.
pub open spec fn type_value(
    t: PrimitiveType,
    reg: spec_fn(Seq<bool>) -> bool,
    ins: Seq<bool>,
) -> bool {
    match t {
        PrimitiveType::AND => ins[0] && ins[1],
        PrimitiveType::AND2 => ins[0] && ins[1],
        PrimitiveType::OR => ins[0] || ins[1],
        PrimitiveType::OR2 => ins[0] || ins[1],
        PrimitiveType::NOT => !ins[0],
        PrimitiveType::INV => !ins[0],
        PrimitiveType::NOR => !(ins[0] || ins[1]),
        PrimitiveType::XOR => ins[0] != ins[1],
        PrimitiveType::MUX => if ins[0] {
            ins[1]
        } else {
            ins[2]
        },
        PrimitiveType::VCC => true,
        PrimitiveType::GND => false,
        PrimitiveType::FDRE => reg(ins),
        _ => false,
    }
}

/// What a cell drives when its input ports have the values `ins`.
pub open spec fn cell_value(
    cell: CellView,
    reg: spec_fn(Seq<bool>) -> bool,
    ins: Seq<bool>,
) -> bool {
    if lut_size(cell.ptype) > 0 {
        cell.params[init_name()]->BitVec_0[row(ins) as int]
    } else {
        type_value(cell.ptype, reg, ins)
    }
}

/// The value of a node of an operator whose children have the values `ins`.
/// Leaves and lookup tables have theirs from elsewhere.
pub open spec fn op_value(op: Op, reg: spec_fn(Seq<bool>) -> bool, ins: Seq<bool>) -> bool {
    match op {
        Op::And => ins[0] && ins[1],
        Op::Or => ins[0] || ins[1],
        Op::Not => !ins[0],
        Op::Nor => !(ins[0] || ins[1]),
        Op::Xor => ins[0] != ins[1],
        Op::Mux => if ins[0] {
            ins[1]
        } else {
            ins[2]
        },
        Op::Reg => reg(ins),
        Op::Const(v) => v == LogicValue::True,
        Op::Cell(name) => named_type(name) matches Some(t) && type_value(t, reg, ins),
        _ => false,
    }
}

/// The value of the node at place `i` of an expression, where `env` gives
/// the values of leaves by their places.
pub open spec fn expr_value(
    nodes: Seq<NodeView>,
    reg: spec_fn(Seq<bool>) -> bool,
    env: spec_fn(int) -> bool,
    i: int,
) -> bool
    decreases i, nodes[i].args.len() + 1,
{
    let args = nodes[i].args;
    let ins = child_values(nodes, reg, env, i, args.len() as int);
    match nodes[i].op {
        Op::Var(_) => env(i),
        Op::Lut => args.len() > 0 && (nodes[args[0] as int].op matches Op::Program(p) && table_bit(
            p as nat,
            row(ins.skip(1)),
        )),
        op => op_value(op, reg, ins),
    }
}

/// The values of the first `n` children of the node at place `i`.
pub open spec fn child_values(
    nodes: Seq<NodeView>,
    reg: spec_fn(Seq<bool>) -> bool,
    env: spec_fn(int) -> bool,
    i: int,
    n: int,
) -> Seq<bool>
    decreases i, n,
{
    if n <= 0 {
        Seq::empty()
    } else {
        let a = nodes[i].args[n - 1];
        child_values(nodes, reg, env, i, n - 1).push(
            a < i && expr_value(nodes, reg, env, a as int),
        )
    }
}

/// Each child counts with its value.
pub proof fn lemma_child_values(
    nodes: Seq<NodeView>,
    reg: spec_fn(Seq<bool>) -> bool,
    env: spec_fn(int) -> bool,
    i: int,
    n: int,
)
    requires
        0 <= n,
    ensures
        child_values(nodes, reg, env, i, n).len() == n,
        forall|k: int|
            0 <= k < n && nodes[i].args[k] < i ==> #[trigger] child_values(
                nodes,
                reg,
                env,
                i,
                n,
            )[k] == expr_value(nodes, reg, env, nodes[i].args[k] as int),
    decreases n,
{
    if n > 0 {
        lemma_child_values(nodes, reg, env, i, n - 1);
    }
}

/// What each type of gate computes, and that the operators compute the same.
/// A nor gate drives one exactly where both inputs are zero, an exclusive or
/// gate exactly where they differ, and a multiplexer drives its second input
/// where the first is one, and else its third.
pub proof fn law_gates_compute_their_functions(
    reg: spec_fn(Seq<bool>) -> bool,
    a: bool,
    b: bool,
    c: bool,
    d: bool,
)
    ensures
        type_value(PrimitiveType::AND, reg, seq![a, b]) <==> a && b,
        type_value(PrimitiveType::AND2, reg, seq![a, b]) <==> a && b,
        op_value(Op::And, reg, seq![a, b]) <==> a && b,
        type_value(PrimitiveType::OR, reg, seq![a, b]) <==> a || b,
        type_value(PrimitiveType::OR2, reg, seq![a, b]) <==> a || b,
        op_value(Op::Or, reg, seq![a, b]) <==> a || b,
        type_value(PrimitiveType::NOR, reg, seq![a, b]) <==> !a && !b,
        op_value(Op::Nor, reg, seq![a, b]) <==> !a && !b,
        type_value(PrimitiveType::XOR, reg, seq![a, b]) <==> (a && !b) || (!a && b),
        op_value(Op::Xor, reg, seq![a, b]) <==> (a && !b) || (!a && b),
        type_value(PrimitiveType::NOT, reg, seq![a]) <==> !a,
        type_value(PrimitiveType::INV, reg, seq![a]) <==> !a,
        op_value(Op::Not, reg, seq![a]) <==> !a,
        type_value(PrimitiveType::MUX, reg, seq![a, b, c]) <==> (a && b) || (!a && c),
        op_value(Op::Mux, reg, seq![a, b, c]) <==> (a && b) || (!a && c),
        type_value(PrimitiveType::VCC, reg, Seq::empty()),
        op_value(Op::Const(LogicValue::True), reg, Seq::empty()),
        !type_value(PrimitiveType::GND, reg, Seq::empty()),
        !op_value(Op::Const(LogicValue::False), reg, Seq::empty()),
        type_value(PrimitiveType::FDRE, reg, seq![a, b, c, d]) == reg(seq![a, b, c, d]),
        op_value(Op::Reg, reg, seq![a, b, c, d]) == reg(seq![a, b, c, d]),
{
}

/// The function of a cell in terms of standard cells has a child for every
/// input port, and computes what the cell does. Lookup tables have none.
pub proof fn law_standard_functions_compute_the_same(
    cell: CellView,
    ind: nat,
    reg: spec_fn(Seq<bool>) -> bool,
    ins: Seq<bool>,
)
    requires
        cell_ok(cell),
        ins.len() == cell.inputs.len(),
    ensures
        match <PrimitiveCell as LogicFunc<CellLang>>::logic_func(cell, ind) {
            Some(node) => {
                &&& lut_size(cell.ptype) == 0
                &&& node.args.len() == cell.inputs.len()
                &&& op_value(node.op, reg, ins) == cell_value(cell, reg, ins)
            },
            None => lut_size(cell.ptype) > 0,
        },
{
    law_cell_names_read_back(cell.ptype, None);
    assert(cell.inputs.len() == input_names(cell.ptype).len());
}

/// The function of a cell in terms of lookup tables computes what the cell
/// does, with a child for every input port. That of a lookup table has one
/// more in front.
pub proof fn law_table_functions_compute_the_same(
    cell: CellView,
    ind: nat,
    reg: spec_fn(Seq<bool>) -> bool,
    ins: Seq<bool>,
)
    requires
        cell_ok(cell),
        ins.len() == cell.inputs.len(),
    ensures
        <PrimitiveCell as LogicFunc<LutLang>>::logic_func(cell, ind) matches Some(node) ==> if lut_size(
            cell.ptype,
        ) > 0 {
            node.op is Lut && node.args.len() == cell.inputs.len() + 1
        } else {
            &&& !(node.op is Lut)
            &&& node.args.len() == cell.inputs.len()
            &&& op_value(node.op, reg, ins) == cell_value(cell, reg, ins)
        },
        lut_size(cell.ptype) > 0 ==> <PrimitiveCell as LogicFunc<LutLang>>::logic_func(
            cell,
            ind,
        ) is Some,
{
    assert(cell.inputs.len() == input_names(cell.ptype).len());
}

/// The cell of a node in terms of standard cells computes what the node does.
/// A node has none only if it is no operator, or names no type.
pub proof fn law_standard_cells_compute_the_same(
    node: NodeView,
    reg: spec_fn(Seq<bool>) -> bool,
    ins: Seq<bool>,
)
    ensures
        <CellLang as LogicCell<PrimitiveCell>>::cell_of(node) matches Some(cell) ==> cell_ok(cell)
            && type_value(cell.ptype, reg, ins) == op_value(node.op, reg, ins),
        <CellLang as LogicCell<PrimitiveCell>>::cell_of(node) is Some <==> match node.op {
            Op::And => true,
            Op::Or => true,
            Op::Not => true,
            Op::Const(v) => v == LogicValue::True || v == LogicValue::False,
            Op::Cell(name) => named_type(name) is Some,
            _ => false,
        },
{
}

/// The cell of a node in terms of lookup tables computes what the node does.
/// That of a lookup table has an input port for every child but the first.
pub proof fn law_table_cells_compute_the_same(
    node: NodeView,
    reg: spec_fn(Seq<bool>) -> bool,
    ins: Seq<bool>,
)
    ensures
        <LutLang as LogicCell<PrimitiveCell>>::cell_of(node) matches Some(cell) ==> cell_ok(cell) && if lut_size(
            cell.ptype,
        ) > 0 {
            node.op is Lut && node.args.len() == cell.inputs.len() + 1
        } else {
            !(node.op is Lut) && type_value(cell.ptype, reg, ins) == op_value(node.op, reg, ins)
        },
        <LutLang as LogicCell<PrimitiveCell>>::cell_of(node) is Some <==> match node.op {
            Op::And => true,
            Op::Nor => true,
            Op::Xor => true,
            Op::Not => true,
            Op::Mux => true,
            Op::Reg => true,
            Op::Const(v) => v == LogicValue::True || v == LogicValue::False,
            Op::Lut => 2 <= node.args.len() <= 7,
            _ => false,
        },
{
    if let Some(cell) = <LutLang as LogicCell<PrimitiveCell>>::cell_of(node) {
        assert(cell.inputs.len() == input_names(cell.ptype).len());
    }
}

/// Cells of different types have different functions, in both languages. So
/// a function tells the type of the cell.
pub proof fn law_functions_tell_types_apart(a: CellView, b: CellView, ind: nat)
    requires
        cell_ok(a),
        cell_ok(b),
        a.ptype != b.ptype,
    ensures
        <PrimitiveCell as LogicFunc<CellLang>>::logic_func(a, ind) is Some ==> <PrimitiveCell as LogicFunc<
            CellLang,
        >>::logic_func(a, ind) != <PrimitiveCell as LogicFunc<CellLang>>::logic_func(b, ind),
        <PrimitiveCell as LogicFunc<LutLang>>::logic_func(a, ind) is Some ==> <PrimitiveCell as LogicFunc<
            LutLang,
        >>::logic_func(a, ind) != <PrimitiveCell as LogicFunc<LutLang>>::logic_func(b, ind),
{
    if primitive_name(a.ptype) == primitive_name(b.ptype) {
        law_names_tell_types_apart(a.ptype, b.ptype);
    }
    let x = <PrimitiveCell as LogicFunc<LutLang>>::logic_func(a, ind);
    let y = <PrimitiveCell as LogicFunc<LutLang>>::logic_func(b, ind);
    if x is Some && x == y {
        assert((x->0).args.len() == (y->0).args.len());
    }
}

/// Going from a cell to its function and back gives a cell of the same type in
/// terms of lookup tables. In terms of standard cells it does too, except that
/// a plain and, or and inverter come back as those of the standard cell
/// library.
pub proof fn law_functions_lead_back_to_the_type(cell: CellView, ind: nat)
    requires
        cell_ok(cell),
    ensures
        <PrimitiveCell as LogicFunc<LutLang>>::logic_func(cell, ind) matches Some(node) ==> (
        <LutLang as LogicCell<PrimitiveCell>>::cell_of(node) matches Some(back) && back.ptype
            == cell.ptype),
        <PrimitiveCell as LogicFunc<CellLang>>::logic_func(cell, ind) matches Some(node) ==> (
        <CellLang as LogicCell<PrimitiveCell>>::cell_of(node) matches Some(back) && {
            &&& cell.ptype == PrimitiveType::AND ==> back.ptype == PrimitiveType::AND2
            &&& cell.ptype == PrimitiveType::OR ==> back.ptype == PrimitiveType::OR2
            &&& cell.ptype == PrimitiveType::NOT ==> back.ptype == PrimitiveType::INV
            &&& {
                ||| cell.ptype == PrimitiveType::AND
                ||| cell.ptype == PrimitiveType::OR
                ||| cell.ptype == PrimitiveType::NOT
                ||| back.ptype == cell.ptype
            }
        }),
{
    law_cell_names_read_back(cell.ptype, None);
}

/// Functions are written by the names of the types, except for the inverter
/// and the constants. In terms of standard cells, everything but and, or,
/// inverter and constants is a cell by name. In terms of lookup tables,
/// registers and lookup tables have texts of their own.
pub proof fn law_functions_are_written_as_the_type(cell: CellView, ind: nat)
    requires
        cell_ok(cell),
        !(cell.ptype == PrimitiveType::NOT || cell.ptype == PrimitiveType::VCC || cell.ptype
            == PrimitiveType::GND),
    ensures
        <PrimitiveCell as LogicFunc<CellLang>>::logic_func(cell, ind) matches Some(node) ==> {
            &&& <CellLang as CircuitLang>::op_text(node.op) == primitive_name(
                cell.ptype,
            )
            &&& cell.ptype == PrimitiveType::AND || cell.ptype == PrimitiveType::OR || node.op
                == Op::Cell(primitive_name(cell.ptype))
        },
        lut_size(cell.ptype) == 0 && cell.ptype != PrimitiveType::FDRE ==> (
        <PrimitiveCell as LogicFunc<LutLang>>::logic_func(cell, ind) matches Some(node)
            ==> <LutLang as CircuitLang>::op_text(node.op) == primitive_name(
            cell.ptype,
        )),
{
}

/// The cells that nodes have come without parameters. In terms of standard
/// cells their names end in the drive strength one, whatever a node's name
/// says of it, but for constants; in terms of lookup tables their names are
/// those of the types.
pub proof fn law_cells_of_nodes_are_plain(node: NodeView)
    ensures
        <CellLang as LogicCell<PrimitiveCell>>::cell_of(node) matches Some(cell) ==> {
            &&& cell.params.dom() == Set::<crate::ident::IdentView>::empty()
            &&& !(node.op is Const) ==> cell.name.name == primitive_name(cell.ptype) + seq![
                '_',
                'X',
                '1',
            ]
            &&& node.op is Const ==> cell.name.name == primitive_name(cell.ptype)
            &&& node.op matches Op::Cell(name) ==> crate::primitive::base_name(name)
                == primitive_name(cell.ptype)
        },
        <LutLang as LogicCell<PrimitiveCell>>::cell_of(node) matches Some(cell) ==> {
            &&& cell.params.dom() == Set::<crate::ident::IdentView>::empty()
            &&& cell.name.name == primitive_name(cell.ptype)
        },
{
    lemma_literals();
    if let Some(cell) = <CellLang as LogicCell<PrimitiveCell>>::cell_of(node) {
        crate::primitive::law_cell_names_are_plain(cell.ptype, Some(1));
        crate::primitive::law_cell_names_are_plain(cell.ptype, None);
        assert(crate::text::decimal(1) =~= seq!['1']);
        assert(cell_name(cell.ptype, Some(1)) =~= primitive_name(cell.ptype) + seq!['_', 'X', '1']);
        assert(cell.params.dom() =~= Set::empty());
    }
    if let Some(cell) = <LutLang as LogicCell<PrimitiveCell>>::cell_of(node) {
        crate::primitive::law_cell_names_are_plain(cell.ptype, None);
        assert(cell.params.dom() =~= Set::empty());
    }
}

/// A row of a truth table with `n` inputs is one of the `n`th power of two.
pub proof fn lemma_row_bound(ins: Seq<bool>)
    ensures
        row(ins) < pow2(ins.len()),
    decreases ins.len(),
{
    broadcast use vstd::arithmetic::power2::lemma_pow2_pos;

    if ins.len() > 0 {
        lemma_row_bound(ins.drop_last());
        vstd::arithmetic::power2::lemma_pow2_unfold(ins.len());
    }
}

/// The rows of a truth table are read as the binary digits of a number, the
/// first row as the lowest.
pub proof fn law_rows_are_binary_digits(bits: Seq<bool>, k: nat)
    requires
        k < bits.len(),
    ensures
        table_bit(bits_value(bits), k) == bits[k as int],
    decreases k,
{
    let rest = bits.drop_first();
    let n = bits_value(bits);
    vstd::arithmetic::power2::lemma2_to64();
    assert(n / 2 == bits_value(rest));
    if k == 0 {
        assert(n / pow2(0) == n);
    } else {
        law_rows_are_binary_digits(rest, (k - 1) as nat);
        lemma_halved(n, k);
        assert(rest[k - 1] == bits[k as int]);
    }
}

/// The binary digits of a number are written as the rows of a truth table, the
/// lowest as the first row.
pub proof fn law_binary_digits_are_rows(n: nat, size: nat, k: nat)
    requires
        k < size,
    ensures
        value_bits(n, size).len() == size,
        value_bits(n, size)[k as int] == table_bit(n, k),
    decreases k,
{
    crate::param::law_bits_read_back(n, size);
    vstd::arithmetic::power2::lemma2_to64();
    if k == 0 {
        assert(n / pow2(0) == n);
    } else {
        law_binary_digits_are_rows(n / 2, (size - 1) as nat, (k - 1) as nat);
        lemma_halved(n, k);
        assert(value_bits(n, size)[k as int] == value_bits(n / 2, (size - 1) as nat)[k - 1]);
    }
}

/// Dropping the lowest binary digit.
proof fn lemma_halved(n: nat, k: nat)
    requires
        k > 0,
    ensures
        n / pow2(k) == (n / 2) / pow2((k - 1) as nat),
{
    broadcast use vstd::arithmetic::power2::lemma_pow2_pos;

    vstd::arithmetic::power2::lemma_pow2_unfold(k);
    vstd::arithmetic::div_mod::lemma_div_denominator(n as int, 2, pow2((k - 1) as nat) as int);
}

/// A lookup table goes into a netlist with the rows of its program as truth
/// table. Nothing else of the cell changes; a register gets an unknown state,
/// and other cells stay as they are.
pub proof fn law_programs_become_truth_tables(cell: CellView, program: u64, k: nat)
    ensures
        ({
            let c = crate::rewrite::prepared(cell, program);
            &&& c.name == cell.name
            &&& c.ptype == cell.ptype
            &&& c.inputs == cell.inputs
            &&& c.outputs == cell.outputs
            &&& forall|id: crate::ident::IdentView|
                id != init_name() ==> c.params.contains_key(id) == cell.params.contains_key(id)
                    && #[trigger] c.params[id] == cell.params[id]
            &&& lut_size(cell.ptype) > 0 ==> (c.params[init_name()] matches ParamView::BitVec(bits)
                && bits.len() == pow2(lut_size(cell.ptype)) && (k < bits.len() ==> bits[k as int]
                == table_bit(program as nat, k)))
            &&& cell.ptype == PrimitiveType::FDRE ==> c.params[init_name()] == ParamView::Logic(
                LogicValue::X,
            )
            &&& lut_size(cell.ptype) == 0 && cell.ptype != PrimitiveType::FDRE ==> c == cell
        }),
{
    if lut_size(cell.ptype) > 0 {
        let size = pow2(lut_size(cell.ptype));
        crate::param::law_bits_read_back(program as nat, size);
        if k < size {
            law_binary_digits_are_rows(program as nat, size, k);
        }
    }
}

/// Operators are written like the cells that compute them. In terms of
/// standard cells that holds of the inverter and of cells by name; in terms of
/// lookup tables of all gates, and behind the text of a lookup table the
/// number of its inputs is left.
pub proof fn law_operators_are_written_like_cells(node: NodeView)
    ensures
        <CellLang as LogicCell<PrimitiveCell>>::cell_of(node) matches Some(cell) ==> {
            &&& node.op is Not ==> <CellLang as CircuitLang>::op_text(node.op) == primitive_name(
                cell.ptype,
            )
            &&& node.op is Cell ==> crate::primitive::base_name(
                <CellLang as CircuitLang>::op_text(node.op),
            ) == primitive_name(cell.ptype)
            &&& node.op is And || node.op is Or ==> <CellLang as CircuitLang>::op_text(node.op)
                + seq!['2'] == primitive_name(cell.ptype)
            &&& node.op is Const ==> <CellLang as CircuitLang>::op_text(node.op) == if cell.ptype
                == PrimitiveType::VCC {
                "true"@
            } else {
                "false"@
            }
        },
        <LutLang as LogicCell<PrimitiveCell>>::cell_of(node) matches Some(cell) ==> {
            &&& node.op is And || node.op is Nor || node.op is Xor || node.op is Mux || node.op is Not
                ==> <LutLang as CircuitLang>::op_text(node.op) == primitive_name(cell.ptype)
            &&& node.op is Lut ==> primitive_name(cell.ptype) == <LutLang as CircuitLang>::op_text(
                node.op,
            ) + crate::text::decimal((node.args.len() - 1) as nat)
        },
{
    lemma_literals();
    reveal_strlit("LUT");
    if node.op is Lut {
        if let Some(cell) = <LutLang as LogicCell<PrimitiveCell>>::cell_of(node) {
            crate::primitive::law_lut_ports_are_numbered(cell.ptype, 0);
            assert("LUT"@ =~= seq!['L', 'U', 'T']);
        }
    }
    if let Some(cell) = <CellLang as LogicCell<PrimitiveCell>>::cell_of(node) {
        if node.op is And || node.op is Or {
            assert(<CellLang as CircuitLang>::op_text(node.op) + seq!['2'] =~= primitive_name(
                cell.ptype,
            ));
        }
    }
}

} // verus!
