use eqmap_netlist::cell::PrimitiveCell;
use eqmap_netlist::error::NetlistError;
use eqmap_netlist::func::{AddProgram, LogicCell, LogicFunc};
use eqmap_netlist::ident::{Ident, IdentKind};
use eqmap_netlist::lang::{CellLang, CircuitLang, LutLang, RecExpr};
use eqmap_netlist::level::{LogicValue, Signal, Wire};
use eqmap_netlist::param::Param;
use eqmap_netlist::primitive::PrimitiveType;

fn id(name: &str) -> Ident {
    Ident::new(name)
}

#[test]
fn identifiers_are_told_apart() {
    let plain = id("abc");
    assert_eq!((plain.name(), plain.kind()), ("abc", IdentKind::Normal));
    let bit = id("abc[12]");
    assert_eq!((bit.name(), bit.kind()), ("abc", IdentKind::BitSlice(12)));
    assert_eq!(bit.to_text(), "abc[12]");
    let escaped = id("\\a+b");
    assert_eq!((escaped.name(), escaped.kind()), ("a+b", IdentKind::Escaped));
    assert_eq!(escaped.to_text(), "\\a+b ");
    assert_eq!(id("1a").kind(), IdentKind::Escaped);
    assert_eq!(id("a.b").kind(), IdentKind::Escaped);
    assert_eq!(id("a[x]").kind(), IdentKind::Normal);
    assert!(id("a").same(&id("a")));
    assert!(!id("a").same(&id("\\a")));
}

#[test]
fn identifiers_are_joined() {
    let a = id("g").join(&id("Y"));
    assert_eq!((a.name(), a.kind()), ("g_Y", IdentKind::Normal));
    let b = id("g[3]").join(&id("Y"));
    assert_eq!((b.name(), b.kind()), ("g_3_Y", IdentKind::Escaped));
    assert_eq!(id("y").join(&id("_old")).to_text(), "y__old");
}

#[test]
fn cells_have_the_ports_of_their_types() {
    let reg = PrimitiveCell::new(PrimitiveType::FDRE, None);
    let ins: Vec<String> = reg.get_input_ports().iter().map(|w| w.id.to_text()).collect();
    assert_eq!(ins, ["D", "C", "CE", "R"]);
    assert_eq!(reg.get_output_ports().len(), 1);
    assert_eq!(reg.get_output_ports()[0].id.to_text(), "Q");
    assert!(reg.get_output_ports().iter().all(|w| w.signal == Signal::FourState));
    assert!(reg.is_seq());
    let and = PrimitiveCell::new(PrimitiveType::AND2, Some(4));
    assert_eq!(and.get_name().to_text(), "AND2_X4");
    assert!(!and.is_seq());
    assert_eq!(PrimitiveType::LUT6.get_num_inputs(), 6);
    assert_eq!(PrimitiveType::MUX.get_input_list(), ["S", "A", "B"]);
    assert_eq!(PrimitiveType::VCC.get_output(), "P");
}

#[test]
fn cells_are_found_by_name() {
    let cell = PrimitiveCell::from_id(&id("NOR_X4")).unwrap();
    assert!(matches!(cell.get_type(), PrimitiveType::NOR));
    assert_eq!(cell.get_name().to_text(), "NOR");
    let cell = PrimitiveCell::from_id(&id("LUT4")).unwrap();
    assert!(cell.get_type().is_lut());
    assert!(matches!(PrimitiveCell::from_id(&id("FOO")), Err(NetlistError::ParseError(_))));
}

#[test]
fn parameters_are_kept() {
    let mut cell = PrimitiveCell::new(PrimitiveType::LUT1, None);
    let init = id("INIT");
    assert!(!cell.has_parameter(&init));
    assert!(cell.get_parameter(&init).is_none());
    assert!(cell.set_parameter(&init, Param::Integer(3)).is_none());
    assert!(matches!(
        cell.set_parameter(&init, Param::BitVec(vec![true, false])),
        Some(Param::Integer(3))
    ));
    assert!(cell.has_parameter(&init));
    assert!(matches!(cell.get_parameter(&init), Some(Param::BitVec(b)) if b == [true, false]));
    cell.set_parameter(&id("OTHER"), Param::Logic(LogicValue::Z));
    assert_eq!(cell.parameters().len(), 2);
    assert!(cell.clone().has_parameter(&init));
}

#[test]
fn constants_read_back() {
    let one = PrimitiveCell::from_constant(LogicValue::True).unwrap();
    assert_eq!(one.get_constant(), Some(LogicValue::True));
    let zero = PrimitiveCell::from_constant(LogicValue::False).unwrap();
    assert_eq!(zero.get_constant(), Some(LogicValue::False));
    assert!(PrimitiveCell::from_constant(LogicValue::X).is_none());
    assert!(PrimitiveCell::from_constant(LogicValue::Z).is_none());
    assert_eq!(PrimitiveCell::new(PrimitiveType::AND, None).get_constant(), None);
    assert_eq!(LogicValue::from_bool(true).to_text(), "1'b1");
}

fn cell_func(t: PrimitiveType) -> Option<CellLang> {
    PrimitiveCell::new(t, None).get_logic_func(0)
}

fn lut_func(t: PrimitiveType) -> Option<LutLang> {
    PrimitiveCell::new(t, None).get_logic_func(0)
}

#[test]
fn functions_depend_on_the_language() {
    assert_eq!(cell_func(PrimitiveType::NOT).unwrap().to_text(), "INV");
    assert_eq!(cell_func(PrimitiveType::XOR).unwrap().to_text(), "XOR");
    assert_eq!(cell_func(PrimitiveType::XOR).unwrap().children(), [0, 0]);
    assert!(cell_func(PrimitiveType::LUT3).is_none());
    assert_eq!(lut_func(PrimitiveType::LUT3).unwrap().children().len(), 4);
    assert_eq!(lut_func(PrimitiveType::FDRE).unwrap().to_text(), "REG");
    assert!(lut_func(PrimitiveType::OR).is_none());
    assert_eq!(lut_func(PrimitiveType::GND).unwrap().to_text(), "1'b0");
}

#[test]
fn programs_are_nodes_of_lookup_tables_only() {
    let cell = PrimitiveCell::new(PrimitiveType::LUT2, None);
    let mut luts: RecExpr<LutLang> = RecExpr::new();
    assert_eq!(cell.add_program(&mut luts, 8), Some(0));
    assert_eq!(luts.get(0).extract_program(), Some(8));
    let mut cells: RecExpr<CellLang> = RecExpr::new();
    assert_eq!(cell.add_program(&mut cells, 8), None);
    assert_eq!(cells.len(), 0);
}

#[test]
fn nodes_have_cells() {
    let cell = |l: LutLang| l.get_cell().map(|c: PrimitiveCell| c.get_name().to_text());
    assert_eq!(cell(LutLang::Mux([0, 0, 0])), Some("MUX".to_string()));
    assert_eq!(cell(LutLang::Lut(vec![0; 7])), Some("LUT6".to_string()));
    assert_eq!(cell(LutLang::Lut(vec![0; 8])), None);
    assert_eq!(cell(LutLang::Const(LogicValue::X)), None);
    assert_eq!(cell(LutLang::DontCare), None);
    let cell = |l: CellLang| l.get_cell().map(|c: PrimitiveCell| c.get_name().to_text());
    assert_eq!(cell(CellLang::Or([0, 0])), Some("OR2_X1".to_string()));
    assert_eq!(cell(CellLang::Const(true)), Some("VCC".to_string()));
    assert_eq!(cell(CellLang::Cell("XOR_X8".to_string(), vec![0, 0])), Some("XOR_X1".to_string()));
    assert_eq!(cell(CellLang::Var("a".to_string())), None);
}

#[test]
fn expressions_are_read_and_written() {
    let text = "(BUS (AND a (INV b)) (FOO true))";
    let expr = RecExpr::parse(text).unwrap();
    assert_eq!(expr.to_string(), text);
    assert_eq!(expr.root_ids().len(), 2);
    assert_eq!(expr.copy().len(), expr.len());
    assert!(RecExpr::parse("(AND a").is_none());
    let mut built: RecExpr<CellLang> = RecExpr::new();
    let a = built.add(CellLang::var("a".to_string()));
    let root = built.add(CellLang::Inv([a]));
    assert_eq!((a, root), (0, 1));
    assert_eq!(built.root_ids(), [1]);
    assert_eq!(built.to_string(), "(INV a)");
}

#[test]
fn wires_keep_their_signals() {
    let w = Wire { id: id("a"), signal: Signal::TwoState };
    assert_eq!(w.clone().signal, Signal::TwoState);
    let mut n = eqmap_netlist::netlist::Netlist::new("n");
    let d = n.insert_input(w);
    assert_eq!(n.wire(d).signal, Signal::TwoState);
}
