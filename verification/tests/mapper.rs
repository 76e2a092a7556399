use eqmap_netlist::cell::PrimitiveCell;
use eqmap_netlist::ident::Ident;
use eqmap_netlist::lang::{CellLang, CircuitLang, LutLang, RecExpr};
use eqmap_netlist::level::{LogicValue, Wire};
use eqmap_netlist::mapper::LogicMapper;
use eqmap_netlist::netlist::{DrivenNet, Netlist};
use eqmap_netlist::param::Param;
use eqmap_netlist::part::BlackBox;
use eqmap_netlist::primitive::PrimitiveType;
use eqmap_netlist::reading::is_readable;

fn id(name: &str) -> Ident {
    Ident::new(name)
}

fn wire(name: &str) -> Wire {
    Wire::new_logic(id(name))
}

fn net(node: usize) -> DrivenNet {
    DrivenNet { node, pos: 0 }
}

fn and_gate() -> PrimitiveCell {
    PrimitiveCell::new(PrimitiveType::AND, None)
}

fn reg_cell() -> PrimitiveCell {
    PrimitiveCell::new(PrimitiveType::FDRE, None)
}

fn not_gate() -> PrimitiveCell {
    PrimitiveCell::new(PrimitiveType::NOT, None)
}

fn and_netlist() -> Netlist {
    let mut netlist = Netlist::new("example");

    // Add the two inputs
    let a = netlist.insert_input(wire("a"));
    let b = netlist.insert_input(wire("b"));

    // Instantiate an AND gate
    let instance = netlist.insert_gate(and_gate(), id("inst_0"), &vec![a, b]).unwrap();

    // Make this AND gate an output
    // Setting both the net and output name to "y" tests more edge cases
    netlist.set_wire(net(instance), wire("y"));
    netlist.expose_with_name(net(instance), id("y"));

    netlist
}

fn divider_netlist() -> Netlist {
    let mut netlist = Netlist::new("example");

    // Add the input
    let a = netlist.insert_input(wire("a"));

    // Instantiate a reg
    let reg = netlist.insert_gate_disconnected(reg_cell(), id("inst_0"));

    // And last val and input
    let and = netlist.insert_gate(and_gate(), id("inst_1"), &vec![a, net(reg)]).unwrap();

    let cell = netlist.cell(reg).unwrap();
    let d = cell.get_input_ports().iter().position(|p| p.id.same(&id("D"))).unwrap();
    netlist.connect(net(and), reg, d);

    // Make this Reg an output
    netlist.expose_with_name(net(reg), id("y"));

    netlist
}

fn and_const_netlist() -> Netlist {
    let mut netlist = Netlist::new("example");

    // Add the two inputs
    let a = netlist.insert_constant(LogicValue::True, id("a")).unwrap();
    let b = netlist.insert_constant(LogicValue::False, id("a")).unwrap();

    // Instantiate an AND gate
    let instance = netlist.insert_gate(and_gate(), id("inst_0"), &vec![a, b]).unwrap();

    // Make this AND gate an output
    netlist.expose_with_name(net(instance), id("y"));

    netlist
}

#[test]
fn test_and_gate() {
    let netlist = and_netlist();
    let output = net(netlist.last().unwrap());

    let mapper = LogicMapper::<CellLang>::build(&netlist);
    assert!(mapper.is_ok());
    let mut mapper = mapper.unwrap();

    // Check the RecExpr is correct
    let expr = mapper.insert_single_net(output);
    assert!(expr.is_ok());
    let expr = expr.unwrap();
    assert_eq!(expr.to_string(), "(AND a b)");

    // Check the root properties are correct
    let mut mapping = mapper.mappings();
    assert!(!mapping.is_empty());
    let mapping = mapping.pop().unwrap();
    assert_eq!(mapping.root_nets().into_iter().next().unwrap(), output);
    assert_eq!(netlist.len(), mapping.get_expr().len());

    // Check the leaves
    let l0 = mapping.get_leaf("a");
    assert!(l0.is_some());
    let l0 = l0.unwrap();
    assert_eq!(l0, net(netlist.first().unwrap()));
}

#[test]
fn test_consts() {
    let netlist = and_const_netlist();
    let output = net(netlist.last().unwrap());

    let mapper = LogicMapper::<CellLang>::build(&netlist);
    assert!(mapper.is_ok());
    let mut mapper = mapper.unwrap();

    // Check the RecExpr is correct
    let expr = mapper.insert_single_net(output);
    assert!(expr.is_ok());
    let expr = expr.unwrap();
    assert_eq!(expr.to_string(), "(AND true false)");
}

#[test]
fn test_divider() {
    let netlist = divider_netlist();
    let output = net(netlist.last().unwrap());

    let mapper = LogicMapper::<CellLang>::build(&netlist);
    assert!(mapper.is_ok());
    let mut mapper = mapper.unwrap();

    let mapping = mapper.insert_single_net(output);
    assert!(mapping.is_err());

    let err = mapping.unwrap_err();
    assert!(err.contains("Cycle"));
}

#[test]
fn test_and_flip() {
    let mut netlist = and_netlist();
    let output = net(netlist.last().unwrap());

    let mapper = LogicMapper::<CellLang>::build(&netlist);
    assert!(mapper.is_ok());
    let mut mapper = mapper.unwrap();

    // Check the RecExpr is correct
    let _ = mapper.insert_single_net(output);

    let mut mapping = mapper.mappings();
    assert!(!mapping.is_empty());
    let mapping = mapping.pop().unwrap();

    let rewrite: RecExpr<CellLang> = RecExpr::parse("(AND b a)").unwrap();
    let mapping = mapping.with_expr(rewrite);

    let rewrite = mapping.rewrite(&mut netlist);
    assert!(rewrite.is_ok());
    assert!(netlist.len() == 3);

    // The new gate stands where the old one did, under its name
    let roots = rewrite.unwrap();
    assert_eq!(roots, vec![net(2)]);
    assert_eq!(netlist.wire(roots[0]).id.to_text(), "y");
    assert_eq!(netlist.instance_name(2).unwrap().to_text(), "reinst_2");
    assert_eq!(netlist.cell(2).unwrap().get_name().to_text(), "AND2_X1");
    assert_eq!(netlist.drivers(2), vec![Some(net(1)), Some(net(0))]);
    let outputs = netlist.outputs();
    assert_eq!(outputs.len(), 1);
    assert_eq!(outputs[0].0, net(2));
    assert_eq!(outputs[0].1.id.to_text(), "y");
}

#[test]
fn inputs_have_trivial_mappings() {
    let netlist = and_netlist();
    let mut mapper = LogicMapper::<CellLang>::build(&netlist).unwrap();
    let err = mapper.insert_single_net(net(0)).unwrap_err();
    assert_eq!(err, "Inputs have trivial mappings");
    assert!(mapper.mappings().is_empty());
}

#[test]
fn an_input_among_several_roots_is_a_leaf() {
    let netlist = and_netlist();
    let mut mapper = LogicMapper::<CellLang>::build(&netlist).unwrap();
    let expr = mapper.insert(vec![net(2), net(0)]).unwrap();
    assert_eq!(expr.to_string(), "(BUS (AND a b) a)");
    let mapping = mapper.mappings().pop().unwrap();
    assert!(mapping.is_multi_mapping());
    assert_eq!(mapping.root_nets(), vec![net(2), net(0)]);
    let ids = mapping.root_ids();
    assert_eq!(ids.len(), 2);
    assert_eq!(mapping.get_leaf_by_id(&ids[0]), None);
    assert_eq!(mapping.get_leaf_by_id(&ids[1]), Some(net(0)));
    assert_eq!(mapping.get_leaf("c"), None);
}

#[test]
fn shared_logic_is_read_once() {
    let mut n = and_netlist();
    let g = n.insert_gate(not_gate(), id("inst_1"), &vec![net(2)]).unwrap();
    let mut mapper = LogicMapper::<CellLang>::build(&n).unwrap();
    let expr = mapper.insert(vec![net(g), net(2)]).unwrap();
    assert_eq!(expr.to_string(), "(BUS (INV (AND a b)) (AND a b))");
    assert_eq!(expr.len(), 5);
    let again = mapper.insert(vec![net(2), net(2)]).unwrap();
    assert_eq!(again.to_string(), "(BUS (AND a b) (AND a b))");
    assert_eq!(mapper.mappings().len(), 2);
}

#[test]
fn no_roots_make_an_empty_expression() {
    let netlist = and_netlist();
    let mut mapper = LogicMapper::<CellLang>::build(&netlist).unwrap();
    assert_eq!(mapper.insert(vec![]).unwrap().len(), 0);
    let mappings = mapper.mappings();
    assert_eq!(mappings.len(), 1);
    assert!(!mappings[0].is_multi_mapping());
}

#[test]
fn longer_cycles_are_met_too() {
    let mut n = Netlist::new("example");
    let a = n.insert_gate_disconnected(not_gate(), id("i0"));
    let b = n.insert_gate(not_gate(), id("i1"), &vec![net(a)]).unwrap();
    let c = n.insert_gate(not_gate(), id("i2"), &vec![net(b)]).unwrap();
    n.connect(net(c), a, 0);
    let mut mapper = LogicMapper::<CellLang>::build(&n).unwrap();
    assert_eq!(mapper.insert(vec![net(a)]).unwrap_err(), "Cycle detected in netlist");
    assert!(mapper.mappings().is_empty());
}

#[test]
fn a_gate_that_drives_itself_is_a_cycle() {
    let mut n = Netlist::new("example");
    let a = n.insert_gate_disconnected(not_gate(), id("i0"));
    n.connect(net(a), a, 0);
    let mut mapper = LogicMapper::<CellLang>::build(&n).unwrap();
    assert_eq!(mapper.insert_single_net(net(a)).unwrap_err(), "Cycle detected in netlist");
}

#[test]
fn an_open_input_port_is_an_error() {
    let mut n = Netlist::new("example");
    let a = n.insert_input(wire("a"));
    let g = n.insert_gate_disconnected(and_gate(), id("g"));
    n.connect(a, g, 0);
    let mut mapper = LogicMapper::<CellLang>::build(&n).unwrap();
    let err = mapper.insert_single_net(net(g)).unwrap_err();
    assert_eq!(err, "Failed to get driver for input 1 of net g_Y");
}

#[test]
fn other_cells_go_by_their_names() {
    let mut n = Netlist::new("example");
    let s = n.insert_input(wire("s"));
    let a = n.insert_input(wire("a"));
    let b = n.insert_input(wire("bus[3]"));
    let mux = PrimitiveCell::new(PrimitiveType::MUX, None);
    let g = n.insert_gate(mux, id("g"), &vec![s, a, b]).unwrap();
    let mut mapper = LogicMapper::<CellLang>::build(&n).unwrap();
    assert_eq!(mapper.insert_single_net(net(g)).unwrap().to_string(), "(MUX s a bus[3])");
    let mapping = mapper.mappings().pop().unwrap();
    assert_eq!(mapping.get_leaf("bus[3]"), Some(b));
}

fn lut(ptype: PrimitiveType, bits: &str) -> PrimitiveCell {
    let mut cell = PrimitiveCell::new(ptype, None);
    let bits: Vec<bool> = bits.chars().rev().map(|c| c == '1').collect();
    cell.set_parameter(&id("INIT"), Param::BitVec(bits));
    cell
}

fn lut_netlist() -> (Netlist, DrivenNet, DrivenNet) {
    let mut n = Netlist::new("example");
    let a = n.insert_input(wire("a"));
    let b = n.insert_input(wire("b"));
    let l = n.insert_gate(lut(PrimitiveType::LUT2, "1000"), id("l"), &vec![a, b]).unwrap();
    let m = n.insert_gate(lut(PrimitiveType::LUT1, "01"), id("m"), &vec![net(l)]).unwrap();
    n.expose_with_name(net(m), id("y"));
    (n, net(l), net(m))
}

#[test]
fn lookup_tables_follow_their_programs() {
    let (n, _l, m) = lut_netlist();
    let mut mapper = LogicMapper::<LutLang>::build(&n).unwrap();
    let expr = mapper.insert_single_net(m).unwrap();
    assert_eq!(expr.to_string(), "(LUT 1 (LUT 8 a b))");

    // Standard cells have no lookup tables
    let mut mapper = LogicMapper::<CellLang>::build(&n).unwrap();
    assert_eq!(mapper.insert_single_net(m).unwrap().to_string(), "m_O");
}

#[test]
fn truth_tables_come_back() {
    let (mut n, _l, m) = lut_netlist();
    let mut mapper = LogicMapper::<LutLang>::build(&n).unwrap();
    mapper.insert_single_net(m).unwrap();
    let mapping = mapper.mappings().pop().unwrap();
    let roots = mapping.rewrite(&mut n).unwrap();
    assert_eq!(n.len(), 4);
    assert_eq!(n.wire(roots[0]).id.to_text(), "m_O");
    let top = n.cell(roots[0].node).unwrap();
    assert!(matches!(top.get_type(), PrimitiveType::LUT1));
    assert!(matches!(top.get_parameter(&id("INIT")), Some(Param::BitVec(b)) if b == [true, false]));
    let below = n.drivers(roots[0].node)[0].unwrap();
    let cell = n.cell(below.node).unwrap();
    assert!(matches!(cell.get_type(), PrimitiveType::LUT2));
    assert!(matches!(
        cell.get_parameter(&id("INIT")),
        Some(Param::BitVec(b)) if b == [false, false, false, true]
    ));
}

#[test]
fn registers_come_back_with_an_unknown_state() {
    let mut n = Netlist::new("example");
    let pins: Vec<DrivenNet> = ["d", "c", "ce", "r"].iter().map(|p| n.insert_input(wire(p))).collect();
    let mut reg = reg_cell();
    reg.set_parameter(&id("INIT"), Param::Logic(LogicValue::False));
    let g = n.insert_gate(reg, id("ff"), &pins).unwrap();
    n.expose_with_name(net(g), id("q"));
    let mut mapper = LogicMapper::<LutLang>::build(&n).unwrap();
    assert_eq!(mapper.insert_single_net(net(g)).unwrap().to_string(), "(REG d c ce r)");
    let roots = mapper.mappings().pop().unwrap().rewrite(&mut n).unwrap();
    let cell = n.cell(roots[0].node).unwrap();
    assert!(matches!(cell.get_type(), PrimitiveType::FDRE));
    assert!(matches!(cell.get_parameter(&id("INIT")), Some(Param::Logic(LogicValue::X))));
    assert_eq!(n.len(), 5);
}

fn init_of(n: &Netlist, d: DrivenNet) -> Vec<bool> {
    match n.cell(d.node).unwrap().get_parameter(&id("INIT")) {
        Some(Param::BitVec(bits)) => bits,
        _ => panic!("no truth table"),
    }
}

#[test]
fn truth_tables_go_to_their_own_tables() {
    let (mut n, _l, m) = lut_netlist();
    let mut mapper = LogicMapper::<LutLang>::build(&n).unwrap();
    mapper.insert_single_net(m).unwrap();
    let mapping = mapper.mappings().pop().unwrap();

    // Both programs stand before both tables, the one of the top first
    let mut expr: RecExpr<LutLang> = RecExpr::new();
    let top = expr.add(LutLang::Program(1));
    let below = expr.add(LutLang::Program(8));
    let a = expr.add(LutLang::var("a".to_string()));
    let b = expr.add(LutLang::var("b".to_string()));
    let inner = expr.add(LutLang::Lut(vec![below, a, b]));
    expr.add(LutLang::Lut(vec![top, inner]));
    assert_eq!(expr.to_string(), "(LUT 1 (LUT 8 a b))");

    let roots = mapping.with_expr(expr).rewrite(&mut n).unwrap();
    assert_eq!(init_of(&n, roots[0]), [true, false]);
    let driver = n.drivers(roots[0].node)[0].unwrap();
    assert_eq!(init_of(&n, driver), [false, false, false, true]);
}

#[test]
fn unchanged_logic_reads_the_same() {
    let (mut n, _l, m) = lut_netlist();
    let mut mapper = LogicMapper::<LutLang>::build(&n).unwrap();
    let first = mapper.insert_single_net(m).unwrap();
    let roots = mapper.mappings().pop().unwrap().rewrite(&mut n).unwrap();
    let mut mapper = LogicMapper::<LutLang>::build(&n).unwrap();
    let second = mapper.insert(roots).unwrap();
    assert_eq!(first.to_string(), "(LUT 1 (LUT 8 a b))");
    assert_eq!(second.to_string(), first.to_string());
}

#[test]
fn constants_may_carry_parameters() {
    let with_init = |init: Param| {
        let mut n = Netlist::new("example");
        let mut cell = PrimitiveCell::new(PrimitiveType::VCC, None);
        cell.set_parameter(&id("INIT"), init);
        let one = n.insert_gate(cell, id("one"), &vec![]).unwrap();
        n.insert_gate(not_gate(), id("g"), &vec![net(one)]).unwrap();
        n
    };
    let n = with_init(Param::BitVec(vec![true, false]));
    let mut mapper = LogicMapper::<CellLang>::build(&n).unwrap();
    assert_eq!(mapper.insert_single_net(net(1)).unwrap().to_string(), "(INV true)");
    let n = with_init(Param::Integer(1));
    let mut mapper = LogicMapper::<LutLang>::build(&n).unwrap();
    assert_eq!(mapper.insert_single_net(net(1)).unwrap().to_string(), "(NOT 1'b1)");
}

fn and_with_init() -> PrimitiveCell {
    let mut cell = and_gate();
    cell.set_parameter(&id("INIT"), Param::BitVec(vec![true, false]));
    cell
}

#[test]
fn an_open_first_port_is_an_error_in_spite_of_a_truth_table() {
    let mut n = Netlist::new("example");
    let b = n.insert_input(wire("b"));
    let g = n.insert_gate_disconnected(and_with_init(), id("g"));
    n.connect(b, g, 1);
    let mut mapper = LogicMapper::<CellLang>::build(&n).unwrap();
    let err = mapper.insert_single_net(net(g)).unwrap_err();
    assert_eq!(err, "Failed to get driver for input 0 of net g_Y");
}

#[test]
fn cycles_are_met_before_truth_tables() {
    let mut n = Netlist::new("example");
    let a = n.insert_gate_disconnected(not_gate(), id("i0"));
    let b = n.insert_gate(and_with_init(), id("i1"), &vec![net(a), net(a)]).unwrap();
    n.connect(net(b), a, 0);
    let mut mapper = LogicMapper::<CellLang>::build(&n).unwrap();
    assert_eq!(mapper.insert_single_net(net(b)).unwrap_err(), "Cycle detected in netlist");
}

#[test]
fn leaves_that_need_quotes_get_them() {
    let mut n = Netlist::new("example");
    let a = n.insert_input(wire("\\a+b"));
    let g = n.insert_gate(not_gate(), id("g"), &vec![a]).unwrap();
    let mut mapper = LogicMapper::<CellLang>::build(&n).unwrap();
    let expr = mapper.insert_single_net(net(g)).unwrap();
    assert_eq!(expr.to_string(), "(INV \"\\a+b \")");
}

#[test]
fn truth_tables_need_a_place() {
    let mut n = Netlist::new("example");
    let a = n.insert_input(wire("a"));
    let b = n.insert_input(wire("b"));
    let full = n.insert_gate(and_with_init(), id("g"), &vec![a, b]).unwrap();
    let open = n.insert_gate_disconnected(and_with_init(), id("h"));
    assert!(!is_readable::<CellLang>(&n, net(full)));
    assert!(is_readable::<CellLang>(&n, net(open)));
    n.connect(a, open, 0);
    assert!(is_readable::<CellLang>(&n, net(open)));
    n.connect(b, open, 1);
    assert!(!is_readable::<CellLang>(&n, net(open)));

    // Lookup tables have one, for 1 to 64 bits
    let l = n.insert_gate(lut(PrimitiveType::LUT2, "1000"), id("l"), &vec![a, b]).unwrap();
    let none = n.insert_gate(lut(PrimitiveType::LUT2, ""), id("m"), &vec![a, b]).unwrap();
    assert!(is_readable::<LutLang>(&n, net(l)));
    assert!(!is_readable::<LutLang>(&n, net(none)));

    // Constants have no place for one, but need none for other parameters
    let mut one = PrimitiveCell::new(PrimitiveType::VCC, None);
    one.set_parameter(&id("INIT"), Param::Integer(1));
    let plain = n.insert_gate(one.clone(), id("p"), &vec![]).unwrap();
    one.set_parameter(&id("INIT"), Param::BitVec(vec![true]));
    let table = n.insert_gate(one, id("q"), &vec![]).unwrap();
    assert!(is_readable::<LutLang>(&n, net(plain)));
    assert!(!is_readable::<LutLang>(&n, net(table)));
    assert!(is_readable::<CellLang>(&n, net(table)));
    assert!(is_readable::<CellLang>(&n, a));
}

fn adder() -> BlackBox {
    BlackBox::new(id("FA"), vec![wire("A"), wire("B")], vec![wire("S"), wire("C")])
}

#[test]
fn cells_with_several_outputs_are_refused() {
    let mut n = Netlist::new("example");
    let a = n.insert_input(wire("a"));
    let b = n.insert_input(wire("b"));
    let u = n.insert_black_box(adder(), id("u"), &vec![a, b]).unwrap();
    let g = n.insert_gate(not_gate(), id("g"), &vec![net(u)]).unwrap();
    let h = n.insert_gate_disconnected(and_gate(), id("h"));
    n.connect(net(g), h, 1);
    let mut mapper = LogicMapper::<CellLang>::build(&n).unwrap();
    let text = "Cannot map multi-output cells";
    assert_eq!(mapper.insert_single_net(net(g)).unwrap_err(), text);
    // Also where an input port is not connected
    assert_eq!(mapper.insert(vec![a, net(h)]).unwrap_err(), text);
    assert!(mapper.mappings().is_empty());
}

#[test]
fn cycles_are_met_with_several_outputs_around() {
    let mut n = Netlist::new("example");
    let a = n.insert_gate_disconnected(not_gate(), id("i0"));
    let b = n.insert_gate(not_gate(), id("i1"), &vec![net(a)]).unwrap();
    n.connect(net(b), a, 0);
    let u = n.insert_black_box(adder(), id("u"), &vec![net(a), net(b)]).unwrap();
    let mut mapper = LogicMapper::<CellLang>::build(&n).unwrap();
    assert_eq!(mapper.insert(vec![net(u)]).unwrap_err(), "Cycle detected in netlist");
}

#[test]
fn outputs_of_a_black_box_are_leaves() {
    let mut n = Netlist::new("example");
    let a = n.insert_input(wire("a"));
    let b = n.insert_input(wire("b"));
    let u = n.insert_black_box(adder(), id("u"), &vec![a, b]).unwrap();
    let one = BlackBox::new(id("BUF"), vec![wire("I")], vec![wire("O")]);
    let v = n.insert_black_box(one, id("v"), &vec![a]).unwrap();
    let g = n.insert_gate(and_gate(), id("g"), &vec![net(v), b]).unwrap();
    let mut mapper = LogicMapper::<CellLang>::build(&n).unwrap();
    // Nothing but the nets that are mapped may belong to such a cell
    let carry = DrivenNet { node: u, pos: 1 };
    let expr = mapper.insert(vec![net(u), carry, net(g), carry]).unwrap();
    assert_eq!(expr.to_string(), "(BUS u_S u_C (AND v_O b) u_C)");
    assert_eq!(mapper.insert_single_net(carry).unwrap().to_string(), "u_C");
    let mapping = mapper.mappings().pop().unwrap();
    assert_eq!(mapping.get_leaf("u_C"), Some(carry));
}

#[test]
fn an_open_port_may_come_before_a_net_that_cannot_be_read() {
    let mut n = Netlist::new("example");
    let a = n.insert_input(wire("a"));
    let open = n.insert_gate_disconnected(not_gate(), id("o"));
    let bad = n.insert_gate(and_with_init(), id("g"), &vec![a, net(open)]).unwrap();
    let mut mapper = LogicMapper::<CellLang>::build(&n).unwrap();
    assert!(mapper.can_insert(&vec![net(bad)]));
    let err = mapper.insert_single_net(net(bad)).unwrap_err();
    assert_eq!(err, "Failed to get driver for input 0 of net o_Y");
    assert_eq!(mapper.try_insert(vec![net(bad)]).unwrap().unwrap_err(), err);

    n.connect(a, open, 0);
    let mut mapper = LogicMapper::<CellLang>::build(&n).unwrap();
    assert!(!mapper.can_insert(&vec![net(bad)]));
    assert!(mapper.try_insert(vec![net(bad)]).is_none());
    assert!(mapper.mappings().is_empty());
}
