use eqmap_netlist::cell::PrimitiveCell;
use eqmap_netlist::error::NetlistError;
use eqmap_netlist::ident::Ident;
use eqmap_netlist::level::{LogicValue, Wire};
use eqmap_netlist::netlist::{DrivenNet, Netlist};
use eqmap_netlist::part::BlackBox;
use eqmap_netlist::primitive::PrimitiveType;

fn wire(name: &str) -> Wire {
    Wire::new_logic(Ident::new(name))
}

fn and_gate() -> PrimitiveCell {
    PrimitiveCell::new(PrimitiveType::AND, None)
}

fn two_ands() -> (Netlist, DrivenNet, DrivenNet, DrivenNet, DrivenNet) {
    let mut n = Netlist::new("example");
    let a = n.insert_input(wire("a"));
    let b = n.insert_input(wire("b"));
    let g = n.insert_gate(and_gate(), Ident::new("g"), &vec![a, b]).unwrap();
    let h = n.insert_gate(and_gate(), Ident::new("h"), &vec![b, a]).unwrap();
    (n, a, b, DrivenNet { node: g, pos: 0 }, DrivenNet { node: h, pos: 0 })
}

#[test]
fn objects_are_numbered_in_order() {
    let (n, a, b, g, h) = two_ands();
    assert_eq!(n.get_name(), "example");
    assert_eq!(n.len(), 4);
    assert_eq!((a.node, b.node, g.node, h.node), (0, 1, 2, 3));
    assert_eq!((n.first(), n.last()), (Some(0), Some(3)));
    assert!(n.is_an_input(a));
    assert!(!n.is_an_input(g));
    assert!(!n.is_multi_output(2));
    assert_eq!(n.drivers(2), vec![Some(a), Some(b)]);
    assert_eq!(n.drivers(3), vec![Some(b), Some(a)]);
    assert!(n.drivers(0).is_empty());
    assert_eq!(n.wire(g).id.to_text(), "g_Y");
    assert_eq!(n.wires(0)[0].id.to_text(), "a");
    assert_eq!(n.instance_name(2).unwrap().to_text(), "g");
    assert!(n.instance_name(0).is_none());
    assert_eq!(n.cell(3).unwrap().get_name().to_text(), "AND");
    assert!(n.cell(1).is_none());
}

#[test]
fn replaced_uses_move_to_the_new_net() {
    let (mut n, _a, _b, g, h) = two_ands();
    n.expose_with_name(g, Ident::new("y"));
    let k = n.insert_gate(and_gate(), Ident::new("k"), &vec![g, g]).unwrap();
    assert!(n.replace_net_uses(g, &vec![h], 0).is_ok());
    assert_eq!(n.drivers(k), vec![Some(h), Some(h)]);
    assert!(n.is_top_level_output(h));
    assert!(!n.is_top_level_output(g));
    assert_eq!(n.outputs().len(), 1);
    assert_eq!(n.outputs()[0].1.id.to_text(), "y");
    let r = n.replace_net_uses(g, &vec![h, g], 0);
    assert!(matches!(r, Err(NetlistError::DanglingReference(_))));
    assert!(n.replace_net_uses(g, &vec![g], 0).is_ok());
    n.expose_with_name(g, Ident::new("g_Y"));
    let r = n.replace_net_uses(g, &vec![h], 0);
    assert!(matches!(r, Err(NetlistError::NonuniqueNets(nets)) if nets.len() == 1));
}

#[test]
fn cleaning_takes_out_what_nothing_uses() {
    let (mut n, _a, _b, g, h) = two_ands();
    assert!(matches!(n.clean(&mut vec![]), Err(NetlistError::NoOutputs)));
    n.expose_with_name(h, Ident::new("y"));
    assert!(matches!(n.clean(&mut vec![g]), Err(NetlistError::DanglingReference(_))));
    assert_eq!(n.len(), 4);
    let mut held = vec![h];
    n.clean(&mut held).unwrap();
    assert_eq!(n.len(), 3);
    assert_eq!(held, vec![DrivenNet { node: 2, pos: 0 }]);
    assert_eq!(n.instance_name(2).unwrap().to_text(), "h");
    assert!(n.is_top_level_output(held[0]));
    let x = n.insert_input(wire("a"));
    assert!(matches!(n.clean(&mut vec![]), Err(NetlistError::NonuniqueNets(nets)) if nets.len() == 1));
    n.set_wire(x, wire("c"));
    n.insert_gate_disconnected(and_gate(), Ident::new("h"));
    n.set_wire(DrivenNet { node: 4, pos: 0 }, wire("d"));
    assert!(matches!(n.clean(&mut vec![]), Err(NetlistError::NonuniqueInsts(ids)) if ids.len() == 1));
}

#[test]
fn constants_need_a_cell() {
    let mut n = Netlist::new("example");
    let t = n.insert_constant(LogicValue::True, Ident::new("t")).unwrap();
    assert_eq!(t, DrivenNet { node: 0, pos: 0 });
    assert_eq!(n.wire(t).id.to_text(), "t_P");
    match n.insert_constant(LogicValue::X, Ident::new("x")) {
        Err(NetlistError::InstantiableError(e)) => {
            assert_eq!(e, "Instantiable type does not support constant value 1'bx")
        }
        _ => panic!("a constant without a cell was accepted"),
    }
    assert_eq!(n.len(), 1);
}

#[test]
fn gates_need_all_operands() {
    let (mut n, a, _b, _g, _h) = two_ands();
    let r = n.insert_gate(and_gate(), Ident::new("k"), &vec![a]);
    assert!(matches!(r, Err(NetlistError::ArgumentMismatch(2, 1))));
    assert_eq!(n.len(), 4);
}

#[test]
fn walks_visit_operands_and_meet_cycles() {
    let (mut n, _a, _b, g, h) = two_ands();
    assert_eq!(n.dfs(2), vec![(2, false), (1, false), (0, false)]);
    assert_eq!(n.dfs(0), vec![(0, false)]);
    n.connect(h, g.node, 0);
    n.connect(g, h.node, 1);
    assert_eq!(n.dfs(2), vec![(2, false), (1, false), (3, true)]);
}

#[test]
fn what_is_held_is_found_again_when_cleaning_fails() {
    let (mut n, a, b, g, h) = two_ands();
    let k = n.insert_gate(and_gate(), Ident::new("k"), &vec![g, g]).unwrap();
    let l = n.insert_gate(and_gate(), Ident::new("l"), &vec![h, h]).unwrap();
    let last = n.insert_gate(and_gate(), Ident::new("m"), &vec![a, b]).unwrap();
    n.expose_with_name(DrivenNet { node: last, pos: 0 }, Ident::new("y"));
    // Both `k` and `l` go first, and then `g` would, which is held
    let mut held = vec![g, DrivenNet { node: last, pos: 0 }];
    assert!(matches!(n.clean(&mut held), Err(NetlistError::DanglingReference(_))));
    assert_eq!((k, l, n.len()), (4, 5, 5));
    assert_eq!(held, vec![g, DrivenNet { node: 4, pos: 0 }]);
    assert_eq!(n.instance_name(held[0].node).unwrap().to_text(), "g");
    assert_eq!(n.instance_name(held[1].node).unwrap().to_text(), "m");
}

#[test]
fn objects_that_use_each_other_stay() {
    let (mut n, _a, _b, g, h) = two_ands();
    let last = n.insert_gate(and_gate(), Ident::new("k"), &vec![g, g]).unwrap();
    n.connect(h, g.node, 0);
    n.connect(g, h.node, 1);
    n.expose_with_name(DrivenNet { node: 0, pos: 0 }, Ident::new("y"));
    let mut held = vec![g, h];
    n.clean(&mut held).unwrap();
    assert_eq!(last, 4);
    assert_eq!(n.len(), 4);
    assert_eq!(held, vec![g, h]);
}

#[test]
fn what_is_behind_an_output_stays() {
    let (mut n, _a, _b, g, h) = two_ands();
    let inner = n.insert_gate(and_gate(), Ident::new("k"), &vec![h, h]).unwrap();
    n.expose_with_name(DrivenNet { node: inner, pos: 0 }, Ident::new("y"));
    let mut held = vec![h];
    n.clean(&mut held).unwrap();
    assert_eq!(n.len(), 4);
    assert_eq!(held, vec![g]);
    assert_eq!(n.instance_name(held[0].node).unwrap().to_text(), "h");
}

#[test]
fn black_boxes_have_the_ports_they_are_given() {
    let (mut n, a, b, _g, _h) = two_ands();
    let cell = BlackBox::new(Ident::new("FA"), vec![wire("A"), wire("B")], vec![wire("S"), wire("C")]);
    assert_eq!(cell.get_name().to_text(), "FA");
    let r = n.insert_black_box(cell.clone(), Ident::new("u"), &vec![a]);
    assert!(matches!(r, Err(NetlistError::ArgumentMismatch(2, 1))));
    let u = n.insert_black_box(cell, Ident::new("u"), &vec![a, b]).unwrap();
    assert!(n.is_multi_output(u));
    assert!(n.cell(u).is_none());
    assert!(n.black_box(0).is_none() && n.black_box(2).is_none());
    let found = n.black_box(u).unwrap();
    assert_eq!(found.get_input_ports().len(), 2);
    assert_eq!(found.get_output_ports()[1].id.to_text(), "C");
    assert_eq!(n.wire(DrivenNet { node: u, pos: 1 }).id.to_text(), "u_C");
    assert_eq!(n.drivers(u), vec![Some(a), Some(b)]);
    let k = n.insert_gate(
        and_gate(),
        Ident::new("k"),
        &vec![DrivenNet { node: u, pos: 1 }, DrivenNet { node: u, pos: 0 }],
    );
    let k = k.unwrap();
    assert_eq!(n.drivers(k)[0], Some(DrivenNet { node: u, pos: 1 }));
    n.expose_with_name(DrivenNet { node: u, pos: 1 }, Ident::new("c"));
    assert!(n.is_top_level_output(DrivenNet { node: u, pos: 1 }));
    assert!(!n.is_top_level_output(DrivenNet { node: u, pos: 0 }));
    // Two nets of one object can take each other's place, and nothing else
    // may hold on to the object
    let (s, c) = (DrivenNet { node: u, pos: 0 }, DrivenNet { node: u, pos: 1 });
    assert!(matches!(
        n.replace_net_uses(c, &vec![s, s], 0),
        Err(NetlistError::DanglingReference(_))
    ));
    n.replace_net_uses(c, &vec![s], 0).unwrap();
    assert_eq!(n.drivers(k), vec![Some(s), Some(s)]);
    let mut held = vec![s, c];
    n.clean(&mut held).unwrap();
    assert_eq!(held, vec![DrivenNet { node: 2, pos: 0 }, DrivenNet { node: 2, pos: 1 }]);
    assert!(n.has(held[1]) && !n.has(DrivenNet { node: 2, pos: 2 }) && !n.has(s));
}
