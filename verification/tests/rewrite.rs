use eqmap_netlist::cell::PrimitiveCell;
use eqmap_netlist::error::NetlistError;
use eqmap_netlist::ident::Ident;
use eqmap_netlist::lang::{CellLang, RecExpr};
use eqmap_netlist::level::Wire;
use eqmap_netlist::mapper::LogicMapper;
use eqmap_netlist::mapping::LogicMapping;
use eqmap_netlist::netlist::{DrivenNet, Netlist};
use eqmap_netlist::primitive::PrimitiveType;

fn id(name: &str) -> Ident {
    Ident::new(name)
}

fn net(node: usize) -> DrivenNet {
    DrivenNet { node, pos: 0 }
}

/// Inputs `a` and `b`, and gates `(AND a b)` and `(OR a b)`.
fn two_gates() -> Netlist {
    let mut n = Netlist::new("example");
    let a = n.insert_input(Wire::new_logic(id("a")));
    let b = n.insert_input(Wire::new_logic(id("b")));
    let and = PrimitiveCell::new(PrimitiveType::AND, None);
    let or = PrimitiveCell::new(PrimitiveType::OR, None);
    n.insert_gate(and, id("g"), &vec![a, b]).unwrap();
    n.insert_gate(or, id("h"), &vec![a, b]).unwrap();
    n
}

fn map(n: &Netlist, roots: Vec<DrivenNet>) -> LogicMapping<CellLang> {
    let mut mapper = LogicMapper::<CellLang>::build(n).unwrap();
    mapper.insert(roots).unwrap();
    mapper.mappings().pop().unwrap()
}

fn expr(text: &str) -> RecExpr<CellLang> {
    RecExpr::parse(text).unwrap()
}

#[test]
fn nodes_without_a_cell_are_an_error() {
    let mut n = two_gates();
    n.expose_with_name(net(2), id("y"));
    let m = map(&n, vec![net(2)]).with_expr(expr("(FOO (INV a) b)"));
    match m.rewrite(&mut n) {
        Err(NetlistError::ParseError(e)) => {
            assert_eq!(e, "Cannot reinsert node FOO without associated cell")
        }
        _ => panic!("a node without a cell was inserted"),
    }
    // What was inserted before stays
    assert_eq!(n.len(), 5);
    assert_eq!(n.cell(4).unwrap().get_name().to_text(), "INV_X1");
}

#[test]
fn cells_need_all_operands() {
    let mut n = two_gates();
    n.expose_with_name(net(2), id("y"));
    let m = map(&n, vec![net(2)]).with_expr(expr("(MUX a b)"));
    assert!(matches!(m.rewrite(&mut n), Err(NetlistError::ArgumentMismatch(3, 2))));
}

#[test]
fn netlists_without_outputs_are_not_cleaned() {
    let mut n = two_gates();
    let m = map(&n, vec![net(2)]);
    assert!(matches!(m.rewrite(&mut n), Err(NetlistError::NoOutputs)));
    assert_eq!(n.len(), 5);
}

#[test]
fn unused_roots_dangle() {
    let mut n = two_gates();
    n.expose_with_name(net(3), id("z"));
    let m = map(&n, vec![net(2)]);
    assert!(matches!(m.rewrite(&mut n), Err(NetlistError::DanglingReference(_))));
}

#[test]
fn a_root_twice_dangles() {
    let mut n = two_gates();
    n.expose_with_name(net(2), id("y"));
    let m = map(&n, vec![net(2), net(2)]);
    match m.rewrite(&mut n) {
        Err(NetlistError::DanglingReference(wires)) => {
            assert_eq!(wires.len(), 1);
            assert_eq!(wires[0].id.to_text(), "g_Y__old");
        }
        _ => panic!("a root was replaced twice"),
    }
}

#[test]
fn the_name_of_an_old_root_has_to_be_free() {
    let mut n = two_gates();
    n.expose_with_name(net(2), id("y"));
    n.expose_with_name(net(2), id("g_Y__old"));
    let m = map(&n, vec![net(2)]);
    match m.rewrite(&mut n) {
        Err(NetlistError::NonuniqueNets(wires)) => assert_eq!(wires.len(), 2),
        _ => panic!("a name was used twice"),
    }
}

#[test]
fn several_roots_are_replaced_together() {
    let mut n = two_gates();
    n.expose_with_name(net(2), id("y"));
    n.expose_with_name(net(3), id("z"));
    n.expose_with_name(net(3), id("zz"));
    let m = map(&n, vec![net(2), net(3)]);
    assert_eq!(m.get_expr().to_string(), "(BUS (AND a b) (OR a b))");
    let m = m.with_expr(expr("(BUS (INV (OR a b)) (NOR a b))"));
    let roots = m.rewrite(&mut n).unwrap();
    assert_eq!(roots.len(), 2);
    assert_eq!(n.len(), 5);
    assert_eq!(n.wire(roots[0]).id.to_text(), "g_Y");
    assert_eq!(n.wire(roots[1]).id.to_text(), "h_Y");
    assert_eq!(n.cell(roots[0].node).unwrap().get_name().to_text(), "INV_X1");
    assert_eq!(n.cell(roots[1].node).unwrap().get_name().to_text(), "NOR_X1");
    let mut names: Vec<(usize, String)> =
        n.outputs().into_iter().map(|(d, w)| (d.node, w.id.to_text())).collect();
    names.sort();
    let mut want = vec![
        (roots[0].node, "y".to_string()),
        (roots[1].node, "z".to_string()),
        (roots[1].node, "zz".to_string()),
    ];
    want.sort();
    assert_eq!(names, want);
}

#[test]
fn a_leaf_can_be_the_new_root() {
    let mut n = two_gates();
    n.expose_with_name(net(2), id("y"));
    let m = map(&n, vec![net(2)]).with_expr(expr("a"));
    assert_eq!(m.get_leaf_by_id(&0), Some(net(0)));
    let roots = m.rewrite(&mut n).unwrap();
    assert_eq!(roots, vec![net(0)]);
    assert_eq!(n.len(), 2);
    assert!(n.is_top_level_output(net(0)));
    assert_eq!(n.wire(net(0)).id.to_text(), "g_Y");
}

#[test]
fn uses_inside_the_netlist_follow_the_root() {
    let mut n = two_gates();
    let inv = PrimitiveCell::new(PrimitiveType::NOT, None);
    let k = n.insert_gate(inv, id("k"), &vec![net(2)]).unwrap();
    n.expose_with_name(net(k), id("y"));
    let m = map(&n, vec![net(2)]).with_expr(expr("(AND b a)"));
    let roots = m.rewrite(&mut n).unwrap();
    let k = n.outputs()[0].0;
    assert_eq!(n.instance_name(k.node).unwrap().to_text(), "k");
    assert_eq!(n.drivers(k.node), vec![Some(roots[0])]);
    assert_eq!(n.drivers(roots[0].node), vec![Some(net(1)), Some(net(0))]);
    assert_eq!(n.len(), 4);
}

/// Inputs `a`, `b` and `c`, and gates `(AND a b)` and `(INV c)`, which are
/// outputs.
fn two_cones() -> Netlist {
    let mut n = Netlist::new("example");
    let a = n.insert_input(Wire::new_logic(id("a")));
    let b = n.insert_input(Wire::new_logic(id("b")));
    let g = PrimitiveCell::new(PrimitiveType::AND, None);
    n.insert_gate(g, id("g"), &vec![a, b]).unwrap();
    let c = n.insert_input(Wire::new_logic(id("c")));
    let h = PrimitiveCell::new(PrimitiveType::NOT, None);
    n.insert_gate(h, id("h"), &vec![c]).unwrap();
    n.expose_with_name(net(2), id("y"));
    n.expose_with_name(net(4), id("z"));
    n
}

#[test]
fn mappings_can_be_rewritten_in_turn() {
    let mut n = two_cones();
    let mut mapper = LogicMapper::<CellLang>::build(&n).unwrap();
    mapper.insert(vec![net(2)]).unwrap();
    mapper.insert(vec![net(4)]).unwrap();
    let mut mappings = mapper.mappings();
    let second = mappings.pop().unwrap();
    let first = mappings.pop().unwrap().with_expr(expr("(AND b a)"));

    let from = second.nets();
    let mut held = from.clone();
    let roots = first.rewrite_holding(&mut n, &mut held).unwrap();
    assert_eq!(n.wire(roots[0]).id.to_text(), "g_Y");

    // The second cone has moved, and is found again
    let second = second.moved(&from, &held);
    assert_eq!(second.root_nets(), vec![net(3)]);
    assert_eq!(second.get_leaf("c"), Some(net(2)));
    assert_eq!(n.instance_name(3).unwrap().to_text(), "h");
    assert!(second.is_rewritable(&n));
    let mut held = roots;
    let roots = second.rewrite_holding(&mut n, &mut held).unwrap();
    assert_eq!(n.len(), 5);
    assert_eq!(n.instance_name(roots[0].node).unwrap().to_text(), "reinst_1");
    assert_eq!(n.wire(roots[0]).id.to_text(), "h_Y");
    assert_eq!(n.instance_name(held[0].node).unwrap().to_text(), "reinst_2");
    let mut outputs: Vec<(usize, String)> =
        n.outputs().into_iter().map(|(d, w)| (d.node, w.id.to_text())).collect();
    outputs.sort();
    let mut want = vec![(held[0].node, "y".to_string()), (roots[0].node, "z".to_string())];
    want.sort();
    assert_eq!(outputs, want);
}

#[test]
fn roots_that_are_held_dangle() {
    let mut n = two_cones();
    let m = map(&n, vec![net(2)]);
    let mut held = vec![net(4), net(2)];
    match m.rewrite_holding(&mut n, &mut held) {
        Err(NetlistError::DanglingReference(wires)) => {
            assert_eq!(wires[0].id.to_text(), "g_Y__old")
        }
        _ => panic!("a root that is held was replaced"),
    }
    assert_eq!(held, vec![net(4), net(2)]);
}

#[test]
fn held_logic_that_is_taken_out_dangles() {
    let mut n = two_gates();
    let inv = PrimitiveCell::new(PrimitiveType::NOT, None);
    let k = n.insert_gate(inv, id("k"), &vec![net(2)]).unwrap();
    n.expose_with_name(net(k), id("y"));
    let m = map(&n, vec![net(k)]).with_expr(expr("(INV a)"));
    let mut held = vec![net(2)];
    let r = m.rewrite_holding(&mut n, &mut held);
    assert!(matches!(r, Err(NetlistError::DanglingReference(_))));
    assert_eq!(n.instance_name(held[0].node).unwrap().to_text(), "g");
}

#[test]
fn copies_of_mappings_are_the_same() {
    let n = two_cones();
    let m = map(&n, vec![net(2), net(4)]);
    let copy = m.clone();
    assert_eq!(copy.get_expr().to_string(), m.get_expr().to_string());
    assert_eq!(copy.root_nets(), m.root_nets());
    assert_eq!(copy.get_leaf("c"), Some(net(3)));
    assert_eq!(copy.get_leaf("d"), None);
    for i in 0..6 {
        assert_eq!(copy.get_leaf_by_id(&i), m.get_leaf_by_id(&i));
    }
    let mut nets = copy.nets();
    nets.sort_by_key(|d| d.node);
    nets.dedup();
    assert_eq!(nets, vec![net(0), net(1), net(2), net(3), net(4)]);
}

#[test]
fn some_expressions_cannot_be_rewritten() {
    let n = two_cones();
    let m = map(&n, vec![net(2)]);
    assert!(m.is_rewritable(&n));
    assert!(!m.is_rewritable(&Netlist::new("empty")));
    // A node without a cell is an error, not something that cannot be tried
    assert!(m.clone().with_expr(expr("(FOO a b)")).is_rewritable(&n));
    // Nodes that gather roots have no net
    let mut nested: RecExpr<CellLang> = RecExpr::new();
    let a = nested.add(CellLang::Var("a".to_string()));
    let bus = nested.add(CellLang::Bus(vec![a]));
    nested.add(CellLang::Inv([bus]));
    assert!(!m.with_expr(nested).is_rewritable(&n));
}
