use eqmap_netlist::cell::PrimitiveCell;
use eqmap_netlist::ident::Ident;
use eqmap_netlist::lang::CellLang;
use eqmap_netlist::level::Wire;
use eqmap_netlist::mapper::LogicMapper;
use eqmap_netlist::netlist::{DrivenNet, Netlist};
use eqmap_netlist::order::{scan, sort, OrderError, Scan};
use eqmap_netlist::primitive::PrimitiveType;
use eqmap_netlist::reading::read_order;

fn net(node: usize) -> DrivenNet {
    DrivenNet { node, pos: 0 }
}

/// Inputs 0 and 1, gate 2 over them, inverter 3 over 2, gate 4 over 3 and 2.
fn ladder() -> Netlist {
    let mut n = Netlist::new("example");
    let a = n.insert_input(Wire::new_logic(Ident::new("a")));
    let b = n.insert_input(Wire::new_logic(Ident::new("b")));
    let and = || PrimitiveCell::new(PrimitiveType::AND, None);
    let not = PrimitiveCell::new(PrimitiveType::NOT, None);
    n.insert_gate(and(), Ident::new("g"), &vec![a, b]).unwrap();
    n.insert_gate(not, Ident::new("h"), &vec![net(2)]).unwrap();
    n.insert_gate(and(), Ident::new("k"), &vec![net(3), net(2)]).unwrap();
    n
}

#[test]
fn nets_come_after_their_drivers() {
    let n = ladder();
    let order = sort(&n, &vec![net(4), net(0)]).unwrap();
    assert_eq!(order.len(), 5);
    for (i, d) in order.iter().enumerate() {
        for driver in n.drivers(d.node).into_iter().flatten() {
            assert!(order[..i].contains(&driver));
        }
    }
    assert_eq!(sort(&n, &vec![net(4)]).unwrap().last(), Some(&net(4)));
    assert_eq!(sort(&n, &vec![net(4)]), sort(&n, &vec![net(4)]));
    assert_eq!(sort(&n, &vec![]).unwrap(), vec![]);
}

#[test]
fn only_what_is_behind_the_roots_is_ordered() {
    let n = ladder();
    let order = sort(&n, &vec![net(2)]).unwrap();
    assert_eq!(order.len(), 3);
    assert!(!order.contains(&net(3)) && !order.contains(&net(4)));
}

#[test]
fn cycles_cannot_be_ordered() {
    let mut n = ladder();
    n.connect(net(4), 2, 0);
    assert_eq!(sort(&n, &vec![net(3)]), Err(OrderError::Cycle));
    assert_eq!(sort(&n, &vec![net(1)]), Ok(vec![net(1)]));
}

#[test]
fn scans_stop_at_the_first_finding() {
    let n = ladder();
    let none = vec![false; 5];
    let all = vec![true; 5];
    let some = vec![true, true, false, true, false];
    let visits = vec![(4, false), (3, false), (2, false), (1, true)];
    assert_eq!(scan(&n, &visits, &none), Scan::Wait(3));
    assert_eq!(scan(&n, &visits, &some), Scan::Wait(2));
    assert_eq!(scan(&n, &visits, &all), Scan::Cycle);
    assert_eq!(scan(&n, &vec![(4, true)], &none), Scan::Ready);
}

#[test]
fn the_order_gives_the_places_of_nodes() {
    let n = ladder();
    let order = vec![net(1), net(0), net(2)];
    let m = read_order::<CellLang>(&n, vec![net(2)], &order).unwrap();
    assert_eq!(m.get_leaf_by_id(&0), Some(net(1)));
    assert_eq!(m.get_leaf_by_id(&1), Some(net(0)));
    assert_eq!(m.root_ids(), vec![2]);
    assert_eq!(m.get_expr().to_string(), "(AND a b)");
}

#[test]
fn mapping_twice_gives_the_same() {
    let n = ladder();
    let mut mapper = LogicMapper::<CellLang>::build(&n).unwrap();
    let a = mapper.insert_single_net(net(4)).unwrap();
    let b = mapper.insert_single_net(net(4)).unwrap();
    assert_eq!(a.to_string(), "(AND (INV (AND a b)) (AND a b))");
    assert_eq!(a.to_string(), b.to_string());
    assert_eq!(mapper.mappings().len(), 2);
}

#[test]
fn names_tell_lookup_tables_and_registers() {
    for t in [PrimitiveType::AND, PrimitiveType::FDRE, PrimitiveType::LUT3, PrimitiveType::INV] {
        let name = PrimitiveCell::new(t, Some(2)).get_name().to_text();
        assert_eq!(name.contains("LUT"), t.is_lut());
        assert_eq!(name.contains("FDRE"), t.is_reg());
    }
    let lut = PrimitiveCell::new(PrimitiveType::LUT3, None).get_name().to_text();
    assert_eq!(lut.as_bytes()[3], b'3');
}
