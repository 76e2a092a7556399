use eqmap_netlist::request::{build_limit, BuildLimit, Objective, Options, Request, Solver};

fn plain() -> Options {
    Options {
        to_file: false,
        report: false,
        assert_sat: false,
        unchecked: false,
        no_canonicalize: false,
        decomp: false,
        disassemble: false,
        exact: None,
        no_retime: false,
        verbose: false,
        min_depth: false,
        k: 6,
        reg_weight: 1,
        timeout: None,
        node_limit: None,
        iter_limit: None,
    }
}

#[test]
fn none_one_or_three_limits_are_fine() {
    assert_eq!(build_limit(None, None, None), Ok(BuildLimit::Joint(10, 48_000, 32)));
    assert_eq!(build_limit(Some(5), None, None), Ok(BuildLimit::Time(5)));
    assert_eq!(build_limit(None, Some(7), None), Ok(BuildLimit::Nodes(7)));
    assert_eq!(build_limit(None, None, Some(9)), Ok(BuildLimit::Iterations(9)));
    assert_eq!(build_limit(Some(1), Some(2), Some(3)), Ok(BuildLimit::Joint(1, 2, 3)));
    let text = "Invalid build constraints (Use none, one, or three build constraints)";
    assert_eq!(build_limit(Some(1), Some(2), None), Err(text.to_string()));
    assert_eq!(build_limit(Some(1), None, Some(3)), Err(text.to_string()));
    assert_eq!(build_limit(None, Some(2), Some(3)), Err(text.to_string()));
}

#[test]
fn plain_options_make_a_plain_request() {
    let r = Request::new(&plain()).unwrap();
    assert_eq!(
        r,
        Request {
            both_ways: false,
            decompose: false,
            retime: true,
            limit: BuildLimit::Joint(10, 48_000, 32),
            asserts: false,
            verify: true,
            canonicalize: true,
            explain: false,
            report: false,
            objective: Objective::Area(6, 1),
            exact: None,
        }
    );
}

#[test]
fn options_change_the_request() {
    let r = Request::new(&Options { min_depth: true, disassemble: true, ..plain() }).unwrap();
    assert_eq!(r.objective, Objective::Depth);
    assert!(r.both_ways && r.decompose && !r.canonicalize);
    let r = Request::new(&Options { decomp: true, no_retime: true, ..plain() }).unwrap();
    assert!(!r.both_ways && r.decompose && r.canonicalize && !r.retime);
    let r = Request::new(&Options {
        assert_sat: true,
        verbose: true,
        report: true,
        no_canonicalize: true,
        ..plain()
    })
    .unwrap();
    assert!(r.asserts && r.explain && r.report && r.verify && !r.canonicalize);
    assert!(!Request::new(&Options { unchecked: true, ..plain() }).unwrap().verify);
}

#[test]
fn solvers_need_a_file() {
    let exact = Options { exact: Some(Solver::Cbc), ..plain() };
    let text = "Stdout is clutterd by ILP solver. Specify an output file";
    assert_eq!(Request::new(&exact), Err(text.to_string()));
    let r = Request::new(&Options { to_file: true, ..exact }).unwrap();
    assert_eq!(r.exact, Some((Solver::Cbc, 600)));
    let r = Request::new(&Options { to_file: true, timeout: Some(3), ..exact }).unwrap();
    assert_eq!(r.exact, Some((Solver::Cbc, 3)));
    assert!(Request::new(&Options { node_limit: Some(1), iter_limit: Some(1), ..exact }).is_err());
}
