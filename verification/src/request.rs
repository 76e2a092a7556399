//! What is asked of the rewriting engine, from the options of a run.

use vstd::prelude::*;

verus! {

/// When building the graph of equivalent expressions ends.
#[derive(Debug, Clone, Copy, PartialEq, Eq, Structural)]
pub enum BuildLimit {
    /// After so many seconds.
    Time(u64),
    /// At so many nodes.
    Nodes(usize),
    /// After so many iterations.
    Iterations(usize),
    /// At the first of these three.
    Joint(u64, usize, usize),
}

/// What the extracted expression is best in.
#[derive(Debug, Clone, Copy, PartialEq, Eq, Structural)]
pub enum Objective {
    /// The depth of the circuit.
    Depth,
    /// The number of lookup tables with at most so many inputs, where a
    /// register counts as so many of them.
    Area(usize, u64),
}

/// A solver for exact extraction.
#[derive(Debug, Clone, Copy, PartialEq, Eq, Structural)]
pub enum Solver {
    Cbc,
    Highs,
}

/// The options of a run.
#[derive(Debug, Clone, Copy)]
pub struct Options {
    /// Whether the result goes to a file.
    pub to_file: bool,
    /// Whether a report is written.
    pub report: bool,
    /// Whether it is an error if the graph is not saturated.
    pub assert_sat: bool,
    /// Whether the result is taken without a proof that it is equivalent.
    pub unchecked: bool,
    /// Whether the input is left as it is, not made canonical.
    pub no_canonicalize: bool,
    /// Whether new decompositions are looked for at run time.
    pub decomp: bool,
    /// Whether the result is decomposed into given types of cells.
    pub disassemble: bool,
    /// The solver for exact extraction, if any.
    pub exact: Option<Solver>,
    /// Whether registers stay where they are.
    pub no_retime: bool,
    /// Whether the result is explained.
    pub verbose: bool,
    /// Whether the depth is what counts.
    pub min_depth: bool,
    /// How many inputs lookup tables may have.
    pub k: usize,
    /// How many lookup tables a register counts as.
    pub reg_weight: u64,
    /// The limit in seconds.
    pub timeout: Option<u64>,
    /// The limit in nodes.
    pub node_limit: Option<usize>,
    /// The limit in iterations.
    pub iter_limit: Option<usize>,
}

/// What is asked of the rewriting engine.
#[derive(Debug, Clone, Copy, PartialEq, Eq)]
pub struct Request {
    /// Whether the rules also lead back from lookup tables to gates.
    pub both_ways: bool,
    /// Whether the rules include decompositions found at run time.
    pub decompose: bool,
    /// Whether the rules include those that move registers.
    pub retime: bool,
    pub limit: BuildLimit,
    /// Whether it is an error if the graph is not saturated.
    pub asserts: bool,
    /// Whether the result has to be proved equivalent.
    pub verify: bool,
    /// Whether the input is made canonical first.
    pub canonicalize: bool,
    /// Whether a proof is kept.
    pub explain: bool,
    /// Whether a report is made.
    pub report: bool,
    pub objective: Objective,
    /// The solver for exact extraction, and its limit in seconds.
    pub exact: Option<(Solver, u64)>,
}

/// The limit that options give: none is a default, and one or all three are
/// what they say.
pub open spec fn limit_of(
    timeout: Option<u64>,
    node_limit: Option<usize>,
    iter_limit: Option<usize>,
) -> Option<BuildLimit> {
    match (timeout, node_limit, iter_limit) {
        (None, None, None) => Some(BuildLimit::Joint(10, 48_000, 32)),
        (Some(t), None, None) => Some(BuildLimit::Time(t)),
        (None, Some(n), None) => Some(BuildLimit::Nodes(n)),
        (None, None, Some(i)) => Some(BuildLimit::Iterations(i)),
        (Some(t), Some(n), Some(i)) => Some(BuildLimit::Joint(t, n, i)),
        _ => None,
    }
}

/// What is said of two limits.
pub open spec fn two_limits_text() -> Seq<char> {
    "Invalid build constraints (Use none, one, or three build constraints)"@
}

/// What is said of a solver that writes where the result would go.
pub open spec fn no_file_text() -> Seq<char> {
    "Stdout is clutterd by ILP solver. Specify an output file"@
}

/// The request that options make, given the limit.
pub open spec fn request_of(options: Options, limit: BuildLimit) -> Request {
    Request {
        both_ways: options.disassemble,
        decompose: options.decomp || options.disassemble,
        retime: !options.no_retime,
        limit,
        asserts: options.assert_sat,
        verify: !options.unchecked,
        canonicalize: !options.no_canonicalize && !options.disassemble,
        explain: options.verbose,
        report: options.report,
        objective: if options.min_depth {
            Objective::Depth
        } else {
            Objective::Area(options.k, options.reg_weight)
        },
        exact: match options.exact {
            Some(solver) => Some(
                (
                    solver,
                    match options.timeout {
                        Some(t) => t,
                        None => 600,
                    },
                ),
            ),
            None => None,
        },
    }
}

/// How many limits are given.
pub open spec fn limits_given(
    timeout: Option<u64>,
    node_limit: Option<usize>,
    iter_limit: Option<usize>,
) -> int {
    (if timeout is Some { 1int } else { 0int }) + (if node_limit is Some { 1int } else { 0int }) + (
    if iter_limit is Some { 1int } else { 0int })
}

/// Exactly two limits are an error. A single limit is the only one that
/// counts. Otherwise all three count, and what is not given has its default:
/// ten seconds, 48,000 nodes and 32 iterations.
pub proof fn law_limits_are_those_given(
    timeout: Option<u64>,
    node_limit: Option<usize>,
    iter_limit: Option<usize>,
)
    ensures
        limit_of(timeout, node_limit, iter_limit) is None <==> limits_given(
            timeout,
            node_limit,
            iter_limit,
        ) == 2,
        limit_of(timeout, node_limit, iter_limit) matches Some(BuildLimit::Time(t)) ==> timeout
            == Some(t) && limits_given(timeout, node_limit, iter_limit) == 1,
        limit_of(timeout, node_limit, iter_limit) matches Some(BuildLimit::Nodes(n)) ==> node_limit
            == Some(n) && limits_given(timeout, node_limit, iter_limit) == 1,
        limit_of(timeout, node_limit, iter_limit) matches Some(BuildLimit::Iterations(i))
            ==> iter_limit == Some(i) && limits_given(timeout, node_limit, iter_limit) == 1,
        limit_of(timeout, node_limit, iter_limit) matches Some(BuildLimit::Joint(t, n, i)) ==> {
            &&& limits_given(timeout, node_limit, iter_limit) == 0 ==> t == 10 && n == 48_000 && i
                == 32
            &&& limits_given(timeout, node_limit, iter_limit) != 0 ==> timeout == Some(t)
                && node_limit == Some(n) && iter_limit == Some(i)
        },
{
}

/// Options that make the same request agree in what the request is for. In
/// particular, two runs for the smallest area with different numbers of inputs
/// of lookup tables, or different weights of registers, ask for different
/// things.
pub proof fn law_requests_tell_options_apart(a: Options, b: Options, l: BuildLimit, m: BuildLimit)
    requires
        request_of(a, l) == request_of(b, m),
    ensures
        l == m,
        a.min_depth == b.min_depth,
        !a.min_depth ==> a.k == b.k && a.reg_weight == b.reg_weight,
        a.disassemble == b.disassemble,
        !a.disassemble ==> a.decomp == b.decomp && a.no_canonicalize == b.no_canonicalize,
        a.no_retime == b.no_retime,
        a.assert_sat == b.assert_sat,
        a.unchecked == b.unchecked,
        a.verbose == b.verbose,
        a.report == b.report,
        a.exact == b.exact,
        a.exact is Some ==> a.timeout.unwrap_or(600) == b.timeout.unwrap_or(600),
{
    let x = request_of(a, l);
    let y = request_of(b, m);
    assert(x.limit == y.limit && x.objective == y.objective && x.exact == y.exact);
}

/// Options for the smallest area ask for it with the number of inputs and the
/// weight of a register that they give, and options for the smallest depth do
/// not depend on either.
pub proof fn law_objectives_are_what_options_say(options: Options, limit: BuildLimit)
    ensures
        !options.min_depth ==> (request_of(options, limit).objective matches Objective::Area(a, b)
            && a == options.k && b == options.reg_weight),
        options.min_depth <==> request_of(options, limit).objective == Objective::Depth,
{
}

/// The limit that options give.
pub fn build_limit(
    timeout: Option<u64>,
    node_limit: Option<usize>,
    iter_limit: Option<usize>,
) -> (r: Result<BuildLimit, String>)
    ensures
        match (limit_of(timeout, node_limit, iter_limit), r) {
            (Some(limit), Ok(l)) => l == limit,
            (None, Err(e)) => e@ == two_limits_text(),
            _ => false,
        },
        r matches Ok(BuildLimit::Time(t)) ==> timeout == Some(t),
        r matches Ok(BuildLimit::Nodes(n)) ==> node_limit == Some(n),
        r matches Ok(BuildLimit::Iterations(i)) ==> iter_limit == Some(i),
        r matches Ok(BuildLimit::Joint(t, n, i)) ==> timeout.unwrap_or(10) == t
            && node_limit.unwrap_or(48_000) == n && iter_limit.unwrap_or(32) == i,
{
    match (timeout, node_limit, iter_limit) {
        (None, None, None) => Ok(BuildLimit::Joint(10, 48_000, 32)),
        (Some(t), None, None) => Ok(BuildLimit::Time(t)),
        (None, Some(n), None) => Ok(BuildLimit::Nodes(n)),
        (None, None, Some(i)) => Ok(BuildLimit::Iterations(i)),
        (Some(t), Some(n), Some(i)) => Ok(BuildLimit::Joint(t, n, i)),
        _ => Err(
            "Invalid build constraints (Use none, one, or three build constraints)".to_owned(),
        ),
    }
}

impl Request {
    /// The request that the options of a run make. Exactly two limits are an
    /// error, and so is a solver without a file for the result.
    pub fn new(options: &Options) -> (r: Result<Request, String>)
        ensures
            match (limit_of(options.timeout, options.node_limit, options.iter_limit), r) {
                (None, Err(e)) => e@ == two_limits_text(),
                (Some(limit), Ok(request)) => (options.exact is None || options.to_file) && request
                    == request_of(*options, limit),
                (Some(_), Err(e)) => options.exact is Some && !options.to_file && e@
                    == no_file_text(),
                _ => false,
            },
            r matches Ok(request) ==> {
                &&& !options.min_depth ==> (request.objective matches Objective::Area(a, b) && a
                    == options.k && b == options.reg_weight)
                &&& options.min_depth <==> request.objective is Depth
                &&& request.both_ways <==> options.disassemble
                &&& request.decompose <==> options.decomp || options.disassemble
                &&& request.retime <==> !options.no_retime
                &&& request.asserts <==> options.assert_sat
                &&& request.verify <==> !options.unchecked
                &&& request.canonicalize <==> !(options.no_canonicalize || options.disassemble)
                &&& request.explain <==> options.verbose
                &&& request.report <==> options.report
                &&& request.exact is Some <==> options.exact is Some
                &&& request.exact matches Some(e) ==> options.exact == Some(e.0)
                &&& request.exact matches Some(e) ==> (options.timeout matches Some(t) ==> e.1 == t)
                &&& request.exact matches Some(e) ==> (options.timeout is None ==> e.1 == 10 * 60)
            },
            r is Ok <==> limits_given(options.timeout, options.node_limit, options.iter_limit) != 2
                && (options.exact is None || options.to_file),
            limits_given(options.timeout, options.node_limit, options.iter_limit) == 2 ==> (
            r matches Err(e) && e@
                == "Invalid build constraints (Use none, one, or three build constraints)"@),
            limits_given(options.timeout, options.node_limit, options.iter_limit) != 2
                && options.exact is Some && !options.to_file ==> (r matches Err(e) && e@
                == "Stdout is clutterd by ILP solver. Specify an output file"@),
    {
        let limit = match build_limit(options.timeout, options.node_limit, options.iter_limit) {
            Ok(limit) => limit,
            Err(e) => {
                return Err(e);
            },
        };
        let exact = match options.exact {
            Some(solver) => {
                let seconds: u64 = match options.timeout {
                    Some(t) => t,
                    None => 600,
                };
                Some((solver, seconds))
            },
            None => None,
        };
        if options.exact.is_some() && !options.to_file {
            return Err("Stdout is clutterd by ILP solver. Specify an output file".to_owned());
        }
        Ok(
            Request {
                both_ways: options.disassemble,
                decompose: options.decomp || options.disassemble,
                retime: !options.no_retime,
                limit,
                asserts: options.assert_sat,
                verify: !options.unchecked,
                canonicalize: !options.no_canonicalize && !options.disassemble,
                explain: options.verbose,
                report: options.report,
                objective: if options.min_depth {
                    Objective::Depth
                } else {
                    Objective::Area(options.k, options.reg_weight)
                },
                exact,
            },
        )
    }
}

} // verus!
