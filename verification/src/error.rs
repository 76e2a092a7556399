//! What can go wrong with a netlist.

use crate::ident::{describe, Ident, IdentView};
use crate::level::{describe_wire, wire_views, Wire, WireView};
use vstd::prelude::*;

verus! {

/// An error of the `safety_net` crate, carried along unread.
#[verifier::external_type_specification]
#[verifier::external_body]
pub struct ExError(safety_net::Error);

/// Why a netlist could not be read or changed.
#[derive(Debug)]
pub enum NetlistError {
    /// Nets along a cycle.
    CycleDetected(Vec<Wire>),
    /// Something could not be understood.
    ParseError(String),
    /// Nets that share a name.
    NonuniqueNets(Vec<Wire>),
    /// Instances that share a name.
    NonuniqueInsts(Vec<Ident>),
    /// The netlist has no outputs.
    NoOutputs,
    /// A cell cannot do what was asked of it.
    InstantiableError(String),
    /// Nets that are still referred to.
    DanglingReference(Vec<Wire>),
    /// The number of arguments that was expected, and the one given.
    ArgumentMismatch(usize, usize),
    /// An input that needs another name to be an output.
    InputNeedsAlias(Wire),
    /// A net that is not in the netlist.
    NetNotFound(Wire),
}

/// What an error stands for.
pub enum ErrorView {
    CycleDetected(Seq<WireView>),
    ParseError(Seq<char>),
    NonuniqueNets(Set<WireView>),
    NonuniqueInsts(Set<IdentView>),
    NoOutputs,
    InstantiableError(Seq<char>),
    DanglingReference(Seq<WireView>),
    ArgumentMismatch(usize, usize),
    InputNeedsAlias(WireView),
    NetNotFound(WireView),
}

impl View for NetlistError {
    type V = ErrorView;

    open spec fn view(&self) -> ErrorView {
        match self {
            NetlistError::CycleDetected(nets) => ErrorView::CycleDetected(wire_views(nets@)),
            NetlistError::ParseError(text) => ErrorView::ParseError(text@),
            NetlistError::NonuniqueNets(nets) => ErrorView::NonuniqueNets(
                wire_views(nets@).to_set(),
            ),
            NetlistError::NonuniqueInsts(ids) => ErrorView::NonuniqueInsts(
                ids@.map_values(|id: Ident| id@).to_set(),
            ),
            NetlistError::NoOutputs => ErrorView::NoOutputs,
            NetlistError::InstantiableError(text) => ErrorView::InstantiableError(text@),
            NetlistError::DanglingReference(nets) => ErrorView::DanglingReference(
                wire_views(nets@),
            ),
            NetlistError::ArgumentMismatch(want, got) => ErrorView::ArgumentMismatch(*want, *got),
            NetlistError::InputNeedsAlias(net) => ErrorView::InputNeedsAlias(net@),
            NetlistError::NetNotFound(net) => ErrorView::NetNotFound(net@),
        }
    }
}

/// The nets of `raw`, in order.
fn describe_nets(raw: Vec<safety_net::Net>) -> (r: Vec<Wire>)
    ensures
        r@.len() == raw@.len(),
{
    let mut r: Vec<Wire> = Vec::new();
    for i in 0..raw.len()
        invariant
            r@.len() == i,
    {
        r.push(describe_wire(&raw[i]));
    }
    r
}

/// The error of a `safety_net::Error`, variant by variant. Nothing can be
/// stated of the result: an outside error is opaque.
#[verifier::external_body]
pub(crate) fn describe_error(raw: safety_net::Error) -> NetlistError {
    match raw {
        safety_net::Error::CycleDetected(nets) => NetlistError::CycleDetected(describe_nets(nets)),
        safety_net::Error::ParseError(e) => NetlistError::ParseError(e),
        safety_net::Error::NonuniqueNets(nets) => NetlistError::NonuniqueNets(describe_nets(nets)),
        safety_net::Error::NonuniqueInsts(ids) => NetlistError::NonuniqueInsts(ids.into_iter().map(|id| describe(id)).collect()),
        safety_net::Error::NoOutputs => NetlistError::NoOutputs,
        safety_net::Error::InstantiableError(e) => NetlistError::InstantiableError(e),
        safety_net::Error::DanglingReference(nets) => NetlistError::DanglingReference(describe_nets(nets)),
        safety_net::Error::ArgumentMismatch(want, got) => NetlistError::ArgumentMismatch(want, got),
        safety_net::Error::InputNeedsAlias(net) => NetlistError::InputNeedsAlias(describe_wire(&net)),
        safety_net::Error::NetNotFound(net) => NetlistError::NetNotFound(describe_wire(&net)),
    }
}

} // verus!
