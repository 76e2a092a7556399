//! Four-state logic values, the data types of nets, and nets themselves.

use crate::ident::{describe, Ident, IdentView};
use vstd::prelude::*;

verus! {

/// A logic value of the `safety_net` crate, carried along unread.
#[verifier::external_type_specification]
#[verifier::external_body]
pub struct ExLogic(safety_net::Logic);

/// A net of the `safety_net` crate, carried along unread.
#[verifier::external_type_specification]
#[verifier::external_body]
pub struct ExNet(safety_net::Net);

/// A four-state logic value.
#[derive(Debug, Clone, Copy, PartialEq, Eq, Structural)]
pub enum LogicValue {
    /// Logical zero.
    False,
    /// Logical one.
    True,
    /// Don't care.
    X,
    /// High impedance.
    Z,
}

/// The logic value of a boolean.
pub open spec fn level_of(b: bool) -> LogicValue {
    if b {
        LogicValue::True
    } else {
        LogicValue::False
    }
}

/// A logic value as a Verilog literal.
pub open spec fn level_text(v: LogicValue) -> Seq<char> {
    match v {
        LogicValue::False => "1'b0"@,
        LogicValue::True => "1'b1"@,
        LogicValue::X => "1'bx"@,
        LogicValue::Z => "1'bz"@,
    }
}

impl LogicValue {
    /// The logic value of a boolean.
    pub fn from_bool(b: bool) -> (r: LogicValue)
        ensures
            r == level_of(b),
    {
        if b {
            LogicValue::True
        } else {
            LogicValue::False
        }
    }

    /// The value as a Verilog literal.
    pub fn to_text(&self) -> (r: String)
        ensures
            r@ == level_text(*self),
    {
        match self {
            LogicValue::False => "1'b0".to_owned(),
            LogicValue::True => "1'b1".to_owned(),
            LogicValue::X => "1'bx".to_owned(),
            LogicValue::Z => "1'bz".to_owned(),
        }
    }
}

/// The values that a net can carry.
#[derive(Debug, Clone, Copy, PartialEq, Eq, Structural)]
pub enum Signal {
    /// Zero or one.
    TwoState,
    /// Zero, one or high impedance.
    ThreeState,
    /// Zero, one, high impedance or unknown.
    FourState,
}

/// A net: its name and the values that it can carry.
#[derive(Debug)]
pub struct Wire {
    pub id: Ident,
    pub signal: Signal,
}

/// What a net stands for.
pub struct WireView {
    pub id: IdentView,
    pub signal: Signal,
}

impl View for Wire {
    type V = WireView;

    open spec fn view(&self) -> WireView {
        WireView { id: self.id@, signal: self.signal }
    }
}

/// A net that carries four-state logic.
pub open spec fn logic_wire(id: IdentView) -> WireView {
    WireView { id, signal: Signal::FourState }
}

/// The nets that a sequence of [`Wire`] stands for.
pub open spec fn wire_views(wires: Seq<Wire>) -> Seq<WireView> {
    wires.map_values(|w: Wire| w@)
}

impl Wire {
    /// A net that carries four-state logic.
    pub fn new_logic(id: Ident) -> (r: Wire)
        ensures
            r@ == logic_wire(id@),
    {
        Wire { id, signal: Signal::FourState }
    }
}

impl Clone for Wire {
    fn clone(&self) -> (r: Wire)
        ensures
            r@ == self@,
    {
        Wire { id: self.id.clone(), signal: self.signal }
    }
}

/// Copies of `wires`.
pub(crate) fn copy_wires(wires: &Vec<Wire>) -> (r: Vec<Wire>)
    ensures
        wire_views(r@) == wire_views(wires@),
{
    let mut r: Vec<Wire> = Vec::new();
    for i in 0..wires.len()
        invariant
            r.len() == i,
            forall|j: int| 0 <= j < i ==> (#[trigger] r@[j])@ == wires@[j]@,
    {
        r.push(wires[i].clone());
    }
    assert(wire_views(r@) =~= wire_views(wires@));
    r
}

/// The `safety_net::Net` of a net.
pub uninterp spec fn outside_net(wire: WireView) -> safety_net::Net;

/// The `safety_net::Net` of each of `wires`.
pub open spec fn outside_nets(wires: Seq<WireView>) -> Seq<safety_net::Net> {
    wires.map_values(|w: WireView| outside_net(w))
}

/// Calls `safety_net::Net::new`. The net depends on the name and the data
/// type alone.
#[verifier::external_body]
pub(crate) fn raw_wire(wire: &Wire) -> (r: safety_net::Net)
    ensures
        r == outside_net(wire@),
{
    let data_type = match wire.signal {
        Signal::TwoState => safety_net::DataType::TwoState,
        Signal::ThreeState => safety_net::DataType::ThreeState,
        Signal::FourState => safety_net::DataType::FourState,
    };
    safety_net::Net::new(wire.id.raw(), data_type)
}

/// The net of a `safety_net::Net`, which is opaque here.
#[verifier::external_body]
pub(crate) fn describe_wire(raw: &safety_net::Net) -> Wire {
    let signal = match raw.get_type() {
        safety_net::DataType::TwoState => Signal::TwoState,
        safety_net::DataType::ThreeState => Signal::ThreeState,
        safety_net::DataType::FourState => Signal::FourState,
    };
    Wire { id: describe(raw.get_identifier().clone()), signal }
}

/// The nets of `wires` in the form that `safety_net` takes.
pub(crate) fn raw_wires(wires: &Vec<Wire>) -> (r: Vec<safety_net::Net>)
    ensures
        r@ == outside_nets(wire_views(wires@)),
{
    let mut r: Vec<safety_net::Net> = Vec::new();
    for i in 0..wires.len()
        invariant
            r@.len() == i,
            forall|j: int| 0 <= j < i ==> (#[trigger] r@[j]) == outside_net(wires@[j]@),
    {
        r.push(raw_wire(&wires[i]));
    }
    assert(r@ =~= outside_nets(wire_views(wires@)));
    r
}

/// The `safety_net::Logic` of a logic value.
pub uninterp spec fn outside_level(v: LogicValue) -> safety_net::Logic;

/// The logic value of a `safety_net::Logic`.
pub open spec fn level_view(raw: safety_net::Logic) -> LogicValue {
    choose|v: LogicValue| #[trigger] outside_level(v) == raw
}

/// The variant of `safety_net::Logic` for a logic value.
#[verifier::external_body]
pub(crate) fn raw_level(v: LogicValue) -> (r: safety_net::Logic)
    ensures
        r == outside_level(v),
{
    match v {
        LogicValue::False => safety_net::Logic::False,
        LogicValue::True => safety_net::Logic::True,
        LogicValue::X => safety_net::Logic::X,
        LogicValue::Z => safety_net::Logic::Z,
    }
}

/// The logic value of a `safety_net::Logic`, which has a variant for each
/// logic value and no others.
#[verifier::external_body]
pub(crate) fn describe_level(v: safety_net::Logic) -> (r: LogicValue)
    ensures
        outside_level(r) == v,
        forall|u: LogicValue| #[trigger] outside_level(u) == v ==> u == r,
{
    match v {
        safety_net::Logic::False => LogicValue::False,
        safety_net::Logic::True => LogicValue::True,
        safety_net::Logic::X => LogicValue::X,
        safety_net::Logic::Z => LogicValue::Z,
    }
}

/// The values of booleans are zero and one, and different for different
/// booleans. The texts of values end in different characters.
pub proof fn law_levels_tell_apart(a: bool, v: LogicValue, w: LogicValue)
    ensures
        level_of(a) == LogicValue::True <==> a,
        level_of(a) == LogicValue::False <==> !a,
        level_text(v).len() == 4,
        level_text(v).take(3) == seq!['1', '\'', 'b'],
        level_text(v).last() == match v {
            LogicValue::False => '0',
            LogicValue::True => '1',
            LogicValue::X => 'x',
            LogicValue::Z => 'z',
        },
        level_text(v) == level_text(w) ==> v == w,
{
    reveal_strlit("1'b0");
    reveal_strlit("1'b1");
    reveal_strlit("1'bx");
    reveal_strlit("1'bz");
    assert(level_text(v).take(3) =~= seq!['1', '\'', 'b']);
    assert(level_text(v).last() == level_text(v)[3]);
    assert(level_text(w).last() == level_text(w)[3]);
}

} // verus!
