//! What can be instantiated in a netlist: primitive cells, and cells of which
//! no more than the ports are known.

use crate::cell::{CellView, PrimitiveCell};
use crate::ident::{Ident, IdentView};
use crate::level::{copy_wires, wire_views, Wire, WireView};
use crate::param::ParamView;
use vstd::prelude::*;

verus! {

/// A cell that is known by its name and its ports alone. It takes no
/// parameters and has no function, and may drive any number of nets.
#[derive(Debug)]
pub struct BlackBox {
    name: Ident,
    inputs: Vec<Wire>,
    outputs: Vec<Wire>,
}

/// What a [`BlackBox`] stands for.
pub struct BoxView {
    pub name: IdentView,
    pub inputs: Seq<WireView>,
    pub outputs: Seq<WireView>,
}

impl View for BlackBox {
    type V = BoxView;

    closed spec fn view(&self) -> BoxView {
        BoxView {
            name: self.name@,
            inputs: wire_views(self.inputs@),
            outputs: wire_views(self.outputs@),
        }
    }
}

impl BlackBox {
    /// A cell with the given ports.
    pub fn new(name: Ident, inputs: Vec<Wire>, outputs: Vec<Wire>) -> (r: BlackBox)
        ensures
            r@ == (BoxView {
                name: name@,
                inputs: wire_views(inputs@),
                outputs: wire_views(outputs@),
            }),
    {
        BlackBox { name, inputs, outputs }
    }

    /// The name of the cell.
    pub fn get_name(&self) -> (r: &Ident)
        ensures
            r@ == self@.name,
    {
        &self.name
    }

    /// The input ports, in order.
    pub fn get_input_ports(&self) -> (r: &Vec<Wire>)
        ensures
            wire_views(r@) == self@.inputs,
    {
        &self.inputs
    }

    /// The output ports, in order.
    pub fn get_output_ports(&self) -> (r: &Vec<Wire>)
        ensures
            wire_views(r@) == self@.outputs,
    {
        &self.outputs
    }
}

impl Clone for BlackBox {
    fn clone(&self) -> (r: BlackBox)
        ensures
            r@ == self@,
    {
        BlackBox {
            name: self.name.clone(),
            inputs: copy_wires(&self.inputs),
            outputs: copy_wires(&self.outputs),
        }
    }
}

/// What can be instantiated.
#[derive(Debug)]
pub enum Part {
    Gate(PrimitiveCell),
    Closed(BlackBox),
}

/// What a [`Part`] stands for.
pub enum PartView {
    Gate(CellView),
    Closed(BoxView),
}

impl PartView {
    /// The name of the cell.
    pub open spec fn name(self) -> IdentView {
        match self {
            PartView::Gate(cell) => cell.name,
            PartView::Closed(cell) => cell.name,
        }
    }

    /// The input ports.
    pub open spec fn inputs(self) -> Seq<WireView> {
        match self {
            PartView::Gate(cell) => cell.inputs,
            PartView::Closed(cell) => cell.inputs,
        }
    }

    /// The output ports.
    pub open spec fn outputs(self) -> Seq<WireView> {
        match self {
            PartView::Gate(cell) => cell.outputs,
            PartView::Closed(cell) => cell.outputs,
        }
    }

    /// The parameters.
    pub open spec fn params(self) -> Map<IdentView, ParamView> {
        match self {
            PartView::Gate(cell) => cell.params,
            PartView::Closed(_) => Map::empty(),
        }
    }

    /// The same cell with a parameter set, if it takes any.
    pub open spec fn with_param(self, id: IdentView, val: ParamView) -> PartView {
        match self {
            PartView::Gate(cell) => PartView::Gate(
                CellView { params: cell.params.insert(id, val), ..cell },
            ),
            PartView::Closed(_) => self,
        }
    }
}

impl View for Part {
    type V = PartView;

    open spec fn view(&self) -> PartView {
        match self {
            Part::Gate(cell) => PartView::Gate(cell@),
            Part::Closed(cell) => PartView::Closed(cell@),
        }
    }
}

impl Part {
    /// The name of the cell.
    pub fn get_name(&self) -> (r: &Ident)
        ensures
            r@ == self@.name(),
    {
        match self {
            Part::Gate(cell) => cell.get_name(),
            Part::Closed(cell) => cell.get_name(),
        }
    }

    /// The input ports, in order.
    pub fn get_input_ports(&self) -> (r: &Vec<Wire>)
        ensures
            wire_views(r@) == self@.inputs(),
    {
        match self {
            Part::Gate(cell) => cell.get_input_ports(),
            Part::Closed(cell) => cell.get_input_ports(),
        }
    }

    /// The output ports, in order.
    pub fn get_output_ports(&self) -> (r: &Vec<Wire>)
        ensures
            wire_views(r@) == self@.outputs(),
    {
        match self {
            Part::Gate(cell) => cell.get_output_ports(),
            Part::Closed(cell) => cell.get_output_ports(),
        }
    }
}

impl Clone for Part {
    fn clone(&self) -> (r: Part)
        ensures
            r@ == self@,
    {
        match self {
            Part::Gate(cell) => Part::Gate(cell.clone()),
            Part::Closed(cell) => Part::Closed(cell.clone()),
        }
    }
}

} // verus!
