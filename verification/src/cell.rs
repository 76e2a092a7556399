//! Primitive cells, the gates that netlists are made of.

use crate::error::NetlistError;
use crate::ident::{ident_of, ident_text, Ident, IdentView};
use crate::level::{copy_wires, logic_wire, wire_views, LogicValue, Wire, WireView};
use crate::param::{Param, ParamTable, ParamView};
use crate::primitive::{
    cell_name, cell_text, input_names, named_type, output_name, primitive_name, unknown_type,
    PrimitiveType,
};
use vstd::prelude::*;

verus! {

/// A cell of a primitive type.
#[derive(Debug)]
pub struct PrimitiveCell {
    name: Ident,
    ptype: PrimitiveType,
    inputs: Vec<Wire>,
    outputs: Vec<Wire>,
    params: ParamTable,
}

/// What a cell stands for.
pub struct CellView {
    pub name: IdentView,
    pub ptype: PrimitiveType,
    pub inputs: Seq<WireView>,
    pub outputs: Seq<WireView>,
    pub params: Map<IdentView, ParamView>,
}

impl View for PrimitiveCell {
    type V = CellView;

    closed spec fn view(&self) -> CellView {
        CellView {
            name: self.name@,
            ptype: self.ptype,
            inputs: wire_views(self.inputs@),
            outputs: wire_views(self.outputs@),
            params: self.params@,
        }
    }
}

/// The ports called `names`.
pub open spec fn ports(names: Seq<Seq<char>>) -> Seq<WireView> {
    names.map_values(|s: Seq<char>| logic_wire(ident_of(s)))
}

/// A cell of type `t` with drive strength `size` and no parameters.
pub open spec fn fresh_cell(t: PrimitiveType, size: Option<usize>) -> CellView {
    CellView {
        name: ident_of(cell_name(t, size)),
        ptype: t,
        inputs: ports(input_names(t)),
        outputs: seq![logic_wire(ident_of(output_name(t)))],
        params: Map::empty(),
    }
}

/// Whether a cell has the ports of its type.
pub open spec fn cell_ok(cell: CellView) -> bool {
    &&& cell.inputs == ports(input_names(cell.ptype))
    &&& cell.outputs == seq![logic_wire(ident_of(output_name(cell.ptype)))]
}

/// The cell that stands for a constant, where there is one.
pub open spec fn constant_cell(val: LogicValue) -> Option<CellView> {
    match val {
        LogicValue::False => Some(fresh_cell(PrimitiveType::GND, None)),
        LogicValue::True => Some(fresh_cell(PrimitiveType::VCC, None)),
        _ => None,
    }
}

/// The constant that a cell of type `t` stands for.
pub open spec fn constant_of(t: PrimitiveType) -> Option<LogicValue> {
    match t {
        PrimitiveType::GND => Some(LogicValue::False),
        PrimitiveType::VCC => Some(LogicValue::True),
        _ => None,
    }
}

/// A constant that has a cell is read back from it, and no other cell
/// stands for a constant.
pub proof fn law_constants_read_back(val: LogicValue)
    ensures
        constant_cell(val) is Some <==> val == LogicValue::False || val == LogicValue::True,
        constant_cell(val) matches Some(cell) ==> constant_of(cell.ptype) == Some(val),
        forall|t: PrimitiveType| #[trigger]
            constant_of(t) == Some(val) ==> constant_cell(val) == Some(fresh_cell(t, None)),
{
}

impl PrimitiveCell {
    #[verifier::type_invariant]
    spec fn well_formed(self) -> bool {
        cell_ok(self@)
    }

    /// A cell of type `ptype`, with drive strength `size` where one is
    /// given.
    pub fn new(ptype: PrimitiveType, size: Option<usize>) -> (r: PrimitiveCell)
        ensures
            r@ == fresh_cell(ptype, size),
    {
        proof {
            lemma_names_not_empty(ptype, size);
        }
        let list = ptype.get_input_list();
        let mut inputs: Vec<Wire> = Vec::new();
        for i in 0..list.len()
            invariant
                crate::primitive::texts(list@) == input_names(ptype),
                forall|j: int| 0 <= j < list@.len() ==> (#[trigger] list@[j])@.len() > 0,
                inputs@.len() == i,
                forall|j: int|
                    0 <= j < i ==> (#[trigger] inputs@[j])@ == logic_wire(ident_of(list@[j]@)),
        {
            inputs.push(Wire::new_logic(Ident::new(list[i].as_str())));
        }
        let mut outputs: Vec<Wire> = Vec::new();
        outputs.push(Wire::new_logic(Ident::new(ptype.get_output().as_str())));
        let name = Ident::new(cell_text(ptype, size).as_str());
        proof {
            assert(wire_views(inputs@) =~= ports(input_names(ptype))) by {
                assert(input_names(ptype).len() == list@.len());
                assert forall|j: int| 0 <= j < list@.len() implies input_names(ptype)[j]
                    == list@[j]@ by {
                    assert(crate::primitive::texts(list@)[j] == list@[j]@);
                }
            }
            assert(wire_views(outputs@) =~= seq![logic_wire(ident_of(output_name(ptype)))]);
        }
        PrimitiveCell { name, ptype, inputs, outputs, params: ParamTable::new() }
    }

    /// The name of the cell.
    pub fn get_name(&self) -> (r: &Ident)
        ensures
            r@ == self@.name,
    {
        &self.name
    }

    /// The type of the cell.
    pub fn get_type(&self) -> (r: PrimitiveType)
        ensures
            r == self@.ptype,
            cell_ok(self@),
    {
        proof {
            use_type_invariant(self);
        }
        self.ptype
    }

    /// The input ports, in order.
    pub fn get_input_ports(&self) -> (r: &Vec<Wire>)
        ensures
            wire_views(r@) == self@.inputs,
    {
        &self.inputs
    }

    /// The output ports, in order.
    pub fn get_output_ports(&self) -> (r: &Vec<Wire>)
        ensures
            wire_views(r@) == self@.outputs,
    {
        &self.outputs
    }

    /// Whether the cell has a parameter called `id`.
    pub fn has_parameter(&self, id: &Ident) -> (r: bool)
        ensures
            r == self@.params.contains_key(id@),
    {
        self.params.contains(id)
    }

    /// The parameter called `id`.
    pub fn get_parameter(&self, id: &Ident) -> (r: Option<Param>)
        ensures
            match r {
                Some(p) => self@.params.contains_key(id@) && p@ == self@.params[id@],
                None => !self@.params.contains_key(id@),
            },
    {
        self.params.get(id)
    }

    /// Sets the parameter called `id`, and returns what it was before.
    pub fn set_parameter(&mut self, id: &Ident, val: Param) -> (r: Option<Param>)
        ensures
            final(self)@ == (CellView {
                params: old(self)@.params.insert(id@, val@),
                ..old(self)@
            }),
            match r {
                Some(p) => old(self)@.params.contains_key(id@) && p@ == old(self)@.params[id@],
                None => !old(self)@.params.contains_key(id@),
            },
    {
        proof {
            use_type_invariant(&*self);
        }
        let mut params = ParamTable::new();
        std::mem::swap(&mut params, &mut self.params);
        let r = params.insert(id.clone(), val);
        self.params = params;
        r
    }

    /// All parameters with their names, each once, in no particular order.
    pub fn parameters(&self) -> (r: Vec<(Ident, Param)>)
        ensures
            forall|i: int, j: int|
                0 <= i < j < r@.len() ==> (#[trigger] r@[i]).0@ != (#[trigger] r@[j]).0@,
            forall|i: int|
                0 <= i < r@.len() ==> self@.params.contains_key((#[trigger] r@[i]).0@)
                    && self@.params[r@[i].0@] == r@[i].1@,
            forall|id: IdentView| #[trigger]
                self@.params.contains_key(id) ==> exists|i: int|
                    0 <= i < r@.len() && r@[i].0@ == id,
    {
        self.params.entries()
    }

    /// The cell that stands for a constant. Only zero and one have one.
    pub fn from_constant(val: LogicValue) -> (r: Option<PrimitiveCell>)
        ensures
            match r {
                Some(cell) => constant_cell(val) == Some(cell@),
                None => constant_cell(val) is None,
            },
    {
        match val {
            LogicValue::False => Some(PrimitiveCell::new(PrimitiveType::GND, None)),
            LogicValue::True => Some(PrimitiveCell::new(PrimitiveType::VCC, None)),
            _ => None,
        }
    }

    /// The constant that the cell stands for.
    pub fn get_constant(&self) -> (r: Option<LogicValue>)
        ensures
            r == constant_of(self@.ptype),
    {
        match self.ptype {
            PrimitiveType::GND => Some(LogicValue::False),
            PrimitiveType::VCC => Some(LogicValue::True),
            _ => None,
        }
    }

    /// Whether the cell holds state.
    pub fn is_seq(&self) -> (r: bool)
        ensures
            r == (self@.ptype == PrimitiveType::FDRE),
    {
        self.ptype.is_reg()
    }

    /// The cell that an identifier names. A drive strength in the name is
    /// dropped.
    pub fn from_id(s: &Ident) -> (r: Result<PrimitiveCell, NetlistError>)
        ensures
            match r {
                Ok(cell) => named_type(ident_text(s@)) == Some(cell@.ptype) && cell@ == fresh_cell(
                    cell@.ptype,
                    None,
                ),
                Err(NetlistError::ParseError(e)) => named_type(ident_text(s@)) is None && e@
                    == unknown_type(ident_text(s@)),
                Err(_) => false,
            },
    {
        match PrimitiveType::from_str(s.to_text().as_str()) {
            Ok(ptype) => Ok(PrimitiveCell::new(ptype, None)),
            Err(e) => Err(NetlistError::ParseError(e)),
        }
    }
}

impl Clone for PrimitiveCell {
    fn clone(&self) -> (r: PrimitiveCell)
        ensures
            r@ == self@,
    {
        proof {
            use_type_invariant(self);
        }
        PrimitiveCell {
            name: self.name.clone(),
            ptype: self.ptype,
            inputs: copy_wires(&self.inputs),
            outputs: copy_wires(&self.outputs),
            params: self.params.clone(),
        }
    }
}

/// Ports and cells have names.
proof fn lemma_names_not_empty(t: PrimitiveType, size: Option<usize>)
    ensures
        cell_name(t, size).len() > 0,
        output_name(t).len() > 0,
        forall|i: int| 0 <= i < input_names(t).len() ==> (#[trigger] input_names(t)[i]).len() > 0,
{
    crate::primitive::lemma_literals();
}

/// Zero and one have a cell each, and no other value has one. The cell of a
/// constant stands for it, and no other type of cell does.
pub proof fn law_constants_have_their_own_cells(val: LogicValue, t: PrimitiveType)
    ensures
        constant_cell(val) is Some <==> val == LogicValue::False || val == LogicValue::True,
        constant_cell(val) matches Some(cell) ==> {
            &&& constant_of(cell.ptype) == Some(val)
            &&& cell_ok(cell)
            &&& cell.inputs.len() == 0
            &&& cell.params.dom() == Set::<IdentView>::empty()
        },
        constant_of(t) matches Some(v) ==> (constant_cell(v) matches Some(cell) && cell.ptype == t),
        constant_of(t) is Some <==> input_names(t).len() == 0,
{
    if let Some(cell) = constant_cell(val) {
        assert(cell.params.dom() =~= Set::empty());
    }
}

/// A new cell is called by its type, and where a drive strength is given by
/// `_X` and that behind it. It has the ports of its type, and no parameters.
pub proof fn law_new_cells_are_named_by_type(t: PrimitiveType, size: Option<usize>)
    ensures
        ({
            let cell = fresh_cell(t, size);
            &&& cell.ptype == t
            &&& cell_ok(cell)
            &&& size is None ==> cell.name.name == primitive_name(t)
            &&& size matches Some(s) ==> cell.name.name == primitive_name(t) + seq!['_', 'X']
                + crate::text::decimal(s as nat)
            &&& named_type(cell.name.name) == Some(t)
            &&& cell.params.dom() == Set::<IdentView>::empty()
            &&& cell.inputs.len() == input_names(t).len()
            &&& cell.outputs.len() == 1
        }),
{
    crate::primitive::law_cell_names_are_plain(t, size);
    crate::primitive::law_cell_names_read_back(t, size);
    crate::primitive::lemma_literals();
    assert(fresh_cell(t, size).params.dom() =~= Set::empty());
}

} // verus!
