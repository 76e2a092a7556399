//! The languages that logic is written in, and expressions of them.

use crate::level::{level_of, level_text, LogicValue};
use crate::text::{decimal, decimal_text, same_text};
use vstd::prelude::*;

verus! {

/// The place of a node in an expression.
pub type Id = usize;

/// What a node of an expression computes from its children.
pub enum Op {
    And,
    Or,
    Not,
    Nor,
    Xor,
    Mux,
    Reg,
    Lut,
    Bus,
    DontCare,
    Const(LogicValue),
    Cell(Seq<char>),
    Program(u64),
    Var(Seq<char>),
}

/// A node of an expression: what it computes, and from which others.
pub struct NodeView {
    pub op: Op,
    pub args: Seq<Id>,
}

/// A node without children.
pub open spec fn leaf(op: Op) -> NodeView {
    NodeView { op, args: Seq::empty() }
}

/// A node that computes `op` from `n` children that are not known yet.
pub open spec fn blank(op: Op, n: nat) -> NodeView {
    NodeView { op, args: Seq::new(n, |i: int| 0) }
}

/// A language of logic: the kinds of nodes that expressions are made of.
pub trait CircuitLang: Sized {
    /// The node that a value stands for.
    spec fn node(&self) -> NodeView;

    /// How an operator is written.
    spec fn op_text(op: Op) -> Seq<char>;

    /// The leaf called `sym`.
    fn var(sym: String) -> (r: Self)
        ensures
            r.node() == leaf(Op::Var(sym@)),
    ;

    /// The node that gathers several roots.
    fn bus(ids: Vec<Id>) -> (r: Self)
        ensures
            r.node() == (NodeView { op: Op::Bus, args: ids@ }),
    ;

    /// Whether the node gathers several roots.
    fn is_bus(&self) -> (r: bool)
        ensures
            r == (self.node().op is Bus),
    ;

    /// The name of a leaf.
    fn get_var(&self) -> (r: Option<String>)
        ensures
            match r {
                Some(sym) => self.node().op == Op::Var(sym@),
                None => !(self.node().op is Var),
            },
    ;

    /// The truth table of a program node.
    fn extract_program(&self) -> (r: Option<u64>)
        ensures
            match r {
                Some(v) => self.node().op == Op::Program(v),
                None => !(self.node().op is Program),
            },
    ;

    /// The children of the node, in order.
    fn children(&self) -> (r: Vec<Id>)
        ensures
            r@ == self.node().args,
    ;

    /// Sets the child at position `i`.
    fn set_child(&mut self, i: usize, id: Id)
        requires
            i < old(self).node().args.len(),
        ensures
            final(self).node() == (NodeView {
                op: old(self).node().op,
                args: old(self).node().args.update(i as int, id),
            }),
    ;

    /// The same node again.
    fn copy(&self) -> (r: Self)
        ensures
            r.node() == self.node(),
    ;

    /// The operator as it is written.
    fn to_text(&self) -> (r: String)
        ensures
            r@ == Self::op_text(self.node().op),
    ;
}

/// Logic in terms of standard cells.
#[derive(Debug)]
pub enum CellLang {
    /// A constant.
    Const(bool),
    /// A net that is a leaf of the expression.
    Var(String),
    /// Two-input and.
    And([Id; 2]),
    /// Two-input or.
    Or([Id; 2]),
    /// Inverter.
    Inv([Id; 1]),
    /// Any other cell, by its name.
    Cell(String, Vec<Id>),
    /// Several roots.
    Bus(Vec<Id>),
}

impl CircuitLang for CellLang {
    open spec fn node(&self) -> NodeView {
        match self {
            CellLang::Const(b) => leaf(Op::Const(level_of(*b))),
            CellLang::Var(sym) => leaf(Op::Var(sym@)),
            CellLang::And(ids) => NodeView { op: Op::And, args: ids@ },
            CellLang::Or(ids) => NodeView { op: Op::Or, args: ids@ },
            CellLang::Inv(ids) => NodeView { op: Op::Not, args: ids@ },
            CellLang::Cell(name, ids) => NodeView { op: Op::Cell(name@), args: ids@ },
            CellLang::Bus(ids) => NodeView { op: Op::Bus, args: ids@ },
        }
    }

    open spec fn op_text(op: Op) -> Seq<char> {
        match op {
            Op::And => "AND"@,
            Op::Or => "OR"@,
            Op::Not => "INV"@,
            Op::Bus => "BUS"@,
            Op::Const(v) => if v is True {
                "true"@
            } else {
                "false"@
            },
            Op::Cell(name) => name,
            Op::Var(sym) => sym,
            _ => Seq::empty(),
        }
    }

    fn var(sym: String) -> (r: CellLang) {
        CellLang::Var(sym)
    }

    fn bus(ids: Vec<Id>) -> (r: CellLang) {
        CellLang::Bus(ids)
    }

    fn is_bus(&self) -> (r: bool) {
        matches!(self, CellLang::Bus(_))
    }

    fn get_var(&self) -> (r: Option<String>) {
        match self {
            CellLang::Var(sym) => Some(sym.clone()),
            _ => None,
        }
    }

    fn extract_program(&self) -> (r: Option<u64>) {
        None
    }

    fn children(&self) -> (r: Vec<Id>) {
        let r = match self {
            CellLang::And(ids) => vec![ids[0], ids[1]],
            CellLang::Or(ids) => vec![ids[0], ids[1]],
            CellLang::Inv(ids) => vec![ids[0]],
            CellLang::Cell(_, ids) => ids.clone(),
            CellLang::Bus(ids) => ids.clone(),
            _ => Vec::new(),
        };
        assert(r@ =~= self.node().args);
        r
    }

    fn set_child(&mut self, i: usize, id: Id) {
        match self {
            CellLang::And(ids) => {
                ids[i] = id;
            },
            CellLang::Or(ids) => {
                ids[i] = id;
            },
            CellLang::Inv(ids) => {
                ids[i] = id;
            },
            CellLang::Cell(_, ids) => {
                ids.set(i, id);
            },
            CellLang::Bus(ids) => {
                ids.set(i, id);
            },
            _ => {},
        }
    }

    fn copy(&self) -> (r: CellLang) {
        let r = match self {
            CellLang::Const(v) => CellLang::Const(*v),
            CellLang::Var(sym) => CellLang::Var(sym.clone()),
            CellLang::And(ids) => CellLang::And(*ids),
            CellLang::Or(ids) => CellLang::Or(*ids),
            CellLang::Inv(ids) => CellLang::Inv(*ids),
            CellLang::Cell(name, ids) => CellLang::Cell(name.clone(), ids.clone()),
            CellLang::Bus(ids) => CellLang::Bus(ids.clone()),
        };
        assert(r.node().args =~= self.node().args);
        r
    }

    fn to_text(&self) -> (r: String) {
        match self {
            CellLang::Const(b) => if *b {
                "true".to_owned()
            } else {
                "false".to_owned()
            },
            CellLang::Var(sym) => sym.clone(),
            CellLang::And(_) => "AND".to_owned(),
            CellLang::Or(_) => "OR".to_owned(),
            CellLang::Inv(_) => "INV".to_owned(),
            CellLang::Cell(name, _) => name.clone(),
            CellLang::Bus(_) => "BUS".to_owned(),
        }
    }
}

/// Logic in terms of lookup tables.
#[derive(Debug)]
pub enum LutLang {
    /// A constant.
    Const(LogicValue),
    /// The truth table of a lookup table.
    Program(u64),
    /// A net that is a leaf of the expression.
    Var(String),
    /// Any value.
    DontCare,
    /// Two-input and.
    And([Id; 2]),
    /// Two-input nor.
    Nor([Id; 2]),
    /// Two-input exclusive or.
    Xor([Id; 2]),
    /// Two-to-one multiplexer.
    Mux([Id; 3]),
    /// Inverter.
    Not([Id; 1]),
    /// Flip-flop.
    Reg([Id; 4]),
    /// Lookup table: its program, then its inputs.
    Lut(Vec<Id>),
    /// Several roots.
    Bus(Vec<Id>),
}

impl CircuitLang for LutLang {
    open spec fn node(&self) -> NodeView {
        match self {
            LutLang::Const(v) => leaf(Op::Const(*v)),
            LutLang::Program(v) => leaf(Op::Program(*v)),
            LutLang::Var(sym) => leaf(Op::Var(sym@)),
            LutLang::DontCare => leaf(Op::DontCare),
            LutLang::And(ids) => NodeView { op: Op::And, args: ids@ },
            LutLang::Nor(ids) => NodeView { op: Op::Nor, args: ids@ },
            LutLang::Xor(ids) => NodeView { op: Op::Xor, args: ids@ },
            LutLang::Mux(ids) => NodeView { op: Op::Mux, args: ids@ },
            LutLang::Not(ids) => NodeView { op: Op::Not, args: ids@ },
            LutLang::Reg(ids) => NodeView { op: Op::Reg, args: ids@ },
            LutLang::Lut(ids) => NodeView { op: Op::Lut, args: ids@ },
            LutLang::Bus(ids) => NodeView { op: Op::Bus, args: ids@ },
        }
    }

    open spec fn op_text(op: Op) -> Seq<char> {
        match op {
            Op::And => "AND"@,
            Op::Nor => "NOR"@,
            Op::Xor => "XOR"@,
            Op::Mux => "MUX"@,
            Op::Not => "NOT"@,
            Op::Reg => "REG"@,
            Op::Lut => "LUT"@,
            Op::Bus => "BUS"@,
            Op::DontCare => "x"@,
            Op::Const(v) => level_text(v),
            Op::Program(v) => decimal(v as nat),
            Op::Var(sym) => sym,
            _ => Seq::empty(),
        }
    }

    fn var(sym: String) -> (r: LutLang) {
        LutLang::Var(sym)
    }

    fn bus(ids: Vec<Id>) -> (r: LutLang) {
        LutLang::Bus(ids)
    }

    fn is_bus(&self) -> (r: bool) {
        matches!(self, LutLang::Bus(_))
    }

    fn get_var(&self) -> (r: Option<String>) {
        match self {
            LutLang::Var(sym) => Some(sym.clone()),
            _ => None,
        }
    }

    fn extract_program(&self) -> (r: Option<u64>) {
        match self {
            LutLang::Program(v) => Some(*v),
            _ => None,
        }
    }

    fn children(&self) -> (r: Vec<Id>) {
        let r = match self {
            LutLang::And(ids) => vec![ids[0], ids[1]],
            LutLang::Nor(ids) => vec![ids[0], ids[1]],
            LutLang::Xor(ids) => vec![ids[0], ids[1]],
            LutLang::Mux(ids) => vec![ids[0], ids[1], ids[2]],
            LutLang::Not(ids) => vec![ids[0]],
            LutLang::Reg(ids) => vec![ids[0], ids[1], ids[2], ids[3]],
            LutLang::Lut(ids) => ids.clone(),
            LutLang::Bus(ids) => ids.clone(),
            _ => Vec::new(),
        };
        assert(r@ =~= self.node().args);
        r
    }

    fn set_child(&mut self, i: usize, id: Id) {
        match self {
            LutLang::And(ids) => {
                ids[i] = id;
            },
            LutLang::Nor(ids) => {
                ids[i] = id;
            },
            LutLang::Xor(ids) => {
                ids[i] = id;
            },
            LutLang::Mux(ids) => {
                ids[i] = id;
            },
            LutLang::Not(ids) => {
                ids[i] = id;
            },
            LutLang::Reg(ids) => {
                ids[i] = id;
            },
            LutLang::Lut(ids) => {
                ids.set(i, id);
            },
            LutLang::Bus(ids) => {
                ids.set(i, id);
            },
            _ => {},
        }
    }

    fn copy(&self) -> (r: LutLang) {
        let r = match self {
            LutLang::Const(v) => LutLang::Const(*v),
            LutLang::Program(v) => LutLang::Program(*v),
            LutLang::Var(sym) => LutLang::Var(sym.clone()),
            LutLang::DontCare => LutLang::DontCare,
            LutLang::And(ids) => LutLang::And(*ids),
            LutLang::Nor(ids) => LutLang::Nor(*ids),
            LutLang::Xor(ids) => LutLang::Xor(*ids),
            LutLang::Mux(ids) => LutLang::Mux(*ids),
            LutLang::Not(ids) => LutLang::Not(*ids),
            LutLang::Reg(ids) => LutLang::Reg(*ids),
            LutLang::Lut(ids) => LutLang::Lut(ids.clone()),
            LutLang::Bus(ids) => LutLang::Bus(ids.clone()),
        };
        assert(r.node().args =~= self.node().args);
        r
    }

    fn to_text(&self) -> (r: String) {
        match self {
            LutLang::Const(v) => v.to_text(),
            LutLang::Program(v) => decimal_text(*v),
            LutLang::Var(sym) => sym.clone(),
            LutLang::DontCare => "x".to_owned(),
            LutLang::And(_) => "AND".to_owned(),
            LutLang::Nor(_) => "NOR".to_owned(),
            LutLang::Xor(_) => "XOR".to_owned(),
            LutLang::Mux(_) => "MUX".to_owned(),
            LutLang::Not(_) => "NOT".to_owned(),
            LutLang::Reg(_) => "REG".to_owned(),
            LutLang::Lut(_) => "LUT".to_owned(),
            LutLang::Bus(_) => "BUS".to_owned(),
        }
    }
}

/// The node of a [`CellLang`] expression that is written as `op` before the
/// children `ids`.
pub open spec fn read_op(op: Seq<char>, ids: Seq<Id>) -> NodeView {
    if ids.len() == 0 && op == "true"@ {
        leaf(Op::Const(LogicValue::True))
    } else if ids.len() == 0 && op == "false"@ {
        leaf(Op::Const(LogicValue::False))
    } else if ids.len() == 0 {
        leaf(Op::Var(op))
    } else if ids.len() == 2 && op == "AND"@ {
        NodeView { op: Op::And, args: ids }
    } else if ids.len() == 2 && op == "OR"@ {
        NodeView { op: Op::Or, args: ids }
    } else if ids.len() == 1 && op == "INV"@ {
        NodeView { op: Op::Not, args: ids }
    } else if op == "BUS"@ {
        NodeView { op: Op::Bus, args: ids }
    } else {
        NodeView { op: Op::Cell(op), args: ids }
    }
}

impl CellLang {
    /// The node that is written as `op` before the children `ids`.
    pub fn from_op(op: &str, ids: Vec<Id>) -> (r: CellLang)
        ensures
            r.node() == read_op(op@, ids@),
    {
        if ids.len() == 0 && same_text(op, "true") {
            CellLang::Const(true)
        } else if ids.len() == 0 && same_text(op, "false") {
            CellLang::Const(false)
        } else if ids.len() == 0 {
            CellLang::Var(op.to_owned())
        } else if ids.len() == 2 && same_text(op, "AND") {
            let r = CellLang::And([ids[0], ids[1]]);
            assert(r.node().args =~= ids@);
            r
        } else if ids.len() == 2 && same_text(op, "OR") {
            let r = CellLang::Or([ids[0], ids[1]]);
            assert(r.node().args =~= ids@);
            r
        } else if ids.len() == 1 && same_text(op, "INV") {
            let r = CellLang::Inv([ids[0]]);
            assert(r.node().args =~= ids@);
            r
        } else if same_text(op, "BUS") {
            CellLang::Bus(ids)
        } else {
            CellLang::Cell(op.to_owned(), ids)
        }
    }
}

/// Whether every child of a node stands before place `n`.
pub open spec fn before(args: Seq<Id>, n: nat) -> bool {
    forall|k: int| 0 <= k < args.len() ==> #[trigger] args[k] < n
}

/// Whether the children of every node stand before it.
pub open spec fn dag(nodes: Seq<NodeView>) -> bool {
    forall|i: int| 0 <= i < nodes.len() ==> before((#[trigger] nodes[i]).args, i as nat)
}

/// The places of the roots of an expression: the children of a last node
/// that gathers several, and else the last node.
pub open spec fn roots_of(nodes: Seq<NodeView>) -> Seq<Id> {
    if nodes.last().op is Bus {
        nodes.last().args
    } else {
        seq![(nodes.len() - 1) as usize]
    }
}

/// An expression: nodes, each after its children.
#[derive(Debug)]
pub struct RecExpr<L: CircuitLang> {
    nodes: Vec<L>,
}

impl<L: CircuitLang> View for RecExpr<L> {
    type V = Seq<NodeView>;

    closed spec fn view(&self) -> Seq<NodeView> {
        self.nodes@.map_values(|l: L| l.node())
    }
}

/// The nodes of an expression as they are written: operators and children.
pub open spec fn written<L: CircuitLang>(nodes: Seq<NodeView>) -> Seq<(Seq<char>, Seq<Id>)> {
    nodes.map_values(|n: NodeView| (L::op_text(n.op), n.args))
}

/// Operators and children, each by its view.
pub open spec fn written_views(nodes: Seq<(String, Vec<Id>)>) -> Seq<(Seq<char>, Seq<Id>)> {
    nodes.map_values(|n: (String, Vec<Id>)| (n.0@, n.1@))
}

/// Whether an operator is written in quotes: where it is empty, or has a
/// character that would end it.
pub open spec fn needs_quotes(op: Seq<char>) -> bool {
    op.len() == 0 || exists|i: int|
        0 <= i < op.len() && {
            let c = #[trigger] op[i];
            c == '(' || c == ')' || c == ' ' || c == '\t' || c == '{' || c == '}' || c == '%'
        }
}

/// An operator as it stands in the text of an expression.
pub open spec fn quoted(op: Seq<char>) -> Seq<char> {
    if needs_quotes(op) {
        seq!['"'] + op + seq!['"']
    } else {
        op
    }
}

/// The text of the node at place `i`: its operator, and if it has children,
/// in brackets with their texts behind it.
pub open spec fn place_text(nodes: Seq<(Seq<char>, Seq<Id>)>, i: int) -> Seq<char>
    decreases i, nodes[i].1.len() + 1,
{
    if nodes[i].1.len() == 0 {
        quoted(nodes[i].0)
    } else {
        seq!['('] + quoted(nodes[i].0) + args_text(nodes, i, nodes[i].1.len() as int) + seq![')']
    }
}

/// The texts of the first `k` children of the node at place `i`, each behind
/// a space.
pub open spec fn args_text(nodes: Seq<(Seq<char>, Seq<Id>)>, i: int, k: int) -> Seq<char>
    decreases i, k,
{
    if k <= 0 {
        Seq::empty()
    } else {
        args_text(nodes, i, k - 1) + seq![' '] + if nodes[i].1[k - 1] < i {
            place_text(nodes, nodes[i].1[k - 1] as int)
        } else {
            Seq::empty()
        }
    }
}

/// The text of an expression of the given operators and children: that of
/// its last node.
pub open spec fn sexpr_text(nodes: Seq<(Seq<char>, Seq<Id>)>) -> Seq<char> {
    if nodes.len() == 0 {
        seq!['(', ')']
    } else {
        place_text(nodes, nodes.len() - 1)
    }
}

/// The operators and children that `egg` reads from text, or nothing where
/// it is no expression.
pub uninterp spec fn sexpr_nodes(text: Seq<char>) -> Option<Seq<(Seq<char>, Seq<Id>)>>;

/// Calls `Display` of `egg::RecExpr`, on nodes of `egg::SymbolLang`. It
/// writes the last node, each node with its children behind it, as
/// [`sexpr_text`] says. Children have to stand before their nodes. Its places
/// are numbers of 32 bits, so nothing is stated of more nodes than those tell
/// apart.
#[verifier::external_body]
fn write_sexpr(nodes: &Vec<(String, Vec<Id>)>) -> (r: String)
    requires
        forall|i: int| 0 <= i < nodes@.len() ==> before((#[trigger] nodes@[i]).1@, i as nat),
    ensures
        nodes@.len() <= 0x1_0000_0000 ==> r@ == sexpr_text(written_views(nodes@)),
{
    let expr: egg::RecExpr<egg::SymbolLang> = nodes.iter().map(|(op, ids)| {
        egg::SymbolLang::new(op.as_str(), ids.iter().map(|id| egg::Id::from(*id)).collect())
    }).collect();
    expr.to_string()
}

/// Calls `FromStr` of `egg::RecExpr`, on nodes of `egg::SymbolLang`. It adds
/// a node after its children, so each child stands before the node, and it
/// gives at least one node.
#[verifier::external_body]
fn read_sexpr(text: &str) -> (r: Option<Vec<(String, Vec<Id>)>>)
    ensures
        match r {
            Some(nodes) => {
                &&& sexpr_nodes(text@) == Some(written_views(nodes@))
                &&& nodes@.len() > 0
                &&& forall|i: int|
                    0 <= i < nodes@.len() ==> before((#[trigger] nodes@[i]).1@, i as nat)
            },
            None => sexpr_nodes(text@) is None,
        },
{
    let expr: egg::RecExpr<egg::SymbolLang> = text.parse().ok()?;
    Some(expr.iter().map(|n| {
        (n.op.to_string(), n.children.iter().map(|id| usize::from(*id)).collect())
    }).collect())
}

impl<L: CircuitLang> RecExpr<L> {
    #[verifier::type_invariant]
    spec fn well_formed(self) -> bool {
        dag(self@)
    }

    /// The empty expression.
    pub fn new() -> (r: RecExpr<L>)
        ensures
            r@ == Seq::<NodeView>::empty(),
    {
        let nodes: Vec<L> = Vec::new();
        assert(nodes@.map_values(|l: L| l.node()) =~= Seq::<NodeView>::empty());
        RecExpr { nodes }
    }

    /// Adds a node, and returns its place.
    pub fn add(&mut self, node: L) -> (r: Id)
        requires
            before(node.node().args, old(self)@.len()),
        ensures
            r == old(self)@.len(),
            final(self)@ == old(self)@.push(node.node()),
    {
        proof {
            use_type_invariant(&*self);
        }
        let mut nodes: Vec<L> = Vec::new();
        assert(nodes@.map_values(|l: L| l.node()) =~= Seq::<NodeView>::empty());
        std::mem::swap(&mut nodes, &mut self.nodes);
        let id = nodes.len();
        nodes.push(node);
        assert(nodes@.map_values(|l: L| l.node()) =~= old(self)@.push(node.node()));
        self.nodes = nodes;
        id
    }

    /// The number of nodes.
    pub fn len(&self) -> (r: usize)
        ensures
            r == self@.len(),
            dag(self@),
    {
        proof {
            use_type_invariant(self);
        }
        self.nodes.len()
    }

    /// The node at place `id`.
    pub fn get(&self, id: Id) -> (r: &L)
        requires
            id < self@.len(),
        ensures
            r.node() == self@[id as int],
    {
        &self.nodes[id]
    }

    /// The places of the roots.
    pub fn root_ids(&self) -> (r: Vec<Id>)
        requires
            self@.len() > 0,
        ensures
            r@ == roots_of(self@),
    {
        let last = &self.nodes[self.nodes.len() - 1];
        assert(last.node() == self@.last());
        if last.is_bus() {
            last.children()
        } else {
            let r: Vec<Id> = vec![self.nodes.len() - 1];
            assert(r@ =~= roots_of(self@));
            r
        }
    }

    /// The same expression again.
    pub fn copy(&self) -> (r: RecExpr<L>)
        ensures
            r@ == self@,
    {
        proof {
            use_type_invariant(self);
        }
        let mut nodes: Vec<L> = Vec::new();
        for i in 0..self.nodes.len()
            invariant
                nodes@.len() == i,
                forall|j: int| 0 <= j < i ==> (#[trigger] nodes@[j]).node() == self.nodes@[j].node(),
        {
            nodes.push(self.nodes[i].copy());
        }
        assert(nodes@.map_values(|l: L| l.node()) =~= self@);
        RecExpr { nodes }
    }

    /// The expression as text, if it has no more nodes than numbers of 32
    /// bits tell apart.
    pub fn to_string(&self) -> (r: String)
        ensures
            self@.len() <= 0x1_0000_0000 ==> r@ == sexpr_text(written::<L>(self@)),
    {
        proof {
            use_type_invariant(self);
        }
        let mut nodes: Vec<(String, Vec<Id>)> = Vec::new();
        for i in 0..self.nodes.len()
            invariant
                nodes@.len() == i,
                forall|j: int|
                    0 <= j < i ==> (#[trigger] nodes@[j]).0@ == L::op_text(self@[j].op)
                        && nodes@[j].1@ == self@[j].args,
        {
            let n = &self.nodes[i];
            assert(n.node() == self@[i as int]);
            nodes.push((n.to_text(), n.children()));
        }
        assert(written_views(nodes@) =~= written::<L>(self@));
        assert forall|i: int| 0 <= i < nodes@.len() implies before(
            (#[trigger] nodes@[i]).1@,
            i as nat,
        ) by {
            assert(before(self@[i].args, i as nat));
        }
        write_sexpr(&nodes)
    }
}

/// The nodes of a [`CellLang`] expression that is written as `nodes`.
pub open spec fn read_nodes(nodes: Seq<(Seq<char>, Seq<Id>)>) -> Seq<NodeView> {
    nodes.map_values(|n: (Seq<char>, Seq<Id>)| read_op(n.0, n.1))
}

impl RecExpr<CellLang> {
    /// The expression that `text` is, where it is one.
    pub fn parse(text: &str) -> (r: Option<RecExpr<CellLang>>)
        ensures
            match r {
                Some(expr) => sexpr_nodes(text@) is Some && expr@ == read_nodes(
                    sexpr_nodes(text@)->0,
                ) && expr@.len() > 0,
                None => sexpr_nodes(text@) is None,
            },
    {
        match read_sexpr(text) {
            Some(nodes) => Some(RecExpr::from_written(&nodes)),
            None => None,
        }
    }

    /// The expression of the given operators and children.
    pub fn from_written(nodes: &Vec<(String, Vec<Id>)>) -> (r: RecExpr<CellLang>)
        requires
            forall|i: int| 0 <= i < nodes@.len() ==> before((#[trigger] nodes@[i]).1@, i as nat),
        ensures
            r@ == read_nodes(written_views(nodes@)),
    {
        let mut expr: RecExpr<CellLang> = RecExpr::new();
        for i in 0..nodes.len()
            invariant
                forall|i: int|
                    0 <= i < nodes@.len() ==> before((#[trigger] nodes@[i]).1@, i as nat),
                expr@.len() == i,
                forall|j: int|
                    0 <= j < i ==> #[trigger] expr@[j] == read_op(nodes@[j].0@, nodes@[j].1@),
        {
            let ids = nodes[i].1.clone();
            assert(ids@ =~= nodes@[i as int].1@);
            let node = CellLang::from_op(nodes[i].0.as_str(), ids);
            assert(before(nodes@[i as int].1@, i as nat));
            let _ = expr.add(node);
        }
        assert(expr@ =~= read_nodes(written_views(nodes@)));
        expr
    }
}

/// Whether a node of the standard cell language is written like no other: a
/// leaf is not called like a constant, and a cell has children and is not
/// called like an operator of as many.
pub open spec fn written_apart(node: NodeView) -> bool {
    match node.op {
        Op::Var(sym) => sym != "true"@ && sym != "false"@,
        Op::Bus => node.args.len() > 0,
        Op::Cell(name) => {
            &&& node.args.len() > 0
            &&& name != "BUS"@
            &&& !(node.args.len() == 2 && (name == "AND"@ || name == "OR"@))
            &&& !(node.args.len() == 1 && name == "INV"@)
        },
        _ => true,
    }
}

/// A node of the standard cell language is read back from its operator and
/// its children.
pub proof fn law_nodes_read_back(l: CellLang)
    requires
        written_apart(l.node()),
    ensures
        read_op(CellLang::op_text(l.node().op), l.node().args) == l.node(),
{
    reveal_strlit("true");
    reveal_strlit("false");
    reveal_strlit("AND");
    reveal_strlit("OR");
    reveal_strlit("INV");
    reveal_strlit("BUS");
    assert("true"@.len() == 4 && "false"@.len() == 5 && "AND"@.len() == 3 && "OR"@.len() == 2);
    assert("INV"@[0] == 'I' && "BUS"@[0] == 'B' && "AND"@[0] == 'A');
    let node = l.node();
    assert(read_op(CellLang::op_text(node.op), node.args).args =~= node.args);
}

/// Operators of the lookup table language have texts that tell them apart.
pub proof fn law_operators_tell_apart(a: LutLang, b: LutLang)
    requires
        a.node().args.len() > 0,
        b.node().args.len() > 0,
        LutLang::op_text(a.node().op) == LutLang::op_text(b.node().op),
    ensures
        a.node().op == b.node().op,
{
    reveal_strlit("AND");
    reveal_strlit("NOR");
    reveal_strlit("XOR");
    reveal_strlit("MUX");
    reveal_strlit("NOT");
    reveal_strlit("REG");
    reveal_strlit("LUT");
    reveal_strlit("BUS");
    let x = LutLang::op_text(a.node().op);
    let y = LutLang::op_text(b.node().op);
    assert("AND"@[0] == 'A' && "XOR"@[0] == 'X' && "MUX"@[0] == 'M' && "REG"@[0] == 'R' && "LUT"@[0]
        == 'L' && "BUS"@[0] == 'B');
    assert("NOR"@[0] == 'N' && "NOR"@[2] == 'R' && "NOT"@[0] == 'N' && "NOT"@[2] == 'T');
    assert(x[0] == y[0] && x[2] == y[2]);
}

/// What is read is written again with the same operator and the same children.
pub proof fn law_operators_write_back(op: Seq<char>, ids: Seq<Id>)
    ensures
        CellLang::op_text(read_op(op, ids).op) == op,
        read_op(op, ids).args == ids,
{
    assert(read_op(op, ids).args =~= ids);
}

} // verus!
