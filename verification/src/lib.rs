//! Mapping between gate-level netlists and the expressions that a
//! rewriting engine works on.
//!
//! A [`netlist::Netlist`] holds gates and the nets between them. A
//! [`mapper::LogicMapper`] reads the logic behind some of its nets into an
//! expression, and [`mapping::LogicMapping::rewrite`] puts an equivalent
//! expression back in place of that logic.

pub mod again;
pub mod cell;
pub mod error;
pub mod func;
pub mod ident;
pub mod lang;
pub mod leaves;
pub mod level;
pub mod mapper;
pub mod mapping;
pub mod meaning;
pub mod netlist;
pub mod order;
pub mod param;
pub mod part;
pub mod places;
pub mod primitive;
pub mod reading;
pub mod request;
pub mod restored;
pub mod rewrite;
pub mod roundtrip;
pub mod text;
pub mod values;
