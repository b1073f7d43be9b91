//! A small bi-temporal graph database core: values and facts, an EDN/Datalog
//! parser, a pattern matcher, a Datalog executor with rules, and a simple
//! property-graph command language.

pub mod graph;
pub mod query;
pub mod repl;
pub mod text;
pub mod ids;
pub mod keyed;
pub mod order;
pub mod temporal;
