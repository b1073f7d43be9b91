pub mod types;
pub mod parser;
pub mod bindings;
pub mod matcher;
pub mod functions;
pub mod expr;
pub mod optimizer;
pub mod rules;
pub mod magic_sets;
pub mod evaluator;
pub mod window;
pub mod executor;
