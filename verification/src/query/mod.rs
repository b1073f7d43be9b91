pub mod datalog;
pub mod parser;
pub mod executor;
