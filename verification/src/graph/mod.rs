pub mod types;
pub mod storage;
