//! The pointer-scan pipeline: records, the queue that stores them, the
//! scanner that finds them and the builder that links them into chains.

pub mod chain_builder;
pub mod scanner;
pub mod storage;
pub mod types;
