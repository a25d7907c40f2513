//! The fuzzy value search: a snapshot of every value in a range of memory,
//! narrowed pass by pass to the addresses whose values changed as asked.

pub mod fuzzy_search;
pub mod result_manager;
pub mod types;
