//! Memory-analysis core: a pointer-scan engine that links static modules to
//! dynamic addresses through chains of pointers, and a fuzzy value search
//! that narrows a set of candidate addresses pass by pass.
//!
//! The functions here compute on plain values. Reading and writing the target
//! process is left to the caller, who hands the bytes in.

pub mod driver;
pub mod driver_manager;
pub mod error;
pub mod memory;
pub mod page_bitmap;
pub mod pointer_scan;
pub mod search;
pub mod seq_facts;
