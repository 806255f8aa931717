//! Tracing of the dynamic allocations of a memory owner.

pub mod metadata;
pub mod excess;
pub mod page;
pub mod pages;
pub mod tables;
