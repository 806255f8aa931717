//! Managing the tables used to allocate memory: inserting and removing
//! pages, and keeping the tracing pages up to date.

pub mod clean;
pub mod map;
pub mod create;
pub mod delete;
pub mod force;
pub mod insert;
pub mod remove;
pub mod space;
pub mod update;
