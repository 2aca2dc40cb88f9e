//! Core of a multi-domain simulation engine: a reactive dependency-graph
//! value engine with incremental recomputation, independently ticking
//! domain loops with queued cross-thread mutation events, and handshake
//! links that coordinate race-free data transfer between two loops.

pub mod ops;
pub mod graph;
pub mod grid;
pub mod populate;
pub mod sched;
