//! A register-based set-algebra query engine over wiki page titles.
//!
//! A query is a linear, single-assignment sequence of instructions over
//! registers holding sets of titles.  The crate provides the instruction
//! vocabulary, the constraint lattice annotating instructions, an optimizer
//! (toggle-pair cancellation, empty-namespace propagation, no-op elision),
//! and an executor that interprets a query against a wiki's query API.
//! The network itself is driven by a caller; the executor is a step machine
//! that emits the requests and consumes the responses.

pub mod api;
pub mod constraint;
pub mod digest;
pub mod ir;
pub mod jsonmodel;
pub mod laws;
pub mod nsset;
pub mod optim;
pub mod pagetext;
pub mod solve;
pub mod strutil;
pub mod titleset;
