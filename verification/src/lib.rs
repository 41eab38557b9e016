//! Turns one snapshot of a package registry into a ranked, compact binary
//! index: per-package aggregates are built from the snapshot's rows,
//! dependency edges are reduced to popularity counts, library packages are
//! ranked, and the result is written in a length-prefixed little-endian
//! layout that can be read back.

pub mod container;
pub mod fetch;
pub mod ingest;
pub mod package;
pub mod pipeline;
pub mod rank;
pub mod reduce;
pub mod rows;
pub mod sort;
pub mod version;
pub mod wire;
