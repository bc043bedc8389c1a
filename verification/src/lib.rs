//! A verified interpreter for a minimal line-oriented command language.
//!
//! The language has three instruction forms, each introduced by a sigil:
//! register assignment (`=[i]"s"`), register print (`#<i>`), and a bounded
//! repeat loop (`<[#[i]>]<n>` or `<[#[i]>]<[n]>`) whose body's one captured
//! output is replayed a fixed number of times.
//!
//! The module [`semantics`] gives the language a mathematical meaning as
//! spec functions over character sequences; [`interp`] holds the executable
//! single-pass parser/executor, proved to return exactly what the semantics
//! prescribe; [`laws`] states and proves the general properties of the
//! language.

pub mod interp;
pub mod laws;
pub mod semantics;
