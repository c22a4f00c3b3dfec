//! A symbolic-algebra compiler for numeric kernels: immutable, hash-consed
//! expression trees over three cooperating domains (plain scalars, per-grid-point
//! real-space fields, and their Fourier-space counterparts), canonicalized through
//! a commutative-monoid coefficient map and lowered to deterministic C-like text.

pub mod abelian;
pub mod expr;
pub mod algebra;
pub mod render;
pub mod search;
pub mod stmt;
pub mod laws;
