//! Congruence closure over terms with structural successors.
//!
//! The engine maintains an equivalence relation over a growing set of
//! interned terms and keeps it closed under congruence: whenever two
//! shape-equal terms have pairwise-equated immediate sub-terms, the terms
//! themselves are equated.

pub mod union_find;

pub mod cc;

pub mod term;
