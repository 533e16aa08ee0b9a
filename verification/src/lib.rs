//! A scalar reverse-mode differentiation engine.
//!
//! Scalars are kept as IEEE-754 single-precision bit patterns. The engine
//! never rounds a number itself: every sum, product, power and hyperbolic
//! tangent is asked of an [`fundamental::Arithmetic`] that the caller supplies.
//! What is proved here is everything around that arithmetic: how nodes are
//! recorded, in which order a backward pass visits them, that a cyclic graph
//! is refused, and which node receives which contribution.
pub mod fundamental;
pub mod nn;
