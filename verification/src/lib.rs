//! A step circuit that checks the quality of transport orders.
//!
//! One step reads one order in its flat form, adds the constraints of its checks to a rank-1
//! constraint system over the scalar field of BN254, and hands on a state of nine field
//! elements: a verdict on all orders so far, a fingerprint of all of their fields, and what the
//! next step needs. A folding scheme repeats the step over any number of orders, with memory
//! for one.
//!
//! The modules, from the bottom up:
//!
//! - [`field`]: elements of the scalar field.
//! - [`r1cs`]: constraint systems, their variables and the operations on them, and what is
//!   trusted of the crates that provide them.
//! - [`gadgets`]: comparisons built from those operations.
//! - [`otm`] and [`orders`]: transport orders, their flat form, and a data set of them.
//! - [`quality`]: what a step computes.
//! - [`circuit`]: the step itself.
//! - [`fold`]: what surrounds the steps of a fold.
//! - [`laws`]: what holds of steps and folds as a whole.
//! - [`plain`]: the same in plain terms, by name and number.

pub mod circuit;
pub mod field;
pub mod fold;
pub mod gadgets;
pub mod laws;
pub mod orders;
pub mod otm;
pub mod plain;
pub mod quality;
pub mod r1cs;
