//! Conversion of flattened programs into rank-1 constraint systems.
//!
//! `field` holds the prime field the constraints live in, `absy` the abstract
//! syntax of flattened programs, and `r1cs` the constraint generation itself.

pub mod absy;
pub mod field;
pub mod r1cs;
