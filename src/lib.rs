//! Packed threshold secret sharing over prime fields.
//!
//! Secrets sit on the powers of a root of unity of order `2^a`, shares on the
//! powers of a root of unity of order `3^b`; fast transforms move values
//! between the two domains and Newton interpolation reconstructs from any
//! large enough subset of shares.

pub mod field;
pub mod poly;
pub mod transform;
pub mod newton;
pub mod packed;
pub mod paramgen;
