//! Bit-width-bounded unsigned integers stored as little-endian 64-bit limbs.
//!
//! An [`ApUint`] carries a declared bit width and keeps its limb storage in a
//! canonical (normalized) form: no limb beyond what the width allows, excess
//! high bits of the top limb masked off, and no most-significant zero limb.
//! Equality, ordering and hashing are defined over that canonical form, so
//! they are cheap and consistent. Addition wraps modulo two to the declared
//! width. A value can be projected onto the unbounded [`BigUint`]
//! representation for radix string rendering.

pub mod apuint;
pub mod biguint;
pub mod laws;
pub mod limbs;

pub use apuint::ApUint;
pub use apuint::ApUintView;
pub use biguint::BigUint;
