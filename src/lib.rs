//! Threshold secret sharing over prime fields: Shamir's scheme and
//! Feldman's verifiable variant, with the field arithmetic on unbounded
//! naturals carried out by `num-bigint`.
pub mod field;
pub mod sss;
pub mod uint;
pub mod vss;
