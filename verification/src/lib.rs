//! A minimal type-checking and inference engine for small lambda calculi.
//!
//! The crate has three tightly coupled pieces:
//!
//! * a reversible binding environment ([`context_hashed`] and
//!   [`context_linear`]), offered in two interchangeable backings, that
//!   supports scoped push/restore of a single binding;
//! * an index-addressed node arena for type trees, which lets substitution
//!   skip allocation when a subtree is unchanged (identity is index
//!   equality);
//! * the structural checker for the simply typed lambda calculus
//!   ([`stlc`]), together with the supporting machinery for a
//!   let-polymorphic extension ([`hm`]): fresh type variables,
//!   substitution, instantiation and generalization.

pub mod context_hashed;
pub mod context_linear;
pub mod hm;
pub mod stlc;
