//! Hindley-Milner type inference (Algorithm J) for an untyped lambda
//! calculus with `let`-polymorphism.
//!
//! The type algebra lives in [`types`], typing contexts in [`ctxt`], the
//! alias map built by unification in [`alias`], alpha-equivalence of
//! schemes in [`poly_eq`], expression trees in [`expr`], the inference
//! driver in [`algorithm_j`], and the surface-syntax tokenizer and
//! parser in [`token`] and [`parse`].

pub mod algorithm_j;
pub mod alias;
pub mod ctxt;
pub mod expr;
pub mod parse;
pub mod poly_eq;
pub mod token;
pub mod types;
pub mod typing;
