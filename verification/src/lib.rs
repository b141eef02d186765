//! A minimal untyped lambda calculus with named top-level aliases.
//!
//! Source text is parsed into a syntax tree ([`lexer`], by the rules of
//! [`grammar`]), aliases are inlined and every binder is given an identity
//! of its own ([`token`], with the tables of [`registry`]), and a function is
//! applied to an argument by one step of substitution ([`eval`]). The trees
//! themselves, and their text, are in [`types`].
//!
//! Three modules hold what is proved of these beyond the contracts of the
//! functions: [`parsed`] on the shape of what the parser gives, [`hygiene`]
//! on the identities of binders, and [`roundtrip`] on reading back what was
//! displayed.

pub mod eval;
pub mod grammar;
pub mod hygiene;
pub mod lexer;
pub mod parsed;
pub mod registry;
pub mod roundtrip;
pub mod token;
pub mod types;
