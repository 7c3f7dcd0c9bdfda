//! Evaluation, read-back and bidirectional type checking for a small typed
//! lambda calculus with universes and let-bindings.
//!
//! An expression ([`Expr`]) is evaluated under an environment ([`Env`]) to a
//! value ([`Value`]); a value is read back, with a set of names in scope
//! ([`Scope`]), as an expression in normal form. Types are values. An
//! expression is checked against a type, or its type is inferred, under a
//! context that binds names to types; two types agree where their normal
//! forms are equal up to the names of bound variables.
//!
//! Every function states what it returns over a mathematical model of its
//! arguments: `syntax` and `domain` hold the types and their models, `alpha`,
//! `eval`, `quote` and `check` the operations, and `normal` what evaluation
//! followed by read-back makes of a normal form.

pub mod alpha;
pub mod check;
pub mod domain;
pub mod eval;
pub mod least;
pub mod normal;
pub mod quote;
pub mod scope;
pub mod syntax;

pub use check::ErrorKind;
pub use domain::{Context, Env, Neutral, Type, Value};
pub use scope::{freshen, Scope};
pub use syntax::{Expr, Identifier, Level};
