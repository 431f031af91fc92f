//! An ownership and borrow validator for straight-line, block-structured
//! programs.
//!
//! A program is a sequence of [`model::Operation`]s: bindings, moves, borrows,
//! reads and nested lexical scopes. The [`validator::Validator`] consumes the
//! sequence in order and reports every violation of the ownership and aliasing
//! rules as a [`model::Diagnostic`], without executing anything.

pub mod borrow;
pub mod invariants;
pub mod laws;
pub mod lessons;
pub mod model;
pub mod ownership;
pub mod scope;
pub mod state;
pub mod validator;
pub mod words;
