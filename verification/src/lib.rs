//! Stochastic discovery of closed-form arithmetic expressions.
//!
//! The library builds random postfix token sequences under a per-token
//! usage budget, evaluates them with a stack machine over an abstract
//! numeric domain, renders them as plain infix or LaTeX text, and drives
//! a repeated-sampling search for an expression whose value approximates
//! a caller-supplied objective.

pub mod model;
pub mod search;
