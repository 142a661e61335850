//! The expression model: numeric capability, tokens, postfix expressions
//! and their infix rendering.

pub mod expr;
pub mod number;
