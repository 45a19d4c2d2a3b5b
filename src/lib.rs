//! Evaluation of arithmetic expressions written as text: bracket check,
//! tokenizer, conversion to postfix order, and the postfix stack machine
//! that turns the postfix tokens into an expression tree.

pub mod model;
pub mod text;
pub mod expr;
pub mod rpn;
pub mod laws;
pub mod nested;

pub use expr::Expr;
pub use rpn::Rpn;
