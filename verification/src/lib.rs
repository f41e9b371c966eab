//! An arithmetic expression evaluator front end.
//!
//! The pipeline turns a raw expression string into an evaluation tree in
//! four verified stages: tokenization driven by an operator registry,
//! unary-minus normalization, Shunting-Yard infix-to-postfix conversion,
//! and a postfix pass that builds the tree.  Applying the floating-point
//! arithmetic to the tree is left to the caller, so every stage here works
//! on plain tokens and is specified exactly.

pub mod expr;
pub mod laws;
pub mod normalize;
pub mod operator;
pub mod pipeline;
pub mod shunting;
pub mod token;
pub mod tokenizer;
