//! Reorders infix tokens into postfix (reverse Polish) order.
//!
//! The crate neither parses text nor evaluates expressions: it takes tokens that
//! are already split into operands, binary operators and group markers, and
//! returns the operands and operators in the order in which a stack machine
//! applies them.
//!
//! [`convert`] is the one operation. Its contract is written over the model in
//! [`model`]; [`laws`] holds what follows from that model for every input, and
//! [`lemmas`] the facts that the proofs rest on.

pub mod algorithm;
pub mod laws;
pub mod lemmas;
pub mod model;
pub mod tokens;

pub use algorithm::{can_convert, convert, ConvertError};
pub use tokens::{BinaryOperator, InfixToken, PostfixToken};
