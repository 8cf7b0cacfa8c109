//! The token types on both sides of the conversion, and what an operator has to offer.

use vstd::prelude::*;

verus! {

/// An input token of an expression in human-readable ("infix") order.
///
/// There is no arm for unary operators: a caller folds them into an
/// [`Operand`](InfixToken::Operand) beforehand.
#[derive(Debug, PartialEq, Eq)]
pub enum InfixToken<Operand, BinaryOp> {
    /// A value to operate on: a scalar, a list, a function call. It is never looked into.
    Operand(Operand),
    /// A binary operator, such as an addition of two values.
    BinaryOp(BinaryOp),
    /// The start of a group: a left parenthesis in ordinary arithmetic.
    GroupStart,
    /// The end of a group: a right parenthesis in ordinary arithmetic.
    GroupEnd,
}

/// An output token.
///
/// Postfix order needs no group markers, since each operator applies to the
/// values on top of the evaluation stack, so only two arms are left.
#[derive(Debug, PartialEq, Eq)]
pub enum PostfixToken<Operand, BinaryOp> {
    /// A value to operate on.
    Operand(Operand),
    /// A binary operator.
    BinaryOp(BinaryOp),
}

/// What a type must offer to serve as the `BinaryOp` of a token.
///
/// Nothing in this crate implements the trait: each caller brings its own
/// operators. What is proved of the conversion holds for an implementation
/// whose [`precedence`](BinaryOperator::precedence) keeps the contract below,
/// which is for the implementor to see to.
pub trait BinaryOperator {
    /// The precedence of the operator as the contracts speak of it: the value
    /// that every call of [`precedence`](BinaryOperator::precedence) on it
    /// returns. In code that is compiled and not verified this is an ordinary
    /// method, and returns what `precedence` returns.
    spec fn precedence_spec(&self) -> u8;

    /// How tightly the operator binds its two operands. An operator with a
    /// higher value is applied first: in ordinary arithmetic multiplication
    /// stands above addition. Only the order among the values matters.
    ///
    /// The value depends on the operator alone: asked twice about the same
    /// operator, an implementation answers the same.
    fn precedence(&self) -> (level: u8)
        ensures
            level == self.precedence_spec(),
    ;
}

/// An entry of the stack of pending work: an operator that waits for its right
/// operand, or the start of a group that is still open.
pub(crate) enum StackToken<BinaryOp> {
    BinaryOp(BinaryOp),
    GroupStart,
}

impl<BinaryOp> StackToken<BinaryOp> {
    /// The entry as the model sees it: `Some` operator, or `None` for a group start.
    pub(crate) open spec fn view(self) -> Option<BinaryOp> {
        match self {
            StackToken::BinaryOp(op) => Some(op),
            StackToken::GroupStart => None,
        }
    }

    /// Hands a pending operator over to the output. A group start never gets
    /// here: it leaves the stack when its group ends.
    pub(crate) fn into_postfix<Operand>(self) -> (token: PostfixToken<Operand, BinaryOp>)
        requires
            self is BinaryOp,
        ensures
            token == PostfixToken::<Operand, BinaryOp>::BinaryOp(self->BinaryOp_0),
    {
        match self {
            StackToken::BinaryOp(op) => PostfixToken::BinaryOp(op),
            StackToken::GroupStart => unreached(),
        }
    }
}

} // verus!
