//! The conversion as mathematics: what a token sequence turns into, stated over `Seq`.
//!
//! A scan reads the tokens from left to right and keeps two sequences: the
//! output written so far, and the pending entries, which are operators that
//! still wait for their right operand and the starts of groups that are still
//! open. A pending entry is `Some(op)` for an operator and `None` for a group
//! start; the last entry is the newest.

use vstd::prelude::*;
use crate::algorithm::ConvertError;
use crate::tokens::{BinaryOperator, InfixToken, PostfixToken};

verus! {

/// The state of a scan after some prefix of the input.
pub ghost struct Scan<Operand, BinaryOp> {
    /// The postfix tokens written so far.
    pub output: Seq<PostfixToken<Operand, BinaryOp>>,
    /// Operators and open groups that wait, oldest first.
    pub pending: Seq<Option<BinaryOp>>,
}

/// How many tokens of `tokens` start a group.
pub open spec fn group_starts<Operand, BinaryOp>(
    tokens: Seq<InfixToken<Operand, BinaryOp>>,
) -> nat {
    tokens.filter(|t: InfixToken<Operand, BinaryOp>| t is GroupStart).len()
}

/// How many tokens of `tokens` end a group.
pub open spec fn group_ends<Operand, BinaryOp>(tokens: Seq<InfixToken<Operand, BinaryOp>>) -> nat {
    tokens.filter(|t: InfixToken<Operand, BinaryOp>| t is GroupEnd).len()
}

/// How many tokens of `tokens` are operands.
pub open spec fn operand_count<Operand, BinaryOp>(
    tokens: Seq<InfixToken<Operand, BinaryOp>>,
) -> nat {
    tokens.filter(|t: InfixToken<Operand, BinaryOp>| t is Operand).len()
}

/// How many tokens of `tokens` are binary operators.
pub open spec fn operator_count<Operand, BinaryOp>(
    tokens: Seq<InfixToken<Operand, BinaryOp>>,
) -> nat {
    tokens.filter(|t: InfixToken<Operand, BinaryOp>| t is BinaryOp).len()
}

/// The signed group depth of `tokens`: group starts minus group ends.
/// Positive where groups are left open, negative where more are closed than opened.
pub open spec fn group_depth<Operand, BinaryOp>(tokens: Seq<InfixToken<Operand, BinaryOp>>) -> int {
    group_starts(tokens) - group_ends(tokens)
}

/// No group ends in `tokens` before it has started: the depth of no prefix is negative.
pub open spec fn closes_only_open_groups<Operand, BinaryOp>(
    tokens: Seq<InfixToken<Operand, BinaryOp>>,
) -> bool {
    forall|k: int| 0 <= k <= tokens.len() ==> #[trigger] group_depth(tokens.take(k)) >= 0
}

/// The groups of `tokens` are properly nested: each end closes a group that is
/// open, and none is left open.
pub open spec fn properly_nested<Operand, BinaryOp>(
    tokens: Seq<InfixToken<Operand, BinaryOp>>,
) -> bool {
    group_depth(tokens) == 0 && closes_only_open_groups(tokens)
}

/// The depth after every prefix of `tokens` is one that a 32-bit signed counter holds.
pub open spec fn depth_fits<Operand, BinaryOp>(tokens: Seq<InfixToken<Operand, BinaryOp>>) -> bool {
    forall|k: int|
        0 <= k <= tokens.len() ==> i32::MIN <= #[trigger] group_depth(tokens.take(k)) <= i32::MAX
}

/// The inputs that the conversion takes. The depth is counted in 32 bits, so
/// it has to fit all along; and where as many groups end as start, they are
/// properly nested. Where the counts differ nothing more is asked: such input
/// is taken and reported.
///
/// What is left out is input such as `) (`: its counts are equal, so it is
/// not reported, yet a group start is left that no end will meet, and a group
/// start has no place in the output.
pub open spec fn convertible<Operand, BinaryOp>(tokens: Seq<InfixToken<Operand, BinaryOp>>) -> bool {
    depth_fits(tokens) && (group_depth(tokens) == 0 ==> closes_only_open_groups(tokens))
}

/// The operands of an infix sequence, in order.
pub open spec fn infix_operands<Operand, BinaryOp>(
    tokens: Seq<InfixToken<Operand, BinaryOp>>,
) -> Seq<Operand> {
    tokens.filter(|t: InfixToken<Operand, BinaryOp>| t is Operand).map_values(
        |t: InfixToken<Operand, BinaryOp>| t->Operand_0,
    )
}

/// The operands of a postfix sequence, in order.
pub open spec fn postfix_operands<Operand, BinaryOp>(
    tokens: Seq<PostfixToken<Operand, BinaryOp>>,
) -> Seq<Operand> {
    tokens.filter(|t: PostfixToken<Operand, BinaryOp>| t is Operand).map_values(
        |t: PostfixToken<Operand, BinaryOp>| t->Operand_0,
    )
}

/// How many of the pending entries are group starts: the groups that are open.
pub open spec fn open_groups<BinaryOp>(pending: Seq<Option<BinaryOp>>) -> nat {
    pending.filter(|entry: Option<BinaryOp>| entry is None).len()
}

/// The scan before any token.
pub open spec fn start<Operand, BinaryOp>() -> Scan<Operand, BinaryOp> {
    Scan { output: Seq::empty(), pending: Seq::empty() }
}

/// An operator of precedence `level` arrives. Every operator on top of the
/// pending entries that binds at least as tightly goes to the output first,
/// newest first: "at least", so that of two operators of one precedence the
/// left one is applied first. A group start stops this.
pub open spec fn yield_to<Operand, BinaryOp: BinaryOperator>(
    s: Scan<Operand, BinaryOp>,
    level: u8,
) -> Scan<Operand, BinaryOp>
    decreases s.pending.len(),
{
    if s.pending.len() > 0 && s.pending.last() is Some
        && s.pending.last()->Some_0.precedence_spec() >= level {
        yield_to(
            Scan {
                output: s.output.push(PostfixToken::BinaryOp(s.pending.last()->Some_0)),
                pending: s.pending.drop_last(),
            },
            level,
        )
    } else {
        s
    }
}

/// A group ends. The pending operators above the newest group start go to the
/// output, newest first, and that group start is dropped. Where no group is
/// open, all pending operators go to the output.
pub open spec fn close_group<Operand, BinaryOp>(s: Scan<Operand, BinaryOp>) -> Scan<
    Operand,
    BinaryOp,
>
    decreases s.pending.len(),
{
    if s.pending.len() == 0 {
        s
    } else {
        match s.pending.last() {
            Some(op) => close_group(
                Scan {
                    output: s.output.push(PostfixToken::BinaryOp(op)),
                    pending: s.pending.drop_last(),
                },
            ),
            None => Scan { output: s.output, pending: s.pending.drop_last() },
        }
    }
}

/// The scan after one more token.
pub open spec fn step<Operand, BinaryOp: BinaryOperator>(
    s: Scan<Operand, BinaryOp>,
    token: InfixToken<Operand, BinaryOp>,
) -> Scan<Operand, BinaryOp> {
    match token {
        InfixToken::Operand(x) => Scan {
            output: s.output.push(PostfixToken::Operand(x)),
            pending: s.pending,
        },
        InfixToken::BinaryOp(op) => {
            let t = yield_to(s, op.precedence_spec());
            Scan { output: t.output, pending: t.pending.push(Some(op)) }
        },
        InfixToken::GroupStart => Scan { output: s.output, pending: s.pending.push(None) },
        InfixToken::GroupEnd => close_group(s),
    }
}

/// The scan after all of `tokens`.
pub open spec fn scan<Operand, BinaryOp: BinaryOperator>(
    tokens: Seq<InfixToken<Operand, BinaryOp>>,
) -> Scan<Operand, BinaryOp>
    decreases tokens.len(),
{
    if tokens.len() == 0 {
        start()
    } else {
        step(scan(tokens.drop_last()), tokens.last())
    }
}

/// The output once the input has ended: what was written, then the pending
/// operators, newest first. A group start among them adds nothing.
pub open spec fn flush<Operand, BinaryOp>(s: Scan<Operand, BinaryOp>) -> Seq<
    PostfixToken<Operand, BinaryOp>,
>
    decreases s.pending.len(),
{
    if s.pending.len() == 0 {
        s.output
    } else {
        let rest = s.pending.drop_last();
        match s.pending.last() {
            Some(op) => flush(
                Scan { output: s.output.push(PostfixToken::BinaryOp(op)), pending: rest },
            ),
            None => flush(Scan { output: s.output, pending: rest }),
        }
    }
}

/// What `tokens` convert to: their postfix order where as many groups end as
/// start, and else the signed depth as an error.
pub open spec fn postfix_of<Operand, BinaryOp: BinaryOperator>(
    tokens: Seq<InfixToken<Operand, BinaryOp>>,
) -> Result<Seq<PostfixToken<Operand, BinaryOp>>, ConvertError> {
    if group_depth(tokens) == 0 {
        Ok(flush(scan(tokens)))
    } else {
        Err(ConvertError::UnbalancedGroups(group_depth(tokens) as i32))
    }
}

} // verus!
