//! The conversion itself: one pass over the input with a stack of pending entries.

use vstd::prelude::*;
use crate::laws::{law_operand_order, law_output_length, law_unequal_counts_are_reported};
use crate::lemmas::{
    lemma_counts_push, lemma_depth_within_length, lemma_pending_push, lemma_scan_open_groups,
};
use crate::model::{
    close_group, convertible, depth_fits, flush, group_depth, group_ends, group_starts,
    infix_operands, open_groups, operand_count, operator_count, postfix_of, postfix_operands,
    scan, yield_to, Scan,
};
use crate::tokens::{BinaryOperator, InfixToken, PostfixToken, StackToken};

verus! {

/// An error of the conversion from infix to postfix order.
#[derive(Debug, PartialEq, Eq)]
pub enum ConvertError {
    /// The numbers of [`GroupStart`](InfixToken::GroupStart) and
    /// [`GroupEnd`](InfixToken::GroupEnd) tokens differ. The value is the
    /// number of starts minus the number of ends.
    UnbalancedGroups(i32),
}

impl ConvertError {
    /// The error in words, for a person to read. The depth is not part of the text.
    pub fn to_string(&self) -> (text: String)
        ensures
            text@ == "Unbalanced groups"@,
    {
        match self {
            ConvertError::UnbalancedGroups(_) => "Unbalanced groups".to_owned(),
        }
    }
}

/// Whether the pending entry `last` leaves the stack before `op` is pushed:
/// it does where it is an operator that binds at least as tightly as `op`.
fn stack_to_result<BinaryOp: BinaryOperator>(last: &StackToken<BinaryOp>, op: &BinaryOp) -> (leaves:
    bool)
    ensures
        leaves == (last@ is Some && last@->Some_0.precedence_spec() >= op.precedence_spec()),
{
    match last {
        StackToken::BinaryOp(last_op) => last_op.precedence() >= op.precedence(),
        StackToken::GroupStart => false,
    }
}

/// The stack of pending entries as the model sees it.
spec fn pending_of<BinaryOp>(stack: Seq<StackToken<BinaryOp>>) -> Seq<Option<BinaryOp>> {
    stack.map_values(|entry: StackToken<BinaryOp>| entry@)
}

/// Converts infix tokens to postfix tokens.
///
/// Operands keep their order. An operator moves behind its operands: it waits
/// on a stack until an operator that binds no tighter arrives, or its group or
/// the input ends. Group markers leave no trace in the output.
///
/// The one thing checked is that as many groups end as start. Whether each
/// operator stands between two operands is not looked at: such an input is
/// reordered all the same.
///
/// The result is [`postfix_of`] the tokens, whose operators stand as
/// [`scan`] and [`flush`] place them.
///
/// # Input
///
/// The tokens are [`convertible`]: where as many groups end as start, none
/// ends before it has started; and the depth fits its 32-bit counter, as it
/// does in any input of at most `i32::MAX` tokens. [`can_convert`] tells.
///
/// # Errors
///
/// [`ConvertError::UnbalancedGroups`] if and only if the numbers of group
/// starts and group ends differ, with the starts minus the ends.
pub fn convert<Operand, BinaryOp: BinaryOperator>(
    tokens: Vec<InfixToken<Operand, BinaryOp>>,
) -> (converted: Result<Vec<PostfixToken<Operand, BinaryOp>>, ConvertError>)
    requires
        convertible(tokens@),
    ensures
        match converted {
            Ok(postfix) => postfix_of(tokens@) == Ok::<_, ConvertError>(postfix@),
            Err(error) => postfix_of(tokens@) == Err::<Seq<PostfixToken<Operand, BinaryOp>>, _>(
                error,
            ),
        },
        converted is Ok <==> group_starts(tokens@) == group_ends(tokens@),
        converted matches Err(ConvertError::UnbalancedGroups(depth)) ==> depth == group_starts(
            tokens@,
        ) - group_ends(tokens@),
        converted matches Ok(postfix) ==> {
            &&& postfix@.len() == operand_count(tokens@) + operator_count(tokens@)
            &&& postfix_operands(postfix@) == infix_operands(tokens@)
        },
{
    let ghost all = tokens@;
    proof {
        law_unequal_counts_are_reported(all);
        if postfix_of(all) is Ok {
            law_output_length(all);
            law_operand_order(all);
        }
    }
    let mut result: Vec<PostfixToken<Operand, BinaryOp>> = Vec::new();
    let mut stack: Vec<StackToken<BinaryOp>> = Vec::new();
    let mut group_depth: i32 = 0;

    proof {
        assert(all.take(0) =~= Seq::empty());
        lemma_depth_within_length(all.take(0));
        assert(pending_of(stack@) =~= Seq::empty());
    }
    for token in it: tokens.into_iter()
        invariant
            it.seq() == all,
            depth_fits(all),
            group_depth == self::group_depth(all.take(it.index() as int)),
            scan(all.take(it.index() as int)) == (Scan {
                output: result@,
                pending: pending_of(stack@),
            }),
    {
        let ghost seen = all.take(it.index() as int);
        let ghost before = Scan { output: result@, pending: pending_of(stack@) };
        proof {
            let next = all.take(it.index() + 1);
            assert(next.drop_last() =~= seen);
            assert(next =~= seen.push(token));
            lemma_counts_push(seen, token);
            assert(i32::MIN <= self::group_depth(next) <= i32::MAX);
        }
        match token {
            InfixToken::Operand(name) => {
                result.push(PostfixToken::Operand(name));
            },
            InfixToken::BinaryOp(op) => {
                while stack.len() > 0 && stack_to_result(&stack[stack.len() - 1], &op)
                    invariant
                        yield_to(
                            Scan { output: result@, pending: pending_of(stack@) },
                            op.precedence_spec(),
                        ) == yield_to(before, op.precedence_spec()),
                    decreases stack.len(),
                {
                    let ghost above = pending_of(stack@);
                    let top = stack.pop().unwrap();
                    result.push(top.into_postfix());
                    assert(pending_of(stack@) =~= above.drop_last());
                }
                let ghost below = pending_of(stack@);
                stack.push(StackToken::BinaryOp(op));
                assert(pending_of(stack@) =~= below.push(Some(op)));
            },
            InfixToken::GroupStart => {
                stack.push(StackToken::GroupStart);
                group_depth += 1;
                assert(pending_of(stack@) =~= before.pending.push(None));
            },
            InfixToken::GroupEnd => {
                loop
                    invariant_except_break
                        close_group(Scan { output: result@, pending: pending_of(stack@) })
                            == close_group(before),
                    ensures
                        (Scan { output: result@, pending: pending_of(stack@) }) == close_group(
                            before,
                        ),
                    decreases stack.len(),
                {
                    let ghost above = pending_of(stack@);
                    match stack.pop() {
                        Some(StackToken::BinaryOp(op)) => {
                            result.push(PostfixToken::BinaryOp(op));
                            assert(pending_of(stack@) =~= above.drop_last());
                        },
                        Some(StackToken::GroupStart) => {
                            assert(pending_of(stack@) =~= above.drop_last());
                            break ;
                        },
                        None => {
                            assert(pending_of(stack@) =~= above);
                            break ;
                        },
                    }
                }
                group_depth -= 1;
            },
        }
    }

    proof {
        assert(all.take(all.len() as int) =~= all);
    }
    if group_depth == 0 {
        proof {
            lemma_scan_open_groups(all);
        }
        let ghost end = Scan { output: result@, pending: pending_of(stack@) };
        while stack.len() > 0
            invariant
                open_groups(pending_of(stack@)) == 0,
                flush(Scan { output: result@, pending: pending_of(stack@) }) == flush(end),
            decreases stack.len(),
        {
            let ghost above = pending_of(stack@);
            proof {
                lemma_pending_push(above.drop_last(), above.last());
                assert(above =~= above.drop_last().push(above.last()));
            }
            let top = stack.pop().unwrap();
            result.push(top.into_postfix());
            assert(pending_of(stack@) =~= above.drop_last());
        }
        Ok(result)
    } else {
        Err(ConvertError::UnbalancedGroups(group_depth))
    }
}

/// Whether [`convert`] takes `tokens`: whether they are
/// [`convertible`](crate::model::convertible). A caller that cannot tell in
/// advance asks here first.
pub fn can_convert<Operand, BinaryOp>(tokens: &Vec<InfixToken<Operand, BinaryOp>>) -> (taken: bool)
    ensures
        taken == convertible(tokens@),
{
    let mut depth: i32 = 0;
    let mut closed_unopened = false;
    let mut i: usize = 0;
    let ghost unopened: int = 0;
    proof {
        assert(tokens@.take(0) =~= Seq::empty());
        lemma_depth_within_length(tokens@.take(0));
    }
    while i < tokens.len()
        invariant
            i <= tokens.len(),
            depth == group_depth(tokens@.take(i as int)),
            forall|k: int|
                0 <= k <= i ==> i32::MIN <= #[trigger] group_depth(tokens@.take(k)) <= i32::MAX,
            closed_unopened ==> 0 <= unopened <= i && group_depth(tokens@.take(unopened)) < 0,
            !closed_unopened ==> forall|k: int|
                0 <= k <= i ==> #[trigger] group_depth(tokens@.take(k)) >= 0,
        decreases tokens.len() - i,
    {
        proof {
            let seen = tokens@.take(i as int);
            assert(tokens@.take(i + 1) =~= seen.push(tokens@[i as int]));
            lemma_counts_push(seen, tokens@[i as int]);
            if !closed_unopened {
                unopened = i + 1;
            }
        }
        match &tokens[i] {
            InfixToken::GroupStart => {
                if depth == i32::MAX {
                    assert(group_depth(tokens@.take(i + 1)) > i32::MAX);
                    return false;
                }
                depth += 1;
            },
            InfixToken::GroupEnd => {
                if depth == i32::MIN {
                    assert(group_depth(tokens@.take(i + 1)) < i32::MIN);
                    return false;
                }
                depth -= 1;
                if depth < 0 {
                    closed_unopened = true;
                }
            },
            _ => {},
        }
        i += 1;
    }
    proof {
        assert(tokens@.take(tokens@.len() as int) =~= tokens@);
    }
    depth != 0 || !closed_unopened
}

} // verus!
