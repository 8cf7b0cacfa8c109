//! What holds of the conversion for every input.

use vstd::prelude::*;
use crate::algorithm::ConvertError;
use crate::lemmas::{
    lemma_close_flushes_group, lemma_counts_push, lemma_depth_of_parts,
    lemma_depth_within_length, lemma_flush_adds_operators, lemma_no_groups_no_depth,
    lemma_operands_alone_scan, lemma_scan_inside_group, lemma_scan_keeps_tokens,
    lemma_scan_open_groups, lemma_short_input_fits,
};
use crate::model::{
    convertible, depth_fits, flush, group_depth, group_ends, group_starts, infix_operands,
    open_groups, operand_count, operator_count, postfix_of, postfix_operands, properly_nested,
    scan, start, yield_to, Scan,
};
use crate::tokens::{BinaryOperator, InfixToken, PostfixToken};

verus! {

/// Input whose groups are properly nested converts: it is never reported as
/// unbalanced, and no group is left open when it ends. Unless the depth
/// outgrows its counter, it is input that the conversion takes.
pub proof fn law_nested_groups_convert<Operand, BinaryOp: BinaryOperator>(
    tokens: Seq<InfixToken<Operand, BinaryOp>>,
)
    requires
        properly_nested(tokens),
    ensures
        postfix_of(tokens) is Ok,
        open_groups(scan(tokens).pending) == 0,
        depth_fits(tokens) ==> convertible(tokens),
        tokens.len() <= i32::MAX ==> convertible(tokens),
{
    lemma_scan_open_groups(tokens);
    if tokens.len() <= i32::MAX {
        lemma_short_input_fits(tokens);
    }
}

/// Input is reported as unbalanced if and only if its group starts and group
/// ends differ in number. Such input is taken, nested or not, unless the depth
/// outgrows its counter; the error then carries the starts minus the ends,
/// which is not zero.
pub proof fn law_unequal_counts_are_reported<Operand, BinaryOp: BinaryOperator>(
    tokens: Seq<InfixToken<Operand, BinaryOp>>,
)
    ensures
        postfix_of(tokens) is Err <==> group_starts(tokens) != group_ends(tokens),
        tokens.len() <= i32::MAX ==> depth_fits(tokens),
        depth_fits(tokens) && group_starts(tokens) != group_ends(tokens) ==> {
            &&& convertible(tokens)
            &&& postfix_of(tokens)->Err_0 matches ConvertError::UnbalancedGroups(depth)
            &&& depth == group_starts(tokens) - group_ends(tokens)
            &&& depth != 0
        },
{
    if tokens.len() <= i32::MAX {
        lemma_short_input_fits(tokens);
    }
    assert(tokens.take(tokens.len() as int) =~= tokens);
}

/// Where the conversion succeeds, the output is as long as the input has
/// operands and operators: the group markers are gone and nothing else is.
pub proof fn law_output_length<Operand, BinaryOp: BinaryOperator>(
    tokens: Seq<InfixToken<Operand, BinaryOp>>,
)
    requires
        postfix_of(tokens) is Ok,
    ensures
        postfix_of(tokens)->Ok_0.len() == operand_count(tokens) + operator_count(tokens),
{
    lemma_scan_keeps_tokens(tokens);
    lemma_flush_adds_operators(scan(tokens));
}

/// Where the conversion succeeds, the operands of the output are the operands
/// of the input, in the same order.
pub proof fn law_operand_order<Operand, BinaryOp: BinaryOperator>(
    tokens: Seq<InfixToken<Operand, BinaryOp>>,
)
    requires
        postfix_of(tokens) is Ok,
    ensures
        postfix_operands(postfix_of(tokens)->Ok_0) == infix_operands(tokens),
{
    lemma_scan_keeps_tokens(tokens);
    lemma_flush_adds_operators(scan(tokens));
}

/// Input without group markers is input that the conversion takes, and it
/// converts: no scan of it ever holds an open group.
pub proof fn law_input_without_groups_converts<Operand, BinaryOp: BinaryOperator>(
    tokens: Seq<InfixToken<Operand, BinaryOp>>,
)
    requires
        forall|i: int|
            0 <= i < tokens.len() ==> !(#[trigger] tokens[i] is GroupStart) && !(tokens[i]
                is GroupEnd),
    ensures
        properly_nested(tokens),
        convertible(tokens),
        postfix_of(tokens) is Ok,
{
    assert forall|k: int| 0 <= k <= tokens.len() implies #[trigger] group_depth(tokens.take(k))
        == 0 by {
        lemma_no_groups_no_depth(tokens.take(k));
    }
    assert(tokens.take(tokens.len() as int) =~= tokens);
}

/// Input that holds operands only converts to itself: the same operands in
/// the same places.
pub proof fn law_operands_alone_convert_to_themselves<Operand, BinaryOp: BinaryOperator>(
    tokens: Seq<InfixToken<Operand, BinaryOp>>,
)
    requires
        forall|i: int| 0 <= i < tokens.len() ==> tokens[i] is Operand,
    ensures
        convertible(tokens),
        postfix_of(tokens) == Ok::<_, ConvertError>(
            tokens.map_values(
                |t: InfixToken<Operand, BinaryOp>|
                    PostfixToken::<Operand, BinaryOp>::Operand(t->Operand_0),
            ),
        ),
{
    law_input_without_groups_converts(tokens);
    lemma_operands_alone_scan(tokens);
}

/// Of two operators of one precedence the left one is applied first:
/// `a p b q c` converts to `a b p c q`, and not to `a b c q p`. The same holds
/// where the left one binds tighter.
pub proof fn law_left_operator_applies_first<Operand, BinaryOp: BinaryOperator>(
    a: Operand,
    p: BinaryOp,
    b: Operand,
    q: BinaryOp,
    c: Operand,
)
    requires
        p.precedence_spec() >= q.precedence_spec(),
    ensures
        convertible(
            seq![
                InfixToken::Operand(a),
                InfixToken::BinaryOp(p),
                InfixToken::Operand(b),
                InfixToken::BinaryOp(q),
                InfixToken::Operand(c),
            ],
        ),
        postfix_of(
            seq![
                InfixToken::Operand(a),
                InfixToken::BinaryOp(p),
                InfixToken::Operand(b),
                InfixToken::BinaryOp(q),
                InfixToken::Operand(c),
            ],
        ) == Ok::<_, ConvertError>(
            seq![
                PostfixToken::Operand(a),
                PostfixToken::Operand(b),
                PostfixToken::BinaryOp(p),
                PostfixToken::Operand(c),
                PostfixToken::BinaryOp(q),
            ],
        ),
{
    let none = Seq::<InfixToken<Operand, BinaryOp>>::empty();
    let t1 = none.push(InfixToken::Operand(a));
    let t2 = t1.push(InfixToken::BinaryOp(p));
    let t3 = t2.push(InfixToken::Operand(b));
    let t4 = t3.push(InfixToken::BinaryOp(q));
    let t5 = t4.push(InfixToken::Operand(c));
    assert(t1.drop_last() =~= none);
    assert(t2.drop_last() =~= t1);
    assert(t3.drop_last() =~= t2);
    assert(t4.drop_last() =~= t3);
    assert(t5.drop_last() =~= t4);
    law_input_without_groups_converts(t5);

    let o1 = Seq::<PostfixToken<Operand, BinaryOp>>::empty().push(PostfixToken::Operand(a));
    let o2 = o1.push(PostfixToken::Operand(b));
    let o3 = o2.push(PostfixToken::BinaryOp(p));
    let o4 = o3.push(PostfixToken::Operand(c));
    let o5 = o4.push(PostfixToken::BinaryOp(q));
    let no_entry = Seq::<Option<BinaryOp>>::empty();
    let just_p = no_entry.push(Some(p));
    let just_q = no_entry.push(Some(q));

    assert(scan(none) == start::<Operand, BinaryOp>());
    assert(scan(t1) == Scan { output: o1, pending: no_entry });
    assert(yield_to(scan(t1), p.precedence_spec()) == scan(t1));
    assert(scan(t2) == Scan { output: o1, pending: just_p });
    assert(scan(t3) == Scan { output: o2, pending: just_p });
    assert(just_p.drop_last() =~= no_entry);
    let p_left = Scan { output: o3, pending: no_entry };
    assert(yield_to(p_left, q.precedence_spec()) == p_left);
    assert(yield_to(scan(t3), q.precedence_spec()) == p_left);
    assert(scan(t4) == Scan { output: o3, pending: just_q });
    assert(scan(t5) == Scan { output: o4, pending: just_q });
    assert(just_q.drop_last() =~= no_entry);
    assert(flush(Scan { output: o5, pending: no_entry }) == o5);
    assert(flush(scan(t5)) == o5);
    assert(t5 =~= seq![
        InfixToken::Operand(a),
        InfixToken::BinaryOp(p),
        InfixToken::Operand(b),
        InfixToken::BinaryOp(q),
        InfixToken::Operand(c),
    ]);
    assert(o5 =~= seq![
        PostfixToken::Operand(a),
        PostfixToken::Operand(b),
        PostfixToken::BinaryOp(p),
        PostfixToken::Operand(c),
        PostfixToken::BinaryOp(q),
    ]);
}

/// An operator that binds tighter than the one to its left is applied
/// before it: `a p b q c` then converts to `a b c q p`.
pub proof fn law_tighter_right_operator_applies_first<Operand, BinaryOp: BinaryOperator>(
    a: Operand,
    p: BinaryOp,
    b: Operand,
    q: BinaryOp,
    c: Operand,
)
    requires
        p.precedence_spec() < q.precedence_spec(),
    ensures
        convertible(
            seq![
                InfixToken::Operand(a),
                InfixToken::BinaryOp(p),
                InfixToken::Operand(b),
                InfixToken::BinaryOp(q),
                InfixToken::Operand(c),
            ],
        ),
        postfix_of(
            seq![
                InfixToken::Operand(a),
                InfixToken::BinaryOp(p),
                InfixToken::Operand(b),
                InfixToken::BinaryOp(q),
                InfixToken::Operand(c),
            ],
        ) == Ok::<_, ConvertError>(
            seq![
                PostfixToken::Operand(a),
                PostfixToken::Operand(b),
                PostfixToken::Operand(c),
                PostfixToken::BinaryOp(q),
                PostfixToken::BinaryOp(p),
            ],
        ),
{
    let none = Seq::<InfixToken<Operand, BinaryOp>>::empty();
    let t1 = none.push(InfixToken::Operand(a));
    let t2 = t1.push(InfixToken::BinaryOp(p));
    let t3 = t2.push(InfixToken::Operand(b));
    let t4 = t3.push(InfixToken::BinaryOp(q));
    let t5 = t4.push(InfixToken::Operand(c));
    assert(t1.drop_last() =~= none);
    assert(t2.drop_last() =~= t1);
    assert(t3.drop_last() =~= t2);
    assert(t4.drop_last() =~= t3);
    assert(t5.drop_last() =~= t4);
    law_input_without_groups_converts(t5);

    let o1 = Seq::<PostfixToken<Operand, BinaryOp>>::empty().push(PostfixToken::Operand(a));
    let o2 = o1.push(PostfixToken::Operand(b));
    let o3 = o2.push(PostfixToken::Operand(c));
    let o4 = o3.push(PostfixToken::BinaryOp(q));
    let o5 = o4.push(PostfixToken::BinaryOp(p));
    let no_entry = Seq::<Option<BinaryOp>>::empty();
    let just_p = no_entry.push(Some(p));
    let p_then_q = just_p.push(Some(q));

    assert(scan(none) == start::<Operand, BinaryOp>());
    assert(scan(t1) == Scan { output: o1, pending: no_entry });
    assert(yield_to(scan(t1), p.precedence_spec()) == scan(t1));
    assert(scan(t2) == Scan { output: o1, pending: just_p });
    assert(scan(t3) == Scan { output: o2, pending: just_p });
    assert(yield_to(scan(t3), q.precedence_spec()) == scan(t3));
    assert(scan(t4) == Scan { output: o2, pending: p_then_q });
    assert(scan(t5) == Scan { output: o3, pending: p_then_q });
    assert(p_then_q.drop_last() =~= just_p);
    assert(just_p.drop_last() =~= no_entry);
    assert(flush(Scan { output: o5, pending: no_entry }) == o5);
    assert(flush(Scan { output: o4, pending: just_p }) == o5);
    assert(flush(scan(t5)) == o5);
    assert(t5 =~= seq![
        InfixToken::Operand(a),
        InfixToken::BinaryOp(p),
        InfixToken::Operand(b),
        InfixToken::BinaryOp(q),
        InfixToken::Operand(c),
    ]);
    assert(o5 =~= seq![
        PostfixToken::Operand(a),
        PostfixToken::Operand(b),
        PostfixToken::Operand(c),
        PostfixToken::BinaryOp(q),
        PostfixToken::BinaryOp(p),
    ]);
}

/// A group converts on its own. Where `inside` is properly nested, the scan
/// of `before ( inside )` has written what the scan of `before` has written
/// and then the postfix form of `inside`, and the same entries wait as after
/// `before`: a group acts on what surrounds it as one operand does.
pub proof fn law_group_converts_on_its_own<Operand, BinaryOp: BinaryOperator>(
    before: Seq<InfixToken<Operand, BinaryOp>>,
    inside: Seq<InfixToken<Operand, BinaryOp>>,
)
    requires
        properly_nested(inside),
    ensures
        postfix_of(inside) is Ok,
        scan(before.push(InfixToken::GroupStart) + inside.push(InfixToken::GroupEnd)) == (Scan {
            output: scan(before).output + postfix_of(inside)->Ok_0,
            pending: scan(before).pending,
        }),
{
    let opened = before.push(InfixToken::GroupStart) + inside;
    let whole = before.push(InfixToken::GroupStart) + inside.push(InfixToken::GroupEnd);
    assert(whole.drop_last() =~= opened);
    lemma_scan_inside_group(before, inside);
    lemma_scan_open_groups(inside);
    lemma_close_flushes_group(scan(before).output, scan(before).pending, scan(inside));
}

/// A group around the whole input changes nothing. Where `inside` is properly
/// nested, so is `( inside )`, and it converts to what `inside` converts to.
pub proof fn law_outer_group_changes_nothing<Operand, BinaryOp: BinaryOperator>(
    inside: Seq<InfixToken<Operand, BinaryOp>>,
)
    requires
        properly_nested(inside),
    ensures
        properly_nested(
            Seq::<InfixToken<Operand, BinaryOp>>::empty().push(InfixToken::GroupStart)
                + inside.push(InfixToken::GroupEnd),
        ),
        postfix_of(
            Seq::<InfixToken<Operand, BinaryOp>>::empty().push(InfixToken::GroupStart)
                + inside.push(InfixToken::GroupEnd),
        ) == postfix_of(inside),
{
    let none = Seq::<InfixToken<Operand, BinaryOp>>::empty();
    let opening = none.push(InfixToken::GroupStart);
    let whole = opening + inside.push(InfixToken::GroupEnd);
    lemma_depth_within_length(none);
    lemma_counts_push(none, InfixToken::GroupStart);
    lemma_counts_push(inside, InfixToken::GroupEnd);
    lemma_depth_of_parts(opening, inside.push(InfixToken::GroupEnd));
    assert forall|k: int| 0 <= k <= whole.len() implies #[trigger] group_depth(whole.take(k))
        >= 0 by {
        if k == 0 {
            assert(whole.take(k) =~= none);
        } else if k == whole.len() {
            assert(whole.take(k) =~= whole);
        } else {
            assert(whole.take(k) =~= opening + inside.take(k - 1));
            lemma_depth_of_parts(opening, inside.take(k - 1));
        }
    }
    law_group_converts_on_its_own(none, inside);
    assert(scan(none) == start::<Operand, BinaryOp>());
    assert(scan(whole).output =~= postfix_of(inside)->Ok_0);
}

} // verus!
