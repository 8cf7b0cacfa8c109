//! Facts about the model that the laws and the proof of the conversion rest on.

use vstd::prelude::*;
use crate::model::{
    close_group, closes_only_open_groups, depth_fits, flush, group_depth, group_ends,
    group_starts, infix_operands, open_groups, operand_count, operator_count, postfix_operands,
    scan, yield_to, Scan,
};
use crate::tokens::{BinaryOperator, InfixToken, PostfixToken};

verus! {

/// One more token changes the counts and the operands by what that token is.
pub proof fn lemma_counts_push<Operand, BinaryOp>(
    tokens: Seq<InfixToken<Operand, BinaryOp>>,
    token: InfixToken<Operand, BinaryOp>,
)
    ensures
        group_starts(tokens.push(token)) == group_starts(tokens) + if token is GroupStart {
            1nat
        } else {
            0nat
        },
        group_ends(tokens.push(token)) == group_ends(tokens) + if token is GroupEnd {
            1nat
        } else {
            0nat
        },
        operand_count(tokens.push(token)) == operand_count(tokens) + if token is Operand {
            1nat
        } else {
            0nat
        },
        operator_count(tokens.push(token)) == operator_count(tokens) + if token is BinaryOp {
            1nat
        } else {
            0nat
        },
        infix_operands(tokens.push(token)) == if token is Operand {
            infix_operands(tokens).push(token->Operand_0)
        } else {
            infix_operands(tokens)
        },
{
    tokens.lemma_filter_push(token, |t: InfixToken<Operand, BinaryOp>| t is GroupStart);
    tokens.lemma_filter_push(token, |t: InfixToken<Operand, BinaryOp>| t is GroupEnd);
    tokens.lemma_filter_push(token, |t: InfixToken<Operand, BinaryOp>| t is Operand);
    tokens.lemma_filter_push(token, |t: InfixToken<Operand, BinaryOp>| t is BinaryOp);
    if token is Operand {
        assert(infix_operands(tokens.push(token)) =~= infix_operands(tokens).push(
            token->Operand_0,
        ));
    }
}

/// The group markers of a sequence in two parts are those of its parts.
pub proof fn lemma_depth_of_parts<Operand, BinaryOp>(
    left: Seq<InfixToken<Operand, BinaryOp>>,
    right: Seq<InfixToken<Operand, BinaryOp>>,
)
    ensures
        group_starts(left + right) == group_starts(left) + group_starts(right),
        group_ends(left + right) == group_ends(left) + group_ends(right),
        group_depth(left + right) == group_depth(left) + group_depth(right),
{
    Seq::filter_distributes_over_add(
        left,
        right,
        |t: InfixToken<Operand, BinaryOp>| t is GroupStart,
    );
    Seq::filter_distributes_over_add(left, right, |t: InfixToken<Operand, BinaryOp>| t is GroupEnd);
}

/// A sequence has no more group markers of a kind than it has tokens, so its
/// depth lies within its length, on either side of zero.
pub proof fn lemma_depth_within_length<Operand, BinaryOp>(
    tokens: Seq<InfixToken<Operand, BinaryOp>>,
)
    ensures
        group_starts(tokens) <= tokens.len(),
        group_ends(tokens) <= tokens.len(),
        -tokens.len() <= group_depth(tokens) <= tokens.len(),
{
    tokens.lemma_filter_len(|t: InfixToken<Operand, BinaryOp>| t is GroupStart);
    tokens.lemma_filter_len(|t: InfixToken<Operand, BinaryOp>| t is GroupEnd);
}

/// Input of at most `i32::MAX` tokens has a depth that fits all along.
pub proof fn lemma_short_input_fits<Operand, BinaryOp>(tokens: Seq<InfixToken<Operand, BinaryOp>>)
    requires
        tokens.len() <= i32::MAX,
    ensures
        depth_fits(tokens),
{
    assert forall|k: int| 0 <= k <= tokens.len() implies i32::MIN <= #[trigger] group_depth(
        tokens.take(k),
    ) <= i32::MAX by {
        lemma_depth_within_length(tokens.take(k));
    }
}

/// One more pending entry is one more open group where it is a group start.
pub proof fn lemma_pending_push<BinaryOp>(pending: Seq<Option<BinaryOp>>, entry: Option<BinaryOp>)
    ensures
        open_groups(pending.push(entry)) == open_groups(pending) + if entry is None {
            1nat
        } else {
            0nat
        },
{
    pending.lemma_filter_push(entry, |e: Option<BinaryOp>| e is None);
}

/// One more output token is one more operand where it is an operand.
pub proof fn lemma_output_push<Operand, BinaryOp>(
    output: Seq<PostfixToken<Operand, BinaryOp>>,
    token: PostfixToken<Operand, BinaryOp>,
)
    ensures
        postfix_operands(output.push(token)) == if token is Operand {
            postfix_operands(output).push(token->Operand_0)
        } else {
            postfix_operands(output)
        },
{
    output.lemma_filter_push(token, |t: PostfixToken<Operand, BinaryOp>| t is Operand);
    if token is Operand {
        assert(postfix_operands(output.push(token)) =~= postfix_operands(output).push(
            token->Operand_0,
        ));
    }
}

/// Operators that give way to a new one move from the pending entries to the
/// output: the open groups and the operands written stay as they are, and no
/// entry is lost.
pub proof fn lemma_yield_moves_operators<Operand, BinaryOp: BinaryOperator>(
    s: Scan<Operand, BinaryOp>,
    level: u8,
)
    ensures
        open_groups(yield_to(s, level).pending) == open_groups(s.pending),
        yield_to(s, level).output.len() + yield_to(s, level).pending.len() == s.output.len()
            + s.pending.len(),
        postfix_operands(yield_to(s, level).output) == postfix_operands(s.output),
    decreases s.pending.len(),
{
    if s.pending.len() > 0 && s.pending.last() is Some
        && s.pending.last()->Some_0.precedence_spec() >= level {
        let rest = s.pending.drop_last();
        let moved = PostfixToken::<Operand, BinaryOp>::BinaryOp(s.pending.last()->Some_0);
        lemma_pending_push(rest, s.pending.last());
        assert(s.pending =~= rest.push(s.pending.last()));
        lemma_output_push(s.output, moved);
        lemma_yield_moves_operators(Scan { output: s.output.push(moved), pending: rest }, level);
    }
}

/// The end of a group closes one open group, where there is one, and moves
/// operators from the pending entries to the output.
pub proof fn lemma_close_takes_one_group<Operand, BinaryOp>(s: Scan<Operand, BinaryOp>)
    ensures
        open_groups(close_group(s).pending) == if open_groups(s.pending) > 0 {
            open_groups(s.pending) - 1
        } else {
            0
        },
        close_group(s).output.len() + close_group(s).pending.len() - open_groups(
            close_group(s).pending,
        ) == s.output.len() + s.pending.len() - open_groups(s.pending),
        postfix_operands(close_group(s).output) == postfix_operands(s.output),
    decreases s.pending.len(),
{
    if s.pending.len() == 0 {
        s.pending.lemma_filter_len(|e: Option<BinaryOp>| e is None);
    } else {
        let rest = s.pending.drop_last();
        lemma_pending_push(rest, s.pending.last());
        assert(s.pending =~= rest.push(s.pending.last()));
        match s.pending.last() {
            Some(op) => {
                let moved = PostfixToken::<Operand, BinaryOp>::BinaryOp(op);
                lemma_output_push(s.output, moved);
                lemma_close_takes_one_group(Scan { output: s.output.push(moved), pending: rest });
            },
            None => {},
        }
    }
}

/// At the end of the input the pending operators join the output, and nothing else does.
pub proof fn lemma_flush_adds_operators<Operand, BinaryOp>(s: Scan<Operand, BinaryOp>)
    ensures
        flush(s).len() == s.output.len() + s.pending.len() - open_groups(s.pending),
        postfix_operands(flush(s)) == postfix_operands(s.output),
    decreases s.pending.len(),
{
    if s.pending.len() == 0 {
        s.pending.lemma_filter_len(|e: Option<BinaryOp>| e is None);
    } else {
        let rest = s.pending.drop_last();
        lemma_pending_push(rest, s.pending.last());
        assert(s.pending =~= rest.push(s.pending.last()));
        match s.pending.last() {
            Some(op) => {
                let moved = PostfixToken::<Operand, BinaryOp>::BinaryOp(op);
                lemma_output_push(s.output, moved);
                lemma_flush_adds_operators(Scan { output: s.output.push(moved), pending: rest });
            },
            None => {
                lemma_flush_adds_operators(Scan { output: s.output, pending: rest });
            },
        }
    }
}

/// A scan loses no operand and no operator, adds none, and writes the
/// operands in the order in which they came.
pub proof fn lemma_scan_keeps_tokens<Operand, BinaryOp: BinaryOperator>(
    tokens: Seq<InfixToken<Operand, BinaryOp>>,
)
    ensures
        scan(tokens).output.len() + scan(tokens).pending.len() - open_groups(
            scan(tokens).pending,
        ) == operand_count(tokens) + operator_count(tokens),
        postfix_operands(scan(tokens).output) == infix_operands(tokens),
    decreases tokens.len(),
{
    if tokens.len() == 0 {
        tokens.lemma_filter_len(|t: InfixToken<Operand, BinaryOp>| t is Operand);
        tokens.lemma_filter_len(|t: InfixToken<Operand, BinaryOp>| t is BinaryOp);
        let s = scan(tokens);
        s.pending.lemma_filter_len(|e: Option<BinaryOp>| e is None);
        s.output.lemma_filter_len(|t: PostfixToken<Operand, BinaryOp>| t is Operand);
        assert(postfix_operands(s.output) =~= infix_operands(tokens));
    } else {
        let seen = tokens.drop_last();
        let token = tokens.last();
        assert(tokens =~= seen.push(token));
        lemma_scan_keeps_tokens(seen);
        lemma_counts_push(seen, token);
        let s = scan(seen);
        match token {
            InfixToken::Operand(x) => {
                lemma_output_push(s.output, PostfixToken::Operand(x));
            },
            InfixToken::BinaryOp(op) => {
                lemma_yield_moves_operators(s, op.precedence_spec());
                lemma_pending_push(yield_to(s, op.precedence_spec()).pending, Some(op));
            },
            InfixToken::GroupStart => {
                lemma_pending_push(s.pending, None);
            },
            InfixToken::GroupEnd => {
                lemma_close_takes_one_group(s);
            },
        }
    }
}

/// Where no group ends before it has started, the open groups of the scan are
/// as many as the depth says.
pub proof fn lemma_scan_open_groups<Operand, BinaryOp: BinaryOperator>(
    tokens: Seq<InfixToken<Operand, BinaryOp>>,
)
    requires
        closes_only_open_groups(tokens),
    ensures
        open_groups(scan(tokens).pending) == group_depth(tokens),
    decreases tokens.len(),
{
    if tokens.len() == 0 {
        lemma_depth_within_length(tokens);
        scan(tokens).pending.lemma_filter_len(|e: Option<BinaryOp>| e is None);
    } else {
        let seen = tokens.drop_last();
        let token = tokens.last();
        assert(tokens =~= seen.push(token));
        assert forall|k: int| 0 <= k <= seen.len() implies #[trigger] group_depth(seen.take(k))
            >= 0 by {
            assert(seen.take(k) =~= tokens.take(k));
        }
        assert(tokens.take(tokens.len() as int) =~= tokens);
        assert(group_depth(tokens) >= 0);
        lemma_scan_open_groups(seen);
        lemma_counts_push(seen, token);
        let s = scan(seen);
        match token {
            InfixToken::Operand(_) => {},
            InfixToken::BinaryOp(op) => {
                lemma_yield_moves_operators(s, op.precedence_spec());
                lemma_pending_push(yield_to(s, op.precedence_spec()).pending, Some(op));
            },
            InfixToken::GroupStart => {
                lemma_pending_push(s.pending, None);
            },
            InfixToken::GroupEnd => {
                lemma_close_takes_one_group(s);
            },
        }
    }
}

/// Without group markers the depth is zero.
pub proof fn lemma_no_groups_no_depth<Operand, BinaryOp>(tokens: Seq<InfixToken<Operand, BinaryOp>>)
    requires
        forall|i: int|
            0 <= i < tokens.len() ==> !(#[trigger] tokens[i] is GroupStart) && !(tokens[i]
                is GroupEnd),
    ensures
        group_starts(tokens) == 0,
        group_ends(tokens) == 0,
    decreases tokens.len(),
{
    if tokens.len() == 0 {
        lemma_depth_within_length(tokens);
        tokens.lemma_filter_len(|t: InfixToken<Operand, BinaryOp>| t is GroupStart);
        tokens.lemma_filter_len(|t: InfixToken<Operand, BinaryOp>| t is GroupEnd);
    } else {
        let seen = tokens.drop_last();
        assert(tokens =~= seen.push(tokens.last()));
        lemma_no_groups_no_depth(seen);
        lemma_counts_push(seen, tokens.last());
    }
}

/// A scan of operands alone writes each to the output and lets nothing wait.
pub proof fn lemma_operands_alone_scan<Operand, BinaryOp: BinaryOperator>(
    tokens: Seq<InfixToken<Operand, BinaryOp>>,
)
    requires
        forall|i: int| 0 <= i < tokens.len() ==> tokens[i] is Operand,
    ensures
        scan(tokens) == (Scan {
            output: tokens.map_values(
                |t: InfixToken<Operand, BinaryOp>|
                    PostfixToken::<Operand, BinaryOp>::Operand(t->Operand_0),
            ),
            pending: Seq::empty(),
        }),
    decreases tokens.len(),
{
    let same = tokens.map_values(
        |t: InfixToken<Operand, BinaryOp>|
            PostfixToken::<Operand, BinaryOp>::Operand(t->Operand_0),
    );
    if tokens.len() == 0 {
        assert(scan(tokens).output =~= same);
    } else {
        lemma_operands_alone_scan(tokens.drop_last());
        assert(scan(tokens).output =~= same);
    }
}

/// While a group is open, the operators that wait below it stay where they
/// are when a new operator arrives inside it.
pub proof fn lemma_yield_stops_at_group<Operand, BinaryOp: BinaryOperator>(
    written: Seq<PostfixToken<Operand, BinaryOp>>,
    below: Seq<Option<BinaryOp>>,
    s: Scan<Operand, BinaryOp>,
    level: u8,
)
    requires
        below.len() > 0,
        below.last() is None,
    ensures
        yield_to(Scan { output: written + s.output, pending: below + s.pending }, level) == (Scan {
            output: written + yield_to(s, level).output,
            pending: below + yield_to(s, level).pending,
        }),
    decreases s.pending.len(),
{
    let whole = Scan { output: written + s.output, pending: below + s.pending };
    if s.pending.len() > 0 && s.pending.last() is Some
        && s.pending.last()->Some_0.precedence_spec() >= level {
        let moved = PostfixToken::<Operand, BinaryOp>::BinaryOp(s.pending.last()->Some_0);
        let rest = Scan { output: s.output.push(moved), pending: s.pending.drop_last() };
        lemma_yield_stops_at_group(written, below, rest, level);
        assert(whole.pending.drop_last() =~= below + rest.pending);
        assert(whole.output.push(moved) =~= written + rest.output);
    } else {
        if s.pending.len() == 0 {
            assert(whole.pending =~= below);
        }
    }
}

/// The end of a group that was opened within `s` leaves alone what was
/// written and what waited before `s`.
pub proof fn lemma_close_inside_group<Operand, BinaryOp>(
    written: Seq<PostfixToken<Operand, BinaryOp>>,
    below: Seq<Option<BinaryOp>>,
    s: Scan<Operand, BinaryOp>,
)
    requires
        open_groups(s.pending) > 0,
    ensures
        close_group(Scan { output: written + s.output, pending: below + s.pending }) == (Scan {
            output: written + close_group(s).output,
            pending: below + close_group(s).pending,
        }),
    decreases s.pending.len(),
{
    let whole = Scan { output: written + s.output, pending: below + s.pending };
    s.pending.lemma_filter_len(|e: Option<BinaryOp>| e is None);
    let rest = s.pending.drop_last();
    lemma_pending_push(rest, s.pending.last());
    assert(s.pending =~= rest.push(s.pending.last()));
    assert(whole.pending.drop_last() =~= below + rest);
    match s.pending.last() {
        Some(op) => {
            let moved = PostfixToken::<Operand, BinaryOp>::BinaryOp(op);
            lemma_close_inside_group(
                written,
                below,
                Scan { output: s.output.push(moved), pending: rest },
            );
            assert(whole.output.push(moved) =~= written + s.output.push(moved));
        },
        None => {},
    }
}

/// The end of a group whose content has left no group open: the operators
/// that wait inside it are written as at the end of input, and its start goes.
pub proof fn lemma_close_flushes_group<Operand, BinaryOp>(
    written: Seq<PostfixToken<Operand, BinaryOp>>,
    below: Seq<Option<BinaryOp>>,
    s: Scan<Operand, BinaryOp>,
)
    requires
        open_groups(s.pending) == 0,
    ensures
        close_group(
            Scan { output: written + s.output, pending: below.push(None) + s.pending },
        ) == (Scan { output: written + flush(s), pending: below }),
    decreases s.pending.len(),
{
    let whole = Scan { output: written + s.output, pending: below.push(None) + s.pending };
    if s.pending.len() == 0 {
        assert(whole.pending =~= below.push(None));
        assert(whole.pending.drop_last() =~= below);
    } else {
        let rest = s.pending.drop_last();
        lemma_pending_push(rest, s.pending.last());
        assert(s.pending =~= rest.push(s.pending.last()));
        assert(whole.pending.drop_last() =~= below.push(None) + rest);
        let moved = PostfixToken::<Operand, BinaryOp>::BinaryOp(s.pending.last()->Some_0);
        lemma_close_flushes_group(
            written,
            below,
            Scan { output: s.output.push(moved), pending: rest },
        );
        assert(whole.output.push(moved) =~= written + s.output.push(moved));
    }
}

/// Inside an open group the scan goes on as if the input began there: what
/// was written and what waited before the group is added to in the same way.
pub proof fn lemma_scan_inside_group<Operand, BinaryOp: BinaryOperator>(
    before: Seq<InfixToken<Operand, BinaryOp>>,
    inside: Seq<InfixToken<Operand, BinaryOp>>,
)
    requires
        closes_only_open_groups(inside),
    ensures
        scan(before.push(InfixToken::GroupStart) + inside) == (Scan {
            output: scan(before).output + scan(inside).output,
            pending: scan(before).pending.push(None) + scan(inside).pending,
        }),
    decreases inside.len(),
{
    let whole = before.push(InfixToken::GroupStart) + inside;
    let written = scan(before).output;
    let below = scan(before).pending.push(None);
    if inside.len() == 0 {
        assert(whole.drop_last() =~= before);
        assert(scan(whole).output =~= written + scan(inside).output);
        assert(scan(whole).pending =~= below + scan(inside).pending);
    } else {
        let seen = inside.drop_last();
        let token = inside.last();
        assert(inside =~= seen.push(token));
        assert(whole.drop_last() =~= before.push(InfixToken::GroupStart) + seen);
        assert forall|k: int| 0 <= k <= seen.len() implies #[trigger] group_depth(seen.take(k))
            >= 0 by {
            assert(seen.take(k) =~= inside.take(k));
        }
        assert(inside.take(inside.len() as int) =~= inside);
        assert(group_depth(inside) >= 0);
        lemma_scan_inside_group(before, seen);
        lemma_scan_open_groups(seen);
        lemma_counts_push(seen, token);
        let s = scan(seen);
        match token {
            InfixToken::Operand(x) => {
                assert(scan(whole).output =~= written + scan(inside).output);
            },
            InfixToken::BinaryOp(op) => {
                lemma_yield_stops_at_group(written, below, s, op.precedence_spec());
                assert(scan(whole).pending =~= below + scan(inside).pending);
            },
            InfixToken::GroupStart => {
                assert(scan(whole).pending =~= below + scan(inside).pending);
            },
            InfixToken::GroupEnd => {
                lemma_close_inside_group(written, below, s);
            },
        }
    }
}

} // verus!
