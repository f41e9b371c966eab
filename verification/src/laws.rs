use vstd::prelude::*;

use crate::expr::{
    build_status, lemma_build_status_balance, lemma_weight_sum_first, lemma_weight_sum_push,
    weight_sum,
};
use crate::normalize::{contains_minus, insert_zeros, is_minus, prefix_rewrite, spec_normalize};
use crate::operator::{precedence_of, OpCode};
use crate::pipeline::spec_postfix;
use crate::shunting::{drain_stack, pop_ge, pop_until_open, shunt_loop, spec_shunt};
use crate::token::{close_bracket, open_bracket, zero_token, TokenV};
use crate::tokenizer::spec_tokenize;

verus! {

/// A leading minus normalizes to a bracketed subtraction from zero:
/// `- x` becomes `( 0 - x )`, whatever the literal.
pub proof fn lemma_leading_minus_rewrite(x: Seq<char>)
    ensures
        spec_normalize(seq![TokenV::Op(OpCode::Minus), TokenV::Number(x)]) == seq![
            open_bracket(),
            zero_token(),
            TokenV::Op(OpCode::Minus),
            TokenV::Number(x),
            close_bracket(),
        ],
{
    let m = TokenV::Op(OpCode::Minus);
    let nx = TokenV::Number(x);
    let ts = seq![m, nx];
    assert(is_minus(ts[0]));
    assert(contains_minus(ts));
    assert(ts.take(2) =~= ts);
    assert(ts.skip(2) =~= Seq::<TokenV>::empty());
    let s5 = seq![open_bracket(), zero_token(), m, nx, close_bracket()];
    assert(prefix_rewrite(ts) =~= s5);
    let s4 = seq![zero_token(), m, nx, close_bracket()];
    let s3 = seq![m, nx, close_bracket()];
    let s2 = seq![nx, close_bracket()];
    let s1 = seq![close_bracket()];
    assert(s5.drop_first() =~= s4);
    assert(s4.drop_first() =~= s3);
    assert(s3.drop_first() =~= s2);
    assert(s2.drop_first() =~= s1);
    assert(insert_zeros(s5) == seq![s5[0]] + insert_zeros(s4));
    assert(insert_zeros(s4) == seq![s4[0]] + insert_zeros(s3));
    assert(insert_zeros(s3) == seq![s3[0]] + insert_zeros(s2));
    assert(insert_zeros(s2) == seq![s2[0]] + insert_zeros(s1));
    assert(insert_zeros(s1) == s1);
    assert(insert_zeros(s5) =~= s5);
}

/// A minus right after an open bracket gains a zero: `( - x )` becomes
/// `( 0 - x )`, whatever the literal.
pub proof fn lemma_bracket_minus_rewrite(x: Seq<char>)
    ensures
        spec_normalize(
            seq![
                open_bracket(),
                TokenV::Op(OpCode::Minus),
                TokenV::Number(x),
                close_bracket(),
            ],
        ) == seq![
            open_bracket(),
            zero_token(),
            TokenV::Op(OpCode::Minus),
            TokenV::Number(x),
            close_bracket(),
        ],
{
    let m = TokenV::Op(OpCode::Minus);
    let nx = TokenV::Number(x);
    let ts = seq![open_bracket(), m, nx, close_bracket()];
    assert(is_minus(ts[1]));
    assert(contains_minus(ts));
    assert(prefix_rewrite(ts) == ts);
    let s3 = seq![m, nx, close_bracket()];
    let s2 = seq![nx, close_bracket()];
    let s1 = seq![close_bracket()];
    assert(ts.drop_first() =~= s3);
    assert(s3.drop_first() =~= s2);
    assert(s2.drop_first() =~= s1);
    assert(insert_zeros(ts) == seq![ts[0], zero_token()] + insert_zeros(s3));
    assert(insert_zeros(s3) == seq![s3[0]] + insert_zeros(s2));
    assert(insert_zeros(s2) == seq![s2[0]] + insert_zeros(s1));
    assert(insert_zeros(s1) == s1);
    assert(insert_zeros(ts) =~= seq![open_bracket(), zero_token(), m, nx, close_bracket()]);
}

/// With two operators in a row, the single precedence comparison sends
/// the left operator to the output first whenever its tier is at least
/// the right one's: equal tiers associate to the left.  Only a strictly
/// tighter right operator is emitted first.
pub proof fn lemma_two_operator_precedence(
    a: Seq<char>,
    b: Seq<char>,
    c: Seq<char>,
    o1: OpCode,
    o2: OpCode,
)
    ensures
        precedence_of(o1) >= precedence_of(o2) ==> spec_shunt(
            seq![
                TokenV::Number(a),
                TokenV::Op(o1),
                TokenV::Number(b),
                TokenV::Op(o2),
                TokenV::Number(c),
            ],
        ) == seq![
            TokenV::Number(a),
            TokenV::Number(b),
            TokenV::Op(o1),
            TokenV::Number(c),
            TokenV::Op(o2),
        ],
        precedence_of(o1) < precedence_of(o2) ==> spec_shunt(
            seq![
                TokenV::Number(a),
                TokenV::Op(o1),
                TokenV::Number(b),
                TokenV::Op(o2),
                TokenV::Number(c),
            ],
        ) == seq![
            TokenV::Number(a),
            TokenV::Number(b),
            TokenV::Number(c),
            TokenV::Op(o2),
            TokenV::Op(o1),
        ],
{
    let na = TokenV::Number(a);
    let nb = TokenV::Number(b);
    let nc = TokenV::Number(c);
    let t1 = TokenV::Op(o1);
    let t2 = TokenV::Op(o2);
    let ts = seq![na, t1, nb, t2, nc];
    let e = Seq::<TokenV>::empty();
    assert(ts.drop_first() =~= seq![t1, nb, t2, nc]);
    assert(seq![t1, nb, t2, nc].drop_first() =~= seq![nb, t2, nc]);
    assert(seq![nb, t2, nc].drop_first() =~= seq![t2, nc]);
    assert(seq![t2, nc].drop_first() =~= seq![nc]);
    assert(seq![nc].drop_first() =~= e);

    assert(shunt_loop(ts, e, e) == shunt_loop(seq![t1, nb, t2, nc], e, e.push(na)));
    assert(pop_ge(e, e.push(na), precedence_of(o1)) == (e, e.push(na)));
    assert(shunt_loop(seq![t1, nb, t2, nc], e, e.push(na)) == shunt_loop(
        seq![nb, t2, nc],
        e.push(t1),
        e.push(na),
    ));
    assert(shunt_loop(seq![nb, t2, nc], e.push(t1), e.push(na)) == shunt_loop(
        seq![t2, nc],
        e.push(t1),
        e.push(na).push(nb),
    ));
    let s1 = e.push(t1);
    let o_ab = e.push(na).push(nb);
    assert(s1.last() == t1);
    assert(s1.drop_last() =~= e);
    if precedence_of(o1) >= precedence_of(o2) {
        assert(pop_ge(s1, o_ab, precedence_of(o2)) == pop_ge(e, o_ab.push(t1), precedence_of(o2)));
        assert(pop_ge(e, o_ab.push(t1), precedence_of(o2)) == (e, o_ab.push(t1)));
        assert(shunt_loop(seq![t2, nc], s1, o_ab) == shunt_loop(
            seq![nc],
            e.push(t2),
            o_ab.push(t1),
        ));
        assert(shunt_loop(seq![nc], e.push(t2), o_ab.push(t1)) == shunt_loop(
            e,
            e.push(t2),
            o_ab.push(t1).push(nc),
        ));
        assert(shunt_loop(e, e.push(t2), o_ab.push(t1).push(nc)) == drain_stack(
            e.push(t2),
            o_ab.push(t1).push(nc),
        ));
        assert(e.push(t2).drop_last() =~= e);
        assert(drain_stack(e.push(t2), o_ab.push(t1).push(nc)) == drain_stack(
            e,
            o_ab.push(t1).push(nc).push(t2),
        ));
        assert(drain_stack(e, o_ab.push(t1).push(nc).push(t2)) == o_ab.push(t1).push(nc).push(
            t2,
        ));
        assert(o_ab.push(t1).push(nc).push(t2) =~= seq![na, nb, t1, nc, t2]);
    } else {
        assert(pop_ge(s1, o_ab, precedence_of(o2)) == (s1, o_ab));
        assert(shunt_loop(seq![t2, nc], s1, o_ab) == shunt_loop(seq![nc], s1.push(t2), o_ab));
        assert(shunt_loop(seq![nc], s1.push(t2), o_ab) == shunt_loop(
            e,
            s1.push(t2),
            o_ab.push(nc),
        ));
        assert(shunt_loop(e, s1.push(t2), o_ab.push(nc)) == drain_stack(
            s1.push(t2),
            o_ab.push(nc),
        ));
        assert(s1.push(t2).drop_last() =~= s1);
        assert(drain_stack(s1.push(t2), o_ab.push(nc)) == drain_stack(s1, o_ab.push(nc).push(t2)));
        assert(drain_stack(s1, o_ab.push(nc).push(t2)) == drain_stack(
            e,
            o_ab.push(nc).push(t2).push(t1),
        ));
        assert(drain_stack(e, o_ab.push(nc).push(t2).push(t1)) == o_ab.push(nc).push(t2).push(
            t1,
        ));
        assert(o_ab.push(nc).push(t2).push(t1) =~= seq![na, nb, nc, t2, t1]);
    }
}

/// Popping by precedence moves tokens between stack and queue without
/// changing their combined stack effect.
proof fn lemma_pop_ge_weight(stack: Seq<TokenV>, out: Seq<TokenV>, p: u8)
    ensures
        weight_sum(pop_ge(stack, out, p).0) + weight_sum(pop_ge(stack, out, p).1) == weight_sum(
            stack,
        ) + weight_sum(out),
    decreases stack.len(),
{
    if stack.len() == 0 {
    } else {
        match stack.last() {
            TokenV::Op(o) => {
                if precedence_of(o) >= p {
                    lemma_weight_sum_push(out, stack.last());
                    lemma_pop_ge_weight(stack.drop_last(), out.push(stack.last()), p);
                }
            },
            _ => {},
        }
    }
}

/// Popping back to an open bracket discards only the weightless marker.
proof fn lemma_pop_until_weight(stack: Seq<TokenV>, out: Seq<TokenV>)
    ensures
        weight_sum(pop_until_open(stack, out).0) + weight_sum(pop_until_open(stack, out).1)
            == weight_sum(stack) + weight_sum(out),
    decreases stack.len(),
{
    if stack.len() == 0 {
    } else if stack.last() == open_bracket() {
    } else {
        lemma_weight_sum_push(out, stack.last());
        lemma_pop_until_weight(stack.drop_last(), out.push(stack.last()));
    }
}

/// Draining the stack keeps the combined stack effect: discarded
/// brackets weigh nothing.
proof fn lemma_drain_weight(stack: Seq<TokenV>, out: Seq<TokenV>)
    ensures
        weight_sum(drain_stack(stack, out)) == weight_sum(stack) + weight_sum(out),
    decreases stack.len(),
{
    if stack.len() == 0 {
    } else {
        match stack.last() {
            TokenV::Bracket(_) => {
                lemma_drain_weight(stack.drop_last(), out);
            },
            _ => {
                lemma_weight_sum_push(out, stack.last());
                lemma_drain_weight(stack.drop_last(), out.push(stack.last()));
            },
        }
    }
}

/// Each Shunting-Yard step conserves the combined stack effect of the
/// pending input, the operator stack and the output queue.
proof fn lemma_shunt_weight(ts: Seq<TokenV>, stack: Seq<TokenV>, out: Seq<TokenV>)
    ensures
        weight_sum(shunt_loop(ts, stack, out)) == weight_sum(ts) + weight_sum(stack) + weight_sum(
            out,
        ),
    decreases ts.len(),
{
    if ts.len() == 0 {
        lemma_drain_weight(stack, out);
        assert(weight_sum(ts) == 0);
    } else {
        let t = ts[0];
        lemma_weight_sum_first(ts);
        match t {
            TokenV::Number(_) => {
                lemma_weight_sum_push(out, t);
                lemma_shunt_weight(ts.drop_first(), stack, out.push(t));
            },
            TokenV::Op(o) => {
                let popped = pop_ge(stack, out, precedence_of(o));
                lemma_pop_ge_weight(stack, out, precedence_of(o));
                lemma_weight_sum_push(popped.0, t);
                lemma_shunt_weight(ts.drop_first(), popped.0.push(t), popped.1);
            },
            TokenV::Bracket(b) => {
                if b == '(' {
                    lemma_weight_sum_push(stack, t);
                    lemma_shunt_weight(ts.drop_first(), stack.push(t), out);
                } else {
                    let popped = pop_until_open(stack, out);
                    lemma_pop_until_weight(stack, out);
                    lemma_shunt_weight(ts.drop_first(), popped.0, popped.1);
                }
            },
        }
    }
}

/// Conversion to postfix preserves the net stack effect: brackets weigh
/// nothing and every other token is carried over.
pub proof fn lemma_shunt_preserves_balance(ts: Seq<TokenV>)
    ensures
        weight_sum(spec_shunt(ts)) == weight_sum(ts),
{
    lemma_shunt_weight(ts, Seq::empty(), Seq::empty());
    assert(weight_sum(Seq::<TokenV>::empty()) == 0);
}

/// Malformed input never evaluates: whenever a lexed expression's
/// normalized tokens do not net exactly one value — a trailing operator,
/// a stray operand, a dangling minus — the postfix fold rejects it and
/// no value is produced.
pub proof fn lemma_unbalanced_never_evaluates(s: Seq<char>)
    requires
        spec_tokenize(s) matches Ok(ts) && weight_sum(spec_normalize(ts)) != 1,
    ensures
        spec_postfix(s) matches Ok(pf) && build_status(pf) is Err,
{
    match spec_tokenize(s) {
        Ok(ts) => {
            let pf = spec_shunt(spec_normalize(ts));
            lemma_shunt_preserves_balance(spec_normalize(ts));
            lemma_build_status_balance(pf);
        },
        Err(_) => {},
    }
}

/// A number wrapped in `k` matched bracket pairs.
pub open spec fn wrapped_number(k: nat, x: Seq<char>) -> Seq<TokenV>
    decreases k,
{
    if k == 0 {
        seq![TokenV::Number(x)]
    } else {
        seq![open_bracket()] + wrapped_number((k - 1) as nat, x) + seq![close_bracket()]
    }
}

/// Processing a bracketed number emits just the number, whatever stack,
/// queue and following tokens surround it.
proof fn lemma_wrapped_number_step(
    k: nat,
    x: Seq<char>,
    rest: Seq<TokenV>,
    st: Seq<TokenV>,
    out: Seq<TokenV>,
)
    ensures
        shunt_loop(wrapped_number(k, x) + rest, st, out) == shunt_loop(
            rest,
            st,
            out.push(TokenV::Number(x)),
        ),
    decreases k,
{
    let na = TokenV::Number(x);
    if k == 0 {
        assert((seq![na] + rest)[0] == na);
        assert((seq![na] + rest).drop_first() =~= rest);
        assert(shunt_loop(seq![na] + rest, st, out) == shunt_loop(rest, st, out.push(na)));
    } else {
        let inner = wrapped_number((k - 1) as nat, x);
        let ts = wrapped_number(k, x) + rest;
        assert(ts[0] == open_bracket());
        assert(ts.drop_first() =~= inner + (seq![close_bracket()] + rest));
        assert(shunt_loop(ts, st, out) == shunt_loop(
            inner + (seq![close_bracket()] + rest),
            st.push(open_bracket()),
            out,
        ));
        lemma_wrapped_number_step((k - 1) as nat, x, seq![close_bracket()] + rest, st.push(
            open_bracket(),
        ), out);
        let closing = seq![close_bracket()] + rest;
        assert(closing[0] == close_bracket());
        assert(closing.drop_first() =~= rest);
        assert(st.push(open_bracket()).last() == open_bracket());
        assert(st.push(open_bracket()).drop_last() =~= st);
        assert(pop_until_open(st.push(open_bracket()), out.push(na)) == (st, out.push(na)));
        assert(shunt_loop(closing, st.push(open_bracket()), out.push(na)) == shunt_loop(
            rest,
            st,
            out.push(na),
        ));
    }
}

/// Grouping is transparent: a number stays itself under any depth of
/// matched brackets.
pub proof fn lemma_brackets_transparent(k: nat, x: Seq<char>)
    ensures
        spec_shunt(wrapped_number(k, x)) == seq![TokenV::Number(x)],
{
    let na = TokenV::Number(x);
    let e = Seq::<TokenV>::empty();
    assert(wrapped_number(k, x) + e =~= wrapped_number(k, x));
    lemma_wrapped_number_step(k, x, e, e, e);
    assert(shunt_loop(e, e, e.push(na)) == drain_stack(e, e.push(na)));
    assert(drain_stack(e, e.push(na)) == e.push(na));
    assert(e.push(na) =~= seq![na]);
}

/// Chained exponentiation converts left-associatively: the left pair is
/// emitted first, so `a p b p c` means `(a p b) p c`.
pub proof fn lemma_power_left_associative(a: Seq<char>, b: Seq<char>, c: Seq<char>)
    ensures
        spec_shunt(
            seq![
                TokenV::Number(a),
                TokenV::Op(OpCode::Pow),
                TokenV::Number(b),
                TokenV::Op(OpCode::Pow),
                TokenV::Number(c),
            ],
        ) == seq![
            TokenV::Number(a),
            TokenV::Number(b),
            TokenV::Op(OpCode::Pow),
            TokenV::Number(c),
            TokenV::Op(OpCode::Pow),
        ],
{
    lemma_two_operator_precedence(a, b, c, OpCode::Pow, OpCode::Pow);
}

} // verus!
