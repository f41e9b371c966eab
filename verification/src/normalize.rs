use vstd::prelude::*;

use crate::operator::OpCode;
use crate::token::{
    close_bracket, is_open_tok, lemma_tok_views_push, open_bracket, tok_views, zero_token, Token,
    TokenV,
};

verus! {

/// Whether a token is the minus operator.
pub open spec fn is_minus(t: TokenV) -> bool {
    t == TokenV::Op(OpCode::Minus)
}

/// Whether any token of the sequence is the minus operator.
pub open spec fn contains_minus(ts: Seq<TokenV>) -> bool {
    exists|k: int| 0 <= k < ts.len() && is_minus(ts[k])
}

/// A leading minus becomes subtraction from zero: `- X rest` turns into
/// `( 0 - X ) rest`, the close bracket standing right after what was the
/// second token.  A lone minus with nothing after it is left alone; the
/// postfix pass rejects it.
pub open spec fn prefix_rewrite(ts: Seq<TokenV>) -> Seq<TokenV> {
    if ts.len() >= 2 && is_minus(ts[0]) {
        seq![open_bracket(), zero_token()] + ts.take(2) + seq![close_bracket()] + ts.skip(2)
    } else {
        ts
    }
}

/// A zero goes between every open bracket and an immediately following
/// minus, turning `(-X` into `(0-X` wherever it stands.
pub open spec fn insert_zeros(ts: Seq<TokenV>) -> Seq<TokenV>
    decreases ts.len(),
{
    if ts.len() < 2 {
        ts
    } else if ts[0] == open_bracket() && is_minus(ts[1]) {
        seq![ts[0], zero_token()] + insert_zeros(ts.drop_first())
    } else {
        seq![ts[0]] + insert_zeros(ts.drop_first())
    }
}

/// Unary-minus normalization: nothing moves when no minus occurs at all;
/// otherwise the leading-minus rewrite runs first and the bracket-minus
/// zeros are inserted second.
pub open spec fn spec_normalize(ts: Seq<TokenV>) -> Seq<TokenV> {
    if !contains_minus(ts) {
        ts
    } else {
        insert_zeros(prefix_rewrite(ts))
    }
}

/// Whether a token is the minus operator, as executable code.
fn is_minus_tok(t: &Token) -> (r: bool)
    ensures
        r == is_minus(t@),
{
    match t {
        Token::Op(OpCode::Minus) => true,
        _ => false,
    }
}

/// Rewrite every syntactic unary minus into binary subtraction from
/// zero, so the later stages never meet a unary operator: a leading
/// minus becomes a bracketed `0 - ...`, and a minus right after an open
/// bracket gains a zero before it.
pub fn process_negatives(input: Vec<Token>) -> (r: Vec<Token>)
    ensures
        tok_views(r@) == spec_normalize(tok_views(input@)),
{
    let ghost v = tok_views(input@);
    let n = input.len();

    let mut found = false;
    let mut j: usize = 0;
    while j < n
        invariant
            j <= n,
            n == input@.len(),
            v == tok_views(input@),
            found ==> contains_minus(v),
            !found ==> forall|k: int| 0 <= k < j ==> !is_minus(v[k]),
        decreases n - j,
    {
        if is_minus_tok(&input[j]) {
            found = true;
            proof {
                assert(is_minus(v[j as int]));
            }
        }
        j += 1;
    }
    if !found {
        return input;
    }

    let mut mid: Vec<Token>;
    if input.len() >= 2 && is_minus_tok(&input[0]) {
        mid = Vec::new();
        mid.push(Token::Bracket('('));
        let zvec = vec!['0'];
        proof {
            assert(zvec@ =~= seq!['0']);
        }
        mid.push(Token::Number(zvec));
        mid.push(input[0].duplicate());
        mid.push(input[1].duplicate());
        mid.push(Token::Bracket(')'));
        proof {
            assert(tok_views(mid@) =~= seq![open_bracket(), zero_token()] + v.take(2) + seq![
                close_bracket(),
            ] + v.subrange(2, 2));
        }
        let mut k: usize = 2;
        while k < n
            invariant
                2 <= k <= n,
                n == input@.len(),
                v == tok_views(input@),
                n >= 2,
                tok_views(mid@) == seq![open_bracket(), zero_token()] + v.take(2) + seq![
                    close_bracket(),
                ] + v.subrange(2, k as int),
            decreases n - k,
        {
            let ghost before = mid@;
            mid.push(input[k].duplicate());
            proof {
                lemma_tok_views_push(before, mid@.last());
                assert(tok_views(mid@) =~= seq![open_bracket(), zero_token()] + v.take(2) + seq![
                    close_bracket(),
                ] + v.subrange(2, k + 1));
            }
            k += 1;
        }
        proof {
            assert(v.subrange(2, n as int) =~= v.skip(2));
        }
    } else {
        mid = input;
    }

    let ghost w = tok_views(mid@);
    proof {
        assert(w == prefix_rewrite(v));
    }

    let m = mid.len();
    let mut out: Vec<Token> = Vec::new();
    let mut i: usize = 0;
    proof {
        assert(w.skip(0) =~= w);
        assert(tok_views(out@) + insert_zeros(w) =~= insert_zeros(w));
    }
    while i < m
        invariant
            i <= m,
            m == mid@.len(),
            w == tok_views(mid@),
            insert_zeros(w) == tok_views(out@) + insert_zeros(w.skip(i as int)),
        decreases m - i,
    {
        proof {
            assert(w.skip(i as int).drop_first() =~= w.skip(i + 1));
            assert(w.skip(i as int)[0] == w[i as int]);
            if i + 1 < m {
                assert(w.skip(i as int)[1] == w[i + 1]);
            }
        }
        let ghost before = out@;
        let pair = if i + 1 < m {
            is_open_tok(&mid[i]) && is_minus_tok(&mid[i + 1])
        } else {
            false
        };
        out.push(mid[i].duplicate());
        proof {
            lemma_tok_views_push(before, out@.last());
        }
        if pair {
            let ghost mid_state = out@;
            let zvec = vec!['0'];
            proof {
                assert(zvec@ =~= seq!['0']);
            }
            out.push(Token::Number(zvec));
            proof {
                lemma_tok_views_push(mid_state, out@.last());
                assert(tok_views(out@) + insert_zeros(w.skip(i + 1)) =~= tok_views(before) + (
                seq![w[i as int], zero_token()] + insert_zeros(w.skip(i + 1))));
            }
        } else {
            proof {
                assert(tok_views(out@) + insert_zeros(w.skip(i + 1)) =~= tok_views(before) + (
                seq![w[i as int]] + insert_zeros(w.skip(i + 1))));
            }
        }
        i += 1;
    }
    proof {
        assert(w.skip(m as int) =~= Seq::<TokenV>::empty());
        assert(tok_views(out@) + Seq::<TokenV>::empty() =~= tok_views(out@));
    }
    out
}

} // verus!
