use vstd::prelude::*;

use vstd::string::StrSliceExecFns;

use crate::operator::{candidates_for, code_of, OperatorStore};
use crate::token::{lemma_tok_views_push, tok_views, EvalError, Token, TokenV};

verus! {

/// Whether a character is a decimal digit.
pub open spec fn is_digit(c: char) -> bool {
    '0' <= c && c <= '9'
}

/// How many decimal points a pending literal holds.
pub open spec fn dot_count(s: Seq<char>) -> nat
    decreases s.len(),
{
    if s.len() == 0 {
        0
    } else {
        dot_count(s.drop_last()) + (if s.last() == '.' {
            1nat
        } else {
            0nat
        })
    }
}

/// There are never more decimal points than characters.
pub proof fn lemma_dot_count_le(s: Seq<char>)
    ensures
        dot_count(s) <= s.len(),
    decreases s.len(),
{
    if s.len() > 0 {
        lemma_dot_count_le(s.drop_last());
    }
}

/// A pending literal names a number exactly when it holds at most one
/// decimal point; the tokenizer only ever accumulates digits and points,
/// starting with a digit.
pub open spec fn valid_literal(s: Seq<char>) -> bool {
    dot_count(s) <= 1
}

/// The tokenizer between tokens: classify the character at `i` and open
/// a bracket token, a numeric literal, or an operator match attempt.
pub open spec fn lex_new(s: Seq<char>, i: int, acc: Seq<TokenV>) -> Result<Seq<TokenV>, EvalError>
    decreases s.len() - i, 0int,
{
    if i >= s.len() {
        Ok(acc)
    } else {
        let c = s[i];
        if c == '(' || c == ')' {
            lex_new(s, i + 1, acc.push(TokenV::Bracket(c)))
        } else if is_digit(c) {
            lex_number(s, i + 1, acc, seq![c])
        } else {
            lex_match(s, i + 1, acc, seq![c])
        }
    }
}

/// The tokenizer inside an operator match attempt whose consumed
/// characters are `buf`.  A single remaining candidate is accepted at
/// once, skipping the lookahead the disambiguation already used; no
/// remaining candidate is a lexical failure; a match attempt still open
/// at the end of input is dropped, as nothing was resolved to emit.
pub open spec fn lex_match(s: Seq<char>, i: int, acc: Seq<TokenV>, buf: Seq<char>) -> Result<
    Seq<TokenV>,
    EvalError,
>
    decreases s.len() - i, 1int,
{
    let cands = candidates_for(buf);
    if cands.len() == 1 {
        let op = cands[0];
        let skip: int = if code_of(op).len() >= buf.len() {
            code_of(op).len() - buf.len()
        } else {
            0
        };
        let clamped = if i + skip > s.len() {
            s.len() as int
        } else {
            i + skip
        };
        let j = if clamped < i {
            i
        } else {
            clamped
        };
        lex_new(s, j, acc.push(TokenV::Op(op)))
    } else if cands.len() == 0 {
        Err(EvalError::LexError)
    } else if i >= s.len() {
        Ok(acc)
    } else {
        lex_match(s, i + 1, acc, buf.push(s[i]))
    }
}

/// The tokenizer inside a numeric literal `buf`.  A digit or point
/// extends it; anything else closes it, emits it if it is well formed,
/// and hands the same character back to `lex_new`.
pub open spec fn lex_number(s: Seq<char>, i: int, acc: Seq<TokenV>, buf: Seq<char>) -> Result<
    Seq<TokenV>,
    EvalError,
>
    decreases s.len() - i, 2int,
{
    if i >= s.len() {
        if valid_literal(buf) {
            Ok(acc.push(TokenV::Number(buf)))
        } else {
            Err(EvalError::LexError)
        }
    } else {
        let c = s[i];
        if is_digit(c) || c == '.' {
            lex_number(s, i + 1, acc, buf.push(c))
        } else if valid_literal(buf) {
            lex_new(s, i, acc.push(TokenV::Number(buf)))
        } else {
            Err(EvalError::LexError)
        }
    }
}

/// The token sequence of an expression string: empty input is its own
/// failure; otherwise lexing starts between tokens at the first
/// character.
pub open spec fn spec_tokenize(s: Seq<char>) -> Result<Seq<TokenV>, EvalError> {
    if s.len() == 0 {
        Err(EvalError::EmptyInput)
    } else {
        lex_new(s, 0, Seq::empty())
    }
}

/// The lexer state the executable tokenizer is in, as a spec value: the
/// result the remaining input will produce from here.
pub open spec fn lex_state(
    s: Seq<char>,
    i: int,
    acc: Seq<TokenV>,
    in_number: bool,
    num_buf: Seq<char>,
    match_buf: Seq<char>,
) -> Result<Seq<TokenV>, EvalError> {
    if in_number {
        lex_number(s, i, acc, num_buf)
    } else if match_buf.len() == 0 {
        lex_new(s, i, acc)
    } else {
        lex_match(s, i, acc, match_buf)
    }
}

/// Produce the token sequence of the raw expression, reading character
/// by character: digits and points accumulate into numeric literals,
/// brackets are emitted at once, and everything else feeds the
/// registry's incremental longest-prefix matcher.
pub fn tokenizer(input: &str, operators: &mut OperatorStore) -> (r: Result<Vec<Token>, EvalError>)
    requires
        old(operators).ready(),
    ensures
        ({
            let expected = spec_tokenize(input@);
            match r {
                Ok(ts) => expected == Ok::<Seq<TokenV>, EvalError>(tok_views(ts@)),
                Err(e) => expected == Err::<Seq<TokenV>, EvalError>(e),
            }
        }),
{
    let ghost s = input@;
    let n = input.unicode_len();
    if n == 0 {
        return Err(EvalError::EmptyInput);
    }
    let mut tokens: Vec<Token> = Vec::new();
    let mut current: Vec<char> = Vec::new();
    let mut dots: usize = 0;
    let mut is_number = false;
    let mut i: usize = 0;
    proof {
        assert(tok_views(Seq::<Token>::empty()) =~= Seq::<TokenV>::empty());
        assert(dot_count(Seq::<char>::empty()) == 0);
    }
    while i < n
        invariant
            n == s.len(),
            s == input@,
            i <= n,
            operators.inv(),
            is_number ==> operators.buf().len() == 0,
            is_number ==> current@.len() > 0,
            !is_number ==> current@.len() == 0,
            dots == dot_count(current@),
            operators.buf().len() > 0 ==> candidates_for(operators.buf()).len() >= 2,
            spec_tokenize(s) == lex_state(
                s,
                i as int,
                tok_views(tokens@),
                is_number,
                current@,
                operators.buf(),
            ),
        decreases n - i, (if is_number { 1int } else { 0int }),
    {
        let c = input.get_char(i);
        if is_number {
            if (c >= '0' && c <= '9') || c == '.' {
                proof {
                    assert(lex_number(s, i as int, tok_views(tokens@), current@) == lex_number(
                        s,
                        i + 1,
                        tok_views(tokens@),
                        current@.push(c),
                    ));
                    assert(current@.push(c).drop_last() =~= current@);
                    assert(current@.push(c).last() == c);
                    lemma_dot_count_le(current@);
                }
                current.push(c);
                if c == '.' {
                    let cl = current.len();
                    proof {
                        assert(dots < cl);
                    }
                    dots += 1;
                }
                i += 1;
            } else {
                if dots > 1 {
                    proof {
                        assert(lex_number(s, i as int, tok_views(tokens@), current@) == Err::<
                            Seq<TokenV>,
                            EvalError,
                        >(EvalError::LexError));
                    }
                    return Err(EvalError::LexError);
                }
                let ghost toks_before = tokens@;
                proof {
                    assert(lex_number(s, i as int, tok_views(tokens@), current@) == lex_new(
                        s,
                        i as int,
                        tok_views(tokens@).push(TokenV::Number(current@)),
                    ));
                }
                tokens.push(Token::Number(current));
                proof {
                    lemma_tok_views_push(toks_before, tokens@.last());
                }
                current = Vec::new();
                dots = 0;
                is_number = false;
                proof {
                    assert(dot_count(Seq::<char>::empty()) == 0);
                }
            }
        } else {
            let fresh = operators.is_fresh();
            if fresh && (c == '(' || c == ')') {
                let ghost toks_before = tokens@;
                proof {
                    assert(lex_new(s, i as int, tok_views(tokens@)) == lex_new(
                        s,
                        i + 1,
                        tok_views(tokens@).push(TokenV::Bracket(c)),
                    ));
                }
                tokens.push(Token::Bracket(c));
                proof {
                    lemma_tok_views_push(toks_before, tokens@.last());
                }
                i += 1;
            } else if fresh && c >= '0' && c <= '9' {
                proof {
                    assert(lex_new(s, i as int, tok_views(tokens@)) == lex_number(
                        s,
                        i + 1,
                        tok_views(tokens@),
                        seq![c],
                    ));
                    assert(seq![c].drop_last() =~= Seq::<char>::empty());
                    assert(seq![c].last() == c);
                    assert(dot_count(Seq::<char>::empty()) == 0);
                    assert(dot_count(seq![c]) == 0);
                }
                current.push(c);
                proof {
                    assert(current@ =~= seq![c]);
                }
                i += 1;
                is_number = true;
            } else {
                let ghost buf_before = operators.buf();
                proof {
                    if buf_before.len() == 0 {
                        assert(lex_new(s, i as int, tok_views(tokens@)) == lex_match(
                            s,
                            i + 1,
                            tok_views(tokens@),
                            seq![c],
                        ));
                        assert(buf_before.push(c) =~= seq![c]);
                    } else {
                        assert(lex_match(s, i as int, tok_views(tokens@), buf_before) == lex_match(
                            s,
                            i + 1,
                            tok_views(tokens@),
                            buf_before.push(c),
                        ));
                    }
                }
                let ghost i0 = i as int;
                let m = operators.match_step(c);
                if m.0 {
                    let matched = match m.1 {
                        Some(t) => t,
                        None => { return Err(EvalError::LexError); },
                    };
                    let ghost toks_before = tokens@;
                    let ghost cands = candidates_for(buf_before.push(c));
                    tokens.push(matched);
                    let skip = m.2 as usize;
                    i += 1;
                    if skip >= n - i {
                        i = n;
                    } else {
                        i += skip;
                    }
                    proof {
                        lemma_tok_views_push(toks_before, tokens@.last());
                        assert(cands.len() == 1);
                        assert(code_of(cands[0]).len() >= buf_before.push(c).len());
                        assert(i as int == ({
                            let sk: int = code_of(cands[0]).len() - buf_before.push(c).len();
                            if i0 + 1 + sk > s.len() {
                                s.len() as int
                            } else {
                                i0 + 1 + sk
                            }
                        }));
                        assert(lex_match(s, i0 + 1, tok_views(toks_before), buf_before.push(c))
                            == lex_new(s, i as int, tok_views(tokens@)));
                    }
                } else {
                    if operators.is_fresh() {
                        proof {
                            let cands = candidates_for(buf_before.push(c));
                            assert(cands.len() != 1);
                            if cands.len() >= 2 {
                                assert(operators.buf().len() > 0);
                            }
                            assert(cands.len() == 0);
                            assert(lex_match(s, i + 1, tok_views(tokens@), buf_before.push(c))
                                == Err::<Seq<TokenV>, EvalError>(EvalError::LexError));
                        }
                        return Err(EvalError::LexError);
                    }
                    i += 1;
                }
            }
        }
    }
    if is_number {
        if dots > 1 {
            proof {
                assert(lex_number(s, n as int, tok_views(tokens@), current@) == Err::<
                    Seq<TokenV>,
                    EvalError,
                >(EvalError::LexError));
            }
            return Err(EvalError::LexError);
        }
        let ghost toks_before = tokens@;
        proof {
            assert(lex_number(s, n as int, tok_views(tokens@), current@) == Ok::<
                Seq<TokenV>,
                EvalError,
            >(tok_views(tokens@).push(TokenV::Number(current@))));
        }
        tokens.push(Token::Number(current));
        proof {
            lemma_tok_views_push(toks_before, tokens@.last());
        }
        Ok(tokens)
    } else {
        proof {
            if operators.buf().len() == 0 {
                assert(lex_new(s, n as int, tok_views(tokens@)) == Ok::<Seq<TokenV>, EvalError>(
                    tok_views(tokens@),
                ));
            } else {
                assert(lex_match(s, n as int, tok_views(tokens@), operators.buf()) == Ok::<
                    Seq<TokenV>,
                    EvalError,
                >(tok_views(tokens@)));
            }
        }
        Ok(tokens)
    }
}

} // verus!
