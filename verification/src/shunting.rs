use vstd::prelude::*;

use crate::operator::{precedence_of, stack_precedence, OperatorStore};
use crate::token::{
    is_open_tok, lemma_tok_views_drop_last, lemma_tok_views_push, open_bracket, tok_views, Token,
    TokenV,
};

verus! {

/// Every precedence tier lies strictly below the bracket sentinel.
pub proof fn lemma_precedence_range(op: crate::operator::OpCode)
    ensures
        1 <= precedence_of(op) <= 4,
{
}

/// Pop operators that bind at least as tightly as tier `p` from the stack
/// to the output queue; the bracket sentinel is never popped this way.
pub open spec fn pop_ge(stack: Seq<TokenV>, out: Seq<TokenV>, p: u8) -> (Seq<TokenV>, Seq<TokenV>)
    decreases stack.len(),
{
    if stack.len() == 0 {
        (stack, out)
    } else {
        match stack.last() {
            TokenV::Op(o) => if precedence_of(o) >= p {
                pop_ge(stack.drop_last(), out.push(stack.last()), p)
            } else {
                (stack, out)
            },
            _ => (stack, out),
        }
    }
}

/// Pop operators to the output queue until an open-bracket marker is
/// popped and discarded; an empty stack leaves everything unchanged.
pub open spec fn pop_until_open(stack: Seq<TokenV>, out: Seq<TokenV>) -> (Seq<TokenV>, Seq<
    TokenV,
>)
    decreases stack.len(),
{
    if stack.len() == 0 {
        (stack, out)
    } else if stack.last() == open_bracket() {
        (stack.drop_last(), out)
    } else {
        pop_until_open(stack.drop_last(), out.push(stack.last()))
    }
}

/// Pop the whole stack to the output queue, discarding bracket markers.
pub open spec fn drain_stack(stack: Seq<TokenV>, out: Seq<TokenV>) -> Seq<TokenV>
    decreases stack.len(),
{
    if stack.len() == 0 {
        out
    } else {
        match stack.last() {
            TokenV::Bracket(_) => drain_stack(stack.drop_last(), out),
            _ => drain_stack(stack.drop_last(), out.push(stack.last())),
        }
    }
}

/// One Shunting-Yard step per token: numbers go to the output queue, an
/// operator first pops everything at least as binding, an open bracket is
/// pushed as a marker, and a close bracket pops back to its marker.
pub open spec fn shunt_loop(ts: Seq<TokenV>, stack: Seq<TokenV>, out: Seq<TokenV>) -> Seq<TokenV>
    decreases ts.len(),
{
    if ts.len() == 0 {
        drain_stack(stack, out)
    } else {
        let t = ts[0];
        match t {
            TokenV::Number(_) => shunt_loop(ts.drop_first(), stack, out.push(t)),
            TokenV::Op(o) => {
                let popped = pop_ge(stack, out, precedence_of(o));
                shunt_loop(ts.drop_first(), popped.0.push(t), popped.1)
            },
            TokenV::Bracket(b) => {
                if b == '(' {
                    shunt_loop(ts.drop_first(), stack.push(t), out)
                } else {
                    let popped = pop_until_open(stack, out);
                    shunt_loop(ts.drop_first(), popped.0, popped.1)
                }
            },
        }
    }
}

/// The postfix order of an infix token sequence, starting from an empty
/// operator stack and output queue.
pub open spec fn spec_shunt(ts: Seq<TokenV>) -> Seq<TokenV> {
    shunt_loop(ts, Seq::empty(), Seq::empty())
}

/// Convert an infix token sequence into postfix order with an explicit
/// operator stack, comparing precedence tiers through the registry.
pub fn eval(input: Vec<Token>, operators: &OperatorStore) -> (r: Vec<Token>)
    ensures
        tok_views(r@) == spec_shunt(tok_views(input@)),
{
    let ghost v = tok_views(input@);
    let n = input.len();
    let mut output_queue: Vec<Token> = Vec::new();
    let mut operator_stack: Vec<Token> = Vec::new();
    let mut i: usize = 0;
    proof {
        assert(v.skip(0) =~= v);
        assert(tok_views(Seq::<Token>::empty()) =~= Seq::<TokenV>::empty());
    }
    while i < n
        invariant
            i <= n,
            n == input@.len(),
            v == tok_views(input@),
            shunt_loop(v.skip(i as int), tok_views(operator_stack@), tok_views(output_queue@))
                == spec_shunt(v),
        decreases n - i,
    {
        proof {
            assert(v.skip(i as int).drop_first() =~= v.skip(i + 1));
            assert(v.skip(i as int)[0] == v[i as int]);
        }
        let token = &input[i];
        match token {
            Token::Number(_) => {
                let ghost before = output_queue@;
                output_queue.push(token.duplicate());
                proof {
                    lemma_tok_views_push(before, output_queue@.last());
                }
            },
            Token::Op(o) => {
                let p = operators.get_precedence(token);
                proof {
                    assert(token@ == TokenV::Op(*o));
                    lemma_precedence_range(*o);
                    assert(p == precedence_of(*o));
                }
                let ghost s0 = tok_views(operator_stack@);
                let ghost o0 = tok_views(output_queue@);
                let mut done = false;
                while !done
                    invariant
                        1 <= p <= 4,
                        !done ==> pop_ge(tok_views(operator_stack@), tok_views(output_queue@), p)
                            == pop_ge(s0, o0, p),
                        done ==> pop_ge(s0, o0, p) == (
                            tok_views(operator_stack@),
                            tok_views(output_queue@),
                        ),
                    decreases operator_stack@.len(), (if done { 0int } else { 1int }),
                {
                    if operator_stack.len() == 0 {
                        done = true;
                    } else {
                        let last_precedence = operators.get_precedence(
                            &operator_stack[operator_stack.len() - 1],
                        );
                        proof {
                            lemma_tok_views_drop_last(operator_stack@);
                            match tok_views(operator_stack@).last() {
                                TokenV::Op(top) => lemma_precedence_range(top),
                                _ => (),
                            }
                        }
                        if last_precedence >= p && last_precedence != 255 {
                            let ghost sb = tok_views(operator_stack@);
                            let ghost ob = tok_views(output_queue@);
                            proof {
                                assert(last_precedence == stack_precedence(sb.last()));
                                match sb.last() {
                                    TokenV::Op(top) => {
                                        assert(pop_ge(sb, ob, p) == pop_ge(
                                            sb.drop_last(),
                                            ob.push(sb.last()),
                                            p,
                                        ));
                                    },
                                    TokenV::Number(lit) => {
                                        assert(stack_precedence(TokenV::Number(lit)) == 0);
                                        assert(false);
                                    },
                                    TokenV::Bracket(bc) => {
                                        assert(stack_precedence(TokenV::Bracket(bc)) == 255);
                                        assert(false);
                                    },
                                }
                            }
                            let ghost queue_before = output_queue@;
                            let popped = match operator_stack.pop() {
                                Some(t) => t,
                                None => { return output_queue; },
                            };
                            output_queue.push(popped);
                            proof {
                                lemma_tok_views_push(queue_before, output_queue@.last());
                                assert(tok_views(output_queue@) =~= ob.push(sb.last()));
                            }
                        } else {
                            done = true;
                        }
                    }
                }
                let ghost sb = operator_stack@;
                operator_stack.push(Token::Op(*o));
                proof {
                    lemma_tok_views_push(sb, operator_stack@.last());
                }
            },
            Token::Bracket(b) => {
                if *b == '(' {
                    let ghost sb = operator_stack@;
                    operator_stack.push(Token::Bracket('('));
                    proof {
                        lemma_tok_views_push(sb, operator_stack@.last());
                    }
                } else {
                    let ghost s0 = tok_views(operator_stack@);
                    let ghost o0 = tok_views(output_queue@);
                    let mut done = false;
                    while !done
                        invariant
                            !done ==> pop_until_open(
                                tok_views(operator_stack@),
                                tok_views(output_queue@),
                            ) == pop_until_open(s0, o0),
                            done ==> pop_until_open(s0, o0) == (
                                tok_views(operator_stack@),
                                tok_views(output_queue@),
                            ),
                        decreases operator_stack@.len(), (if done { 0int } else { 1int }),
                    {
                        if operator_stack.len() == 0 {
                            done = true;
                        } else {
                            proof {
                                lemma_tok_views_drop_last(operator_stack@);
                            }
                            let is_open = is_open_tok(&operator_stack[operator_stack.len() - 1]);
                            if is_open {
                                let _ = operator_stack.pop();
                                done = true;
                            } else {
                                let ghost sb = tok_views(operator_stack@);
                                let ghost ob = tok_views(output_queue@);
                                proof {
                                    assert(sb.last() != open_bracket());
                                    assert(pop_until_open(sb, ob) == pop_until_open(
                                        sb.drop_last(),
                                        ob.push(sb.last()),
                                    ));
                                }
                                let popped = match operator_stack.pop() {
                                    Some(t) => t,
                                    None => { return output_queue; },
                                };
                                output_queue.push(popped);
                                proof {
                                    assert(tok_views(output_queue@) =~= ob.push(sb.last()));
                                }
                            }
                        }
                    }
                }
            },
        }
        i += 1;
    }
    proof {
        assert(v.skip(n as int) =~= Seq::<TokenV>::empty());
    }
    while operator_stack.len() > 0
        invariant
            drain_stack(tok_views(operator_stack@), tok_views(output_queue@)) == spec_shunt(v),
        decreases operator_stack@.len(),
    {
        proof {
            lemma_tok_views_drop_last(operator_stack@);
        }
        let ghost ob = output_queue@;
        let popped = match operator_stack.pop() {
            Some(t) => t,
            None => { return output_queue; },
        };
        let is_bracket = match &popped {
            Token::Bracket(_) => true,
            _ => false,
        };
        if !is_bracket {
            output_queue.push(popped);
            proof {
                lemma_tok_views_push(ob, output_queue@.last());
            }
        }
    }
    output_queue
}

} // verus!
