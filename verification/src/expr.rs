use vstd::prelude::*;

use crate::operator::{arity_of, OpCode, OperatorStore};
use crate::token::{tok_views, EvalError, Token, TokenV};

verus! {

/// An evaluation tree.
///
/// The postfix pass turns the output queue into one of these; applying
/// the floating-point arithmetic that each operator code names is the
/// caller's concern, so a number node keeps its literal's characters.
pub enum Expr {
    Num(Vec<char>),
    Unary(OpCode, Box<Expr>),
    Binary(OpCode, Box<Expr>, Box<Expr>),
}

/// The postfix sequence a tree prints as: operands first, operator last.
///
/// A well-formed tree is the only one that prints as its sequence, so
/// this flattening pins the tree that `calc` builds.
pub open spec fn postfix_of(e: Expr) -> Seq<TokenV>
    decreases e,
{
    match e {
        Expr::Num(s) => seq![TokenV::Number(s@)],
        Expr::Unary(o, a) => postfix_of(*a).push(TokenV::Op(o)),
        Expr::Binary(o, a, b) => postfix_of(*a) + postfix_of(*b) + seq![TokenV::Op(o)],
    }
}

/// Every operator node consumes exactly its arity.
pub open spec fn wf_expr(e: Expr) -> bool
    decreases e,
{
    match e {
        Expr::Num(_) => true,
        Expr::Unary(o, a) => arity_of(o) == 1 && wf_expr(*a),
        Expr::Binary(o, a, b) => arity_of(o) == 2 && wf_expr(*a) && wf_expr(*b),
    }
}

/// Whether two trees agree node for node: the same shape, the same
/// operator codes, and literals with the same characters.
pub open spec fn same_tree(e1: Expr, e2: Expr) -> bool
    decreases e1,
{
    match (e1, e2) {
        (Expr::Num(s1), Expr::Num(s2)) => s1@ == s2@,
        (Expr::Unary(o1, a1), Expr::Unary(o2, a2)) => o1 == o2 && same_tree(*a1, *a2),
        (Expr::Binary(o1, a1, b1), Expr::Binary(o2, a2, b2)) => o1 == o2 && same_tree(*a1, *a2)
            && same_tree(*b1, *b2),
        _ => false,
    }
}

/// The net stack effect of one postfix token: a number pushes one value,
/// an operator consumes its arity and pushes one.
pub open spec fn weight(t: TokenV) -> int {
    match t {
        TokenV::Number(_) => 1,
        TokenV::Op(o) => 1 - (arity_of(o) as int),
        TokenV::Bracket(_) => 0,
    }
}

/// The net stack effect of a postfix sequence.
pub open spec fn weight_sum(ts: Seq<TokenV>) -> int
    decreases ts.len(),
{
    if ts.len() == 0 {
        0
    } else {
        weight_sum(ts.drop_last()) + weight(ts.last())
    }
}

/// Stack effects add over concatenation.
pub proof fn lemma_weight_sum_concat(a: Seq<TokenV>, b: Seq<TokenV>)
    ensures
        weight_sum(a + b) == weight_sum(a) + weight_sum(b),
    decreases b.len(),
{
    if b.len() == 0 {
        assert(a + b =~= a);
    } else {
        assert((a + b).drop_last() =~= a + b.drop_last());
        assert((a + b).last() == b.last());
        lemma_weight_sum_concat(a, b.drop_last());
    }
}

/// Appending a token adds its stack effect.
pub proof fn lemma_weight_sum_push(ts: Seq<TokenV>, t: TokenV)
    ensures
        weight_sum(ts.push(t)) == weight_sum(ts) + weight(t),
{
    assert(ts.push(t).drop_last() =~= ts);
    assert(ts.push(t).last() == t);
}

/// Pulling the first token off a sequence splits its stack effect.
pub proof fn lemma_weight_sum_first(ts: Seq<TokenV>)
    requires
        ts.len() > 0,
    ensures
        weight_sum(ts) == weight(ts[0]) + weight_sum(ts.drop_first()),
{
    assert(ts =~= seq![ts[0]] + ts.drop_first());
    lemma_weight_sum_concat(seq![ts[0]], ts.drop_first());
    assert(seq![ts[0]].drop_last() =~= Seq::<TokenV>::empty());
    assert(weight_sum(Seq::<TokenV>::empty()) == 0);
}

/// A postfix sequence that evaluates cleanly from depth `d` nets exactly
/// `1 - d` values.
proof fn lemma_status_balance(pf: Seq<TokenV>, d: int)
    requires
        build_status_loop(pf, d) is Ok,
    ensures
        weight_sum(pf) == 1 - d,
    decreases pf.len(),
{
    if pf.len() == 0 {
        assert(weight_sum(pf) == 0);
    } else {
        lemma_weight_sum_first(pf);
        match pf[0] {
            TokenV::Number(_) => {
                lemma_status_balance(pf.drop_first(), d + 1);
            },
            TokenV::Op(o) => {
                lemma_status_balance(pf.drop_first(), d - arity_of(o) + 1);
            },
            TokenV::Bracket(_) => {},
        }
    }
}

/// The postfix pass succeeds only on sequences that net exactly one
/// value.
pub proof fn lemma_build_status_balance(pf: Seq<TokenV>)
    ensures
        build_status(pf) is Ok ==> weight_sum(pf) == 1,
{
    if build_status(pf) is Ok {
        lemma_status_balance(pf, 0);
    }
}

/// A well-formed tree's flattening nets exactly one value.
pub proof fn lemma_weight_of_tree(e: Expr)
    requires
        wf_expr(e),
    ensures
        weight_sum(postfix_of(e)) == 1,
    decreases e,
{
    assert(weight_sum(Seq::<TokenV>::empty()) == 0);
    match e {
        Expr::Num(s) => {
            let pf = seq![TokenV::Number(s@)];
            assert(pf.drop_last() =~= Seq::<TokenV>::empty());
            assert(pf.last() == TokenV::Number(s@));
        },
        Expr::Unary(o, a) => {
            lemma_weight_of_tree(*a);
            assert(postfix_of(*a).push(TokenV::Op(o)).drop_last() =~= postfix_of(*a));
        },
        Expr::Binary(o, a, b) => {
            lemma_weight_of_tree(*a);
            lemma_weight_of_tree(*b);
            lemma_weight_sum_concat(postfix_of(*a), postfix_of(*b));
            lemma_weight_sum_concat(postfix_of(*a) + postfix_of(*b), seq![TokenV::Op(o)]);
            let single = seq![TokenV::Op(o)];
            assert(single.drop_last() =~= Seq::<TokenV>::empty());
            assert(single.last() == TokenV::Op(o));
        },
    }
}

/// Every nonempty prefix of a well-formed tree's flattening nets at
/// least one value: no proper suffix of it is itself a flattening.
pub proof fn lemma_prefix_weights(e: Expr, k: int)
    requires
        wf_expr(e),
        1 <= k <= postfix_of(e).len(),
    ensures
        weight_sum(postfix_of(e).take(k)) >= 1,
    decreases e,
{
    match e {
        Expr::Num(s) => {
            assert(postfix_of(e).take(1) =~= postfix_of(e));
            lemma_weight_of_tree(e);
        },
        Expr::Unary(o, a) => {
            let pa = postfix_of(*a);
            if k <= pa.len() {
                assert(postfix_of(e).take(k) =~= pa.take(k));
                lemma_prefix_weights(*a, k);
            } else {
                assert(postfix_of(e).take(k) =~= postfix_of(e));
                lemma_weight_of_tree(e);
            }
        },
        Expr::Binary(o, a, b) => {
            let pa = postfix_of(*a);
            let pb = postfix_of(*b);
            if k <= pa.len() {
                assert(postfix_of(e).take(k) =~= pa.take(k));
                lemma_prefix_weights(*a, k);
            } else if k <= pa.len() + pb.len() {
                assert(postfix_of(e).take(k) =~= pa + pb.take(k - pa.len()));
                lemma_weight_of_tree(*a);
                lemma_prefix_weights(*b, k - pa.len());
                lemma_weight_sum_concat(pa, pb.take(k - pa.len()));
            } else {
                assert(postfix_of(e).take(k) =~= postfix_of(e));
                lemma_weight_of_tree(e);
            }
        },
    }
}

/// A left part cannot be shorter than the other split's: it would make
/// a proper prefix of a flattening net zero values.
proof fn lemma_split_le(a1: Expr, b1: Expr, a2: Expr, b2: Expr)
    requires
        wf_expr(a1),
        wf_expr(b1),
        wf_expr(a2),
        wf_expr(b2),
        postfix_of(a1) + postfix_of(b1) == postfix_of(a2) + postfix_of(b2),
    ensures
        postfix_of(a1).len() >= postfix_of(a2).len(),
{
    let pa1 = postfix_of(a1);
    let pb1 = postfix_of(b1);
    let pa2 = postfix_of(a2);
    let pb2 = postfix_of(b2);
    if pa1.len() < pa2.len() {
        let c = pa1 + pb1;
        let d = pa2.len() - pa1.len();
        assert(c.len() == pa2.len() + pb2.len());
        assert(d <= pb1.len());
        assert(pa2 =~= c.take(pa2.len() as int));
        let mid = pb1.take(d as int);
        assert(c.take(pa2.len() as int) =~= pa1 + mid);
        lemma_weight_of_tree(a1);
        lemma_weight_of_tree(a2);
        lemma_weight_sum_concat(pa1, mid);
        assert(weight_sum(mid) == 0);
        lemma_prefix_weights(b1, d as int);
        assert(false);
    }
}

/// Two subtree splits of one sequence break at the same point.
proof fn lemma_split_agrees(a1: Expr, b1: Expr, a2: Expr, b2: Expr)
    requires
        wf_expr(a1),
        wf_expr(b1),
        wf_expr(a2),
        wf_expr(b2),
        postfix_of(a1) + postfix_of(b1) == postfix_of(a2) + postfix_of(b2),
    ensures
        postfix_of(a1).len() == postfix_of(a2).len(),
{
    lemma_split_le(a1, b1, a2, b2);
    lemma_split_le(a2, b2, a1, b1);
}

/// The flattening pins the tree: two well-formed trees with the same
/// postfix sequence agree node for node.
pub proof fn lemma_postfix_determines_tree(e1: Expr, e2: Expr)
    requires
        wf_expr(e1),
        wf_expr(e2),
        postfix_of(e1) == postfix_of(e2),
    ensures
        same_tree(e1, e2),
    decreases e1,
{
    match (e1, e2) {
        (Expr::Num(s1), Expr::Num(s2)) => {
            assert(postfix_of(e1)[0] == postfix_of(e2)[0]);
        },
        (Expr::Unary(o1, a1), Expr::Unary(o2, a2)) => {
            assert(postfix_of(e1).last() == postfix_of(e2).last());
            assert(postfix_of(e1).drop_last() =~= postfix_of(*a1));
            assert(postfix_of(e2).drop_last() =~= postfix_of(*a2));
            lemma_postfix_determines_tree(*a1, *a2);
        },
        (Expr::Binary(o1, a1, b1), Expr::Binary(o2, a2, b2)) => {
            let pa1 = postfix_of(*a1);
            let pb1 = postfix_of(*b1);
            let pa2 = postfix_of(*a2);
            let pb2 = postfix_of(*b2);
            assert((pa1 + pb1 + seq![TokenV::Op(o1)]).last() == TokenV::Op(o1));
            assert((pa2 + pb2 + seq![TokenV::Op(o2)]).last() == TokenV::Op(o2));
            assert(o1 == o2);
            assert((pa1 + pb1 + seq![TokenV::Op(o1)]).drop_last() =~= pa1 + pb1);
            assert((pa2 + pb2 + seq![TokenV::Op(o2)]).drop_last() =~= pa2 + pb2);
            assert(pa1 + pb1 == pa2 + pb2);
            lemma_split_agrees(*a1, *b1, *a2, *b2);
            {
                assert(pa1 =~= (pa1 + pb1).take(pa1.len() as int));
                assert(pa2 =~= (pa2 + pb2).take(pa2.len() as int));
                assert(pb1 =~= (pa1 + pb1).skip(pa1.len() as int));
                assert(pb2 =~= (pa2 + pb2).skip(pa2.len() as int));
                lemma_postfix_determines_tree(*a1, *a2);
                lemma_postfix_determines_tree(*b1, *b2);
            }
        },
        (Expr::Num(s1), Expr::Unary(o2, a2)) => {
            assert(postfix_of(e1).last() == postfix_of(e2).last());
            assert(postfix_of(e2).last() == TokenV::Op(o2));
        },
        (Expr::Num(s1), Expr::Binary(o2, a2, b2)) => {
            assert(postfix_of(e1).last() == postfix_of(e2).last());
            assert((postfix_of(*a2) + postfix_of(*b2) + seq![TokenV::Op(o2)]).last() == TokenV::Op(
                o2,
            ));
        },
        (Expr::Unary(o1, a1), Expr::Num(s2)) => {
            assert(postfix_of(e1).last() == postfix_of(e2).last());
            assert(postfix_of(e1).last() == TokenV::Op(o1));
        },
        (Expr::Binary(o1, a1, b1), Expr::Num(s2)) => {
            assert(postfix_of(e1).last() == postfix_of(e2).last());
            assert((postfix_of(*a1) + postfix_of(*b1) + seq![TokenV::Op(o1)]).last() == TokenV::Op(
                o1,
            ));
        },
        (Expr::Unary(o1, a1), Expr::Binary(o2, a2, b2)) => {
            assert(postfix_of(e1).drop_last() =~= postfix_of(*a1));
            assert((postfix_of(*a2) + postfix_of(*b2) + seq![TokenV::Op(o2)]).drop_last() =~=
            postfix_of(*a2) + postfix_of(*b2));
            lemma_weight_of_tree(*a1);
            lemma_weight_of_tree(*a2);
            lemma_weight_of_tree(*b2);
            lemma_weight_sum_concat(postfix_of(*a2), postfix_of(*b2));
        },
        (Expr::Binary(o1, a1, b1), Expr::Unary(o2, a2)) => {
            assert(postfix_of(e2).drop_last() =~= postfix_of(*a2));
            assert((postfix_of(*a1) + postfix_of(*b1) + seq![TokenV::Op(o1)]).drop_last() =~=
            postfix_of(*a1) + postfix_of(*b1));
            lemma_weight_of_tree(*a2);
            lemma_weight_of_tree(*a1);
            lemma_weight_of_tree(*b1);
            lemma_weight_sum_concat(postfix_of(*a1), postfix_of(*b1));
        },
    }
}

/// Whether a postfix sequence evaluates cleanly, tracked by value-stack
/// depth: a number pushes one value, an operator consumes its arity and
/// pushes one, and exactly one value must remain at the end.
pub open spec fn build_status_loop(pf: Seq<TokenV>, depth: int) -> Result<(), EvalError>
    decreases pf.len(),
{
    if pf.len() == 0 {
        if depth == 1 {
            Ok(())
        } else {
            Err(EvalError::MalformedExpression)
        }
    } else {
        match pf[0] {
            TokenV::Number(_) => build_status_loop(pf.drop_first(), depth + 1),
            TokenV::Op(o) => if depth >= arity_of(o) {
                build_status_loop(pf.drop_first(), depth - arity_of(o) + 1)
            } else {
                Err(EvalError::MalformedExpression)
            },
            TokenV::Bracket(_) => Err(EvalError::MalformedExpression),
        }
    }
}

/// Whether a postfix sequence evaluates cleanly, starting from an empty
/// value stack.
pub open spec fn build_status(pf: Seq<TokenV>) -> Result<(), EvalError> {
    build_status_loop(pf, 0)
}

/// The flattenings of a stack of trees, bottom first.
pub open spec fn stack_postfix(st: Seq<Expr>) -> Seq<TokenV>
    decreases st.len(),
{
    if st.len() == 0 {
        Seq::empty()
    } else {
        stack_postfix(st.drop_last()) + postfix_of(st.last())
    }
}

/// Consume a postfix sequence with a value stack and build the tree it
/// evaluates: a number pushes a leaf, an operator pops its arity-many
/// most recent operands (left-to-right order restored) and pushes the
/// combined node.  Fails when an operator finds too few operands, when a
/// bracket reached the queue, or when more or fewer than one value
/// remains at the end.
pub fn calc(input: Vec<Token>, operators: &OperatorStore) -> (r: Result<Expr, EvalError>)
    ensures
        r matches Ok(e) ==> build_status(tok_views(input@)) is Ok && wf_expr(e) && postfix_of(e)
            == tok_views(input@),
        r matches Err(err) ==> build_status(tok_views(input@)) == Err::<(), EvalError>(err),
{
    let ghost v = tok_views(input@);
    let n = input.len();
    let mut stack: Vec<Expr> = Vec::new();
    let mut i: usize = 0;
    proof {
        assert(v.skip(0) =~= v);
        assert(stack_postfix(Seq::empty()) =~= v.take(0));
    }
    while i < n
        invariant
            i <= n,
            n == input@.len(),
            v == tok_views(input@),
            build_status_loop(v.skip(i as int), stack@.len() as int) == build_status(v),
            stack_postfix(stack@) == v.take(i as int),
            forall|k: int| 0 <= k < stack@.len() ==> wf_expr(#[trigger] stack@[k]),
        decreases n - i,
    {
        proof {
            assert(v.skip(i as int).drop_first() =~= v.skip(i + 1));
            assert(v.skip(i as int)[0] == v[i as int]);
            assert(v.take(i + 1) =~= v.take(i as int).push(v[i as int]));
        }
        let token = &input[i];
        match token {
            Token::Number(lit) => {
                let ghost before = stack@;
                let copy = lit.clone();
                proof {
                    assert(copy@ =~= lit@);
                }
                stack.push(Expr::Num(copy));
                proof {
                    assert(stack@.drop_last() =~= before);
                    assert(stack_postfix(stack@) =~= v.take(i + 1));
                }
            },
            Token::Op(o) => {
                let lookup = operators.calc_and_no_of_arguments(o);
                let arity = lookup.1;
                if stack.len() < arity as usize {
                    return Err(EvalError::MalformedExpression);
                }
                let ghost before = stack@;
                if arity == 1 {
                    let a = match stack.pop() {
                        Some(e) => e,
                        None => { return Err(EvalError::MalformedExpression); },
                    };
                    stack.push(Expr::Unary(*o, Box::new(a)));
                    proof {
                        assert(stack@.drop_last() =~= before.drop_last());
                        assert(postfix_of(stack@.last()) == postfix_of(before.last()).push(
                            TokenV::Op(*o),
                        ));
                        assert(stack_postfix(stack@) =~= v.take(i + 1));
                    }
                } else {
                    let b = match stack.pop() {
                        Some(e) => e,
                        None => { return Err(EvalError::MalformedExpression); },
                    };
                    let a = match stack.pop() {
                        Some(e) => e,
                        None => { return Err(EvalError::MalformedExpression); },
                    };
                    stack.push(Expr::Binary(*o, Box::new(a), Box::new(b)));
                    proof {
                        assert(arity_of(*o) == 2);
                        assert(stack@.drop_last() =~= before.drop_last().drop_last());
                        assert(postfix_of(stack@.last()) == postfix_of(before.drop_last().last())
                            + postfix_of(before.last()) + seq![TokenV::Op(*o)]);
                        assert(stack_postfix(before.drop_last()) == stack_postfix(
                            before.drop_last().drop_last(),
                        ) + postfix_of(before.drop_last().last()));
                        assert(stack_postfix(stack@) =~= v.take(i + 1));
                    }
                }
            },
            Token::Bracket(_) => {
                return Err(EvalError::MalformedExpression);
            },
        }
        i += 1;
    }
    proof {
        assert(v.skip(n as int) =~= Seq::<TokenV>::empty());
    }
    if stack.len() == 1 {
        let ghost before = stack@;
        let e = match stack.pop() {
            Some(e) => e,
            None => { return Err(EvalError::MalformedExpression); },
        };
        proof {
            assert(before.drop_last() =~= Seq::<Expr>::empty());
            assert(stack_postfix(Seq::<Expr>::empty()) =~= Seq::<TokenV>::empty());
            assert(stack_postfix(before) == postfix_of(e));
            assert(v.take(n as int) =~= v);
        }
        Ok(e)
    } else {
        Err(EvalError::MalformedExpression)
    }
}

} // verus!
