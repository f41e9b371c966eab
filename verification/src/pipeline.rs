use vstd::prelude::*;

use crate::expr::{build_status, postfix_of, wf_expr, Expr};
use crate::normalize::{process_negatives, spec_normalize};
use crate::operator::OperatorStore;
use crate::shunting::{eval, spec_shunt};
use crate::token::{EvalError, TokenV};
use crate::tokenizer::{spec_tokenize, tokenizer};

verus! {

/// The postfix sequence the pipeline reaches for an expression string:
/// tokenization, unary-minus normalization and the Shunting-Yard
/// conversion in order, or the first stage failure.
pub open spec fn spec_postfix(s: Seq<char>) -> Result<Seq<TokenV>, EvalError> {
    match spec_tokenize(s) {
        Err(e) => Err(e),
        Ok(ts) => Ok(spec_shunt(spec_normalize(ts))),
    }
}

/// Evaluate an expression string down to its evaluation tree: tokenize,
/// normalize unary minus, convert to postfix and fold the postfix
/// sequence.  The returned tree is pinned by its flattening: it is well
/// formed and prints back as exactly the postfix sequence the pipeline
/// reached.  Every failure is the exact stage failure: empty input and
/// lexical errors from tokenization, malformed expressions from the
/// postfix fold.
pub fn process(input: &str) -> (r: Result<Expr, EvalError>)
    ensures
        spec_postfix(input@) matches Err(e) ==> r == Err::<Expr, EvalError>(e),
        spec_postfix(input@) matches Ok(pf) ==> {
            &&& (build_status(pf) matches Err(m) ==> r == Err::<Expr, EvalError>(m))
            &&& (build_status(pf) is Ok ==> (r matches Ok(e) && wf_expr(e) && postfix_of(e)
                == pf))
        },
{
    let mut os = OperatorStore::new();
    let tokens = match tokenizer(input, &mut os) {
        Ok(ts) => ts,
        Err(e) => {
            return Err(e);
        },
    };
    let normalized = process_negatives(tokens);
    let queue = eval(normalized, &os);
    crate::expr::calc(queue, &os)
}

} // verus!
