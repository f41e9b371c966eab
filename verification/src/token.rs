use vstd::prelude::*;

use crate::operator::OpCode;

verus! {

/// Why an evaluation failed.
#[derive(Debug, PartialEq, Eq, Structural, Clone, Copy)]
pub enum EvalError {
    /// The expression string was empty, so there is no leading character to
    /// classify; a distinguished lexical failure.
    EmptyInput,
    /// A character could not start or extend any known token, or a numeric
    /// literal's accumulated characters do not form a number.
    LexError,
    /// An operator code reached a stage without a registry entry.  The
    /// closed operator enumeration makes this unreachable; the variant is
    /// kept so the error set names every failure class of the pipeline.
    UnknownOperator,
    /// The postfix pass ran out of operands for an operator's arity, or the
    /// value stack did not end with exactly one value.
    MalformedExpression,
}

/// One lexical unit of an expression.
///
/// A number keeps the characters of its literal; turning them into a
/// floating-point value is the caller's concern.
pub enum Token {
    Number(Vec<char>),
    Op(OpCode),
    Bracket(char),
}

/// The mathematical shape of a [`Token`]: the literal becomes a sequence.
pub enum TokenV {
    Number(Seq<char>),
    Op(OpCode),
    Bracket(char),
}

impl Token {
    /// A fresh token with the same view.
    pub fn duplicate(&self) -> (r: Token)
        ensures
            r@ == self@,
    {
        match self {
            Token::Number(s) => {
                let copy = s.clone();
                proof {
                    assert(copy@ =~= s@);
                }
                Token::Number(copy)
            },
            Token::Op(c) => Token::Op(*c),
            Token::Bracket(b) => Token::Bracket(*b),
        }
    }
}

impl View for Token {
    type V = TokenV;

    open spec fn view(&self) -> TokenV {
        match self {
            Token::Number(s) => TokenV::Number(s@),
            Token::Op(c) => TokenV::Op(*c),
            Token::Bracket(b) => TokenV::Bracket(*b),
        }
    }
}

/// The views of a token vector's elements.
pub open spec fn tok_views(ts: Seq<Token>) -> Seq<TokenV> {
    ts.map_values(|t: Token| t@)
}

/// Appending a token appends its view.
pub proof fn lemma_tok_views_push(ts: Seq<Token>, t: Token)
    ensures
        tok_views(ts.push(t)) == tok_views(ts).push(t@),
{
    assert(tok_views(ts.push(t)) =~= tok_views(ts).push(t@));
}

/// Dropping the last token drops its view.
pub proof fn lemma_tok_views_drop_last(ts: Seq<Token>)
    requires
        ts.len() > 0,
    ensures
        tok_views(ts.drop_last()) == tok_views(ts).drop_last(),
        tok_views(ts).last() == ts.last()@,
{
    assert(tok_views(ts.drop_last()) =~= tok_views(ts).drop_last());
}

/// The literal `0` inserted by unary-minus normalization.
pub open spec fn zero_token() -> TokenV {
    TokenV::Number(seq!['0'])
}

/// An open-bracket token.
pub open spec fn open_bracket() -> TokenV {
    TokenV::Bracket('(')
}

/// A close-bracket token.
pub open spec fn close_bracket() -> TokenV {
    TokenV::Bracket(')')
}

/// Whether a token is an open bracket, as executable code.
pub(crate) fn is_open_tok(t: &Token) -> (r: bool)
    ensures
        r == (t@ == open_bracket()),
{
    match t {
        Token::Bracket(b) => *b == '(',
        _ => false,
    }
}

} // verus!
