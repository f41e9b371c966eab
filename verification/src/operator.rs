use vstd::prelude::*;

use crate::token::{Token, TokenV};

verus! {

/// The closed catalog of operator codes.
///
/// The registry's operator set is fixed at construction, so each operator
/// is one variant here; its textual code, precedence tier and arity are
/// given by the functions below, and the arithmetic each code stands for
/// is applied by the caller once an evaluation tree is built.
#[derive(Debug, PartialEq, Eq, Structural, Clone, Copy)]
pub enum OpCode {
    Plus,
    Minus,
    Mul,
    Div,
    Pow,
    Sin,
    Cos,
    Tan,
}

/// The characters of an operator's textual code.
pub open spec fn code_of(op: OpCode) -> Seq<char> {
    match op {
        OpCode::Plus => seq!['+'],
        OpCode::Minus => seq!['-'],
        OpCode::Mul => seq!['*'],
        OpCode::Div => seq!['/'],
        OpCode::Pow => seq!['p'],
        OpCode::Sin => seq!['s', 'i', 'n'],
        OpCode::Cos => seq!['c', 'o', 's'],
        OpCode::Tan => seq!['t', 'a', 'n'],
    }
}

/// An operator's precedence tier; higher binds tighter.
pub open spec fn precedence_of(op: OpCode) -> u8 {
    match op {
        OpCode::Plus => 1,
        OpCode::Minus => 1,
        OpCode::Mul => 2,
        OpCode::Div => 2,
        OpCode::Pow => 3,
        OpCode::Sin => 4,
        OpCode::Cos => 4,
        OpCode::Tan => 4,
    }
}

/// How many operands an operator consumes.
pub open spec fn arity_of(op: OpCode) -> u8 {
    match op {
        OpCode::Plus => 2,
        OpCode::Minus => 2,
        OpCode::Mul => 2,
        OpCode::Div => 2,
        OpCode::Pow => 2,
        OpCode::Sin => 1,
        OpCode::Cos => 1,
        OpCode::Tan => 1,
    }
}

/// Every registered operator, in registration order.
pub open spec fn catalog() -> Seq<OpCode> {
    seq![
        OpCode::Plus,
        OpCode::Minus,
        OpCode::Mul,
        OpCode::Div,
        OpCode::Pow,
        OpCode::Sin,
        OpCode::Tan,
        OpCode::Cos,
    ]
}

/// An operator's precedence tier, as executable code.
pub fn op_precedence(op: OpCode) -> (r: u8)
    ensures
        r == precedence_of(op),
{
    match op {
        OpCode::Plus => 1,
        OpCode::Minus => 1,
        OpCode::Mul => 2,
        OpCode::Div => 2,
        OpCode::Pow => 3,
        OpCode::Sin => 4,
        OpCode::Cos => 4,
        OpCode::Tan => 4,
    }
}

/// An operator's arity, as executable code.
pub fn op_arity(op: OpCode) -> (r: u8)
    ensures
        r == arity_of(op),
{
    match op {
        OpCode::Plus => 2,
        OpCode::Minus => 2,
        OpCode::Mul => 2,
        OpCode::Div => 2,
        OpCode::Pow => 2,
        OpCode::Sin => 1,
        OpCode::Cos => 1,
        OpCode::Tan => 1,
    }
}

/// The characters of an operator's code, as executable code.
pub fn op_code_chars(op: OpCode) -> (r: Vec<char>)
    ensures
        r@ == code_of(op),
{
    match op {
        OpCode::Plus => vec!['+'],
        OpCode::Minus => vec!['-'],
        OpCode::Mul => vec!['*'],
        OpCode::Div => vec!['/'],
        OpCode::Pow => vec!['p'],
        OpCode::Sin => vec!['s', 'i', 'n'],
        OpCode::Cos => vec!['c', 'o', 's'],
        OpCode::Tan => vec!['t', 'a', 'n'],
    }
}

/// No code is longer than three characters.
pub proof fn lemma_code_len(op: OpCode)
    ensures
        1 <= code_of(op).len() <= 3,
{
}

/// The operators of `ops` whose codes have `buf` as a prefix, in order.
pub open spec fn candidates_from(ops: Seq<OpCode>, buf: Seq<char>) -> Seq<OpCode>
    decreases ops.len(),
{
    if ops.len() == 0 {
        Seq::empty()
    } else if buf.is_prefix_of(code_of(ops[0])) {
        seq![ops[0]] + candidates_from(ops.drop_first(), buf)
    } else {
        candidates_from(ops.drop_first(), buf)
    }
}

/// The registered operators whose codes have `buf` as a prefix.
pub open spec fn candidates_for(buf: Seq<char>) -> Seq<OpCode> {
    candidates_from(catalog(), buf)
}

/// The operator registry: the fixed catalog, together with the state of
/// the incremental longest-prefix matcher that tokenization drives one
/// character at a time.
pub struct OperatorStore {
    operators: Vec<OpCode>,
    matching: Vec<char>,
    current_matching: Vec<OpCode>,
}

impl OperatorStore {
    /// The match buffer: the characters of the match attempt so far.
    pub closed spec fn buf(&self) -> Seq<char> {
        self.matching@
    }

    /// The full catalog is registered.
    pub closed spec fn has_catalog(&self) -> bool {
        self.operators@ == catalog()
    }

    /// The candidate set is exactly the catalog filtered by the buffer.
    pub closed spec fn inv(&self) -> bool {
        &&& self.has_catalog()
        &&& self.current_matching@ == candidates_for(self.matching@)
    }

    /// Between match attempts: the buffer is empty and every operator is
    /// a candidate.
    pub open spec fn ready(&self) -> bool {
        &&& self.inv()
        &&& self.buf() == Seq::<char>::empty()
    }

    /// A registry holding the default operator catalog, ready to match.
    pub fn new() -> (r: OperatorStore)
        ensures
            r.ready(),
    {
        let mut r = OperatorStore {
            operators: Vec::new(),
            matching: Vec::new(),
            current_matching: Vec::new(),
        };
        r.register_op(OpCode::Plus);
        r.register_op(OpCode::Minus);
        r.register_op(OpCode::Mul);
        r.register_op(OpCode::Div);
        r.register_op(OpCode::Pow);
        r.register_op(OpCode::Sin);
        r.register_op(OpCode::Tan);
        r.register_op(OpCode::Cos);
        proof {
            assert(r.operators@ =~= catalog());
        }
        r.recompute_candidates();
        r
    }

    fn register_op(&mut self, op: OpCode)
        ensures
            final(self).operators@ == old(self).operators@.push(op),
            final(self).matching@ == old(self).matching@,
    {
        self.operators.push(op);
    }

    /// Reset the matcher: clear the buffer and restore the candidate set.
    pub fn new_match_step(&mut self)
        requires
            old(self).inv(),
        ensures
            final(self).ready(),
    {
        self.matching.clear();
        self.recompute_candidates();
    }

    /// Rebuild `current_matching` from the catalog and the buffer.
    fn recompute_candidates(&mut self)
        requires
            old(self).has_catalog(),
        ensures
            final(self).inv(),
            final(self).matching@ == old(self).matching@,
            final(self).operators@ == old(self).operators@,
    {
        self.current_matching = Vec::new();
        let ghost buf = self.matching@;
        let ghost ops = self.operators@;
        let n = self.operators.len();
        let mut j: usize = 0;
        proof {
            assert(ops.skip(0) =~= ops);
            assert(self.current_matching@ + candidates_from(ops, buf) =~= candidates_from(
                ops,
                buf,
            ));
        }
        while j < n
            invariant
                n == ops.len(),
                j <= n,
                self.operators@ == ops,
                self.matching@ == buf,
                ops == catalog(),
                candidates_from(ops, buf) == self.current_matching@ + candidates_from(
                    ops.skip(j as int),
                    buf,
                ),
            decreases n - j,
        {
            let code = op_code_chars(self.operators[j]);
            let keep = is_prefix(&self.matching, &code);
            proof {
                assert(ops.skip(j as int).drop_first() =~= ops.skip(j + 1));
                assert(ops.skip(j as int)[0] == ops[j as int]);
            }
            if keep {
                let ghost before = self.current_matching@;
                self.current_matching.push(self.operators[j]);
                proof {
                    assert(self.current_matching@ + candidates_from(ops.skip(j + 1), buf)
                        =~= before + (seq![ops[j as int]] + candidates_from(
                        ops.skip(j + 1),
                        buf,
                    )));
                }
            }
            j += 1;
        }
        proof {
            assert(ops.skip(n as int) =~= Seq::<OpCode>::empty());
            assert(candidates_from(Seq::empty(), buf) == Seq::<OpCode>::empty());
            assert(self.current_matching@ + Seq::<OpCode>::empty() =~= self.current_matching@);
        }
    }

    /// Whether any operator code is still consistent with the buffer.
    pub fn has_candidates(&self) -> (r: bool)
        requires
            self.inv(),
        ensures
            r == (candidates_for(self.buf()).len() > 0),
    {
        self.current_matching.len() > 0
    }

    /// Whether the matcher sits between match attempts.
    pub fn is_fresh(&self) -> (r: bool)
        ensures
            r == (self.buf().len() == 0),
    {
        self.matching.len() == 0
    }

    /// Feed one character to the matcher.
    ///
    /// When exactly one candidate code remains it is accepted at once and
    /// the matcher resets; the returned count says how many further input
    /// characters the disambiguation already consumed (the code's length
    /// beyond the buffer).  When no candidate remains the attempt has
    /// failed and the matcher resets just the same, ready for a fresh
    /// attempt.  Otherwise the buffer grows by the character and the
    /// attempt stays open.
    pub fn match_step(&mut self, next: char) -> (r: (bool, Option<Token>, u32))
        requires
            old(self).inv(),
        ensures
            final(self).inv(),
            ({
                let cands = candidates_for(old(self).buf().push(next));
                if cands.len() == 1 {
                    &&& r.0
                    &&& r.1 matches Some(t) && t@ == TokenV::Op(cands[0])
                    &&& r.2 == code_of(cands[0]).len() - old(self).buf().push(next).len()
                    &&& final(self).ready()
                } else if cands.len() == 0 {
                    &&& !r.0
                    &&& r.1 is None
                    &&& r.2 == 0
                    &&& final(self).ready()
                } else {
                    &&& !r.0
                    &&& r.1 is None
                    &&& r.2 == 0
                    &&& final(self).buf() == old(self).buf().push(next)
                }
            }),
    {
        self.matching.push(next);
        self.recompute_candidates();
        if self.current_matching.len() == 1 {
            let op = self.current_matching[0];
            let code = op_code_chars(op);
            proof {
                lemma_prefix_len(self.matching@, code_of(op), candidates_for(self.matching@), 0);
                lemma_code_len(op);
            }
            let skip = (code.len() - self.matching.len()) as u32;
            self.new_match_step();
            (true, Some(Token::Op(op)), skip)
        } else if self.current_matching.len() == 0 {
            self.new_match_step();
            (false, None, 0)
        } else {
            (false, None, 0)
        }
    }

    /// The precedence used by the Shunting-Yard stage: brackets carry a
    /// sentinel tier above every real operator, so ordinary precedence
    /// comparison never pops them.
    pub fn get_precedence(&self, code: &Token) -> (r: u8)
        ensures
            r == stack_precedence(code@),
    {
        match code {
            Token::Bracket(_) => 255,
            Token::Op(o) => op_precedence(*o),
            Token::Number(_) => 0,
        }
    }

    /// The calculation an operator stands for, named by its code, and the
    /// number of arguments it consumes.  Applying the calculation to
    /// numbers is the caller's concern.
    pub fn calc_and_no_of_arguments(&self, code: &OpCode) -> (r: (OpCode, u8))
        ensures
            r.0 == *code,
            r.1 == arity_of(*code),
    {
        (*code, op_arity(*code))
    }
}

/// Addition, code `+`.
pub struct Plus;

impl Plus {
    /// The textual code.
    pub fn code(&self) -> (r: &'static str)
        ensures
            r@ == code_of(OpCode::Plus),
    {
        proof {
            reveal_strlit("+");
            assert("+"@ =~= code_of(OpCode::Plus));
        }
        "+"
    }

    /// The precedence tier.
    pub fn precedence(&self) -> (r: u8)
        ensures
            r == precedence_of(OpCode::Plus),
    {
        1
    }

    /// How many operands the calculation consumes.
    pub fn no_of_operands(&self) -> (r: u8)
        ensures
            r == arity_of(OpCode::Plus),
    {
        2
    }
}

/// Subtraction, code `-`.
pub struct Minus;

impl Minus {
    /// The textual code.
    pub fn code(&self) -> (r: &'static str)
        ensures
            r@ == code_of(OpCode::Minus),
    {
        proof {
            reveal_strlit("-");
            assert("-"@ =~= code_of(OpCode::Minus));
        }
        "-"
    }

    /// The precedence tier.
    pub fn precedence(&self) -> (r: u8)
        ensures
            r == precedence_of(OpCode::Minus),
    {
        1
    }

    /// How many operands the calculation consumes.
    pub fn no_of_operands(&self) -> (r: u8)
        ensures
            r == arity_of(OpCode::Minus),
    {
        2
    }
}

/// Multiplication, code `*`.
pub struct Mul;

impl Mul {
    /// The textual code.
    pub fn code(&self) -> (r: &'static str)
        ensures
            r@ == code_of(OpCode::Mul),
    {
        proof {
            reveal_strlit("*");
            assert("*"@ =~= code_of(OpCode::Mul));
        }
        "*"
    }

    /// The precedence tier.
    pub fn precedence(&self) -> (r: u8)
        ensures
            r == precedence_of(OpCode::Mul),
    {
        2
    }

    /// How many operands the calculation consumes.
    pub fn no_of_operands(&self) -> (r: u8)
        ensures
            r == arity_of(OpCode::Mul),
    {
        2
    }
}

/// Division, code `/`.
pub struct Div;

impl Div {
    /// The textual code.
    pub fn code(&self) -> (r: &'static str)
        ensures
            r@ == code_of(OpCode::Div),
    {
        proof {
            reveal_strlit("/");
            assert("/"@ =~= code_of(OpCode::Div));
        }
        "/"
    }

    /// The precedence tier.
    pub fn precedence(&self) -> (r: u8)
        ensures
            r == precedence_of(OpCode::Div),
    {
        2
    }

    /// How many operands the calculation consumes.
    pub fn no_of_operands(&self) -> (r: u8)
        ensures
            r == arity_of(OpCode::Div),
    {
        2
    }
}

/// Exponentiation, code `p`: base to the power of the exponent.
pub struct Pow;

impl Pow {
    /// The textual code.
    pub fn code(&self) -> (r: &'static str)
        ensures
            r@ == code_of(OpCode::Pow),
    {
        proof {
            reveal_strlit("p");
            assert("p"@ =~= code_of(OpCode::Pow));
        }
        "p"
    }

    /// The precedence tier.
    pub fn precedence(&self) -> (r: u8)
        ensures
            r == precedence_of(OpCode::Pow),
    {
        3
    }

    /// How many operands the calculation consumes.
    pub fn no_of_operands(&self) -> (r: u8)
        ensures
            r == arity_of(OpCode::Pow),
    {
        2
    }
}

/// Sine of an angle in radians, code `sin`.
pub struct Sin;

impl Sin {
    /// The textual code.
    pub fn code(&self) -> (r: &'static str)
        ensures
            r@ == code_of(OpCode::Sin),
    {
        proof {
            reveal_strlit("sin");
            assert("sin"@ =~= code_of(OpCode::Sin));
        }
        "sin"
    }

    /// The precedence tier.
    pub fn precedence(&self) -> (r: u8)
        ensures
            r == precedence_of(OpCode::Sin),
    {
        4
    }

    /// How many operands the calculation consumes.
    pub fn no_of_operands(&self) -> (r: u8)
        ensures
            r == arity_of(OpCode::Sin),
    {
        1
    }
}

/// Cosine of an angle in radians, code `cos`.
pub struct Cos;

impl Cos {
    /// The textual code.
    pub fn code(&self) -> (r: &'static str)
        ensures
            r@ == code_of(OpCode::Cos),
    {
        proof {
            reveal_strlit("cos");
            assert("cos"@ =~= code_of(OpCode::Cos));
        }
        "cos"
    }

    /// The precedence tier.
    pub fn precedence(&self) -> (r: u8)
        ensures
            r == precedence_of(OpCode::Cos),
    {
        4
    }

    /// How many operands the calculation consumes.
    pub fn no_of_operands(&self) -> (r: u8)
        ensures
            r == arity_of(OpCode::Cos),
    {
        1
    }
}

/// Tangent of an angle in radians, code `tan`.
pub struct Tan;

impl Tan {
    /// The textual code.
    pub fn code(&self) -> (r: &'static str)
        ensures
            r@ == code_of(OpCode::Tan),
    {
        proof {
            reveal_strlit("tan");
            assert("tan"@ =~= code_of(OpCode::Tan));
        }
        "tan"
    }

    /// The precedence tier.
    pub fn precedence(&self) -> (r: u8)
        ensures
            r == precedence_of(OpCode::Tan),
    {
        4
    }

    /// How many operands the calculation consumes.
    pub fn no_of_operands(&self) -> (r: u8)
        ensures
            r == arity_of(OpCode::Tan),
    {
        1
    }
}

/// The precedence of a token on the operator stack: the sentinel tier for
/// brackets, the registered tier for an operator.
pub open spec fn stack_precedence(t: TokenV) -> u8 {
    match t {
        TokenV::Op(o) => precedence_of(o),
        TokenV::Bracket(_) => 255,
        TokenV::Number(_) => 0,
    }
}

/// Every candidate's code is at least as long as the buffer it matched.
proof fn lemma_prefix_len(buf: Seq<char>, code: Seq<char>, cands: Seq<OpCode>, k: int)
    requires
        0 <= k < cands.len(),
        cands == candidates_for(buf),
        code == code_of(cands[k]),
    ensures
        buf.is_prefix_of(code),
        buf.len() <= code.len(),
{
    lemma_candidates_are_prefixed(catalog(), buf, k);
}

/// Membership in `candidates_from` means the buffer is a prefix of the code.
proof fn lemma_candidates_are_prefixed(ops: Seq<OpCode>, buf: Seq<char>, k: int)
    requires
        0 <= k < candidates_from(ops, buf).len(),
    ensures
        buf.is_prefix_of(code_of(candidates_from(ops, buf)[k])),
    decreases ops.len(),
{
    if ops.len() == 0 {
    } else if buf.is_prefix_of(code_of(ops[0])) {
        if k > 0 {
            lemma_candidates_are_prefixed(ops.drop_first(), buf, k - 1);
        }
    } else {
        lemma_candidates_are_prefixed(ops.drop_first(), buf, k);
    }
}

/// Whether `pre`'s characters open `whole`.
fn is_prefix(pre: &Vec<char>, whole: &Vec<char>) -> (r: bool)
    ensures
        r == pre@.is_prefix_of(whole@),
{
    if pre.len() > whole.len() {
        return false;
    }
    let n = pre.len();
    let mut j: usize = 0;
    while j < n
        invariant
            j <= n,
            n == pre@.len(),
            n <= whole@.len(),
            forall|k: int| 0 <= k < j ==> pre@[k] == whole@[k],
        decreases n - j,
    {
        if pre[j] != whole[j] {
            return false;
        }
        j += 1;
    }
    proof {
        assert(pre@ =~= whole@.subrange(0, n as int));
    }
    true
}

} // verus!
