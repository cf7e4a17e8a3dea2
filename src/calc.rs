//! The evaluator: runs the tokens of a formula on an operand stack.
use vstd::prelude::*;
use vstd::arithmetic::div_mod::lemma_fundamental_div_mod;

use crate::lexer::{literal_value, parse_literal, split_spaces, token_view, tokenize};

verus! {

/// Why a formula has no value.
#[derive(Debug, Clone, Copy, PartialEq, Eq, Structural)]
pub enum RpnError {
    /// The operand stack had the wrong shape: the operator at the given
    /// 1-based token position found fewer than two operands, or (with no
    /// position) the formula left other than exactly one value.
    InvalidSyntax(Option<usize>),
    /// The token at this position is neither a numeral nor an operator.
    InvalidToken(usize),
    /// The operator at this position divides by zero.
    DivisionByZero(usize),
    /// The operator at this position has a result outside the range of `i32`.
    Overflow(usize),
}

pub open spec fn fits_i32(v: int) -> bool {
    i32::MIN <= v <= i32::MAX
}

pub open spec fn abs(v: int) -> int {
    if v < 0 {
        -v
    } else {
        v
    }
}

/// Integer division rounded toward zero.
pub open spec fn trunc_div(x: int, y: int) -> int {
    let q = abs(x) / abs(y);
    if (x < 0) == (y < 0) {
        q
    } else {
        -q
    }
}

/// The remainder that goes with `trunc_div`: it has the sign of `x`.
pub open spec fn trunc_rem(x: int, y: int) -> int {
    x - y * trunc_div(x, y)
}

pub open spec fn checked_result(v: int, pos: usize) -> Result<i32, RpnError> {
    if fits_i32(v) {
        Ok(v as i32)
    } else {
        Err(RpnError::Overflow(pos))
    }
}

/// What the operator token `op` at position `pos` makes of the operands `x`
/// (the lower one on the stack) and `y` (the top one).
pub open spec fn apply_operator(op: Seq<char>, x: i32, y: i32, pos: usize) -> Result<i32, RpnError> {
    if op == seq!['+'] {
        checked_result(x + y, pos)
    } else if op == seq!['-'] {
        checked_result(x - y, pos)
    } else if op == seq!['*'] {
        checked_result(x * y, pos)
    } else if op == seq!['/'] {
        if y == 0 {
            Err(RpnError::DivisionByZero(pos))
        } else {
            checked_result(trunc_div(x as int, y as int), pos)
        }
    } else if op == seq!['%'] {
        if y == 0 {
            Err(RpnError::DivisionByZero(pos))
        } else if !fits_i32(trunc_div(x as int, y as int)) {
            Err(RpnError::Overflow(pos))
        } else {
            Ok(trunc_rem(x as int, y as int) as i32)
        }
    } else {
        Err(RpnError::InvalidToken(pos))
    }
}

/// One token at 1-based position `pos` acting on the stack (bottom first):
/// a numeral is pushed; anything else takes the top two values and pushes
/// what the operator makes of them.
pub open spec fn step(stack: Seq<i32>, tok: Seq<char>, pos: usize) -> Result<Seq<i32>, RpnError> {
    match literal_value(tok) {
        Some(v) => Ok(stack.push(v)),
        None => if stack.len() < 2 {
            Err(RpnError::InvalidSyntax(Some(pos)))
        } else {
            let y = stack[stack.len() - 1];
            let x = stack[stack.len() - 2];
            match apply_operator(tok, x, y, pos) {
                Ok(r) => Ok(stack.take(stack.len() - 2).push(r)),
                Err(e) => Err(e),
            }
        },
    }
}

/// The stack after running `toks` left to right from an empty stack, or the
/// first error met.
pub open spec fn run_tokens(toks: Seq<Seq<char>>) -> Result<Seq<i32>, RpnError>
    decreases toks.len(),
{
    if toks.len() == 0 {
        Ok(seq![])
    } else {
        match run_tokens(toks.drop_last()) {
            Ok(st) => step(st, toks.last(), toks.len() as usize),
            Err(e) => Err(e),
        }
    }
}

/// The value of a token sequence: the single value left on the stack.
pub open spec fn tokens_result(toks: Seq<Seq<char>>) -> Result<i32, RpnError> {
    match run_tokens(toks) {
        Ok(st) => if st.len() == 1 {
            Ok(st[0])
        } else {
            Err(RpnError::InvalidSyntax(None))
        },
        Err(e) => Err(e),
    }
}

/// The value of a formula.
pub open spec fn evaluate(formula: Seq<char>) -> Result<i32, RpnError> {
    tokens_result(split_spaces(formula))
}

/// Once a prefix of the tokens fails, the whole run fails with that error.
pub proof fn lemma_error_persists(toks: Seq<Seq<char>>, k: int, e: RpnError)
    requires
        0 <= k <= toks.len(),
        run_tokens(toks.take(k)) == Err::<Seq<i32>, RpnError>(e),
    ensures
        run_tokens(toks) == Err::<Seq<i32>, RpnError>(e),
    decreases toks.len(),
{
    if k == toks.len() {
        assert(toks.take(k) =~= toks);
    } else {
        assert(toks.drop_last().take(k) =~= toks.take(k));
        lemma_error_persists(toks.drop_last(), k, e);
    }
}

proof fn lemma_checked_div(x: i32, y: i32)
    requires
        y != 0,
    ensures
        x.checked_div(y) == (if fits_i32(trunc_div(x as int, y as int)) {
            Some(trunc_div(x as int, y as int) as i32)
        } else {
            None::<i32>
        }),
{
    let a = x as int;
    let d = y as int;
    if a == 0 {
        assert(0int / abs(d) == 0) by (nonlinear_arith)
            requires
                abs(d) > 0,
        ;
    }
}

proof fn lemma_checked_rem(x: i32, y: i32)
    requires
        y != 0,
        fits_i32(trunc_div(x as int, y as int)),
    ensures
        x.checked_rem(y) == Some(trunc_rem(x as int, y as int) as i32),
{
    let a = x as int;
    let d = y as int;
    assert(!(a == i32::MIN && d == -1));
    let out = if a == 0 {
        0
    } else if a > 0 && d > 0 {
        a % d
    } else if a < 0 && d < 0 {
        ((a * -1) % (d * -1)) * -1
    } else if a < 0 {
        ((a * -1) % d) * -1
    } else {
        a % (d * -1)
    };
    if a == 0 {
        assert(0int / abs(d) == 0) by (nonlinear_arith)
            requires
                abs(d) > 0,
        ;
    } else if a > 0 && d > 0 {
        lemma_fundamental_div_mod(a, d);
        assert(out == trunc_rem(a, d));
    } else if a < 0 && d < 0 {
        let (q, r) = ((-a) / (-d), (-a) % (-d));
        lemma_fundamental_div_mod(-a, -d);
        assert(a - d * q == -r) by (nonlinear_arith)
            requires
                -a == (-d) * q + r,
        ;
        assert(trunc_div(a, d) == q);
        assert(out == -r);
        assert(out == trunc_rem(a, d));
    } else if a < 0 {
        let (q, r) = ((-a) / d, (-a) % d);
        lemma_fundamental_div_mod(-a, d);
        assert(a - d * (-q) == -r) by (nonlinear_arith)
            requires
                -a == d * q + r,
        ;
        assert(trunc_div(a, d) == -q);
        assert(out == -r);
        assert(out == trunc_rem(a, d));
    } else {
        let (q, r) = (a / (-d), a % (-d));
        lemma_fundamental_div_mod(a, -d);
        assert(a - d * (-q) == r) by (nonlinear_arith)
            requires
                a == (-d) * q + r,
        ;
        assert(trunc_div(a, d) == -q);
        assert(out == r);
        assert(out == trunc_rem(a, d));
    }
    assert(out == trunc_rem(a, d));
    assert(fits_i32(out));
}

/// Applies the operator token `op` at position `pos` to `x` (lower) and `y` (top).
pub fn apply(op: &Vec<char>, x: i32, y: i32, pos: usize) -> (r: Result<i32, RpnError>)
    ensures
        r == apply_operator(op@, x, y, pos),
{
    if op.len() != 1 {
        assert(op@ != seq!['+'] && op@ != seq!['-'] && op@ != seq!['*'] && op@ != seq!['/']
            && op@ != seq!['%']);
        return Err(RpnError::InvalidToken(pos));
    }
    let c = op[0];
    assert(op@ =~= seq![c]);
    if c == '+' {
        match x.checked_add(y) {
            Some(v) => Ok(v),
            None => Err(RpnError::Overflow(pos)),
        }
    } else if c == '-' {
        match x.checked_sub(y) {
            Some(v) => Ok(v),
            None => Err(RpnError::Overflow(pos)),
        }
    } else if c == '*' {
        match x.checked_mul(y) {
            Some(v) => Ok(v),
            None => Err(RpnError::Overflow(pos)),
        }
    } else if c == '/' {
        if y == 0 {
            return Err(RpnError::DivisionByZero(pos));
        }
        proof {
            lemma_checked_div(x, y);
        }
        match x.checked_div(y) {
            Some(v) => Ok(v),
            None => Err(RpnError::Overflow(pos)),
        }
    } else if c == '%' {
        if y == 0 {
            return Err(RpnError::DivisionByZero(pos));
        }
        proof {
            lemma_checked_div(x, y);
        }
        if x.checked_div(y).is_none() {
            return Err(RpnError::Overflow(pos));
        }
        proof {
            lemma_checked_rem(x, y);
        }
        match x.checked_rem(y) {
            Some(v) => Ok(v),
            None => Err(RpnError::Overflow(pos)),
        }
    } else {
        Err(RpnError::InvalidToken(pos))
    }
}

/// The stacks seen after each token while running `toks`, as far as the run
/// went: the stack after token `k + 1` for each `k`, up to the token that
/// failed or the end.
pub open spec fn is_stack_trace(toks: Seq<Seq<char>>, stacks: Seq<Seq<i32>>) -> bool {
    &&& stacks.len() <= toks.len()
    &&& forall|k: int|
        0 <= k < stacks.len() ==> run_tokens(#[trigger] toks.take(k + 1)) == Ok::<Seq<i32>, RpnError>(stacks[k])
    &&& stacks.len() < toks.len() ==> run_tokens(toks.take(stacks.len() + 1 as int)) is Err
}

/// The stacks that a list of stacks holds.
pub open spec fn stacks_view(v: Seq<Vec<i32>>) -> Seq<Seq<i32>> {
    v.map_values(|s: Vec<i32>| s@)
}

/// An evaluator of RPN formulas. Its one setting, fixed at construction,
/// says whether an evaluation records the stack after each token.
pub struct RpnCalculator {
    verbose: bool,
}

/// What one evaluation found: the result, the tokens, and, for a verbose
/// evaluator, the stack after each token that was processed.
pub struct Trace {
    pub result: Result<i32, RpnError>,
    pub tokens: Vec<Vec<char>>,
    pub stacks: Vec<Vec<i32>>,
}

impl RpnCalculator {
    pub closed spec fn is_verbose(&self) -> bool {
        self.verbose
    }

    /// The result of evaluating `formula`: a function of the formula alone.
    pub open spec fn outcome(&self, formula: Seq<char>) -> Result<i32, RpnError> {
        evaluate(formula)
    }

    pub fn new(verbose: bool) -> (r: Self)
        ensures
            r.is_verbose() == verbose,
    {
        RpnCalculator { verbose }
    }

    pub fn verbose(&self) -> (r: bool)
        ensures
            r == self.is_verbose(),
    {
        self.verbose
    }

    /// Runs `toks`; with `record`, keeps a copy of the stack after each token.
    fn run(toks: &Vec<Vec<char>>, record: bool) -> (r: (Result<i32, RpnError>, Vec<Vec<i32>>))
        ensures
            r.0 == tokens_result(token_view(toks@)),
            record ==> is_stack_trace(token_view(toks@), stacks_view(r.1@)),
            !record ==> r.1@.len() == 0,
    {
        let ghost tv = token_view(toks@);
        let mut stack: Vec<i32> = Vec::new();
        let mut stacks: Vec<Vec<i32>> = Vec::new();
        let mut i: usize = 0;
        assert(tv.take(0) =~= seq![]);
        while i < toks.len()
            invariant
                i <= toks.len(),
                tv == token_view(toks@),
                run_tokens(tv.take(i as int)) == Ok::<Seq<i32>, RpnError>(stack@),
                record ==> stacks@.len() == i,
                !record ==> stacks@.len() == 0,
                forall|k: int|
                    0 <= k < stacks@.len() ==> run_tokens(#[trigger] tv.take(k + 1)) == Ok::<
                        Seq<i32>,
                        RpnError,
                    >(stacks@[k]@),
            decreases toks.len() - i,
        {
            let tok = &toks[i];
            let pos: usize = i + 1;
            let ghost before = stack@;
            assert(tv.take(i + 1).drop_last() =~= tv.take(i as int));
            assert(tv.take(i + 1).last() == tok@);
            match parse_literal(tok) {
                Some(v) => {
                    stack.push(v);
                },
                None => {
                    if stack.len() < 2 {
                        proof {
                            lemma_error_persists(tv, i + 1, RpnError::InvalidSyntax(Some(pos)));
                        }
                        return (Err(RpnError::InvalidSyntax(Some(pos))), stacks);
                    }
                    let y = stack.pop().unwrap();
                    let x = stack.pop().unwrap();
                    assert(stack@ =~= before.take(before.len() - 2));
                    match apply(tok, x, y, pos) {
                        Ok(v) => {
                            stack.push(v);
                        },
                        Err(e) => {
                            proof {
                                lemma_error_persists(tv, i + 1, e);
                            }
                            return (Err(e), stacks);
                        },
                    }
                },
            }
            if record {
                let snapshot = stack.clone();
                assert(snapshot@ =~= stack@);
                stacks.push(snapshot);
            }
            i = i + 1;
        }
        assert(tv.take(toks.len() as int) =~= tv);
        if stack.len() == 1 {
            (Ok(stack[0]), stacks)
        } else {
            (Err(RpnError::InvalidSyntax(None)), stacks)
        }
    }

    /// Evaluates one formula: its value, or the first error met.
    pub fn eval(&self, formula: &str) -> (r: Result<i32, RpnError>)
        ensures
            r == self.outcome(formula@),
    {
        let tokens = tokenize(formula);
        let (result, _) = Self::run(&tokens, false);
        result
    }

    /// Evaluates one formula and keeps its tokens and, when this evaluator is
    /// verbose, the stack after each token that was processed.
    pub fn eval_traced(&self, formula: &str) -> (r: Trace)
        ensures
            r.result == self.outcome(formula@),
            token_view(r.tokens@) == split_spaces(formula@),
            self.is_verbose() ==> is_stack_trace(split_spaces(formula@), stacks_view(r.stacks@)),
            !self.is_verbose() ==> r.stacks@.len() == 0,
    {
        let tokens = tokenize(formula);
        let (result, stacks) = Self::run(&tokens, self.verbose);
        Trace { result, tokens, stacks }
    }
}

/// Evaluation is pure: two evaluators, whatever their settings, give the same
/// result on the same formula.
pub proof fn lemma_eval_deterministic(a: RpnCalculator, b: RpnCalculator, formula: Seq<char>)
    ensures
        a.outcome(formula) == b.outcome(formula),
{
}

} // verus!
