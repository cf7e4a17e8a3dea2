//! General facts about evaluation: stack balance, numerals, operator laws,
//! and whitespace.
use vstd::prelude::*;

use vstd::arithmetic::div_mod::lemma_fundamental_div_mod;

use crate::calc::{apply_operator, evaluate, lemma_error_persists, run_tokens, RpnError};
use crate::lexer::{all_digits, digits_value, is_digit, is_space, literal_value, split_spaces};

verus! {

/// The five operator tokens.
pub open spec fn is_operator(t: Seq<char>) -> bool {
    t == seq!['+'] || t == seq!['-'] || t == seq!['*'] || t == seq!['/'] || t == seq!['%']
}

/// How many of `toks` are numerals.
pub open spec fn count_numerals(toks: Seq<Seq<char>>) -> int
    decreases toks.len(),
{
    if toks.len() == 0 {
        0
    } else {
        count_numerals(toks.drop_last()) + if literal_value(toks.last()) is Some {
            1int
        } else {
            0int
        }
    }
}

/// How many of `toks` are operators.
pub open spec fn count_operators(toks: Seq<Seq<char>>) -> int
    decreases toks.len(),
{
    if toks.len() == 0 {
        0
    } else {
        count_operators(toks.drop_last()) + if is_operator(toks.last()) {
            1int
        } else {
            0int
        }
    }
}

pub open spec fn digit_char(d: int) -> char {
    if d == 0 {
        '0'
    } else if d == 1 {
        '1'
    } else if d == 2 {
        '2'
    } else if d == 3 {
        '3'
    } else if d == 4 {
        '4'
    } else if d == 5 {
        '5'
    } else if d == 6 {
        '6'
    } else if d == 7 {
        '7'
    } else if d == 8 {
        '8'
    } else {
        '9'
    }
}

/// The decimal digits of `n`, without leading zeros.
pub open spec fn decimal_digits(n: nat) -> Seq<char>
    decreases n,
{
    if n < 10 {
        seq![digit_char(n as int)]
    } else {
        decimal_digits(n / 10).push(digit_char((n % 10) as int))
    }
}

/// The usual decimal rendering of `n`, with a minus sign when negative.
pub open spec fn decimal(n: int) -> Seq<char> {
    if n < 0 {
        seq!['-'] + decimal_digits((-n) as nat)
    } else {
        decimal_digits(n as nat)
    }
}

/// The formula `a b op`, with single spaces.
pub open spec fn binary_formula(a: i32, b: i32, op: char) -> Seq<char> {
    decimal(a as int) + seq![' '] + decimal(b as int) + seq![' ', op]
}

pub open spec fn all_spaces(w: Seq<char>) -> bool {
    forall|i: int| 0 <= i < w.len() ==> #[trigger] is_space(w[i])
}

proof fn lemma_operator_not_literal(t: Seq<char>)
    requires
        is_operator(t),
    ensures
        literal_value(t) is None,
{
    assert(!is_digit(t[0]));
}

/// On a successful run, every token is a numeral or an operator, and the
/// stack holds as many values as there were numerals less operators.
proof fn lemma_run_depth(toks: Seq<Seq<char>>, st: Seq<i32>)
    requires
        run_tokens(toks) == Ok::<Seq<i32>, RpnError>(st),
    ensures
        st.len() == count_numerals(toks) - count_operators(toks),
        toks.len() > 0 ==> st.len() >= 1,
        forall|i: int|
            0 <= i < toks.len() ==> literal_value(#[trigger] toks[i]) is Some || is_operator(
                toks[i],
            ),
    decreases toks.len(),
{
    if toks.len() > 0 {
        let init = toks.drop_last();
        let t = toks.last();
        let prev = run_tokens(init)->Ok_0;
        lemma_run_depth(init, prev);
        if literal_value(t) is None {
            assert(prev.len() >= 2);
            let r = apply_operator(t, prev[prev.len() - 2], prev[prev.len() - 1], toks.len() as usize);
            assert(r is Ok);
            assert(is_operator(t));
            lemma_operator_not_literal(t);
        } else if is_operator(t) {
            lemma_operator_not_literal(t);
        }
        assert forall|i: int| 0 <= i < toks.len() implies literal_value(#[trigger] toks[i]) is Some
            || is_operator(toks[i]) by {
            if i < toks.len() - 1 {
                assert(toks[i] == init[i]);
            }
        }
    }
}

/// For a formula that evaluates without error, numerals outnumber operators by
/// exactly one; every non-empty prefix of the tokens has more numerals than
/// operators, and before each operator there are at least two more.
pub proof fn lemma_stack_balance(formula: Seq<char>)
    requires
        evaluate(formula) is Ok,
    ensures
        ({
            let toks = split_spaces(formula);
            &&& count_numerals(toks) - count_operators(toks) == 1
            &&& forall|k: int|
                1 <= k <= toks.len() ==> count_numerals(#[trigger] toks.take(k)) - count_operators(
                    toks.take(k),
                ) >= 1
            &&& forall|k: int|
                0 <= k < toks.len() && is_operator(#[trigger] toks[k]) ==> count_numerals(
                    toks.take(k),
                ) - count_operators(toks.take(k)) >= 2
        }),
{
    let toks = split_spaces(formula);
    let st = run_tokens(toks)->Ok_0;
    lemma_run_depth(toks, st);
    assert forall|k: int| 0 <= k <= toks.len() implies run_tokens(#[trigger] toks.take(k)) is Ok by {
        if run_tokens(toks.take(k)) is Err {
            lemma_error_persists(toks, k, run_tokens(toks.take(k))->Err_0);
        }
    }
    assert forall|k: int| 1 <= k <= toks.len() implies count_numerals(#[trigger] toks.take(k))
        - count_operators(toks.take(k)) >= 1 by {
        lemma_run_depth(toks.take(k), run_tokens(toks.take(k))->Ok_0);
    }
    assert forall|k: int| 0 <= k < toks.len() && is_operator(#[trigger] toks[k]) implies count_numerals(
        toks.take(k),
    ) - count_operators(toks.take(k)) >= 2 by {
        let pre = toks.take(k);
        let next = toks.take(k + 1);
        assert(run_tokens(pre) is Ok);
        assert(run_tokens(next) is Ok);
        assert(next.drop_last() =~= pre);
        assert(next.last() == toks[k]);
        lemma_operator_not_literal(toks[k]);
        lemma_run_depth(pre, run_tokens(pre)->Ok_0);
    }
}

proof fn lemma_digit_char(d: int)
    requires
        0 <= d < 10,
    ensures
        is_digit(digit_char(d)),
        digit_char(d) as int - '0' as int == d,
{
}

proof fn lemma_decimal_digits(n: nat)
    ensures
        decimal_digits(n).len() > 0,
        all_digits(decimal_digits(n)),
        digits_value(decimal_digits(n)) == n,
    decreases n,
{
    let d = decimal_digits(n);
    if n < 10 {
        lemma_digit_char(n as int);
        assert(d.drop_last() =~= seq![]);
        assert(digits_value(d.drop_last()) == 0);
    } else {
        lemma_digit_char((n % 10) as int);
        lemma_fundamental_div_mod(n as int, 10);
        lemma_decimal_digits(n / 10);
        let init = decimal_digits(n / 10);
        assert(d.drop_last() =~= init);
        assert forall|i: int| 0 <= i < d.len() implies #[trigger] is_digit(d[i]) by {
            if i < d.len() - 1 {
                assert(d[i] == init[i]);
            }
        }
    }
}

proof fn lemma_single_token(t: Seq<char>)
    requires
        t.len() > 0,
        forall|i: int| 0 <= i < t.len() ==> !#[trigger] is_space(t[i]),
    ensures
        split_spaces(t) == seq![t],
    decreases t.len(),
{
    let init = t.drop_last();
    assert(!is_space(t[t.len() - 1]));
    if t.len() == 1 {
        assert(init =~= seq![]);
        assert(t =~= seq![t.last()]);
        assert(split_spaces(init) =~= Seq::<Seq<char>>::empty());
        assert(Seq::<Seq<char>>::empty().push(seq![t.last()]) =~= seq![t]);
    } else {
        assert(forall|i: int| 0 <= i < init.len() ==> init[i] == t[i]);
        lemma_single_token(init);
        assert(!is_space(init[init.len() - 1]));
        assert(split_spaces(init).last() == init);
        assert(split_spaces(init).drop_last() =~= Seq::<Seq<char>>::empty());
        assert(init.push(t.last()) =~= t);
        assert(seq![init].drop_last().push(init.push(t.last())) =~= seq![t]);
    }
}

proof fn lemma_decimal_literal(n: i32)
    ensures
        split_spaces(decimal(n as int)) == seq![decimal(n as int)],
        literal_value(decimal(n as int)) == Some(n),
{
    let t = decimal(n as int);
    if n < 0 {
        let m = (-n) as nat;
        lemma_decimal_digits(m);
        let ds = decimal_digits(m);
        assert(t.drop_first() =~= ds);
        assert(!is_digit(t[0]));
        assert forall|i: int| 0 <= i < t.len() implies !#[trigger] is_space(t[i]) by {
            if i > 0 {
                assert(t[i] == ds[i - 1]);
                assert(is_digit(ds[i - 1]));
            }
        }
    } else {
        lemma_decimal_digits(n as nat);
        assert forall|i: int| 0 <= i < t.len() implies !#[trigger] is_space(t[i]) by {
            assert(is_digit(t[i]));
        }
    }
    lemma_single_token(t);
}

/// The decimal rendering of any `i32` evaluates to that integer.
pub proof fn lemma_numeral_round_trip(n: i32)
    ensures
        evaluate(decimal(n as int)) == Ok::<i32, RpnError>(n),
{
    let t = decimal(n as int);
    lemma_decimal_literal(n);
    assert(seq![t].drop_last() =~= Seq::<Seq<char>>::empty());
    assert(run_tokens(Seq::<Seq<char>>::empty()) == Ok::<Seq<i32>, RpnError>(Seq::<i32>::empty()));
    assert(run_tokens(seq![t]) == Ok::<Seq<i32>, RpnError>(Seq::<i32>::empty().push(n)));
    assert(Seq::<i32>::empty().push(n)[0] == n);
}

proof fn lemma_trailing_spaces(s: Seq<char>, w: Seq<char>)
    requires
        all_spaces(w),
    ensures
        split_spaces(s + w) == split_spaces(s),
    decreases w.len(),
{
    if w.len() == 0 {
        assert(s + w =~= s);
    } else {
        let wi = w.drop_last();
        assert((s + w).drop_last() =~= s + wi);
        assert(is_space(w[w.len() - 1]));
        lemma_trailing_spaces(s, wi);
    }
}

/// A run of whitespace between two parts of a formula separates their tokens
/// and adds none.
pub proof fn lemma_split_around_spaces(s1: Seq<char>, w: Seq<char>, s2: Seq<char>)
    requires
        w.len() > 0,
        all_spaces(w),
    ensures
        split_spaces(s1 + w + s2) == split_spaces(s1) + split_spaces(s2),
    decreases s2.len(),
{
    let a = split_spaces(s1);
    if s2.len() == 0 {
        assert(s1 + w + s2 =~= s1 + w);
        lemma_trailing_spaces(s1, w);
        assert(a + split_spaces(s2) =~= a);
    } else {
        let s = s1 + w + s2;
        let s2i = s2.drop_last();
        let c = s2.last();
        let init = s.drop_last();
        assert(init =~= s1 + w + s2i);
        assert(s.last() == c);
        lemma_split_around_spaces(s1, w, s2i);
        let b = split_spaces(s2i);
        if is_space(c) {
        } else if s2i.len() > 0 && !is_space(s2i.last()) {
            assert(init.last() == s2i.last());
            assert(b.len() > 0);
            assert((a + b).drop_last().push((a + b).last().push(c)) =~= a + b.drop_last().push(
                b.last().push(c),
            ));
        } else {
            assert(is_space(w[w.len() - 1]));
            assert(init.last() == if s2i.len() > 0 {
                s2i.last()
            } else {
                w.last()
            });
            assert((a + b).push(seq![c]) =~= a + b.push(seq![c]));
        }
    }
}

/// Whitespace runs are all alike: any non-empty run of spaces, tabs or other
/// ASCII whitespace between two parts of a formula (or before or after it,
/// where a part is empty) gives what a single space gives.
pub proof fn lemma_whitespace_equivalence(s1: Seq<char>, w: Seq<char>, s2: Seq<char>)
    requires
        w.len() > 0,
        all_spaces(w),
    ensures
        evaluate(s1 + w + s2) == evaluate(s1 + seq![' '] + s2),
        split_spaces(s1 + w + s2) == split_spaces(s1) + split_spaces(s2),
{
    lemma_split_around_spaces(s1, w, s2);
    lemma_split_around_spaces(s1, seq![' '], s2);
}

/// `a b op` evaluates to what `op` makes of `a` and `b` at position 3.
pub proof fn lemma_binary_formula(a: i32, b: i32, op: char)
    requires
        is_operator(seq![op]) || !(is_space(op) || is_digit(op)),
    ensures
        evaluate(binary_formula(a, b, op)) == apply_operator(seq![op], a, b, 3),
{
    let da = decimal(a as int);
    let db = decimal(b as int);
    lemma_decimal_literal(a);
    lemma_decimal_literal(b);
    assert(!is_digit(op)) by {
        if is_operator(seq![op]) {
            assert(seq![op][0] == op);
        }
    };
    assert(!is_space(op)) by {
        if is_operator(seq![op]) {
            assert(seq![op][0] == op);
        }
    };
    let sp = seq![' '];
    assert(all_spaces(sp));
    lemma_split_around_spaces(da, sp, db);
    lemma_single_token(seq![op]);
    assert(binary_formula(a, b, op) =~= (da + sp + db) + sp + seq![op]);
    lemma_split_around_spaces(da + sp + db, sp, seq![op]);
    let toks = split_spaces(binary_formula(a, b, op));
    assert(toks =~= seq![da, db, seq![op]]);
    assert(!is_digit(seq![op][0]));
    assert(literal_value(seq![op]) is None);
    assert(toks.drop_last() =~= seq![da, db]);
    assert(toks.drop_last().drop_last() =~= seq![da]);
    assert(seq![da].drop_last() =~= Seq::<Seq<char>>::empty());
    let st = seq![a, b];
    assert(run_tokens(Seq::<Seq<char>>::empty()) == Ok::<Seq<i32>, RpnError>(Seq::<i32>::empty()));
    assert(run_tokens(seq![da]) == Ok::<Seq<i32>, RpnError>(seq![a])) by {
        assert(Seq::<i32>::empty().push(a) =~= seq![a]);
    };
    assert(run_tokens(seq![da, db]) == Ok::<Seq<i32>, RpnError>(st)) by {
        assert(seq![da, db].drop_last() =~= seq![da]);
        assert(seq![a].push(b) =~= st);
    };
    assert(st.take(0) =~= Seq::<i32>::empty());
}

/// Addition commutes: `a b +` and `b a +` give the same result.
pub proof fn lemma_add_commutes(a: i32, b: i32)
    ensures
        evaluate(binary_formula(a, b, '+')) == evaluate(binary_formula(b, a, '+')),
{
    lemma_binary_formula(a, b, '+');
    lemma_binary_formula(b, a, '+');
}

/// Multiplication commutes: `a b *` and `b a *` give the same result.
pub proof fn lemma_mul_commutes(a: i32, b: i32)
    ensures
        evaluate(binary_formula(a, b, '*')) == evaluate(binary_formula(b, a, '*')),
{
    lemma_binary_formula(a, b, '*');
    lemma_binary_formula(b, a, '*');
}

/// Zero is neutral for addition: `a 0 +` gives `a`.
pub proof fn lemma_add_zero(a: i32)
    ensures
        evaluate(binary_formula(a, 0, '+')) == Ok::<i32, RpnError>(a),
{
    lemma_binary_formula(a, 0, '+');
}

/// One is neutral for multiplication: `a 1 *` gives `a`.
pub proof fn lemma_mul_one(a: i32)
    ensures
        evaluate(binary_formula(a, 1, '*')) == Ok::<i32, RpnError>(a),
{
    lemma_binary_formula(a, 1, '*');
}

/// A value less itself is zero: `a a -` gives `0`.
pub proof fn lemma_sub_self(a: i32)
    ensures
        evaluate(binary_formula(a, a, '-')) == Ok::<i32, RpnError>(0),
{
    lemma_binary_formula(a, a, '-');
}

} // verus!
