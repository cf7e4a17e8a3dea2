//! Splitting a formula into whitespace-separated tokens, and reading
//! decimal literals.
use vstd::prelude::*;

verus! {

/// The separators between tokens: the ASCII whitespace class.
pub open spec fn is_space(c: char) -> bool {
    c == ' ' || c == '\t' || c == '\n' || c == '\r' || c == '\x0C'
}

pub open spec fn is_digit(c: char) -> bool {
    '0' <= c && c <= '9'
}

/// The tokens of `s`: its maximal runs of non-space characters, left to right.
/// A character either is a separator, extends the token that the character
/// before it belongs to, or starts a new token.
pub open spec fn split_spaces(s: Seq<char>) -> Seq<Seq<char>>
    decreases s.len(),
{
    if s.len() == 0 {
        seq![]
    } else {
        let init = s.drop_last();
        let c = s.last();
        let toks = split_spaces(init);
        if is_space(c) {
            toks
        } else if init.len() > 0 && !is_space(init.last()) {
            toks.drop_last().push(toks.last().push(c))
        } else {
            toks.push(seq![c])
        }
    }
}

/// The value of a string of decimal digits, most significant first.
pub open spec fn digits_value(d: Seq<char>) -> int
    decreases d.len(),
{
    if d.len() == 0 {
        0
    } else {
        digits_value(d.drop_last()) * 10 + (d.last() as int - '0' as int)
    }
}

pub open spec fn all_digits(d: Seq<char>) -> bool {
    forall|i: int| 0 <= i < d.len() ==> #[trigger] is_digit(d[i])
}

/// The integer that a token writes in decimal: one or more digits, with an
/// optional leading minus sign. A plus sign is not part of a numeral.
pub open spec fn numeral_value(t: Seq<char>) -> Option<int> {
    if t.len() > 0 && all_digits(t) {
        Some(digits_value(t))
    } else if t.len() > 1 && t[0] == '-' && all_digits(t.drop_first()) {
        Some(-digits_value(t.drop_first()))
    } else {
        None
    }
}

/// The signed 32-bit value of a numeric token, if the token is one.
pub open spec fn literal_value(t: Seq<char>) -> Option<i32> {
    match numeral_value(t) {
        Some(v) => if i32::MIN <= v <= i32::MAX {
            Some(v as i32)
        } else {
            None
        },
        None => None,
    }
}

/// The character sequences that a list of tokens holds.
pub open spec fn token_view(v: Seq<Vec<char>>) -> Seq<Seq<char>> {
    v.map_values(|t: Vec<char>| t@)
}

/// The characters of a formula, in order.
fn chars_of(formula: &str) -> (r: Vec<char>)
    ensures
        r@ == formula@,
{
    let mut out: Vec<char> = Vec::new();
    for c in it: formula.chars()
        invariant
            out@ == it.seq().take(it.index() as int),
    {
        out.push(c);
    }
    out
}

fn is_space_char(c: char) -> (r: bool)
    ensures
        r == is_space(c),
{
    c == ' ' || c == '\t' || c == '\n' || c == '\r' || c == '\x0C'
}

/// Splits `formula` into its tokens, left to right.
pub fn tokenize(formula: &str) -> (r: Vec<Vec<char>>)
    ensures
        token_view(r@) == split_spaces(formula@),
{
    let s = chars_of(formula);
    let mut toks: Vec<Vec<char>> = Vec::new();
    let mut cur: Vec<char> = Vec::new();
    let mut i: usize = 0;
    while i < s.len()
        invariant
            i <= s.len(),
            s@ == formula@,
            i > 0 && !is_space(s@[i - 1]) ==> cur@.len() > 0 && split_spaces(s@.take(i as int))
                == token_view(toks@).push(cur@),
            !(i > 0 && !is_space(s@[i - 1])) ==> cur@.len() == 0 && split_spaces(
                s@.take(i as int),
            ) == token_view(toks@),
        decreases s.len() - i,
    {
        let c = s[i];
        let ghost pre = s@.take(i as int);
        assert(s@.take(i + 1).drop_last() =~= pre);
        assert(s@.take(i + 1).last() == c);
        if is_space_char(c) {
            if cur.len() > 0 {
                let ghost before = toks@;
                let done = cur;
                toks.push(done);
                cur = Vec::new();
                assert(toks@ == before.push(done));
                assert(token_view(toks@) =~= token_view(before).push(done@));
            }
        } else {
            let ghost old_cur = cur@;
            cur.push(c);
            proof {
                let t = split_spaces(pre);
                if i > 0 && !is_space(s@[i - 1]) {
                    assert(pre.last() == s@[i - 1]);
                    assert(t.drop_last() =~= token_view(toks@));
                    assert(split_spaces(s@.take(i + 1)) == t.drop_last().push(old_cur.push(c)));
                    assert(split_spaces(s@.take(i + 1)) =~= token_view(toks@).push(cur@));
                } else {
                    assert(i > 0 ==> pre.last() == s@[i - 1]);
                    assert(cur@ =~= seq![c]);
                    assert(split_spaces(s@.take(i + 1)) =~= token_view(toks@).push(cur@));
                }
            }
        }
        i = i + 1;
    }
    assert(s@.take(s.len() as int) == s@);
    if cur.len() > 0 {
        let ghost before = toks@;
        let last = cur;
        toks.push(last);
        assert(toks@ == before.push(last));
        assert(token_view(toks@) =~= token_view(before).push(last@));
    }
    toks
}

proof fn lemma_digits_prefix(d: Seq<char>, k: int)
    requires
        all_digits(d),
        0 <= k <= d.len(),
    ensures
        0 <= digits_value(d.take(k)) <= digits_value(d),
    decreases d.len(),
{
    if k == d.len() {
        assert(d.take(k) =~= d);
        if d.len() > 0 {
            lemma_digits_prefix(d.drop_last(), 0);
            assert(is_digit(d[d.len() - 1]));
            assert(d.last() as int - '0' as int >= 0);
        }
    } else {
        let init = d.drop_last();
        assert(init.take(k) =~= d.take(k));
        lemma_digits_prefix(init, k);
        assert(is_digit(d[d.len() - 1]));
        assert(d.last() as int - '0' as int >= 0);
    }
}

/// Reads a token as a signed 32-bit decimal literal: `None` where the token is
/// no numeral, or its value lies outside the range of `i32`.
pub fn parse_literal(t: &Vec<char>) -> (r: Option<i32>)
    ensures
        r == literal_value(t@),
{
    let n = t.len();
    if n == 0 {
        return None;
    }
    let neg = t[0] == '-';
    let start: usize = if neg { 1 } else { 0 };
    assert(neg ==> t@[0] == '-');
    assert(neg ==> !is_digit(t@[0]));
    assert(neg ==> !all_digits(t@));
    if start == n {
        return None;
    }
    let ghost body = t@.subrange(start as int, n as int);
    assert(neg ==> body =~= t@.drop_first());
    assert(!neg ==> body =~= t@);
    assert(neg ==> !is_digit(t@[0]));
    let mut acc: i64 = 0;
    let mut i: usize = start;
    while i < n
        invariant
            start <= i <= n,
            n == t.len(),
            body == t@.subrange(start as int, n as int),
            n > 0,
            neg == (t@[0] == '-'),
            neg ==> body == t@.drop_first() && !all_digits(t@),
            !neg ==> body == t@,
            all_digits(t@.subrange(start as int, i as int)),
            acc == digits_value(t@.subrange(start as int, i as int)),
            0 <= acc <= 2147483648,
        decreases n - i,
    {
        let c = t[i];
        let ghost pre = t@.subrange(start as int, i as int);
        let ghost next = t@.subrange(start as int, i + 1);
        assert(next.drop_last() =~= pre);
        assert(body.take(i - start) =~= pre);
        assert(body.take(i + 1 - start) =~= next);
        if !('0' <= c && c <= '9') {
            assert(body[i - start] == c);
            assert(!is_digit(body[i - start]));
            assert(!all_digits(body));
            return None;
        }
        acc = acc * 10 + (c as u32 - '0' as u32) as i64;
        assert(all_digits(next));
        if acc > 2147483648 {
            proof {
                if all_digits(body) {
                    lemma_digits_prefix(body, i + 1 - start);
                    assert(digits_value(body) > 2147483648);
                }
            }
            return None;
        }
        i = i + 1;
    }
    assert(t@.subrange(start as int, n as int) =~= body);
    let v: i64 = if neg { -acc } else { acc };
    if v > 2147483647 {
        return None;
    }
    Some(v as i32)
}

} // verus!
