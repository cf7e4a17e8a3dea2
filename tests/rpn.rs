use rpn_calc::lexer::{parse_literal, tokenize};
use rpn_calc::{RpnCalculator, RpnError};

fn chars(s: &str) -> Vec<char> {
    s.chars().collect()
}

#[test]
fn test_ok() {
    let calc = RpnCalculator::new(false);
    assert_eq!(calc.eval("5").unwrap(), 5);
    assert_eq!(calc.eval("50").unwrap(), 50);
    assert_eq!(calc.eval("-50").unwrap(), -50);

    assert_eq!(calc.eval("2 3 +").unwrap(), 5);
    assert_eq!(calc.eval("2 3 *").unwrap(), 6);
    assert_eq!(calc.eval("2 3 -").unwrap(), -1);
    assert_eq!(calc.eval("2 3 /").unwrap(), 0);
    assert_eq!(calc.eval("2 3 %").unwrap(), 2);
}

#[test]
fn test_ng() {
    let calc = RpnCalculator::new(false);
    assert!(calc.eval("").is_err());
    assert!(calc.eval("1 1 1 +").is_err());
    assert!(calc.eval("+ 1 1").is_err());
}

#[test]
fn compound_formula() {
    let calc = RpnCalculator::new(false);
    assert_eq!(calc.eval("1 2 + 4 *"), Ok(12));
}

#[test]
fn empty_and_blank_lines_are_syntax_errors() {
    let calc = RpnCalculator::new(false);
    assert_eq!(calc.eval(""), Err(RpnError::InvalidSyntax(None)));
    assert_eq!(calc.eval("  \t "), Err(RpnError::InvalidSyntax(None)));
}

#[test]
fn leftover_operands_are_syntax_errors() {
    let calc = RpnCalculator::new(false);
    assert_eq!(calc.eval("1 2"), Err(RpnError::InvalidSyntax(None)));
    assert_eq!(calc.eval("1 1 1 +"), Err(RpnError::InvalidSyntax(None)));
}

#[test]
fn missing_operands_reported_at_operator() {
    let calc = RpnCalculator::new(false);
    assert_eq!(calc.eval("+"), Err(RpnError::InvalidSyntax(Some(1))));
    assert_eq!(calc.eval("1 +"), Err(RpnError::InvalidSyntax(Some(2))));
    assert_eq!(calc.eval("+ 1 1"), Err(RpnError::InvalidSyntax(Some(1))));
}

#[test]
fn unknown_operator_is_invalid_token() {
    let calc = RpnCalculator::new(false);
    assert_eq!(calc.eval("2 3 ^"), Err(RpnError::InvalidToken(3)));
    assert_eq!(calc.eval("2 3 abc"), Err(RpnError::InvalidToken(3)));
    assert_eq!(calc.eval("1 2 ++"), Err(RpnError::InvalidToken(3)));
}

#[test]
fn leading_plus_is_not_a_numeral() {
    let calc = RpnCalculator::new(false);
    assert_eq!(calc.eval("+5"), Err(RpnError::InvalidSyntax(Some(1))));
    assert_eq!(calc.eval("1 2 +5"), Err(RpnError::InvalidToken(3)));
}

#[test]
fn whitespace_is_interchangeable() {
    let calc = RpnCalculator::new(false);
    assert_eq!(calc.eval("  2 3 +  "), Ok(5));
    assert_eq!(calc.eval("2\t3\t+"), Ok(5));
    assert_eq!(calc.eval("\t 2  \t 3   + \t"), Ok(5));
    assert_eq!(calc.eval("2 \t\t3 -"), calc.eval("2 3 -"));
}

#[test]
fn division_truncates_toward_zero() {
    let calc = RpnCalculator::new(false);
    assert_eq!(calc.eval("7 2 /"), Ok(3));
    assert_eq!(calc.eval("-7 2 /"), Ok(-3));
    assert_eq!(calc.eval("7 -2 /"), Ok(-3));
    assert_eq!(calc.eval("-7 -2 /"), Ok(3));
}

#[test]
fn remainder_has_sign_of_dividend() {
    let calc = RpnCalculator::new(false);
    assert_eq!(calc.eval("7 3 %"), Ok(1));
    assert_eq!(calc.eval("-7 3 %"), Ok(-1));
    assert_eq!(calc.eval("7 -3 %"), Ok(1));
    assert_eq!(calc.eval("-7 -3 %"), Ok(-1));
}

#[test]
fn division_by_zero_is_reported() {
    let calc = RpnCalculator::new(false);
    assert_eq!(calc.eval("1 0 /"), Err(RpnError::DivisionByZero(3)));
    assert_eq!(calc.eval("1 0 %"), Err(RpnError::DivisionByZero(3)));
}

#[test]
fn overflow_is_reported() {
    let calc = RpnCalculator::new(false);
    assert_eq!(calc.eval("2147483647 1 +"), Err(RpnError::Overflow(3)));
    assert_eq!(calc.eval("-2147483648 1 -"), Err(RpnError::Overflow(3)));
    assert_eq!(calc.eval("65536 65536 *"), Err(RpnError::Overflow(3)));
    assert_eq!(calc.eval("-2147483648 -1 /"), Err(RpnError::Overflow(3)));
    assert_eq!(calc.eval("-2147483648 -1 %"), Err(RpnError::Overflow(3)));
}

#[test]
fn literals_at_the_edges_of_i32() {
    let calc = RpnCalculator::new(false);
    assert_eq!(calc.eval("2147483647"), Ok(i32::MAX));
    assert_eq!(calc.eval("-2147483648"), Ok(i32::MIN));
    assert_eq!(calc.eval("2147483648"), Err(RpnError::InvalidSyntax(Some(1))));
    assert_eq!(calc.eval("1 2147483648 +"), Err(RpnError::InvalidSyntax(Some(2))));
    assert_eq!(calc.eval("1 2 2147483648"), Err(RpnError::InvalidToken(3)));
}

#[test]
fn numerals_round_trip() {
    let calc = RpnCalculator::new(false);
    for n in [0, 7, -7, 10, 1234567, -99, i32::MAX, i32::MIN] {
        assert_eq!(calc.eval(&n.to_string()), Ok(n));
    }
}

#[test]
fn operator_laws_on_values() {
    let calc = RpnCalculator::new(false);
    for (a, b) in [(3, 9), (-4, 11), (0, -5), (123, 456)] {
        let f = |x: i32, y: i32, op: &str| format!("{} {} {}", x, y, op);
        assert_eq!(calc.eval(&f(a, b, "+")), calc.eval(&f(b, a, "+")));
        assert_eq!(calc.eval(&f(a, b, "*")), calc.eval(&f(b, a, "*")));
        assert_eq!(calc.eval(&f(a, 0, "+")), Ok(a));
        assert_eq!(calc.eval(&f(a, 1, "*")), Ok(a));
        assert_eq!(calc.eval(&f(a, a, "-")), Ok(0));
    }
}

#[test]
fn evaluators_agree() {
    let quiet = RpnCalculator::new(false);
    let loud = RpnCalculator::new(true);
    for f in ["1 2 + 4 *", "", "3 0 /", "2 3 ^", "9"] {
        assert_eq!(quiet.eval(f), loud.eval(f));
        assert_eq!(quiet.eval(f), RpnCalculator::new(false).eval(f));
    }
}

#[test]
fn balance_of_numerals_and_operators() {
    let calc = RpnCalculator::new(false);
    let f = "5 1 2 + 4 * + 3 -";
    assert_eq!(calc.eval(f), Ok(14));
    let toks = tokenize(f);
    let numerals = toks.iter().filter(|t| parse_literal(t).is_some()).count();
    assert_eq!(numerals, toks.len() - numerals + 1);
}

#[test]
fn tokenize_splits_on_whitespace() {
    let toks = tokenize(" 12\t-3  +\n");
    assert_eq!(toks, vec![chars("12"), chars("-3"), chars("+")]);
    assert!(tokenize("   ").is_empty());
}

#[test]
fn parse_literal_cases() {
    assert_eq!(parse_literal(&chars("0")), Some(0));
    assert_eq!(parse_literal(&chars("-50")), Some(-50));
    assert_eq!(parse_literal(&chars("007")), Some(7));
    assert_eq!(parse_literal(&chars("-")), None);
    assert_eq!(parse_literal(&chars("+5")), None);
    assert_eq!(parse_literal(&chars("1_000")), None);
    assert_eq!(parse_literal(&chars("0x10")), None);
    assert_eq!(parse_literal(&chars("-2147483649")), None);
    assert_eq!(parse_literal(&chars("99999999999999999999")), None);
}

#[test]
fn verbose_trace_records_each_stack() {
    let calc = RpnCalculator::new(true);
    assert!(calc.verbose());
    let t = calc.eval_traced("1 2 + 4 *");
    assert_eq!(t.result, Ok(12));
    assert_eq!(t.tokens.len(), 5);
    assert_eq!(
        t.stacks,
        vec![vec![1], vec![1, 2], vec![3], vec![3, 4], vec![12]]
    );
}

#[test]
fn verbose_trace_stops_at_failing_token() {
    let calc = RpnCalculator::new(true);
    let t = calc.eval_traced("4 2 ^ 1");
    assert_eq!(t.result, Err(RpnError::InvalidToken(3)));
    assert_eq!(t.stacks, vec![vec![4], vec![4, 2]]);
}

#[test]
fn quiet_trace_records_nothing() {
    let calc = RpnCalculator::new(false);
    assert!(!calc.verbose());
    let t = calc.eval_traced("1 2 +");
    assert_eq!(t.result, Ok(3));
    assert!(t.stacks.is_empty());
}
