use rust_analyzer_api::number::parse_int;
use rust_analyzer_api::token::{classify, classify_tokens, LexBase, LexKind, LexToken, RawToken, TokenClass};
use rust_analyzer_api::toy_calculator::{
    arith_tokens, calculator_eval, calculator_eval2, eval_tokens, run_stack, scan_tokens,
    sum_checked, try_calculator_eval, try_calculator_eval2, BinaryOperand, Item, MyToken,
};

fn tok(class: TokenClass, len: usize) -> LexToken {
    LexToken { class, len }
}

#[test]
fn mod_test_calculator_eval() {
    let test_cases: [(&str, i32); 1] = [("1 + 2 * 3", 7)];
    for (input, output) in test_cases {
        assert_eq!(calculator_eval(input), output);
    }
}

#[test]
fn rustc_lexer_calculator_test_calculator_eval() {
    let test_cases: [(&str, i32); 1] = [("1 + 2 * 3", 7)];
    for (input, output) in test_cases {
        assert_eq!(calculator_eval(input), output);
    }
}

#[test]
fn test_rustc_tokenize() {
    let tokens = rustc_lexer::tokenize("fn foo(){}").collect::<Vec<_>>();
    for t in &tokens {
        println!("{:?} {}", t.kind, t.len);
    }
    assert_eq!(tokens.len(), 7);
}

#[test]
fn precedence_of_star_and_slash() {
    assert_eq!(calculator_eval("2 * 3 + 4"), 10);
    assert_eq!(calculator_eval("1 - 2 * 3"), -5);
    assert_eq!(calculator_eval("10 - 7 / 2"), 7);
    assert_eq!(calculator_eval("8/3*3"), 6);
    assert_eq!(calculator_eval("100 / 10 / 5 - 1"), 1);
}

#[test]
fn division_rounds_toward_zero() {
    assert_eq!(calculator_eval("7 / 2"), 3);
    assert_eq!(calculator_eval("0 - 7 / 2"), -3);
    assert_eq!(calculator_eval("-7 / 2"), -3);
}

#[test]
fn leading_minus_and_lone_number() {
    assert_eq!(calculator_eval("42"), 42);
    assert_eq!(calculator_eval("-5"), -5);
    assert_eq!(calculator_eval("  1+2  "), 3);
    assert_eq!(calculator_eval(""), 0);
}

#[test]
fn numbers_after_other_tokens_are_dropped() {
    assert_eq!(calculator_eval("1 % 2"), 1);
    assert_eq!(calculator_eval("(1 + 2) * 3"), 6);
    assert_eq!(calculator_eval("0x10 + 1"), 1);
    assert_eq!(calculator_eval("\u{e9} + 1"), 1);
}

#[test]
fn refused_expressions() {
    assert_eq!(try_calculator_eval("1 / 0"), None);
    assert_eq!(try_calculator_eval("* 3"), None);
    assert_eq!(try_calculator_eval("/ 3"), None);
    assert_eq!(try_calculator_eval("99999999999"), None);
    assert_eq!(try_calculator_eval("2147483647 + 1"), None);
    assert_eq!(try_calculator_eval("65536 * 65536"), None);
    assert_eq!(try_calculator_eval("1_000"), None);
    assert_eq!(try_calculator_eval("12u8"), None);
    assert_eq!(try_calculator_eval("2147483647 - 1"), Some(2147483646));
    assert_eq!(try_calculator_eval("1 + 2 * 3"), Some(7));
}

#[test]
fn eval_tokens_from_given_tokens() {
    let src = "1+23";
    let good = [tok(TokenClass::DecimalInt, 1), tok(TokenClass::Plus, 1), tok(TokenClass::DecimalInt, 2)];
    assert_eq!(eval_tokens(src, &good), Some(24));
    let past_end = [tok(TokenClass::DecimalInt, 1), tok(TokenClass::Plus, 1), tok(TokenClass::DecimalInt, 3)];
    assert_eq!(eval_tokens(src, &past_end), None);
    let split_char = [tok(TokenClass::Other, 1), tok(TokenClass::DecimalInt, 1)];
    assert_eq!(eval_tokens("\u{e9}", &split_char), None);
    let overflow = [tok(TokenClass::Whitespace, usize::MAX), tok(TokenClass::Whitespace, 1)];
    assert_eq!(eval_tokens(src, &overflow), None);
    assert_eq!(eval_tokens(src, &[]), Some(0));
}

#[test]
fn scan_run_and_sum() {
    let src = "3 * 4";
    let toks = [
        tok(TokenClass::DecimalInt, 1),
        tok(TokenClass::Whitespace, 1),
        tok(TokenClass::Star, 1),
        tok(TokenClass::Whitespace, 1),
        tok(TokenClass::DecimalInt, 1),
    ];
    let items = scan_tokens(src, &toks, i32::MIN as i64, i32::MAX as i64).unwrap();
    assert_eq!(items, vec![Item::Num(3), Item::Op(TokenClass::Star), Item::Num(4)]);
    assert_eq!(run_stack(&items), Some(vec![12]));
    assert_eq!(run_stack(&[Item::Op(TokenClass::Slash), Item::Num(2)]), None);
    assert_eq!(sum_checked(&[1, 2, 3]), Some(6));
    assert_eq!(sum_checked(&[i32::MAX, 1, -1]), None);
    assert_eq!(sum_checked(&[]), Some(0));
}

#[test]
fn parse_like_str_parse() {
    let i32_lo = i32::MIN as i64;
    let i32_hi = i32::MAX as i64;
    assert_eq!(parse_int(b"123", i32_lo, i32_hi), Some(123));
    assert_eq!(parse_int(b"+5", i32_lo, i32_hi), Some(5));
    assert_eq!(parse_int(b"-5", i32_lo, i32_hi), Some(-5));
    assert_eq!(parse_int(b"-2147483648", i32_lo, i32_hi), Some(-2147483648));
    assert_eq!(parse_int(b"2147483648", i32_lo, i32_hi), None);
    assert_eq!(parse_int(b"0000000000000000000007", i32_lo, i32_hi), Some(7));
    assert_eq!(parse_int(b"", i32_lo, i32_hi), None);
    assert_eq!(parse_int(b"+", i32_lo, i32_hi), None);
    assert_eq!(parse_int(b"-", i32_lo, i32_hi), None);
    assert_eq!(parse_int(b"1a", i32_lo, i32_hi), None);
    assert_eq!(parse_int(b"-5", 0, u32::MAX as i64), None);
    assert_eq!(parse_int(b"4294967295", 0, u32::MAX as i64), Some(4294967295));
    assert_eq!(parse_int(b"4294967296", 0, u32::MAX as i64), None);
    for (s, lo, hi) in [("77", i32_lo, i32_hi), ("-9", i32_lo, i32_hi), ("x", 0, u32::MAX as i64)] {
        assert_eq!(parse_int(s.as_bytes(), lo, hi), s.parse::<i32>().ok().map(|v| v as i64));
    }
}

#[test]
fn arithmetic_tokens_of_an_expression() {
    let src = "1 + 2*3";
    let toks = [
        tok(TokenClass::DecimalInt, 1),
        tok(TokenClass::Whitespace, 1),
        tok(TokenClass::Plus, 1),
        tok(TokenClass::Whitespace, 1),
        tok(TokenClass::DecimalInt, 1),
        tok(TokenClass::Star, 1),
        tok(TokenClass::DecimalInt, 1),
    ];
    assert_eq!(
        arith_tokens(src, &toks),
        Some(vec![
            MyToken::Num(1),
            MyToken::BinaryOp(BinaryOperand::Add),
            MyToken::Num(2),
            MyToken::BinaryOp(BinaryOperand::Mul),
            MyToken::Num(3)
        ])
    );
    let toks = [tok(TokenClass::Minus, 1), tok(TokenClass::DecimalInt, 1)];
    assert_eq!(arith_tokens("-7", &toks), Some(vec![MyToken::BinaryOp(BinaryOperand::Sub), MyToken::Num(7)]));
    let toks = [tok(TokenClass::Other, 1), tok(TokenClass::Slash, 1), tok(TokenClass::DecimalInt, 10)];
    assert_eq!(arith_tokens("x/4294967295", &toks), Some(vec![MyToken::BinaryOp(BinaryOperand::Div), MyToken::Num(4294967295)]));
    let toks = [tok(TokenClass::DecimalInt, 10)];
    assert_eq!(arith_tokens("4294967296", &toks), None);
}

#[test]
fn calculator_eval2_accepts_u32_literals_only() {
    calculator_eval2("1 + 2 * 3");
    calculator_eval2("x + 1 % 4294967295");
    assert_eq!(calculator_eval2("8 - 9 / 3"), ());
    assert!(try_calculator_eval2("8 - 9 / 3"));
    assert!(try_calculator_eval2("0x1F + 99999999999999999999.5"));
    assert!(!try_calculator_eval2("4294967296"));
    assert!(!try_calculator_eval2("1_0"));
    assert!(!try_calculator_eval2("7u8"));
}

#[test]
fn classification_of_token_kinds() {
    let int = |base| LexKind::IntLiteral { base, empty_int: false, suffix_start: 1 };
    assert_eq!(classify(int(LexBase::Decimal)), TokenClass::DecimalInt);
    assert_eq!(classify(int(LexBase::Hexadecimal)), TokenClass::Other);
    assert_eq!(classify(int(LexBase::Binary)), TokenClass::Other);
    assert_eq!(classify(int(LexBase::Octal)), TokenClass::Other);
    assert_eq!(classify(LexKind::Plus), TokenClass::Plus);
    assert_eq!(classify(LexKind::Whitespace), TokenClass::Whitespace);
    assert_eq!(classify(LexKind::Other), TokenClass::Other);
    let raw = [RawToken { kind: LexKind::Slash, len: 1 }, RawToken { kind: int(LexBase::Decimal), len: 3 }];
    assert_eq!(classify_tokens(&raw), vec![tok(TokenClass::Slash, 1), tok(TokenClass::DecimalInt, 3)]);
}

#[test]
fn leading_minus_negates_first_number() {
    assert_eq!(calculator_eval("-7 / 2 + 1"), -2);
    assert_eq!(calculator_eval("-2 * 3 - 4"), -10);
    assert_eq!(try_calculator_eval("0 - 65536 * 32768"), Some(i32::MIN));
    assert_eq!(try_calculator_eval("65536 * 32768"), None);
    assert_eq!(try_calculator_eval("-65536 * 32768"), Some(i32::MIN));
}

#[test]
fn joining_with_plus_adds() {
    let pairs = [("1 * 2", "3 - 4"), ("10 / 3", "7"), ("-5 * 5", "2 * 2 * 2"), ("8", "0 - 9 / 2"), ("1", "-2"), ("-3 * 2", "-7 / 2 + 1")];
    for (a, b) in pairs {
        let joined = format!("{a} + {b}");
        assert_eq!(calculator_eval(&joined), calculator_eval(a) + calculator_eval(b));
    }
}

#[test]
fn whitespace_never_changes_the_result() {
    let pairs = [("1+2*3", " 1 + 2 * 3 "), ("-7/2", "- 7\t/\n2"), ("8/3*3", "8 /3* 3  ")];
    for (tight, spaced) in pairs {
        assert_eq!(calculator_eval(tight), calculator_eval(spaced));
        assert_eq!(try_calculator_eval2(tight), try_calculator_eval2(spaced));
    }
    assert_eq!(try_calculator_eval("1 /  0"), try_calculator_eval("1/0"));
    assert_eq!(calculator_eval("1\u{2028}+\u{85}2\u{200e}*3"), 7);
}
