//! The toy calculator: reads decimal integers and `+ - * /` from the
//! tokens of an expression and evaluates them with the usual precedence,
//! keeping a stack of signed terms.

use crate::number::{parse_int, spec_parse_int};
use crate::token::{classified, classify_tokens, lex, lexed, LexToken, TokenClass};
use vstd::prelude::*;
use vstd::slice::slice_subrange;
use vstd::string::StringSliceAdditionalSpecFns;
use vstd::utf8::is_char_boundary;

verus! {

/// What the calculator keeps of a token that is not whitespace: a number
/// read from a decimal literal, or the kind of any other token.
#[derive(Clone, Copy, Debug, PartialEq, Eq, Structural)]
pub enum Item {
    Num(i64),
    Op(TokenClass),
}

/// One step of scanning: `offset` is where `tok` starts in the bytes `src`.
/// A decimal literal must lie on character boundaries inside `src` and
/// parse as an integer in `lo..=hi`; otherwise scanning fails.
pub open spec fn scan_step(
    src: Seq<u8>,
    items: Seq<Item>,
    offset: int,
    tok: LexToken,
    lo: int,
    hi: int,
) -> Option<(Seq<Item>, int)> {
    let end = offset + tok.len;
    if end > usize::MAX {
        None
    } else {
        match tok.class {
            TokenClass::Whitespace => Some((items, end)),
            TokenClass::DecimalInt => {
                if end <= src.len() && is_char_boundary(src, offset) && is_char_boundary(src, end) {
                    match spec_parse_int(src.subrange(offset, end), lo, hi) {
                        Some(v) => Some((items.push(Item::Num(v as i64)), end)),
                        None => None,
                    }
                } else {
                    None
                }
            },
            c => Some((items.push(Item::Op(c)), end)),
        }
    }
}

/// Scans the tokens `toks` of the bytes `src` from the start: the items
/// read so far and the offset reached, or `None` where scanning fails.
pub open spec fn scan(src: Seq<u8>, toks: Seq<LexToken>, lo: int, hi: int) -> Option<(Seq<Item>, int)>
    decreases toks.len(),
{
    if toks.len() == 0 {
        Some((seq![], 0))
    } else {
        match scan(src, toks.drop_last(), lo, hi) {
            Some((items, offset)) => scan_step(src, items, offset, toks.last(), lo, hi),
            None => None,
        }
    }
}

/// The state of the evaluation: the last operator seen and the stack of
/// signed terms.
pub struct RunState {
    pub last: TokenClass,
    pub stack: Seq<i32>,
}

/// Combines the number `rhs` with the stack under the operator `last`:
/// `+` and `-` start a new term, `*` and `/` fold into the last term, and
/// after any other token the number is dropped. `None` where the stack is
/// empty for `*` or `/`, where `rhs` is zero for `/`, and on overflow.
pub open spec fn apply(last: TokenClass, stack: Seq<i32>, rhs: i32) -> Option<Seq<i32>> {
    match last {
        TokenClass::Plus => Some(stack.push(rhs)),
        TokenClass::Minus => {
            if rhs == i32::MIN {
                None
            } else {
                Some(stack.push((-rhs) as i32))
            }
        },
        TokenClass::Star => {
            if stack.len() == 0 {
                None
            } else {
                match stack.last().checked_mul(rhs) {
                    Some(p) => Some(stack.update(stack.len() - 1, p)),
                    None => None,
                }
            }
        },
        TokenClass::Slash => {
            if stack.len() == 0 {
                None
            } else {
                match stack.last().checked_div(rhs) {
                    Some(q) => Some(stack.update(stack.len() - 1, q)),
                    None => None,
                }
            }
        },
        _ => Some(stack),
    }
}

pub open spec fn run_step(st: RunState, item: Item) -> Option<RunState> {
    match item {
        Item::Op(c) => Some(RunState { last: c, stack: st.stack }),
        Item::Num(v) => {
            if i32::MIN <= v <= i32::MAX {
                match apply(st.last, st.stack, v as i32) {
                    Some(stack) => Some(RunState { last: st.last, stack }),
                    None => None,
                }
            } else {
                None
            }
        },
    }
}

/// Runs the items from the start, with `+` as the operator before the
/// first number.
pub open spec fn run_items(items: Seq<Item>) -> Option<RunState>
    decreases items.len(),
{
    if items.len() == 0 {
        Some(RunState { last: TokenClass::Plus, stack: seq![] })
    } else {
        match run_items(items.drop_last()) {
            Some(st) => run_step(st, items.last()),
            None => None,
        }
    }
}

/// The sum of `s` from left to right starting at 0, or `None` where a
/// partial sum leaves the range of `i32`.
pub open spec fn sum_stack(s: Seq<i32>) -> Option<i32>
    decreases s.len(),
{
    if s.len() == 0 {
        Some(0)
    } else {
        match sum_stack(s.drop_last()) {
            Some(a) => a.checked_add(s.last()),
            None => None,
        }
    }
}

/// The value of the expression whose bytes are `src` and whose tokens are
/// `toks`, or `None` where the evaluation cannot complete.
pub open spec fn eval_spec(src: Seq<u8>, toks: Seq<LexToken>) -> Option<i32> {
    match scan(src, toks, i32::MIN as int, i32::MAX as int) {
        Some((items, _)) => eval_items(items),
        None => None,
    }
}

/// The value of the items `items`: run them, then add up the stack.
pub open spec fn eval_items(items: Seq<Item>) -> Option<i32> {
    match run_items(items) {
        Some(st) => sum_stack(st.stack),
        None => None,
    }
}

proof fn lemma_scan_prefix_none(src: Seq<u8>, toks: Seq<LexToken>, k: int, lo: int, hi: int)
    requires
        0 <= k <= toks.len(),
        scan(src, toks.take(k), lo, hi) is None,
    ensures
        scan(src, toks, lo, hi) is None,
    decreases toks.len(),
{
    if k == toks.len() {
        assert(toks.take(k) =~= toks);
    } else {
        assert(toks.drop_last().take(k) =~= toks.take(k));
        lemma_scan_prefix_none(src, toks.drop_last(), k, lo, hi);
    }
}

pub proof fn lemma_run_prefix_none(items: Seq<Item>, k: int)
    requires
        0 <= k <= items.len(),
        run_items(items.take(k)) is None,
    ensures
        run_items(items) is None,
    decreases items.len(),
{
    if k == items.len() {
        assert(items.take(k) =~= items);
    } else {
        assert(items.drop_last().take(k) =~= items.take(k));
        lemma_run_prefix_none(items.drop_last(), k);
    }
}

proof fn lemma_sum_prefix_none(s: Seq<i32>, k: int)
    requires
        0 <= k <= s.len(),
        sum_stack(s.take(k)) is None,
    ensures
        sum_stack(s) is None,
    decreases s.len(),
{
    if k == s.len() {
        assert(s.take(k) =~= s);
    } else {
        assert(s.drop_last().take(k) =~= s.take(k));
        lemma_sum_prefix_none(s.drop_last(), k);
    }
}

/// Scans `tokens`, the tokens of `src`, reading each decimal literal as an
/// integer in `lo..=hi` the way `str::parse` does.
pub fn scan_tokens(src: &str, tokens: &[LexToken], lo: i64, hi: i64) -> (r: Option<Vec<Item>>)
    requires
        -0x1_0000_0000 <= lo <= 0 <= hi <= 0x1_0000_0000,
    ensures
        match r {
            Some(items) => scan(src.spec_bytes(), tokens@, lo as int, hi as int) matches Some((its, _)) && its == items@,
            None => scan(src.spec_bytes(), tokens@, lo as int, hi as int) is None,
        },
{
    let bytes = src.as_bytes();
    let ghost b = src.spec_bytes();
    let mut items: Vec<Item> = Vec::new();
    let mut offset: usize = 0;
    let mut i: usize = 0;
    assert(tokens@.take(0) =~= seq![]);
    while i < tokens.len()
        invariant
            i <= tokens@.len(),
            bytes@ == b,
            b == src.spec_bytes(),
            -0x1_0000_0000 <= lo <= 0 <= hi <= 0x1_0000_0000,
            scan(b, tokens@.take(i as int), lo as int, hi as int) == Some((items@, offset as int)),
        decreases tokens.len() - i,
    {
        let tok = tokens[i];
        assert(tokens@.take(i + 1).drop_last() =~= tokens@.take(i as int));
        assert(tokens@.take(i + 1).last() == tok);
        let end = match offset.checked_add(tok.len) {
            Some(e) => e,
            None => {
                proof {
                    lemma_scan_prefix_none(b, tokens@, i + 1, lo as int, hi as int);
                }
                return None;
            },
        };
        match tok.class {
            TokenClass::Whitespace => {},
            TokenClass::DecimalInt => {
                if end > bytes.len() || !src.is_char_boundary(offset) || !src.is_char_boundary(end) {
                    proof {
                        lemma_scan_prefix_none(b, tokens@, i + 1, lo as int, hi as int);
                    }
                    return None;
                }
                let piece = slice_subrange(bytes, offset, end);
                match parse_int(piece, lo, hi) {
                    Some(v) => {
                        items.push(Item::Num(v));
                    },
                    None => {
                        proof {
                            lemma_scan_prefix_none(b, tokens@, i + 1, lo as int, hi as int);
                        }
                        return None;
                    },
                }
            },
            c => {
                items.push(Item::Op(c));
            },
        }
        offset = end;
        i = i + 1;
    }
    assert(tokens@.take(tokens@.len() as int) =~= tokens@);
    Some(items)
}

/// Runs `items` through the stack of signed terms and returns the stack.
pub fn run_stack(items: &[Item]) -> (r: Option<Vec<i32>>)
    ensures
        match r {
            Some(stack) => run_items(items@) matches Some(st) && st.stack == stack@,
            None => run_items(items@) is None,
        },
{
    let mut last = TokenClass::Plus;
    let mut stack: Vec<i32> = Vec::new();
    let mut i: usize = 0;
    assert(items@.take(0) =~= seq![]);
    while i < items.len()
        invariant
            i <= items@.len(),
            run_items(items@.take(i as int)) == Some(RunState { last, stack: stack@ }),
        decreases items.len() - i,
    {
        let item = items[i];
        assert(items@.take(i + 1).drop_last() =~= items@.take(i as int));
        assert(items@.take(i + 1).last() == item);
        match item {
            Item::Op(c) => {
                last = c;
            },
            Item::Num(v) => {
                if v < i32::MIN as i64 || v > i32::MAX as i64 {
                    proof {
                        lemma_run_prefix_none(items@, i + 1);
                    }
                    return None;
                }
                let rhs = v as i32;
                match last {
                    TokenClass::Plus => {
                        stack.push(rhs);
                    },
                    TokenClass::Minus => {
                        if rhs == i32::MIN {
                            proof {
                                lemma_run_prefix_none(items@, i + 1);
                            }
                            return None;
                        }
                        stack.push(-rhs);
                    },
                    TokenClass::Star => {
                        let n = stack.len();
                        if n == 0 {
                            proof {
                                lemma_run_prefix_none(items@, i + 1);
                            }
                            return None;
                        }
                        match stack[n - 1].checked_mul(rhs) {
                            Some(p) => {
                                stack.set(n - 1, p);
                            },
                            None => {
                                proof {
                                    lemma_run_prefix_none(items@, i + 1);
                                }
                                return None;
                            },
                        }
                    },
                    TokenClass::Slash => {
                        let n = stack.len();
                        if n == 0 {
                            proof {
                                lemma_run_prefix_none(items@, i + 1);
                            }
                            return None;
                        }
                        match stack[n - 1].checked_div(rhs) {
                            Some(q) => {
                                stack.set(n - 1, q);
                            },
                            None => {
                                proof {
                                    lemma_run_prefix_none(items@, i + 1);
                                }
                                return None;
                            },
                        }
                    },
                    _ => {},
                }
            },
        }
        i = i + 1;
    }
    assert(items@.take(items@.len() as int) =~= items@);
    Some(stack)
}

/// Adds up `stack` from left to right, as `Iterator::sum` does.
pub fn sum_checked(stack: &[i32]) -> (r: Option<i32>)
    ensures
        r == sum_stack(stack@),
{
    let mut total: i32 = 0;
    let mut j: usize = 0;
    assert(stack@.take(0) =~= seq![]);
    while j < stack.len()
        invariant
            j <= stack@.len(),
            sum_stack(stack@.take(j as int)) == Some(total),
        decreases stack.len() - j,
    {
        assert(stack@.take(j + 1).drop_last() =~= stack@.take(j as int));
        assert(stack@.take(j + 1).last() == stack@[j as int]);
        match total.checked_add(stack[j]) {
            Some(t) => {
                total = t;
            },
            None => {
                proof {
                    lemma_sum_prefix_none(stack@, j + 1);
                }
                return None;
            },
        }
        j = j + 1;
    }
    assert(stack@.take(stack@.len() as int) =~= stack@);
    Some(total)
}

/// Evaluates the expression `src` from its tokens `tokens`: `None` exactly
/// where the evaluation cannot complete (a decimal literal that is not an
/// `i32` or not on character boundaries, `*` or `/` before any number, a
/// division by zero, an overflow).
pub fn eval_tokens(src: &str, tokens: &[LexToken]) -> (r: Option<i32>)
    ensures
        r == eval_spec(src.spec_bytes(), tokens@),
{
    match scan_tokens(src, tokens, i32::MIN as i64, i32::MAX as i64) {
        Some(items) => match run_stack(items.as_slice()) {
            Some(stack) => sum_checked(stack.as_slice()),
            None => None,
        },
        None => None,
    }
}

/// Evaluates `expr`, read with `rustc_lexer`: its decimal integers combined
/// by `+ - * /` with `*` and `/` binding tighter, and `/` rounding toward
/// zero.
pub fn calculator_eval(expr: &str) -> (r: i32)
    requires
        eval_spec(expr.spec_bytes(), classified(lexed(expr@))) is Some,
    ensures
        eval_spec(expr.spec_bytes(), classified(lexed(expr@))) == Some(r),
{
    let tokens = classify_tokens(lex(expr).as_slice());
    eval_tokens(expr, tokens.as_slice()).unwrap()
}

/// Evaluates `expr` as `calculator_eval` does, or returns `None` where
/// `calculator_eval` cannot complete.
pub fn try_calculator_eval(expr: &str) -> (r: Option<i32>)
    ensures
        r == eval_spec(expr.spec_bytes(), classified(lexed(expr@))),
{
    let tokens = classify_tokens(lex(expr).as_slice());
    if eval_tokens(expr, tokens.as_slice()).is_some() {
        Some(calculator_eval(expr))
    } else {
        None
    }
}

/// The four arithmetic operators.
#[derive(Clone, Copy, Debug, PartialEq, Eq, Structural)]
pub enum BinaryOperand {
    Add,
    Sub,
    Mul,
    Div,
}

/// A token of an arithmetic expression: an operator or an unsigned number.
#[derive(Clone, Copy, Debug, PartialEq, Eq, Structural)]
pub enum MyToken {
    BinaryOp(BinaryOperand),
    Num(u32),
}

/// The arithmetic tokens among `items`, in order: numbers, and the four
/// operators; every other kind of token is left out.
pub open spec fn my_tokens(items: Seq<Item>) -> Seq<MyToken>
    decreases items.len(),
{
    if items.len() == 0 {
        seq![]
    } else {
        let rest = my_tokens(items.drop_last());
        match items.last() {
            Item::Num(v) => rest.push(MyToken::Num(v as u32)),
            Item::Op(TokenClass::Plus) => rest.push(MyToken::BinaryOp(BinaryOperand::Add)),
            Item::Op(TokenClass::Minus) => rest.push(MyToken::BinaryOp(BinaryOperand::Sub)),
            Item::Op(TokenClass::Star) => rest.push(MyToken::BinaryOp(BinaryOperand::Mul)),
            Item::Op(TokenClass::Slash) => rest.push(MyToken::BinaryOp(BinaryOperand::Div)),
            Item::Op(_) => rest,
        }
    }
}

/// The arithmetic tokens of the expression `src` with tokens `toks`, its
/// decimal literals read as `u32`; `None` where one is not a `u32`.
pub open spec fn spec_arith_tokens(src: Seq<u8>, toks: Seq<LexToken>) -> Option<Seq<MyToken>> {
    match scan(src, toks, 0, u32::MAX as int) {
        Some((items, _)) => Some(my_tokens(items)),
        None => None,
    }
}

/// Keeps the arithmetic tokens of `src`, whose tokens are `tokens`.
pub fn arith_tokens(src: &str, tokens: &[LexToken]) -> (r: Option<Vec<MyToken>>)
    ensures
        match r {
            Some(out) => spec_arith_tokens(src.spec_bytes(), tokens@) == Some(out@),
            None => spec_arith_tokens(src.spec_bytes(), tokens@) is None,
        },
{
    let items = match scan_tokens(src, tokens, 0, u32::MAX as i64) {
        Some(items) => items,
        None => return None,
    };
    let mut out: Vec<MyToken> = Vec::new();
    let mut i: usize = 0;
    assert(items@.take(0) =~= seq![]);
    while i < items.len()
        invariant
            i <= items@.len(),
            out@ == my_tokens(items@.take(i as int)),
        decreases items.len() - i,
    {
        assert(items@.take(i + 1).drop_last() =~= items@.take(i as int));
        assert(items@.take(i + 1).last() == items@[i as int]);
        match items[i] {
            Item::Num(v) => out.push(MyToken::Num(v as u32)),
            Item::Op(TokenClass::Plus) => out.push(MyToken::BinaryOp(BinaryOperand::Add)),
            Item::Op(TokenClass::Minus) => out.push(MyToken::BinaryOp(BinaryOperand::Sub)),
            Item::Op(TokenClass::Star) => out.push(MyToken::BinaryOp(BinaryOperand::Mul)),
            Item::Op(TokenClass::Slash) => out.push(MyToken::BinaryOp(BinaryOperand::Div)),
            Item::Op(_) => {},
        }
        i = i + 1;
    }
    assert(items@.take(items@.len() as int) =~= items@);
    Some(out)
}

/// Reads the arithmetic tokens of `expr` (numbers as `u32`, and the four
/// operators), the first stage of a calculator that builds a syntax tree,
/// and drops them. Every decimal literal of `expr` must read as a `u32`.
pub fn calculator_eval2(expr: &str)
    requires
        spec_arith_tokens(expr.spec_bytes(), classified(lexed(expr@))) is Some,
{
    let tokens = classify_tokens(lex(expr).as_slice());
    let _ = arith_tokens(expr, tokens.as_slice());
}

/// Runs `calculator_eval2` where every decimal literal of `expr` reads as a
/// `u32`, and tells whether it did.
pub fn try_calculator_eval2(expr: &str) -> (r: bool)
    ensures
        r == spec_arith_tokens(expr.spec_bytes(), classified(lexed(expr@))) is Some,
{
    let tokens = classify_tokens(lex(expr).as_slice());
    if arith_tokens(expr, tokens.as_slice()).is_some() {
        calculator_eval2(expr);
        true
    } else {
        false
    }
}

} // verus!
