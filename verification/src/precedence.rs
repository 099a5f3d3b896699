//! The arithmetic the calculator computes: expressions built from numbers
//! and `+ - * /`, valued by the grammar `expr := expr (+|-) term | term`,
//! `term := term (*|/) number | number`, and the law that the stack of
//! signed terms agrees with it.

use crate::token::{LexToken, TokenClass};
use crate::toy_calculator::{
    eval_items, eval_spec, lemma_run_prefix_none, run_items, run_step, scan, sum_stack, Item, RunState,
};
use vstd::prelude::*;

verus! {

/// Integer division as Rust computes it: the quotient rounded toward zero.
pub open spec fn trunc_div(x: int, d: int) -> int {
    if x == 0 {
        0
    } else if x > 0 && d > 0 {
        x / d
    } else if x < 0 && d < 0 {
        (x * -1) / (d * -1)
    } else if x < 0 {
        ((x * -1) / d) * -1
    } else {
        (x / (d * -1)) * -1
    }
}

pub open spec fn is_arith(c: TokenClass) -> bool {
    c == TokenClass::Plus || c == TokenClass::Minus || c == TokenClass::Star || c == TokenClass::Slash
}

pub open spec fn is_additive(c: TokenClass) -> bool {
    c == TokenClass::Plus || c == TokenClass::Minus
}

/// The items of the expression `first op1 n1 op2 n2 ...`, where `rest`
/// holds the pairs `(op_i, n_i)`.
pub open spec fn expr_items(first: i64, rest: Seq<(TokenClass, i64)>) -> Seq<Item>
    decreases rest.len(),
{
    if rest.len() == 0 {
        seq![Item::Num(first)]
    } else {
        expr_items(first, rest.drop_last()).push(Item::Op(rest.last().0)).push(
            Item::Num(rest.last().1),
        )
    }
}

/// The value of a product `first op1 n1 ...` whose operators are `*` or
/// `/`, from left to right.
pub open spec fn term_value(first: int, rest: Seq<(TokenClass, i64)>) -> int
    decreases rest.len(),
{
    if rest.len() == 0 {
        first
    } else {
        let t = term_value(first, rest.drop_last());
        let n = rest.last().1 as int;
        if rest.last().0 == TokenClass::Star {
            t * n
        } else {
            trunc_div(t, n)
        }
    }
}

/// The position in `rest` of the last `+` or `-`, or -1 where there is none.
pub open spec fn last_additive(rest: Seq<(TokenClass, i64)>) -> int
    decreases rest.len(),
{
    if rest.len() == 0 {
        -1
    } else if is_additive(rest.last().0) {
        rest.len() - 1
    } else {
        last_additive(rest.drop_last())
    }
}

pub proof fn lemma_last_additive_bounds(rest: Seq<(TokenClass, i64)>)
    ensures
        -1 <= last_additive(rest) < rest.len(),
        last_additive(rest) >= 0 ==> is_additive(rest[last_additive(rest)].0),
        forall|i: int|
            last_additive(rest) < i < rest.len() ==> !is_additive(#[trigger] rest[i].0),
    decreases rest.len(),
{
    if rest.len() > 0 && !is_additive(rest.last().0) {
        lemma_last_additive_bounds(rest.drop_last());
        assert forall|i: int| last_additive(rest) < i < rest.len() implies !is_additive(
            #[trigger] rest[i].0,
        ) by {
            if i < rest.len() - 1 {
                assert(rest[i] == rest.drop_last()[i]);
            }
        }
    }
}

/// The value of `first op1 n1 op2 n2 ...` by the grammar
/// `expr := expr (+|-) term | term`: the expression splits at its last `+`
/// or `-`, and a part without either is a product.
pub open spec fn expr_value(first: int, rest: Seq<(TokenClass, i64)>) -> int
    decreases rest.len(),
{
    let p = last_additive(rest);
    if p < 0 {
        term_value(first, rest)
    } else {
        proof {
            lemma_last_additive_bounds(rest);
        }
        let left = expr_value(first, rest.take(p));
        let t = term_value(rest[p].1 as int, rest.skip(p + 1));
        if rest[p].0 == TokenClass::Plus {
            left + t
        } else {
            left - t
        }
    }
}

/// The sum of `s` in unbounded integers.
pub open spec fn sum_int(s: Seq<i32>) -> int
    decreases s.len(),
{
    if s.len() == 0 {
        0
    } else {
        sum_int(s.drop_last()) + s.last()
    }
}

/// The terms of `first op1 n1 ...` before its last `+` or `-`, valued.
spec fn done_terms(first: int, rest: Seq<(TokenClass, i64)>) -> int {
    let p = last_additive(rest);
    if p < 0 {
        0
    } else {
        expr_value(first, rest.take(p))
    }
}

/// The last term of `first op1 n1 ...` as far as it goes, with the sign of
/// the `+` or `-` before it.
pub open spec fn current_term(first: int, rest: Seq<(TokenClass, i64)>) -> int {
    let p = last_additive(rest);
    if p < 0 {
        term_value(first, rest)
    } else {
        let t = term_value(rest[p].1 as int, rest.skip(p + 1));
        if rest[p].0 == TokenClass::Minus {
            -t
        } else {
            t
        }
    }
}

proof fn lemma_expr_value_split(first: int, rest: Seq<(TokenClass, i64)>)
    ensures
        expr_value(first, rest) == done_terms(first, rest) + current_term(first, rest),
{
    lemma_last_additive_bounds(rest);
}

proof fn lemma_trunc_div_neg(x: int, d: int)
    requires
        d != 0,
    ensures
        trunc_div(-x, d) == -trunc_div(x, d),
{
}

proof fn lemma_sum_stack_int(s: Seq<i32>)
    ensures
        sum_stack(s) matches Some(v) ==> v == sum_int(s),
    decreases s.len(),
{
    if s.len() > 0 {
        lemma_sum_stack_int(s.drop_last());
    }
}

pub open spec fn fits_i32(x: int) -> bool {
    i32::MIN <= x <= i32::MAX
}

/// Every number of `first op1 n1 ...` is an `i32`.
pub open spec fn numbers_fit(first: int, rest: Seq<(TokenClass, i64)>) -> bool {
    fits_i32(first) && forall|i: int| 0 <= i < rest.len() ==> fits_i32(#[trigger] rest[i].1 as int)
}

/// Every term, at each factor it takes in and with its sign, stays an `i32`.
pub open spec fn terms_fit(first: int, rest: Seq<(TokenClass, i64)>) -> bool {
    forall|i: int| 0 <= i <= rest.len() ==> fits_i32(#[trigger] current_term(first, rest.take(i)))
}

/// No `/` is followed by 0.
pub open spec fn divisors_nonzero(rest: Seq<(TokenClass, i64)>) -> bool {
    forall|i: int| 0 <= i < rest.len() && (#[trigger] rest[i]).0 == TokenClass::Slash ==> rest[i].1 != 0
}

/// The sums of the terms before each `+` or `-` stay `i32`s.
pub open spec fn partial_sums_fit(first: int, rest: Seq<(TokenClass, i64)>) -> bool {
    forall|i: int|
        0 <= i < rest.len() && is_additive(rest[i].0) ==> fits_i32(
            #[trigger] expr_value(first, rest.take(i)),
        )
}

/// `first op1 n1 ...` can be evaluated in `i32` arithmetic: no number,
/// term or partial sum leaves `i32`, and nothing is divided by zero.
pub open spec fn evaluates(first: int, rest: Seq<(TokenClass, i64)>) -> bool {
    &&& numbers_fit(first, rest)
    &&& terms_fit(first, rest)
    &&& divisors_nonzero(rest)
    &&& partial_sums_fit(first, rest)
    &&& fits_i32(expr_value(first, rest))
}

/// How each condition of `evaluates` grows by one pair `(op, n)`.
proof fn lemma_conditions_step(first: int, rest: Seq<(TokenClass, i64)>)
    requires
        rest.len() > 0,
    ensures
        numbers_fit(first, rest) <==> numbers_fit(first, rest.drop_last()) && fits_i32(
            rest.last().1 as int,
        ),
        terms_fit(first, rest) <==> terms_fit(first, rest.drop_last()) && fits_i32(
            current_term(first, rest),
        ),
        divisors_nonzero(rest) <==> divisors_nonzero(rest.drop_last()) && (rest.last().0
            == TokenClass::Slash ==> rest.last().1 != 0),
        partial_sums_fit(first, rest) <==> partial_sums_fit(first, rest.drop_last()) && (
        is_additive(rest.last().0) ==> fits_i32(expr_value(first, rest.drop_last()))),
{
    let r0 = rest.drop_last();
    let m = r0.len() as int;
    assert forall|i: int| 0 <= i <= m implies #[trigger] rest.take(i) == r0.take(i) by {
        assert(rest.take(i) =~= r0.take(i));
    }
    assert(rest.take(m + 1) =~= rest);
    assert(rest.take(m) == r0.take(m));
    assert(r0.take(m) =~= r0);
    assert(rest[m] == rest.last());
    assert forall|i: int| 0 <= i < m implies #[trigger] rest[i] == r0[i] by {}
    if numbers_fit(first, rest) {
        assert forall|i: int| 0 <= i < r0.len() implies fits_i32(#[trigger] r0[i].1 as int) by {
            assert(rest[i] == r0[i]);
        }
    }
    if numbers_fit(first, r0) && fits_i32(rest.last().1 as int) {
        assert forall|i: int| 0 <= i < rest.len() implies fits_i32(#[trigger] rest[i].1 as int) by {
            if i < m {
                assert(rest[i] == r0[i]);
            }
        }
    }
    if terms_fit(first, rest) {
        assert forall|i: int| 0 <= i <= r0.len() implies fits_i32(
            #[trigger] current_term(first, r0.take(i)),
        ) by {
            assert(fits_i32(current_term(first, rest.take(i))));
        }
        assert(fits_i32(current_term(first, rest.take(m + 1))));
    }
    if terms_fit(first, r0) && fits_i32(current_term(first, rest)) {
        assert forall|i: int| 0 <= i <= rest.len() implies fits_i32(
            #[trigger] current_term(first, rest.take(i)),
        ) by {
            if i <= m {
                assert(fits_i32(current_term(first, r0.take(i))));
            }
        }
    }
    if divisors_nonzero(rest) {
        assert forall|i: int|
            0 <= i < r0.len() && (#[trigger] r0[i]).0 == TokenClass::Slash implies r0[i].1 != 0 by {
            assert(rest[i] == r0[i]);
        }
        assert(rest[m] == rest.last());
    }
    if divisors_nonzero(r0) && (rest.last().0 == TokenClass::Slash ==> rest.last().1 != 0) {
        assert forall|i: int|
            0 <= i < rest.len() && (#[trigger] rest[i]).0 == TokenClass::Slash implies rest[i].1
            != 0 by {
            if i < m {
                assert(rest[i] == r0[i]);
            }
        }
    }
    if partial_sums_fit(first, rest) {
        assert forall|i: int| 0 <= i < r0.len() && is_additive(r0[i].0) implies fits_i32(
            #[trigger] expr_value(first, r0.take(i)),
        ) by {
            assert(rest[i] == r0[i]);
            assert(fits_i32(expr_value(first, rest.take(i))));
        }
        if is_additive(rest.last().0) {
            assert(fits_i32(expr_value(first, rest.take(m))));
        }
    }
    if partial_sums_fit(first, r0) && (is_additive(rest.last().0) ==> fits_i32(
        expr_value(first, r0),
    )) {
        assert forall|i: int| 0 <= i < rest.len() && is_additive(rest[i].0) implies fits_i32(
            #[trigger] expr_value(first, rest.take(i)),
        ) by {
            if i < m {
                assert(rest[i] == r0[i]);
                assert(fits_i32(expr_value(first, r0.take(i))));
            }
        }
    }
}

/// While the items of `first op1 n1 ...` run, the stack holds one entry per
/// term: the entries before the last add up to the value of the terms
/// before the last `+` or `-`, and the last entry is the signed last term.
/// The run completes exactly where numbers and terms stay `i32`s and no
/// divisor is zero; the entries before the last add up in `i32` exactly
/// where the partial sums do.
proof fn lemma_run_expr(first: i64, rest: Seq<(TokenClass, i64)>)
    requires
        forall|i: int| 0 <= i < rest.len() ==> is_arith(#[trigger] rest[i].0),
    ensures
        run_items(expr_items(first, rest)) is Some <==> (numbers_fit(first as int, rest)
            && terms_fit(first as int, rest) && divisors_nonzero(rest)),
        run_items(expr_items(first, rest)) matches Some(st) ==> {
            &&& st.stack.len() >= 1
            &&& sum_int(st.stack.drop_last()) == done_terms(first as int, rest)
            &&& st.stack.last() as int == current_term(first as int, rest)
            &&& (sum_stack(st.stack.drop_last()) is Some <==> partial_sums_fit(
                first as int,
                rest,
            ))
        },
    decreases rest.len(),
{
    lemma_last_additive_bounds(rest);
    let fi = first as int;
    if rest.len() == 0 {
        let items = expr_items(first, rest);
        assert(items.drop_last() =~= seq![]);
        assert(run_items(items.drop_last()) == Some(
            RunState { last: TokenClass::Plus, stack: seq![] },
        ));
        assert(rest.take(0) =~= rest);
        assert(current_term(fi, rest.take(0)) == fi);
        if let Some(st) = run_items(items) {
            assert(st.stack =~= seq![first as i32]);
            assert(st.stack.drop_last() =~= seq![]);
        }
    } else {
        let r0 = rest.drop_last();
        let op = rest.last().0;
        let n = rest.last().1;
        assert forall|i: int| 0 <= i < r0.len() implies is_arith(#[trigger] r0[i].0) by {
            assert(r0[i] == rest[i]);
        }
        lemma_run_expr(first, r0);
        lemma_last_additive_bounds(r0);
        lemma_expr_value_split(fi, r0);
        lemma_conditions_step(fi, rest);
        let base = expr_items(first, r0);
        let mid = base.push(Item::Op(op));
        let items = expr_items(first, rest);
        assert(items.drop_last() =~= mid);
        assert(mid.drop_last() =~= base);
        assert(is_arith(rest[rest.len() - 1].0));
        assert(run_items(mid) == match run_items(base) {
            Some(st) => run_step(st, Item::Op(op)),
            None => None,
        });
        assert(run_items(items) == match run_items(mid) {
            Some(st) => run_step(st, Item::Num(n)),
            None => None,
        });
        let p = last_additive(rest);
        if is_additive(op) {
            assert(p == r0.len());
            assert(rest.take(p) =~= r0);
            assert(rest.skip(p + 1) =~= Seq::<(TokenClass, i64)>::empty());
            assert(current_term(fi, rest) == if op == TokenClass::Minus {
                -(n as int)
            } else {
                n as int
            });
        } else {
            let p0 = last_additive(r0);
            assert(p == p0);
            if p >= 0 {
                assert(rest.take(p) =~= r0.take(p));
                assert(rest[p] == r0[p]);
                let tail0 = r0.skip(p + 1);
                let tail = rest.skip(p + 1);
                assert(tail.drop_last() =~= tail0);
                assert(tail.last() == rest.last());
                let t = term_value(r0[p].1 as int, tail0);
                if op == TokenClass::Star {
                    assert((-t) * (n as int) == -(t * (n as int))) by (nonlinear_arith);
                } else {
                    if n != 0 {
                        lemma_trunc_div_neg(t, n as int);
                    }
                }
            }
        }
        if let Some(st) = run_items(base) {
            let stack = st.stack;
            lemma_sum_stack_int(stack.drop_last());
            assert(sum_int(stack) == sum_int(stack.drop_last()) + stack.last());
            if let Some(st2) = run_items(items) {
                if is_additive(op) {
                    assert(st2.stack.drop_last() =~= stack);
                } else {
                    assert(st2.stack.drop_last() =~= stack.drop_last());
                }
            }
        }
    }
}

/// Law: the calculator gives `+ - * /` their usual precedence. The items of
/// an expression `first op1 n1 op2 n2 ...` (each `op_i` one of `+ - * /`)
/// evaluate exactly where the expression can be evaluated in `i32`
/// arithmetic without a division by zero, and then to the value that the
/// grammar `expr := expr (+|-) term | term`, `term := term (*|/) number |
/// number` gives, with `/` rounding toward zero.
pub proof fn law_items_precedence(first: i64, rest: Seq<(TokenClass, i64)>)
    requires
        forall|i: int| 0 <= i < rest.len() ==> is_arith(#[trigger] rest[i].0),
    ensures
        (run_items(expr_items(first, rest)) matches Some(st) && sum_stack(st.stack) is Some)
            <==> evaluates(first as int, rest),
        run_items(expr_items(first, rest)) matches Some(st) ==> (sum_stack(st.stack) matches Some(
            v,
        ) ==> v == expr_value(first as int, rest)),
{
    lemma_run_expr(first, rest);
    lemma_expr_value_split(first as int, rest);
    if let Some(st) = run_items(expr_items(first, rest)) {
        let s = st.stack;
        lemma_sum_stack_int(s);
        lemma_sum_stack_int(s.drop_last());
        assert(sum_int(s) == sum_int(s.drop_last()) + s.last());
    }
}

/// The items of `first op1 n1 ...`, preceded by a `-` where `negated`.
pub open spec fn signed_items(negated: bool, first: i64, rest: Seq<(TokenClass, i64)>) -> Seq<Item> {
    if negated {
        seq![Item::Op(TokenClass::Minus)] + expr_items(first, rest)
    } else {
        expr_items(first, rest)
    }
}

/// A leading `-` runs as the first number negated.
proof fn lemma_run_negated(first: i64, rest: Seq<(TokenClass, i64)>)
    requires
        fits_i32(first as int),
    ensures
        (run_items(signed_items(true, first, rest)) is Some) == (run_items(
            expr_items((-first) as i64, rest),
        ) is Some),
        run_items(signed_items(true, first, rest)) matches Some(st) ==> st.stack == run_items(
            expr_items((-first) as i64, rest),
        ).unwrap().stack,
    decreases rest.len(),
{
    let neg = signed_items(true, first, rest);
    let pos = expr_items((-first) as i64, rest);
    if rest.len() == 0 {
        assert(neg =~= seq![Item::Op(TokenClass::Minus), Item::Num(first)]);
        assert(neg.drop_last() =~= seq![Item::Op(TokenClass::Minus)]);
        assert(neg.drop_last().drop_last() =~= Seq::<Item>::empty());
        assert(pos.drop_last() =~= Seq::<Item>::empty());
        assert(run_items(neg.drop_last().drop_last()) == Some(
            RunState { last: TokenClass::Plus, stack: seq![] },
        ));
        assert(run_items(pos.drop_last()) == Some(
            RunState { last: TokenClass::Plus, stack: seq![] },
        ));
        assert(run_items(neg.drop_last()) == Some(
            RunState { last: TokenClass::Minus, stack: Seq::<i32>::empty() },
        ));
    } else {
        let r0 = rest.drop_last();
        let op = rest.last().0;
        let n = rest.last().1;
        lemma_run_negated(first, r0);
        let nb = signed_items(true, first, r0);
        let pb = expr_items((-first) as i64, r0);
        assert(neg.drop_last() =~= nb.push(Item::Op(op)));
        assert(nb.push(Item::Op(op)).drop_last() =~= nb);
        assert(pos.drop_last() =~= pb.push(Item::Op(op)));
        assert(pb.push(Item::Op(op)).drop_last() =~= pb);
        assert(run_items(nb.push(Item::Op(op))) == match run_items(nb) {
            Some(st) => run_step(st, Item::Op(op)),
            None => None,
        });
        assert(run_items(pb.push(Item::Op(op))) == match run_items(pb) {
            Some(st) => run_step(st, Item::Op(op)),
            None => None,
        });
        assert(run_items(nb.push(Item::Op(op))) == run_items(pb.push(Item::Op(op))));
    }
}

proof fn lemma_scan_bounds(src: Seq<u8>, toks: Seq<LexToken>, lo: int, hi: int)
    requires
        i64::MIN <= lo <= hi <= i64::MAX,
    ensures
        scan(src, toks, lo, hi) matches Some((items, _)) ==> forall|k: int|
            0 <= k < items.len() ==> (#[trigger] items[k] matches Item::Num(v) ==> lo <= v <= hi),
    decreases toks.len(),
{
    if toks.len() > 0 {
        lemma_scan_bounds(src, toks.drop_last(), lo, hi);
        if let Some((items, _)) = scan(src, toks, lo, hi) {
            let (items0, _) = scan(src, toks.drop_last(), lo, hi).unwrap();
            assert forall|k: int| 0 <= k < items.len() implies (#[trigger] items[k] matches Item::Num(
                v,
            ) ==> lo <= v <= hi) by {
                if k < items0.len() {
                    assert(items[k] == items0[k]);
                } else {
                    assert(items.len() == items0.len() + 1);
                }
            }
        }
    }
}

proof fn lemma_expr_items_first(first: i64, rest: Seq<(TokenClass, i64)>)
    ensures
        expr_items(first, rest).len() == 2 * rest.len() + 1,
        expr_items(first, rest)[0] == Item::Num(first),
    decreases rest.len(),
{
    if rest.len() > 0 {
        lemma_expr_items_first(first, rest.drop_last());
    }
}

/// A signed expression `first op1 n1 ...` (with `-` in front where
/// `negated`) evaluates exactly where it can be evaluated in `i32`
/// arithmetic, and then to its grammar value.
proof fn lemma_signed_eval(negated: bool, first: i64, rest: Seq<(TokenClass, i64)>)
    requires
        forall|i: int| 0 <= i < rest.len() ==> is_arith(#[trigger] rest[i].0),
        negated ==> fits_i32(first as int),
    ensures
        ({
            let f = if negated {
                -first
            } else {
                first as int
            };
            &&& eval_items(signed_items(negated, first, rest)) is Some <==> evaluates(f, rest)
            &&& eval_items(signed_items(negated, first, rest)) matches Some(v) ==> v == expr_value(
                f,
                rest,
            )
        }),
{
    if negated {
        lemma_run_negated(first, rest);
        law_items_precedence((-first) as i64, rest);
    } else {
        law_items_precedence(first, rest);
    }
}

/// The first number of a scanned signed expression is an `i32`.
proof fn lemma_scanned_first(
    src: Seq<u8>,
    toks: Seq<LexToken>,
    negated: bool,
    first: i64,
    rest: Seq<(TokenClass, i64)>,
)
    requires
        scan(src, toks, i32::MIN as int, i32::MAX as int) matches Some((items, _)) && items
            == signed_items(negated, first, rest),
    ensures
        fits_i32(first as int),
{
    lemma_scan_bounds(src, toks, i32::MIN as int, i32::MAX as int);
    lemma_expr_items_first(first, rest);
    let items = signed_items(negated, first, rest);
    if negated {
        assert(items[1] == Item::Num(first));
    } else {
        assert(items[0] == Item::Num(first));
    }
}

/// Law: an expression whose tokens read as `first op1 n1 op2 n2 ...`,
/// or as `- first op1 n1 ...` where `negated` (each `op_i` one of
/// `+ - * /`, whitespace anywhere), evaluates exactly where it can be
/// evaluated in `i32` arithmetic without a division by zero, and then to its
/// value with the usual precedence, the first number negated after a
/// leading `-`: `1 + 2 * 3` is 7 and `-7 / 2 + 1` is -2.
pub proof fn law_calculator_precedence(
    src: Seq<u8>,
    toks: Seq<LexToken>,
    negated: bool,
    first: i64,
    rest: Seq<(TokenClass, i64)>,
)
    requires
        forall|i: int| 0 <= i < rest.len() ==> is_arith(#[trigger] rest[i].0),
        scan(src, toks, i32::MIN as int, i32::MAX as int) matches Some((items, _)) && items
            == signed_items(negated, first, rest),
    ensures
        ({
            let f = if negated {
                -first
            } else {
                first as int
            };
            &&& eval_spec(src, toks) is Some <==> evaluates(f, rest)
            &&& eval_spec(src, toks) matches Some(v) ==> v == expr_value(f, rest)
        }),
{
    lemma_scanned_first(src, toks, negated, first, rest);
    lemma_signed_eval(negated, first, rest);
}

/// Law: a division by a literal zero is refused. Wherever the tokens of an
/// expression hold `/` followed (whitespace aside) by the number 0, the
/// evaluation does not complete, whatever stands around them.
pub proof fn law_division_by_zero_refused(src: Seq<u8>, toks: Seq<LexToken>, k: int)
    requires
        scan(src, toks, i32::MIN as int, i32::MAX as int) matches Some((items, _)) && 0 <= k
            && k + 1 < items.len() && items[k] == Item::Op(TokenClass::Slash) && items[k + 1]
            == Item::Num(0),
    ensures
        eval_spec(src, toks) is None,
{
    let items = scan(src, toks, i32::MIN as int, i32::MAX as int).unwrap().0;
    let pre = items.take(k + 2);
    assert(pre.drop_last() =~= items.take(k + 1));
    assert(items.take(k + 1).drop_last() =~= items.take(k));
    assert(pre.last() == Item::Num(0));
    assert(items.take(k + 1).last() == Item::Op(TokenClass::Slash));
    assert(run_items(items.take(k + 1)) == match run_items(items.take(k)) {
        Some(st) => run_step(st, Item::Op(TokenClass::Slash)),
        None => None,
    });
    assert(run_items(pre) is None);
    lemma_run_prefix_none(items, k + 2);
}

proof fn lemma_last_additive_concat(x: Seq<(TokenClass, i64)>, y: Seq<(TokenClass, i64)>)
    ensures
        last_additive(x + y) == if last_additive(y) >= 0 {
            x.len() + last_additive(y)
        } else {
            last_additive(x)
        },
    decreases y.len(),
{
    if y.len() == 0 {
        assert(x + y =~= x);
    } else {
        assert((x + y).drop_last() =~= x + y.drop_last());
        lemma_last_additive_concat(x, y.drop_last());
    }
}

/// The grammar value of `a + b` is the value of `a` plus the value of `b`.
proof fn lemma_join_value(fa: int, ra: Seq<(TokenClass, i64)>, fb: i64, rb: Seq<(TokenClass, i64)>)
    ensures
        expr_value(fa, ra + seq![(TokenClass::Plus, fb)] + rb) == expr_value(fa, ra)
            + expr_value(fb as int, rb),
    decreases rb.len(),
{
    let head = ra + seq![(TokenClass::Plus, fb)];
    let r = head + rb;
    assert(ra + seq![(TokenClass::Plus, fb)] + rb == r);
    lemma_last_additive_concat(head, rb);
    lemma_last_additive_bounds(rb);
    assert(head.drop_last() =~= ra);
    assert(last_additive(head) == ra.len());
    let m = ra.len() as int;
    let q = last_additive(rb);
    if q < 0 {
        assert(r.take(m) =~= ra);
        assert(r.skip(m + 1) =~= rb);
        assert(r[m] == (TokenClass::Plus, fb));
    } else {
        let pp = m + 1 + q;
        assert(r.take(pp) =~= head + rb.take(q));
        assert(r.skip(pp + 1) =~= rb.skip(q + 1));
        assert(r[pp] == rb[q]);
        lemma_join_value(fa, ra, fb, rb.take(q));
        assert(ra + seq![(TokenClass::Plus, fb)] + rb.take(q) == head + rb.take(q));
    }
}

proof fn lemma_join_items(
    fa: i64,
    ra: Seq<(TokenClass, i64)>,
    op: TokenClass,
    fb: i64,
    rb: Seq<(TokenClass, i64)>,
)
    ensures
        expr_items(fa, ra + seq![(op, fb)] + rb) == expr_items(fa, ra) + seq![Item::Op(op)]
            + expr_items(fb, rb),
    decreases rb.len(),
{
    let r = ra + seq![(op, fb)] + rb;
    if rb.len() == 0 {
        assert(r.drop_last() =~= ra);
        assert(r =~= ra.push((op, fb)));
        assert(expr_items(fa, r) =~= expr_items(fa, ra) + seq![Item::Op(op)] + expr_items(fb, rb));
    } else {
        let r0 = ra + seq![(op, fb)] + rb.drop_last();
        assert(r.drop_last() =~= r0);
        lemma_join_items(fa, ra, op, fb, rb.drop_last());
        assert(expr_items(fa, r) =~= expr_items(fa, ra) + seq![Item::Op(op)] + expr_items(fb, rb));
    }
}

proof fn lemma_signed_join_items(
    negated: bool,
    fa: i64,
    ra: Seq<(TokenClass, i64)>,
    op: TokenClass,
    fb: i64,
    rb: Seq<(TokenClass, i64)>,
)
    ensures
        signed_items(negated, fa, ra + seq![(op, fb)] + rb) == signed_items(negated, fa, ra)
            + seq![Item::Op(op)] + expr_items(fb, rb),
{
    lemma_join_items(fa, ra, op, fb, rb);
    if negated {
        assert(seq![Item::Op(TokenClass::Minus)] + (expr_items(fa, ra) + seq![Item::Op(op)]
            + expr_items(fb, rb)) =~= seq![Item::Op(TokenClass::Minus)] + expr_items(fa, ra)
            + seq![Item::Op(op)] + expr_items(fb, rb));
    }
}

/// Two operators in a row act as the second alone.
proof fn lemma_run_ops_collapse(x: Seq<Item>, c1: TokenClass, c2: TokenClass, y: Seq<Item>)
    ensures
        run_items(x + seq![Item::Op(c1), Item::Op(c2)] + y) == run_items(x + seq![Item::Op(c2)]
            + y),
    decreases y.len(),
{
    let l = x + seq![Item::Op(c1), Item::Op(c2)] + y;
    let r = x + seq![Item::Op(c2)] + y;
    if y.len() == 0 {
        assert(l.drop_last() =~= x.push(Item::Op(c1)));
        assert(x.push(Item::Op(c1)).drop_last() =~= x);
        assert(r.drop_last() =~= x);
        assert(run_items(x.push(Item::Op(c1))) == match run_items(x) {
            Some(st) => run_step(st, Item::Op(c1)),
            None => None,
        });
    } else {
        assert(l.drop_last() =~= x + seq![Item::Op(c1), Item::Op(c2)] + y.drop_last());
        assert(r.drop_last() =~= x + seq![Item::Op(c2)] + y.drop_last());
        lemma_run_ops_collapse(x, c1, c2, y.drop_last());
    }
}

/// A product term changes sign with its first factor, as long as it
/// divides by nothing that is zero.
proof fn lemma_term_value_neg(f: int, r: Seq<(TokenClass, i64)>)
    requires
        forall|i: int| 0 <= i < r.len() && (#[trigger] r[i]).0 != TokenClass::Star ==> r[i].1 != 0,
    ensures
        term_value(-f, r) == -term_value(f, r),
    decreases r.len(),
{
    if r.len() > 0 {
        let r0 = r.drop_last();
        assert forall|i: int| 0 <= i < r0.len() && (#[trigger] r0[i]).0 != TokenClass::Star implies r0[i].1
            != 0 by {
            assert(r0[i] == r[i]);
        }
        lemma_term_value_neg(f, r0);
        let t = term_value(f, r0);
        let n = r.last().1 as int;
        assert(r.last() == r[r.len() - 1]);
        if r.last().0 == TokenClass::Star {
            assert((-t) * n == -(t * n)) by (nonlinear_arith);
        } else {
            lemma_trunc_div_neg(t, n);
        }
    }
}

/// The grammar value of `a + -b` is the value of `a` plus the value of `-b`.
proof fn lemma_join_value_minus(
    fa: int,
    ra: Seq<(TokenClass, i64)>,
    fb: i64,
    rb: Seq<(TokenClass, i64)>,
)
    requires
        forall|i: int| 0 <= i < rb.len() ==> is_arith(#[trigger] rb[i].0),
        divisors_nonzero(rb),
    ensures
        expr_value(fa, ra + seq![(TokenClass::Minus, fb)] + rb) == expr_value(fa, ra)
            + expr_value(-fb, rb),
    decreases rb.len(),
{
    let head = ra + seq![(TokenClass::Minus, fb)];
    let r = head + rb;
    assert(ra + seq![(TokenClass::Minus, fb)] + rb == r);
    lemma_last_additive_concat(head, rb);
    lemma_last_additive_bounds(rb);
    assert(head.drop_last() =~= ra);
    assert(last_additive(head) == ra.len());
    let m = ra.len() as int;
    let q = last_additive(rb);
    if q < 0 {
        assert(r.take(m) =~= ra);
        assert(r.skip(m + 1) =~= rb);
        assert(r[m] == (TokenClass::Minus, fb));
        assert forall|i: int| 0 <= i < rb.len() && (#[trigger] rb[i]).0 != TokenClass::Star implies rb[i].1
            != 0 by {
            assert(!is_additive(rb[i].0));
        }
        lemma_term_value_neg(fb as int, rb);
    } else {
        let pp = m + 1 + q;
        assert(r.take(pp) =~= head + rb.take(q));
        assert(r.skip(pp + 1) =~= rb.skip(q + 1));
        assert(r[pp] == rb[q]);
        let rq = rb.take(q);
        assert forall|i: int| 0 <= i < rq.len() implies is_arith(#[trigger] rq[i].0) by {
            assert(rq[i] == rb[i]);
        }
        assert forall|i: int| 0 <= i < rq.len() && (#[trigger] rq[i]).0 == TokenClass::Slash implies rq[i].1
            != 0 by {
            assert(rq[i] == rb[i]);
        }
        lemma_join_value_minus(fa, ra, fb, rq);
        assert(ra + seq![(TokenClass::Minus, fb)] + rq == head + rq);
    }
}

/// Law: joining two expressions with `+` adds their values. Where the
/// tokens of one expression read as `a` and those of another as `b` (each
/// `first op1 n1 ...`, with `-` in front where `negated_a`, `negated_b`),
/// and the tokens of a third read as the items of `a`, a `+`, and the items
/// of `b`, then where all three evaluate the value of the third is the sum
/// of the other two: `1 * 2 + 3 - 4` is `1 * 2` plus `3 - 4`, and `1 + -2`
/// is 1 plus -2.
pub proof fn law_calculator_join(
    src: Seq<u8>,
    toks: Seq<LexToken>,
    src_a: Seq<u8>,
    toks_a: Seq<LexToken>,
    src_b: Seq<u8>,
    toks_b: Seq<LexToken>,
    negated_a: bool,
    first_a: i64,
    rest_a: Seq<(TokenClass, i64)>,
    negated_b: bool,
    first_b: i64,
    rest_b: Seq<(TokenClass, i64)>,
)
    requires
        forall|i: int| 0 <= i < rest_a.len() ==> is_arith(#[trigger] rest_a[i].0),
        forall|i: int| 0 <= i < rest_b.len() ==> is_arith(#[trigger] rest_b[i].0),
        scan(src_a, toks_a, i32::MIN as int, i32::MAX as int) matches Some((items, _)) && items
            == signed_items(negated_a, first_a, rest_a),
        scan(src_b, toks_b, i32::MIN as int, i32::MAX as int) matches Some((items, _)) && items
            == signed_items(negated_b, first_b, rest_b),
        scan(src, toks, i32::MIN as int, i32::MAX as int) matches Some((items, _)) && items
            == signed_items(negated_a, first_a, rest_a) + seq![Item::Op(TokenClass::Plus)]
            + signed_items(negated_b, first_b, rest_b),
    ensures
        eval_spec(src, toks) matches Some(v) ==> (eval_spec(src_a, toks_a) matches Some(va) ==> (
        eval_spec(src_b, toks_b) matches Some(vb) ==> v == va + vb)),
{
    lemma_scanned_first(src_a, toks_a, negated_a, first_a, rest_a);
    lemma_scanned_first(src_b, toks_b, negated_b, first_b, rest_b);
    lemma_signed_eval(negated_a, first_a, rest_a);
    lemma_signed_eval(negated_b, first_b, rest_b);
    let fa = if negated_a {
        -first_a
    } else {
        first_a as int
    };
    let a_items = signed_items(negated_a, first_a, rest_a);
    let e_b = expr_items(first_b, rest_b);
    let op = if negated_b {
        TokenClass::Minus
    } else {
        TokenClass::Plus
    };
    let joined = rest_a + seq![(op, first_b)] + rest_b;
    assert forall|i: int| 0 <= i < joined.len() implies is_arith(#[trigger] joined[i].0) by {
        if i < rest_a.len() {
            assert(joined[i] == rest_a[i]);
        } else if i > rest_a.len() {
            assert(joined[i] == rest_b[i - rest_a.len() - 1]);
        }
    }
    lemma_signed_join_items(negated_a, first_a, rest_a, op, first_b, rest_b);
    lemma_signed_eval(negated_a, first_a, joined);
    let items = a_items + seq![Item::Op(TokenClass::Plus)] + signed_items(negated_b, first_b, rest_b);
    if negated_b {
        assert(items =~= a_items + seq![Item::Op(TokenClass::Plus), Item::Op(TokenClass::Minus)]
            + e_b);
        lemma_run_ops_collapse(a_items, TokenClass::Plus, TokenClass::Minus, e_b);
        if eval_spec(src_b, toks_b) is Some {
            lemma_join_value_minus(fa, rest_a, first_b, rest_b);
        }
    } else {
        lemma_join_value(fa, rest_a, first_b, rest_b);
    }
}

} // verus!
