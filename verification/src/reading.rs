//! Laws on how the calculator reads its input: every token is classified,
//! every token is scanned in turn, literals are read positionally in
//! base 10, and the arithmetic tokens are kept one by one.

use crate::number::{all_digits, digits_value, is_digit, lemma_digits_value_nonneg, spec_parse_int};
use crate::token::{classified, spec_classify, LexBase, LexKind, LexToken, RawToken, TokenClass};
use crate::toy_calculator::{
    eval_items, my_tokens, run_items, run_step, scan, sum_stack, BinaryOperand, Item, MyToken,
    RunState,
};
use crate::whitespace::sum_lens;
use vstd::prelude::*;
use vstd::utf8::is_char_boundary;

verus! {

/// Law: classification keeps every token, in order, with its length; only
/// the kind becomes a class.
pub proof fn law_classified_keeps_tokens(raw: Seq<RawToken>)
    ensures
        classified(raw).len() == raw.len(),
        forall|i: int|
            0 <= i < raw.len() ==> #[trigger] classified(raw)[i] == (LexToken {
                class: spec_classify(raw[i].kind),
                len: raw[i].len,
            }),
        sum_lens(classified(raw)) == sum_lens_raw(raw),
    decreases raw.len(),
{
    if raw.len() > 0 {
        law_classified_keeps_tokens(raw.drop_last());
        assert(classified(raw).drop_last() =~= classified(raw.drop_last()));
    }
}

/// Law: a token is a number exactly when it is an integer literal in base
/// 10; whitespace and `+ - * /` are themselves; everything else, integer
/// literals in other bases included, is `Other`.
pub proof fn law_classify(k: LexKind)
    ensures
        (spec_classify(k) == TokenClass::DecimalInt) <==> (k matches LexKind::IntLiteral {
            base: LexBase::Decimal,
            ..
        }),
        (spec_classify(k) == TokenClass::Whitespace) <==> k == LexKind::Whitespace,
        (spec_classify(k) == TokenClass::Plus) <==> k == LexKind::Plus,
        (spec_classify(k) == TokenClass::Minus) <==> k == LexKind::Minus,
        (spec_classify(k) == TokenClass::Star) <==> k == LexKind::Star,
        (spec_classify(k) == TokenClass::Slash) <==> k == LexKind::Slash,
        (spec_classify(k) == TokenClass::Other) <==> (k == LexKind::Other || k matches LexKind::IntLiteral {
            base: LexBase::Binary | LexBase::Octal | LexBase::Hexadecimal,
            ..
        }),
{
}

/// The total byte length of the tokens `raw`.
pub open spec fn sum_lens_raw(raw: Seq<RawToken>) -> int
    decreases raw.len(),
{
    if raw.len() == 0 {
        0
    } else {
        sum_lens_raw(raw.drop_last()) + raw.last().len
    }
}

/// A decimal literal of `len` bytes at `off` in `src` lies on character
/// boundaries within `src` and its text reads as an integer in `lo..=hi`.
pub open spec fn literal_reads(src: Seq<u8>, off: int, len: int, lo: int, hi: int) -> bool {
    &&& off + len <= src.len()
    &&& is_char_boundary(src, off)
    &&& is_char_boundary(src, off + len)
    &&& spec_parse_int(src.subrange(off, off + len), lo, hi) is Some
}

/// Law: scanning one more token `t` after `toks` keeps what was read and
/// moves on by `t`'s length. Whitespace adds nothing; a decimal literal adds
/// exactly one number, the value of its text, and fails exactly where its
/// text does not read; any other token adds exactly one operator item, its
/// class. Scanning fails where the offset would pass `usize::MAX`.
pub proof fn law_scan_step(src: Seq<u8>, toks: Seq<LexToken>, t: LexToken, lo: int, hi: int)
    ensures
        scan(src, toks.push(t), lo, hi) == match scan(src, toks, lo, hi) {
            None => None,
            Some((items, off)) => {
                let end = off + t.len;
                if end > usize::MAX {
                    None
                } else if t.class == TokenClass::Whitespace {
                    Some((items, end))
                } else if t.class == TokenClass::DecimalInt {
                    if literal_reads(src, off, t.len as int, lo, hi) {
                        Some(
                            (
                                items.push(
                                    Item::Num(
                                        spec_parse_int(src.subrange(off, end), lo, hi).unwrap() as i64,
                                    ),
                                ),
                                end,
                            ),
                        )
                    } else {
                        None
                    }
                } else {
                    Some((items.push(Item::Op(t.class)), end))
                }
            },
        },
{
    assert(toks.push(t).drop_last() =~= toks);
}

/// Law: scanning reads every token. It succeeds exactly where the tokens'
/// total length is at most `usize::MAX` and every decimal literal reads at
/// its own place, whatever tokens come before it; and then the offset
/// reached is the total length of the tokens.
pub proof fn law_scan_complete(src: Seq<u8>, toks: Seq<LexToken>, lo: int, hi: int)
    ensures
        scan(src, toks, lo, hi) is Some <==> (sum_lens(toks) <= usize::MAX && forall|i: int|
            0 <= i < toks.len() && (#[trigger] toks[i]).class == TokenClass::DecimalInt
                ==> literal_reads(src, sum_lens(toks.take(i)), toks[i].len as int, lo, hi)),
        scan(src, toks, lo, hi) matches Some((_, off)) ==> off == sum_lens(toks),
    decreases toks.len(),
{
    if toks.len() == 0 {
    } else {
        let d = toks.drop_last();
        let t = toks.last();
        let m = d.len() as int;
        law_scan_complete(src, d, lo, hi);
        law_scan_step(src, d, t, lo, hi);
        assert(d.push(t) =~= toks);
        assert(toks.take(m) =~= d);
        assert(toks[m] == t);
        assert forall|i: int| 0 <= i < m implies #[trigger] toks[i] == d[i] && toks.take(i) == d.take(i) by {
            assert(toks.take(i) =~= d.take(i));
        }
        let lit_ok_toks = forall|i: int|
            0 <= i < toks.len() && (#[trigger] toks[i]).class == TokenClass::DecimalInt
                ==> literal_reads(src, sum_lens(toks.take(i)), toks[i].len as int, lo, hi);
        let lit_ok_d = forall|i: int|
            0 <= i < d.len() && (#[trigger] d[i]).class == TokenClass::DecimalInt
                ==> literal_reads(src, sum_lens(d.take(i)), d[i].len as int, lo, hi);
        if lit_ok_toks {
            assert forall|i: int|
                0 <= i < d.len() && (#[trigger] d[i]).class == TokenClass::DecimalInt implies literal_reads(
                src,
                sum_lens(d.take(i)),
                d[i].len as int,
                lo,
                hi,
            ) by {
                assert(toks[i] == d[i]);
            }
            if t.class == TokenClass::DecimalInt {
                assert(toks[m].class == TokenClass::DecimalInt);
            }
        }
        if lit_ok_d && (t.class == TokenClass::DecimalInt ==> literal_reads(
            src,
            sum_lens(d),
            t.len as int,
            lo,
            hi,
        )) {
            assert forall|i: int|
                0 <= i < toks.len() && (#[trigger] toks[i]).class == TokenClass::DecimalInt implies literal_reads(
                src,
                sum_lens(toks.take(i)),
                toks[i].len as int,
                lo,
                hi,
            ) by {
                if i < m {
                    assert(toks[i] == d[i]);
                }
            }
        }
    }
}

/// Law: the arithmetic tokens of two runs of items, one after the other,
/// are those of the first followed by those of the second.
pub proof fn law_my_tokens_concat(a: Seq<Item>, b: Seq<Item>)
    ensures
        my_tokens(a + b) == my_tokens(a) + my_tokens(b),
    decreases b.len(),
{
    if b.len() == 0 {
        assert(a + b =~= a);
        assert(my_tokens(a) + my_tokens(b) =~= my_tokens(a));
    } else {
        assert((a + b).drop_last() =~= a + b.drop_last());
        assert((a + b).last() == b.last());
        law_my_tokens_concat(a, b.drop_last());
        let x = b.last();
        assert(my_tokens(b) == match x {
            Item::Num(v) => my_tokens(b.drop_last()).push(MyToken::Num(v as u32)),
            Item::Op(TokenClass::Plus) => my_tokens(b.drop_last()).push(MyToken::BinaryOp(BinaryOperand::Add)),
            Item::Op(TokenClass::Minus) => my_tokens(b.drop_last()).push(MyToken::BinaryOp(BinaryOperand::Sub)),
            Item::Op(TokenClass::Star) => my_tokens(b.drop_last()).push(MyToken::BinaryOp(BinaryOperand::Mul)),
            Item::Op(TokenClass::Slash) => my_tokens(b.drop_last()).push(MyToken::BinaryOp(BinaryOperand::Div)),
            Item::Op(_) => my_tokens(b.drop_last()),
        });
        assert(my_tokens(a + b) =~= my_tokens(a) + my_tokens(b));
    }
}

/// Law: a single item gives its own arithmetic token: a number is kept as a
/// `u32`, the four operators become theirs, any other token none.
pub proof fn law_my_tokens_single(x: Item)
    ensures
        my_tokens(seq![x]) == match x {
            Item::Num(v) => seq![MyToken::Num(v as u32)],
            Item::Op(TokenClass::Plus) => seq![MyToken::BinaryOp(BinaryOperand::Add)],
            Item::Op(TokenClass::Minus) => seq![MyToken::BinaryOp(BinaryOperand::Sub)],
            Item::Op(TokenClass::Star) => seq![MyToken::BinaryOp(BinaryOperand::Mul)],
            Item::Op(TokenClass::Slash) => seq![MyToken::BinaryOp(BinaryOperand::Div)],
            Item::Op(_) => Seq::<MyToken>::empty(),
        },
{
    assert(seq![x].drop_last() =~= Seq::<Item>::empty());
    assert(seq![x].last() == x);
    assert(my_tokens(Seq::<Item>::empty()) =~= Seq::<MyToken>::empty());
    assert(my_tokens(seq![x]) =~= match x {
        Item::Num(v) => seq![MyToken::Num(v as u32)],
        Item::Op(TokenClass::Plus) => seq![MyToken::BinaryOp(BinaryOperand::Add)],
        Item::Op(TokenClass::Minus) => seq![MyToken::BinaryOp(BinaryOperand::Sub)],
        Item::Op(TokenClass::Star) => seq![MyToken::BinaryOp(BinaryOperand::Mul)],
        Item::Op(TokenClass::Slash) => seq![MyToken::BinaryOp(BinaryOperand::Div)],
        Item::Op(_) => Seq::<MyToken>::empty(),
    });
}

/// Law: appending `+ n` to any items adds `n` to their value: the result is
/// the old value plus `n` where both and the sum are `i32`s, and otherwise
/// the evaluation does not complete.
pub proof fn law_append_plus(items: Seq<Item>, n: i64)
    ensures
        eval_items(items.push(Item::Op(TokenClass::Plus)).push(Item::Num(n))) == match eval_items(
            items,
        ) {
            Some(v) => if i32::MIN <= n <= i32::MAX {
                v.checked_add(n as i32)
            } else {
                None
            },
            None => None,
        },
{
    let mid = items.push(Item::Op(TokenClass::Plus));
    let all = mid.push(Item::Num(n));
    assert(all.drop_last() =~= mid);
    assert(mid.drop_last() =~= items);
    assert(run_items(mid) == match run_items(items) {
        Some(st) => run_step(st, Item::Op(TokenClass::Plus)),
        None => None,
    });
    assert(run_items(all) == match run_items(mid) {
        Some(st) => run_step(st, Item::Num(n)),
        None => None,
    });
    if let Some(st) = run_items(items) {
        let s2 = st.stack.push(n as i32);
        assert(s2.drop_last() =~= st.stack);
        assert(s2.last() == n as i32);
    }
}

/// Law: a number after a token other than `+ - * /` (a parenthesis, an
/// identifier, a literal in another base, ...) is dropped: the value is the
/// value before them.
pub proof fn law_number_after_other_dropped(items: Seq<Item>, c: TokenClass, n: i64)
    requires
        c != TokenClass::Plus && c != TokenClass::Minus && c != TokenClass::Star && c
            != TokenClass::Slash,
        i32::MIN <= n <= i32::MAX,
    ensures
        eval_items(items.push(Item::Op(c)).push(Item::Num(n))) == eval_items(items),
{
    let mid = items.push(Item::Op(c));
    let all = mid.push(Item::Num(n));
    assert(all.drop_last() =~= mid);
    assert(mid.drop_last() =~= items);
    assert(run_items(mid) == match run_items(items) {
        Some(st) => run_step(st, Item::Op(c)),
        None => None,
    });
    assert(run_items(all) == match run_items(mid) {
        Some(st) => run_step(st, Item::Num(n)),
        None => None,
    });
}

/// Law: a single digit reads as its value.
pub proof fn law_parse_digit(c: u8, lo: int, hi: int)
    requires
        is_digit(c),
        lo <= 0 <= hi,
    ensures
        spec_parse_int(seq![c], lo, hi) == if c - 48 <= hi {
            Some(c - 48)
        } else {
            None
        },
{
    let s = seq![c];
    assert(s.drop_last() =~= Seq::<u8>::empty());
    assert(digits_value(Seq::<u8>::empty()) == 0);
    assert(s.last() == c);
    assert(digits_value(s) == c - 48);
    assert(all_digits(s));
}

/// Law: decimal digits are read positionally: a digit `c` after the digits
/// `d` makes ten times the value of `d` plus the value of `c`, as far as it
/// stays within `lo..=hi`.
pub proof fn law_parse_append_digit(d: Seq<u8>, c: u8, lo: int, hi: int)
    requires
        all_digits(d),
        d.len() > 0,
        is_digit(c),
        lo <= 0 <= hi,
    ensures
        spec_parse_int(d.push(c), lo, hi) == match spec_parse_int(d, lo, hi) {
            Some(v) => if 10 * v + (c - 48) <= hi {
                Some(10 * v + (c - 48))
            } else {
                None
            },
            None => None,
        },
{
    let e = d.push(c);
    assert(e.drop_last() =~= d);
    assert(all_digits(e));
    lemma_digits_value_nonneg(d);
    assert(e[0] == d[0]);
    assert(is_digit(d[0]));
}

/// Law: a leading `+` changes nothing; a leading `-` negates, where the type
/// is signed, and is refused where it is not.
pub proof fn law_parse_sign(d: Seq<u8>, lo: int, hi: int)
    requires
        all_digits(d),
        d.len() > 0,
        lo <= 0 <= hi,
    ensures
        spec_parse_int(seq![43u8] + d, lo, hi) == spec_parse_int(d, lo, hi),
        lo < 0 ==> spec_parse_int(seq![45u8] + d, lo, hi) == match spec_parse_int(d, 0, -lo) {
            Some(v) => Some(-v),
            None => None,
        },
        lo == 0 ==> spec_parse_int(seq![45u8] + d, lo, hi) is None,
{
    let p = seq![43u8] + d;
    let m = seq![45u8] + d;
    assert(p.drop_first() =~= d);
    assert(m.drop_first() =~= d);
    assert(is_digit(d[0]));
    lemma_digits_value_nonneg(d);
    if lo == 0 {
        assert(!is_digit(m[0]));
    }
}

/// Law: only a string of decimal digits, after at most one leading sign,
/// reads, and what it reads is within `lo..=hi`.
pub proof fn law_parse_shape(s: Seq<u8>, lo: int, hi: int)
    ensures
        spec_parse_int(s, lo, hi) matches Some(v) ==> {
            &&& lo <= v <= hi
            &&& s.len() > 0
            &&& (all_digits(s) || ((s[0] == 43u8 || s[0] == 45u8) && s.len() > 1 && all_digits(
                s.drop_first(),
            )))
        },
{
}

} // verus!
