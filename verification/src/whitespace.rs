//! Whitespace between tokens: the law that inserting it changes nothing the
//! calculator reads.

use crate::token::{LexToken, TokenClass};
use crate::toy_calculator::{eval_spec, scan, scan_step, spec_arith_tokens, Item};
use vstd::prelude::*;
use vstd::utf8::{
    is_char_boundary, is_char_boundary_iff_not_is_continuation_byte,
    is_char_boundary_start_end_of_seq, is_continuation_byte, valid_utf8, valid_utf8_concat,
    valid_utf8_split,
};

verus! {

/// The total byte length of `toks`.
pub open spec fn sum_lens(toks: Seq<LexToken>) -> int
    decreases toks.len(),
{
    if toks.len() == 0 {
        0
    } else {
        sum_lens(toks.drop_last()) + toks.last().len
    }
}

/// In valid UTF-8, a character boundary is the end of the bytes or a
/// position whose byte is not a continuation byte.
proof fn lemma_boundary(b: Seq<u8>, i: int)
    requires
        valid_utf8(b),
    ensures
        is_char_boundary(b, i) == if 0 <= i < b.len() {
            !is_continuation_byte(b[i])
        } else {
            i == b.len()
        },
{
    is_char_boundary_start_end_of_seq(b);
    if 0 <= i < b.len() {
        is_char_boundary_iff_not_is_continuation_byte(b, i);
    }
}

proof fn lemma_scan_offset(src: Seq<u8>, toks: Seq<LexToken>, lo: int, hi: int)
    ensures
        scan(src, toks, lo, hi) matches Some((_, off)) ==> off == sum_lens(toks),
    decreases toks.len(),
{
    if toks.len() > 0 {
        lemma_scan_offset(src, toks.drop_last(), lo, hi);
    }
}

proof fn lemma_sum_lens_prefix(toks: Seq<LexToken>, i: int, j: int)
    requires
        0 <= i <= j <= toks.len(),
    ensures
        0 <= sum_lens(toks.take(i)) <= sum_lens(toks.take(j)),
    decreases j,
{
    if j == 0 {
        assert(toks.take(0) =~= Seq::<LexToken>::empty());
    } else {
        assert(toks.take(j).drop_last() =~= toks.take(j - 1));
        if i < j {
            lemma_sum_lens_prefix(toks, i, j - 1);
        } else {
            lemma_sum_lens_prefix(toks, j - 1, j - 1);
        }
    }
}

/// `src` with the bytes `spaces` put in at `o`.
spec fn inserted(src: Seq<u8>, o: int, spaces: Seq<u8>) -> Seq<u8> {
    src.take(o) + spaces + src.skip(o)
}

spec fn shift(r: Option<(Seq<Item>, int)>, w: int) -> Option<(Seq<Item>, int)> {
    match r {
        Some((items, off)) => Some((items, off + w)),
        None => None,
    }
}

proof fn lemma_boundaries_kept(src: Seq<u8>, o: int, spaces: Seq<u8>, i: int)
    requires
        valid_utf8(src),
        valid_utf8(inserted(src, o, spaces)),
        0 <= o <= src.len(),
        is_char_boundary(src, o),
        valid_utf8(spaces),
    ensures
        0 <= i <= o ==> is_char_boundary(inserted(src, o, spaces), i) == is_char_boundary(src, i),
        o <= i ==> is_char_boundary(inserted(src, o, spaces), i + spaces.len())
            == is_char_boundary(src, i),
{
    let s2 = inserted(src, o, spaces);
    let w = spaces.len() as int;
    assert(s2.len() == src.len() + w);
    lemma_boundary(src, i);
    lemma_boundary(src, o);
    lemma_boundary(s2, i);
    lemma_boundary(s2, i + w);
    lemma_boundary(spaces, 0);
    if 0 <= i < o {
        assert(s2[i] == src[i]);
    }
    if w > 0 {
        assert(s2[o] == spaces[0]);
    } else {
        assert(s2 =~= src);
    }
    if o <= i < src.len() {
        assert(s2[i + w] == src[i]);
    }
}

/// A token that ends at or before `o` is read alike in `src` and in the
/// bytes with `spaces` put in at `o`.
proof fn lemma_step_before(
    src: Seq<u8>,
    o: int,
    spaces: Seq<u8>,
    items: Seq<Item>,
    off: int,
    tok: LexToken,
    lo: int,
    hi: int,
)
    requires
        valid_utf8(src),
        valid_utf8(inserted(src, o, spaces)),
        0 <= o <= src.len(),
        is_char_boundary(src, o),
        valid_utf8(spaces),
        0 <= off,
        off + tok.len <= o,
    ensures
        scan_step(inserted(src, o, spaces), items, off, tok, lo, hi) == scan_step(
            src,
            items,
            off,
            tok,
            lo,
            hi,
        ),
{
    let s2 = inserted(src, o, spaces);
    let end = off + tok.len;
    lemma_boundaries_kept(src, o, spaces, off);
    lemma_boundaries_kept(src, o, spaces, end);
    assert(s2.subrange(off, end) =~= src.subrange(off, end));
}

/// A token that starts at or after `o` is read alike in `src` and, `spaces`
/// further on, in the bytes with `spaces` put in at `o`.
proof fn lemma_step_after(
    src: Seq<u8>,
    o: int,
    spaces: Seq<u8>,
    items: Seq<Item>,
    off: int,
    tok: LexToken,
    lo: int,
    hi: int,
)
    requires
        valid_utf8(src),
        valid_utf8(inserted(src, o, spaces)),
        0 <= o <= src.len(),
        is_char_boundary(src, o),
        valid_utf8(spaces),
        o <= off,
        off + tok.len + spaces.len() <= usize::MAX,
    ensures
        scan_step(inserted(src, o, spaces), items, off + spaces.len(), tok, lo, hi) == shift(
            scan_step(src, items, off, tok, lo, hi),
            spaces.len() as int,
        ),
{
    let s2 = inserted(src, o, spaces);
    let w = spaces.len() as int;
    let end = off + tok.len;
    lemma_boundaries_kept(src, o, spaces, off);
    lemma_boundaries_kept(src, o, spaces, end);
    if end <= src.len() {
        assert(s2.subrange(off + w, end + w) =~= src.subrange(off, end));
    }
}

/// Scanning the tokens with a whitespace token put in before token `k`,
/// over the bytes with `spaces` put in where token `k` starts: up to `k` it
/// goes as before, and from there on with every offset `spaces` further.
proof fn lemma_scan_inserted(
    src: Seq<u8>,
    toks: Seq<LexToken>,
    k: int,
    spaces: Seq<u8>,
    lo: int,
    hi: int,
    j: int,
)
    requires
        valid_utf8(src),
        0 <= k <= toks.len(),
        sum_lens(toks.take(k)) <= src.len(),
        is_char_boundary(src, sum_lens(toks.take(k))),
        valid_utf8(inserted(src, sum_lens(toks.take(k)), spaces)),
        valid_utf8(spaces),
        sum_lens(toks) + spaces.len() <= usize::MAX,
        0 <= j <= toks.len() + 1,
    ensures
        ({
            let o = sum_lens(toks.take(k));
            let src2 = inserted(src, o, spaces);
            let ws = LexToken { class: TokenClass::Whitespace, len: spaces.len() as usize };
            let toks2 = toks.take(k).push(ws) + toks.skip(k);
            &&& j <= k ==> scan(src2, toks2.take(j), lo, hi) == scan(src, toks.take(j), lo, hi)
            &&& j > k ==> scan(src2, toks2.take(j), lo, hi) == shift(
                scan(src, toks.take(j - 1), lo, hi),
                spaces.len() as int,
            )
        }),
    decreases j,
{
    let o = sum_lens(toks.take(k));
    let src2 = inserted(src, o, spaces);
    let w = spaces.len() as int;
    let ws = LexToken { class: TokenClass::Whitespace, len: spaces.len() as usize };
    let toks2 = toks.take(k).push(ws) + toks.skip(k);
    assert(toks2.len() == toks.len() + 1);
    lemma_sum_lens_prefix(toks, k, toks.len() as int);
    assert(toks.take(toks.len() as int) =~= toks);
    if j == 0 {
        assert(toks2.take(0) =~= Seq::<LexToken>::empty());
        assert(toks.take(0) =~= Seq::<LexToken>::empty());
    } else {
        lemma_scan_inserted(src, toks, k, spaces, lo, hi, j - 1);
        assert(toks2.take(j).drop_last() =~= toks2.take(j - 1));
        if j <= k {
            assert(toks2.take(j) =~= toks.take(j));
        } else if j == k + 1 {
            assert(toks2.take(j).last() == ws);
            assert(toks2.take(j - 1) =~= toks.take(k));
            lemma_scan_offset(src, toks.take(k), lo, hi);
        } else {
            let t = toks[j - 2];
            assert(toks2.take(j).last() == t);
            assert(toks.take(j - 1).drop_last() =~= toks.take(j - 2));
            assert(toks.take(j - 1).last() == t);
            lemma_scan_offset(src, toks.take(j - 2), lo, hi);
            lemma_sum_lens_prefix(toks, k, j - 2);
            lemma_sum_lens_prefix(toks, j - 1, toks.len() as int);
            if let Some((items, off)) = scan(src, toks.take(j - 2), lo, hi) {
                lemma_step_after(src, o, spaces, items, off, t, lo, hi);
            }
        }
        if 0 < j <= k {
            let t = toks[j - 1];
            assert(toks.take(j).drop_last() =~= toks.take(j - 1));
            assert(toks.take(j).last() == t);
            lemma_scan_offset(src, toks.take(j - 1), lo, hi);
            lemma_sum_lens_prefix(toks, j, k);
            if let Some((items, off)) = scan(src, toks.take(j - 1), lo, hi) {
                lemma_sum_lens_prefix(toks, j - 1, j - 1);
                lemma_step_before(src, o, spaces, items, off, t, lo, hi);
            }
        }
    }
}

/// Law: whitespace between tokens never changes the result. Putting text in
/// where a token starts (a character boundary of a valid UTF-8 text), with a
/// whitespace token covering it, leaves what the calculator
/// reads unchanged: the same value from `calculator_eval` (or the same
/// refusal) and the same tokens from `calculator_eval2`. Read the other way,
/// removing such whitespace changes nothing either.
pub proof fn law_whitespace_ignored(src: Seq<u8>, toks: Seq<LexToken>, k: int, spaces: Seq<u8>)
    requires
        valid_utf8(src),
        0 <= k <= toks.len(),
        is_char_boundary(src, sum_lens(toks.take(k))),
        valid_utf8(spaces),
        sum_lens(toks) + spaces.len() <= usize::MAX,
    ensures
        ({
            let src2 = src.take(sum_lens(toks.take(k))) + spaces + src.skip(sum_lens(toks.take(k)));
            let ws = LexToken { class: TokenClass::Whitespace, len: spaces.len() as usize };
            let toks2 = toks.take(k).push(ws) + toks.skip(k);
            &&& eval_spec(src2, toks2) == eval_spec(src, toks)
            &&& spec_arith_tokens(src2, toks2) == spec_arith_tokens(src, toks)
        }),
{
    let o = sum_lens(toks.take(k));
    lemma_boundary(src, o);
    valid_utf8_split(src, o);
    assert(src.subrange(0, o) =~= src.take(o));
    assert(src.subrange(o, src.len() as int) =~= src.skip(o));
    valid_utf8_concat(src.take(o), spaces);
    valid_utf8_concat(src.take(o) + spaces, src.skip(o));
    let ws = LexToken { class: TokenClass::Whitespace, len: spaces.len() as usize };
    let toks2 = toks.take(k).push(ws) + toks.skip(k);
    let n = toks.len() as int;
    lemma_scan_inserted(src, toks, k, spaces, i32::MIN as int, i32::MAX as int, n + 1);
    lemma_scan_inserted(src, toks, k, spaces, 0, u32::MAX as int, n + 1);
    assert(toks2.take(n + 1) =~= toks2);
    assert(toks.take(n) =~= toks);
}

} // verus!
