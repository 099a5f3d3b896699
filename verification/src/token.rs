//! The tokens the calculator reads, the call into `rustc_lexer`, and the
//! calculator's choice of which tokens are numbers and operators.

use rustc_lexer::{Base, LiteralKind, TokenKind};
use vstd::prelude::*;

verus! {

/// The kinds of token the calculator tells apart.
///
/// `Other` stands for every kind the calculator treats alike: identifiers,
/// punctuation other than `+ - * /`, comments, literals other than decimal
/// integers, and so on.
#[derive(Clone, Copy, Debug, PartialEq, Eq, Structural)]
pub enum TokenClass {
    Whitespace,
    DecimalInt,
    Plus,
    Minus,
    Star,
    Slash,
    Other,
}

/// One token as the calculator reads it: its class and its length in bytes
/// of the source text.
#[derive(Clone, Copy, Debug, PartialEq, Eq, Structural)]
pub struct LexToken {
    pub class: TokenClass,
    pub len: usize,
}

/// The base of an integer literal, as `rustc_lexer::Base` gives it.
#[derive(Clone, Copy, Debug, PartialEq, Eq, Structural)]
pub enum LexBase {
    Binary,
    Octal,
    Hexadecimal,
    Decimal,
}

/// The kind of a token as `rustc_lexer` gives it: whitespace, the four
/// arithmetic punctuation kinds, and integer literals with the fields of
/// `LiteralKind::Int` and the literal's `suffix_start`; `Other` for every
/// other `TokenKind`.
#[derive(Clone, Copy, Debug, PartialEq, Eq, Structural)]
pub enum LexKind {
    Whitespace,
    Plus,
    Minus,
    Star,
    Slash,
    IntLiteral { base: LexBase, empty_int: bool, suffix_start: usize },
    Other,
}

/// One token from `rustc_lexer`: its kind and its length in bytes.
#[derive(Clone, Copy, Debug, PartialEq, Eq, Structural)]
pub struct RawToken {
    pub kind: LexKind,
    pub len: usize,
}

/// The tokens that `rustc_lexer::tokenize` produces for a source text.
pub uninterp spec fn lexed(src: Seq<char>) -> Seq<RawToken>;

/// Tokenizes `expr` with `rustc_lexer::tokenize`.
///
/// Trusted: the result is the named sequence `lexed(expr@)`, a deterministic
/// function of the text alone. Each token's length is kept as it is; its
/// `TokenKind` is carried over as `LexKind`: `Whitespace`, `Plus`, `Minus`,
/// `Star`, `Slash` to the variant of the same name, `Literal` with an `Int`
/// kind to `IntLiteral` with its base, `empty_int` and `suffix_start`, and
/// every other kind to `Other`.
#[verifier::external_body]
pub(crate) fn lex(expr: &str) -> (tokens: Vec<RawToken>)
    ensures
        tokens@ == lexed(expr@),
{
    rustc_lexer::tokenize(expr).map(|t| RawToken {
        kind: match t.kind {
            TokenKind::Whitespace => LexKind::Whitespace,
            TokenKind::Plus => LexKind::Plus,
            TokenKind::Minus => LexKind::Minus,
            TokenKind::Star => LexKind::Star,
            TokenKind::Slash => LexKind::Slash,
            TokenKind::Literal { kind: LiteralKind::Int { base, empty_int }, suffix_start } => LexKind::IntLiteral {
                base: match base { Base::Binary => LexBase::Binary, Base::Octal => LexBase::Octal, Base::Hexadecimal => LexBase::Hexadecimal, Base::Decimal => LexBase::Decimal },
                empty_int, suffix_start },
            _ => LexKind::Other,
        },
        len: t.len,
    }).collect()
}

/// The class the calculator gives a token kind: an integer literal in base
/// 10 is a number (whatever its suffix), other integer literals are not;
/// whitespace and `+ - * /` keep their own class.
pub open spec fn spec_classify(k: LexKind) -> TokenClass {
    match k {
        LexKind::Whitespace => TokenClass::Whitespace,
        LexKind::Plus => TokenClass::Plus,
        LexKind::Minus => TokenClass::Minus,
        LexKind::Star => TokenClass::Star,
        LexKind::Slash => TokenClass::Slash,
        LexKind::IntLiteral { base: LexBase::Decimal, .. } => TokenClass::DecimalInt,
        LexKind::IntLiteral { .. } => TokenClass::Other,
        LexKind::Other => TokenClass::Other,
    }
}

/// The tokens `raw` as the calculator reads them.
pub open spec fn classified(raw: Seq<RawToken>) -> Seq<LexToken> {
    raw.map_values(|t: RawToken| LexToken { class: spec_classify(t.kind), len: t.len })
}

/// Classifies a token kind.
pub fn classify(k: LexKind) -> (c: TokenClass)
    ensures
        c == spec_classify(k),
{
    match k {
        LexKind::Whitespace => TokenClass::Whitespace,
        LexKind::Plus => TokenClass::Plus,
        LexKind::Minus => TokenClass::Minus,
        LexKind::Star => TokenClass::Star,
        LexKind::Slash => TokenClass::Slash,
        LexKind::IntLiteral { base: LexBase::Decimal, .. } => TokenClass::DecimalInt,
        LexKind::IntLiteral { .. } => TokenClass::Other,
        LexKind::Other => TokenClass::Other,
    }
}

/// Classifies every token of `raw`, keeping the lengths.
pub fn classify_tokens(raw: &[RawToken]) -> (r: Vec<LexToken>)
    ensures
        r@ == classified(raw@),
{
    let mut out: Vec<LexToken> = Vec::new();
    let mut i: usize = 0;
    while i < raw.len()
        invariant
            i <= raw@.len(),
            out@.len() == i,
            forall|j: int|
                0 <= j < i ==> #[trigger] out@[j] == (LexToken {
                    class: spec_classify(raw@[j].kind),
                    len: raw@[j].len,
                }),
        decreases raw.len() - i,
    {
        let t = raw[i];
        out.push(LexToken { class: classify(t.kind), len: t.len });
        i = i + 1;
    }
    assert(out@ =~= classified(raw@));
    out
}

} // verus!
