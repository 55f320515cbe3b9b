//! The token stream: turns bytes into tokens that carry their trivia.
//!
//! A token owns the trivia before it, up to the end of the previous token's
//! line, and the trivia after it on its own line. Lexing never fails: what
//! cannot be classified becomes a token of kind `Error`.

use vstd::prelude::*;
use vstd::string::StringSliceAdditionalSpecFns;
use crate::kind::{TokenKind, TriviaKind};
use crate::syntax::{
    append_bytes, lemma_trivia_len_push, trivia_len, SyntaxToken, TokenView, TriviaPiece,
};

verus! {

/// The grammar whose lexical rules apply.
#[derive(Clone, Copy, Debug, PartialEq, Eq, Structural)]
pub enum Language {
    Css,
    Js,
}

/// How the next word is to be classified.
#[derive(Clone, Copy, Debug, PartialEq, Eq, Structural)]
pub enum LexContext {
    /// Reserved words get their keyword kind.
    Regular,
    /// Every word is a plain identifier.
    NoKeyword,
}

/// A class of bytes that a run is made of.
#[derive(Clone, Copy, Debug, PartialEq, Eq, Structural)]
pub enum ByteClass {
    /// Spaces and tabs.
    Whitespace,
    /// Decimal digits.
    Digit,
    /// What a word of the language may go on with.
    IdentPart(Language),
    /// Everything but line feed and carriage return.
    NotLineBreak,
}

/// Whether `b` is a space or a tab.
pub open spec fn is_whitespace(b: u8) -> bool {
    b == 0x20 || b == 0x09
}

/// Whether `b` is a line feed or a carriage return.
pub open spec fn is_line_break(b: u8) -> bool {
    b == 0x0A || b == 0x0D
}

/// Whether `b` is a decimal digit.
pub open spec fn is_digit(b: u8) -> bool {
    0x30 <= b <= 0x39
}

/// Whether `b` is a letter, an underscore or part of a character beyond
/// ASCII.
pub open spec fn is_letter(b: u8) -> bool {
    (0x41 <= b <= 0x5A) || (0x61 <= b <= 0x7A) || b == 0x5F || b >= 0x80
}

/// Whether a word of the language may start with `b`.
pub open spec fn is_ident_start(lang: Language, b: u8) -> bool {
    is_letter(b) || match lang {
        Language::Css => b == 0x2D,
        Language::Js => b == 0x24,
    }
}

/// Whether a word of the language may go on with `b`.
pub open spec fn is_ident_part(lang: Language, b: u8) -> bool {
    is_ident_start(lang, b) || is_digit(b)
}

impl ByteClass {
    /// Whether `b` belongs to the class.
    pub open spec fn holds(self, b: u8) -> bool {
        match self {
            ByteClass::Whitespace => is_whitespace(b),
            ByteClass::Digit => is_digit(b),
            ByteClass::IdentPart(lang) => is_ident_part(lang, b),
            ByteClass::NotLineBreak => !is_line_break(b),
        }
    }

    /// Whether `b` belongs to the class.
    pub fn contains(self, b: u8) -> (r: bool)
        ensures
            r == self.holds(b),
    {
        match self {
            ByteClass::Whitespace => b == 0x20 || b == 0x09,
            ByteClass::Digit => 0x30 <= b && b <= 0x39,
            ByteClass::IdentPart(lang) => {
                (0x41 <= b && b <= 0x5A) || (0x61 <= b && b <= 0x7A) || b == 0x5F || b >= 0x80
                    || (0x30 <= b && b <= 0x39) || match lang {
                    Language::Css => b == 0x2D,
                    Language::Js => b == 0x24,
                }
            },
            ByteClass::NotLineBreak => !(b == 0x0A || b == 0x0D),
        }
    }
}

/// Where the run of bytes of `class` that starts at `pos` ends.
pub open spec fn run_end(src: Seq<u8>, pos: int, class: ByteClass) -> int
    decreases src.len() - pos,
{
    if 0 <= pos < src.len() && class.holds(src[pos]) {
        run_end(src, pos + 1, class)
    } else {
        pos
    }
}

/// Where a block comment ends whose body starts at `pos`: just after the
/// first `*/`, or at the end of the input where there is none.
pub open spec fn block_comment_end(src: Seq<u8>, pos: int) -> int
    decreases src.len() - pos,
{
    if pos < 0 || pos + 1 >= src.len() {
        src.len() as int
    } else if src[pos] == 0x2A && src[pos + 1] == 0x2F {
        pos + 2
    } else {
        block_comment_end(src, pos + 1)
    }
}

/// Where a string ends whose body starts at `pos`, and whether it was
/// closed by `quote`. An open string ends before a line break or at the
/// end of the input; a backslash takes the next byte with it.
pub open spec fn string_end(src: Seq<u8>, pos: int, quote: u8) -> (int, bool)
    decreases src.len() - pos,
{
    if pos < 0 || pos >= src.len() {
        (src.len() as int, false)
    } else if src[pos] == quote {
        (pos + 1, true)
    } else if is_line_break(src[pos]) {
        (pos, false)
    } else if src[pos] == 0x5C && pos + 1 < src.len() && !is_line_break(src[pos + 1]) {
        string_end(src, pos + 2, quote)
    } else {
        string_end(src, pos + 1, quote)
    }
}

/// The trivia piece that starts at `pos`, if one does.
pub open spec fn trivia_piece_at(src: Seq<u8>, pos: int, lang: Language) -> Option<TriviaPiece> {
    if pos < 0 || pos >= src.len() {
        None
    } else if is_whitespace(src[pos]) {
        Some(
            TriviaPiece {
                kind: TriviaKind::Whitespace,
                len: (run_end(src, pos, ByteClass::Whitespace) - pos) as usize,
            },
        )
    } else if src[pos] == 0x0D && pos + 1 < src.len() && src[pos + 1] == 0x0A {
        Some(TriviaPiece { kind: TriviaKind::Newline, len: 2 })
    } else if is_line_break(src[pos]) {
        Some(TriviaPiece { kind: TriviaKind::Newline, len: 1 })
    } else if src[pos] == 0x2F && pos + 1 < src.len() && src[pos + 1] == 0x2A {
        Some(
            TriviaPiece {
                kind: TriviaKind::Comment,
                len: (block_comment_end(src, pos + 2) - pos) as usize,
            },
        )
    } else if lang == Language::Js && src[pos] == 0x2F && pos + 1 < src.len() && src[pos + 1]
        == 0x2F {
        Some(
            TriviaPiece {
                kind: TriviaKind::Comment,
                len: (run_end(src, pos + 2, ByteClass::NotLineBreak) - pos) as usize,
            },
        )
    } else {
        None
    }
}

/// The trivia pieces from `pos` on. Trailing trivia stops before the first
/// line break; leading trivia runs up to the next significant byte.
pub open spec fn trivia_run(src: Seq<u8>, pos: int, lang: Language, trailing: bool) -> Seq<
    TriviaPiece,
>
    decreases src.len() - pos,
{
    match trivia_piece_at(src, pos, lang) {
        None => Seq::empty(),
        Some(p) => if (trailing && p.kind == TriviaKind::Newline) || p.len == 0 || pos + p.len
            > src.len() {
            Seq::empty()
        } else {
            seq![p] + trivia_run(src, pos + p.len, lang, trailing)
        },
    }
}

/// The kind a word has in the given language and context.
pub open spec fn word_kind(lang: Language, ctx: LexContext, word: Seq<u8>) -> TokenKind {
    if ctx == LexContext::NoKeyword {
        TokenKind::Ident
    } else {
        match lang {
            Language::Css => if word == "color-profile".spec_bytes() {
                TokenKind::ColorProfileKw
            } else if word == "initial".spec_bytes() {
                TokenKind::InitialKw
            } else if word == "inherit".spec_bytes() {
                TokenKind::InheritKw
            } else if word == "unset".spec_bytes() {
                TokenKind::UnsetKw
            } else if word == "revert".spec_bytes() {
                TokenKind::RevertKw
            } else if word == "revert-layer".spec_bytes() {
                TokenKind::RevertLayerKw
            } else if word == "default".spec_bytes() {
                TokenKind::DefaultKw
            } else {
                TokenKind::Ident
            },
            Language::Js => if word == "const".spec_bytes() {
                TokenKind::ConstKw
            } else if word == "let".spec_bytes() {
                TokenKind::LetKw
            } else if word == "var".spec_bytes() {
                TokenKind::VarKw
            } else if word == "for".spec_bytes() {
                TokenKind::ForKw
            } else if word == "of".spec_bytes() {
                TokenKind::OfKw
            } else {
                TokenKind::Ident
            },
        }
    }
}

/// The kind of a one-byte punctuation token.
pub open spec fn punctuation_kind(b: u8) -> TokenKind {
    if b == 0x40 {
        TokenKind::At
    } else if b == 0x7B {
        TokenKind::LCurly
    } else if b == 0x7D {
        TokenKind::RCurly
    } else if b == 0x28 {
        TokenKind::LParen
    } else if b == 0x29 {
        TokenKind::RParen
    } else if b == 0x5B {
        TokenKind::LBrack
    } else if b == 0x5D {
        TokenKind::RBrack
    } else if b == 0x3A {
        TokenKind::Colon
    } else if b == 0x3B {
        TokenKind::Semicolon
    } else if b == 0x2C {
        TokenKind::Comma
    } else if b == 0x2E {
        TokenKind::Dot
    } else if b == 0x3D {
        TokenKind::Eq
    } else if 0x21 <= b <= 0x7E {
        TokenKind::Delim
    } else {
        TokenKind::Error
    }
}

/// The kind of the significant text that starts at `pos`, and where it ends.
pub open spec fn significant(src: Seq<u8>, pos: int, lang: Language, ctx: LexContext) -> (
    TokenKind,
    int,
) {
    if pos < 0 || pos >= src.len() {
        (TokenKind::Eof, pos)
    } else if is_ident_start(lang, src[pos]) {
        let end = run_end(src, pos, ByteClass::IdentPart(lang));
        (word_kind(lang, ctx, src.subrange(pos, end)), end)
    } else if is_digit(src[pos]) {
        let whole = run_end(src, pos, ByteClass::Digit);
        if whole + 1 < src.len() && src[whole] == 0x2E && is_digit(src[whole + 1]) {
            (TokenKind::Number, run_end(src, whole + 1, ByteClass::Digit))
        } else {
            (TokenKind::Number, whole)
        }
    } else if src[pos] == 0x22 || src[pos] == 0x27 {
        let (end, closed) = string_end(src, pos + 1, src[pos]);
        (
            if closed {
                TokenKind::String
            } else {
                TokenKind::Error
            },
            end,
        )
    } else if src[pos] == 0x3D && pos + 1 < src.len() && src[pos + 1] == 0x3E {
        (TokenKind::FatArrow, pos + 2)
    } else {
        (punctuation_kind(src[pos]), pos + 1)
    }
}

/// The token that starts at `pos`: its leading trivia, its significant
/// text and, unless it is the end of the input, its trailing trivia.
#[verifier::opaque]
pub open spec fn lex(src: Seq<u8>, pos: int, lang: Language, ctx: LexContext) -> TokenView {
    let leading = trivia_run(src, pos, lang, false);
    let start = pos + trivia_len(leading);
    let (kind, stop) = significant(src, start, lang, ctx);
    let trailing = if kind == TokenKind::Eof {
        Seq::empty()
    } else {
        trivia_run(src, stop, lang, true)
    };
    TokenView { kind, text: src.subrange(pos, stop + trivia_len(trailing)), leading, trailing }
}

/// A run ends inside the input, at the first byte outside the class:
/// every byte of the run is of the class, and the byte after it, if there
/// is one, is not.
pub proof fn lemma_run_end(src: Seq<u8>, pos: int, class: ByteClass)
    requires
        0 <= pos <= src.len(),
    ensures
        pos <= run_end(src, pos, class) <= src.len(),
        pos < src.len() && class.holds(src[pos]) ==> pos < run_end(src, pos, class),
        forall|i: int| pos <= i < run_end(src, pos, class) ==> class.holds(#[trigger] src[i]),
        run_end(src, pos, class) < src.len() ==> !class.holds(src[run_end(src, pos, class)]),
    decreases src.len() - pos,
{
    if pos < src.len() && class.holds(src[pos]) {
        lemma_run_end(src, pos + 1, class);
    }
}

/// A block comment ends inside the input.
pub proof fn lemma_block_comment_end(src: Seq<u8>, pos: int)
    requires
        0 <= pos <= src.len(),
    ensures
        pos <= block_comment_end(src, pos) <= src.len(),
    decreases src.len() - pos,
{
    if pos + 1 < src.len() && !(src[pos] == 0x2A && src[pos + 1] == 0x2F) {
        lemma_block_comment_end(src, pos + 1);
    }
}

/// A string ends inside the input.
pub proof fn lemma_string_end(src: Seq<u8>, pos: int, quote: u8)
    requires
        0 <= pos <= src.len(),
    ensures
        pos <= string_end(src, pos, quote).0 <= src.len(),
    decreases src.len() - pos,
{
    if pos < src.len() && src[pos] != quote && !is_line_break(src[pos]) {
        if src[pos] == 0x5C && pos + 1 < src.len() && !is_line_break(src[pos + 1]) {
            lemma_string_end(src, pos + 2, quote);
        } else {
            lemma_string_end(src, pos + 1, quote);
        }
    }
}

/// A trivia piece is not empty and ends inside the input.
pub proof fn lemma_trivia_piece(src: Seq<u8>, pos: int, lang: Language)
    requires
        0 <= pos <= src.len() <= usize::MAX,
    ensures
        trivia_piece_at(src, pos, lang) matches Some(p) ==> 0 < p.len && pos + p.len <= src.len(),
{
    if pos < src.len() {
        lemma_run_end(src, pos, ByteClass::Whitespace);
        if pos + 1 < src.len() {
            lemma_block_comment_end(src, pos + 2);
            lemma_run_end(src, pos + 2, ByteClass::NotLineBreak);
        }
    }
}

/// A run of trivia ends inside the input.
pub proof fn lemma_trivia_run(src: Seq<u8>, pos: int, lang: Language, trailing: bool)
    requires
        0 <= pos <= src.len() <= usize::MAX,
    ensures
        pos + trivia_len(trivia_run(src, pos, lang, trailing)) <= src.len(),
    decreases src.len() - pos,
{
    lemma_trivia_piece(src, pos, lang);
    match trivia_piece_at(src, pos, lang) {
        None => {},
        Some(p) => {
            if !((trailing && p.kind == TriviaKind::Newline) || p.len == 0 || pos + p.len
                > src.len()) {
                lemma_trivia_run(src, pos + p.len, lang, trailing);
                lemma_trivia_len_concat(seq![p], trivia_run(src, pos + p.len, lang, trailing));
                lemma_trivia_len_push(Seq::empty(), p);
                assert(Seq::<TriviaPiece>::empty().push(p) =~= seq![p]);
            }
        },
    }
}

/// The summed length of two runs of pieces laid end to end.
pub proof fn lemma_trivia_len_concat(a: Seq<TriviaPiece>, b: Seq<TriviaPiece>)
    ensures
        trivia_len(a + b) == trivia_len(a) + trivia_len(b),
    decreases b.len(),
{
    if b.len() == 0 {
        assert(a + b =~= a);
    } else {
        lemma_trivia_len_concat(a, b.drop_last());
        assert((a + b).drop_last() =~= a + b.drop_last());
    }
}

/// Significant text ends inside the input and is empty only at its end.
pub proof fn lemma_significant(src: Seq<u8>, pos: int, lang: Language, ctx: LexContext)
    requires
        0 <= pos <= src.len(),
    ensures
        pos <= significant(src, pos, lang, ctx).1 <= src.len(),
        significant(src, pos, lang, ctx).0 == TokenKind::Eof <==> pos == src.len(),
        pos < src.len() ==> pos < significant(src, pos, lang, ctx).1,
{
    if pos < src.len() {
        lemma_run_end(src, pos, ByteClass::IdentPart(lang));
        lemma_run_end(src, pos, ByteClass::Digit);
        let whole = run_end(src, pos, ByteClass::Digit);
        if whole + 1 < src.len() {
            lemma_run_end(src, whole + 1, ByteClass::Digit);
        }
        lemma_string_end(src, pos + 1, src[pos]);
    }
}

/// What holds of every token: its trivia fits, its text is the part of the
/// input it was cut from, and only the end-of-input token can be empty.
pub proof fn lemma_lex(src: Seq<u8>, pos: int, lang: Language, ctx: LexContext)
    requires
        0 <= pos <= src.len() <= usize::MAX,
    ensures
        lex(src, pos, lang, ctx).wf(),
        pos + lex(src, pos, lang, ctx).text.len() <= src.len(),
        lex(src, pos, lang, ctx).text == src.subrange(
            pos,
            pos + lex(src, pos, lang, ctx).text.len(),
        ),
        lex(src, pos, lang, ctx).kind != TokenKind::Eof ==> lex(src, pos, lang, ctx).text.len() > 0,
        lex(src, pos, lang, ctx).kind == TokenKind::Eof ==> pos + lex(
            src,
            pos,
            lang,
            ctx,
        ).text.len() == src.len(),
{
    reveal(lex);
    let leading = trivia_run(src, pos, lang, false);
    lemma_trivia_run(src, pos, lang, false);
    let start = pos + trivia_len(leading);
    lemma_significant(src, start, lang, ctx);
    let (kind, stop) = significant(src, start, lang, ctx);
    if kind != TokenKind::Eof {
        lemma_trivia_run(src, stop, lang, true);
    }
}

/// Scans the run of bytes of `class` that starts at `pos`.
pub fn scan_run(src: &[u8], pos: usize, class: ByteClass) -> (end: usize)
    requires
        pos <= src.len(),
    ensures
        end == run_end(src@, pos as int, class),
        pos <= end <= src.len(),
{
    let mut i: usize = pos;
    while i < src.len() && class.contains(src[i])
        invariant
            pos <= i <= src.len(),
            run_end(src@, pos as int, class) == run_end(src@, i as int, class),
        decreases src.len() - i,
    {
        i += 1;
    }
    i
}

/// Scans a block comment whose body starts at `pos`.
pub fn scan_block_comment(src: &[u8], pos: usize) -> (end: usize)
    requires
        pos <= src.len(),
    ensures
        end == block_comment_end(src@, pos as int),
        pos <= end <= src.len(),
{
    let mut i: usize = pos;
    while i < src.len() && i + 1 < src.len()
        invariant
            pos <= i <= src.len(),
            block_comment_end(src@, pos as int) == block_comment_end(src@, i as int),
        decreases src.len() - i,
    {
        if src[i] == 0x2A && src[i + 1] == 0x2F {
            return i + 2;
        }
        i += 1;
    }
    src.len()
}

/// Scans a string whose body starts at `pos`.
pub fn scan_string(src: &[u8], pos: usize, quote: u8) -> (r: (usize, bool))
    requires
        pos <= src.len(),
    ensures
        (r.0 as int, r.1) == string_end(src@, pos as int, quote),
        pos <= r.0 <= src.len(),
{
    let mut i: usize = pos;
    while i < src.len()
        invariant
            pos <= i <= src.len(),
            string_end(src@, pos as int, quote) == string_end(src@, i as int, quote),
        decreases src.len() - i,
    {
        let b = src[i];
        if b == quote {
            return (i + 1, true);
        } else if b == 0x0A || b == 0x0D {
            return (i, false);
        } else if b == 0x5C && i + 1 < src.len() && !(src[i + 1] == 0x0A || src[i + 1] == 0x0D) {
            i += 2;
        } else {
            i += 1;
        }
    }
    (src.len(), false)
}

/// Scans the trivia piece that starts at `pos`, if one does.
pub fn scan_trivia_piece(src: &[u8], pos: usize, lang: Language) -> (piece: Option<TriviaPiece>)
    requires
        pos <= src.len(),
    ensures
        piece == trivia_piece_at(src@, pos as int, lang),
        piece matches Some(p) ==> 0 < p.len && pos + p.len <= src.len(),
{
    proof {
        lemma_trivia_piece(src@, pos as int, lang);
    }
    if pos >= src.len() {
        return None;
    }
    let b = src[pos];
    if b == 0x20 || b == 0x09 {
        let end = scan_run(src, pos, ByteClass::Whitespace);
        Some(TriviaPiece { kind: TriviaKind::Whitespace, len: end - pos })
    } else if b == 0x0D && pos + 1 < src.len() && src[pos + 1] == 0x0A {
        Some(TriviaPiece { kind: TriviaKind::Newline, len: 2 })
    } else if b == 0x0A || b == 0x0D {
        Some(TriviaPiece { kind: TriviaKind::Newline, len: 1 })
    } else if b == 0x2F && pos + 1 < src.len() && src[pos + 1] == 0x2A {
        let end = scan_block_comment(src, pos + 2);
        Some(TriviaPiece { kind: TriviaKind::Comment, len: end - pos })
    } else if lang == Language::Js && b == 0x2F && pos + 1 < src.len() && src[pos + 1] == 0x2F {
        let end = scan_run(src, pos + 2, ByteClass::NotLineBreak);
        Some(TriviaPiece { kind: TriviaKind::Comment, len: end - pos })
    } else {
        None
    }
}

/// Scans the trivia from `pos` on and returns its pieces and its end.
pub fn scan_trivia(src: &[u8], pos: usize, lang: Language, trailing: bool) -> (r: (
    Vec<TriviaPiece>,
    usize,
))
    requires
        pos <= src.len(),
    ensures
        r.0@ == trivia_run(src@, pos as int, lang, trailing),
        r.1 == pos + trivia_len(r.0@),
        r.1 <= src.len(),
{
    let mut pieces: Vec<TriviaPiece> = Vec::new();
    let mut at: usize = pos;
    loop
        invariant
            pos <= at <= src.len(),
            at == pos + trivia_len(pieces@),
            trivia_run(src@, pos as int, lang, trailing) == pieces@ + trivia_run(
                src@,
                at as int,
                lang,
                trailing,
            ),
        ensures
            pos <= at <= src.len(),
            at == pos + trivia_len(pieces@),
            trivia_run(src@, pos as int, lang, trailing) == pieces@,
        decreases src.len() - at,
    {
        match scan_trivia_piece(src, at, lang) {
            None => {
                proof {
                    assert(pieces@ + Seq::<TriviaPiece>::empty() =~= pieces@);
                }
                break ;
            },
            Some(p) => {
                if trailing && p.kind == TriviaKind::Newline {
                    proof {
                        assert(pieces@ + Seq::<TriviaPiece>::empty() =~= pieces@);
                    }
                    break ;
                }
                proof {
                    let rest = trivia_run(src@, at + p.len, lang, trailing);
                    assert(pieces@ + (seq![p] + rest) =~= pieces@.push(p) + rest);
                    lemma_trivia_len_push(pieces@, p);
                }
                pieces.push(p);
                at = at + p.len;
            },
        }
    }
    (pieces, at)
}

/// Whether `src[from..to]` spells `word`.
pub fn range_is(src: &[u8], from: usize, to: usize, word: &[u8]) -> (same: bool)
    requires
        from <= to <= src.len(),
    ensures
        same == (src@.subrange(from as int, to as int) == word@),
{
    if to - from != word.len() {
        return false;
    }
    let mut i: usize = 0;
    while i < word.len()
        invariant
            from <= to <= src.len(),
            to - from == word.len(),
            i <= word.len(),
            forall|j: int| 0 <= j < i ==> src@[from + j] == word@[j],
        decreases word.len() - i,
    {
        if src[from + i] != word[i] {
            proof {
                assert(src@.subrange(from as int, to as int)[i as int] != word@[i as int]);
            }
            return false;
        }
        i += 1;
    }
    proof {
        assert(src@.subrange(from as int, to as int) =~= word@);
    }
    true
}

/// Classifies the word `src[from..to]`.
pub fn classify_word(src: &[u8], from: usize, to: usize, lang: Language, ctx: LexContext) -> (kind:
    TokenKind)
    requires
        from <= to <= src.len(),
    ensures
        kind == word_kind(lang, ctx, src@.subrange(from as int, to as int)),
{
    if ctx == LexContext::NoKeyword {
        return TokenKind::Ident;
    }
    match lang {
        Language::Css => {
            if range_is(src, from, to, "color-profile".as_bytes()) {
                TokenKind::ColorProfileKw
            } else if range_is(src, from, to, "initial".as_bytes()) {
                TokenKind::InitialKw
            } else if range_is(src, from, to, "inherit".as_bytes()) {
                TokenKind::InheritKw
            } else if range_is(src, from, to, "unset".as_bytes()) {
                TokenKind::UnsetKw
            } else if range_is(src, from, to, "revert".as_bytes()) {
                TokenKind::RevertKw
            } else if range_is(src, from, to, "revert-layer".as_bytes()) {
                TokenKind::RevertLayerKw
            } else if range_is(src, from, to, "default".as_bytes()) {
                TokenKind::DefaultKw
            } else {
                TokenKind::Ident
            }
        },
        Language::Js => {
            if range_is(src, from, to, "const".as_bytes()) {
                TokenKind::ConstKw
            } else if range_is(src, from, to, "let".as_bytes()) {
                TokenKind::LetKw
            } else if range_is(src, from, to, "var".as_bytes()) {
                TokenKind::VarKw
            } else if range_is(src, from, to, "for".as_bytes()) {
                TokenKind::ForKw
            } else if range_is(src, from, to, "of".as_bytes()) {
                TokenKind::OfKw
            } else {
                TokenKind::Ident
            }
        },
    }
}

/// Classifies a one-byte punctuation token.
pub fn classify_punctuation(b: u8) -> (kind: TokenKind)
    ensures
        kind == punctuation_kind(b),
{
    if b == 0x40 {
        TokenKind::At
    } else if b == 0x7B {
        TokenKind::LCurly
    } else if b == 0x7D {
        TokenKind::RCurly
    } else if b == 0x28 {
        TokenKind::LParen
    } else if b == 0x29 {
        TokenKind::RParen
    } else if b == 0x5B {
        TokenKind::LBrack
    } else if b == 0x5D {
        TokenKind::RBrack
    } else if b == 0x3A {
        TokenKind::Colon
    } else if b == 0x3B {
        TokenKind::Semicolon
    } else if b == 0x2C {
        TokenKind::Comma
    } else if b == 0x2E {
        TokenKind::Dot
    } else if b == 0x3D {
        TokenKind::Eq
    } else if 0x21 <= b && b <= 0x7E {
        TokenKind::Delim
    } else {
        TokenKind::Error
    }
}

/// Scans the significant text that starts at `pos`.
pub fn scan_significant(src: &[u8], pos: usize, lang: Language, ctx: LexContext) -> (r: (
    TokenKind,
    usize,
))
    requires
        pos <= src.len(),
    ensures
        (r.0, r.1 as int) == significant(src@, pos as int, lang, ctx),
        pos <= r.1 <= src.len(),
{
    proof {
        lemma_significant(src@, pos as int, lang, ctx);
    }
    if pos >= src.len() {
        return (TokenKind::Eof, pos);
    }
    let b = src[pos];
    let word_start = (0x41 <= b && b <= 0x5A) || (0x61 <= b && b <= 0x7A) || b == 0x5F || b >= 0x80
        || match lang {
        Language::Css => b == 0x2D,
        Language::Js => b == 0x24,
    };
    if word_start {
        let end = scan_run(src, pos, ByteClass::IdentPart(lang));
        (classify_word(src, pos, end, lang, ctx), end)
    } else if 0x30 <= b && b <= 0x39 {
        let whole = scan_run(src, pos, ByteClass::Digit);
        if whole < src.len() && whole + 1 < src.len() && src[whole] == 0x2E && 0x30 <= src[whole
            + 1] && src[whole + 1] <= 0x39 {
            (TokenKind::Number, scan_run(src, whole + 1, ByteClass::Digit))
        } else {
            (TokenKind::Number, whole)
        }
    } else if b == 0x22 || b == 0x27 {
        let (end, closed) = scan_string(src, pos + 1, b);
        (
            if closed {
                TokenKind::String
            } else {
                TokenKind::Error
            },
            end,
        )
    } else if b == 0x3D && pos + 1 < src.len() && src[pos + 1] == 0x3E {
        (TokenKind::FatArrow, pos + 2)
    } else {
        (classify_punctuation(b), pos + 1)
    }
}

/// Lexes the token that starts at `pos`.
pub fn lex_token(src: &[u8], pos: usize, lang: Language, ctx: LexContext) -> (token: SyntaxToken)
    requires
        pos <= src.len(),
    ensures
        token@ == lex(src@, pos as int, lang, ctx),
        token@.wf(),
        pos + token@.text.len() <= src.len(),
        token@.text == src@.subrange(pos as int, pos + token@.text.len()),
        token@.kind != TokenKind::Eof ==> token@.text.len() > 0,
        token@.kind == TokenKind::Eof ==> pos + token@.text.len() == src.len(),
{
    proof {
        reveal(lex);
        lemma_lex(src@, pos as int, lang, ctx);
    }
    let (leading, start) = scan_trivia(src, pos, lang, false);
    let (kind, stop) = scan_significant(src, start, lang, ctx);
    let (trailing, end) = if kind == TokenKind::Eof {
        (Vec::new(), stop)
    } else {
        scan_trivia(src, stop, lang, true)
    };
    let mut text: Vec<u8> = Vec::new();
    append_bytes(&mut text, src, pos, end);
    proof {
        assert(text@ =~= src@.subrange(pos as int, end as int));
    }
    SyntaxToken::from_parts(kind, text, leading, trailing)
}

} // verus!
