use syntax_core::kind::{TokenKind, TriviaKind};
use syntax_core::lexer::{lex_token, scan_string, Language, LexContext};
use syntax_core::syntax::{SyntaxToken, TriviaPiece};

fn lex_all(src: &[u8], lang: Language) -> Vec<SyntaxToken> {
    let mut out = Vec::new();
    let mut pos = 0;
    loop {
        let token = lex_token(src, pos, lang, LexContext::Regular);
        pos += token.text().len();
        let done = token.kind() == TokenKind::Eof;
        out.push(token);
        if done {
            return out;
        }
    }
}

fn kinds(src: &[u8], lang: Language) -> Vec<TokenKind> {
    lex_all(src, lang).iter().map(|t| t.kind()).collect()
}

#[test]
fn lexes_keyword_with_trailing_space() {
    let token = lex_token(b"const FOO", 0, Language::Js, LexContext::Regular);
    assert_eq!(token.kind(), TokenKind::ConstKw);
    assert_eq!(token.text().as_slice(), b"const ");
    assert_eq!(token.text_trimmed().as_slice(), b"const");
    assert_eq!(token.trailing().as_slice(), &[TriviaPiece { kind: TriviaKind::Whitespace, len: 1 }]);
    assert!(token.leading().is_empty());
}

#[test]
fn trailing_trivia_stops_at_the_line_break() {
    let src = b"a /* c */ // d\n  b";
    let tokens = lex_all(src, Language::Js);
    assert_eq!(tokens.len(), 3);
    assert_eq!(tokens[0].text().as_slice(), b"a /* c */ // d");
    assert_eq!(
        tokens[0].trailing().as_slice(),
        &[
            TriviaPiece { kind: TriviaKind::Whitespace, len: 1 },
            TriviaPiece { kind: TriviaKind::Comment, len: 7 },
            TriviaPiece { kind: TriviaKind::Whitespace, len: 1 },
            TriviaPiece { kind: TriviaKind::Comment, len: 4 },
        ]
    );
    assert_eq!(tokens[1].text().as_slice(), b"\n  b");
    assert_eq!(
        tokens[1].leading().as_slice(),
        &[
            TriviaPiece { kind: TriviaKind::Newline, len: 1 },
            TriviaPiece { kind: TriviaKind::Whitespace, len: 2 },
        ]
    );
    assert!(tokens[1].has_leading_newline());
    assert!(!tokens[0].has_leading_newline());
    assert_eq!(tokens[2].kind(), TokenKind::Eof);
    assert!(tokens[2].text().is_empty());
}

#[test]
fn token_texts_concatenate_to_the_input() {
    let inputs: [&[u8]; 6] = [
        b"",
        b"   \n\t ",
        b"const a = 'x\\'y', b = \"unterminated\nnext = 1.5.2;",
        b"@color-profile --x { a: b; } /* never closed",
        b"\x00\x01 caf\xc3\xa9 => =>= \r\n\r x",
        b"els['forEach'](el => { el })",
    ];
    for src in inputs {
        for lang in [Language::Js, Language::Css] {
            let mut text = Vec::new();
            for token in lex_all(src, lang) {
                text.extend_from_slice(token.text());
            }
            assert_eq!(text.as_slice(), src);
        }
    }
}

#[test]
fn unterminated_string_is_an_error_token() {
    let token = lex_token(b"\"abc\nx", 0, Language::Js, LexContext::Regular);
    assert_eq!(token.kind(), TokenKind::Error);
    assert_eq!(token.text().as_slice(), b"\"abc");
    let closed = lex_token(b"'a\\'b' x", 0, Language::Js, LexContext::Regular);
    assert_eq!(closed.kind(), TokenKind::String);
    assert_eq!(closed.text_trimmed().as_slice(), b"'a\\'b'");
    assert_eq!(scan_string(b"'ab", 1, b'\''), (3, false));
    assert_eq!(scan_string(b"'ab' ", 1, b'\''), (4, true));
}

#[test]
fn invalid_byte_is_an_error_token() {
    assert_eq!(kinds(b"\x01", Language::Js), vec![TokenKind::Error, TokenKind::Eof]);
    assert_eq!(kinds(b"#", Language::Css), vec![TokenKind::Delim, TokenKind::Eof]);
}

#[test]
fn context_decides_whether_a_word_is_a_keyword() {
    let regular = lex_token(b"for", 0, Language::Js, LexContext::Regular);
    let plain = lex_token(b"for", 0, Language::Js, LexContext::NoKeyword);
    assert_eq!(regular.kind(), TokenKind::ForKw);
    assert_eq!(plain.kind(), TokenKind::Ident);
    assert_eq!(regular.text(), plain.text());
}

#[test]
fn language_decides_what_a_word_is() {
    assert_eq!(
        kinds(b"color-profile", Language::Css),
        vec![TokenKind::ColorProfileKw, TokenKind::Eof]
    );
    assert_eq!(
        kinds(b"color-profile", Language::Js),
        vec![TokenKind::Ident, TokenKind::Delim, TokenKind::Ident, TokenKind::Eof]
    );
    assert_eq!(kinds(b"revert-layer", Language::Css), vec![TokenKind::RevertLayerKw, TokenKind::Eof]);
    assert_eq!(kinds(b"const", Language::Css), vec![TokenKind::Ident, TokenKind::Eof]);
    assert_eq!(kinds(b"$a", Language::Js), vec![TokenKind::Ident, TokenKind::Eof]);
}

#[test]
fn punctuation_and_numbers() {
    assert_eq!(
        kinds(b"@{}()[]:;,.= => 12 1.5 1.", Language::Js),
        vec![
            TokenKind::At,
            TokenKind::LCurly,
            TokenKind::RCurly,
            TokenKind::LParen,
            TokenKind::RParen,
            TokenKind::LBrack,
            TokenKind::RBrack,
            TokenKind::Colon,
            TokenKind::Semicolon,
            TokenKind::Comma,
            TokenKind::Dot,
            TokenKind::Eq,
            TokenKind::FatArrow,
            TokenKind::Number,
            TokenKind::Number,
            TokenKind::Number,
            TokenKind::Dot,
            TokenKind::Eof,
        ]
    );
}

#[test]
fn end_of_input_token_carries_the_last_trivia() {
    let src = b"a\n  // done\n";
    let tokens = lex_all(src, Language::Js);
    assert_eq!(tokens.len(), 2);
    assert_eq!(tokens[1].kind(), TokenKind::Eof);
    assert_eq!(tokens[1].text().as_slice(), b"\n  // done\n");
    assert!(tokens[1].text_trimmed().is_empty());
}

#[test]
fn token_constructor_checks_the_trivia() {
    let fits = SyntaxToken::new(
        TokenKind::Ident,
        b" a ".to_vec(),
        vec![TriviaPiece { kind: TriviaKind::Whitespace, len: 1 }],
        vec![TriviaPiece { kind: TriviaKind::Whitespace, len: 1 }],
    );
    assert_eq!(fits.unwrap().text_trimmed().as_slice(), b"a");
    let too_long = SyntaxToken::new(
        TokenKind::Ident,
        b" a ".to_vec(),
        vec![TriviaPiece { kind: TriviaKind::Whitespace, len: 2 }],
        vec![TriviaPiece { kind: TriviaKind::Whitespace, len: 2 }],
    );
    assert!(too_long.is_none());
    let overflow = SyntaxToken::new(
        TokenKind::Ident,
        b"a".to_vec(),
        vec![
            TriviaPiece { kind: TriviaKind::Whitespace, len: usize::MAX },
            TriviaPiece { kind: TriviaKind::Whitespace, len: 1 },
        ],
        vec![],
    );
    assert!(overflow.is_none());
}
