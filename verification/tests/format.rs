use syntax_core::css::parse_css;
use syntax_core::diagnostic::{Diagnostic, Severity};
use syntax_core::format::{FormatElement, Formatter, TsTypeofType};
use syntax_core::js::parse_js;
use syntax_core::kind::{NodeKind, TokenKind, TriviaKind};
use syntax_core::syntax::{SyntaxElement, SyntaxNode, SyntaxToken, TextRange, TriviaPiece};

#[test]
fn typeof_type_is_rendered_verbatim() {
    let keyword = SyntaxToken::new(
        TokenKind::Ident,
        b"typeof ".to_vec(),
        vec![],
        vec![TriviaPiece { kind: TriviaKind::Whitespace, len: 1 }],
    )
    .unwrap();
    let name = SyntaxToken::new(TokenKind::Ident, b"x".to_vec(), vec![], vec![]).unwrap();
    let node = SyntaxNode::new(
        NodeKind::TsTypeofType,
        vec![SyntaxElement::from_token(keyword), SyntaxElement::from_token(name)],
    );
    let typed = TsTypeofType::cast(node).unwrap();
    let element = typed.to_format_element(&Formatter::new()).unwrap();
    assert_eq!(element, FormatElement::Verbatim(b"typeof x".to_vec()));
    assert_eq!(element.text().as_slice(), b"typeof x");
    assert_eq!(typed.syntax().kind(), NodeKind::TsTypeofType);
    assert!(TsTypeofType::cast(SyntaxNode::new(NodeKind::JsName, vec![])).is_none());
}

#[test]
fn verbatim_rendering_parses_back_to_the_same_tree() {
    let formatter = Formatter::new();
    for src in [&b"const a = 1; f(a => { a.b['c'] })"[..], b"const = ; ) x", b""] {
        let parse = parse_js(src);
        let rendered = formatter.format_verbatim(parse.tree());
        assert_eq!(rendered.text().as_slice(), src);
        assert_eq!(parse_js(rendered.text()).tree(), parse.tree());
    }
    for src in [&b"@color-profile --x { a: b }"[..], b"@color-profile 123 { }", b"x"] {
        let parse = parse_css(src);
        let rendered = formatter.format_verbatim(parse.tree());
        assert_eq!(parse_css(rendered.text()).tree(), parse.tree());
    }
}

#[test]
fn trimmed_text_and_ranges() {
    let parse = parse_js(b"  f ( a ) ; // t\n g");
    let root = parse.tree();
    assert_eq!(root.text_trimmed().as_slice(), b"f ( a ) ; // t\n g");
    let call = root.node_at(&[0, 0, 0]).unwrap();
    assert_eq!(call.kind(), NodeKind::JsCallExpression);
    assert_eq!(call.text().as_slice(), b"  f ( a ) ");
    assert_eq!(call.text_trimmed().as_slice(), b"f ( a )");
    assert_eq!(root.offset_at(&[0, 0, 0]), Some(0));
    assert_eq!(root.offset_at(&[0, 1]), Some(16));
    assert_eq!(root.offset_at(&[0, 9]), None);
    assert_eq!(root.trimmed_range_at(&[0, 0, 0]), Some(TextRange { start: 2, end: 9 }));
    assert_eq!(root.trimmed_range_at(&[0, 1]), Some(TextRange { start: 18, end: 19 }));
    assert_eq!(root.trimmed_range_at(&[0, 0, 1]), Some(TextRange { start: 10, end: 11 }));
    assert_eq!(root.trimmed_range_at(&[]), Some(TextRange { start: 2, end: 19 }));
    assert_eq!(root.trimmed_range_at(&[3]), None);
    assert_eq!(root.token_at(&[0, 0, 1]).unwrap().kind(), TokenKind::Semicolon);
    assert!(root.token_at(&[0, 0]).is_none());
    assert!(root.node_at(&[0, 0, 1]).is_none());
    assert!(root.token_at(&[]).is_none());
    assert_eq!(root.text_len(), 19);
    assert_eq!(root.first_token().unwrap().text_trimmed().as_slice(), b"f");
    assert_eq!(root.last_token().unwrap().kind(), TokenKind::Eof);
    assert_eq!(SyntaxNode::new(NodeKind::JsBogus, vec![]).text_trimmed().as_slice(), b"");
}

#[test]
fn cloned_tree_is_the_same_tree() {
    let parse = parse_js(b"f(a) // c");
    let copy = parse.tree().clone();
    assert_eq!(&copy, parse.tree());
    assert_eq!(copy.text(), parse.tree().text());
    let token = parse.tree().first_token().unwrap().clone();
    assert_eq!(&token, parse.tree().first_token().unwrap());
    let (kind, children) = copy.into_parts();
    assert_eq!(kind, NodeKind::JsModule);
    assert_eq!(children.len(), 2);
    assert_eq!(children[0].text_len(), 9);
    assert!(children[1].as_token().is_some());
    assert!(children[1].clone().into_node().is_none());
    assert_eq!(children[0].clone().into_node().unwrap().kind(), NodeKind::JsStatementList);
}

#[test]
fn diagnostic_is_built_step_by_step() {
    let range = TextRange { start: 1, end: 4 };
    let plain = Diagnostic::new(Severity::Information, range, "title");
    assert_eq!(plain.severity(), Severity::Information);
    assert_eq!(plain.range(), range);
    assert_eq!(plain.message(), "title");
    assert!(plain.annotations().is_empty());
    assert!(plain.footer().is_none());
    let full = Diagnostic::warning(range, "w")
        .secondary(TextRange { start: 5, end: 6 }, "first")
        .secondary(TextRange { start: 7, end: 9 }, "second")
        .footer_note("note");
    assert_eq!(full.severity(), Severity::Warning);
    assert_eq!(full.annotations().len(), 2);
    assert_eq!(full.annotations()[0].message(), "first");
    assert_eq!(full.annotations()[1].range(), TextRange { start: 7, end: 9 });
    assert_eq!(full.annotations()[0].clone(), full.annotations()[0]);
    assert_eq!(full.footer().as_deref(), Some("note"));
    assert_eq!(Diagnostic::error(range, "e").severity(), Severity::Error);
}

#[test]
fn bogus_kinds() {
    assert!(NodeKind::CssBogusAtRule.is_bogus());
    assert!(NodeKind::JsBogusStatement.is_bogus());
    assert!(!NodeKind::CssColorProfileAtRule.is_bogus());
    assert!(!NodeKind::JsModule.is_bogus());
}

#[test]
fn well_formedness_and_length_of_a_built_tree() {
    let parse = parse_js(b"a /* c */\n b");
    assert!(parse.tree().is_well_formed());
    assert_eq!(parse.tree().checked_text_len(), Some(12));
    for child in parse.tree().children() {
        assert!(child.is_well_formed());
        assert_eq!(child.checked_text_len(), Some(child.text_len()));
    }
    assert!(parse.tree().first_token().unwrap().is_well_formed());
    let twice = SyntaxNode::new(
        NodeKind::JsBogus,
        vec![
            SyntaxElement::from_node(parse.tree().clone()),
            SyntaxElement::from_node(parse.tree().clone()),
        ],
    );
    assert!(twice.is_well_formed());
    assert_eq!(twice.checked_text_len(), Some(24));
    assert_eq!(twice.text().as_slice(), b"a /* c */\n ba /* c */\n b");
}
