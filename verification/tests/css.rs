use syntax_core::css::{parse_color_profile_at_rule, parse_css, parse_custom_identifier};
use syntax_core::diagnostic::Severity;
use syntax_core::kind::{NodeKind, TokenKind};
use syntax_core::lexer::{Language, LexContext};
use syntax_core::parser::{ParsedSyntax, Parser};
use syntax_core::syntax::SyntaxNode;

fn shape(node: &SyntaxNode) -> String {
    let mut out = format!("{:?}", node.kind());
    let children: Vec<String> = node
        .children()
        .iter()
        .filter_map(|child| child.as_node())
        .map(shape)
        .collect();
    if !children.is_empty() {
        out.push('(');
        out.push_str(&children.join(" "));
        out.push(')');
    }
    out
}

#[test]
fn color_profile_round_trip() {
    let src = b"@color-profile --swop5c {\n  src: url(x);\n}\n";
    let parse = parse_css(src);
    assert_eq!(parse.tree().text().as_slice(), src);
    assert_eq!(parse.tree().kind(), NodeKind::CssRoot);
    assert!(parse.diagnostics().is_empty());
    assert_eq!(
        shape(parse.tree()),
        "CssRoot(CssRuleList(CssAtRule(CssColorProfileAtRule(CssCustomIdentifier \
         CssDeclarationListBlock(CssDeclarationList(CssDeclaration))))))"
    );
}

#[test]
fn invalid_identifier_makes_a_bogus_at_rule_with_its_block() {
    let src = b"@color-profile 123 { }";
    let parse = parse_css(src);
    assert_eq!(parse.tree().text().as_slice(), src);
    assert_eq!(parse.diagnostics().len(), 1);
    let diagnostic = &parse.diagnostics()[0];
    assert_eq!(diagnostic.severity(), Severity::Error);
    assert_eq!(diagnostic.message(), "Expected an identifier that is not a CSS-wide keyword.");
    assert_eq!((diagnostic.range().start, diagnostic.range().end), (15, 18));
    assert_eq!(
        shape(parse.tree()),
        "CssRoot(CssRuleList(CssAtRule(CssBogusAtRule(CssBogus \
         CssDeclarationListBlock(CssDeclarationList)))))"
    );
    let at_rule = parse.tree().node_at(&[0, 0, 1]).unwrap();
    assert_eq!(at_rule.kind(), NodeKind::CssBogusAtRule);
    assert_eq!(at_rule.child_node(1).unwrap().text().as_slice(), b"123 ");
    assert_eq!(at_rule.child_node(2).unwrap().kind(), NodeKind::CssDeclarationListBlock);
}

#[test]
fn css_wide_keyword_is_no_custom_identifier() {
    let src = b"@color-profile initial { }";
    let parse = parse_css(src);
    assert_eq!(parse.tree().text().as_slice(), src);
    assert_eq!(parse.diagnostics().len(), 1);
    assert_eq!(parse.tree().node_at(&[0, 0, 1]).unwrap().kind(), NodeKind::CssBogusAtRule);
    let mut p = Parser::new(b"inherit", Language::Css);
    let before = p.remaining();
    assert_eq!(parse_custom_identifier(&mut p, LexContext::Regular), ParsedSyntax::Absent);
    assert_eq!(p.remaining(), before);
}

#[test]
fn keyword_that_is_not_css_wide_can_be_a_name() {
    let parse = parse_css(b"@color-profile color-profile { }");
    assert!(parse.diagnostics().is_empty());
    let name = parse.tree().node_at(&[0, 0, 1, 1]).unwrap();
    assert_eq!(name.kind(), NodeKind::CssCustomIdentifier);
    assert_eq!(name.child_token(0).unwrap().kind(), TokenKind::Ident);
}

#[test]
fn missing_name_before_the_block_is_not_skipped_over() {
    let src = b"@color-profile { }";
    let parse = parse_css(src);
    assert_eq!(parse.tree().text().as_slice(), src);
    assert_eq!(parse.diagnostics().len(), 1);
    assert_eq!(
        shape(parse.tree()),
        "CssRoot(CssRuleList(CssAtRule(CssBogusAtRule(\
         CssDeclarationListBlock(CssDeclarationList)))))"
    );
}

#[test]
fn missing_block_makes_a_bogus_at_rule() {
    let src = b"@color-profile --a\n@color-profile --b { }";
    let parse = parse_css(src);
    assert_eq!(parse.tree().text().as_slice(), src);
    assert_eq!(parse.diagnostics().len(), 1);
    assert_eq!(parse.diagnostics()[0].message(), "Expected a declaration block.");
    assert_eq!(
        shape(parse.tree()),
        "CssRoot(CssRuleList(CssAtRule(CssBogusAtRule(CssCustomIdentifier)) \
         CssAtRule(CssColorProfileAtRule(CssCustomIdentifier \
         CssDeclarationListBlock(CssDeclarationList)))))"
    );
}

#[test]
fn absent_rule_consumes_nothing() {
    let mut p = Parser::new(b"media screen", Language::Css);
    let before = p.remaining();
    assert_eq!(parse_color_profile_at_rule(&mut p), ParsedSyntax::Absent);
    assert_eq!(p.remaining(), before);
    assert!(p.finish().is_none());
}

#[test]
fn unknown_at_rule_is_kept_in_error_nodes() {
    let src = b"@media screen { a: b }\n@color-profile --x { }";
    let parse = parse_css(src);
    assert_eq!(parse.tree().text().as_slice(), src);
    assert!(!parse.diagnostics().is_empty());
    let rules = parse.tree().child_node(0).unwrap();
    let last = rules.child_node(rules.child_count() - 1).unwrap();
    assert_eq!(last.kind(), NodeKind::CssAtRule);
    assert_eq!(last.text().as_slice(), b"\n@color-profile --x { }");
}

#[test]
fn every_input_comes_back_byte_for_byte() {
    let inputs: [&[u8]; 8] = [
        b"",
        b"\n\n",
        b"@",
        b"@color-profile",
        b"@color-profile --x {",
        b"@color-profile --x { a b; : ; c: d e f; ;; }} } @",
        b"garbage { } here",
        b"@color-profile \"x\n { /* open",
    ];
    for src in inputs {
        let parse = parse_css(src);
        assert_eq!(parse.tree().text().as_slice(), src);
        assert_eq!(parse.tree().kind(), NodeKind::CssRoot);
    }
}

#[test]
fn declarations_are_split_at_semicolons() {
    let parse = parse_css(b"@color-profile --x { a: 1 2; b: c }");
    assert!(parse.diagnostics().is_empty());
    let list = parse.tree().node_at(&[0, 0, 1, 2, 1]).unwrap();
    assert_eq!(list.kind(), NodeKind::CssDeclarationList);
    assert_eq!(list.child_node(0).unwrap().text().as_slice(), b"a: 1 2");
    assert_eq!(list.child_token(1).unwrap().kind(), TokenKind::Semicolon);
    assert_eq!(list.child_node(2).unwrap().text().as_slice(), b"b: c ");
}
