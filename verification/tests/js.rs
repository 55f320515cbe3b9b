use syntax_core::js::{parse_expression, parse_js, parse_statement};
use syntax_core::kind::{NodeKind, TokenKind};
use syntax_core::lexer::Language;
use syntax_core::parser::{ParsedSyntax, Parser};
use syntax_core::syntax::SyntaxNode;

fn shape(node: &SyntaxNode) -> String {
    let mut out = format!("{:?}", node.kind());
    let children: Vec<String> = node
        .children()
        .iter()
        .filter_map(|child| child.as_node())
        .map(shape)
        .collect();
    if !children.is_empty() {
        out.push('(');
        out.push_str(&children.join(" "));
        out.push(')');
    }
    out
}

#[test]
fn script_round_trip() {
    let src = b"const FOO = \"FOO\", BAR = 1;\nconsole.log(FOO); f(FOO);\nels.forEach(el => { el })\nfor (const el of els) { el }\n";
    let parse = parse_js(src);
    assert_eq!(parse.tree().text().as_slice(), src);
    assert_eq!(parse.tree().kind(), NodeKind::JsModule);
    assert!(parse.diagnostics().is_empty());
}

#[test]
fn variable_statement_shape() {
    let parse = parse_js(b"const FOO = \"FOO\", BAR = 1;");
    assert!(parse.diagnostics().is_empty());
    assert_eq!(
        shape(parse.tree()),
        "JsModule(JsStatementList(JsVariableStatement(JsVariableDeclaration(\
         JsVariableDeclaratorList(\
         JsVariableDeclarator(JsIdentifierBinding JsInitializerClause(JsStringLiteralExpression)) \
         JsVariableDeclarator(JsIdentifierBinding JsInitializerClause(JsNumberLiteralExpression)))))))"
    );
    let list = parse.tree().node_at(&[0, 0, 0, 1]).unwrap();
    assert_eq!(list.child_count(), 3);
    assert_eq!(list.child_token(1).unwrap().kind(), TokenKind::Comma);
    assert_eq!(list.child_token(1).unwrap().text().as_slice(), b", ");
}

#[test]
fn call_of_a_static_member_shape() {
    let parse = parse_js(b"els.forEach(el => { el })");
    assert!(parse.diagnostics().is_empty());
    assert_eq!(
        shape(parse.tree()),
        "JsModule(JsStatementList(JsExpressionStatement(JsCallExpression(\
         JsStaticMemberExpression(JsIdentifierExpression(JsReferenceIdentifier) JsName) \
         JsCallArguments(JsCallArgumentList(JsArrowFunctionExpression(JsIdentifierBinding \
         JsBlockStatement(JsStatementList(JsExpressionStatement(\
         JsIdentifierExpression(JsReferenceIdentifier)))))))))))"
    );
}

#[test]
fn call_of_a_computed_member_shape() {
    let parse = parse_js(b"els['forEach'](x)(y)");
    assert!(parse.diagnostics().is_empty());
    assert_eq!(
        shape(parse.tree()),
        "JsModule(JsStatementList(JsExpressionStatement(JsCallExpression(JsCallExpression(\
         JsComputedMemberExpression(JsIdentifierExpression(JsReferenceIdentifier) \
         JsStringLiteralExpression) \
         JsCallArguments(JsCallArgumentList(JsIdentifierExpression(JsReferenceIdentifier)))) \
         JsCallArguments(JsCallArgumentList(JsIdentifierExpression(JsReferenceIdentifier)))))))"
    );
}

#[test]
fn for_of_shape() {
    let parse = parse_js(b"for (const el of els) { el }");
    assert!(parse.diagnostics().is_empty());
    assert_eq!(
        shape(parse.tree()),
        "JsModule(JsStatementList(JsForOfStatement(JsVariableDeclaration(\
         JsVariableDeclaratorList(JsVariableDeclarator(JsIdentifierBinding))) \
         JsIdentifierExpression(JsReferenceIdentifier) \
         JsBlockStatement(JsStatementList(JsExpressionStatement(\
         JsIdentifierExpression(JsReferenceIdentifier)))))))"
    );
}

#[test]
fn member_name_may_be_a_reserved_word() {
    let parse = parse_js(b"a.for.of");
    assert!(parse.diagnostics().is_empty());
    let outer = parse.tree().node_at(&[0, 0, 0]).unwrap();
    assert_eq!(outer.kind(), NodeKind::JsStaticMemberExpression);
    let name = outer.child_node(2).unwrap();
    assert_eq!(name.kind(), NodeKind::JsName);
    assert_eq!(name.child_token(0).unwrap().kind(), TokenKind::Ident);
    assert_eq!(name.text().as_slice(), b"of");
}

#[test]
fn parenthesized_and_arrow_expressions() {
    let parse = parse_js(b"(a)(x => y, 1);");
    assert!(parse.diagnostics().is_empty());
    assert_eq!(
        shape(parse.tree()),
        "JsModule(JsStatementList(JsExpressionStatement(JsCallExpression(\
         JsParenthesizedExpression(JsIdentifierExpression(JsReferenceIdentifier)) \
         JsCallArguments(JsCallArgumentList(\
         JsArrowFunctionExpression(JsIdentifierBinding JsIdentifierExpression(JsReferenceIdentifier)) \
         JsNumberLiteralExpression))))))"
    );
}

#[test]
fn every_script_comes_back_byte_for_byte() {
    let inputs: [&[u8]; 12] = [
        b"",
        b"  // only a comment",
        b"const",
        b"const = ;",
        b"const a = , b",
        b"for (",
        b"for (x of) }",
        b"a.(b)[",
        b"} ) ] ; ;; =>",
        b"f(a,, b",
        b"x => { y => (",
        b"'open\n\"also open",
    ];
    for src in inputs {
        let parse = parse_js(src);
        assert_eq!(parse.tree().text().as_slice(), src);
        assert_eq!(parse.tree().kind(), NodeKind::JsModule);
    }
}

#[test]
fn stray_tokens_become_bogus_statements() {
    let src = b") a";
    let parse = parse_js(src);
    assert_eq!(parse.tree().text().as_slice(), src);
    assert_eq!(parse.diagnostics().len(), 1);
    assert_eq!(parse.diagnostics()[0].message(), "Expected a statement.");
    assert_eq!(shape(parse.tree()), "JsModule(JsStatementList(JsBogusStatement))");
    let closing = parse_js(b"}\na");
    assert_eq!(
        shape(closing.tree()),
        "JsModule(JsStatementList(JsBogusStatement \
         JsExpressionStatement(JsIdentifierExpression(JsReferenceIdentifier))))"
    );
}

#[test]
fn missing_parts_are_reported_where_they_are_missing() {
    let parse = parse_js(b"const a = ;");
    assert_eq!(parse.diagnostics().len(), 1);
    assert_eq!(parse.diagnostics()[0].message(), "Expected an expression.");
    assert_eq!((parse.diagnostics()[0].range().start, parse.diagnostics()[0].range().end), (10, 11));
    let call = parse_js(b"f(a");
    assert_eq!(call.diagnostics().len(), 1);
    assert_eq!(call.diagnostics()[0].message(), "Expected `)`.");
}

#[test]
fn absent_statement_and_expression_consume_nothing() {
    let mut p = Parser::new(b") x", Language::Js);
    let before = p.remaining();
    assert_eq!(parse_expression(&mut p), ParsedSyntax::Absent);
    assert_eq!(parse_statement(&mut p), ParsedSyntax::Absent);
    assert_eq!(p.remaining(), before);
    assert!(p.finish().is_none());
}

#[test]
fn parsing_twice_gives_the_same_tree() {
    let src = b"const a = 1; f(a => { a.b['c'] }) } x";
    assert_eq!(parse_js(src).tree(), parse_js(src).tree());
    let parse = parse_js(src);
    let rendered = parse.tree().text();
    let again = parse_js(&rendered);
    assert_eq!(again.tree(), parse.tree());
    assert_eq!(again.diagnostics(), parse.diagnostics());
}
