use syntax_core::kind::{NodeKind, TokenKind};
use syntax_core::lexer::{Language, LexContext};
use syntax_core::parser::{Expected, MarkerError, ParsedSyntax, Parser, RecoveryError, Outcome};
use syntax_core::recovery::{ParseRecovery, TokenSet};

#[test]
fn completing_an_outer_marker_first_is_rejected() {
    let mut p = Parser::new(b"a b", Language::Js);
    let outer = p.start();
    let inner = p.start();
    assert!(p.bump(TokenKind::Ident));
    assert_eq!(p.complete(outer, NodeKind::JsBogus), Err(MarkerError::NotInnermost));
    assert_eq!(p.complete(inner, NodeKind::JsName), Ok(()));
}

#[test]
fn abandoning_an_outer_marker_first_is_rejected() {
    let mut p = Parser::new(b"a", Language::Js);
    let outer = p.start();
    let inner = p.start();
    assert_eq!(p.abandon(outer), Err(MarkerError::NotInnermost));
    assert_eq!(p.abandon(inner), Ok(()));
}

#[test]
fn markers_close_in_reverse_order() {
    let mut p = Parser::new(b"a b", Language::Js);
    let outer = p.start();
    let inner = p.start();
    p.bump_any();
    assert_eq!(p.complete(inner, NodeKind::JsName), Ok(()));
    p.bump_any();
    p.bump_any();
    assert_eq!(p.complete(outer, NodeKind::JsModule), Ok(()));
    let parse = p.finish().unwrap();
    assert_eq!(parse.tree().kind(), NodeKind::JsModule);
    assert_eq!(parse.tree().child_count(), 3);
    assert_eq!(parse.tree().child_node(0).unwrap().kind(), NodeKind::JsName);
    assert_eq!(parse.tree().child_token(1).unwrap().kind(), TokenKind::Ident);
    assert_eq!(parse.tree().child_token(2).unwrap().kind(), TokenKind::Eof);
    assert_eq!(parse.tree().text().as_slice(), b"a b");
}

#[test]
fn abandoned_marker_hands_its_children_up() {
    let mut p = Parser::new(b"a b", Language::Js);
    let outer = p.start();
    let inner = p.start();
    p.bump_any();
    p.bump_any();
    assert_eq!(p.abandon(inner), Ok(()));
    assert_eq!(p.complete(outer, NodeKind::JsBogus), Ok(()));
    let parse = p.finish().unwrap();
    assert_eq!(parse.tree().child_count(), 2);
    assert!(parse.tree().child_token(0).is_some());
    assert!(parse.tree().child_token(1).is_some());
}

#[test]
fn bump_of_another_kind_consumes_nothing() {
    let mut p = Parser::new(b"a b", Language::Js);
    let before = p.remaining();
    assert!(!p.bump(TokenKind::Semicolon));
    assert_eq!(p.remaining(), before);
    assert!(p.at(TokenKind::Ident));
    assert!(p.bump(TokenKind::Ident));
    assert_eq!(p.remaining(), 1);
}

#[test]
fn expect_reports_what_is_missing() {
    let mut p = Parser::new(b"a", Language::Js);
    let m = p.start();
    assert!(!p.expect(TokenKind::Colon, Expected::Colon));
    p.bump_any();
    p.bump_any();
    p.complete(m, NodeKind::JsBogus).unwrap();
    let parse = p.finish().unwrap();
    assert_eq!(parse.diagnostics().len(), 1);
    assert_eq!(parse.diagnostics()[0].message(), "Expected `:`.");
    assert_eq!(parse.diagnostics()[0].range().start, 0);
    assert_eq!(parse.diagnostics()[0].range().end, 1);
}

#[test]
fn finish_needs_exactly_one_node_and_no_open_marker() {
    let mut open = Parser::new(b"a", Language::Js);
    let _m = open.start();
    assert!(open.finish().is_none());
    let empty = Parser::new(b"a", Language::Js);
    assert!(empty.finish().is_none());
    let mut token_only = Parser::new(b"a", Language::Js);
    token_only.bump_any();
    assert!(token_only.finish().is_none());
}

#[test]
fn precede_wraps_the_last_node() {
    let mut p = Parser::new(b"a.b", Language::Js);
    assert!(p.precede().is_none());
    let m = p.start();
    p.bump_any();
    p.complete(m, NodeKind::JsReferenceIdentifier).unwrap();
    let outer = p.precede().unwrap();
    p.bump_remap_with_context(TokenKind::Dot, LexContext::NoKeyword);
    p.bump_any();
    p.complete(outer, NodeKind::JsStaticMemberExpression).unwrap();
    let root = p.precede().unwrap();
    p.bump_any();
    p.complete(root, NodeKind::JsModule).unwrap();
    let parse = p.finish().unwrap();
    let member = parse.tree().child_node(0).unwrap();
    assert_eq!(member.kind(), NodeKind::JsStaticMemberExpression);
    assert_eq!(member.child_node(0).unwrap().kind(), NodeKind::JsReferenceIdentifier);
    assert_eq!(member.child_count(), 3);
}

#[test]
fn peek_looks_one_token_ahead() {
    let p = Parser::new(b"el => x", Language::Js);
    assert_eq!(p.cur(), TokenKind::Ident);
    assert_eq!(p.peek(), TokenKind::FatArrow);
}

#[test]
fn recovery_skips_to_the_resumption_point() {
    let mut p = Parser::new(b"1 2 { }", Language::Css);
    let m = p.start();
    let recovery = ParseRecovery::new(NodeKind::CssBogus, TokenSet::new().with(TokenKind::LCurly));
    let before = p.remaining();
    assert_eq!(recovery.recover(&mut p), Ok(()));
    assert!(p.remaining() < before);
    assert!(p.at(TokenKind::LCurly));
    while !p.at(TokenKind::Eof) {
        p.bump_any();
    }
    p.bump_any();
    p.complete(m, NodeKind::CssRoot).unwrap();
    let parse = p.finish().unwrap();
    let bogus = parse.tree().child_node(0).unwrap();
    assert_eq!(bogus.kind(), NodeKind::CssBogus);
    assert_eq!(bogus.text().as_slice(), b"1 2 ");
    assert_eq!(parse.tree().text().as_slice(), b"1 2 { }");
}

#[test]
fn recovery_consumes_nothing_where_parsing_can_resume() {
    let mut p = Parser::new(b"{ }", Language::Css);
    let recovery = ParseRecovery::new(NodeKind::CssBogus, TokenSet::new().with(TokenKind::LCurly));
    let before = p.remaining();
    assert_eq!(recovery.recover(&mut p), Err(RecoveryError::AlreadyRecovered));
    assert_eq!(p.remaining(), before);
    assert!(p.finish().is_none());
}

#[test]
fn recovery_consumes_nothing_at_the_end() {
    let mut p = Parser::new(b"  ", Language::Css);
    let recovery = ParseRecovery::new(NodeKind::CssBogus, TokenSet::new());
    assert_eq!(recovery.recover(&mut p), Err(RecoveryError::Eof));
    assert_eq!(p.remaining(), 2);
}

#[test]
fn recovery_stops_at_a_line_break_when_asked_to() {
    let src = b"1 2\n3";
    let mut stops = Parser::new(src, Language::Css);
    let on_break = ParseRecovery::new(NodeKind::CssBogus, TokenSet::new())
        .enable_recovery_on_line_break();
    assert_eq!(on_break.recover(&mut stops), Ok(()));
    assert_eq!(stops.remaining(), 2);
    assert_eq!(on_break.recover(&mut stops), Err(RecoveryError::AlreadyRecovered));
    let mut runs_on = Parser::new(src, Language::Css);
    let plain = ParseRecovery::new(NodeKind::CssBogus, TokenSet::new());
    assert_eq!(plain.recover(&mut runs_on), Ok(()));
    assert_eq!(runs_on.remaining(), 0);
}

#[test]
fn or_recover_leaves_a_present_construct_alone() {
    let mut p = Parser::new(b"1", Language::Css);
    let recovery = ParseRecovery::new(NodeKind::CssBogus, TokenSet::new());
    let outcome = ParsedSyntax::Present.or_recover(&mut p, &recovery, Expected::Rule);
    assert_eq!(outcome, Ok(Outcome::Matched));
    assert_eq!(p.remaining(), 1);
    let outcome = ParsedSyntax::Absent.or_recover(&mut p, &recovery, Expected::Rule);
    assert_eq!(outcome, Ok(Outcome::Bogus));
    assert_eq!(p.remaining(), 0);
    let outcome = ParsedSyntax::Absent.or_recover(&mut p, &recovery, Expected::Rule);
    assert_eq!(outcome, Err(RecoveryError::Eof));
}

#[test]
fn token_set_holds_what_was_put_in() {
    let set = TokenSet::new().with(TokenKind::LCurly).with(TokenKind::At);
    assert!(set.contains(TokenKind::LCurly));
    assert!(set.contains(TokenKind::At));
    assert!(!set.contains(TokenKind::RCurly));
    assert!(!TokenSet::new().contains(TokenKind::At));
}
