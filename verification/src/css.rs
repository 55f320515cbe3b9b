//! The style-sheet grammar: a list of at-rules, of which `@color-profile`
//! is understood, each with a block of declarations.
//!
//! Every construct is given twice: as a function on the mathematical state
//! of the parser, which says what the construct is, and as the procedure
//! that carries it out.

use vstd::prelude::*;
use crate::kind::{NodeKind, TokenKind};
use crate::lexer::{Language, LexContext};
use crate::parser::{
    lemma_bump_wf, lemma_close, lemma_eat_wf, lemma_expect_wf, lemma_init_wf, lemma_start_wf,
    lemma_wf_bounds, Expected, Outcome, Parse, ParseView, ParsedSyntax, Parser, ParserView,
    RecoveryError,
};
use crate::recovery::{lemma_or_recover, or_recover, ParseRecovery, RecoveryView, TokenSet};
use crate::syntax::lemma_forest_text_single;

verus! {

/// Recovery inside `@color-profile`, where the name is missing: skip to
/// the block or to the end of the line.
pub open spec fn color_profile_recovery() -> RecoveryView {
    RecoveryView {
        node_kind: NodeKind::CssBogus,
        set: Set::<TokenKind>::empty().insert(TokenKind::LCurly),
        line_break: true,
    }
}

/// Recovery where a block is missing: skip to the next at-rule or to the
/// end of the line.
pub open spec fn block_recovery() -> RecoveryView {
    RecoveryView {
        node_kind: NodeKind::CssBogusBlock,
        set: Set::<TokenKind>::empty().insert(TokenKind::At),
        line_break: true,
    }
}

/// Recovery inside a block: skip to the end of the declaration or of the
/// block.
pub open spec fn declaration_recovery() -> RecoveryView {
    RecoveryView {
        node_kind: NodeKind::CssBogus,
        set: Set::<TokenKind>::empty().insert(TokenKind::Semicolon).insert(TokenKind::RCurly),
        line_break: false,
    }
}

/// Recovery after `@`, where the rule is not known: skip to its block or
/// to the end of the line.
pub open spec fn at_rule_recovery() -> RecoveryView {
    RecoveryView {
        node_kind: NodeKind::CssBogus,
        set: Set::<TokenKind>::empty().insert(TokenKind::LCurly).insert(TokenKind::At),
        line_break: true,
    }
}

/// Recovery between rules: skip to the next at-rule.
pub open spec fn rule_recovery() -> RecoveryView {
    RecoveryView {
        node_kind: NodeKind::CssBogusRule,
        set: Set::<TokenKind>::empty().insert(TokenKind::At),
        line_break: false,
    }
}

/// Whether the cursor is at a word that can serve as an identifier: a
/// plain word, or a keyword that is not one of the CSS-wide ones.
pub open spec fn at_identifier(s: ParserView) -> bool {
    s.at(TokenKind::Ident) || s.at(TokenKind::ColorProfileKw)
}

/// A custom identifier: one word, kept as a plain identifier.
pub open spec fn custom_identifier(s: ParserView, ctx: LexContext) -> (ParserView, ParsedSyntax) {
    if !at_identifier(s) {
        (s, ParsedSyntax::Absent)
    } else {
        (
            s.start().bump_as(TokenKind::Ident, ctx).complete(NodeKind::CssCustomIdentifier),
            ParsedSyntax::Present,
        )
    }
}

/// The value of a declaration: every token up to `;`, `}` or the end.
pub open spec fn declaration_value(s: ParserView) -> ParserView
    decreases s.remaining(),
{
    if s.at(TokenKind::Semicolon) || s.at(TokenKind::RCurly) || s.at(TokenKind::Eof)
        || s.bump().remaining() >= s.remaining() {
        s
    } else {
        declaration_value(s.bump())
    }
}

/// A declaration: a property name, `:` and a value.
pub open spec fn declaration(s: ParserView) -> (ParserView, ParsedSyntax) {
    if !s.at(TokenKind::Ident) {
        (s, ParsedSyntax::Absent)
    } else {
        (
            declaration_value(
                s.start().bump().expect(TokenKind::Colon, Expected::Colon),
            ).complete(NodeKind::CssDeclaration),
            ParsedSyntax::Present,
        )
    }
}

/// One entry of a declaration list: a declaration, or what recovery makes
/// of its absence, and the `;` after it.
pub open spec fn declaration_entry(s: ParserView) -> ParserView {
    let (s1, parsed) = declaration(s);
    or_recover(s1, parsed, declaration_recovery(), Expected::Declaration).0.eat(
        TokenKind::Semicolon,
    )
}

/// The entries of a declaration list, up to `}` or the end.
pub open spec fn declaration_entries(s: ParserView) -> ParserView
    decreases s.remaining(),
{
    if s.at(TokenKind::RCurly) || s.at(TokenKind::Eof) || declaration_entry(s).remaining()
        >= s.remaining() {
        s
    } else {
        declaration_entries(declaration_entry(s))
    }
}

/// A block of declarations between braces.
pub open spec fn declaration_list_block(s: ParserView) -> (ParserView, ParsedSyntax) {
    if !s.at(TokenKind::LCurly) {
        (s, ParsedSyntax::Absent)
    } else {
        (
            declaration_entries(s.start().bump().start()).complete(
                NodeKind::CssDeclarationList,
            ).expect(TokenKind::RCurly, Expected::ClosingBrace).complete(
                NodeKind::CssDeclarationListBlock,
            ),
            ParsedSyntax::Present,
        )
    }
}

/// A required block of declarations.
pub open spec fn declaration_list_block_or_recover(s: ParserView) -> (
    ParserView,
    Result<Outcome, RecoveryError>,
) {
    let (s1, parsed) = declaration_list_block(s);
    or_recover(s1, parsed, block_recovery(), Expected::DeclarationBlock)
}

/// The kind under which `@color-profile` is finished: its own kind where
/// the name was parsed as it stands and a block was found or recovered,
/// the error kind otherwise.
pub open spec fn color_profile_kind(
    name: Result<Outcome, RecoveryError>,
    block: Result<Outcome, RecoveryError>,
) -> NodeKind {
    if name == Ok::<Outcome, RecoveryError>(Outcome::Matched) && block is Ok {
        NodeKind::CssColorProfileAtRule
    } else {
        NodeKind::CssBogusAtRule
    }
}

/// The `color-profile` rule after `@`: the keyword, a name and a block of
/// declarations. A missing name does not stop the block from being parsed.
pub open spec fn color_profile_at_rule(s: ParserView) -> (ParserView, ParsedSyntax) {
    if !s.at(TokenKind::ColorProfileKw) {
        (s, ParsedSyntax::Absent)
    } else {
        let (s1, name) = custom_identifier(s.start().bump(), LexContext::Regular);
        let (s2, named) = or_recover(
            s1,
            name,
            color_profile_recovery(),
            Expected::NonCssWideKeywordIdentifier,
        );
        let (s3, block) = declaration_list_block_or_recover(s2);
        (s3.complete(color_profile_kind(named, block)), ParsedSyntax::Present)
    }
}

/// An at-rule: `@` and a rule that is understood, or the error node that
/// recovery makes of one that is not.
pub open spec fn at_rule(s: ParserView) -> (ParserView, ParsedSyntax) {
    if !s.at(TokenKind::At) {
        (s, ParsedSyntax::Absent)
    } else {
        let (s1, rule) = color_profile_at_rule(s.start().bump());
        let (s2, outcome) = or_recover(s1, rule, at_rule_recovery(), Expected::AtRule);
        (
            s2.complete(
                if outcome == Ok::<Outcome, RecoveryError>(Outcome::Matched) {
                    NodeKind::CssAtRule
                } else {
                    NodeKind::CssBogusRule
                },
            ),
            ParsedSyntax::Present,
        )
    }
}

/// One entry of the rule list: a rule, or what recovery makes of whatever
/// stands in its place.
pub open spec fn rule_entry(s: ParserView) -> ParserView {
    let (s1, parsed) = at_rule(s);
    or_recover(s1, parsed, rule_recovery(), Expected::Rule).0
}

/// The rules of a style sheet, up to the end of the input.
pub open spec fn rule_entries(s: ParserView) -> ParserView
    decreases s.remaining(),
{
    if s.at(TokenKind::Eof) || rule_entry(s).remaining() >= s.remaining() {
        s
    } else {
        rule_entries(rule_entry(s))
    }
}

/// A whole style sheet: the rule list and the end of the input.
pub open spec fn root(s: ParserView) -> ParserView {
    rule_entries(s.start().start()).complete(NodeKind::CssRuleList).bump().complete(
        NodeKind::CssRoot,
    )
}

/// What parsing a style sheet yields.
pub open spec fn css_parse(source: Seq<u8>) -> ParseView {
    let s = root(ParserView::init(source, Language::Css));
    ParseView { tree: s.buffer[0], diagnostics: s.diagnostics }
}

/// A custom identifier leaves a well-formed state behind.
pub proof fn lemma_custom_identifier(s: ParserView, ctx: LexContext)
    requires
        s.wf(),
    ensures
        custom_identifier(s, ctx).0.wf(),
        custom_identifier(s, ctx).0.follows(s),
{
    if at_identifier(s) {
        lemma_start_wf(s);
        lemma_bump_wf(s.start(), TokenKind::Ident, ctx);
        lemma_close(s, s.start().bump_as(TokenKind::Ident, ctx), NodeKind::CssCustomIdentifier);
    }
}

/// The value of a declaration leaves a well-formed state behind.
pub proof fn lemma_declaration_value(s: ParserView)
    requires
        s.wf(),
    ensures
        declaration_value(s).wf(),
        declaration_value(s).follows(s),
    decreases s.remaining(),
{
    if !(s.at(TokenKind::Semicolon) || s.at(TokenKind::RCurly) || s.at(TokenKind::Eof)
        || s.bump().remaining() >= s.remaining()) {
        lemma_bump_wf(s, s.current().kind, LexContext::Regular);
        lemma_declaration_value(s.bump());
    }
}

/// A declaration leaves a well-formed state behind.
pub proof fn lemma_declaration(s: ParserView)
    requires
        s.wf(),
    ensures
        declaration(s).0.wf(),
        declaration(s).0.follows(s),
{
    if s.at(TokenKind::Ident) {
        lemma_start_wf(s);
        lemma_bump_wf(s.start(), s.start().current().kind, LexContext::Regular);
        let named = s.start().bump();
        lemma_expect_wf(named, TokenKind::Colon, Expected::Colon);
        let head = named.expect(TokenKind::Colon, Expected::Colon);
        lemma_declaration_value(head);
        lemma_close(s, declaration_value(head), NodeKind::CssDeclaration);
    }
}

/// An entry of a declaration list leaves a well-formed state behind.
pub proof fn lemma_declaration_entry(s: ParserView)
    requires
        s.wf(),
    ensures
        declaration_entry(s).wf(),
        declaration_entry(s).follows(s),
{
    lemma_declaration(s);
    let (s1, parsed) = declaration(s);
    lemma_or_recover(s1, parsed, declaration_recovery(), Expected::Declaration);
    lemma_eat_wf(
        or_recover(s1, parsed, declaration_recovery(), Expected::Declaration).0,
        TokenKind::Semicolon,
    );
}

/// The entries of a declaration list leave a well-formed state behind.
pub proof fn lemma_declaration_entries(s: ParserView)
    requires
        s.wf(),
    ensures
        declaration_entries(s).wf(),
        declaration_entries(s).follows(s),
    decreases s.remaining(),
{
    lemma_declaration_entry(s);
    if !(s.at(TokenKind::RCurly) || s.at(TokenKind::Eof) || declaration_entry(s).remaining()
        >= s.remaining()) {
        lemma_declaration_entries(declaration_entry(s));
    }
}

/// A block of declarations leaves a well-formed state behind.
pub proof fn lemma_declaration_list_block(s: ParserView)
    requires
        s.wf(),
    ensures
        declaration_list_block(s).0.wf(),
        declaration_list_block(s).0.follows(s),
{
    if s.at(TokenKind::LCurly) {
        lemma_start_wf(s);
        lemma_bump_wf(s.start(), s.start().current().kind, LexContext::Regular);
        let opened = s.start().bump();
        lemma_start_wf(opened);
        lemma_declaration_entries(opened.start());
        lemma_close(opened, declaration_entries(opened.start()), NodeKind::CssDeclarationList);
        let listed = declaration_entries(opened.start()).complete(NodeKind::CssDeclarationList);
        lemma_expect_wf(listed, TokenKind::RCurly, Expected::ClosingBrace);
        lemma_close(
            s,
            listed.expect(TokenKind::RCurly, Expected::ClosingBrace),
            NodeKind::CssDeclarationListBlock,
        );
    }
}

/// A required block of declarations leaves a well-formed state behind.
pub proof fn lemma_declaration_list_block_or_recover(s: ParserView)
    requires
        s.wf(),
    ensures
        declaration_list_block_or_recover(s).0.wf(),
        declaration_list_block_or_recover(s).0.follows(s),
{
    lemma_declaration_list_block(s);
    let (s1, parsed) = declaration_list_block(s);
    lemma_or_recover(s1, parsed, block_recovery(), Expected::DeclarationBlock);
}

/// The `color-profile` rule leaves a well-formed state behind.
pub proof fn lemma_color_profile_at_rule(s: ParserView)
    requires
        s.wf(),
    ensures
        color_profile_at_rule(s).0.wf(),
        color_profile_at_rule(s).0.follows(s),
{
    if s.at(TokenKind::ColorProfileKw) {
        lemma_start_wf(s);
        lemma_bump_wf(s.start(), s.start().current().kind, LexContext::Regular);
        let head = s.start().bump();
        lemma_custom_identifier(head, LexContext::Regular);
        let (s1, name) = custom_identifier(head, LexContext::Regular);
        lemma_or_recover(
            s1,
            name,
            color_profile_recovery(),
            Expected::NonCssWideKeywordIdentifier,
        );
        let (s2, named) = or_recover(
            s1,
            name,
            color_profile_recovery(),
            Expected::NonCssWideKeywordIdentifier,
        );
        lemma_declaration_list_block_or_recover(s2);
        let (s3, block) = declaration_list_block_or_recover(s2);
        lemma_close(s, s3, color_profile_kind(named, block));
    }
}

/// An at-rule leaves a well-formed state behind.
pub proof fn lemma_at_rule(s: ParserView)
    requires
        s.wf(),
    ensures
        at_rule(s).0.wf(),
        at_rule(s).0.follows(s),
        at_rule(s).1 == ParsedSyntax::Present <==> s.at(TokenKind::At),
        at_rule(s).1 == ParsedSyntax::Present ==> at_rule(s).0.remaining() < s.remaining(),
        at_rule(s).1 == ParsedSyntax::Absent ==> at_rule(s).0 == s,
{
    if s.at(TokenKind::At) {
        lemma_start_wf(s);
        lemma_bump_wf(s.start(), s.start().current().kind, LexContext::Regular);
        let head = s.start().bump();
        lemma_color_profile_at_rule(head);
        let (s1, rule) = color_profile_at_rule(head);
        lemma_or_recover(s1, rule, at_rule_recovery(), Expected::AtRule);
        let (s2, outcome) = or_recover(s1, rule, at_rule_recovery(), Expected::AtRule);
        lemma_close(
            s,
            s2,
            if outcome == Ok::<Outcome, RecoveryError>(Outcome::Matched) {
                NodeKind::CssAtRule
            } else {
                NodeKind::CssBogusRule
            },
        );
    }
}

/// The rules of a style sheet leave a well-formed state behind, at the
/// end of the input.
pub proof fn lemma_rule_entries(s: ParserView)
    requires
        s.wf(),
    ensures
        rule_entries(s).wf(),
        rule_entries(s).follows(s),
        rule_entries(s).at(TokenKind::Eof),
    decreases s.remaining(),
{
    lemma_at_rule(s);
    let (s1, parsed) = at_rule(s);
    lemma_or_recover(s1, parsed, rule_recovery(), Expected::Rule);
    if !s.at(TokenKind::Eof) {
        assert(rule_entry(s).remaining() < s.remaining());
        lemma_rule_entries(rule_entry(s));
    }
}

/// The tree of a style sheet covers the whole input, byte for byte,
/// whatever the input is.
pub proof fn lemma_css_parse_lossless(source: Seq<u8>)
    requires
        source.len() <= usize::MAX,
    ensures
        css_parse(source).tree.text() == source,
        css_parse(source).tree.wf(),
        css_parse(source).tree.is_node_of(NodeKind::CssRoot),
{
    let s = ParserView::init(source, Language::Css);
    lemma_init_wf(source, Language::Css);
    lemma_start_wf(s);
    lemma_start_wf(s.start());
    lemma_rule_entries(s.start().start());
    let listed = rule_entries(s.start().start());
    lemma_close(s.start(), listed, NodeKind::CssRuleList);
    let closed = listed.complete(NodeKind::CssRuleList);
    lemma_bump_wf(closed, closed.current().kind, LexContext::Regular);
    lemma_close(s, closed.bump(), NodeKind::CssRoot);
    let done = closed.bump().complete(NodeKind::CssRoot);
    lemma_wf_bounds(done);
    assert(done.buffer =~= seq![done.buffer[0]]);
    lemma_forest_text_single(done.buffer[0]);
    assert(source.subrange(0, source.len() as int) =~= source);
}

/// Parsing what a parsed style sheet renders to, verbatim, yields the
/// same tree and the same diagnostics again.
pub proof fn lemma_css_reparse(source: Seq<u8>)
    requires
        source.len() <= usize::MAX,
    ensures
        css_parse(css_parse(source).tree.text()) == css_parse(source),
{
    lemma_css_parse_lossless(source);
}

/// Whether the cursor is at a word that can serve as an identifier.
pub fn is_at_identifier(p: &Parser) -> (b: bool)
    requires
        p.wf(),
    ensures
        b == at_identifier(p@),
{
    p.at(TokenKind::Ident) || p.at(TokenKind::ColorProfileKw)
}

/// Parses a custom identifier; the token after it is classified in `ctx`.
pub fn parse_custom_identifier(p: &mut Parser, ctx: LexContext) -> (parsed: ParsedSyntax)
    requires
        old(p).wf(),
    ensures
        final(p).wf(),
        (final(p)@, parsed) == custom_identifier(old(p)@, ctx),
        final(p)@.follows(old(p)@),
        parsed == ParsedSyntax::Present ==> final(p)@.remaining() < old(p)@.remaining(),
        parsed == ParsedSyntax::Absent ==> final(p)@ == old(p)@,
{
    if !is_at_identifier(p) {
        return ParsedSyntax::Absent;
    }
    let m = p.start();
    p.bump_remap_with_context(TokenKind::Ident, ctx);
    let _ = p.complete(m, NodeKind::CssCustomIdentifier);
    proof {
        assert(p@.open =~= old(p)@.open);
    }
    ParsedSyntax::Present
}

/// Parses a declaration.
pub fn parse_declaration(p: &mut Parser) -> (parsed: ParsedSyntax)
    requires
        old(p).wf(),
    ensures
        final(p).wf(),
        (final(p)@, parsed) == declaration(old(p)@),
        final(p)@.follows(old(p)@),
        parsed == ParsedSyntax::Present ==> final(p)@.remaining() < old(p)@.remaining(),
        parsed == ParsedSyntax::Absent ==> final(p)@ == old(p)@,
{
    if !p.at(TokenKind::Ident) {
        return ParsedSyntax::Absent;
    }
    let m = p.start();
    p.bump_any();
    p.expect(TokenKind::Colon, Expected::Colon);
    let ghost entry = p@;
    while !(p.at(TokenKind::Semicolon) || p.at(TokenKind::RCurly) || p.at(TokenKind::Eof))
        invariant
            p.wf(),
            p@.follows(entry),
            p@.innermost(m.depth(), m.start()),
            declaration_value(entry) == declaration_value(p@),
        decreases p@.remaining(),
    {
        p.bump_any();
    }
    let _ = p.complete(m, NodeKind::CssDeclaration);
    proof {
        assert(p@.open =~= old(p)@.open);
    }
    ParsedSyntax::Present
}

/// Parses the entries of a declaration list.
fn parse_declaration_entries(p: &mut Parser)
    requires
        old(p).wf(),
    ensures
        final(p).wf(),
        final(p)@ == declaration_entries(old(p)@),
        final(p)@.follows(old(p)@),
{
    let set = TokenSet::new().with(TokenKind::Semicolon).with(TokenKind::RCurly);
    let recovery = ParseRecovery::new(NodeKind::CssBogus, set);
    while !(p.at(TokenKind::RCurly) || p.at(TokenKind::Eof))
        invariant
            p.wf(),
            p@.follows(old(p)@),
            recovery@ == declaration_recovery(),
            declaration_entries(old(p)@) == declaration_entries(p@),
        decreases p@.remaining(),
    {
        let parsed = parse_declaration(p);
        let _ = parsed.or_recover(p, &recovery, Expected::Declaration);
        p.bump(TokenKind::Semicolon);
    }
}

/// Parses a block of declarations between braces.
pub fn parse_declaration_list_block(p: &mut Parser) -> (parsed: ParsedSyntax)
    requires
        old(p).wf(),
    ensures
        final(p).wf(),
        (final(p)@, parsed) == declaration_list_block(old(p)@),
        final(p)@.follows(old(p)@),
        parsed == ParsedSyntax::Present ==> final(p)@.remaining() < old(p)@.remaining(),
        parsed == ParsedSyntax::Absent ==> final(p)@ == old(p)@,
{
    if !p.at(TokenKind::LCurly) {
        return ParsedSyntax::Absent;
    }
    let m = p.start();
    p.bump_any();
    let list = p.start();
    parse_declaration_entries(p);
    let _ = p.complete(list, NodeKind::CssDeclarationList);
    p.expect(TokenKind::RCurly, Expected::ClosingBrace);
    let _ = p.complete(m, NodeKind::CssDeclarationListBlock);
    proof {
        assert(p@.open =~= old(p)@.open);
    }
    ParsedSyntax::Present
}

/// Parses a required block of declarations: where none starts at the
/// cursor, that is reported and recovery runs.
pub fn parse_or_recover_declaration_list_block(p: &mut Parser) -> (result: Result<
    Outcome,
    RecoveryError,
>)
    requires
        old(p).wf(),
    ensures
        final(p).wf(),
        (final(p)@, result) == declaration_list_block_or_recover(old(p)@),
        final(p)@.follows(old(p)@),
{
    let parsed = parse_declaration_list_block(p);
    let recovery = ParseRecovery::new(
        NodeKind::CssBogusBlock,
        TokenSet::new().with(TokenKind::At),
    ).enable_recovery_on_line_break();
    parsed.or_recover(p, &recovery, Expected::DeclarationBlock)
}

/// Whether the `color-profile` rule starts at the cursor.
pub fn is_color_profile_at_rule(p: &Parser) -> (b: bool)
    requires
        p.wf(),
    ensures
        b == p@.at(TokenKind::ColorProfileKw),
{
    p.at(TokenKind::ColorProfileKw)
}

/// Parses the `color-profile` rule. Absent, with nothing consumed, unless
/// the cursor is at its keyword. Otherwise one node is finished: of the
/// rule's own kind where its name and a block were found, of the error
/// kind where the name is missing or no block could be had.
pub fn parse_color_profile_at_rule(p: &mut Parser) -> (parsed: ParsedSyntax)
    requires
        old(p).wf(),
    ensures
        final(p).wf(),
        (final(p)@, parsed) == color_profile_at_rule(old(p)@),
        final(p)@.follows(old(p)@),
        parsed == ParsedSyntax::Present <==> old(p)@.at(TokenKind::ColorProfileKw),
        parsed == ParsedSyntax::Present ==> final(p)@.remaining() < old(p)@.remaining(),
        parsed == ParsedSyntax::Absent ==> final(p)@ == old(p)@,
{
    if !is_color_profile_at_rule(p) {
        return ParsedSyntax::Absent;
    }
    let m = p.start();
    p.bump(TokenKind::ColorProfileKw);
    let recovery = ParseRecovery::new(
        NodeKind::CssBogus,
        TokenSet::new().with(TokenKind::LCurly),
    ).enable_recovery_on_line_break();
    let named = parse_custom_identifier(p, LexContext::Regular).or_recover(
        p,
        &recovery,
        Expected::NonCssWideKeywordIdentifier,
    );
    let kind = match named {
        Ok(Outcome::Matched) => NodeKind::CssColorProfileAtRule,
        _ => NodeKind::CssBogusAtRule,
    };
    if parse_or_recover_declaration_list_block(p).is_err() {
        let _ = p.complete(m, NodeKind::CssBogusAtRule);
        proof {
            assert(p@.open =~= old(p)@.open);
        }
        return ParsedSyntax::Present;
    }
    let _ = p.complete(m, kind);
    proof {
        assert(p@.open =~= old(p)@.open);
    }
    ParsedSyntax::Present
}

/// Parses an at-rule.
pub fn parse_at_rule(p: &mut Parser) -> (parsed: ParsedSyntax)
    requires
        old(p).wf(),
    ensures
        final(p).wf(),
        (final(p)@, parsed) == at_rule(old(p)@),
        final(p)@.follows(old(p)@),
        parsed == ParsedSyntax::Present ==> final(p)@.remaining() < old(p)@.remaining(),
        parsed == ParsedSyntax::Absent ==> final(p)@ == old(p)@,
{
    if !p.at(TokenKind::At) {
        return ParsedSyntax::Absent;
    }
    let m = p.start();
    p.bump_any();
    let recovery = ParseRecovery::new(
        NodeKind::CssBogus,
        TokenSet::new().with(TokenKind::LCurly).with(TokenKind::At),
    ).enable_recovery_on_line_break();
    let outcome = parse_color_profile_at_rule(p).or_recover(p, &recovery, Expected::AtRule);
    let kind = match outcome {
        Ok(Outcome::Matched) => NodeKind::CssAtRule,
        _ => NodeKind::CssBogusRule,
    };
    let _ = p.complete(m, kind);
    proof {
        assert(p@.open =~= old(p)@.open);
    }
    ParsedSyntax::Present
}

/// Parses the rules of a style sheet.
fn parse_rule_entries(p: &mut Parser)
    requires
        old(p).wf(),
    ensures
        final(p).wf(),
        final(p)@ == rule_entries(old(p)@),
        final(p)@.follows(old(p)@),
        final(p)@.at(TokenKind::Eof),
{
    let recovery = ParseRecovery::new(NodeKind::CssBogusRule, TokenSet::new().with(TokenKind::At));
    while !p.at(TokenKind::Eof)
        invariant
            p.wf(),
            p@.follows(old(p)@),
            recovery@ == rule_recovery(),
            rule_entries(old(p)@) == rule_entries(p@),
        decreases p@.remaining(),
    {
        let parsed = parse_at_rule(p);
        let _ = parsed.or_recover(p, &recovery, Expected::Rule);
    }
}

/// Parses a style sheet. The tree covers the whole input, byte for byte,
/// whatever the input is.
pub fn parse_css(source: &[u8]) -> (parse: Parse)
    ensures
        parse@ == css_parse(source@),
        parse@.tree.text() == source@,
        parse@.tree.text().len() <= usize::MAX,
        parse@.tree.wf(),
        parse@.tree.is_node_of(NodeKind::CssRoot),
{
    let mut p = Parser::new(source, Language::Css);
    let m = p.start();
    let list = p.start();
    parse_rule_entries(&mut p);
    let _ = p.complete(list, NodeKind::CssRuleList);
    p.bump_any();
    let _ = p.complete(m, NodeKind::CssRoot);
    proof {
        assert(source@.subrange(0, source@.len() as int) =~= source@);
        assert(source@.len() == source.len());
    }
    match p.finish() {
        Some(parse) => parse,
        None => vstd::pervasive::unreached(),
    }
}

} // verus!
