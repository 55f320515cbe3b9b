//! The parser's state and its primitive operations: the token cursor and
//! the marker-based tree builder.
//!
//! Tokens are appended to an output buffer as they are consumed. A marker
//! remembers a position in that buffer; completing the innermost marker
//! folds everything appended since into one node. Markers close in the
//! reverse order of their opening, and an attempt to close any other than
//! the innermost is rejected.

use vstd::prelude::*;
use crate::diagnostic::{diagnostics_view, Diagnostic, DiagnosticView, Severity};
use crate::kind::{NodeKind, TokenKind};
use crate::lexer::{lemma_lex, lex, lex_token, Language, LexContext};
use crate::syntax::{
    elements_view, forest_text, forest_wf, has_newline, lemma_elements_view,
    lemma_elements_view_push, lemma_elements_view_subrange, lemma_forest_text_concat,
    lemma_forest_text_push, lemma_forest_text_single, SyntaxElement, SyntaxNode,
    SyntaxToken, TextRange, TokenView, Tree,
};

verus! {

/// What a construct looked for and did not find.
#[derive(Clone, Copy, Debug, PartialEq, Eq, Structural)]
pub enum Expected {
    NonCssWideKeywordIdentifier,
    AtRule,
    Rule,
    DeclarationBlock,
    Declaration,
    Colon,
    ClosingBrace,
    ClosingParen,
    ClosingBracket,
    OpeningParen,
    Identifier,
    OfKeyword,
    Expression,
    Statement,
}

impl Expected {
    /// The text of the diagnostic that reports the missing construct.
    pub open spec fn message_spec(self) -> Seq<char> {
        match self {
            Expected::NonCssWideKeywordIdentifier => "Expected an identifier that is not a CSS-wide keyword."@,
            Expected::AtRule => "Expected an at-rule."@,
            Expected::Rule => "Expected a rule."@,
            Expected::DeclarationBlock => "Expected a declaration block."@,
            Expected::Declaration => "Expected a declaration."@,
            Expected::Colon => "Expected `:`."@,
            Expected::ClosingBrace => "Expected `}`."@,
            Expected::ClosingParen => "Expected `)`."@,
            Expected::ClosingBracket => "Expected `]`."@,
            Expected::OpeningParen => "Expected `(`."@,
            Expected::Identifier => "Expected an identifier."@,
            Expected::OfKeyword => "Expected `of`."@,
            Expected::Expression => "Expected an expression."@,
            Expected::Statement => "Expected a statement."@,
        }
    }

    /// The text of the diagnostic that reports the missing construct.
    pub fn message(self) -> (text: &'static str)
        ensures
            text@ == self.message_spec(),
    {
        match self {
            Expected::NonCssWideKeywordIdentifier => "Expected an identifier that is not a CSS-wide keyword.",
            Expected::AtRule => "Expected an at-rule.",
            Expected::Rule => "Expected a rule.",
            Expected::DeclarationBlock => "Expected a declaration block.",
            Expected::Declaration => "Expected a declaration.",
            Expected::Colon => "Expected `:`.",
            Expected::ClosingBrace => "Expected `}`.",
            Expected::ClosingParen => "Expected `)`.",
            Expected::ClosingBracket => "Expected `]`.",
            Expected::OpeningParen => "Expected `(`.",
            Expected::Identifier => "Expected an identifier.",
            Expected::OfKeyword => "Expected `of`.",
            Expected::Expression => "Expected an expression.",
            Expected::Statement => "Expected a statement.",
        }
    }
}

/// Whether a construct was found at the cursor.
#[derive(Clone, Copy, Debug, PartialEq, Eq, Structural)]
pub enum ParsedSyntax {
    /// The construct was parsed and one node was finished for it.
    Present,
    /// Nothing was consumed; the caller may try something else.
    Absent,
}

/// Why recovery did not skip anything.
#[derive(Clone, Copy, Debug, PartialEq, Eq, Structural)]
pub enum RecoveryError {
    /// The cursor is at the end of the input.
    Eof,
    /// The cursor already stands at a point where parsing can resume.
    AlreadyRecovered,
}

/// How a required construct came out.
#[derive(Clone, Copy, Debug, PartialEq, Eq, Structural)]
pub enum Outcome {
    /// It was parsed as it stands.
    Matched,
    /// It was missing, and the tokens up to the next resumption point were
    /// wrapped in an error node.
    Bogus,
}

/// Why a marker could not be closed.
#[derive(Clone, Copy, Debug, PartialEq, Eq, Structural)]
pub enum MarkerError {
    /// The marker is not the innermost open one.
    NotInnermost,
}

/// The mathematical value of the parser's state.
pub struct ParserView {
    pub source: Seq<u8>,
    pub language: Language,
    /// Where the next token starts.
    pub pos: nat,
    /// The context in which the next token is classified.
    pub context: LexContext,
    /// What has been built so far.
    pub buffer: Seq<Tree>,
    /// The buffer positions of the open markers, outermost first.
    pub open: Seq<nat>,
    pub diagnostics: Seq<DiagnosticView>,
}

impl ParserView {
    /// The state before anything is consumed.
    pub open spec fn init(source: Seq<u8>, language: Language) -> ParserView {
        ParserView {
            source,
            language,
            pos: 0,
            context: LexContext::Regular,
            buffer: Seq::empty(),
            open: Seq::empty(),
            diagnostics: Seq::empty(),
        }
    }

    /// The buffer holds exactly the text before the cursor, and the open
    /// markers are nested inside it.
    #[verifier::opaque]
    pub open spec fn wf(self) -> bool {
        &&& self.pos <= self.source.len() <= usize::MAX
        &&& forest_text(self.buffer) == self.source.subrange(0, self.pos as int)
        &&& forest_wf(self.buffer)
        &&& forall|i: int| 0 <= i < self.open.len() ==> #[trigger] self.open[i] <= self.buffer.len()
        &&& forall|i: int, j: int|
            0 <= i <= j < self.open.len() ==> #[trigger] self.open[i] <= #[trigger] self.open[j]
    }

    /// The number of bytes not yet consumed.
    pub open spec fn remaining(self) -> nat {
        if self.pos <= self.source.len() {
            (self.source.len() - self.pos) as nat
        } else {
            0
        }
    }

    /// The token at the cursor.
    pub open spec fn current(self) -> TokenView {
        lex(self.source, self.pos as int, self.language, self.context)
    }

    /// Whether the token at the cursor has the given kind.
    pub open spec fn at(self, kind: TokenKind) -> bool {
        self.current().kind == kind
    }

    /// Whether a line break stands between the previous token and the one
    /// at the cursor.
    pub open spec fn has_preceding_line_break(self) -> bool {
        has_newline(self.current().leading)
    }

    /// The kind of the token after the one at the cursor.
    pub open spec fn peek(self) -> TokenKind {
        lex(
            self.source,
            (self.pos + self.current().text.len()) as int,
            self.language,
            LexContext::Regular,
        ).kind
    }

    /// The range of the significant text of the token at the cursor.
    pub open spec fn cur_range(self) -> TextRange {
        TextRange {
            start: (self.pos + self.current().trimmed_start()) as usize,
            end: (self.pos + self.current().trimmed_end()) as usize,
        }
    }

    /// Opens a marker at the end of the buffer.
    pub open spec fn start(self) -> ParserView {
        ParserView { open: self.open.push(self.buffer.len()), ..self }
    }

    /// Opens a marker in front of the last element of the buffer.
    pub open spec fn precede(self) -> ParserView {
        ParserView { open: self.open.push((self.buffer.len() - 1) as nat), ..self }
    }

    /// Whether a marker can be opened in front of the last element.
    pub open spec fn can_precede(self) -> bool {
        self.buffer.len() > 0 && (self.open.len() > 0 ==> self.open.last() < self.buffer.len())
    }

    /// Consumes the token at the cursor under the given kind; the next
    /// token is classified in `ctx`.
    pub open spec fn bump_as(self, kind: TokenKind, ctx: LexContext) -> ParserView {
        ParserView {
            pos: self.pos + self.current().text.len(),
            context: ctx,
            buffer: self.buffer.push(Tree::Token(self.current().with_kind(kind))),
            ..self
        }
    }

    /// Consumes the token at the cursor.
    pub open spec fn bump(self) -> ParserView {
        self.bump_as(self.current().kind, LexContext::Regular)
    }

    /// Consumes the token at the cursor if it has the given kind.
    pub open spec fn eat(self, kind: TokenKind) -> ParserView {
        if self.at(kind) {
            self.bump()
        } else {
            self
        }
    }

    /// Records that `expected` is missing at the cursor.
    pub open spec fn error(self, expected: Expected) -> ParserView {
        ParserView {
            diagnostics: self.diagnostics.push(
                DiagnosticView::plain(Severity::Error, self.cur_range(), expected.message_spec()),
            ),
            ..self
        }
    }

    /// Consumes a token of the given kind, or records that it is missing.
    pub open spec fn expect(self, kind: TokenKind, expected: Expected) -> ParserView {
        if self.at(kind) {
            self.bump()
        } else {
            self.error(expected)
        }
    }

    /// Whether the marker opened at depth `depth` and position `start` is
    /// the innermost open one.
    pub open spec fn innermost(self, depth: nat, start: nat) -> bool {
        self.open.len() == depth + 1 && self.open[depth as int] == start
    }

    /// Folds what was appended since the innermost marker into one node.
    pub open spec fn complete(self, kind: NodeKind) -> ParserView {
        let start = self.open.last() as int;
        ParserView {
            buffer: self.buffer.take(start).push(
                Tree::Node { kind, children: self.buffer.skip(start) },
            ),
            open: self.open.drop_last(),
            ..self
        }
    }

    /// Drops the innermost marker; what was appended since stays where it is.
    pub open spec fn abandon(self) -> ParserView {
        ParserView { open: self.open.drop_last(), ..self }
    }

    /// Whether the whole input has been consumed.
    pub open spec fn at_end(self) -> bool {
        self.pos == self.source.len()
    }

    /// This state was reached from `before` by parsing: the input is the
    /// same, the cursor has not moved back, and the same markers are open.
    pub open spec fn follows(self, before: ParserView) -> bool {
        &&& self.source == before.source
        &&& self.language == before.language
        &&& self.open == before.open
        &&& before.pos <= self.pos
    }
}

/// A well-formed state has its cursor inside the input.
pub proof fn lemma_wf_bounds(s: ParserView)
    requires
        s.wf(),
    ensures
        s.pos <= s.source.len() <= usize::MAX,
        s.buffer.len() >= 0,
        forest_text(s.buffer) == s.source.subrange(0, s.pos as int),
        forest_wf(s.buffer),
{
    reveal(ParserView::wf);
}

/// The state before anything is consumed is well formed.
pub proof fn lemma_init_wf(source: Seq<u8>, language: Language)
    requires
        source.len() <= usize::MAX,
    ensures
        ParserView::init(source, language).wf(),
{
    reveal(ParserView::wf);
    assert(forest_text(Seq::empty()) =~= source.subrange(0, 0));
}

/// Opening a marker keeps the state well formed.
pub proof fn lemma_start_wf(s: ParserView)
    requires
        s.wf(),
    ensures
        s.start().wf(),
{
    reveal(ParserView::wf);
}

/// Opening a marker in front of the last element keeps the state well
/// formed.
pub proof fn lemma_precede_wf(s: ParserView)
    requires
        s.wf(),
        s.can_precede(),
    ensures
        s.precede().wf(),
{
    reveal(ParserView::wf);
}

/// Consuming a token keeps the state well formed. Unless the token is the
/// end of the input, less input is left afterwards; if it is, none is.
pub proof fn lemma_bump_wf(s: ParserView, kind: TokenKind, ctx: LexContext)
    requires
        s.wf(),
    ensures
        s.bump_as(kind, ctx).wf(),
        !s.at(TokenKind::Eof) ==> s.bump_as(kind, ctx).remaining() < s.remaining(),
        s.at(TokenKind::Eof) ==> s.bump_as(kind, ctx).at_end(),
{
    reveal(ParserView::wf);
    lemma_lex(s.source, s.pos as int, s.language, s.context);
    let token = Tree::Token(s.current().with_kind(kind));
    lemma_forest_text_push(s.buffer, token);
    assert(s.source.subrange(0, s.pos as int) + s.current().text =~= s.source.subrange(
        0,
        (s.pos + s.current().text.len()) as int,
    ));
}

/// Recording a diagnostic keeps the state well formed.
pub proof fn lemma_error_wf(s: ParserView, expected: Expected)
    requires
        s.wf(),
    ensures
        s.error(expected).wf(),
{
    reveal(ParserView::wf);
}

/// Consuming a token if it is there keeps the state well formed.
pub proof fn lemma_eat_wf(s: ParserView, kind: TokenKind)
    requires
        s.wf(),
    ensures
        s.eat(kind).wf(),
        s.eat(kind).follows(s),
        s.at(kind) && kind != TokenKind::Eof ==> s.eat(kind).remaining() < s.remaining(),
{
    lemma_bump_wf(s, s.current().kind, LexContext::Regular);
}

/// Requiring a token keeps the state well formed.
pub proof fn lemma_expect_wf(s: ParserView, kind: TokenKind, expected: Expected)
    requires
        s.wf(),
    ensures
        s.expect(kind, expected).wf(),
        s.expect(kind, expected).follows(s),
{
    lemma_bump_wf(s, s.current().kind, LexContext::Regular);
    lemma_error_wf(s, expected);
}

/// Closing the innermost marker keeps the state well formed, and leaves a
/// node at the end of the buffer.
pub proof fn lemma_complete_wf(s: ParserView, kind: NodeKind)
    requires
        s.wf(),
        s.open.len() > 0,
    ensures
        s.complete(kind).wf(),
        s.complete(kind).can_precede(),
        s.complete(kind).buffer.last() is Node,
{
    reveal(ParserView::wf);
    let start = s.open.last() as int;
    let node = Tree::Node { kind, children: s.buffer.skip(start) };
    assert(s.open[s.open.len() - 1] <= s.buffer.len());
    assert(s.buffer =~= s.buffer.take(start) + s.buffer.skip(start));
    lemma_forest_text_concat(s.buffer.take(start), s.buffer.skip(start));
    lemma_forest_text_push(s.buffer.take(start), node);
    assert(node.wf()) by {
        assert forall|i: int| 0 <= i < s.buffer.skip(start).len() implies (
        #[trigger] s.buffer.skip(start)[i]).wf() by {
            assert(s.buffer.skip(start)[i] == s.buffer[start + i]);
        }
    }
    let after = s.complete(kind);
    assert forall|i: int| 0 <= i < after.open.len() implies #[trigger] after.open[i]
        <= after.buffer.len() by {
        assert(after.open[i] == s.open[i]);
        assert(s.open[i] <= s.open[s.open.len() - 1]);
    }
    assert forall|i: int, j: int| 0 <= i <= j < after.open.len() implies #[trigger] after.open[i]
        <= #[trigger] after.open[j] by {
        assert(after.open[i] == s.open[i]);
        assert(after.open[j] == s.open[j]);
    }
    assert forall|i: int| 0 <= i < after.buffer.len() implies (#[trigger] after.buffer[i]).wf() by {
        if i < start {
            assert(after.buffer[i] == s.buffer[i]);
        }
    }
    if after.open.len() > 0 {
        assert(after.open.last() == s.open[s.open.len() - 2]);
        assert(s.open[s.open.len() - 2] <= s.open[s.open.len() - 1]);
    }
}

/// Dropping the innermost marker keeps the state well formed.
pub proof fn lemma_abandon_wf(s: ParserView)
    requires
        s.wf(),
        s.open.len() > 0,
    ensures
        s.abandon().wf(),
{
    reveal(ParserView::wf);
    let after = s.abandon();
    assert forall|i: int| 0 <= i < after.open.len() implies #[trigger] after.open[i]
        <= after.buffer.len() by {
        assert(after.open[i] == s.open[i]);
    }
    assert forall|i: int, j: int| 0 <= i <= j < after.open.len() implies #[trigger] after.open[i]
        <= #[trigger] after.open[j] by {
        assert(after.open[i] == s.open[i]);
        assert(after.open[j] == s.open[j]);
    }
}

/// What was opened on `s` and built up to `t` closes into a state that
/// follows `s`: the start of a construct and its end match.
pub proof fn lemma_close(s: ParserView, t: ParserView, kind: NodeKind)
    requires
        s.wf(),
        t.wf(),
        t.follows(s.start()) || (s.can_precede() && t.follows(s.precede())),
    ensures
        t.complete(kind).wf(),
        t.complete(kind).follows(s),
        t.complete(kind).can_precede(),
{
    lemma_complete_wf(t, kind);
    assert(t.complete(kind).open =~= s.open);
}

/// Markers are nested: while a marker that was opened later is still
/// open, an earlier marker is not the innermost one, so an attempt to
/// complete or abandon it is rejected.
pub proof fn lemma_marker_nesting(s: ParserView, depth: nat, start: nat)
    requires
        depth + 1 < s.open.len(),
    ensures
        !s.innermost(depth, start),
{
}

/// A handle on an open position in the output buffer. It is used up when
/// the marker is completed or abandoned.
#[derive(Debug)]
pub struct Marker {
    depth: usize,
    start: usize,
}

impl Marker {
    /// How many markers were open when this one was opened.
    pub closed spec fn depth(&self) -> nat {
        self.depth as nat
    }

    /// The buffer position at which the marker was opened.
    pub closed spec fn start(&self) -> nat {
        self.start as nat
    }
}

/// The result of parsing: the tree and what was reported along the way.
#[derive(Debug)]
pub struct Parse {
    tree: SyntaxNode,
    diagnostics: Vec<Diagnostic>,
}

/// The mathematical value of a parse result.
pub struct ParseView {
    pub tree: Tree,
    pub diagnostics: Seq<DiagnosticView>,
}

impl View for Parse {
    type V = ParseView;

    closed spec fn view(&self) -> ParseView {
        ParseView { tree: self.tree@, diagnostics: diagnostics_view(self.diagnostics@) }
    }
}

impl Parse {
    /// The root of the tree.
    pub fn tree(&self) -> (tree: &SyntaxNode)
        ensures
            tree@ == self@.tree,
    {
        &self.tree
    }

    /// What was reported while parsing, in source order.
    pub fn diagnostics(&self) -> (diagnostics: &Vec<Diagnostic>)
        ensures
            diagnostics_view(diagnostics@) == self@.diagnostics,
    {
        &self.diagnostics
    }

    /// Takes the result apart.
    pub fn into_parts(self) -> (parts: (SyntaxNode, Vec<Diagnostic>))
        ensures
            parts.0@ == self@.tree,
            diagnostics_view(parts.1@) == self@.diagnostics,
    {
        (self.tree, self.diagnostics)
    }
}

/// The parser: a cursor over the input, the output buffer with its open
/// markers, and the diagnostics reported so far.
pub struct Parser<'a> {
    source: &'a [u8],
    language: Language,
    pos: usize,
    context: LexContext,
    current: SyntaxToken,
    buffer: Vec<SyntaxElement>,
    open: Vec<usize>,
    diagnostics: Vec<Diagnostic>,
}

impl<'a> View for Parser<'a> {
    type V = ParserView;

    closed spec fn view(&self) -> ParserView {
        ParserView {
            source: self.source@,
            language: self.language,
            pos: self.pos as nat,
            context: self.context,
            buffer: elements_view(self.buffer@),
            open: self.open@.map_values(|at: usize| at as nat),
            diagnostics: diagnostics_view(self.diagnostics@),
        }
    }
}

impl<'a> Parser<'a> {
    /// The token held for the cursor is the one the input has there.
    pub closed spec fn in_step(&self) -> bool {
        self.current@ == self@.current()
    }

    /// The state is well formed.
    pub open spec fn wf(&self) -> bool {
        self@.wf() && self.in_step()
    }

    /// A parser at the start of `source`.
    pub fn new(source: &'a [u8], language: Language) -> (p: Parser<'a>)
        ensures
            p@ == ParserView::init(source@, language),
            p.wf(),
    {
        proof {
            assert(source@.len() == source.len());
            lemma_init_wf(source@, language);
        }
        let current = lex_token(source, 0, language, LexContext::Regular);
        let p = Parser {
            source,
            language,
            pos: 0,
            context: LexContext::Regular,
            current,
            buffer: Vec::new(),
            open: Vec::new(),
            diagnostics: Vec::new(),
        };
        proof {
            lemma_elements_view(p.buffer@);
            assert(elements_view(p.buffer@) =~= Seq::empty());
            assert(diagnostics_view(p.diagnostics@) =~= Seq::empty());
            assert(p@.open =~= Seq::empty());
        }
        p
    }

    /// The kind of the token at the cursor.
    pub fn cur(&self) -> (kind: TokenKind)
        requires
            self.wf(),
        ensures
            kind == self@.current().kind,
    {
        self.current.kind()
    }

    /// Whether the token at the cursor has the given kind.
    pub fn at(&self, kind: TokenKind) -> (b: bool)
        requires
            self.wf(),
        ensures
            b == self@.at(kind),
    {
        self.current.kind() == kind
    }

    /// Whether a line break stands between the previous token and the one
    /// at the cursor.
    pub fn has_preceding_line_break(&self) -> (b: bool)
        requires
            self.wf(),
        ensures
            b == self@.has_preceding_line_break(),
    {
        self.current.has_leading_newline()
    }

    /// The kind of the token after the one at the cursor.
    pub fn peek(&self) -> (kind: TokenKind)
        requires
            self.wf(),
        ensures
            kind == self@.peek(),
    {
        proof {
            lemma_wf_bounds(self@);
            lemma_lex(self@.source, self@.pos as int, self@.language, self@.context);
        }
        let next = lex_token(
            self.source,
            self.pos + self.current.text().len(),
            self.language,
            LexContext::Regular,
        );
        next.kind()
    }

    /// The range of the significant text of the token at the cursor.
    pub fn cur_range(&self) -> (range: TextRange)
        requires
            self.wf(),
        ensures
            range == self@.cur_range(),
    {
        proof {
            lemma_wf_bounds(self@);
            lemma_lex(self@.source, self@.pos as int, self@.language, self@.context);
        }
        let (from, to) = self.current.trimmed_bounds();
        TextRange { start: self.pos + from, end: self.pos + to }
    }

    /// The number of bytes not yet consumed.
    pub fn remaining(&self) -> (n: usize)
        requires
            self.wf(),
        ensures
            n == self@.remaining(),
    {
        proof {
            lemma_wf_bounds(self@);
        }
        self.source.len() - self.pos
    }

    /// Opens a marker at the end of the buffer.
    pub fn start(&mut self) -> (m: Marker)
        requires
            old(self).wf(),
        ensures
            final(self).wf(),
            final(self)@ == old(self)@.start(),
            final(self)@.innermost(m.depth(), m.start()),
            m.depth() == old(self)@.open.len(),
            m.start() == old(self)@.buffer.len(),
    {
        let m = Marker { depth: self.open.len(), start: self.buffer.len() };
        proof {
            lemma_elements_view(self.buffer@);
            lemma_start_wf(self@);
        }
        self.open.push(self.buffer.len());
        proof {
            assert(self@.open =~= old(self)@.open.push(old(self)@.buffer.len()));
        }
        m
    }

    /// Opens a marker in front of the last element of the buffer, so that
    /// a node finished earlier can be wrapped. Returns `None`, and changes
    /// nothing, where the buffer is empty or the last element does not
    /// belong to the innermost open marker.
    pub fn precede(&mut self) -> (m: Option<Marker>)
        requires
            old(self).wf(),
        ensures
            final(self).wf(),
            m is Some <==> old(self)@.can_precede(),
            m is None ==> final(self)@ == old(self)@,
            m matches Some(marker) ==> {
                &&& final(self)@ == old(self)@.precede()
                &&& final(self)@.innermost(marker.depth(), marker.start())
                &&& marker.depth() == old(self)@.open.len()
                &&& marker.start() == old(self)@.buffer.len() - 1
            },
    {
        proof {
            lemma_elements_view(self.buffer@);
        }
        if self.buffer.len() == 0 {
            return None;
        }
        let at = self.buffer.len() - 1;
        if self.open.len() > 0 && self.open[self.open.len() - 1] > at {
            return None;
        }
        let m = Marker { depth: self.open.len(), start: at };
        proof {
            assert(self.open.len() > 0 ==> self@.open.last() == self.open@.last() as nat);
            lemma_precede_wf(self@);
        }
        self.open.push(at);
        proof {
            assert(self@.open =~= old(self)@.open.push((old(self)@.buffer.len() - 1) as nat));
        }
        Some(m)
    }

    /// Consumes the token at the cursor under the given kind; the next
    /// token is classified in `ctx`.
    pub fn bump_remap_with_context(&mut self, kind: TokenKind, ctx: LexContext)
        requires
            old(self).wf(),
        ensures
            final(self).wf(),
            final(self)@ == old(self)@.bump_as(kind, ctx),
            final(self)@.follows(old(self)@),
            !old(self)@.at(TokenKind::Eof) ==> final(self)@.remaining() < old(self)@.remaining(),
            old(self)@.at(TokenKind::Eof) ==> final(self)@.at_end(),
    {
        proof {
            lemma_wf_bounds(self@);
            lemma_lex(self@.source, self@.pos as int, self@.language, self@.context);
            lemma_bump_wf(self@, kind, ctx);
        }
        let next_pos = self.pos + self.current.text().len();
        let mut token = lex_token(self.source, next_pos, self.language, ctx);
        core::mem::swap(&mut self.current, &mut token);
        let token = token.with_kind(kind);
        let element = SyntaxElement::from_token(token);
        proof {
            lemma_elements_view_push(self.buffer@, element);
        }
        self.buffer.push(element);
        self.pos = next_pos;
        self.context = ctx;
    }

    /// Consumes the token at the cursor, whatever it is.
    pub fn bump_any(&mut self)
        requires
            old(self).wf(),
        ensures
            final(self).wf(),
            final(self)@ == old(self)@.bump(),
            final(self)@.follows(old(self)@),
            !old(self)@.at(TokenKind::Eof) ==> final(self)@.remaining() < old(self)@.remaining(),
            old(self)@.at(TokenKind::Eof) ==> final(self)@.at_end(),
    {
        let kind = self.current.kind();
        self.bump_remap_with_context(kind, LexContext::Regular);
    }

    /// Consumes the token at the cursor if it has the given kind; the next
    /// token is classified in `ctx`. Says whether it did.
    pub fn bump_with_context(&mut self, kind: TokenKind, ctx: LexContext) -> (consumed: bool)
        requires
            old(self).wf(),
        ensures
            final(self).wf(),
            consumed == old(self)@.at(kind),
            consumed ==> final(self)@ == old(self)@.bump_as(kind, ctx),
            !consumed ==> final(self)@ == old(self)@,
            final(self)@.follows(old(self)@),
            consumed && kind != TokenKind::Eof ==> final(self)@.remaining() < old(self)@.remaining(),
    {
        if self.current.kind() == kind {
            self.bump_remap_with_context(kind, ctx);
            true
        } else {
            false
        }
    }

    /// Consumes the token at the cursor if it has the given kind. Says
    /// whether it did; a token of another kind is left where it is.
    pub fn bump(&mut self, kind: TokenKind) -> (consumed: bool)
        requires
            old(self).wf(),
        ensures
            final(self).wf(),
            consumed == old(self)@.at(kind),
            final(self)@ == old(self)@.eat(kind),
            final(self)@.follows(old(self)@),
            consumed && kind != TokenKind::Eof ==> final(self)@.remaining() < old(self)@.remaining(),
    {
        self.bump_with_context(kind, LexContext::Regular)
    }

    /// Records that `expected` is missing at the cursor.
    pub fn error(&mut self, expected: Expected)
        requires
            old(self).wf(),
        ensures
            final(self).wf(),
            final(self)@ == old(self)@.error(expected),
            final(self)@.follows(old(self)@),
            final(self)@.pos == old(self)@.pos,
    {
        proof {
            lemma_error_wf(self@, expected);
        }
        let range = self.cur_range();
        let d = Diagnostic::error(range, expected.message());
        proof {
            assert(diagnostics_view(self.diagnostics@.push(d)) =~= diagnostics_view(
                self.diagnostics@,
            ).push(d@));
        }
        self.diagnostics.push(d);
    }

    /// Consumes a token of the given kind, or records that it is missing.
    pub fn expect(&mut self, kind: TokenKind, expected: Expected) -> (consumed: bool)
        requires
            old(self).wf(),
        ensures
            final(self).wf(),
            consumed == old(self)@.at(kind),
            final(self)@ == old(self)@.expect(kind, expected),
            final(self)@.follows(old(self)@),
            consumed && kind != TokenKind::Eof ==> final(self)@.remaining() < old(self)@.remaining(),
    {
        if self.bump(kind) {
            true
        } else {
            self.error(expected);
            false
        }
    }

    /// Closes `m` as a node of kind `kind` over everything appended since
    /// it was opened. Rejected, with nothing changed, unless `m` is the
    /// innermost open marker.
    pub fn complete(&mut self, m: Marker, kind: NodeKind) -> (done: Result<(), MarkerError>)
        requires
            old(self).wf(),
        ensures
            final(self).wf(),
            done is Ok <==> old(self)@.innermost(m.depth(), m.start()),
            done is Ok ==> final(self)@ == old(self)@.complete(kind),
            done is Ok ==> final(self)@.can_precede(),
            done is Err ==> final(self)@ == old(self)@,
            final(self)@.source == old(self)@.source,
            final(self)@.language == old(self)@.language,
            final(self)@.pos == old(self)@.pos,
    {
        if self.open.len() == 0 || self.open.len() - 1 != m.depth || self.open[m.depth] != m.start {
            return Err(MarkerError::NotInnermost);
        }
        let ghost before = self.buffer@;
        proof {
            reveal(ParserView::wf);
            lemma_complete_wf(self@, kind);
            lemma_elements_view(before);
            assert(self@.open.last() == m.start);
        }
        let children = self.buffer.split_off(m.start);
        let node = SyntaxNode::new(kind, children);
        let element = SyntaxElement::from_node(node);
        proof {
            let start = m.start as int;
            let forest = elements_view(before);
            lemma_elements_view_subrange(before, 0, start);
            lemma_elements_view_subrange(before, start, before.len() as int);
            lemma_elements_view_push(self.buffer@, element);
            assert(forest.subrange(0, start) =~= forest.take(start));
            assert(forest.subrange(start, before.len() as int) =~= forest.skip(start));
        }
        self.buffer.push(element);
        self.open.pop();
        proof {
            assert(self@.open =~= old(self)@.open.drop_last());
        }
        Ok(())
    }

    /// Drops `m` without making a node; what was appended since it was
    /// opened now belongs to the enclosing marker. Rejected, with nothing
    /// changed, unless `m` is the innermost open marker.
    pub fn abandon(&mut self, m: Marker) -> (done: Result<(), MarkerError>)
        requires
            old(self).wf(),
        ensures
            final(self).wf(),
            done is Ok <==> old(self)@.innermost(m.depth(), m.start()),
            done is Ok ==> final(self)@ == old(self)@.abandon(),
            done is Err ==> final(self)@ == old(self)@,
            final(self)@.source == old(self)@.source,
            final(self)@.language == old(self)@.language,
            final(self)@.pos == old(self)@.pos,
    {
        if self.open.len() == 0 || self.open.len() - 1 != m.depth || self.open[m.depth] != m.start {
            return Err(MarkerError::NotInnermost);
        }
        proof {
            lemma_abandon_wf(self@);
        }
        self.open.pop();
        proof {
            assert(self@.open =~= old(self)@.open.drop_last());
        }
        Ok(())
    }

    /// Ends parsing. Returns the tree and the diagnostics when no marker is
    /// open and the buffer holds exactly one node, and `None` otherwise.
    pub fn finish(self) -> (parse: Option<Parse>)
        requires
            self.wf(),
        ensures
            parse is Some <==> (self@.open.len() == 0 && self@.buffer.len() == 1
                && self@.buffer[0] is Node),
            parse matches Some(p) ==> p@ == (ParseView {
                tree: self@.buffer[0],
                diagnostics: self@.diagnostics,
            }),
            parse matches Some(p) ==> p@.tree.text() == self@.source.subrange(0, self@.pos as int),
            parse matches Some(p) ==> p@.tree.wf(),
    {
        proof {
            lemma_wf_bounds(self@);
            lemma_elements_view(self.buffer@);
        }
        let mut buffer = self.buffer;
        if self.open.len() != 0 || buffer.len() != 1 {
            return None;
        }
        proof {
            lemma_forest_text_single(self@.buffer[0]);
            assert(self@.buffer =~= seq![self@.buffer[0]]);
        }
        match buffer.pop() {
            Some(element) => match element.into_node() {
                Some(tree) => Some(Parse { tree, diagnostics: self.diagnostics }),
                None => None,
            },
            None => None,
        }
    }
}

} // verus!
