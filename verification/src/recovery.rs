//! The recovery protocol: what a construct does when a required part of it
//! is missing.
//!
//! Recovery never drops input. It skips ahead, token by token, to the next
//! point at which parsing can resume, and wraps what it skipped in an error
//! node. Where the cursor already stands at such a point, or at the end of
//! the input, it consumes nothing and says so.

use vstd::prelude::*;
use crate::kind::{NodeKind, TokenKind};
use crate::lexer::LexContext;
use crate::parser::{
    lemma_bump_wf, lemma_close, lemma_error_wf, lemma_start_wf, Expected, Outcome, ParsedSyntax,
    Parser, ParserView, RecoveryError,
};

verus! {

/// A set of token kinds.
#[derive(Debug)]
pub struct TokenSet {
    kinds: Vec<TokenKind>,
}

impl View for TokenSet {
    type V = Set<TokenKind>;

    closed spec fn view(&self) -> Set<TokenKind> {
        Set::new(|k: TokenKind| self.kinds@.contains(k))
    }
}

impl TokenSet {
    /// The empty set.
    pub fn new() -> (set: TokenSet)
        ensures
            set@ == Set::<TokenKind>::empty(),
    {
        let set = TokenSet { kinds: Vec::new() };
        proof {
            assert(set@ =~= Set::<TokenKind>::empty());
        }
        set
    }

    /// The set with `kind` added.
    pub fn with(self, kind: TokenKind) -> (set: TokenSet)
        ensures
            set@ == self@.insert(kind),
    {
        let mut set = self;
        set.kinds.push(kind);
        proof {
            assert forall|k: TokenKind| set@.contains(k) == self@.insert(kind).contains(k) by {
                if self.kinds@.contains(k) {
                    let i = choose|i: int| 0 <= i < self.kinds@.len() && self.kinds@[i] == k;
                    assert(set.kinds@[i] == k);
                }
                if k == kind {
                    assert(set.kinds@[set.kinds@.len() - 1] == k);
                }
            }
            assert(set@ =~= self@.insert(kind));
        }
        set
    }

    /// Whether `kind` is in the set.
    pub fn contains(&self, kind: TokenKind) -> (found: bool)
        ensures
            found == self@.contains(kind),
    {
        let mut i: usize = 0;
        while i < self.kinds.len()
            invariant
                i <= self.kinds.len(),
                forall|j: int| 0 <= j < i ==> self.kinds@[j] != kind,
            decreases self.kinds.len() - i,
        {
            if self.kinds[i] == kind {
                return true;
            }
            i += 1;
        }
        false
    }
}

/// The mathematical value of a recovery configuration.
pub struct RecoveryView {
    pub node_kind: NodeKind,
    pub set: Set<TokenKind>,
    pub line_break: bool,
}

/// How one construct recovers: the kind of the error node that wraps what
/// is skipped, the tokens at which parsing can resume, and whether a line
/// break is such a point too.
#[derive(Debug)]
pub struct ParseRecovery {
    node_kind: NodeKind,
    recovery_set: TokenSet,
    line_break: bool,
}

impl View for ParseRecovery {
    type V = RecoveryView;

    closed spec fn view(&self) -> RecoveryView {
        RecoveryView {
            node_kind: self.node_kind,
            set: self.recovery_set@,
            line_break: self.line_break,
        }
    }
}

/// Whether the cursor stands where parsing can resume.
pub open spec fn recovered(s: ParserView, r: RecoveryView) -> bool {
    r.set.contains(s.current().kind) || s.at(TokenKind::Eof) || (r.line_break
        && s.has_preceding_line_break())
}

/// The state after skipping to the next point where parsing can resume.
pub open spec fn skip_to_recovery(s: ParserView, r: RecoveryView) -> ParserView
    decreases s.remaining(),
{
    if recovered(s, r) || s.bump().remaining() >= s.remaining() {
        s
    } else {
        skip_to_recovery(s.bump(), r)
    }
}

/// The recovery protocol. At the end of the input, or where parsing can
/// already resume, nothing is consumed. Otherwise the tokens up to the next
/// resumption point become the children of one node of the error kind.
pub open spec fn recover(s: ParserView, r: RecoveryView) -> (
    ParserView,
    Result<(), RecoveryError>,
) {
    if s.at(TokenKind::Eof) {
        (s, Err(RecoveryError::Eof))
    } else if recovered(s, r) {
        (s, Err(RecoveryError::AlreadyRecovered))
    } else {
        (skip_to_recovery(s.start().bump(), r).complete(r.node_kind), Ok(()))
    }
}

/// What becomes of a required construct: it stands as parsed, or its
/// absence is reported and recovery runs.
pub open spec fn or_recover(
    s: ParserView,
    parsed: ParsedSyntax,
    r: RecoveryView,
    expected: Expected,
) -> (ParserView, Result<Outcome, RecoveryError>) {
    match parsed {
        ParsedSyntax::Present => (s, Ok(Outcome::Matched)),
        ParsedSyntax::Absent => {
            let (after, result) = recover(s.error(expected), r);
            (
                after,
                match result {
                    Ok(_) => Ok(Outcome::Bogus),
                    Err(e) => Err(e),
                },
            )
        },
    }
}

/// Skipping ends where parsing can resume, on a well-formed state.
pub proof fn lemma_skip_to_recovery(s: ParserView, r: RecoveryView)
    requires
        s.wf(),
    ensures
        skip_to_recovery(s, r).wf(),
        skip_to_recovery(s, r).follows(s),
        recovered(skip_to_recovery(s, r), r),
    decreases s.remaining(),
{
    if !recovered(s, r) {
        lemma_bump_wf(s, s.current().kind, LexContext::Regular);
        lemma_skip_to_recovery(s.bump(), r);
    }
}

/// Recovery makes progress or says that it made none: it either finishes
/// one node and leaves less input than it found, or leaves the state as
/// it was and returns an error. It never goes on without consuming.
pub proof fn lemma_recover(s: ParserView, r: RecoveryView)
    requires
        s.wf(),
    ensures
        recover(s, r).0.wf(),
        recover(s, r).0.follows(s),
        recover(s, r).1 is Ok ==> recover(s, r).0.remaining() < s.remaining(),
        recover(s, r).1 is Ok ==> recover(s, r).0.can_precede(),
        recover(s, r).1 is Err ==> recover(s, r).0 == s,
        recover(s, r).1 is Ok <==> !recovered(s, r),
{
    if !s.at(TokenKind::Eof) && !recovered(s, r) {
        lemma_start_wf(s);
        lemma_bump_wf(s.start(), s.start().current().kind, LexContext::Regular);
        lemma_skip_to_recovery(s.start().bump(), r);
        lemma_close(s, skip_to_recovery(s.start().bump(), r), r.node_kind);
    }
}

/// A required construct leaves a well-formed state behind, whether it
/// was there or had to be recovered from.
pub proof fn lemma_or_recover(
    s: ParserView,
    parsed: ParsedSyntax,
    r: RecoveryView,
    expected: Expected,
)
    requires
        s.wf(),
    ensures
        or_recover(s, parsed, r, expected).0.wf(),
        or_recover(s, parsed, r, expected).0.follows(s),
        or_recover(s, parsed, r, expected).1 == Ok::<Outcome, RecoveryError>(Outcome::Bogus)
            ==> or_recover(s, parsed, r, expected).0.remaining() < s.remaining(),
        or_recover(s, parsed, r, expected).1 == Ok::<Outcome, RecoveryError>(Outcome::Matched)
            <==> parsed == ParsedSyntax::Present,
        parsed == ParsedSyntax::Absent && !s.at(TokenKind::Eof) && !recovered(s, r) ==> or_recover(
            s,
            parsed,
            r,
            expected,
        ).1 is Ok,
{
    if parsed == ParsedSyntax::Absent {
        lemma_error_wf(s, expected);
        lemma_recover(s.error(expected), r);
    }
}

impl ParseRecovery {
    /// Recovery that wraps what it skips in a node of kind `node_kind` and
    /// stops at the tokens of `recovery_set`.
    pub fn new(node_kind: NodeKind, recovery_set: TokenSet) -> (r: ParseRecovery)
        ensures
            r@ == (RecoveryView { node_kind, set: recovery_set@, line_break: false }),
    {
        ParseRecovery { node_kind, recovery_set, line_break: false }
    }

    /// The same recovery, stopping at the first line break as well.
    pub fn enable_recovery_on_line_break(self) -> (r: ParseRecovery)
        ensures
            r@ == (RecoveryView { line_break: true, ..self@ }),
    {
        ParseRecovery {
            node_kind: self.node_kind,
            recovery_set: self.recovery_set,
            line_break: true,
        }
    }

    /// Whether the cursor stands where parsing can resume.
    pub fn recovered(&self, p: &Parser) -> (b: bool)
        requires
            p.wf(),
        ensures
            b == recovered(p@, self@),
    {
        self.recovery_set.contains(p.cur()) || p.at(TokenKind::Eof) || (self.line_break
            && p.has_preceding_line_break())
    }

    /// Runs the recovery protocol. It either consumes at least one token
    /// and finishes one error node, or consumes nothing and says why.
    pub fn recover(&self, p: &mut Parser) -> (result: Result<(), RecoveryError>)
        requires
            old(p).wf(),
        ensures
            final(p).wf(),
            (final(p)@, result) == recover(old(p)@, self@),
            final(p)@.follows(old(p)@),
            result is Ok ==> final(p)@.remaining() < old(p)@.remaining(),
            result is Err ==> final(p)@ == old(p)@,
            result == Err::<(), RecoveryError>(RecoveryError::Eof) <==> old(p)@.at(TokenKind::Eof),
            result == Err::<(), RecoveryError>(RecoveryError::AlreadyRecovered) <==> (!old(p)@.at(
                TokenKind::Eof,
            ) && recovered(old(p)@, self@)),
    {
        if p.at(TokenKind::Eof) {
            return Err(RecoveryError::Eof);
        }
        if self.recovered(p) {
            return Err(RecoveryError::AlreadyRecovered);
        }
        let ghost entry = p@;
        let m = p.start();
        p.bump_any();
        let ghost first = p@;
        while !self.recovered(p)
            invariant
                p.wf(),
                p@.source == entry.source,
                p@.language == entry.language,
                p@.open == entry.start().open,
                p@.pos >= first.pos,
                p@.innermost(m.depth(), m.start()),
                skip_to_recovery(first, self@) == skip_to_recovery(p@, self@),
            decreases p@.remaining(),
        {
            p.bump_any();
        }
        let _ = p.complete(m, self.node_kind);
        proof {
            assert(p@.open =~= entry.open);
        }
        Ok(())
    }
}

impl ParsedSyntax {
    /// Whether the construct was not found.
    pub fn is_absent(self) -> (b: bool)
        ensures
            b == (self == ParsedSyntax::Absent),
    {
        match self {
            ParsedSyntax::Absent => true,
            ParsedSyntax::Present => false,
        }
    }

    /// Whether the construct was found.
    pub fn is_present(self) -> (b: bool)
        ensures
            b == (self == ParsedSyntax::Present),
    {
        match self {
            ParsedSyntax::Present => true,
            ParsedSyntax::Absent => false,
        }
    }

    /// Requires the construct: where it is absent, reports what was
    /// expected at the cursor and runs `recovery`.
    pub fn or_recover(self, p: &mut Parser, recovery: &ParseRecovery, expected: Expected) -> (result:
        Result<Outcome, RecoveryError>)
        requires
            old(p).wf(),
        ensures
            final(p).wf(),
            (final(p)@, result) == or_recover(old(p)@, self, recovery@, expected),
            final(p)@.follows(old(p)@),
            result == Ok::<Outcome, RecoveryError>(Outcome::Matched) <==> self
                == ParsedSyntax::Present,
            result == Ok::<Outcome, RecoveryError>(Outcome::Bogus) ==> final(p)@.remaining() < old(
                p,
            )@.remaining(),
            result is Err ==> final(p)@ == old(p)@.error(expected),
    {
        match self {
            ParsedSyntax::Present => Ok(Outcome::Matched),
            ParsedSyntax::Absent => {
                p.error(expected);
                match recovery.recover(p) {
                    Ok(_) => Ok(Outcome::Bogus),
                    Err(e) => Err(e),
                }
            },
        }
    }
}

} // verus!
