//! The mathematical model of the syntax tree.
//!
//! A tree is a token, or a node over children. The text of a tree is the
//! concatenation of the texts of its tokens, trivia included, and an
//! element of a tree is named by its path: one child index for each level
//! on the way down from the root.

use vstd::prelude::*;
use crate::kind::{NodeKind, TokenKind, TriviaKind};

verus! {

/// A half-open range of byte offsets.
#[derive(Clone, Copy, Debug, PartialEq, Eq, Structural)]
pub struct TextRange {
    pub start: usize,
    pub end: usize,
}

/// One fragment of trivia: its category and its length in bytes.
#[derive(Clone, Copy, Debug, PartialEq, Eq, Structural)]
pub struct TriviaPiece {
    pub kind: TriviaKind,
    pub len: usize,
}

/// The summed length of a run of trivia pieces.
pub open spec fn trivia_len(pieces: Seq<TriviaPiece>) -> nat
    decreases pieces.len(),
{
    if pieces.len() == 0 {
        0
    } else {
        trivia_len(pieces.drop_last()) + pieces.last().len as nat
    }
}

/// Whether one of the pieces is a line break.
pub open spec fn has_newline(pieces: Seq<TriviaPiece>) -> bool {
    exists|i: int| 0 <= i < pieces.len() && (#[trigger] pieces[i]).kind == TriviaKind::Newline
}

/// The mathematical value of a token.
pub struct TokenView {
    pub kind: TokenKind,
    /// Leading trivia, significant text and trailing trivia, in that order.
    pub text: Seq<u8>,
    pub leading: Seq<TriviaPiece>,
    pub trailing: Seq<TriviaPiece>,
}

impl TokenView {
    /// The trivia fits inside the text.
    pub open spec fn wf(self) -> bool {
        trivia_len(self.leading) + trivia_len(self.trailing) <= self.text.len()
    }

    /// Where the significant text starts inside `text`.
    pub open spec fn trimmed_start(self) -> int {
        trivia_len(self.leading) as int
    }

    /// Where the significant text ends inside `text`.
    pub open spec fn trimmed_end(self) -> int {
        self.text.len() - trivia_len(self.trailing)
    }

    /// The significant text, without trivia.
    pub open spec fn text_trimmed(self) -> Seq<u8> {
        self.text.subrange(self.trimmed_start(), self.trimmed_end())
    }

    /// The same token under another kind.
    pub open spec fn with_kind(self, kind: TokenKind) -> TokenView {
        TokenView { kind, ..self }
    }
}

/// The mathematical value of a tree: a token, or a node over its children.
pub enum Tree {
    Token(TokenView),
    Node { kind: NodeKind, children: Seq<Tree> },
}

/// The concatenated text of a run of trees.
pub open spec fn forest_text(forest: Seq<Tree>) -> Seq<u8>
    decreases forest,
{
    if forest.len() == 0 {
        Seq::empty()
    } else {
        forest_text(forest.drop_last()) + forest.last().text()
    }
}

/// Every token of every tree in the run is well formed.
pub open spec fn forest_wf(forest: Seq<Tree>) -> bool {
    forall|i: int| 0 <= i < forest.len() ==> (#[trigger] forest[i]).wf()
}

/// The first token of a run of trees in source order, if it has one.
pub open spec fn forest_first_token(forest: Seq<Tree>) -> Option<TokenView>
    decreases forest,
{
    if forest.len() == 0 {
        None
    } else {
        match forest.first().first_token() {
            Some(t) => Some(t),
            None => forest_first_token(forest.drop_first()),
        }
    }
}

/// The last token of a run of trees in source order, if it has one.
pub open spec fn forest_last_token(forest: Seq<Tree>) -> Option<TokenView>
    decreases forest,
{
    if forest.len() == 0 {
        None
    } else {
        match forest.last().last_token() {
            Some(t) => Some(t),
            None => forest_last_token(forest.drop_last()),
        }
    }
}

impl Tree {
    /// The text the tree covers, trivia included.
    pub open spec fn text(self) -> Seq<u8>
        decreases self,
    {
        match self {
            Tree::Token(t) => t.text,
            Tree::Node { children, .. } => forest_text(children),
        }
    }

    /// Every token in the tree is well formed.
    pub open spec fn wf(self) -> bool
        decreases self,
    {
        match self {
            Tree::Token(t) => t.wf(),
            Tree::Node { children, .. } => forall|i: int|
                0 <= i < children.len() ==> (#[trigger] children[i]).wf(),
        }
    }

    /// No node has more children than an index can name.
    pub open spec fn countable(self) -> bool
        decreases self,
    {
        match self {
            Tree::Token(_) => true,
            Tree::Node { children, .. } => children.len() <= usize::MAX && forall|i: int|
                0 <= i < children.len() ==> (#[trigger] children[i]).countable(),
        }
    }

    /// The children of a node; a token has none.
    pub open spec fn children(self) -> Seq<Tree> {
        match self {
            Tree::Token(_) => Seq::empty(),
            Tree::Node { children, .. } => children,
        }
    }

    /// Whether the tree is a node of the given kind.
    pub open spec fn is_node_of(self, k: NodeKind) -> bool {
        self matches Tree::Node { kind, .. } && kind == k
    }

    /// Whether the tree is a token of the given kind.
    pub open spec fn is_token_of(self, k: TokenKind) -> bool {
        self matches Tree::Token(t) && t.kind == k
    }

    /// The element reached by following `path`, one child index per level.
    pub open spec fn at(self, path: Seq<usize>) -> Option<Tree>
        decreases path.len(),
    {
        if path.len() == 0 {
            Some(self)
        } else {
            match self {
                Tree::Node { children, .. } if path[0] < children.len() => children[path[0] as int].at(
                    path.drop_first(),
                ),
                _ => None,
            }
        }
    }

    /// The offset, from the start of this tree's text, at which the text of
    /// the element at `path` starts.
    pub open spec fn offset(self, path: Seq<usize>) -> nat
        decreases path.len(),
    {
        if path.len() == 0 {
            0
        } else {
            match self {
                Tree::Node { children, .. } if path[0] < children.len() => forest_text(
                    children.take(path[0] as int),
                ).len() + children[path[0] as int].offset(path.drop_first()),
                _ => 0,
            }
        }
    }

    /// The first token in source order, if there is one.
    pub open spec fn first_token(self) -> Option<TokenView>
        decreases self,
    {
        match self {
            Tree::Token(t) => Some(t),
            Tree::Node { children, .. } => forest_first_token(children),
        }
    }

    /// The last token in source order, if there is one.
    pub open spec fn last_token(self) -> Option<TokenView>
        decreases self,
    {
        match self {
            Tree::Token(t) => Some(t),
            Tree::Node { children, .. } => forest_last_token(children),
        }
    }

    /// Length of the trivia before the first significant byte.
    pub open spec fn leading_len(self) -> nat {
        match self.first_token() {
            Some(t) => trivia_len(t.leading),
            None => 0,
        }
    }

    /// Length of the trivia after the last significant byte.
    pub open spec fn trailing_len(self) -> nat {
        match self.last_token() {
            Some(t) => trivia_len(t.trailing),
            None => 0,
        }
    }

    /// The text without the leading trivia of the first token and the
    /// trailing trivia of the last one.
    pub open spec fn text_trimmed(self) -> Seq<u8> {
        self.text().subrange(self.leading_len() as int, self.text().len() - self.trailing_len())
    }

    /// The range, in the text of this tree, of the trimmed text of the
    /// element at `path`.
    pub open spec fn trimmed_range(self, path: Seq<usize>) -> TextRange
        recommends
            self.at(path) is Some,
    {
        let element = self.at(path).unwrap();
        TextRange {
            start: (self.offset(path) + element.leading_len()) as usize,
            end: (self.offset(path) + element.text().len() - element.trailing_len()) as usize,
        }
    }

    /// The kind of a node.
    pub open spec fn node_kind(self) -> NodeKind
        recommends
            self is Node,
    {
        self->kind
    }
}

/// The length of the trivia before the first significant byte of a run
/// of trees.
pub open spec fn forest_leading_len(forest: Seq<Tree>) -> nat {
    match forest_first_token(forest) {
        Some(t) => trivia_len(t.leading),
        None => 0,
    }
}

/// The length of the trivia after the last significant byte of a run of
/// trees.
pub open spec fn forest_trailing_len(forest: Seq<Tree>) -> nat {
    match forest_last_token(forest) {
        Some(t) => trivia_len(t.trailing),
        None => 0,
    }
}

/// The text of two runs laid end to end is the two texts laid end to end.
pub proof fn lemma_forest_text_concat(a: Seq<Tree>, b: Seq<Tree>)
    ensures
        forest_text(a + b) == forest_text(a) + forest_text(b),
    decreases b.len(),
{
    if b.len() == 0 {
        assert(a + b =~= a);
        assert(forest_text(a) + forest_text(b) =~= forest_text(a));
    } else {
        lemma_forest_text_concat(a, b.drop_last());
        assert((a + b).drop_last() =~= a + b.drop_last());
        assert((a + b).last() == b.last());
        assert(forest_text(a + b) =~= forest_text(a) + forest_text(b));
    }
}

/// The text of a run of one tree is that tree's text.
pub proof fn lemma_forest_text_single(t: Tree)
    ensures
        forest_text(seq![t]) == t.text(),
{
    lemma_forest_text_push(Seq::empty(), t);
    assert(Seq::<Tree>::empty().push(t) =~= seq![t]);
    assert(Seq::<u8>::empty() + t.text() =~= t.text());
}

/// Pushing a tree onto a run appends its text.
pub proof fn lemma_forest_text_push(a: Seq<Tree>, t: Tree)
    ensures
        forest_text(a.push(t)) == forest_text(a) + t.text(),
{
    assert(a.push(t).drop_last() =~= a);
}

/// The text of a longer prefix of a run extends the text of a shorter one.
pub proof fn lemma_forest_text_take(f: Seq<Tree>, i: int)
    requires
        0 <= i < f.len(),
    ensures
        forest_text(f.take(i + 1)) == forest_text(f.take(i)) + f[i].text(),
        forest_text(f.take(i)).len() + f[i].text().len() <= forest_text(f).len(),
{
    assert(f.take(i + 1) =~= f.take(i).push(f[i]));
    lemma_forest_text_push(f.take(i), f[i]);
    assert(f =~= f.take(i + 1) + f.skip(i + 1));
    lemma_forest_text_concat(f.take(i + 1), f.skip(i + 1));
}

/// Appending a piece adds its length to the sum.
pub proof fn lemma_trivia_len_push(pieces: Seq<TriviaPiece>, p: TriviaPiece)
    ensures
        trivia_len(pieces.push(p)) == trivia_len(pieces) + p.len,
{
    assert(pieces.push(p).drop_last() =~= pieces);
}

/// The sum over a prefix is at most the sum over the whole run.
pub proof fn lemma_trivia_len_prefix(pieces: Seq<TriviaPiece>, i: int)
    requires
        0 <= i <= pieces.len(),
    ensures
        trivia_len(pieces.take(i)) <= trivia_len(pieces),
    decreases pieces.len() - i,
{
    if i < pieces.len() {
        assert(pieces.take(i + 1) =~= pieces.take(i).push(pieces[i]));
        lemma_trivia_len_push(pieces.take(i), pieces[i]);
        lemma_trivia_len_prefix(pieces, i + 1);
    } else {
        assert(pieces.take(i) =~= pieces);
    }
}

/// The first token of a run with one more tree is that of the run, or,
/// where the run has none, that of the tree.
pub proof fn lemma_forest_first_token_push(forest: Seq<Tree>, t: Tree)
    ensures
        forest_first_token(forest.push(t)) == match forest_first_token(forest) {
            Some(first) => Some(first),
            None => t.first_token(),
        },
    decreases forest.len(),
{
    if forest.len() == 0 {
        assert(forest.push(t).drop_first() =~= Seq::<Tree>::empty());
        assert(forest_first_token(forest.push(t).drop_first()) is None);
    } else {
        assert(forest.push(t).first() == forest.first());
        assert(forest.push(t).drop_first() =~= forest.drop_first().push(t));
        lemma_forest_first_token_push(forest.drop_first(), t);
    }
}

/// In a well-formed tree the trivia at the two ends fits inside the text.
pub proof fn lemma_trim_bounds(t: Tree)
    requires
        t.wf(),
    ensures
        t.leading_len() + t.trailing_len() <= t.text().len(),
        t.first_token() is Some <==> t.last_token() is Some,
    decreases t,
{
    match t {
        Tree::Token(_) => {},
        Tree::Node { children, .. } => {
            lemma_forest_trim_bounds(children);
        },
    }
}

/// In a run of well-formed trees the trivia at the two ends fits inside
/// the text.
pub proof fn lemma_forest_trim_bounds(forest: Seq<Tree>)
    requires
        forest_wf(forest),
    ensures
        forest_leading_len(forest) + forest_trailing_len(forest) <= forest_text(forest).len(),
        forest_first_token(forest) is Some <==> forest_last_token(forest) is Some,
    decreases forest,
{
    if forest.len() > 0 {
        let rest = forest.drop_last();
        let last = forest.last();
        assert(forest =~= rest.push(last));
        assert(forest_wf(rest)) by {
            assert forall|i: int| 0 <= i < rest.len() implies (#[trigger] rest[i]).wf() by {
                assert(rest[i] == forest[i]);
            }
        }
        lemma_forest_trim_bounds(rest);
        lemma_trim_bounds(last);
        lemma_forest_first_token_push(rest, last);
    }
}

/// An element lies inside the text of the tree that holds it.
pub proof fn lemma_offset_bounds(t: Tree, path: Seq<usize>)
    requires
        t.at(path) is Some,
    ensures
        t.offset(path) + t.at(path).unwrap().text().len() <= t.text().len(),
    decreases path.len(),
{
    if path.len() > 0 {
        let children = t.children();
        let i = path[0] as int;
        lemma_offset_bounds(children[i], path.drop_first());
        lemma_forest_text_take(children, i);
    }
}

/// Every element of a well-formed tree is well formed.
pub proof fn lemma_at_wf(t: Tree, path: Seq<usize>)
    requires
        t.wf(),
        t.at(path) is Some,
    ensures
        t.at(path).unwrap().wf(),
    decreases path.len(),
{
    if path.len() > 0 {
        lemma_at_wf(t.children()[path[0] as int], path.drop_first());
    }
}

/// Every element of a countable tree is countable.
pub proof fn lemma_at_countable(t: Tree, path: Seq<usize>)
    requires
        t.countable(),
        t.at(path) is Some,
    ensures
        t.at(path).unwrap().countable(),
    decreases path.len(),
{
    if path.len() > 0 {
        lemma_at_countable(t.children()[path[0] as int], path.drop_first());
    }
}

/// Following one path and then another is following the two laid end to
/// end.
pub proof fn lemma_at_concat(t: Tree, first: Seq<usize>, second: Seq<usize>)
    ensures
        t.at(first + second) == match t.at(first) {
            Some(found) => found.at(second),
            None => None,
        },
    decreases first.len(),
{
    if first.len() == 0 {
        assert(first + second =~= second);
    } else {
        assert((first + second).drop_first() =~= first.drop_first() + second);
        assert((first + second)[0] == first[0]);
        match t {
            Tree::Node { children, .. } => {
                if first[0] < children.len() {
                    lemma_at_concat(children[first[0] as int], first.drop_first(), second);
                }
            },
            Tree::Token(_) => {},
        }
    }
}

/// Following a path and then one more index is following the longer path.
pub proof fn lemma_at_push(t: Tree, path: Seq<usize>, i: usize)
    ensures
        t.at(path.push(i)) == match t.at(path) {
            Some(Tree::Node { children, .. }) if i < children.len() => Some(children[i as int]),
            _ => None,
        },
    decreases path.len(),
{
    let longer = path.push(i);
    if path.len() == 0 {
        assert(longer.drop_first() =~= Seq::<usize>::empty());
        assert(longer[0] == i);
        assert(t.at(path) == Some(t));
        match t {
            Tree::Node { children, .. } => {
                if i < children.len() {
                    assert(children[i as int].at(longer.drop_first()) == Some(children[i as int]));
                }
            },
            Tree::Token(_) => {},
        }
    } else {
        assert(longer.drop_first() =~= path.drop_first().push(i));
        assert(longer[0] == path[0]);
        match t {
            Tree::Node { children, .. } => {
                if path[0] < children.len() {
                    lemma_at_push(children[path[0] as int], path.drop_first(), i);
                }
            },
            Tree::Token(_) => {},
        }
    }
}

/// The tokens at the two ends of a well-formed tree are well formed.
pub proof fn lemma_end_tokens_wf(t: Tree)
    requires
        t.wf(),
    ensures
        t.first_token() matches Some(token) ==> token.wf(),
        t.last_token() matches Some(token) ==> token.wf(),
    decreases t,
{
    match t {
        Tree::Token(_) => {},
        Tree::Node { children, .. } => {
            lemma_forest_end_tokens_wf(children);
        },
    }
}

/// The tokens at the two ends of a run of well-formed trees are well
/// formed.
pub proof fn lemma_forest_end_tokens_wf(forest: Seq<Tree>)
    requires
        forest_wf(forest),
    ensures
        forest_first_token(forest) matches Some(token) ==> token.wf(),
        forest_last_token(forest) matches Some(token) ==> token.wf(),
    decreases forest,
{
    if forest.len() > 0 {
        let rest = forest.drop_last();
        let last = forest.last();
        assert(forest =~= rest.push(last));
        assert(forest_wf(rest)) by {
            assert forall|i: int| 0 <= i < rest.len() implies (#[trigger] rest[i]).wf() by {
                assert(rest[i] == forest[i]);
            }
        }
        lemma_forest_end_tokens_wf(rest);
        lemma_end_tokens_wf(last);
        lemma_forest_first_token_push(rest, last);
    }
}

} // verus!
