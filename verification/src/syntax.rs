//! The immutable, lossless syntax tree.
//!
//! A tree owns every byte of the text it was built from: each token stores
//! its significant text together with the trivia around it. Nodes and
//! tokens are never changed once they are built, and they are shared, not
//! copied, between a tree and the trees derived from it.

use std::rc::Rc;
use vstd::prelude::*;
use crate::kind::{NodeKind, TokenKind, TriviaKind};
pub use crate::tree::{
    forest_first_token, forest_last_token, forest_leading_len, forest_text, forest_trailing_len,
    forest_wf, has_newline, lemma_at_concat, lemma_at_countable, lemma_at_push, lemma_at_wf,
    lemma_end_tokens_wf, lemma_forest_end_tokens_wf, lemma_forest_first_token_push,
    lemma_forest_text_concat, lemma_forest_text_push, lemma_forest_text_single,
    lemma_forest_text_take, lemma_forest_trim_bounds, lemma_offset_bounds, lemma_trim_bounds,
    lemma_trivia_len_prefix, lemma_trivia_len_push, trivia_len, TextRange, TokenView, Tree,
    TriviaPiece,
};

verus! {

/// A token with the trivia attached to it.
#[derive(Debug, PartialEq, Eq)]
pub struct SyntaxToken {
    kind: TokenKind,
    text: Vec<u8>,
    leading: Vec<TriviaPiece>,
    trailing: Vec<TriviaPiece>,
}

/// A child of a node. Elements are shared, not copied: a tree that was
/// derived from another holds the subtrees that it left untouched by
/// reference.
#[derive(Debug, PartialEq, Eq)]
pub enum SyntaxElement {
    Node(Rc<SyntaxNode>),
    Token(Rc<SyntaxToken>),
}

/// A node: a kind and its children in source order.
#[derive(Debug, PartialEq, Eq)]
pub struct SyntaxNode {
    kind: NodeKind,
    children: Vec<SyntaxElement>,
}

impl View for SyntaxToken {
    type V = TokenView;

    closed spec fn view(&self) -> TokenView {
        TokenView {
            kind: self.kind,
            text: self.text@,
            leading: self.leading@,
            trailing: self.trailing@,
        }
    }
}

impl View for SyntaxElement {
    type V = Tree;

    closed spec fn view(&self) -> Tree
        decreases self,
    {
        match self {
            SyntaxElement::Token(t) => Tree::Token((**t)@),
            SyntaxElement::Node(n) => (**n)@,
        }
    }
}

impl View for SyntaxNode {
    type V = Tree;

    closed spec fn view(&self) -> Tree
        decreases self,
    {
        Tree::Node { kind: self.kind, children: elements_view(self.children@) }
    }
}

/// The values of a run of elements.
pub closed spec fn elements_view(elements: Seq<SyntaxElement>) -> Seq<Tree>
    decreases elements,
{
    Seq::new(
        elements.len(),
        |i: int|
            if 0 <= i < elements.len() {
                elements[i]@
            } else {
                arbitrary()
            },
    )
}

/// The value of a node that exists is countable.
pub proof fn lemma_node_countable(node: &SyntaxNode)
    ensures
        node@.countable(),
    decreases node,
{
    let children = elements_view(node.children@);
    assert(children.len() == node.children@.len());
    assert(node.children@.len() == node.children.len());
    assert forall|i: int| 0 <= i < children.len() implies (#[trigger] children[i]).countable() by {
        lemma_element_countable(&node.children@[i]);
    }
}

/// The value of an element that exists is countable.
pub proof fn lemma_element_countable(element: &SyntaxElement)
    ensures
        element@.countable(),
    decreases element,
{
    match element {
        SyntaxElement::Node(n) => {
            lemma_node_countable(&**n);
        },
        SyntaxElement::Token(_) => {},
    }
}

/// `elements_view` maps the view over the run, index by index.
pub proof fn lemma_elements_view(elements: Seq<SyntaxElement>)
    ensures
        elements_view(elements).len() == elements.len(),
        forall|i: int|
            0 <= i < elements.len() ==> (#[trigger] elements_view(elements)[i]) == elements[i]@,
{
}

/// The view of a pushed run is the pushed view.
pub proof fn lemma_elements_view_push(elements: Seq<SyntaxElement>, e: SyntaxElement)
    ensures
        elements_view(elements.push(e)) == elements_view(elements).push(e@),
{
    assert(elements_view(elements.push(e)) =~= elements_view(elements).push(e@));
}

/// The view of a sub-run is the sub-run of the view.
pub proof fn lemma_elements_view_subrange(elements: Seq<SyntaxElement>, i: int, j: int)
    requires
        0 <= i <= j <= elements.len(),
    ensures
        elements_view(elements.subrange(i, j)) == elements_view(elements).subrange(i, j),
{
    assert(elements_view(elements.subrange(i, j)) =~= elements_view(elements).subrange(i, j));
}

/// The summed length of a run of pieces, or `None` where it does not fit.
pub fn pieces_len(pieces: &Vec<TriviaPiece>) -> (total: Option<usize>)
    ensures
        match total {
            Some(n) => n == trivia_len(pieces@),
            None => trivia_len(pieces@) > usize::MAX,
        },
{
    let mut sum: usize = 0;
    let mut i: usize = 0;
    while i < pieces.len()
        invariant
            i <= pieces.len(),
            sum == trivia_len(pieces@.take(i as int)),
        decreases pieces.len() - i,
    {
        proof {
            assert(pieces@.take(i + 1) =~= pieces@.take(i as int).push(pieces@[i as int]));
            lemma_trivia_len_push(pieces@.take(i as int), pieces@[i as int]);
        }
        match sum.checked_add(pieces[i].len) {
            Some(n) => {
                sum = n;
            },
            None => {
                proof {
                    lemma_trivia_len_prefix(pieces@, i + 1);
                }
                return None;
            },
        }
        i += 1;
    }
    proof {
        assert(pieces@.take(i as int) =~= pieces@);
    }
    Some(sum)
}

/// Whether one of the pieces is a line break.
pub fn pieces_have_newline(pieces: &Vec<TriviaPiece>) -> (found: bool)
    ensures
        found == has_newline(pieces@),
{
    let mut i: usize = 0;
    while i < pieces.len()
        invariant
            i <= pieces.len(),
            forall|j: int| 0 <= j < i ==> (#[trigger] pieces@[j]).kind != TriviaKind::Newline,
        decreases pieces.len() - i,
    {
        if pieces[i].kind == TriviaKind::Newline {
            return true;
        }
        i += 1;
    }
    false
}

/// A copy of a byte string.
pub fn copy_bytes(bytes: &Vec<u8>) -> (out: Vec<u8>)
    ensures
        out@ == bytes@,
{
    let mut out: Vec<u8> = Vec::new();
    let mut i: usize = 0;
    while i < bytes.len()
        invariant
            i <= bytes.len(),
            out@ == bytes@.take(i as int),
        decreases bytes.len() - i,
    {
        out.push(bytes[i]);
        proof {
            assert(bytes@.take(i + 1) =~= bytes@.take(i as int).push(bytes@[i as int]));
        }
        i += 1;
    }
    proof {
        assert(bytes@.take(i as int) =~= bytes@);
    }
    out
}

/// Appends `bytes[from..to]` to `out`.
pub fn append_bytes(out: &mut Vec<u8>, bytes: &[u8], from: usize, to: usize)
    requires
        from <= to <= bytes.len(),
    ensures
        final(out)@ == old(out)@ + bytes@.subrange(from as int, to as int),
{
    let mut i: usize = from;
    while i < to
        invariant
            from <= i <= to <= bytes.len(),
            out@ == old(out)@ + bytes@.subrange(from as int, i as int),
        decreases to - i,
    {
        out.push(bytes[i]);
        proof {
            assert(bytes@.subrange(from as int, i + 1) =~= bytes@.subrange(
                from as int,
                i as int,
            ).push(bytes@[i as int]));
            assert(out@ =~= old(out)@ + bytes@.subrange(from as int, i + 1));
        }
        i += 1;
    }
}

fn copy_pieces(pieces: &Vec<TriviaPiece>) -> (out: Vec<TriviaPiece>)
    ensures
        out@ == pieces@,
{
    let mut out: Vec<TriviaPiece> = Vec::new();
    let mut i: usize = 0;
    while i < pieces.len()
        invariant
            i <= pieces.len(),
            out@ == pieces@.take(i as int),
        decreases pieces.len() - i,
    {
        out.push(pieces[i]);
        proof {
            assert(pieces@.take(i + 1) =~= pieces@.take(i as int).push(pieces@[i as int]));
        }
        i += 1;
    }
    proof {
        assert(pieces@.take(i as int) =~= pieces@);
    }
    out
}

impl SyntaxToken {
    /// Builds a token from its kind, its full text and the trivia inside
    /// that text. Returns `None` exactly when the trivia is longer than
    /// the text.
    pub fn new(
        kind: TokenKind,
        text: Vec<u8>,
        leading: Vec<TriviaPiece>,
        trailing: Vec<TriviaPiece>,
    ) -> (token: Option<SyntaxToken>)
        ensures
            token is Some <==> (TokenView { kind, text: text@, leading: leading@, trailing: trailing@ }).wf(),
            token matches Some(t) ==> t@ == (TokenView {
                kind,
                text: text@,
                leading: leading@,
                trailing: trailing@,
            }),
    {
        let before = pieces_len(&leading);
        let after = pieces_len(&trailing);
        assert(text@.len() == text.len());
        match (before, after) {
            (Some(a), Some(b)) => {
                if a <= text.len() && b <= text.len() - a {
                    Some(SyntaxToken { kind, text, leading, trailing })
                } else {
                    None
                }
            },
            _ => None,
        }
    }

    /// Builds a token whose trivia is known to fit inside its text.
    pub(crate) fn from_parts(
        kind: TokenKind,
        text: Vec<u8>,
        leading: Vec<TriviaPiece>,
        trailing: Vec<TriviaPiece>,
    ) -> (token: SyntaxToken)
        requires
            trivia_len(leading@) + trivia_len(trailing@) <= text@.len(),
        ensures
            token@ == (TokenView { kind, text: text@, leading: leading@, trailing: trailing@ }),
            token@.wf(),
    {
        SyntaxToken { kind, text, leading, trailing }
    }

    /// The token's kind.
    pub fn kind(&self) -> (kind: TokenKind)
        ensures
            kind == self@.kind,
    {
        self.kind
    }

    /// The token's text, trivia included.
    pub fn text(&self) -> (text: &Vec<u8>)
        ensures
            text@ == self@.text,
    {
        &self.text
    }

    /// The trivia before the significant text.
    pub fn leading(&self) -> (pieces: &Vec<TriviaPiece>)
        ensures
            pieces@ == self@.leading,
    {
        &self.leading
    }

    /// The trivia after the significant text.
    pub fn trailing(&self) -> (pieces: &Vec<TriviaPiece>)
        ensures
            pieces@ == self@.trailing,
    {
        &self.trailing
    }

    /// Whether the trivia fits inside the text.
    pub fn is_well_formed(&self) -> (ok: bool)
        ensures
            ok == self@.wf(),
    {
        let before = pieces_len(&self.leading);
        let after = pieces_len(&self.trailing);
        assert(self.text@.len() == self.text.len());
        match (before, after) {
            (Some(a), Some(b)) => a <= self.text.len() && b <= self.text.len() - a,
            _ => false,
        }
    }

    /// The range of the significant text inside the token's own text.
    pub fn trimmed_bounds(&self) -> (bounds: (usize, usize))
        requires
            self@.wf(),
        ensures
            bounds.0 == self@.trimmed_start(),
            bounds.1 == self@.trimmed_end(),
            bounds.0 <= bounds.1 <= self@.text.len(),
    {
        let before = pieces_len(&self.leading);
        let after = pieces_len(&self.trailing);
        assert(self.text@.len() == self.text.len());
        match (before, after) {
            (Some(a), Some(b)) => (a, self.text.len() - b),
            _ => {
                proof {
                    assert(false);
                }
                (0, 0)
            },
        }
    }

    /// The significant text, without trivia.
    pub fn text_trimmed(&self) -> (text: Vec<u8>)
        requires
            self@.wf(),
        ensures
            text@ == self@.text_trimmed(),
    {
        let (from, to) = self.trimmed_bounds();
        let mut out: Vec<u8> = Vec::new();
        append_bytes(&mut out, self.text.as_slice(), from, to);
        proof {
            assert(out@ =~= self@.text_trimmed());
        }
        out
    }

    /// Whether a line break stands between the previous token and this one.
    pub fn has_leading_newline(&self) -> (found: bool)
        ensures
            found == has_newline(self@.leading),
    {
        pieces_have_newline(&self.leading)
    }

    /// The same token under another kind.
    pub fn with_kind(self, kind: TokenKind) -> (token: SyntaxToken)
        ensures
            token@ == self@.with_kind(kind),
    {
        SyntaxToken { kind, text: self.text, leading: self.leading, trailing: self.trailing }
    }
}

impl Clone for SyntaxToken {
    fn clone(&self) -> (token: SyntaxToken)
        ensures
            token@ == self@,
    {
        SyntaxToken {
            kind: self.kind,
            text: copy_bytes(&self.text),
            leading: copy_pieces(&self.leading),
            trailing: copy_pieces(&self.trailing),
        }
    }
}

impl SyntaxElement {
    /// The node, if the element is one.
    pub fn as_node(&self) -> (node: Option<&SyntaxNode>)
        ensures
            node is Some <==> self@ is Node,
            node matches Some(n) ==> n@ == self@,
    {
        match self {
            SyntaxElement::Node(n) => Some(&**n),
            SyntaxElement::Token(_) => None,
        }
    }

    /// The token, if the element is one.
    pub fn as_token(&self) -> (token: Option<&SyntaxToken>)
        ensures
            token is Some <==> self@ is Token,
            token matches Some(t) ==> self@ == Tree::Token(t@),
    {
        match self {
            SyntaxElement::Node(_) => None,
            SyntaxElement::Token(t) => Some(&**t),
        }
    }

    /// Unwraps the node, if the element is one. A node that is shared is
    /// left where it is, and a handle on the same children is returned.
    pub fn into_node(self) -> (node: Option<SyntaxNode>)
        ensures
            node is Some <==> self@ is Node,
            node matches Some(n) ==> n@ == self@,
    {
        match self {
            SyntaxElement::Node(n) => match Rc::try_unwrap(n) {
                Ok(node) => Some(node),
                Err(shared) => Some((*shared).clone()),
            },
            SyntaxElement::Token(_) => None,
        }
    }

    /// Wraps a node.
    pub fn from_node(node: SyntaxNode) -> (element: SyntaxElement)
        ensures
            element@ == node@,
    {
        SyntaxElement::Node(Rc::new(node))
    }

    /// Wraps a token.
    pub fn from_token(token: SyntaxToken) -> (element: SyntaxElement)
        ensures
            element@ == Tree::Token(token@),
    {
        SyntaxElement::Token(Rc::new(token))
    }

    /// Appends the element's text to `out`.
    pub fn append_text(&self, out: &mut Vec<u8>)
        ensures
            final(out)@ == old(out)@ + self@.text(),
        decreases self,
    {
        match self {
            SyntaxElement::Token(t) => {
                append_bytes(out, t.text.as_slice(), 0, t.text.len());
                proof {
                    assert(t.text@.subrange(0, t.text@.len() as int) =~= t.text@);
                }
            },
            SyntaxElement::Node(n) => {
                n.append_text(out);
            },
        }
    }

    /// The length of the element's text.
    pub fn text_len(&self) -> (len: usize)
        requires
            self@.text().len() <= usize::MAX,
        ensures
            len == self@.text().len(),
        decreases self,
    {
        match self {
            SyntaxElement::Token(t) => t.text.len(),
            SyntaxElement::Node(n) => n.text_len(),
        }
    }

    /// The length of the element's text, or `None` where it is more than
    /// an offset can say.
    pub fn checked_text_len(&self) -> (len: Option<usize>)
        ensures
            match len {
                Some(n) => n == self@.text().len(),
                None => self@.text().len() > usize::MAX,
            },
        decreases self,
    {
        match self {
            SyntaxElement::Token(t) => Some(t.text.len()),
            SyntaxElement::Node(n) => n.checked_text_len(),
        }
    }

    /// Whether every token of the element is well formed.
    pub fn is_well_formed(&self) -> (ok: bool)
        ensures
            ok == self@.wf(),
        decreases self,
    {
        match self {
            SyntaxElement::Token(t) => t.is_well_formed(),
            SyntaxElement::Node(n) => n.is_well_formed(),
        }
    }

    /// The first token in source order.
    pub fn first_token(&self) -> (token: Option<&SyntaxToken>)
        ensures
            token is Some <==> self@.first_token() is Some,
            token matches Some(t) ==> self@.first_token() == Some(t@),
        decreases self,
    {
        match self {
            SyntaxElement::Token(t) => Some(t),
            SyntaxElement::Node(n) => n.first_token(),
        }
    }

    /// The last token in source order.
    pub fn last_token(&self) -> (token: Option<&SyntaxToken>)
        ensures
            token is Some <==> self@.last_token() is Some,
            token matches Some(t) ==> self@.last_token() == Some(t@),
        decreases self,
    {
        match self {
            SyntaxElement::Token(t) => Some(t),
            SyntaxElement::Node(n) => n.last_token(),
        }
    }
}

/// A second handle on a shared value. `Rc::clone` copies the pointer, not
/// the value behind it, so both handles stand for the same value.
#[verifier::external_body]
fn share<T>(shared: &Rc<T>) -> (handle: Rc<T>)
    ensures
        handle == *shared,
{
    Rc::clone(shared)
}

impl Clone for SyntaxElement {
    /// A second handle on the same element; nothing below it is copied.
    fn clone(&self) -> (element: SyntaxElement)
        ensures
            element@ == self@,
    {
        match self {
            SyntaxElement::Token(t) => SyntaxElement::Token(share(t)),
            SyntaxElement::Node(n) => SyntaxElement::Node(share(n)),
        }
    }
}

impl SyntaxNode {
    /// A node of the given kind over the given children.
    pub fn new(kind: NodeKind, children: Vec<SyntaxElement>) -> (node: SyntaxNode)
        ensures
            node@ == (Tree::Node { kind, children: elements_view(children@) }),
    {
        SyntaxNode { kind, children }
    }

    /// The node's kind.
    pub fn kind(&self) -> (kind: NodeKind)
        ensures
            self@ is Node,
            kind == self@->kind,
    {
        self.kind
    }

    /// The node's children in source order.
    pub fn children(&self) -> (children: &Vec<SyntaxElement>)
        ensures
            self@ is Node,
            elements_view(children@) == self@.children(),
            children@.len() == self@.children().len(),
            forall|i: int| 0 <= i < children@.len() ==> (#[trigger] children@[i])@ == self@.children()[i],
    {
        proof {
            lemma_elements_view(self.children@);
        }
        &self.children
    }

    /// Takes the node apart.
    pub fn into_parts(self) -> (parts: (NodeKind, Vec<SyntaxElement>))
        ensures
            self@ == (Tree::Node { kind: parts.0, children: elements_view(parts.1@) }),
    {
        (self.kind, self.children)
    }

    /// Appends the node's text to `out`.
    pub fn append_text(&self, out: &mut Vec<u8>)
        ensures
            final(out)@ == old(out)@ + self@.text(),
        decreases self,
    {
        let ghost forest = elements_view(self.children@);
        proof {
            lemma_elements_view(self.children@);
        }
        let mut i: usize = 0;
        while i < self.children.len()
            invariant
                i <= self.children.len(),
                forest == elements_view(self.children@),
                forest.len() == self.children@.len(),
                forall|j: int| 0 <= j < forest.len() ==> (#[trigger] forest[j]) == self.children@[j]@,
                out@ == old(out)@ + forest_text(forest.take(i as int)),
            decreases self.children.len() - i,
        {
            proof {
                lemma_forest_text_take(forest, i as int);
            }
            self.children[i].append_text(out);
            proof {
                assert(out@ =~= old(out)@ + forest_text(forest.take(i + 1)));
            }
            i += 1;
        }
        proof {
            assert(forest.take(i as int) =~= forest);
        }
    }

    /// The text the node covers, trivia included.
    pub fn text(&self) -> (text: Vec<u8>)
        ensures
            text@ == self@.text(),
    {
        let mut out: Vec<u8> = Vec::new();
        self.append_text(&mut out);
        proof {
            assert(Seq::<u8>::empty() + self@.text() =~= self@.text());
        }
        out
    }

    /// The length of the node's text.
    pub fn text_len(&self) -> (len: usize)
        requires
            self@.text().len() <= usize::MAX,
        ensures
            len == self@.text().len(),
        decreases self,
    {
        let ghost forest = elements_view(self.children@);
        proof {
            lemma_elements_view(self.children@);
        }
        let mut len: usize = 0;
        let mut i: usize = 0;
        while i < self.children.len()
            invariant
                i <= self.children.len(),
                forest == elements_view(self.children@),
                forest.len() == self.children@.len(),
                forall|j: int| 0 <= j < forest.len() ==> (#[trigger] forest[j]) == self.children@[j]@,
                len == forest_text(forest.take(i as int)).len(),
                forest_text(forest).len() <= usize::MAX,
            decreases self.children.len() - i,
        {
            proof {
                lemma_forest_text_take(forest, i as int);
            }
            let n = self.children[i].text_len();
            len = len + n;
            i += 1;
        }
        proof {
            assert(forest.take(i as int) =~= forest);
        }
        len
    }

    /// The length of the node's text, or `None` where it is more than an
    /// offset can say.
    pub fn checked_text_len(&self) -> (len: Option<usize>)
        ensures
            match len {
                Some(n) => n == self@.text().len(),
                None => self@.text().len() > usize::MAX,
            },
        decreases self,
    {
        let ghost forest = elements_view(self.children@);
        proof {
            lemma_elements_view(self.children@);
        }
        let mut len: usize = 0;
        let mut i: usize = 0;
        while i < self.children.len()
            invariant
                i <= self.children.len(),
                forest == elements_view(self.children@),
                forest.len() == self.children@.len(),
                forall|j: int| 0 <= j < forest.len() ==> (#[trigger] forest[j]) == self.children@[j]@,
                len == forest_text(forest.take(i as int)).len(),
            decreases self.children.len() - i,
        {
            proof {
                lemma_forest_text_take(forest, i as int);
            }
            let next = match self.children[i].checked_text_len() {
                Some(n) => len.checked_add(n),
                None => None,
            };
            match next {
                Some(n) => {
                    len = n;
                },
                None => {
                    return None;
                },
            }
            i += 1;
        }
        proof {
            assert(forest.take(i as int) =~= forest);
        }
        Some(len)
    }

    /// Whether every token of the node is well formed.
    pub fn is_well_formed(&self) -> (ok: bool)
        ensures
            ok == self@.wf(),
        decreases self,
    {
        proof {
            lemma_elements_view(self.children@);
        }
        let mut i: usize = 0;
        while i < self.children.len()
            invariant
                i <= self.children.len(),
                elements_view(self.children@).len() == self.children@.len(),
                forall|j: int|
                    0 <= j < self.children@.len() ==> (#[trigger] elements_view(
                        self.children@,
                    )[j]) == self.children@[j]@,
                forall|j: int| 0 <= j < i ==> (#[trigger] elements_view(self.children@)[j]).wf(),
            decreases self.children.len() - i,
        {
            if !self.children[i].is_well_formed() {
                proof {
                    let children = elements_view(self.children@);
                    assert(!children[i as int].wf());
                    assert(self@ == Tree::Node { kind: self.kind, children });
                    if self@.wf() {
                        assert(self@->children[i as int].wf());
                    }
                }
                return false;
            }
            i += 1;
        }
        true
    }

    /// The first token in source order.
    pub fn first_token(&self) -> (token: Option<&SyntaxToken>)
        ensures
            token is Some <==> self@.first_token() is Some,
            token matches Some(t) ==> self@.first_token() == Some(t@),
        decreases self,
    {
        let ghost forest = elements_view(self.children@);
        proof {
            lemma_elements_view(self.children@);
        }
        let mut i: usize = 0;
        proof {
            assert(forest.skip(0) =~= forest);
        }
        while i < self.children.len()
            invariant
                i <= self.children.len(),
                forest == elements_view(self.children@),
                forest.len() == self.children@.len(),
                forall|j: int| 0 <= j < forest.len() ==> (#[trigger] forest[j]) == self.children@[j]@,
                forest_first_token(forest) == forest_first_token(forest.skip(i as int)),
            decreases self.children.len() - i,
        {
            let found = self.children[i].first_token();
            proof {
                assert(forest.skip(i as int).first() == forest[i as int]);
                assert(forest.skip(i as int).drop_first() =~= forest.skip(i + 1));
            }
            if found.is_some() {
                return found;
            }
            i += 1;
        }
        None
    }

    /// The last token in source order.
    pub fn last_token(&self) -> (token: Option<&SyntaxToken>)
        ensures
            token is Some <==> self@.last_token() is Some,
            token matches Some(t) ==> self@.last_token() == Some(t@),
        decreases self,
    {
        let ghost forest = elements_view(self.children@);
        proof {
            lemma_elements_view(self.children@);
        }
        let mut i: usize = self.children.len();
        proof {
            assert(forest.take(i as int) =~= forest);
        }
        while i > 0
            invariant
                i <= self.children.len(),
                forest == elements_view(self.children@),
                forest.len() == self.children@.len(),
                forall|j: int| 0 <= j < forest.len() ==> (#[trigger] forest[j]) == self.children@[j]@,
                forest_last_token(forest) == forest_last_token(forest.take(i as int)),
            decreases i,
        {
            i -= 1;
            let found = self.children[i].last_token();
            proof {
                assert(forest.take(i + 1).last() == forest[i as int]);
                assert(forest.take(i + 1).drop_last() =~= forest.take(i as int));
            }
            if found.is_some() {
                return found;
            }
        }
        None
    }

    /// The child at index `i`, if there is one.
    pub fn child(&self, i: usize) -> (child: Option<&SyntaxElement>)
        ensures
            child is Some <==> i < self@.children().len(),
            child matches Some(e) ==> e@ == self@.children()[i as int],
    {
        proof {
            lemma_elements_view(self.children@);
        }
        if i < self.children.len() {
            Some(&self.children[i])
        } else {
            None
        }
    }

    /// The child at index `i`, if it is a node.
    pub fn child_node(&self, i: usize) -> (child: Option<&SyntaxNode>)
        ensures
            child is Some <==> i < self@.children().len() && self@.children()[i as int] is Node,
            child matches Some(n) ==> n@ == self@.children()[i as int],
    {
        match self.child(i) {
            Some(e) => e.as_node(),
            None => None,
        }
    }

    /// The child at index `i`, if it is a token.
    pub fn child_token(&self, i: usize) -> (child: Option<&SyntaxToken>)
        ensures
            child is Some <==> i < self@.children().len() && self@.children()[i as int] is Token,
            child matches Some(t) ==> self@.children()[i as int] == Tree::Token(t@),
    {
        match self.child(i) {
            Some(e) => e.as_token(),
            None => None,
        }
    }

    /// The number of children.
    pub fn child_count(&self) -> (n: usize)
        ensures
            n == self@.children().len(),
    {
        proof {
            lemma_elements_view(self.children@);
        }
        self.children.len()
    }

    /// The node reached by following `path` from this node.
    pub fn node_at(&self, path: &[usize]) -> (node: Option<&SyntaxNode>)
        ensures
            node is Some <==> (self@.at(path@) matches Some(t) && t is Node),
            node matches Some(n) ==> self@.at(path@) == Some(n@),
    {
        let mut cur: &SyntaxNode = self;
        let mut i: usize = 0;
        proof {
            assert(path@.skip(0) =~= path@);
        }
        while i < path.len()
            invariant
                i <= path.len(),
                self@.at(path@) == cur@.at(path@.skip(i as int)),
            decreases path.len() - i,
        {
            proof {
                assert(path@.skip(i as int)[0] == path@[i as int]);
                assert(path@.skip(i as int).drop_first() =~= path@.skip(i + 1));
            }
            match cur.child(path[i]) {
                Some(e) => match e.as_node() {
                    Some(n) => {
                        cur = n;
                    },
                    None => {
                        proof {
                            let rest = path@.skip(i + 1);
                            assert(e@.at(rest) is Some ==> rest.len() == 0);
                        }
                        return None;
                    },
                },
                None => {
                    return None;
                },
            }
            i += 1;
        }
        Some(cur)
    }

    /// The token reached by following `path` from this node.
    pub fn token_at(&self, path: &[usize]) -> (token: Option<&SyntaxToken>)
        ensures
            token is Some <==> (self@.at(path@) matches Some(t) && t is Token),
            token matches Some(t) ==> self@.at(path@) == Some(Tree::Token(t@)),
    {
        let mut cur: &SyntaxNode = self;
        let mut i: usize = 0;
        proof {
            assert(path@.skip(0) =~= path@);
        }
        while i < path.len()
            invariant
                i <= path.len(),
                self@.at(path@) == cur@.at(path@.skip(i as int)),
            decreases path.len() - i,
        {
            proof {
                assert(path@.skip(i as int)[0] == path@[i as int]);
                assert(path@.skip(i as int).drop_first() =~= path@.skip(i + 1));
            }
            match cur.child(path[i]) {
                Some(e) => match e.as_node() {
                    Some(n) => {
                        cur = n;
                    },
                    None => {
                        proof {
                            let rest = path@.skip(i + 1);
                            assert(e@.at(rest) is Some ==> rest.len() == 0);
                        }
                        if i + 1 == path.len() {
                            return e.as_token();
                        }
                        return None;
                    },
                },
                None => {
                    return None;
                },
            }
            i += 1;
        }
        None
    }

    /// The length of the text of the first `count` children.
    pub fn prefix_len(&self, count: usize) -> (len: usize)
        requires
            self@.text().len() <= usize::MAX,
            count <= self@.children().len(),
        ensures
            len == forest_text(self@.children().take(count as int)).len(),
    {
        let ghost forest = elements_view(self.children@);
        proof {
            lemma_elements_view(self.children@);
        }
        let mut len: usize = 0;
        let mut i: usize = 0;
        while i < count
            invariant
                i <= count <= self.children.len(),
                forest == elements_view(self.children@),
                forest.len() == self.children@.len(),
                forall|j: int| 0 <= j < forest.len() ==> (#[trigger] forest[j]) == self.children@[j]@,
                len == forest_text(forest.take(i as int)).len(),
                forest_text(forest).len() <= usize::MAX,
            decreases count - i,
        {
            proof {
                lemma_forest_text_take(forest, i as int);
            }
            let n = self.children[i].text_len();
            len = len + n;
            i += 1;
        }
        len
    }

    /// The offset, from the start of this node's text, of the element at
    /// `path`; `None` where the path leads nowhere.
    pub fn offset_at(&self, path: &[usize]) -> (offset: Option<usize>)
        requires
            self@.text().len() <= usize::MAX,
        ensures
            offset is Some <==> self@.at(path@) is Some,
            offset matches Some(o) ==> o == self@.offset(path@),
    {
        let mut cur: &SyntaxNode = self;
        let mut acc: usize = 0;
        let mut i: usize = 0;
        proof {
            assert(path@.skip(0) =~= path@);
        }
        while i < path.len()
            invariant
                i <= path.len(),
                self@.at(path@) == cur@.at(path@.skip(i as int)),
                self@.offset(path@) == acc + cur@.offset(path@.skip(i as int)),
                acc + cur@.text().len() <= self@.text().len() <= usize::MAX,
            decreases path.len() - i,
        {
            proof {
                assert(path@.skip(i as int)[0] == path@[i as int]);
                assert(path@.skip(i as int).drop_first() =~= path@.skip(i + 1));
            }
            let index = path[i];
            match cur.child(index) {
                Some(e) => {
                    proof {
                        lemma_forest_text_take(cur@.children(), index as int);
                    }
                    acc = acc + cur.prefix_len(index);
                    match e.as_node() {
                        Some(n) => {
                            cur = n;
                        },
                        None => {
                            proof {
                                let rest = path@.skip(i + 1);
                                assert(e@.at(rest) is Some ==> rest.len() == 0);
                                assert(rest.len() == 0 ==> e@.offset(rest) == 0);
                            }
                            if i + 1 == path.len() {
                                return Some(acc);
                            }
                            return None;
                        },
                    }
                },
                None => {
                    return None;
                },
            }
            i += 1;
        }
        Some(acc)
    }

    /// The text without the leading trivia of the first token and the
    /// trailing trivia of the last one.
    pub fn text_trimmed(&self) -> (text: Vec<u8>)
        requires
            self@.wf(),
        ensures
            text@ == self@.text_trimmed(),
    {
        proof {
            lemma_trim_bounds(self@);
            lemma_end_tokens_wf(self@);
        }
        let full = self.text();
        let before = match self.first_token() {
            Some(t) => t.trimmed_bounds().0,
            None => 0,
        };
        let after = match self.last_token() {
            Some(t) => t.text().len() - t.trimmed_bounds().1,
            None => 0,
        };
        let mut out: Vec<u8> = Vec::new();
        append_bytes(&mut out, full.as_slice(), before, full.len() - after);
        proof {
            assert(out@ =~= self@.text_trimmed());
        }
        out
    }

    /// The range, in this node's text, of the trimmed text of the element
    /// at `path`; `None` where the path leads nowhere.
    pub fn trimmed_range_at(&self, path: &[usize]) -> (range: Option<TextRange>)
        requires
            self@.wf(),
            self@.text().len() <= usize::MAX,
        ensures
            range is Some <==> self@.at(path@) is Some,
            range matches Some(r) ==> r == self@.trimmed_range(path@) && r.start <= r.end
                <= self@.text().len(),
    {
        let offset = match self.offset_at(path) {
            Some(o) => o,
            None => {
                return None;
            },
        };
        proof {
            lemma_offset_bounds(self@, path@);
            lemma_at_wf(self@, path@);
            lemma_trim_bounds(self@.at(path@).unwrap());
            lemma_end_tokens_wf(self@.at(path@).unwrap());
        }
        match self.node_at(path) {
            Some(n) => {
                let len = n.text_len();
                let before = match n.first_token() {
                    Some(t) => t.trimmed_bounds().0,
                    None => 0,
                };
                let after = match n.last_token() {
                    Some(t) => t.text().len() - t.trimmed_bounds().1,
                    None => 0,
                };
                Some(TextRange { start: offset + before, end: offset + len - after })
            },
            None => match self.token_at(path) {
                Some(t) => {
                    let (from, to) = t.trimmed_bounds();
                    Some(TextRange { start: offset + from, end: offset + to })
                },
                None => None,
            },
        }
    }
}

impl Clone for SyntaxNode {
    /// A node over handles on the same children; nothing below it is
    /// copied.
    fn clone(&self) -> (node: SyntaxNode)
        ensures
            node@ == self@,
    {
        let mut children: Vec<SyntaxElement> = Vec::new();
        let mut i: usize = 0;
        while i < self.children.len()
            invariant
                i <= self.children.len(),
                children@.len() == i,
                forall|j: int| 0 <= j < i ==> (#[trigger] children@[j])@ == self.children@[j]@,
            decreases self.children.len() - i,
        {
            children.push(self.children[i].clone());
            i += 1;
        }
        proof {
            assert(elements_view(children@) =~= elements_view(self.children@));
        }
        SyntaxNode { kind: self.kind, children }
    }
}

} // verus!
