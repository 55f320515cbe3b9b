//! Batch mutation: a set of structural edits that is applied as a whole.
//!
//! Every edit names its target by the path it has in the tree that the
//! batch is applied to, so the edits of one batch do not shift one
//! another. A batch is applied in one pass that rebuilds the nodes on the
//! way to an edit and shares every subtree that no edit lies in. A batch
//! in which an edit names no element of the right sort, or in which one
//! edit lies at or below the target of another, is rejected as a whole.

use vstd::prelude::*;
use crate::syntax::{
    elements_view, lemma_elements_view, lemma_elements_view_push, SyntaxElement, SyntaxNode, Tree,
};
use crate::traverse::{copy_path, is_prefix, path_is_prefix, same_path};

verus! {

/// The mathematical value of an edit.
pub enum EditView {
    /// The node at the path is taken out.
    RemoveNode(Seq<usize>),
    /// The token at the path is taken out.
    RemoveToken(Seq<usize>),
    /// The node at the path gives way to the tree.
    ReplaceNode(Seq<usize>, Tree),
    /// The tree is put in front of the element at the path.
    InsertBefore(Seq<usize>, Tree),
}

impl EditView {
    /// The path of the element that the edit names.
    pub open spec fn path(self) -> Seq<usize> {
        match self {
            EditView::RemoveNode(p) => p,
            EditView::RemoveToken(p) => p,
            EditView::ReplaceNode(p, _) => p,
            EditView::InsertBefore(p, _) => p,
        }
    }

    /// Whether the edit names an element of the right sort below the root.
    pub open spec fn resolves(self, root: Tree) -> bool {
        self.path().len() > 0 && match self {
            EditView::RemoveNode(p) => root.at(p) matches Some(t) && t is Node,
            EditView::RemoveToken(p) => root.at(p) matches Some(t) && t is Token,
            EditView::ReplaceNode(p, _) => root.at(p) matches Some(t) && t is Node,
            EditView::InsertBefore(p, _) => root.at(p) is Some,
        }
    }
}

/// One primitive edit.
#[derive(Debug)]
pub enum Edit {
    /// Take out the node at the path.
    RemoveNode(Vec<usize>),
    /// Take out the token at the path.
    RemoveToken(Vec<usize>),
    /// Put the node in the place of the node at the path.
    ReplaceNode(Vec<usize>, SyntaxNode),
    /// Put the node in front of the element at the path.
    InsertBefore(Vec<usize>, SyntaxNode),
}

impl View for Edit {
    type V = EditView;

    open spec fn view(&self) -> EditView {
        match self {
            Edit::RemoveNode(p) => EditView::RemoveNode(p@),
            Edit::RemoveToken(p) => EditView::RemoveToken(p@),
            Edit::ReplaceNode(p, n) => EditView::ReplaceNode(p@, n@),
            Edit::InsertBefore(p, n) => EditView::InsertBefore(p@, n@),
        }
    }
}

/// The values of a run of edits.
pub open spec fn edits_view(edits: Seq<Edit>) -> Seq<EditView> {
    edits.map_values(|e: Edit| e@)
}

/// Why a batch was rejected.
#[derive(Clone, Copy, Debug, PartialEq, Eq, Structural)]
pub enum MutationError {
    /// An edit names no element of the right sort below the root.
    NotFound,
    /// One edit lies at or below the target of another.
    Conflict,
}

/// Every edit names an element of the right sort.
pub open spec fn all_resolve(root: Tree, edits: Seq<EditView>) -> bool {
    forall|i: int| 0 <= i < edits.len() ==> (#[trigger] edits[i]).resolves(root)
}

/// No edit lies at or below the target of another.
pub open spec fn conflict_free(edits: Seq<EditView>) -> bool {
    forall|i: int, j: int|
        0 <= i < edits.len() && 0 <= j < edits.len() && i != j ==> !is_prefix(
            (#[trigger] edits[i]).path(),
            (#[trigger] edits[j]).path(),
        )
}

/// The first edit among the first `n` that names `path`.
pub open spec fn edit_at(edits: Seq<EditView>, path: Seq<usize>, n: nat) -> Option<EditView>
    decreases n,
{
    if n == 0 || n > edits.len() {
        None
    } else {
        match edit_at(edits, path, (n - 1) as nat) {
            Some(e) => Some(e),
            None => if edits[n - 1].path() == path {
                Some(edits[n - 1])
            } else {
                None
            },
        }
    }
}

/// Whether one of the first `n` edits lies strictly below `path`.
pub open spec fn any_below(edits: Seq<EditView>, path: Seq<usize>, n: nat) -> bool {
    exists|i: int|
        0 <= i < n && i < edits.len() && is_prefix(path, (#[trigger] edits[i]).path())
            && edits[i].path() != path
}

/// The tree `t`, which stands at `here`, after the edits below it.
pub open spec fn rebuild(t: Tree, here: Seq<usize>, edits: Seq<EditView>) -> Tree
    decreases t, 0nat,
{
    match t {
        Tree::Token(_) => t,
        Tree::Node { kind, children } => Tree::Node {
            kind,
            children: rebuild_children(children, here, edits, children.len()),
        },
    }
}

/// The first `n` children of the node at `here` after the edits: a child
/// that an edit removes is left out, one that an edit replaces gives way
/// to its replacement, one that an edit inserts before is kept as it is
/// behind the new node, and any other is rebuilt in turn.
pub open spec fn rebuild_children(
    children: Seq<Tree>,
    here: Seq<usize>,
    edits: Seq<EditView>,
    n: nat,
) -> Seq<Tree>
    decreases children, n,
{
    if n == 0 || n > children.len() {
        Seq::empty()
    } else {
        let before = rebuild_children(children, here, edits, (n - 1) as nat);
        let path = here.push((n - 1) as usize);
        match edit_at(edits, path, edits.len()) {
            Some(EditView::RemoveNode(_)) => before,
            Some(EditView::RemoveToken(_)) => before,
            Some(EditView::ReplaceNode(_, replacement)) => before.push(replacement),
            Some(EditView::InsertBefore(_, inserted)) => before.push(inserted).push(
                children[n - 1],
            ),
            None => before.push(rebuild(children[n - 1], path, edits)),
        }
    }
}

/// What applying a batch to a tree yields.
pub open spec fn apply(root: Tree, edits: Seq<EditView>) -> Result<Tree, MutationError> {
    if !all_resolve(root, edits) {
        Err(MutationError::NotFound)
    } else if !conflict_free(edits) {
        Err(MutationError::Conflict)
    } else {
        Ok(rebuild(root, Seq::empty(), edits))
    }
}

/// A subtree that no edit lies in comes out of the rebuild as it went in.
pub proof fn lemma_rebuild_untouched(t: Tree, here: Seq<usize>, edits: Seq<EditView>)
    requires
        forall|i: int| 0 <= i < edits.len() ==> !is_prefix(here, (#[trigger] edits[i]).path()) || edits[i].path() == here,
    ensures
        rebuild(t, here, edits) == t,
    decreases t, 0nat,
{
    match t {
        Tree::Token(_) => {},
        Tree::Node { kind, children } => {
            lemma_rebuild_children_untouched(children, here, edits, children.len());
            assert(children.take(children.len() as int) =~= children);
        },
    }
}

/// The children of a node that no edit lies below come out of the rebuild
/// as they went in.
pub proof fn lemma_rebuild_children_untouched(
    children: Seq<Tree>,
    here: Seq<usize>,
    edits: Seq<EditView>,
    n: nat,
)
    requires
        n <= children.len(),
        forall|i: int| 0 <= i < edits.len() ==> !is_prefix(here, (#[trigger] edits[i]).path()) || edits[i].path() == here,
    ensures
        rebuild_children(children, here, edits, n) == children.take(n as int),
    decreases children, n,
{
    if n == 0 {
        assert(children.take(0) =~= Seq::<Tree>::empty());
    } else {
        let path = here.push((n - 1) as usize);
        lemma_rebuild_children_untouched(children, here, edits, (n - 1) as nat);
        assert forall|i: int| 0 <= i < edits.len() implies !is_prefix(
            path,
            (#[trigger] edits[i]).path(),
        ) by {
            if is_prefix(path, edits[i].path()) {
                assert(edits[i].path().take(here.len() as int) =~= path.take(here.len() as int));
                assert(path.take(here.len() as int) =~= here);
                assert(is_prefix(here, edits[i].path()));
                assert(edits[i].path().len() > here.len());
            }
        }
        assert forall|i: int| 0 <= i < edits.len() implies (#[trigger] edits[i]).path() != path by {
            assert(path.take(path.len() as int) =~= path);
        }
        lemma_edit_at_none(edits, path, edits.len());
        lemma_rebuild_untouched(children[n - 1], path, edits);
        assert(children.take(n as int) =~= children.take(n - 1).push(children[n - 1]));
    }
}

/// What the edits put into a tree is well formed.
pub open spec fn insertions_wf(edits: Seq<EditView>) -> bool {
    forall|i: int|
        0 <= i < edits.len() ==> match #[trigger] edits[i] {
            EditView::ReplaceNode(_, t) => t.wf(),
            EditView::InsertBefore(_, t) => t.wf(),
            _ => true,
        }
}

/// A well-formed tree stays well formed under edits that put in nothing
/// but well-formed trees.
pub proof fn lemma_rebuild_wf(t: Tree, here: Seq<usize>, edits: Seq<EditView>)
    requires
        t.wf(),
        insertions_wf(edits),
    ensures
        rebuild(t, here, edits).wf(),
    decreases t, 0nat,
{
    match t {
        Tree::Token(_) => {},
        Tree::Node { kind, children } => {
            lemma_rebuild_children_wf(children, here, edits, children.len());
            let rebuilt = rebuild_children(children, here, edits, children.len());
            assert(rebuild(t, here, edits) == Tree::Node { kind, children: rebuilt });
        },
    }
}

/// The children of a well-formed node stay well formed under edits that
/// put in nothing but well-formed trees.
pub proof fn lemma_rebuild_children_wf(
    children: Seq<Tree>,
    here: Seq<usize>,
    edits: Seq<EditView>,
    n: nat,
)
    requires
        n <= children.len(),
        forall|i: int| 0 <= i < children.len() ==> (#[trigger] children[i]).wf(),
        insertions_wf(edits),
    ensures
        forall|i: int|
            0 <= i < rebuild_children(children, here, edits, n).len() ==> (
            #[trigger] rebuild_children(children, here, edits, n)[i]).wf(),
    decreases children, n,
{
    if n > 0 {
        let path = here.push((n - 1) as usize);
        let before = rebuild_children(children, here, edits, (n - 1) as nat);
        let after = rebuild_children(children, here, edits, n);
        lemma_rebuild_children_wf(children, here, edits, (n - 1) as nat);
        lemma_edit_at_some(edits, path, edits.len());
        assert(children[n - 1].wf());
        lemma_rebuild_wf(children[n - 1], path, edits);
        match edit_at(edits, path, edits.len()) {
            Some(e) => {
                let k = choose|k: int| 0 <= k < edits.len() && edits[k] == e;
                assert(edits[k] == e);
            },
            None => {},
        }
        assert forall|i: int| 0 <= i < after.len() implies (#[trigger] after[i]).wf() by {
            if i < before.len() {
                assert(after[i] == before[i]);
            }
        }
    }
}

/// Applying a batch that puts in nothing but well-formed trees to a
/// well-formed tree yields a well-formed tree.
pub proof fn lemma_apply_wf(root: Tree, edits: Seq<EditView>)
    requires
        root.wf(),
        insertions_wf(edits),
    ensures
        apply(root, edits) matches Ok(tree) ==> tree.wf(),
{
    lemma_rebuild_wf(root, Seq::empty(), edits);
}

/// A batch without edits leaves the tree as it is.
pub proof fn lemma_apply_nothing(root: Tree)
    ensures
        apply(root, Seq::empty()) == Ok::<Tree, MutationError>(root),
{
    lemma_rebuild_untouched(root, Seq::empty(), Seq::empty());
}

/// Where no edit names `path`, none is found there.
pub proof fn lemma_edit_at_none(edits: Seq<EditView>, path: Seq<usize>, n: nat)
    requires
        n <= edits.len(),
        forall|i: int| 0 <= i < n ==> (#[trigger] edits[i]).path() != path,
    ensures
        edit_at(edits, path, n) is None,
    decreases n,
{
    if n > 0 {
        lemma_edit_at_none(edits, path, (n - 1) as nat);
    }
}

/// An edit that is found names the path it was looked up by, and is one
/// of the edits.
pub proof fn lemma_edit_at_some(edits: Seq<EditView>, path: Seq<usize>, n: nat)
    requires
        n <= edits.len(),
    ensures
        edit_at(edits, path, n) matches Some(e) ==> e.path() == path && exists|i: int|
            0 <= i < n && edits[i] == e,
        edit_at(edits, path, n) is None ==> forall|i: int|
            0 <= i < n ==> (#[trigger] edits[i]).path() != path,
    decreases n,
{
    if n > 0 {
        lemma_edit_at_some(edits, path, (n - 1) as nat);
    }
}

/// A batch of edits, in the order in which they were asked for.
#[derive(Debug)]
pub struct BatchMutation {
    edits: Vec<Edit>,
}

impl View for BatchMutation {
    type V = Seq<EditView>;

    closed spec fn view(&self) -> Seq<EditView> {
        edits_view(self.edits@)
    }
}

impl Edit {
    /// The path of the element that the edit names.
    pub fn path(&self) -> (path: &Vec<usize>)
        ensures
            path@ == self@.path(),
    {
        match self {
            Edit::RemoveNode(p) => p,
            Edit::RemoveToken(p) => p,
            Edit::ReplaceNode(p, _) => p,
            Edit::InsertBefore(p, _) => p,
        }
    }

    /// Whether the edit names an element of the right sort below the root.
    pub fn resolves(&self, root: &SyntaxNode) -> (r: bool)
        ensures
            r == self@.resolves(root@),
    {
        match self {
            Edit::RemoveNode(p) => p.len() > 0 && root.node_at(p.as_slice()).is_some(),
            Edit::RemoveToken(p) => p.len() > 0 && root.token_at(p.as_slice()).is_some(),
            Edit::ReplaceNode(p, _) => p.len() > 0 && root.node_at(p.as_slice()).is_some(),
            Edit::InsertBefore(p, _) => p.len() > 0 && (root.node_at(p.as_slice()).is_some()
                || root.token_at(p.as_slice()).is_some()),
        }
    }
}

impl BatchMutation {
    /// A batch without edits.
    pub fn new() -> (batch: BatchMutation)
        ensures
            batch@ == Seq::<EditView>::empty(),
    {
        let batch = BatchMutation { edits: Vec::new() };
        proof {
            assert(batch@ =~= Seq::<EditView>::empty());
        }
        batch
    }

    /// The number of edits in the batch.
    pub fn len(&self) -> (n: usize)
        ensures
            n == self@.len(),
    {
        self.edits.len()
    }

    /// The edits, in the order in which they were asked for.
    pub fn edits(&self) -> (edits: &Vec<Edit>)
        ensures
            edits_view(edits@) == self@,
    {
        &self.edits
    }

    fn push(&mut self, edit: Edit)
        ensures
            final(self)@ == old(self)@.push(edit@),
    {
        proof {
            assert(edits_view(self.edits@.push(edit)) =~= edits_view(self.edits@).push(edit@));
        }
        self.edits.push(edit);
    }

    /// Asks for the node at `path` to be removed.
    pub fn remove_node(&mut self, path: &[usize])
        ensures
            final(self)@ == old(self)@.push(EditView::RemoveNode(path@)),
    {
        self.push(Edit::RemoveNode(copy_path(path)));
    }

    /// Asks for the token at `path` to be removed.
    pub fn remove_token(&mut self, path: &[usize])
        ensures
            final(self)@ == old(self)@.push(EditView::RemoveToken(path@)),
    {
        self.push(Edit::RemoveToken(copy_path(path)));
    }

    /// Asks for the node at `path` to give way to `replacement`. The
    /// replacement comes with its own trivia; that of the node it replaces
    /// goes with the node.
    pub fn replace_node(&mut self, path: &[usize], replacement: SyntaxNode)
        ensures
            final(self)@ == old(self)@.push(EditView::ReplaceNode(path@, replacement@)),
    {
        self.push(Edit::ReplaceNode(copy_path(path), replacement));
    }

    /// Asks for `inserted` to be put in front of the element at `path`.
    pub fn insert_before(&mut self, path: &[usize], inserted: SyntaxNode)
        ensures
            final(self)@ == old(self)@.push(EditView::InsertBefore(path@, inserted@)),
    {
        self.push(Edit::InsertBefore(copy_path(path), inserted));
    }

    /// Whether every edit names an element of the right sort.
    pub fn resolves(&self, root: &SyntaxNode) -> (r: bool)
        ensures
            r == all_resolve(root@, self@),
    {
        let mut i: usize = 0;
        while i < self.edits.len()
            invariant
                i <= self.edits.len(),
                forall|j: int| 0 <= j < i ==> (#[trigger] self@[j]).resolves(root@),
            decreases self.edits.len() - i,
        {
            if !self.edits[i].resolves(root) {
                proof {
                    assert(!self@[i as int].resolves(root@));
                }
                return false;
            }
            i += 1;
        }
        true
    }

    /// Whether no edit lies at or below the target of another.
    pub fn is_conflict_free(&self) -> (r: bool)
        ensures
            r == conflict_free(self@),
    {
        let mut i: usize = 0;
        while i < self.edits.len()
            invariant
                i <= self.edits.len(),
                forall|a: int, b: int|
                    0 <= a < i && 0 <= b < self@.len() && a != b ==> !is_prefix(
                        (#[trigger] self@[a]).path(),
                        (#[trigger] self@[b]).path(),
                    ),
            decreases self.edits.len() - i,
        {
            let mut j: usize = 0;
            while j < self.edits.len()
                invariant
                    i < self.edits.len(),
                    j <= self.edits.len(),
                    forall|b: int|
                        0 <= b < j && i != b ==> !is_prefix(
                            self@[i as int].path(),
                            (#[trigger] self@[b]).path(),
                        ),
                decreases self.edits.len() - j,
            {
                if i != j && path_is_prefix(
                    self.edits[i].path().as_slice(),
                    self.edits[j].path().as_slice(),
                ) {
                    proof {
                        assert(is_prefix(self@[i as int].path(), self@[j as int].path()));
                    }
                    return false;
                }
                j += 1;
            }
            i += 1;
        }
        true
    }

    /// The first edit that names `path`.
    fn find(&self, path: &[usize]) -> (found: Option<&Edit>)
        ensures
            match found {
                Some(e) => edit_at(self@, path@, self@.len()) == Some(e@),
                None => edit_at(self@, path@, self@.len()) is None,
            },
    {
        let mut i: usize = 0;
        while i < self.edits.len()
            invariant
                i <= self.edits.len(),
                edit_at(self@, path@, i as nat) is None,
            decreases self.edits.len() - i,
        {
            if same_path(self.edits[i].path().as_slice(), path) {
                proof {
                    lemma_edit_at_found(self@, path@, (i + 1) as nat, self@.len());
                }
                return Some(&self.edits[i]);
            }
            i += 1;
        }
        None
    }

    /// Whether an edit lies strictly below `path`.
    fn touches_below(&self, path: &[usize]) -> (r: bool)
        ensures
            r == any_below(self@, path@, self@.len()),
    {
        let mut i: usize = 0;
        while i < self.edits.len()
            invariant
                i <= self.edits.len(),
                !any_below(self@, path@, i as nat),
            decreases self.edits.len() - i,
        {
            let target = self.edits[i].path();
            if path_is_prefix(path, target.as_slice()) && !same_path(target.as_slice(), path) {
                proof {
                    assert(is_prefix(path@, self@[i as int].path()));
                }
                return true;
            }
            i += 1;
        }
        false
    }

    /// Rebuilds `node`, which stands at `here`, under the edits below it.
    fn rebuild(&self, node: &SyntaxNode, here: &mut Vec<usize>) -> (rebuilt: SyntaxNode)
        ensures
            final(here)@ == old(here)@,
            rebuilt@ == rebuild(node@, old(here)@, self@),
        decreases node@,
    {
        let children = node.children();
        let mut out: Vec<SyntaxElement> = Vec::new();
        proof {
            lemma_elements_view(out@);
            assert(elements_view(out@) =~= Seq::<Tree>::empty());
        }
        let mut i: usize = 0;
        while i < children.len()
            invariant
                i <= children.len(),
                node@ is Node,
                children@.len() == node@.children().len(),
                forall|j: int|
                    0 <= j < children@.len() ==> (#[trigger] children@[j])@ == node@.children()[j],
                here@ == old(here)@,
                elements_view(out@) == rebuild_children(
                    node@.children(),
                    here@,
                    self@,
                    i as nat,
                ),
            decreases children.len() - i,
        {
            here.push(i);
            let child = &children[i];
            let ghost before = elements_view(out@);
            let ghost target = rebuild_children(node@.children(), old(here)@, self@, (i + 1) as nat);
            let found = self.find(here.as_slice());
            proof {
                assert(here@ == old(here)@.push(i));
                assert(before == rebuild_children(node@.children(), old(here)@, self@, i as nat));
                assert(target == match edit_at(self@, here@, self@.len()) {
                    Some(EditView::RemoveNode(_)) => before,
                    Some(EditView::RemoveToken(_)) => before,
                    Some(EditView::ReplaceNode(_, replacement)) => before.push(replacement),
                    Some(EditView::InsertBefore(_, inserted)) => before.push(inserted).push(
                        node@.children()[i as int],
                    ),
                    None => before.push(rebuild(node@.children()[i as int], here@, self@)),
                });
            }
            match found {
                Some(Edit::RemoveNode(_)) => {},
                Some(Edit::RemoveToken(_)) => {},
                Some(Edit::ReplaceNode(_, replacement)) => {
                    let element = SyntaxElement::from_node(replacement.clone());
                    proof {
                        lemma_elements_view_push(out@, element);
                    }
                    out.push(element);
                },
                Some(Edit::InsertBefore(_, inserted)) => {
                    let element = SyntaxElement::from_node(inserted.clone());
                    proof {
                        lemma_elements_view_push(out@, element);
                    }
                    out.push(element);
                    let kept = child.clone();
                    proof {
                        lemma_elements_view_push(out@, kept);
                    }
                    out.push(kept);
                },
                None => {
                    let element = match child.as_node() {
                        Some(n) => {
                            if self.touches_below(here.as_slice()) {
                                SyntaxElement::from_node(self.rebuild(n, here))
                            } else {
                                proof {
                                    lemma_edit_at_some(self@, here@, self@.len());
                                    assert forall|k: int| 0 <= k < self@.len() implies !is_prefix(
                                        here@,
                                        (#[trigger] self@[k]).path(),
                                    ) || self@[k].path() == here@ by {
                                        if is_prefix(here@, self@[k].path()) && self@[k].path()
                                            != here@ {
                                            assert(any_below(self@, here@, self@.len()));
                                        }
                                    }
                                    lemma_rebuild_untouched(n@, here@, self@);
                                }
                                child.clone()
                            }
                        },
                        None => child.clone(),
                    };
                    proof {
                        lemma_elements_view_push(out@, element);
                    }
                    out.push(element);
                },
            }
            here.pop();
            proof {
                assert(here@ =~= old(here)@);
                assert(elements_view(out@) == target);
            }
            i += 1;
        }
        SyntaxNode::new(node.kind(), out)
    }

    /// Applies the batch to `root` and returns the new tree; `root` itself
    /// is left as it is. Either every edit takes effect, or the batch is
    /// rejected and nothing is built.
    pub fn commit(&self, root: &SyntaxNode) -> (result: Result<SyntaxNode, MutationError>)
        ensures
            match result {
                Ok(tree) => apply(root@, self@) == Ok::<Tree, MutationError>(tree@),
                Err(e) => apply(root@, self@) == Err::<Tree, MutationError>(e),
            },
            root@.wf() && insertions_wf(self@) ==> (result matches Ok(tree) ==> tree@.wf()),
    {
        proof {
            if root@.wf() && insertions_wf(self@) {
                lemma_apply_wf(root@, self@);
            }
        }
        if !self.resolves(root) {
            return Err(MutationError::NotFound);
        }
        if !self.is_conflict_free() {
            return Err(MutationError::Conflict);
        }
        let mut here: Vec<usize> = Vec::new();
        Ok(self.rebuild(root, &mut here))
    }
}

/// An edit that names `path` and has none before it that does is the one
/// that is found there.
pub proof fn lemma_edit_at_found(edits: Seq<EditView>, path: Seq<usize>, k: nat, n: nat)
    requires
        0 < k <= n <= edits.len(),
        edit_at(edits, path, (k - 1) as nat) is None,
        edits[k - 1].path() == path,
    ensures
        edit_at(edits, path, n) == Some(edits[k - 1]),
    decreases n - k,
{
    if n > k {
        lemma_edit_at_found(edits, path, k, (n - 1) as nat);
    }
}

} // verus!
