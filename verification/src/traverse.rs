//! Walking a tree in source order.
//!
//! A node is named by its path, one child index per level from the root.
//! The walk lists the paths of the nodes that a filter selects, a parent
//! before its children and a child before its later siblings, so each
//! node is met exactly once and in the order of the text.

use vstd::prelude::*;
use crate::kind::NodeKind;
use crate::syntax::{SyntaxNode, Tree};

verus! {

/// The mathematical value of a filter.
pub struct FilterView {
    pub kind: NodeKind,
    pub name: Option<Seq<u8>>,
}

/// Which nodes a walk selects: those of one kind, or those of one kind
/// whose trimmed text is a given name.
#[derive(Debug)]
pub struct Filter {
    kind: NodeKind,
    name: Option<Vec<u8>>,
}

impl View for Filter {
    type V = FilterView;

    closed spec fn view(&self) -> FilterView {
        FilterView {
            kind: self.kind,
            name: match self.name {
                Some(n) => Some(n@),
                None => None,
            },
        }
    }
}

/// Whether the filter selects the tree.
pub open spec fn selects(f: FilterView, t: Tree) -> bool {
    t.is_node_of(f.kind) && match f.name {
        Some(name) => t.text_trimmed() == name,
        None => true,
    }
}

/// The paths of the selected nodes of `t`, in source order; `t` itself
/// stands at `base`.
pub open spec fn descendants(t: Tree, base: Seq<usize>, f: FilterView) -> Seq<Seq<usize>>
    decreases t, 0nat,
{
    match t {
        Tree::Token(_) => Seq::empty(),
        Tree::Node { children, .. } => (if selects(f, t) {
            seq![base]
        } else {
            Seq::empty()
        }) + forest_descendants(children, base, f, children.len()),
    }
}

/// The paths of the selected nodes in the first `n` children of the node
/// at `base`.
pub open spec fn forest_descendants(
    children: Seq<Tree>,
    base: Seq<usize>,
    f: FilterView,
    n: nat,
) -> Seq<Seq<usize>>
    decreases children, n,
{
    if n == 0 || n > children.len() {
        Seq::empty()
    } else {
        forest_descendants(children, base, f, (n - 1) as nat) + descendants(
            children[n - 1],
            base.push((n - 1) as usize),
            f,
        )
    }
}

/// Every path that a walk lists leads to a node that the filter selects:
/// the walk of `t`, which stands at `base` in `root`, lists paths of
/// `root` only.
pub proof fn lemma_descendants_resolve(
    root: Tree,
    base: Seq<usize>,
    t: Tree,
    f: FilterView,
    i: int,
)
    requires
        root.at(base) == Some(t),
        t.countable(),
        0 <= i < descendants(t, base, f).len(),
    ensures
        root.at(descendants(t, base, f)[i]) matches Some(found) && selects(f, found),
        is_prefix(base, descendants(t, base, f)[i]),
    decreases t, 0nat,
{
    match t {
        Tree::Token(_) => {},
        Tree::Node { children, .. } => {
            let own: Seq<Seq<usize>> = if selects(f, t) {
                seq![base]
            } else {
                Seq::empty()
            };
            assert(base.take(base.len() as int) =~= base);
            if i >= own.len() {
                lemma_forest_descendants_resolve(
                    root,
                    base,
                    t,
                    f,
                    children.len(),
                    i - own.len(),
                );
            }
        },
    }
}

/// Every path that the walk of the first `n` children lists leads to a
/// node that the filter selects.
pub proof fn lemma_forest_descendants_resolve(
    root: Tree,
    base: Seq<usize>,
    t: Tree,
    f: FilterView,
    n: nat,
    i: int,
)
    requires
        root.at(base) == Some(t),
        t is Node,
        t.countable(),
        n <= t.children().len(),
        0 <= i < forest_descendants(t.children(), base, f, n).len(),
    ensures
        root.at(forest_descendants(t.children(), base, f, n)[i]) matches Some(found) && selects(
            f,
            found,
        ),
        is_prefix(base, forest_descendants(t.children(), base, f, n)[i]),
    decreases t.children(), n,
{
    let children = t.children();
    if n > 0 {
        let before = forest_descendants(children, base, f, (n - 1) as nat);
        if i < before.len() {
            lemma_forest_descendants_resolve(root, base, t, f, (n - 1) as nat, i);
        } else {
            let index = (n - 1) as usize;
            assert(children[n - 1].countable());
            crate::syntax::lemma_at_push(root, base, index);
            lemma_descendants_resolve(root, base.push(index), children[n - 1], f, i - before.len());
            let found = descendants(children[n - 1], base.push(index), f)[i - before.len()];
            assert(found.take(base.len() as int) =~= base.push(index).take(base.len() as int));
            assert(base.push(index).take(base.len() as int) =~= base);
        }
    }
}

/// Which child the `i`-th path of the walk of the first `n` children
/// comes from, and which place it has in the walk of that child.
pub open spec fn locate(
    children: Seq<Tree>,
    base: Seq<usize>,
    f: FilterView,
    n: nat,
    i: int,
) -> (int, int)
    decreases n,
{
    if n == 0 {
        (0, 0)
    } else {
        let before = forest_descendants(children, base, f, (n - 1) as nat).len();
        if i < before {
            locate(children, base, f, (n - 1) as nat, i)
        } else {
            (n - 1, i - before)
        }
    }
}

/// Where a path of the walk of the children comes from: an earlier path
/// comes from an earlier child, or from an earlier place in the walk of
/// the same child.
pub proof fn lemma_locate(
    children: Seq<Tree>,
    base: Seq<usize>,
    f: FilterView,
    n: nat,
    i: int,
    j: int,
)
    requires
        n <= children.len(),
        0 <= i <= j < forest_descendants(children, base, f, n).len(),
    ensures
        ({
            let (k, at) = locate(children, base, f, n, i);
            &&& 0 <= k < n
            &&& 0 <= at < descendants(children[k], base.push(k as usize), f).len()
            &&& forest_descendants(children, base, f, n)[i] == descendants(
                children[k],
                base.push(k as usize),
                f,
            )[at]
        }),
        ({
            let (k, at) = locate(children, base, f, n, i);
            let (l, bt) = locate(children, base, f, n, j);
            k < l || (k == l && (i < j ==> at < bt))
        }),
    decreases n,
{
    if n > 0 {
        let before = forest_descendants(children, base, f, (n - 1) as nat).len();
        if j < before {
            lemma_locate(children, base, f, (n - 1) as nat, i, j);
        } else if i < before {
            lemma_locate(children, base, f, (n - 1) as nat, i, i);
        }
    }
}

/// A walk meets no node twice: the paths it lists are all different.
pub proof fn lemma_descendants_distinct(t: Tree, base: Seq<usize>, f: FilterView, i: int, j: int)
    requires
        t.countable(),
        0 <= i < j < descendants(t, base, f).len(),
    ensures
        descendants(t, base, f)[i] != descendants(t, base, f)[j],
    decreases t,
{
    match t {
        Tree::Token(_) => {},
        Tree::Node { children, .. } => {
            let own: Seq<Seq<usize>> = if selects(f, t) {
                seq![base]
            } else {
                Seq::empty()
            };
            let rest = forest_descendants(children, base, f, children.len());
            let n = children.len();
            let second = j - own.len();
            lemma_locate(children, base, f, n, second, second);
            let (l, bt) = locate(children, base, f, n, second);
            lemma_prefixed(children[l], base.push(l as usize), f, bt);
            let later = rest[second];
            assert(later[base.len() as int] == l) by {
                assert(later.take(base.len() as int + 1)[base.len() as int] == base.push(
                    l as usize,
                )[base.len() as int]);
            }
            if i >= own.len() {
                let first = i - own.len();
                lemma_locate(children, base, f, n, first, second);
                let (k, at) = locate(children, base, f, n, first);
                lemma_prefixed(children[k], base.push(k as usize), f, at);
                let earlier = rest[first];
                assert(earlier[base.len() as int] == k) by {
                    assert(earlier.take(base.len() as int + 1)[base.len() as int] == base.push(
                        k as usize,
                    )[base.len() as int]);
                }
                if k == l {
                    assert(children[k].countable());
                    lemma_descendants_distinct(children[k], base.push(k as usize), f, at, bt);
                }
            }
        },
    }
}

/// Every path that the walk of `t` lists goes through the place where
/// `t` stands.
pub proof fn lemma_prefixed(t: Tree, base: Seq<usize>, f: FilterView, i: int)
    requires
        0 <= i < descendants(t, base, f).len(),
    ensures
        is_prefix(base, descendants(t, base, f)[i]),
    decreases t,
{
    match t {
        Tree::Token(_) => {},
        Tree::Node { children, .. } => {
            let own: Seq<Seq<usize>> = if selects(f, t) {
                seq![base]
            } else {
                Seq::empty()
            };
            assert(base.take(base.len() as int) =~= base);
            if i >= own.len() {
                let n = children.len();
                let within = i - own.len();
                lemma_locate(children, base, f, n, within, within);
                let (k, at) = locate(children, base, f, n, within);
                lemma_prefixed(children[k], base.push(k as usize), f, at);
                let path = descendants(children[k], base.push(k as usize), f)[at];
                assert(path.take(base.len() as int) =~= base.push(k as usize).take(
                    base.len() as int,
                ));
                assert(base.push(k as usize).take(base.len() as int) =~= base);
            }
        },
    }
}

/// A walk misses nothing: the path of every node of `t` that the filter
/// selects is among the paths that the walk lists.
pub proof fn lemma_descendants_complete(
    t: Tree,
    base: Seq<usize>,
    f: FilterView,
    suffix: Seq<usize>,
)
    requires
        t.countable(),
        t.at(suffix) matches Some(found) && selects(f, found),
    ensures
        descendants(t, base, f).contains(base + suffix),
    decreases suffix.len(),
{
    match t {
        Tree::Token(_) => {
            if suffix.len() == 0 {
                assert(t.at(suffix) == Some(t));
            }
        },
        Tree::Node { children, .. } => {
            let own: Seq<Seq<usize>> = if selects(f, t) {
                seq![base]
            } else {
                Seq::empty()
            };
            let rest = forest_descendants(children, base, f, children.len());
            if suffix.len() == 0 {
                assert(t.at(suffix) == Some(t));
                assert(base + suffix =~= base);
                assert((own + rest)[0] == base);
            } else {
                let k = suffix[0];
                let child = children[k as int];
                assert(child.countable());
                lemma_descendants_complete(child, base.push(k), f, suffix.drop_first());
                assert(base.push(k) + suffix.drop_first() =~= base + suffix);
                lemma_forest_descendants_contains(
                    children,
                    base,
                    f,
                    children.len(),
                    k as int,
                    base + suffix,
                );
                let i = choose|i: int| 0 <= i < rest.len() && rest[i] == base + suffix;
                assert((own + rest)[own.len() + i] == base + suffix);
            }
        },
    }
}

/// What the walk of one child lists is part of what the walk of the
/// children lists.
pub proof fn lemma_forest_descendants_contains(
    children: Seq<Tree>,
    base: Seq<usize>,
    f: FilterView,
    n: nat,
    k: int,
    path: Seq<usize>,
)
    requires
        0 <= k < n <= children.len() <= usize::MAX,
        descendants(children[k], base.push(k as usize), f).contains(path),
    ensures
        forest_descendants(children, base, f, n).contains(path),
    decreases n,
{
    let before = forest_descendants(children, base, f, (n - 1) as nat);
    let last = descendants(children[n - 1], base.push((n - 1) as usize), f);
    if k == n - 1 {
        let i = choose|i: int| 0 <= i < last.len() && last[i] == path;
        assert((before + last)[before.len() + i] == path);
    } else {
        lemma_forest_descendants_contains(children, base, f, (n - 1) as nat, k, path);
        let i = choose|i: int| 0 <= i < before.len() && before[i] == path;
        assert((before + last)[i] == path);
    }
}

/// The values of a run of paths.
pub open spec fn paths_view(paths: Seq<Vec<usize>>) -> Seq<Seq<usize>> {
    paths.map_values(|p: Vec<usize>| p@)
}

/// A copy of a path.
pub fn copy_path(path: &[usize]) -> (out: Vec<usize>)
    ensures
        out@ == path@,
{
    let mut out: Vec<usize> = Vec::new();
    let mut i: usize = 0;
    while i < path.len()
        invariant
            i <= path.len(),
            out@ == path@.take(i as int),
        decreases path.len() - i,
    {
        out.push(path[i]);
        proof {
            assert(path@.take(i + 1) =~= path@.take(i as int).push(path@[i as int]));
        }
        i += 1;
    }
    proof {
        assert(path@.take(i as int) =~= path@);
    }
    out
}

/// The first `n` steps of a path.
pub fn path_prefix(path: &[usize], n: usize) -> (out: Vec<usize>)
    requires
        n <= path.len(),
    ensures
        out@ == path@.take(n as int),
{
    let mut out: Vec<usize> = Vec::new();
    let mut i: usize = 0;
    while i < n
        invariant
            i <= n <= path.len(),
            out@ == path@.take(i as int),
        decreases n - i,
    {
        out.push(path[i]);
        proof {
            assert(path@.take(i + 1) =~= path@.take(i as int).push(path@[i as int]));
        }
        i += 1;
    }
    out
}

/// Whether two byte strings are the same.
pub fn same_bytes(a: &[u8], b: &[u8]) -> (same: bool)
    ensures
        same == (a@ == b@),
{
    if a.len() != b.len() {
        return false;
    }
    let mut i: usize = 0;
    while i < a.len()
        invariant
            a.len() == b.len(),
            i <= a.len(),
            forall|j: int| 0 <= j < i ==> a@[j] == b@[j],
        decreases a.len() - i,
    {
        if a[i] != b[i] {
            return false;
        }
        i += 1;
    }
    proof {
        assert(a@ =~= b@);
    }
    true
}

/// Whether `a` leads to the element at `b` or to one above it.
pub open spec fn is_prefix(a: Seq<usize>, b: Seq<usize>) -> bool {
    a.len() <= b.len() && b.take(a.len() as int) == a
}

/// Whether `a` leads to the element at `b` or to one above it.
pub fn path_is_prefix(a: &[usize], b: &[usize]) -> (r: bool)
    ensures
        r == is_prefix(a@, b@),
{
    if a.len() > b.len() {
        return false;
    }
    let mut i: usize = 0;
    while i < a.len()
        invariant
            a.len() <= b.len(),
            i <= a.len(),
            forall|j: int| 0 <= j < i ==> a@[j] == b@[j],
        decreases a.len() - i,
    {
        if a[i] != b[i] {
            proof {
                assert(b@.take(a@.len() as int)[i as int] != a@[i as int]);
            }
            return false;
        }
        i += 1;
    }
    proof {
        assert(b@.take(a@.len() as int) =~= a@);
    }
    true
}

/// Whether two paths are the same.
pub fn same_path(a: &[usize], b: &[usize]) -> (same: bool)
    ensures
        same == (a@ == b@),
{
    if a.len() != b.len() {
        return false;
    }
    let mut i: usize = 0;
    while i < a.len()
        invariant
            a.len() == b.len(),
            i <= a.len(),
            forall|j: int| 0 <= j < i ==> a@[j] == b@[j],
        decreases a.len() - i,
    {
        if a[i] != b[i] {
            return false;
        }
        i += 1;
    }
    proof {
        assert(a@ =~= b@);
    }
    true
}

impl Filter {
    /// Selects the nodes of one kind.
    pub fn of_kind(kind: NodeKind) -> (f: Filter)
        ensures
            f@ == (FilterView { kind, name: None }),
    {
        Filter { kind, name: None }
    }

    /// Selects the nodes of one kind whose trimmed text is `name`.
    pub fn named(kind: NodeKind, name: Vec<u8>) -> (f: Filter)
        ensures
            f@ == (FilterView { kind, name: Some(name@) }),
    {
        Filter { kind, name: Some(name) }
    }

    /// Whether the filter selects the node.
    pub fn selects(&self, node: &SyntaxNode) -> (b: bool)
        requires
            node@.wf(),
        ensures
            b == selects(self@, node@),
    {
        if node.kind() != self.kind {
            return false;
        }
        match &self.name {
            Some(name) => {
                let text = node.text_trimmed();
                same_bytes(text.as_slice(), name.as_slice())
            },
            None => true,
        }
    }
}

/// Appends to `out` the paths of the nodes of `node` that `filter`
/// selects, in source order. `base` is the path of `node` itself and
/// is left as it was.
pub fn collect_into(
    node: &SyntaxNode,
    base: &mut Vec<usize>,
    filter: &Filter,
    out: &mut Vec<Vec<usize>>,
)
    requires
        node@.wf(),
    ensures
        final(base)@ == old(base)@,
        paths_view(final(out)@) == paths_view(old(out)@) + descendants(node@, old(base)@, filter@),
    decreases node@,
{
    let ghost start = paths_view(out@);
    if filter.selects(node) {
        let here = copy_path(base.as_slice());
        proof {
            assert(paths_view(out@.push(here)) =~= paths_view(out@).push(here@));
            assert(start.push(base@) =~= start + seq![base@]);
        }
        out.push(here);
    }
    let ghost own = paths_view(out@);
    let children = node.children();
    proof {
        assert(forest_descendants(node@.children(), base@, filter@, 0) =~= Seq::empty());
        assert(own + Seq::<Seq<usize>>::empty() =~= own);
    }
    let mut i: usize = 0;
    while i < children.len()
        invariant
            i <= children.len(),
            node@ is Node,
            node@.wf(),
            children@.len() == node@.children().len(),
            forall|j: int|
                0 <= j < children@.len() ==> (#[trigger] children@[j])@ == node@.children()[j],
            base@ == old(base)@,
            paths_view(out@) == own + forest_descendants(
                node@.children(),
                base@,
                filter@,
                i as nat,
            ),
        decreases children.len() - i,
    {
        match children[i].as_node() {
            Some(child) => {
                let ghost before = paths_view(out@);
                base.push(i);
                collect_into(child, base, filter, out);
                base.pop();
                proof {
                    assert(base@ =~= old(base)@);
                    assert(paths_view(out@) =~= own + forest_descendants(
                        node@.children(),
                        base@,
                        filter@,
                        (i + 1) as nat,
                    ));
                }
            },
            None => {
                proof {
                    assert(descendants(node@.children()[i as int], base@.push(i), filter@)
                        =~= Seq::empty());
                    assert(paths_view(out@) =~= own + forest_descendants(
                        node@.children(),
                        base@,
                        filter@,
                        (i + 1) as nat,
                    ));
                }
            },
        }
        i += 1;
    }
    proof {
        assert(paths_view(out@) =~= start + descendants(node@, old(base)@, filter@));
    }
}

/// The paths, from `node`, of its nodes that `filter` selects, in source
/// order.
pub fn collect(node: &SyntaxNode, filter: &Filter) -> (paths: Vec<Vec<usize>>)
    requires
        node@.wf(),
    ensures
        paths_view(paths@) == descendants(node@, Seq::empty(), filter@),
{
    let mut base: Vec<usize> = Vec::new();
    let mut out: Vec<Vec<usize>> = Vec::new();
    collect_into(node, &mut base, filter, &mut out);
    proof {
        assert(paths_view(Seq::<Vec<usize>>::empty()) =~= Seq::empty());
        assert(Seq::<Seq<usize>>::empty() + descendants(node@, Seq::empty(), filter@)
            =~= descendants(node@, Seq::empty(), filter@));
    }
    out
}

} // verus!
