//! The semantic model: which names a script binds, where each binding is
//! in scope, and which identifiers refer to it.
//!
//! The model is derived from one tree and speaks of that tree only: its
//! paths are paths in it. A tree that was changed needs a model of its own.
//!
//! Resolution goes by name and scope alone. An identifier refers to a
//! binding when it reads the binding's name inside the binding's scope;
//! an inner binding of the same name does not hide an outer one.

use vstd::prelude::*;
use crate::kind::NodeKind;
use crate::syntax::{lemma_at_concat, lemma_at_countable, lemma_at_wf, SyntaxNode, Tree};
use crate::traverse::{
    collect, collect_into, copy_path, descendants, is_prefix, lemma_descendants_complete,
    lemma_descendants_resolve, path_prefix, paths_view, same_path, selects, Filter, FilterView,
};

verus! {

/// Whether nodes of the kind open a scope.
pub open spec fn is_scope_kind(kind: NodeKind) -> bool {
    matches!(
        kind,
        NodeKind::JsModule | NodeKind::JsBlockStatement | NodeKind::JsArrowFunctionExpression
            | NodeKind::JsForOfStatement
    )
}

/// Whether nodes of the kind open a scope.
pub fn is_scope(kind: NodeKind) -> (b: bool)
    ensures
        b == is_scope_kind(kind),
{
    match kind {
        NodeKind::JsModule
        | NodeKind::JsBlockStatement
        | NodeKind::JsArrowFunctionExpression
        | NodeKind::JsForOfStatement => true,
        _ => false,
    }
}

/// The path of the innermost scope around the element at `path`; the
/// root where no node above it opens a scope.
pub open spec fn declaring_scope(root: Tree, path: Seq<usize>) -> Seq<usize>
    decreases path.len(),
{
    if path.len() == 0 {
        path
    } else {
        let above = path.drop_last();
        match root.at(above) {
            Some(Tree::Node { kind, .. }) => if is_scope_kind(kind) {
                above
            } else {
                declaring_scope(root, above)
            },
            _ => declaring_scope(root, above),
        }
    }
}

/// The filter that selects the bindings of a tree.
pub open spec fn binding_filter() -> FilterView {
    FilterView { kind: NodeKind::JsIdentifierBinding, name: None }
}

/// The filter that selects the identifiers that read `name`.
pub open spec fn reference_filter(name: Seq<u8>) -> FilterView {
    FilterView { kind: NodeKind::JsReferenceIdentifier, name: Some(name) }
}

/// The paths of the identifiers that refer to the binding at `binding`,
/// in source order: those in the binding's scope that read its name.
pub open spec fn references_of(root: Tree, binding: Seq<usize>) -> Seq<Seq<usize>>
    recommends
        root.at(binding) is Some,
{
    let scope = declaring_scope(root, binding);
    match root.at(scope) {
        Some(within) => descendants(
            within,
            scope,
            reference_filter(root.at(binding).unwrap().text_trimmed()),
        ),
        None => Seq::empty(),
    }
}

/// The mathematical value of a binding's entry in the model.
pub struct BindingView {
    pub node: Seq<usize>,
    pub scope: Seq<usize>,
    pub references: Seq<Seq<usize>>,
}

/// What the model of a tree holds for the binding at `path`.
pub open spec fn binding_of(root: Tree, path: Seq<usize>) -> BindingView {
    BindingView {
        node: path,
        scope: declaring_scope(root, path),
        references: references_of(root, path),
    }
}

/// The model of a tree: one entry for each binding, in source order.
pub open spec fn model_of(root: Tree) -> Seq<BindingView> {
    descendants(root, Seq::empty(), binding_filter()).map_values(
        |path: Seq<usize>| binding_of(root, path),
    )
}

/// The references of the first entry for the binding at `path`.
pub open spec fn lookup(model: Seq<BindingView>, path: Seq<usize>, n: nat) -> Option<
    Seq<Seq<usize>>,
>
    decreases n,
{
    if n == 0 || n > model.len() {
        None
    } else {
        match lookup(model, path, (n - 1) as nat) {
            Some(found) => Some(found),
            None => if model[n - 1].node == path {
                Some(model[n - 1].references)
            } else {
                None
            },
        }
    }
}

/// An identifier that refers to a binding, named by its path.
#[derive(Debug, PartialEq, Eq)]
pub struct Reference {
    node: Vec<usize>,
}

impl View for Reference {
    type V = Seq<usize>;

    closed spec fn view(&self) -> Seq<usize> {
        self.node@
    }
}

/// The values of a run of references.
pub open spec fn references_view(references: Seq<Reference>) -> Seq<Seq<usize>> {
    references.map_values(|r: Reference| r@)
}

impl Reference {
    /// The path of the identifier.
    pub fn node(&self) -> (path: &Vec<usize>)
        ensures
            path@ == self@,
    {
        &self.node
    }
}

impl Clone for Reference {
    fn clone(&self) -> (copy: Reference)
        ensures
            copy@ == self@,
    {
        Reference { node: copy_path(self.node.as_slice()) }
    }
}

/// One binding with its scope and its references.
#[derive(Debug)]
pub struct Binding {
    node: Vec<usize>,
    scope: Vec<usize>,
    references: Vec<Reference>,
}

impl View for Binding {
    type V = BindingView;

    closed spec fn view(&self) -> BindingView {
        BindingView {
            node: self.node@,
            scope: self.scope@,
            references: references_view(self.references@),
        }
    }
}

impl Binding {
    /// The path of the binding.
    pub fn node(&self) -> (path: &Vec<usize>)
        ensures
            path@ == self@.node,
    {
        &self.node
    }

    /// The path of the scope the binding belongs to.
    pub fn scope(&self) -> (path: &Vec<usize>)
        ensures
            path@ == self@.scope,
    {
        &self.scope
    }

    /// The identifiers that refer to the binding, in source order.
    pub fn references(&self) -> (references: &Vec<Reference>)
        ensures
            references_view(references@) == self@.references,
    {
        &self.references
    }
}

/// The values of a run of bindings.
pub open spec fn bindings_view(bindings: Seq<Binding>) -> Seq<BindingView> {
    bindings.map_values(|b: Binding| b@)
}

/// The semantic model of one tree.
#[derive(Debug)]
pub struct SemanticModel {
    bindings: Vec<Binding>,
}

impl View for SemanticModel {
    type V = Seq<BindingView>;

    closed spec fn view(&self) -> Seq<BindingView> {
        bindings_view(self.bindings@)
    }
}

/// The path of the innermost scope around the element at `path`.
pub fn scope_of(root: &SyntaxNode, path: &[usize]) -> (scope: Vec<usize>)
    ensures
        scope@ == declaring_scope(root@, path@),
{
    let mut n: usize = path.len();
    proof {
        assert(path@.take(n as int) =~= path@);
    }
    while n > 0
        invariant
            n <= path.len(),
            declaring_scope(root@, path@) == declaring_scope(root@, path@.take(n as int)),
        decreases n,
    {
        n -= 1;
        let above = path_prefix(path, n);
        proof {
            assert(path@.take(n + 1).drop_last() =~= path@.take(n as int));
        }
        match root.node_at(above.as_slice()) {
            Some(node) => {
                if is_scope(node.kind()) {
                    return above;
                }
            },
            None => {},
        }
    }
    path_prefix(path, 0)
}

/// The identifiers that refer to the binding at `binding`, in source
/// order.
pub fn find_references(root: &SyntaxNode, binding: &[usize]) -> (references: Vec<Reference>)
    requires
        root@.wf(),
        root@.at(binding@) matches Some(t) && t is Node,
    ensures
        references_view(references@) == references_of(root@, binding@),
{
    let scope = scope_of(root, binding);
    let name = match root.node_at(binding) {
        Some(node) => {
            proof {
                lemma_at_wf(root@, binding@);
            }
            node.text_trimmed()
        },
        None => Vec::new(),
    };
    let mut found: Vec<Vec<usize>> = Vec::new();
    match root.node_at(scope.as_slice()) {
        Some(within) => {
            proof {
                lemma_at_wf(root@, scope@);
            }
            let filter = Filter::named(NodeKind::JsReferenceIdentifier, name);
            let mut base = copy_path(scope.as_slice());
            collect_into(within, &mut base, &filter, &mut found);
            proof {
                assert(paths_view(Seq::<Vec<usize>>::empty()) =~= Seq::empty());
                assert(Seq::<Seq<usize>>::empty() + references_of(root@, binding@)
                    =~= references_of(root@, binding@));
            }
        },
        None => {
            proof {
                lemma_scope_is_node(root@, binding@);
            }
        },
    }
    let mut references: Vec<Reference> = Vec::new();
    let mut i: usize = 0;
    while i < found.len()
        invariant
            i <= found.len(),
            references@.len() == i,
            forall|j: int| 0 <= j < i ==> (#[trigger] references@[j])@ == found@[j]@,
        decreases found.len() - i,
    {
        references.push(Reference { node: copy_path(found[i].as_slice()) });
        i += 1;
    }
    proof {
        assert(references_view(references@) =~= paths_view(found@));
    }
    references
}

/// The scope of an element of a tree is a node of that tree.
pub proof fn lemma_scope_is_node(root: Tree, path: Seq<usize>)
    requires
        root.at(path) matches Some(t) && t is Node,
    ensures
        root.at(declaring_scope(root, path)) matches Some(t) && t is Node,
    decreases path.len(),
{
    if path.len() > 0 {
        let above = path.drop_last();
        crate::syntax::lemma_at_push(root, above, path.last());
        assert(above.push(path.last()) =~= path);
        match root.at(above) {
            Some(Tree::Node { kind, .. }) => {
                if !is_scope_kind(kind) {
                    lemma_scope_is_node(root, above);
                }
            },
            _ => {},
        }
    }
}

impl SemanticModel {
    /// Builds the model of `root` in one pass over its bindings.
    pub fn build(root: &SyntaxNode) -> (model: SemanticModel)
        requires
            root@.wf(),
        ensures
            model@ == model_of(root@),
    {
        let paths = collect(root, &Filter::of_kind(NodeKind::JsIdentifierBinding));
        let ghost wanted = descendants(root@, Seq::empty(), binding_filter());
        let mut bindings: Vec<Binding> = Vec::new();
        let mut i: usize = 0;
        while i < paths.len()
            invariant
                i <= paths.len(),
                root@.wf(),
                paths_view(paths@) == wanted,
                wanted == descendants(root@, Seq::empty(), binding_filter()),
                bindings@.len() == i,
                forall|j: int|
                    0 <= j < i ==> (#[trigger] bindings@[j])@ == binding_of(root@, wanted[j]),
            decreases paths.len() - i,
        {
            let path = &paths[i];
            proof {
                assert(paths_view(paths@)[i as int] == path@);
                crate::syntax::lemma_node_countable(root);
                crate::traverse::lemma_descendants_resolve(
                    root@,
                    Seq::empty(),
                    root@,
                    binding_filter(),
                    i as int,
                );
            }
            let binding = Binding {
                node: copy_path(path.as_slice()),
                scope: scope_of(root, path.as_slice()),
                references: find_references(root, path.as_slice()),
            };
            bindings.push(binding);
            i += 1;
        }
        let model = SemanticModel { bindings };
        proof {
            assert(model@ =~= model_of(root@));
        }
        model
    }

    /// The bindings of the tree, in source order.
    pub fn bindings(&self) -> (bindings: &Vec<Binding>)
        ensures
            bindings_view(bindings@) == self@,
    {
        &self.bindings
    }

    /// The identifiers that refer to the binding at `binding`, in source
    /// order; `None` where the model knows no binding there.
    pub fn all_references(&self, binding: &[usize]) -> (references: Option<&Vec<Reference>>)
        ensures
            match references {
                Some(r) => lookup(self@, binding@, self@.len()) == Some(references_view(r@)),
                None => lookup(self@, binding@, self@.len()) is None,
            },
    {
        let mut i: usize = 0;
        while i < self.bindings.len()
            invariant
                i <= self.bindings.len(),
                lookup(self@, binding@, i as nat) is None,
            decreases self.bindings.len() - i,
        {
            if same_path(self.bindings[i].node.as_slice(), binding) {
                proof {
                    lemma_lookup_found(self@, binding@, (i + 1) as nat, self@.len());
                }
                return Some(&self.bindings[i].references);
            }
            i += 1;
        }
        None
    }
}

/// The references of a binding are exactly the identifiers in the scope
/// of the binding that read its name: none is left out, and nothing else
/// is listed.
pub proof fn lemma_references_exact(root: Tree, binding: Seq<usize>, path: Seq<usize>)
    requires
        root.countable(),
        root.at(binding) matches Some(t) && t is Node,
    ensures
        references_of(root, binding).contains(path) <==> (is_prefix(
            declaring_scope(root, binding),
            path,
        ) && (root.at(path) matches Some(found) && found.is_node_of(
            NodeKind::JsReferenceIdentifier,
        ) && found.text_trimmed() == root.at(binding).unwrap().text_trimmed())),
{
    let scope = declaring_scope(root, binding);
    let filter = reference_filter(root.at(binding).unwrap().text_trimmed());
    lemma_scope_is_node(root, binding);
    let within = root.at(scope).unwrap();
    lemma_at_countable(root, scope);
    let listed = descendants(within, scope, filter);
    if listed.contains(path) {
        let i = choose|i: int| 0 <= i < listed.len() && listed[i] == path;
        lemma_descendants_resolve(root, scope, within, filter, i);
    }
    if is_prefix(scope, path) && (root.at(path) matches Some(found) && selects(filter, found)) {
        let suffix = path.skip(scope.len() as int);
        assert(scope + suffix =~= path);
        lemma_at_concat(root, scope, suffix);
        lemma_descendants_complete(within, scope, filter, suffix);
    }
}

/// Where every entry for `path` holds the same references and there is
/// such an entry, those references are what is found.
pub proof fn lemma_lookup_any(
    model: Seq<BindingView>,
    path: Seq<usize>,
    references: Seq<Seq<usize>>,
    n: nat,
)
    requires
        n <= model.len(),
        forall|j: int|
            0 <= j < n && (#[trigger] model[j]).node == path ==> model[j].references
                == references,
    ensures
        lookup(model, path, n) == if exists|i: int| 0 <= i < n && (#[trigger] model[i]).node == path {
            Some(references)
        } else {
            None
        },
    decreases n,
{
    if n > 0 {
        lemma_lookup_any(model, path, references, (n - 1) as nat);
        if exists|i: int| 0 <= i < n - 1 && (#[trigger] model[i]).node == path {
            let i = choose|i: int| 0 <= i < n - 1 && (#[trigger] model[i]).node == path;
            assert(0 <= i < n && model[i].node == path);
        } else if model[n - 1].node == path {
        } else {
            assert forall|i: int| 0 <= i < n implies (#[trigger] model[i]).node != path by {
                if i < n - 1 {
                    assert(!(0 <= i < n - 1 && model[i].node == path));
                }
            }
        }
    }
}

/// The model of a tree knows every binding of the tree, with the
/// references that the tree gives it.
pub proof fn lemma_model_knows(root: Tree, binding: Seq<usize>)
    requires
        root.countable(),
        root.at(binding) matches Some(t) && t.is_node_of(NodeKind::JsIdentifierBinding),
    ensures
        lookup(model_of(root), binding, model_of(root).len()) == Some(
            references_of(root, binding),
        ),
{
    let paths = descendants(root, Seq::empty(), binding_filter());
    let model = model_of(root);
    lemma_descendants_complete(root, Seq::empty(), binding_filter(), binding);
    assert(Seq::<usize>::empty() + binding =~= binding);
    let i = choose|i: int| 0 <= i < paths.len() && paths[i] == binding;
    assert(model[i].node == binding);
    lemma_lookup_any(model, binding, references_of(root, binding), model.len());
}

/// An entry for `path` that has none before it is the one that is found.
pub proof fn lemma_lookup_found(model: Seq<BindingView>, path: Seq<usize>, k: nat, n: nat)
    requires
        0 < k <= n <= model.len(),
        lookup(model, path, (k - 1) as nat) is None,
        model[k - 1].node == path,
    ensures
        lookup(model, path, n) == Some(model[k - 1].references),
    decreases n - k,
{
    if n > k {
        lemma_lookup_found(model, path, k, (n - 1) as nat);
    }
}

} // verus!
