//! The rule against constants whose value is their own name.
//!
//! `const FOO = "FOO";` adds a level of indirection and saves nothing.
//! The rule reports such a declarator with every use of the constant,
//! and offers to remove the declarator and to write the string where the
//! constant was used.

use vstd::prelude::*;
use crate::analyzer::{ActionCategory, ActionView, Applicability, RuleAction, RuleContext};
use crate::ast::{
    expression_at, inner_string_text, slot_expression, slot_node, slot_token, string_contents,
    value_token,
};
use crate::diagnostic::{Diagnostic, DiagnosticView, Severity};
use crate::kind::{NodeKind, TokenKind};
use crate::mutation::{all_resolve, apply, conflict_free, BatchMutation, EditView};
use crate::semantic::{
    lemma_model_knows, references_of, references_view, Reference,
};
use crate::syntax::{lemma_at_countable, lemma_at_push, SyntaxNode, Tree};
use crate::traverse::{copy_path, is_prefix, path_prefix, same_bytes};

verus! {

/// The rule itself.
#[derive(Clone, Copy, Debug)]
pub struct NoShoutyConstants;

/// The mathematical value of what the rule found.
pub struct StateView {
    pub literal: Tree,
    pub references: Seq<Seq<usize>>,
}

/// What the rule found at a declarator: the string literal that the
/// constant stands for, and the identifiers that refer to the constant.
#[derive(Debug)]
pub struct State {
    literal: SyntaxNode,
    references: Vec<Reference>,
}

impl View for State {
    type V = StateView;

    closed spec fn view(&self) -> StateView {
        StateView { literal: self.literal@, references: references_view(self.references@) }
    }
}

impl State {
    /// The string literal that the constant stands for.
    pub fn literal(&self) -> (literal: &SyntaxNode)
        ensures
            literal@ == self@.literal,
    {
        &self.literal
    }

    /// The identifiers that refer to the constant, in source order.
    pub fn references(&self) -> (references: &Vec<Reference>)
        ensures
            references_view(references@) == self@.references,
    {
        &self.references
    }
}

/// The path of the parent of the element at `path`, where the parent is
/// a node of kind `kind`.
pub open spec fn parent_of_kind(root: Tree, path: Seq<usize>, kind: NodeKind) -> Option<
    Seq<usize>,
> {
    if path.len() > 0 && (root.at(path.drop_last()) matches Some(t) && t.is_node_of(kind)) {
        Some(path.drop_last())
    } else {
        None
    }
}

/// Whether the declaration is introduced by `const`.
pub open spec fn is_const(declaration: Tree) -> bool {
    slot_token(declaration, 0) matches Some(t) && t.kind == TokenKind::ConstKw
}

/// The binding and the string literal of a declarator of the form
/// `a = "a"`: the name bound and the text between the quotes are the same.
pub open spec fn shouty_parts(declarator: Tree) -> Option<(Tree, Tree)> {
    match (slot_node(declarator, 0), slot_node(declarator, 1)) {
        (Some(id), Some(initializer)) => if id.is_node_of(NodeKind::JsIdentifierBinding)
            && initializer.is_node_of(NodeKind::JsInitializerClause) {
            match slot_expression(initializer, 1) {
                Some(literal) => if literal.is_node_of(NodeKind::JsStringLiteralExpression) {
                    match value_token(literal) {
                        Some(token) => if token.kind == TokenKind::String && id.text_trimmed()
                            == inner_string_text(token) {
                            Some((id, literal))
                        } else {
                            None
                        },
                        None => None,
                    }
                } else {
                    None
                },
                None => None,
            }
        } else {
            None
        },
        _ => None,
    }
}

/// What the rule finds at `query`: a declarator of a `const` declaration
/// that binds a name to the string that spells it.
pub open spec fn shouty_state(root: Tree, query: Seq<usize>) -> Option<StateView> {
    match parent_of_kind(root, query, NodeKind::JsVariableDeclaratorList) {
        Some(list) => match parent_of_kind(root, list, NodeKind::JsVariableDeclaration) {
            Some(declaration) => if is_const(root.at(declaration).unwrap()) {
                match shouty_parts(root.at(query).unwrap()) {
                    Some((_, literal)) => Some(
                        StateView { literal, references: references_of(root, query.push(0)) },
                    ),
                    None => None,
                }
            } else {
                None
            },
            None => None,
        },
        None => None,
    }
}

/// The place of the comma that follows the child at `i`, if one does.
pub open spec fn separator_after(children: Seq<Tree>, i: int) -> Option<int> {
    if 0 <= i && i + 1 < children.len() && children[i + 1].is_token_of(TokenKind::Comma) {
        Some(i + 1)
    } else {
        None
    }
}

/// The place of the last element before the child at `i`.
pub open spec fn previous_element(children: Seq<Tree>, i: int) -> Option<int>
    decreases i,
{
    if i <= 0 || i > children.len() {
        None
    } else if children[i - 1] is Node {
        Some(i - 1)
    } else {
        previous_element(children, i - 1)
    }
}

/// Whether an element follows the child at `i`.
pub open spec fn has_later_element(children: Seq<Tree>, i: int) -> bool {
    exists|j: int| i < j < children.len() && (#[trigger] children[j]) is Node
}

/// The edit that removes the comma at `place` in the list at `list`.
pub open spec fn remove_separator(list: Seq<usize>, place: Option<int>) -> Seq<EditView> {
    match place {
        Some(k) => seq![EditView::RemoveToken(list.push(k as usize))],
        None => Seq::empty(),
    }
}

/// The edits that remove the declarator at `path` and keep the list it
/// stands in valid. The only declarator takes the whole statement with
/// it. Any other takes the comma after it, and the last one of a list
/// takes the comma before it too.
pub open spec fn declarator_removal(root: Tree, path: Seq<usize>) -> Option<Seq<EditView>> {
    match parent_of_kind(root, path, NodeKind::JsVariableDeclaratorList) {
        Some(list) => match parent_of_kind(root, list, NodeKind::JsVariableDeclaration) {
            Some(declaration) => {
                let children = root.at(list).unwrap().children();
                let index = path.last() as int;
                if children.len() == 1 {
                    match parent_of_kind(root, declaration, NodeKind::JsVariableStatement) {
                        Some(statement) => Some(seq![EditView::RemoveNode(statement)]),
                        None => None,
                    }
                } else {
                    Some(
                        seq![EditView::RemoveNode(path)] + remove_separator(
                            list,
                            separator_after(children, index),
                        ) + (if has_later_element(children, index) {
                            Seq::empty()
                        } else {
                            match previous_element(children, index) {
                                Some(before) => remove_separator(
                                    list,
                                    separator_after(children, before),
                                ),
                                None => Seq::empty(),
                            }
                        }),
                    )
                }
            },
            None => None,
        },
        None => None,
    }
}

/// The element before another lies before it and is a node.
pub proof fn lemma_previous_element(children: Seq<Tree>, i: int)
    ensures
        previous_element(children, i) matches Some(j) ==> 0 <= j < i && j < children.len()
            && children[j] is Node,
    decreases i,
{
    if 0 < i <= children.len() && !(children[i - 1] is Node) {
        lemma_previous_element(children, i - 1);
    }
}

/// Two paths that part at their last step do not lie in each other.
pub proof fn lemma_siblings_apart(list: Seq<usize>, a: usize, b: usize)
    requires
        a != b,
    ensures
        !is_prefix(list.push(a), list.push(b)),
{
    if is_prefix(list.push(a), list.push(b)) {
        assert(list.push(b).take(list.push(a).len() as int)[list.len() as int] == b);
        assert(list.push(a)[list.len() as int] == a);
    }
}

/// The edits that remove a declarator go together. Each names what it is
/// to remove, and none lies in another, so the batch that holds them is
/// applied. The one case apart is a statement that is itself the root of
/// the tree: there is nothing to remove it from.
pub proof fn lemma_removal_applies(root: Tree, path: Seq<usize>)
    requires
        root.countable(),
        root.at(path) matches Some(t) && t is Node,
        declarator_removal(root, path) is Some,
        path.len() > 3,
    ensures
        all_resolve(root, declarator_removal(root, path).unwrap()),
        conflict_free(declarator_removal(root, path).unwrap()),
        apply(root, declarator_removal(root, path).unwrap()) is Ok,
{
    let list = path.drop_last();
    let declaration = list.drop_last();
    let children = root.at(list).unwrap().children();
    let index = path.last();
    let edits = declarator_removal(root, path).unwrap();
    assert(list.push(index) =~= path);
    lemma_at_push(root, list, index);
    lemma_at_countable(root, list);
    if children.len() == 1 {
        assert(edits[0].resolves(root));
    } else {
        let own = remove_separator(list, separator_after(children, index as int));
        let earlier: Seq<EditView> = if has_later_element(children, index as int) {
            Seq::empty()
        } else {
            match previous_element(children, index as int) {
                Some(before) => remove_separator(list, separator_after(children, before)),
                None => Seq::empty(),
            }
        };
        assert(edits == seq![EditView::RemoveNode(path)] + own + earlier);
        if own.len() > 0 {
            lemma_at_push(root, list, (index + 1) as usize);
            lemma_siblings_apart(list, index, (index + 1) as usize);
            lemma_siblings_apart(list, (index + 1) as usize, index);
        }
        if earlier.len() > 0 {
            let before = previous_element(children, index as int).unwrap();
            lemma_previous_element(children, index as int);
            let place = (before + 1) as usize;
            lemma_at_push(root, list, place);
            lemma_siblings_apart(list, index, place);
            lemma_siblings_apart(list, place, index);
            if own.len() > 0 {
                lemma_siblings_apart(list, (index + 1) as usize, place);
                lemma_siblings_apart(list, place, (index + 1) as usize);
            }
        }
        assert forall|i: int| 0 <= i < edits.len() implies (#[trigger] edits[i]).resolves(root) by {
            if i == 0 {
            } else if i < 1 + own.len() {
                assert(edits[i] == own[i - 1]);
            } else {
                assert(edits[i] == earlier[i - 1 - own.len()]);
            }
        }
        assert forall|i: int, j: int|
            0 <= i < edits.len() && 0 <= j < edits.len() && i != j implies !is_prefix(
            (#[trigger] edits[i]).path(),
            (#[trigger] edits[j]).path(),
        ) by {
            assert(edits[0] == EditView::RemoveNode(path));
            if own.len() > 0 {
                assert(edits[1] == own[0]);
                if earlier.len() > 0 {
                    assert(edits[2] == earlier[0]);
                }
            } else if earlier.len() > 0 {
                assert(edits[1] == earlier[0]);
            }
        }
    }
}

/// Every path leads to an element of the tree.
pub open spec fn all_found(root: Tree, paths: Seq<Seq<usize>>) -> bool {
    forall|i: int| 0 <= i < paths.len() ==> root.at(#[trigger] paths[i]) is Some
}

/// The diagnostic with the first `n` references marked as uses.
pub open spec fn annotate(
    d: DiagnosticView,
    root: Tree,
    references: Seq<Seq<usize>>,
    n: nat,
) -> DiagnosticView
    decreases n,
{
    if n == 0 || n > references.len() {
        d
    } else {
        annotate(d, root, references, (n - 1) as nat).with_secondary(
            root.trimmed_range(references[n - 1]),
            "Used here."@,
        )
    }
}

/// The footer of the rule's diagnostic.
pub open spec fn shouty_note() -> Seq<char> {
    "You should avoid declaring constants with a string that's the same\n    value as the variable name. It introduces a level of unnecessary\n    indirection when it's only two additional characters to inline."@
}

/// The diagnostic for the declarator at `query`: a warning on the
/// declarator, with every reference marked as a use.
pub open spec fn shouty_diagnostic(root: Tree, query: Seq<usize>, state: StateView) -> Option<
    DiagnosticView,
> {
    if all_found(root, state.references) {
        Some(
            annotate(
                DiagnosticView::plain(
                    Severity::Warning,
                    root.trimmed_range(query),
                    "Redundant constant declaration."@,
                ),
                root,
                state.references,
                state.references.len(),
            ).with_footer(shouty_note()),
        )
    } else {
        None
    }
}

/// The edits that put `literal` in the place of the first `n` references;
/// `None` where one of them is not the name of an identifier expression.
pub open spec fn replacements(
    root: Tree,
    references: Seq<Seq<usize>>,
    literal: Tree,
    n: nat,
) -> Option<Seq<EditView>>
    decreases n,
{
    if n == 0 || n > references.len() {
        Some(Seq::empty())
    } else {
        match (
            replacements(root, references, literal, (n - 1) as nat),
            parent_of_kind(root, references[n - 1], NodeKind::JsIdentifierExpression),
        ) {
            (Some(edits), Some(expression)) => Some(
                edits.push(EditView::ReplaceNode(expression, literal)),
            ),
            _ => None,
        }
    }
}

/// The edits of the declarator's removal, or none where it cannot be
/// removed.
pub open spec fn removal_or_nothing(root: Tree, query: Seq<usize>) -> Seq<EditView> {
    match declarator_removal(root, query) {
        Some(edits) => edits,
        None => Seq::empty(),
    }
}

/// The fix for the declarator at `query`: remove it, and write the string
/// where the constant was used.
pub open spec fn shouty_action(root: Tree, query: Seq<usize>, state: StateView) -> Option<
    ActionView,
> {
    match replacements(root, state.references, state.literal, state.references.len()) {
        Some(edits) => Some(
            ActionView {
                category: ActionCategory::Refactor,
                applicability: Applicability::Unspecified,
                message: "Use the constant value directly"@,
                mutation: removal_or_nothing(root, query) + edits,
            },
        ),
        None => None,
    }
}

/// The path of the parent of the element at `path`, where the parent is
/// a node of kind `kind`.
pub fn find_parent(root: &SyntaxNode, path: &[usize], kind: NodeKind) -> (parent: Option<
    Vec<usize>,
>)
    ensures
        match parent {
            Some(p) => parent_of_kind(root@, path@, kind) == Some(p@),
            None => parent_of_kind(root@, path@, kind) is None,
        },
{
    if path.len() == 0 {
        return None;
    }
    let above = path_prefix(path, path.len() - 1);
    proof {
        assert(path@.take(path@.len() - 1) =~= path@.drop_last());
    }
    match root.node_at(above.as_slice()) {
        Some(node) => if node.kind() == kind {
            Some(above)
        } else {
            None
        },
        None => None,
    }
}

/// Checks for `a = "a"`, and returns the binding and the literal.
pub fn is_id_and_string_literal_inner_text_equal(declarator: &SyntaxNode) -> (parts: Option<
    (&SyntaxNode, &SyntaxNode),
>)
    requires
        declarator@.wf(),
    ensures
        match parts {
            Some((id, literal)) => shouty_parts(declarator@) == Some((id@, literal@)),
            None => shouty_parts(declarator@) is None,
        },
{
    let id = declarator.child_node(0)?;
    if id.kind() != NodeKind::JsIdentifierBinding {
        return None;
    }
    proof {
        assert(declarator@.children()[0].wf());
    }
    let id_text = id.text_trimmed();
    let initializer = declarator.child_node(1)?;
    if initializer.kind() != NodeKind::JsInitializerClause {
        return None;
    }
    proof {
        assert(declarator@.children()[1].wf());
    }
    let literal = expression_at(initializer, 1)?;
    if literal.kind() != NodeKind::JsStringLiteralExpression {
        return None;
    }
    proof {
        assert(initializer@.children()[1].wf());
    }
    let literal_text = string_contents(literal)?;
    if same_bytes(id_text.as_slice(), literal_text.as_slice()) {
        Some((id, literal))
    } else {
        None
    }
}

fn separator_after_at(list: &SyntaxNode, i: usize) -> (place: Option<usize>)
    ensures
        match place {
            Some(k) => separator_after(list@.children(), i as int) == Some(k as int),
            None => separator_after(list@.children(), i as int) is None,
        },
{
    if i >= list.child_count() || i + 1 >= list.child_count() {
        return None;
    }
    match list.child_token(i + 1) {
        Some(token) => if token.kind() == TokenKind::Comma {
            Some(i + 1)
        } else {
            None
        },
        None => None,
    }
}

fn previous_element_at(list: &SyntaxNode, i: usize) -> (place: Option<usize>)
    ensures
        match place {
            Some(k) => previous_element(list@.children(), i as int) == Some(k as int),
            None => previous_element(list@.children(), i as int) is None,
        },
{
    if i > list.child_count() {
        return None;
    }
    let mut j: usize = i;
    while j > 0
        invariant
            j <= i <= list@.children().len(),
            previous_element(list@.children(), i as int) == previous_element(
                list@.children(),
                j as int,
            ),
        decreases j,
    {
        if list.child_node(j - 1).is_some() {
            return Some(j - 1);
        }
        j -= 1;
    }
    None
}

fn has_later_element_at(list: &SyntaxNode, i: usize) -> (found: bool)
    ensures
        found == has_later_element(list@.children(), i as int),
{
    if i >= list.child_count() {
        return false;
    }
    let mut j: usize = i + 1;
    while j < list.child_count()
        invariant
            i < j <= list@.children().len(),
            forall|k: int| i < k < j ==> !((#[trigger] list@.children()[k]) is Node),
        decreases list@.children().len() - j,
    {
        if list.child_node(j).is_some() {
            return true;
        }
        j += 1;
    }
    false
}

fn push_separator_removal(batch: &mut BatchMutation, list: &Vec<usize>, place: Option<usize>)
    ensures
        final(batch)@ == old(batch)@ + remove_separator(
            list@,
            match place {
                Some(k) => Some(k as int),
                None => None,
            },
        ),
{
    match place {
        Some(k) => {
            let mut path = copy_path(list.as_slice());
            path.push(k);
            batch.remove_token(path.as_slice());
            proof {
                assert(old(batch)@.push(EditView::RemoveToken(path@)) =~= old(batch)@ + seq![
                    EditView::RemoveToken(list@.push(k)),
                ]);
            }
        },
        None => {
            proof {
                assert(old(batch)@ + Seq::<EditView>::empty() =~= old(batch)@);
            }
        },
    }
}

/// Removes the declarator, and:
/// 1 - removes the statement if the declaration only has one declarator;
/// 2 - removes commas around the declarator to keep the declaration list
///     valid.
///
/// Nothing is asked for where the declarator does not stand in the list
/// of a declaration, or where the only declarator's declaration is not a
/// statement of its own.
pub fn remove_declarator(batch: &mut BatchMutation, root: &SyntaxNode, declarator: &[usize]) -> (done:
    Option<()>)
    ensures
        done is Some <==> declarator_removal(root@, declarator@) is Some,
        final(batch)@ == old(batch)@ + removal_or_nothing(root@, declarator@),
{
    proof {
        assert(old(batch)@ + Seq::<EditView>::empty() =~= old(batch)@);
    }
    let list_path = find_parent(root, declarator, NodeKind::JsVariableDeclaratorList)?;
    let declaration_path = find_parent(
        root,
        list_path.as_slice(),
        NodeKind::JsVariableDeclaration,
    )?;
    let list = match root.node_at(list_path.as_slice()) {
        Some(list) => list,
        None => vstd::pervasive::unreached(),
    };
    if list.child_count() == 1 {
        let statement = find_parent(
            root,
            declaration_path.as_slice(),
            NodeKind::JsVariableStatement,
        )?;
        batch.remove_node(statement.as_slice());
        proof {
            assert(old(batch)@.push(EditView::RemoveNode(statement@)) =~= old(batch)@ + seq![
                EditView::RemoveNode(statement@),
            ]);
        }
    } else {
        let index = declarator[declarator.len() - 1];
        // Remove the declarator and its trailing comma, if there is one.
        batch.remove_node(declarator);
        let ghost first = batch@;
        push_separator_removal(batch, &list_path, separator_after_at(list, index));
        let ghost second = batch@;
        // If it is the last declarator of the list, remove the comma
        // before it.
        if !has_later_element_at(list, index) {
            match previous_element_at(list, index) {
                Some(before) => {
                    push_separator_removal(batch, &list_path, separator_after_at(list, before));
                },
                None => {},
            }
        }
        proof {
            let children = root@.at(list_path@).unwrap().children();
            let own = remove_separator(list_path@, separator_after(children, index as int));
            let earlier: Seq<EditView> = if has_later_element(children, index as int) {
                Seq::empty()
            } else {
                match previous_element(children, index as int) {
                    Some(before) => remove_separator(
                        list_path@,
                        separator_after(children, before),
                    ),
                    None => Seq::empty(),
                }
            };
            assert(first =~= old(batch)@ + seq![EditView::RemoveNode(declarator@)]);
            assert(second == first + own);
            assert(batch@ =~= second + earlier);
            assert(batch@ =~= old(batch)@ + (seq![EditView::RemoveNode(declarator@)] + own
                + earlier));
        }
    }
    Some(())
}

fn copy_references(references: &Vec<Reference>) -> (out: Vec<Reference>)
    ensures
        references_view(out@) == references_view(references@),
{
    let mut out: Vec<Reference> = Vec::new();
    let mut i: usize = 0;
    while i < references.len()
        invariant
            i <= references.len(),
            out@.len() == i,
            forall|j: int| 0 <= j < i ==> (#[trigger] out@[j])@ == references@[j]@,
        decreases references.len() - i,
    {
        out.push(references[i].clone());
        i += 1;
    }
    proof {
        assert(references_view(out@) =~= references_view(references@));
    }
    out
}

impl NoShoutyConstants {
    /// The kind of node the rule asks for.
    pub fn query_kind() -> (kind: NodeKind)
        ensures
            kind == NodeKind::JsVariableDeclarator,
    {
        NodeKind::JsVariableDeclarator
    }

    /// Signals a declarator of a `const` declaration whose value is the
    /// string that spells its name, with every reference to the constant.
    pub fn run(ctx: &RuleContext) -> (state: Option<State>)
        requires
            ctx.wf(),
        ensures
            match state {
                Some(s) => shouty_state(ctx@.root, ctx@.query) == Some(s@),
                None => shouty_state(ctx@.root, ctx@.query) is None,
            },
    {
        let declarator = ctx.query();
        let root = ctx.root();
        let list = find_parent(
            root,
            ctx.query_path().as_slice(),
            NodeKind::JsVariableDeclaratorList,
        )?;
        let declaration_path = find_parent(
            root,
            list.as_slice(),
            NodeKind::JsVariableDeclaration,
        )?;
        let declaration = match root.node_at(declaration_path.as_slice()) {
            Some(declaration) => declaration,
            None => vstd::pervasive::unreached(),
        };
        let is_const = match declaration.child_token(0) {
            Some(token) => token.kind() == TokenKind::ConstKw,
            None => false,
        };
        if is_const {
            if let Some((_binding, literal)) = is_id_and_string_literal_inner_text_equal(
                declarator,
            ) {
                let mut binding_path = copy_path(ctx.query_path().as_slice());
                binding_path.push(0);
                proof {
                    lemma_at_push(ctx@.root, ctx@.query, 0);
                    crate::syntax::lemma_node_countable(root);
                    lemma_model_knows(ctx@.root, binding_path@);
                }
                let references = match ctx.model().all_references(binding_path.as_slice()) {
                    Some(references) => copy_references(references),
                    None => vstd::pervasive::unreached(),
                };
                return Some(State { literal: literal.clone(), references });
            }
        }
        None
    }

    /// The diagnostic for a signal: a warning on the declarator, with
    /// every reference marked as a use. `None` where a reference does not
    /// lead to an element of the tree.
    pub fn diagnostic(ctx: &RuleContext, state: &State) -> (diagnostic: Option<Diagnostic>)
        requires
            ctx.wf(),
        ensures
            match diagnostic {
                Some(d) => shouty_diagnostic(ctx@.root, ctx@.query, state@) == Some(d@),
                None => shouty_diagnostic(ctx@.root, ctx@.query, state@) is None,
            },
    {
        let root = ctx.root();
        let range = match root.trimmed_range_at(ctx.query_path().as_slice()) {
            Some(range) => range,
            None => vstd::pervasive::unreached(),
        };
        let mut diag = Diagnostic::warning(range, "Redundant constant declaration.");
        let ghost plain = diag@;
        let mut i: usize = 0;
        while i < state.references.len()
            invariant
                i <= state.references.len(),
                ctx.wf(),
                root@ == ctx@.root,
                diag@ == annotate(plain, root@, state@.references, i as nat),
                forall|j: int| 0 <= j < i ==> root@.at(#[trigger] state@.references[j]) is Some,
            decreases state.references.len() - i,
        {
            let reference = &state.references[i];
            proof {
                assert(state@.references[i as int] == reference@);
            }
            match root.trimmed_range_at(reference.node().as_slice()) {
                Some(used) => {
                    diag = diag.secondary(used, "Used here.");
                },
                None => {
                    return None;
                },
            }
            i += 1;
        }
        let diag = diag.footer_note(
            "You should avoid declaring constants with a string that's the same\n    value as the variable name. It introduces a level of unnecessary\n    indirection when it's only two additional characters to inline.",
        );
        Some(diag)
    }

    /// The fix for a signal: remove the declarator and write the string
    /// where the constant was used. `None` where a reference is not the
    /// name of an identifier expression.
    pub fn action(ctx: &RuleContext, state: &State) -> (action: Option<RuleAction>)
        requires
            ctx.wf(),
        ensures
            match action {
                Some(a) => shouty_action(ctx@.root, ctx@.query, state@) == Some(a@),
                None => shouty_action(ctx@.root, ctx@.query, state@) is None,
            },
    {
        let root = ctx.root();
        let mut batch = BatchMutation::new();
        let _ = remove_declarator(&mut batch, root, ctx.query_path().as_slice());
        let ghost removal = batch@;
        proof {
            assert(removal =~= removal_or_nothing(ctx@.root, ctx@.query));
            assert(removal + Seq::<EditView>::empty() =~= removal);
        }
        let mut i: usize = 0;
        while i < state.references.len()
            invariant
                i <= state.references.len(),
                root@ == ctx@.root,
                replacements(root@, state@.references, state@.literal, i as nat) matches Some(
                    edits,
                ) && batch@ == removal + edits,
            decreases state.references.len() - i,
        {
            let reference = &state.references[i];
            proof {
                assert(state@.references[i as int] == reference@);
            }
            let ghost edits = replacements(
                root@,
                state@.references,
                state@.literal,
                i as nat,
            ).unwrap();
            let node = match find_parent(
                root,
                reference.node().as_slice(),
                NodeKind::JsIdentifierExpression,
            ) {
                Some(node) => node,
                None => {
                    proof {
                        lemma_replacements_fail(
                            root@,
                            state@.references,
                            state@.literal,
                            (i + 1) as nat,
                            state@.references.len(),
                        );
                    }
                    return None;
                },
            };
            batch.replace_node(node.as_slice(), state.literal.clone());
            proof {
                assert(batch@ =~= removal + edits.push(
                    EditView::ReplaceNode(node@, state@.literal),
                ));
            }
            i += 1;
        }
        Some(
            RuleAction::new(
                ActionCategory::Refactor,
                Applicability::Unspecified,
                "Use the constant value directly",
                batch,
            ),
        )
    }
}

/// Once a reference cannot be replaced, no longer run of references can.
pub proof fn lemma_replacements_fail(
    root: Tree,
    references: Seq<Seq<usize>>,
    literal: Tree,
    k: nat,
    n: nat,
)
    requires
        k <= n <= references.len(),
        replacements(root, references, literal, k) is None,
    ensures
        replacements(root, references, literal, n) is None,
    decreases n - k,
{
    if n > k {
        lemma_replacements_fail(root, references, literal, k, (n - 1) as nat);
    }
}

} // verus!
