//! The rule that prefers `for...of` to a call of `forEach`.
//!
//! Every object with a method named `forEach` is taken to be iterable:
//! the rule goes by the name of the member that is called, not by the
//! type of the object, which the tree does not tell.

use vstd::prelude::*;
use vstd::string::StringSliceAdditionalSpecFns;
use crate::analyzer::RuleContext;
use crate::ast::{
    expression_at, lemma_omit_parentheses_wf, member_name, member_name_of, omit_parentheses,
    slot_expression, without_parentheses,
};
use crate::diagnostic::{Diagnostic, DiagnosticView, Severity};
use crate::kind::NodeKind;
use crate::syntax::Tree;
use crate::traverse::same_bytes;

verus! {

/// The rule itself.
#[derive(Clone, Copy, Debug)]
pub struct NoForEach;

/// Whether the tree is a call whose callee, parentheses aside, is a
/// member access that reads the name `forEach`.
pub open spec fn calls_for_each(call: Tree) -> bool {
    call.is_node_of(NodeKind::JsCallExpression) && match slot_expression(call, 0) {
        Some(callee) => member_name(omit_parentheses(callee)) == Some("forEach".spec_bytes()),
        None => false,
    }
}

/// The title of the rule's diagnostic.
pub open spec fn no_for_each_title() -> Seq<char> {
    "Prefer for...of instead of Array.forEach"@
}

/// The note of the rule's diagnostic.
pub open spec fn no_for_each_note() -> Seq<char> {
    "forEach could lead to performance issues when working with large arrays. When combined with functions like .filter or .map, this causes multiple iterations over the same type."@
}

/// The diagnostic for the call at `query`.
pub open spec fn no_for_each_diagnostic(root: Tree, query: Seq<usize>) -> DiagnosticView {
    DiagnosticView::plain(
        Severity::Error,
        root.trimmed_range(query),
        no_for_each_title(),
    ).with_footer(no_for_each_note())
}

impl NoForEach {
    /// The kind of node the rule asks for.
    pub fn query_kind() -> (kind: NodeKind)
        ensures
            kind == NodeKind::JsCallExpression,
    {
        NodeKind::JsCallExpression
    }

    /// Signals exactly the calls of a member named `forEach`.
    pub fn run(ctx: &RuleContext) -> (signal: Option<()>)
        requires
            ctx.wf(),
        ensures
            signal is Some <==> calls_for_each(ctx@.node()),
    {
        let node = ctx.query();
        if node.kind() != NodeKind::JsCallExpression {
            return None;
        }
        let callee = match expression_at(node, 0) {
            Some(callee) => callee,
            None => {
                return None;
            },
        };
        proof {
            assert(node@.children()[0].wf());
            lemma_omit_parentheses_wf(callee@);
        }
        let member_expression = without_parentheses(callee);
        match member_name_of(member_expression) {
            Some(name) => if same_bytes(name.as_slice(), "forEach".as_bytes()) {
                Some(())
            } else {
                None
            },
            None => None,
        }
    }

    /// The diagnostic for a signal: it covers the call, without the
    /// trivia around it.
    pub fn diagnostic(ctx: &RuleContext, _state: &()) -> (diagnostic: Option<Diagnostic>)
        requires
            ctx.wf(),
        ensures
            diagnostic matches Some(d) && d@ == no_for_each_diagnostic(ctx@.root, ctx@.query),
    {
        let range = match ctx.root().trimmed_range_at(ctx.query_path().as_slice()) {
            Some(range) => range,
            None => vstd::pervasive::unreached(),
        };
        Some(
            Diagnostic::new(
                Severity::Error,
                range,
                "Prefer for...of instead of Array.forEach",
            ).footer_note(
                "forEach could lead to performance issues when working with large arrays. When combined with functions like .filter or .map, this causes multiple iterations over the same type.",
            ),
        )
    }
}

} // verus!
