//! Reading the script tree by the shape of its nodes.
//!
//! A node holds its parts at fixed places among its children. A part that
//! is missing, or stands in for something that could not be parsed, is
//! simply not found: every lookup says so instead of failing.

use vstd::prelude::*;
use crate::kind::{NodeKind, TokenKind};
use crate::syntax::{append_bytes, SyntaxNode, TokenView, Tree};

verus! {

/// Whether nodes of the kind are expressions.
pub open spec fn is_expression_kind(kind: NodeKind) -> bool {
    matches!(
        kind,
        NodeKind::JsIdentifierExpression | NodeKind::JsStringLiteralExpression
            | NodeKind::JsNumberLiteralExpression | NodeKind::JsParenthesizedExpression
            | NodeKind::JsStaticMemberExpression | NodeKind::JsComputedMemberExpression
            | NodeKind::JsCallExpression | NodeKind::JsArrowFunctionExpression
            | NodeKind::JsBogusExpression
    )
}

/// Whether nodes of the kind are expressions.
pub fn is_expression(kind: NodeKind) -> (b: bool)
    ensures
        b == is_expression_kind(kind),
{
    match kind {
        NodeKind::JsIdentifierExpression
        | NodeKind::JsStringLiteralExpression
        | NodeKind::JsNumberLiteralExpression
        | NodeKind::JsParenthesizedExpression
        | NodeKind::JsStaticMemberExpression
        | NodeKind::JsComputedMemberExpression
        | NodeKind::JsCallExpression
        | NodeKind::JsArrowFunctionExpression
        | NodeKind::JsBogusExpression => true,
        _ => false,
    }
}

/// The child at place `i`, where it is a node.
pub open spec fn slot_node(t: Tree, i: int) -> Option<Tree> {
    if 0 <= i < t.children().len() && t.children()[i] is Node {
        Some(t.children()[i])
    } else {
        None
    }
}

/// The child at place `i`, where it is a token.
pub open spec fn slot_token(t: Tree, i: int) -> Option<TokenView> {
    if 0 <= i < t.children().len() {
        match t.children()[i] {
            Tree::Token(token) => Some(token),
            _ => None,
        }
    } else {
        None
    }
}

/// The child at place `i`, where it is an expression.
pub open spec fn slot_expression(t: Tree, i: int) -> Option<Tree> {
    match slot_node(t, i) {
        Some(e) => if is_expression_kind(e.node_kind()) {
            Some(e)
        } else {
            None
        },
        None => None,
    }
}

/// The expression inside any number of parentheses. Parentheses that hold
/// no expression are left as they are.
pub open spec fn omit_parentheses(t: Tree) -> Tree
    decreases t,
{
    if t.is_node_of(NodeKind::JsParenthesizedExpression) {
        match slot_expression(t, 1) {
            Some(inner) => omit_parentheses(inner),
            None => t,
        }
    } else {
        t
    }
}

/// The text of a string literal without its quotes.
pub open spec fn inner_string_text(token: TokenView) -> Seq<u8> {
    let text = token.text_trimmed();
    if text.len() >= 2 {
        text.subrange(1, text.len() - 1)
    } else {
        text
    }
}

/// The token that a literal, a name or an identifier consists of.
pub open spec fn value_token(t: Tree) -> Option<TokenView> {
    slot_token(t, 0)
}

/// The name that a member access reads, where it is known from the text
/// alone: the name after the dot, or the string between the brackets.
pub open spec fn member_name(t: Tree) -> Option<Seq<u8>> {
    if t.is_node_of(NodeKind::JsStaticMemberExpression) {
        match slot_node(t, 2) {
            Some(name) => if name.is_node_of(NodeKind::JsName) {
                match value_token(name) {
                    Some(token) => Some(token.text_trimmed()),
                    None => None,
                }
            } else {
                None
            },
            None => None,
        }
    } else if t.is_node_of(NodeKind::JsComputedMemberExpression) {
        match slot_expression(t, 2) {
            Some(member) => {
                let inner = omit_parentheses(member);
                if inner.is_node_of(NodeKind::JsStringLiteralExpression) {
                    match value_token(inner) {
                        Some(token) => if token.kind == TokenKind::String {
                            Some(inner_string_text(token))
                        } else {
                            None
                        },
                        None => None,
                    }
                } else {
                    None
                }
            },
            None => None,
        }
    } else {
        None
    }
}

/// The child at place `i`, where it is an expression.
pub fn expression_at(node: &SyntaxNode, i: usize) -> (found: Option<&SyntaxNode>)
    ensures
        found is Some <==> slot_expression(node@, i as int) is Some,
        found matches Some(e) ==> slot_expression(node@, i as int) == Some(e@),
{
    match node.child_node(i) {
        Some(e) => if is_expression(e.kind()) {
            Some(e)
        } else {
            None
        },
        None => None,
    }
}

/// The expression inside any number of parentheses.
pub fn without_parentheses(node: &SyntaxNode) -> (inner: &SyntaxNode)
    ensures
        inner@ == omit_parentheses(node@),
{
    let mut cur: &SyntaxNode = node;
    loop
        invariant
            omit_parentheses(node@) == omit_parentheses(cur@),
        ensures
            cur@ == omit_parentheses(node@),
        decreases cur@,
    {
        if cur.kind() != NodeKind::JsParenthesizedExpression {
            break ;
        }
        match expression_at(cur, 1) {
            Some(e) => {
                cur = e;
            },
            None => {
                break ;
            },
        }
    }
    cur
}

/// The text of a string literal without its quotes.
pub fn string_contents(node: &SyntaxNode) -> (text: Option<Vec<u8>>)
    requires
        node@.wf(),
    ensures
        match text {
            Some(t) => value_token(node@) matches Some(token) && token.kind == TokenKind::String
                && t@ == inner_string_text(token),
            None => !(value_token(node@) matches Some(token) && token.kind
                == TokenKind::String),
        },
{
    match node.child_token(0) {
        Some(token) => {
            if token.kind() != TokenKind::String {
                return None;
            }
            proof {
                assert(node@.children()[0].wf());
            }
            let text = token.text_trimmed();
            let mut out: Vec<u8> = Vec::new();
            if text.len() >= 2 {
                append_bytes(&mut out, text.as_slice(), 1, text.len() - 1);
            } else {
                append_bytes(&mut out, text.as_slice(), 0, text.len());
            }
            proof {
                assert(out@ =~= inner_string_text(token@));
            }
            Some(out)
        },
        None => None,
    }
}

/// The name that a member access reads, where it is known from the text
/// alone.
pub fn member_name_of(node: &SyntaxNode) -> (name: Option<Vec<u8>>)
    requires
        node@.wf(),
    ensures
        match name {
            Some(n) => member_name(node@) == Some(n@),
            None => member_name(node@) is None,
        },
{
    if node.kind() == NodeKind::JsStaticMemberExpression {
        match node.child_node(2) {
            Some(name) => {
                if name.kind() != NodeKind::JsName {
                    return None;
                }
                proof {
                    assert(node@.children()[2].wf());
                }
                match name.child_token(0) {
                    Some(token) => {
                        proof {
                            assert(name@.children()[0].wf());
                        }
                        Some(token.text_trimmed())
                    },
                    None => None,
                }
            },
            None => None,
        }
    } else if node.kind() == NodeKind::JsComputedMemberExpression {
        match expression_at(node, 2) {
            Some(member) => {
                let inner = without_parentheses(member);
                proof {
                    assert(node@.children()[2].wf());
                    lemma_omit_parentheses_wf(member@);
                }
                if inner.kind() != NodeKind::JsStringLiteralExpression {
                    return None;
                }
                string_contents(inner)
            },
            None => None,
        }
    } else {
        None
    }
}

/// What is inside the parentheses of a well-formed tree is well formed.
pub proof fn lemma_omit_parentheses_wf(t: Tree)
    requires
        t.wf(),
    ensures
        omit_parentheses(t).wf(),
        omit_parentheses(t) is Node <==> t is Node,
    decreases t,
{
    if t.is_node_of(NodeKind::JsParenthesizedExpression) {
        match slot_expression(t, 1) {
            Some(inner) => {
                assert(t.children()[1].wf());
                lemma_omit_parentheses_wf(inner);
            },
            None => {},
        }
    }
}

} // verus!
