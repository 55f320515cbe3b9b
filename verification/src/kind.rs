//! The closed sets of token, trivia and node categories.

use vstd::prelude::*;

verus! {

/// What a fragment of trivia is made of.
#[derive(Clone, Copy, Debug, PartialEq, Eq, Structural)]
pub enum TriviaKind {
    /// Spaces and tabs.
    Whitespace,
    /// One line terminator.
    Newline,
    /// A line or block comment.
    Comment,
}

/// The terminal categories of both grammars.
#[derive(Clone, Copy, Debug, PartialEq, Eq, Structural)]
pub enum TokenKind {
    /// The end of the input; its text is empty and it carries the trivia
    /// that follows the last real token.
    Eof,
    /// A lexical anomaly: an unterminated literal or an invalid character.
    Error,
    Ident,
    Number,
    String,
    /// Any punctuation character that has no kind of its own.
    Delim,
    At,
    LCurly,
    RCurly,
    LParen,
    RParen,
    LBrack,
    RBrack,
    Colon,
    Semicolon,
    Comma,
    Dot,
    Eq,
    FatArrow,
    ColorProfileKw,
    InitialKw,
    InheritKw,
    UnsetKw,
    RevertKw,
    RevertLayerKw,
    DefaultKw,
    ConstKw,
    LetKw,
    VarKw,
    ForKw,
    OfKw,
}

/// The non-terminal categories of both grammars. Kinds whose name holds
/// `Bogus` wrap a span that could not be parsed.
#[derive(Clone, Copy, Debug, PartialEq, Eq, Structural)]
pub enum NodeKind {
    CssRoot,
    CssRuleList,
    CssAtRule,
    CssColorProfileAtRule,
    CssCustomIdentifier,
    CssDeclarationListBlock,
    CssDeclarationList,
    CssDeclaration,
    CssBogus,
    CssBogusRule,
    CssBogusAtRule,
    CssBogusBlock,
    JsModule,
    JsStatementList,
    JsVariableStatement,
    JsVariableDeclaration,
    JsVariableDeclaratorList,
    JsVariableDeclarator,
    JsIdentifierBinding,
    JsInitializerClause,
    JsExpressionStatement,
    JsEmptyStatement,
    JsBlockStatement,
    JsForOfStatement,
    JsIdentifierExpression,
    JsReferenceIdentifier,
    JsStringLiteralExpression,
    JsNumberLiteralExpression,
    JsParenthesizedExpression,
    JsStaticMemberExpression,
    JsComputedMemberExpression,
    JsName,
    JsCallExpression,
    JsCallArguments,
    JsCallArgumentList,
    JsArrowFunctionExpression,
    JsBogus,
    JsBogusStatement,
    JsBogusExpression,
    TsTypeofType,
}

impl NodeKind {
    /// Whether the kind is one of the error kinds.
    pub open spec fn spec_is_bogus(self) -> bool {
        matches!(
            self,
            NodeKind::CssBogus | NodeKind::CssBogusRule | NodeKind::CssBogusAtRule
                | NodeKind::CssBogusBlock | NodeKind::JsBogus | NodeKind::JsBogusStatement
                | NodeKind::JsBogusExpression
        )
    }

    /// Whether the kind is one of the error kinds.
    #[verifier::when_used_as_spec(spec_is_bogus)]
    pub fn is_bogus(self) -> (b: bool)
        ensures
            b == self.spec_is_bogus(),
    {
        match self {
            NodeKind::CssBogus | NodeKind::CssBogusRule | NodeKind::CssBogusAtRule
            | NodeKind::CssBogusBlock | NodeKind::JsBogus | NodeKind::JsBogusStatement
            | NodeKind::JsBogusExpression => true,
            _ => false,
        }
    }
}

} // verus!
