//! The script grammar: variable declarations, `for ... of`, blocks and
//! expression statements over identifiers, literals, member accesses,
//! calls and one-parameter arrow functions.
//!
//! Every construct is given twice: as a function on the mathematical state
//! of the parser, which says what the construct is, and as the procedure
//! that carries it out. A construct that contains others takes them up
//! only after the cursor has moved on, which is what lets the definitions
//! refer to one another.

use vstd::prelude::*;
use crate::kind::{NodeKind, TokenKind};
use crate::lexer::{Language, LexContext};
use crate::parser::{
    lemma_bump_wf, lemma_close, lemma_eat_wf, lemma_error_wf, lemma_expect_wf,
    lemma_init_wf, lemma_precede_wf, lemma_start_wf, lemma_wf_bounds, Expected, Parse, ParseView,
    ParsedSyntax, Parser, ParserView,
};
use crate::recovery::{lemma_or_recover, or_recover, ParseRecovery, RecoveryView, TokenSet};
use crate::syntax::lemma_forest_text_single;

verus! {

/// Recovery between statements: skip to `;`, to `}` or to the next line.
pub open spec fn statement_recovery() -> RecoveryView {
    RecoveryView {
        node_kind: NodeKind::JsBogusStatement,
        set: Set::<TokenKind>::empty().insert(TokenKind::Semicolon).insert(TokenKind::RCurly),
        line_break: true,
    }
}

/// Whether the cursor is at a keyword that starts a variable declaration.
pub open spec fn at_declaration_keyword(s: ParserView) -> bool {
    s.at(TokenKind::ConstKw) || s.at(TokenKind::LetKw) || s.at(TokenKind::VarKw)
}

/// The word at the cursor as the name that a declaration binds.
pub open spec fn identifier_binding(s: ParserView) -> ParserView {
    s.start().bump().complete(NodeKind::JsIdentifierBinding)
}

/// The name after the `.` of a member access.
pub open spec fn member_name(s: ParserView) -> ParserView {
    if s.at(TokenKind::Ident) {
        s.start().bump().complete(NodeKind::JsName)
    } else {
        s.error(Expected::Identifier)
    }
}

/// A primary expression: an identifier, a literal, or an expression in
/// parentheses.
#[verifier::opaque]
pub open spec fn primary(s: ParserView) -> (ParserView, ParsedSyntax)
    decreases s.remaining(), 6int,
{
    if s.at(TokenKind::Ident) {
        (
            s.start().start().bump().complete(NodeKind::JsReferenceIdentifier).complete(
                NodeKind::JsIdentifierExpression,
            ),
            ParsedSyntax::Present,
        )
    } else if s.at(TokenKind::String) {
        (s.start().bump().complete(NodeKind::JsStringLiteralExpression), ParsedSyntax::Present)
    } else if s.at(TokenKind::Number) {
        (s.start().bump().complete(NodeKind::JsNumberLiteralExpression), ParsedSyntax::Present)
    } else if s.at(TokenKind::LParen) {
        let inner = s.start().bump();
        if inner.remaining() < s.remaining() {
            (
                expression_or_error(inner).expect(
                    TokenKind::RParen,
                    Expected::ClosingParen,
                ).complete(NodeKind::JsParenthesizedExpression),
                ParsedSyntax::Present,
            )
        } else {
            (s, ParsedSyntax::Absent)
        }
    } else {
        (s, ParsedSyntax::Absent)
    }
}

/// The member accesses and calls that follow an expression. Each wraps
/// what stands before it.
#[verifier::opaque]
pub open spec fn postfix_tail(s: ParserView) -> ParserView
    decreases s.remaining(), 9int,
{
    if s.at(TokenKind::Dot) {
        let t = member_name(s.precede().bump_as(TokenKind::Dot, LexContext::NoKeyword)).complete(
            NodeKind::JsStaticMemberExpression,
        );
        if t.remaining() < s.remaining() {
            postfix_tail(t)
        } else {
            t
        }
    } else if s.at(TokenKind::LBrack) {
        let inner = s.precede().bump();
        if inner.remaining() < s.remaining() {
            let t = expression_or_error(inner).expect(
                TokenKind::RBrack,
                Expected::ClosingBracket,
            ).complete(NodeKind::JsComputedMemberExpression);
            if t.remaining() < s.remaining() {
                postfix_tail(t)
            } else {
                t
            }
        } else {
            s
        }
    } else if s.at(TokenKind::LParen) {
        let inner = s.precede().start().bump().start();
        if inner.remaining() < s.remaining() {
            let t = argument_entries(inner).complete(NodeKind::JsCallArgumentList).expect(
                TokenKind::RParen,
                Expected::ClosingParen,
            ).complete(NodeKind::JsCallArguments).complete(NodeKind::JsCallExpression);
            if t.remaining() < s.remaining() {
                postfix_tail(t)
            } else {
                t
            }
        } else {
            s
        }
    } else {
        s
    }
}

/// A primary expression with the member accesses and calls after it.
#[verifier::opaque]
pub open spec fn postfix(s: ParserView) -> (ParserView, ParsedSyntax)
    decreases s.remaining(), 10int,
{
    let (s1, parsed) = primary(s);
    if parsed == ParsedSyntax::Absent || s1.remaining() > s.remaining() {
        (s1, parsed)
    } else {
        (postfix_tail(s1), ParsedSyntax::Present)
    }
}

/// An expression: an arrow function of one parameter, or a postfix
/// expression.
#[verifier::opaque]
pub open spec fn expression(s: ParserView) -> (ParserView, ParsedSyntax)
    decreases s.remaining(), 12int,
{
    if s.at(TokenKind::Ident) && s.peek() == TokenKind::FatArrow {
        let head = identifier_binding(s.start()).bump();
        if head.remaining() < s.remaining() {
            let body = if head.at(TokenKind::LCurly) {
                block_statement(head).0
            } else {
                expression_or_error(head)
            };
            (body.complete(NodeKind::JsArrowFunctionExpression), ParsedSyntax::Present)
        } else {
            (s, ParsedSyntax::Absent)
        }
    } else {
        postfix(s)
    }
}

/// A required expression: its absence is reported.
#[verifier::opaque]
pub open spec fn expression_or_error(s: ParserView) -> ParserView
    decreases s.remaining(), 13int,
{
    let (s1, parsed) = expression(s);
    if parsed == ParsedSyntax::Absent {
        s1.error(Expected::Expression)
    } else {
        s1
    }
}

/// The arguments of a call, separated by commas, up to `)` or the end.
#[verifier::opaque]
pub open spec fn argument_entries(s: ParserView) -> ParserView
    decreases s.remaining(), 14int,
{
    if s.at(TokenKind::RParen) || s.at(TokenKind::Eof) {
        s
    } else {
        let s1 = expression_or_error(s).eat(TokenKind::Comma);
        if s1.remaining() < s.remaining() {
            argument_entries(s1)
        } else {
            s1
        }
    }
}

/// One declarator: the name it binds and, after `=`, its initial value.
#[verifier::opaque]
pub open spec fn declarator(s: ParserView) -> ParserView
    decreases s.remaining(), 15int,
{
    if !s.at(TokenKind::Ident) {
        s.error(Expected::Identifier)
    } else {
        let named = identifier_binding(s.start());
        if named.at(TokenKind::Eq) {
            expression_or_error(named.start().bump()).complete(
                NodeKind::JsInitializerClause,
            ).complete(NodeKind::JsVariableDeclarator)
        } else {
            named.complete(NodeKind::JsVariableDeclarator)
        }
    }
}

/// The declarators of a declaration, separated by commas.
#[verifier::opaque]
pub open spec fn declarator_entries(s: ParserView) -> ParserView
    decreases s.remaining(), 16int,
{
    let s1 = declarator(s);
    if s1.at(TokenKind::Comma) {
        let s2 = s1.bump();
        if s2.remaining() < s.remaining() {
            declarator_entries(s2)
        } else {
            s2
        }
    } else {
        s1
    }
}

/// A variable declaration: its keyword and its declarators.
#[verifier::opaque]
pub open spec fn variable_declaration(s: ParserView) -> ParserView
    decreases s.remaining(), 17int,
{
    declarator_entries(s.start().bump().start()).complete(
        NodeKind::JsVariableDeclaratorList,
    ).complete(NodeKind::JsVariableDeclaration)
}

/// A variable declaration as a statement.
#[verifier::opaque]
pub open spec fn variable_statement(s: ParserView) -> ParserView
    decreases s.remaining(), 18int,
{
    variable_declaration(s.start()).eat(TokenKind::Semicolon).complete(
        NodeKind::JsVariableStatement,
    )
}

/// An expression as a statement.
#[verifier::opaque]
pub open spec fn expression_statement(s: ParserView) -> (ParserView, ParsedSyntax)
    decreases s.remaining(), 18int,
{
    let (s1, parsed) = expression(s.start());
    if parsed == ParsedSyntax::Absent {
        (s, ParsedSyntax::Absent)
    } else {
        (
            s1.eat(TokenKind::Semicolon).complete(NodeKind::JsExpressionStatement),
            ParsedSyntax::Present,
        )
    }
}

/// A block: statements between braces.
#[verifier::opaque]
pub open spec fn block_statement(s: ParserView) -> (ParserView, ParsedSyntax)
    decreases s.remaining(), 18int,
{
    if !s.at(TokenKind::LCurly) {
        (s, ParsedSyntax::Absent)
    } else {
        let inner = s.start().bump().start();
        if inner.remaining() < s.remaining() {
            (
                statement_entries(inner, true).complete(NodeKind::JsStatementList).expect(
                    TokenKind::RCurly,
                    Expected::ClosingBrace,
                ).complete(NodeKind::JsBlockStatement),
                ParsedSyntax::Present,
            )
        } else {
            (s, ParsedSyntax::Absent)
        }
    }
}

/// What `for ( ... of` binds: a variable declaration.
#[verifier::opaque]
pub open spec fn for_binding(s: ParserView) -> ParserView
    decreases s.remaining(), 18int,
{
    if at_declaration_keyword(s) {
        variable_declaration(s)
    } else {
        s.error(Expected::Identifier)
    }
}

/// A `for ... of` statement.
#[verifier::opaque]
pub open spec fn for_of_statement(s: ParserView) -> ParserView
    decreases s.remaining(), 19int,
{
    let head = for_binding(
        s.start().bump().expect(TokenKind::LParen, Expected::OpeningParen),
    ).expect(TokenKind::OfKw, Expected::OfKeyword);
    if head.remaining() < s.remaining() {
        let iterated = expression_or_error(head).expect(
            TokenKind::RParen,
            Expected::ClosingParen,
        );
        if iterated.remaining() < s.remaining() {
            let (body, parsed) = statement(iterated);
            (if parsed == ParsedSyntax::Absent {
                body.error(Expected::Statement)
            } else {
                body
            }).complete(NodeKind::JsForOfStatement)
        } else {
            iterated
        }
    } else {
        head
    }
}

/// A statement.
#[verifier::opaque]
pub open spec fn statement(s: ParserView) -> (ParserView, ParsedSyntax)
    decreases s.remaining(), 20int,
{
    if at_declaration_keyword(s) {
        (variable_statement(s), ParsedSyntax::Present)
    } else if s.at(TokenKind::ForKw) {
        (for_of_statement(s), ParsedSyntax::Present)
    } else if s.at(TokenKind::LCurly) {
        block_statement(s)
    } else if s.at(TokenKind::Semicolon) {
        (s.start().bump().complete(NodeKind::JsEmptyStatement), ParsedSyntax::Present)
    } else {
        expression_statement(s)
    }
}

/// One entry of a statement list: a statement, or what recovery makes of
/// whatever stands in its place. Where recovery has nothing to skip, the
/// token at the cursor alone becomes an error node.
#[verifier::opaque]
pub open spec fn statement_entry(s: ParserView) -> ParserView
    decreases s.remaining(), 21int,
{
    let (s1, parsed) = statement(s);
    if parsed == ParsedSyntax::Present {
        s1
    } else {
        let (s2, outcome) = or_recover(
            s,
            ParsedSyntax::Absent,
            statement_recovery(),
            Expected::Statement,
        );
        if outcome is Err {
            s2.start().bump().complete(NodeKind::JsBogusStatement)
        } else {
            s2
        }
    }
}

/// The statements of a list, up to the end of the input or, inside a
/// block, up to `}`.
#[verifier::opaque]
pub open spec fn statement_entries(s: ParserView, in_block: bool) -> ParserView
    decreases s.remaining(), 22int,
{
    if s.at(TokenKind::Eof) || (in_block && s.at(TokenKind::RCurly)) {
        s
    } else {
        let s1 = statement_entry(s);
        if s1.remaining() < s.remaining() {
            statement_entries(s1, in_block)
        } else {
            s1
        }
    }
}

/// A whole script: the statement list and the end of the input.
pub open spec fn module(s: ParserView) -> ParserView {
    statement_entries(s.start().start(), false).complete(NodeKind::JsStatementList).bump().complete(
        NodeKind::JsModule,
    )
}

/// What parsing a script yields.
pub open spec fn js_parse(source: Seq<u8>) -> ParseView {
    let s = module(ParserView::init(source, Language::Js));
    ParseView { tree: s.buffer[0], diagnostics: s.diagnostics }
}


/// A node of one token leaves a well-formed state behind.
pub proof fn lemma_leaf(s: ParserView, kind: NodeKind)
    requires
        s.wf(),
        !s.at(TokenKind::Eof),
    ensures
        s.start().bump().complete(kind).wf(),
        s.start().bump().complete(kind).follows(s),
        s.start().bump().complete(kind).can_precede(),
        s.start().bump().complete(kind).remaining() < s.remaining(),
{
    lemma_start_wf(s);
    lemma_bump_wf(s.start(), s.start().current().kind, LexContext::Regular);
    lemma_close(s, s.start().bump(), kind);
}

/// The name after a dot leaves a well-formed state behind.
pub proof fn lemma_member_name(s: ParserView)
    requires
        s.wf(),
    ensures
        member_name(s).wf(),
        member_name(s).follows(s),
{
    if s.at(TokenKind::Ident) {
        lemma_leaf(s, NodeKind::JsName);
    } else {
        lemma_error_wf(s, Expected::Identifier);
    }
}

/// A primary expression leaves a well-formed state behind.
#[verifier::spinoff_prover]
pub proof fn lemma_primary(s: ParserView)
    requires
        s.wf(),
    ensures
        primary(s).0.wf(),
        primary(s).0.follows(s),
        primary(s).1 == ParsedSyntax::Present ==> primary(s).0.remaining() < s.remaining(),
        primary(s).1 == ParsedSyntax::Present ==> primary(s).0.can_precede(),
        primary(s).1 == ParsedSyntax::Absent ==> primary(s).0 == s,
    decreases s.remaining(), 6int,
{
    reveal(primary);
    if s.at(TokenKind::Ident) {
        lemma_start_wf(s);
        lemma_leaf(s.start(), NodeKind::JsReferenceIdentifier);
        lemma_close(
            s,
            s.start().start().bump().complete(NodeKind::JsReferenceIdentifier),
            NodeKind::JsIdentifierExpression,
        );
    } else if s.at(TokenKind::String) {
        lemma_leaf(s, NodeKind::JsStringLiteralExpression);
    } else if s.at(TokenKind::Number) {
        lemma_leaf(s, NodeKind::JsNumberLiteralExpression);
    } else if s.at(TokenKind::LParen) {
        lemma_start_wf(s);
        lemma_bump_wf(s.start(), s.start().current().kind, LexContext::Regular);
        let inner = s.start().bump();
        lemma_expression_or_error(inner);
        let body = expression_or_error(inner);
        lemma_expect_wf(body, TokenKind::RParen, Expected::ClosingParen);
        lemma_close(
            s,
            body.expect(TokenKind::RParen, Expected::ClosingParen),
            NodeKind::JsParenthesizedExpression,
        );
    }
}

/// The accesses and calls after an expression leave a well-formed state
/// behind.
#[verifier::spinoff_prover]
pub proof fn lemma_postfix_tail(s: ParserView)
    requires
        s.wf(),
        s.can_precede(),
    ensures
        postfix_tail(s).wf(),
        postfix_tail(s).follows(s),
        postfix_tail(s).can_precede(),
    decreases s.remaining(), 9int,
{
    reveal(postfix_tail);
    if s.at(TokenKind::Dot) {
        lemma_precede_wf(s);
        lemma_bump_wf(s.precede(), TokenKind::Dot, LexContext::NoKeyword);
        let dotted = s.precede().bump_as(TokenKind::Dot, LexContext::NoKeyword);
        lemma_member_name(dotted);
        lemma_close(s, member_name(dotted), NodeKind::JsStaticMemberExpression);
        let t = member_name(dotted).complete(NodeKind::JsStaticMemberExpression);
        lemma_postfix_tail(t);
    } else if s.at(TokenKind::LBrack) {
        lemma_precede_wf(s);
        lemma_bump_wf(s.precede(), s.precede().current().kind, LexContext::Regular);
        let inner = s.precede().bump();
        lemma_expression_or_error(inner);
        let member = expression_or_error(inner);
        lemma_expect_wf(member, TokenKind::RBrack, Expected::ClosingBracket);
        lemma_close(
            s,
            member.expect(TokenKind::RBrack, Expected::ClosingBracket),
            NodeKind::JsComputedMemberExpression,
        );
        let t = member.expect(TokenKind::RBrack, Expected::ClosingBracket).complete(
            NodeKind::JsComputedMemberExpression,
        );
        lemma_postfix_tail(t);
    } else if s.at(TokenKind::LParen) {
        lemma_precede_wf(s);
        let callee = s.precede();
        lemma_start_wf(callee);
        lemma_bump_wf(callee.start(), callee.start().current().kind, LexContext::Regular);
        let opened = callee.start().bump();
        lemma_start_wf(opened);
        lemma_argument_entries(opened.start());
        lemma_close(opened, argument_entries(opened.start()), NodeKind::JsCallArgumentList);
        let listed = argument_entries(opened.start()).complete(NodeKind::JsCallArgumentList);
        lemma_expect_wf(listed, TokenKind::RParen, Expected::ClosingParen);
        lemma_close(
            callee,
            listed.expect(TokenKind::RParen, Expected::ClosingParen),
            NodeKind::JsCallArguments,
        );
        let arguments = listed.expect(TokenKind::RParen, Expected::ClosingParen).complete(
            NodeKind::JsCallArguments,
        );
        lemma_close(s, arguments, NodeKind::JsCallExpression);
        lemma_postfix_tail(arguments.complete(NodeKind::JsCallExpression));
    }
}

/// A postfix expression leaves a well-formed state behind.
#[verifier::spinoff_prover]
pub proof fn lemma_postfix(s: ParserView)
    requires
        s.wf(),
    ensures
        postfix(s).0.wf(),
        postfix(s).0.follows(s),
        postfix(s).1 == ParsedSyntax::Present ==> postfix(s).0.remaining() < s.remaining(),
        postfix(s).1 == ParsedSyntax::Present ==> postfix(s).0.can_precede(),
        postfix(s).1 == ParsedSyntax::Absent ==> postfix(s).0 == s,
    decreases s.remaining(), 10int,
{
    reveal(postfix);
    lemma_primary(s);
    if primary(s).1 == ParsedSyntax::Present {
        lemma_postfix_tail(primary(s).0);
    }
}

/// An expression leaves a well-formed state behind.
#[verifier::spinoff_prover]
pub proof fn lemma_expression(s: ParserView)
    requires
        s.wf(),
    ensures
        expression(s).0.wf(),
        expression(s).0.follows(s),
        expression(s).1 == ParsedSyntax::Present ==> expression(s).0.remaining() < s.remaining(),
        expression(s).1 == ParsedSyntax::Present ==> expression(s).0.can_precede(),
        expression(s).1 == ParsedSyntax::Absent ==> expression(s).0 == s,
    decreases s.remaining(), 12int,
{
    reveal(expression);
    if s.at(TokenKind::Ident) && s.peek() == TokenKind::FatArrow {
        lemma_start_wf(s);
        lemma_leaf(s.start(), NodeKind::JsIdentifierBinding);
        let bound = identifier_binding(s.start());
        lemma_bump_wf(bound, bound.current().kind, LexContext::Regular);
        let head = bound.bump();
        if head.at(TokenKind::LCurly) {
            lemma_block_statement(head);
            lemma_close(s, block_statement(head).0, NodeKind::JsArrowFunctionExpression);
        } else {
            lemma_expression_or_error(head);
            lemma_close(s, expression_or_error(head), NodeKind::JsArrowFunctionExpression);
        }
    } else {
        lemma_postfix(s);
    }
}

/// A required expression leaves a well-formed state behind.
#[verifier::spinoff_prover]
pub proof fn lemma_expression_or_error(s: ParserView)
    requires
        s.wf(),
    ensures
        expression_or_error(s).wf(),
        expression_or_error(s).follows(s),
    decreases s.remaining(), 13int,
{
    reveal(expression_or_error);
    lemma_expression(s);
    if expression(s).1 == ParsedSyntax::Absent {
        lemma_error_wf(expression(s).0, Expected::Expression);
    }
}

/// The arguments of a call leave a well-formed state behind.
#[verifier::spinoff_prover]
pub proof fn lemma_argument_entries(s: ParserView)
    requires
        s.wf(),
    ensures
        argument_entries(s).wf(),
        argument_entries(s).follows(s),
    decreases s.remaining(), 14int,
{
    reveal(argument_entries);
    if !(s.at(TokenKind::RParen) || s.at(TokenKind::Eof)) {
        lemma_expression_or_error(s);
        lemma_eat_wf(expression_or_error(s), TokenKind::Comma);
        let s1 = expression_or_error(s).eat(TokenKind::Comma);
        if s1.remaining() < s.remaining() {
            lemma_argument_entries(s1);
        }
    }
}

/// A declarator leaves a well-formed state behind.
#[verifier::spinoff_prover]
pub proof fn lemma_declarator(s: ParserView)
    requires
        s.wf(),
    ensures
        declarator(s).wf(),
        declarator(s).follows(s),
    decreases s.remaining(), 15int,
{
    reveal(declarator);
    if !s.at(TokenKind::Ident) {
        lemma_error_wf(s, Expected::Identifier);
    } else {
        lemma_start_wf(s);
        lemma_leaf(s.start(), NodeKind::JsIdentifierBinding);
        let named = identifier_binding(s.start());
        if named.at(TokenKind::Eq) {
            lemma_start_wf(named);
            lemma_bump_wf(named.start(), named.start().current().kind, LexContext::Regular);
            lemma_expression_or_error(named.start().bump());
            let value = expression_or_error(named.start().bump());
            lemma_close(named, value, NodeKind::JsInitializerClause);
            lemma_close(
                s,
                value.complete(NodeKind::JsInitializerClause),
                NodeKind::JsVariableDeclarator,
            );
        } else {
            lemma_close(s, named, NodeKind::JsVariableDeclarator);
        }
    }
}

/// The declarators of a declaration leave a well-formed state behind.
#[verifier::spinoff_prover]
pub proof fn lemma_declarator_entries(s: ParserView)
    requires
        s.wf(),
    ensures
        declarator_entries(s).wf(),
        declarator_entries(s).follows(s),
    decreases s.remaining(), 16int,
{
    reveal(declarator_entries);
    lemma_declarator(s);
    let s1 = declarator(s);
    if s1.at(TokenKind::Comma) {
        lemma_bump_wf(s1, s1.current().kind, LexContext::Regular);
        lemma_declarator_entries(s1.bump());
    }
}

/// A variable declaration leaves a well-formed state behind.
#[verifier::spinoff_prover]
pub proof fn lemma_variable_declaration(s: ParserView)
    requires
        s.wf(),
        at_declaration_keyword(s),
    ensures
        variable_declaration(s).wf(),
        variable_declaration(s).follows(s),
        variable_declaration(s).remaining() < s.remaining(),
    decreases s.remaining(), 17int,
{
    reveal(variable_declaration);
    lemma_start_wf(s);
    lemma_bump_wf(s.start(), s.start().current().kind, LexContext::Regular);
    let head = s.start().bump();
    lemma_start_wf(head);
    lemma_declarator_entries(head.start());
    lemma_close(head, declarator_entries(head.start()), NodeKind::JsVariableDeclaratorList);
    lemma_close(
        s,
        declarator_entries(head.start()).complete(NodeKind::JsVariableDeclaratorList),
        NodeKind::JsVariableDeclaration,
    );
}

/// A variable statement leaves a well-formed state behind.
#[verifier::spinoff_prover]
pub proof fn lemma_variable_statement(s: ParserView)
    requires
        s.wf(),
        at_declaration_keyword(s),
    ensures
        variable_statement(s).wf(),
        variable_statement(s).follows(s),
        variable_statement(s).remaining() < s.remaining(),
    decreases s.remaining(), 18int,
{
    reveal(variable_statement);
    lemma_start_wf(s);
    lemma_variable_declaration(s.start());
    lemma_eat_wf(variable_declaration(s.start()), TokenKind::Semicolon);
    lemma_close(
        s,
        variable_declaration(s.start()).eat(TokenKind::Semicolon),
        NodeKind::JsVariableStatement,
    );
}

/// An expression statement leaves a well-formed state behind.
#[verifier::spinoff_prover]
pub proof fn lemma_expression_statement(s: ParserView)
    requires
        s.wf(),
    ensures
        expression_statement(s).0.wf(),
        expression_statement(s).0.follows(s),
        expression_statement(s).1 == ParsedSyntax::Present ==> expression_statement(
            s,
        ).0.remaining() < s.remaining(),
        expression_statement(s).1 == ParsedSyntax::Absent ==> expression_statement(s).0 == s,
    decreases s.remaining(), 18int,
{
    reveal(expression_statement);
    lemma_start_wf(s);
    lemma_expression(s.start());
    if expression(s.start()).1 == ParsedSyntax::Present {
        lemma_eat_wf(expression(s.start()).0, TokenKind::Semicolon);
        lemma_close(
            s,
            expression(s.start()).0.eat(TokenKind::Semicolon),
            NodeKind::JsExpressionStatement,
        );
    }
}

/// A block leaves a well-formed state behind.
#[verifier::spinoff_prover]
pub proof fn lemma_block_statement(s: ParserView)
    requires
        s.wf(),
    ensures
        block_statement(s).0.wf(),
        block_statement(s).0.follows(s),
        block_statement(s).1 == ParsedSyntax::Present ==> block_statement(s).0.remaining()
            < s.remaining(),
        block_statement(s).1 == ParsedSyntax::Absent ==> block_statement(s).0 == s,
    decreases s.remaining(), 18int,
{
    reveal(block_statement);
    if s.at(TokenKind::LCurly) {
        lemma_start_wf(s);
        lemma_bump_wf(s.start(), s.start().current().kind, LexContext::Regular);
        let opened = s.start().bump();
        lemma_start_wf(opened);
        lemma_statement_entries(opened.start(), true);
        let body = statement_entries(opened.start(), true);
        lemma_close(opened, body, NodeKind::JsStatementList);
        let listed = body.complete(NodeKind::JsStatementList);
        lemma_expect_wf(listed, TokenKind::RCurly, Expected::ClosingBrace);
        lemma_close(
            s,
            listed.expect(TokenKind::RCurly, Expected::ClosingBrace),
            NodeKind::JsBlockStatement,
        );
    }
}

/// What `for ... of` binds leaves a well-formed state behind.
#[verifier::spinoff_prover]
pub proof fn lemma_for_binding(s: ParserView)
    requires
        s.wf(),
    ensures
        for_binding(s).wf(),
        for_binding(s).follows(s),
    decreases s.remaining(), 18int,
{
    reveal(for_binding);
    if at_declaration_keyword(s) {
        lemma_variable_declaration(s);
    } else {
        lemma_error_wf(s, Expected::Identifier);
    }
}

/// A `for ... of` statement leaves a well-formed state behind.
#[verifier::spinoff_prover]
pub proof fn lemma_for_of_statement(s: ParserView)
    requires
        s.wf(),
        s.at(TokenKind::ForKw),
    ensures
        for_of_statement(s).wf(),
        for_of_statement(s).follows(s),
        for_of_statement(s).remaining() < s.remaining(),
    decreases s.remaining(), 19int,
{
    reveal(for_of_statement);
    lemma_start_wf(s);
    lemma_bump_wf(s.start(), s.start().current().kind, LexContext::Regular);
    let opened = s.start().bump();
    lemma_expect_wf(opened, TokenKind::LParen, Expected::OpeningParen);
    let inside = opened.expect(TokenKind::LParen, Expected::OpeningParen);
    lemma_for_binding(inside);
    lemma_expect_wf(for_binding(inside), TokenKind::OfKw, Expected::OfKeyword);
    let head = for_binding(inside).expect(TokenKind::OfKw, Expected::OfKeyword);
    lemma_expression_or_error(head);
    lemma_expect_wf(expression_or_error(head), TokenKind::RParen, Expected::ClosingParen);
    let iterated = expression_or_error(head).expect(TokenKind::RParen, Expected::ClosingParen);
    lemma_statement(iterated);
    let (body, parsed) = statement(iterated);
    if parsed == ParsedSyntax::Absent {
        lemma_error_wf(body, Expected::Statement);
        lemma_close(s, body.error(Expected::Statement), NodeKind::JsForOfStatement);
    } else {
        lemma_close(s, body, NodeKind::JsForOfStatement);
    }
}

/// A statement leaves a well-formed state behind.
#[verifier::spinoff_prover]
pub proof fn lemma_statement(s: ParserView)
    requires
        s.wf(),
    ensures
        statement(s).0.wf(),
        statement(s).0.follows(s),
        statement(s).1 == ParsedSyntax::Present ==> statement(s).0.remaining() < s.remaining(),
        statement(s).1 == ParsedSyntax::Absent ==> statement(s).0 == s,
    decreases s.remaining(), 20int,
{
    reveal(statement);
    if at_declaration_keyword(s) {
        lemma_variable_statement(s);
    } else if s.at(TokenKind::ForKw) {
        lemma_for_of_statement(s);
    } else if s.at(TokenKind::LCurly) {
        lemma_block_statement(s);
    } else if s.at(TokenKind::Semicolon) {
        lemma_leaf(s, NodeKind::JsEmptyStatement);
    } else {
        lemma_expression_statement(s);
    }
}

/// An entry of a statement list leaves a well-formed state behind, with
/// less input than before.
#[verifier::spinoff_prover]
pub proof fn lemma_statement_entry(s: ParserView)
    requires
        s.wf(),
        !s.at(TokenKind::Eof),
    ensures
        statement_entry(s).wf(),
        statement_entry(s).follows(s),
        statement_entry(s).remaining() < s.remaining(),
    decreases s.remaining(), 21int,
{
    reveal(statement_entry);
    lemma_statement(s);
    if statement(s).1 != ParsedSyntax::Present {
        lemma_or_recover(s, ParsedSyntax::Absent, statement_recovery(), Expected::Statement);
        let (s2, outcome) = or_recover(
            s,
            ParsedSyntax::Absent,
            statement_recovery(),
            Expected::Statement,
        );
        if outcome is Err {
            lemma_error_wf(s, Expected::Statement);
            crate::recovery::lemma_recover(s.error(Expected::Statement), statement_recovery());
            lemma_leaf(s2, NodeKind::JsBogusStatement);
        }
    }
}

/// The statements of a list leave a well-formed state behind.
#[verifier::spinoff_prover]
pub proof fn lemma_statement_entries(s: ParserView, in_block: bool)
    requires
        s.wf(),
    ensures
        statement_entries(s, in_block).wf(),
        statement_entries(s, in_block).follows(s),
        !in_block ==> statement_entries(s, in_block).at(TokenKind::Eof),
    decreases s.remaining(), 22int,
{
    reveal(statement_entries);
    if !(s.at(TokenKind::Eof) || (in_block && s.at(TokenKind::RCurly))) {
        lemma_statement_entry(s);
        lemma_statement_entries(statement_entry(s), in_block);
    }
}

/// The tree of a script covers the whole input, byte for byte, whatever
/// the input is.
pub proof fn lemma_js_parse_lossless(source: Seq<u8>)
    requires
        source.len() <= usize::MAX,
    ensures
        js_parse(source).tree.text() == source,
        js_parse(source).tree.wf(),
        js_parse(source).tree.is_node_of(NodeKind::JsModule),
{
    let s = ParserView::init(source, Language::Js);
    lemma_init_wf(source, Language::Js);
    lemma_start_wf(s);
    lemma_start_wf(s.start());
    lemma_statement_entries(s.start().start(), false);
    let listed = statement_entries(s.start().start(), false);
    lemma_close(s.start(), listed, NodeKind::JsStatementList);
    let closed = listed.complete(NodeKind::JsStatementList);
    lemma_bump_wf(closed, closed.current().kind, LexContext::Regular);
    lemma_close(s, closed.bump(), NodeKind::JsModule);
    let done = closed.bump().complete(NodeKind::JsModule);
    lemma_wf_bounds(done);
    assert(done.buffer =~= seq![done.buffer[0]]);
    lemma_forest_text_single(done.buffer[0]);
    assert(source.subrange(0, source.len() as int) =~= source);
}


/// Parsing what a parsed script renders to, verbatim, yields the same
/// tree and the same diagnostics again.
pub proof fn lemma_js_reparse(source: Seq<u8>)
    requires
        source.len() <= usize::MAX,
    ensures
        js_parse(js_parse(source).tree.text()) == js_parse(source),
{
    lemma_js_parse_lossless(source);
}

fn is_at_declaration_keyword(p: &Parser) -> (b: bool)
    requires
        p.wf(),
    ensures
        b == at_declaration_keyword(p@),
{
    p.at(TokenKind::ConstKw) || p.at(TokenKind::LetKw) || p.at(TokenKind::VarKw)
}

#[verifier::spinoff_prover]
fn parse_identifier_binding(p: &mut Parser)
    requires
        old(p).wf(),
        old(p)@.at(TokenKind::Ident),
    ensures
        final(p).wf(),
        final(p)@ == identifier_binding(old(p)@),
        final(p)@.follows(old(p)@),
        final(p)@.remaining() < old(p)@.remaining(),
{
    let m = p.start();
    p.bump_any();
    let _ = p.complete(m, NodeKind::JsIdentifierBinding);
    proof {
        assert(p@.open =~= old(p)@.open);
    }
}

#[verifier::spinoff_prover]
fn parse_member_name(p: &mut Parser)
    requires
        old(p).wf(),
    ensures
        final(p).wf(),
        final(p)@ == member_name(old(p)@),
        final(p)@.follows(old(p)@),
{
    if p.at(TokenKind::Ident) {
        let m = p.start();
        p.bump_any();
        let _ = p.complete(m, NodeKind::JsName);
        proof {
            assert(p@.open =~= old(p)@.open);
        }
    } else {
        p.error(Expected::Identifier);
    }
}

#[verifier::spinoff_prover]
fn parse_primary(p: &mut Parser) -> (parsed: ParsedSyntax)
    requires
        old(p).wf(),
    ensures
        final(p).wf(),
        (final(p)@, parsed) == primary(old(p)@),
        final(p)@.follows(old(p)@),
        parsed == ParsedSyntax::Present ==> final(p)@.remaining() < old(p)@.remaining(),
        parsed == ParsedSyntax::Present ==> final(p)@.can_precede(),
        parsed == ParsedSyntax::Absent ==> final(p)@ == old(p)@,
    decreases old(p)@.remaining(), 6int,
{
    proof {
        reveal(primary);
    }
    if p.at(TokenKind::Ident) {
        let m = p.start();
        let name = p.start();
        p.bump_any();
        let _ = p.complete(name, NodeKind::JsReferenceIdentifier);
        let _ = p.complete(m, NodeKind::JsIdentifierExpression);
        proof {
            assert(p@.open =~= old(p)@.open);
        }
        ParsedSyntax::Present
    } else if p.at(TokenKind::String) {
        let m = p.start();
        p.bump_any();
        let _ = p.complete(m, NodeKind::JsStringLiteralExpression);
        proof {
            assert(p@.open =~= old(p)@.open);
        }
        ParsedSyntax::Present
    } else if p.at(TokenKind::Number) {
        let m = p.start();
        p.bump_any();
        let _ = p.complete(m, NodeKind::JsNumberLiteralExpression);
        proof {
            assert(p@.open =~= old(p)@.open);
        }
        ParsedSyntax::Present
    } else if p.at(TokenKind::LParen) {
        let m = p.start();
        p.bump_any();
        parse_expression_or_error(p);
        p.expect(TokenKind::RParen, Expected::ClosingParen);
        let _ = p.complete(m, NodeKind::JsParenthesizedExpression);
        proof {
            assert(p@.open =~= old(p)@.open);
        }
        ParsedSyntax::Present
    } else {
        ParsedSyntax::Absent
    }
}

#[verifier::spinoff_prover]
fn parse_postfix_tail(p: &mut Parser)
    requires
        old(p).wf(),
        old(p)@.can_precede(),
    ensures
        final(p).wf(),
        final(p)@ == postfix_tail(old(p)@),
        final(p)@.follows(old(p)@),
        final(p)@.can_precede(),
    decreases old(p)@.remaining(), 9int,
{
    proof {
        reveal(postfix_tail);
    }
    if p.at(TokenKind::Dot) {
        match p.precede() {
            Some(m) => {
                p.bump_remap_with_context(TokenKind::Dot, LexContext::NoKeyword);
                parse_member_name(p);
                let _ = p.complete(m, NodeKind::JsStaticMemberExpression);
                proof {
                    assert(p@.open =~= old(p)@.open);
                }
                parse_postfix_tail(p);
            },
            None => {},
        }
    } else if p.at(TokenKind::LBrack) {
        match p.precede() {
            Some(m) => {
                p.bump_any();
                parse_expression_or_error(p);
                p.expect(TokenKind::RBrack, Expected::ClosingBracket);
                let _ = p.complete(m, NodeKind::JsComputedMemberExpression);
                proof {
                    assert(p@.open =~= old(p)@.open);
                }
                parse_postfix_tail(p);
            },
            None => {},
        }
    } else if p.at(TokenKind::LParen) {
        match p.precede() {
            Some(m) => {
                let arguments = p.start();
                p.bump_any();
                let list = p.start();
                parse_argument_entries(p);
                let _ = p.complete(list, NodeKind::JsCallArgumentList);
                p.expect(TokenKind::RParen, Expected::ClosingParen);
                let _ = p.complete(arguments, NodeKind::JsCallArguments);
                let _ = p.complete(m, NodeKind::JsCallExpression);
                proof {
                    assert(p@.open =~= old(p)@.open);
                }
                parse_postfix_tail(p);
            },
            None => {},
        }
    }
}

#[verifier::spinoff_prover]
fn parse_postfix(p: &mut Parser) -> (parsed: ParsedSyntax)
    requires
        old(p).wf(),
    ensures
        final(p).wf(),
        (final(p)@, parsed) == postfix(old(p)@),
        final(p)@.follows(old(p)@),
        parsed == ParsedSyntax::Present ==> final(p)@.remaining() < old(p)@.remaining(),
        parsed == ParsedSyntax::Present ==> final(p)@.can_precede(),
        parsed == ParsedSyntax::Absent ==> final(p)@ == old(p)@,
    decreases old(p)@.remaining(), 10int,
{
    proof {
        reveal(postfix);
    }
    match parse_primary(p) {
        ParsedSyntax::Absent => ParsedSyntax::Absent,
        ParsedSyntax::Present => {
            parse_postfix_tail(p);
            ParsedSyntax::Present
        },
    }
}

/// Parses an expression.
#[verifier::spinoff_prover]
pub fn parse_expression(p: &mut Parser) -> (parsed: ParsedSyntax)
    requires
        old(p).wf(),
    ensures
        final(p).wf(),
        (final(p)@, parsed) == expression(old(p)@),
        final(p)@.follows(old(p)@),
        parsed == ParsedSyntax::Present ==> final(p)@.remaining() < old(p)@.remaining(),
        parsed == ParsedSyntax::Present ==> final(p)@.can_precede(),
        parsed == ParsedSyntax::Absent ==> final(p)@ == old(p)@,
    decreases old(p)@.remaining(), 12int,
{
    proof {
        reveal(expression);
    }
    if p.at(TokenKind::Ident) && p.peek() == TokenKind::FatArrow {
        let m = p.start();
        parse_identifier_binding(p);
        p.bump_any();
        if p.at(TokenKind::LCurly) {
            let _ = parse_block_statement(p);
        } else {
            parse_expression_or_error(p);
        }
        let _ = p.complete(m, NodeKind::JsArrowFunctionExpression);
        proof {
            assert(p@.open =~= old(p)@.open);
        }
        ParsedSyntax::Present
    } else {
        parse_postfix(p)
    }
}

#[verifier::spinoff_prover]
fn parse_expression_or_error(p: &mut Parser)
    requires
        old(p).wf(),
    ensures
        final(p).wf(),
        final(p)@ == expression_or_error(old(p)@),
        final(p)@.follows(old(p)@),
    decreases old(p)@.remaining(), 13int,
{
    proof {
        reveal(expression_or_error);
    }
    if parse_expression(p).is_absent() {
        p.error(Expected::Expression);
    }
}

#[verifier::spinoff_prover]
fn parse_argument_entries(p: &mut Parser)
    requires
        old(p).wf(),
    ensures
        final(p).wf(),
        final(p)@ == argument_entries(old(p)@),
        final(p)@.follows(old(p)@),
    decreases old(p)@.remaining(), 14int,
{
    proof {
        reveal(argument_entries);
    }
    if p.at(TokenKind::RParen) || p.at(TokenKind::Eof) {
        return ;
    }
    let before = p.remaining();
    parse_expression_or_error(p);
    p.bump(TokenKind::Comma);
    if p.remaining() < before {
        parse_argument_entries(p);
    }
}

#[verifier::spinoff_prover]
fn parse_declarator(p: &mut Parser)
    requires
        old(p).wf(),
    ensures
        final(p).wf(),
        final(p)@ == declarator(old(p)@),
        final(p)@.follows(old(p)@),
    decreases old(p)@.remaining(), 15int,
{
    proof {
        reveal(declarator);
    }
    if !p.at(TokenKind::Ident) {
        p.error(Expected::Identifier);
        return ;
    }
    let m = p.start();
    parse_identifier_binding(p);
    if p.at(TokenKind::Eq) {
        let initializer = p.start();
        p.bump_any();
        parse_expression_or_error(p);
        let _ = p.complete(initializer, NodeKind::JsInitializerClause);
    }
    let _ = p.complete(m, NodeKind::JsVariableDeclarator);
    proof {
        assert(p@.open =~= old(p)@.open);
    }
}

#[verifier::spinoff_prover]
fn parse_declarator_entries(p: &mut Parser)
    requires
        old(p).wf(),
    ensures
        final(p).wf(),
        final(p)@ == declarator_entries(old(p)@),
        final(p)@.follows(old(p)@),
    decreases old(p)@.remaining(), 16int,
{
    proof {
        reveal(declarator_entries);
    }
    parse_declarator(p);
    if p.at(TokenKind::Comma) {
        p.bump_any();
        parse_declarator_entries(p);
    }
}

#[verifier::spinoff_prover]
fn parse_variable_declaration(p: &mut Parser)
    requires
        old(p).wf(),
        at_declaration_keyword(old(p)@),
    ensures
        final(p).wf(),
        final(p)@ == variable_declaration(old(p)@),
        final(p)@.follows(old(p)@),
        final(p)@.remaining() < old(p)@.remaining(),
    decreases old(p)@.remaining(), 17int,
{
    proof {
        reveal(variable_declaration);
    }
    let m = p.start();
    p.bump_any();
    let list = p.start();
    parse_declarator_entries(p);
    let _ = p.complete(list, NodeKind::JsVariableDeclaratorList);
    let _ = p.complete(m, NodeKind::JsVariableDeclaration);
    proof {
        assert(p@.open =~= old(p)@.open);
    }
}

#[verifier::spinoff_prover]
fn parse_variable_statement(p: &mut Parser)
    requires
        old(p).wf(),
        at_declaration_keyword(old(p)@),
    ensures
        final(p).wf(),
        final(p)@ == variable_statement(old(p)@),
        final(p)@.follows(old(p)@),
        final(p)@.remaining() < old(p)@.remaining(),
    decreases old(p)@.remaining(), 18int,
{
    proof {
        reveal(variable_statement);
    }
    let m = p.start();
    parse_variable_declaration(p);
    p.bump(TokenKind::Semicolon);
    let _ = p.complete(m, NodeKind::JsVariableStatement);
    proof {
        assert(p@.open =~= old(p)@.open);
    }
}

#[verifier::spinoff_prover]
fn parse_expression_statement(p: &mut Parser) -> (parsed: ParsedSyntax)
    requires
        old(p).wf(),
    ensures
        final(p).wf(),
        (final(p)@, parsed) == expression_statement(old(p)@),
        final(p)@.follows(old(p)@),
        parsed == ParsedSyntax::Present ==> final(p)@.remaining() < old(p)@.remaining(),
        parsed == ParsedSyntax::Absent ==> final(p)@ == old(p)@,
    decreases old(p)@.remaining(), 18int,
{
    proof {
        reveal(expression_statement);
    }
    let m = p.start();
    match parse_expression(p) {
        ParsedSyntax::Absent => {
            let _ = p.abandon(m);
            proof {
                assert(p@.open =~= old(p)@.open);
            }
            ParsedSyntax::Absent
        },
        ParsedSyntax::Present => {
            p.bump(TokenKind::Semicolon);
            let _ = p.complete(m, NodeKind::JsExpressionStatement);
            proof {
                assert(p@.open =~= old(p)@.open);
            }
            ParsedSyntax::Present
        },
    }
}

#[verifier::spinoff_prover]
fn parse_block_statement(p: &mut Parser) -> (parsed: ParsedSyntax)
    requires
        old(p).wf(),
    ensures
        final(p).wf(),
        (final(p)@, parsed) == block_statement(old(p)@),
        final(p)@.follows(old(p)@),
        parsed == ParsedSyntax::Present ==> final(p)@.remaining() < old(p)@.remaining(),
        parsed == ParsedSyntax::Absent ==> final(p)@ == old(p)@,
    decreases old(p)@.remaining(), 18int,
{
    proof {
        reveal(block_statement);
    }
    if !p.at(TokenKind::LCurly) {
        return ParsedSyntax::Absent;
    }
    let m = p.start();
    p.bump_any();
    let list = p.start();
    parse_statement_entries(p, true);
    let _ = p.complete(list, NodeKind::JsStatementList);
    p.expect(TokenKind::RCurly, Expected::ClosingBrace);
    let _ = p.complete(m, NodeKind::JsBlockStatement);
    proof {
        assert(p@.open =~= old(p)@.open);
    }
    ParsedSyntax::Present
}

#[verifier::spinoff_prover]
fn parse_for_binding(p: &mut Parser)
    requires
        old(p).wf(),
    ensures
        final(p).wf(),
        final(p)@ == for_binding(old(p)@),
        final(p)@.follows(old(p)@),
    decreases old(p)@.remaining(), 18int,
{
    proof {
        reveal(for_binding);
    }
    if is_at_declaration_keyword(p) {
        parse_variable_declaration(p);
    } else {
        p.error(Expected::Identifier);
    }
}

#[verifier::spinoff_prover]
fn parse_for_of_statement(p: &mut Parser)
    requires
        old(p).wf(),
        old(p)@.at(TokenKind::ForKw),
    ensures
        final(p).wf(),
        final(p)@ == for_of_statement(old(p)@),
        final(p)@.follows(old(p)@),
        final(p)@.remaining() < old(p)@.remaining(),
    decreases old(p)@.remaining(), 19int,
{
    proof {
        reveal(for_of_statement);
    }
    let m = p.start();
    p.bump_any();
    p.expect(TokenKind::LParen, Expected::OpeningParen);
    parse_for_binding(p);
    p.expect(TokenKind::OfKw, Expected::OfKeyword);
    parse_expression_or_error(p);
    p.expect(TokenKind::RParen, Expected::ClosingParen);
    if parse_statement(p).is_absent() {
        p.error(Expected::Statement);
    }
    let _ = p.complete(m, NodeKind::JsForOfStatement);
    proof {
        assert(p@.open =~= old(p)@.open);
    }
}

/// Parses a statement.
#[verifier::spinoff_prover]
pub fn parse_statement(p: &mut Parser) -> (parsed: ParsedSyntax)
    requires
        old(p).wf(),
    ensures
        final(p).wf(),
        (final(p)@, parsed) == statement(old(p)@),
        final(p)@.follows(old(p)@),
        parsed == ParsedSyntax::Present ==> final(p)@.remaining() < old(p)@.remaining(),
        parsed == ParsedSyntax::Absent ==> final(p)@ == old(p)@,
    decreases old(p)@.remaining(), 20int,
{
    proof {
        reveal(statement);
    }
    if is_at_declaration_keyword(p) {
        parse_variable_statement(p);
        ParsedSyntax::Present
    } else if p.at(TokenKind::ForKw) {
        parse_for_of_statement(p);
        ParsedSyntax::Present
    } else if p.at(TokenKind::LCurly) {
        parse_block_statement(p)
    } else if p.at(TokenKind::Semicolon) {
        let m = p.start();
        p.bump_any();
        let _ = p.complete(m, NodeKind::JsEmptyStatement);
        proof {
            assert(p@.open =~= old(p)@.open);
        }
        ParsedSyntax::Present
    } else {
        parse_expression_statement(p)
    }
}

#[verifier::spinoff_prover]
fn parse_statement_entry(p: &mut Parser)
    requires
        old(p).wf(),
        !old(p)@.at(TokenKind::Eof),
    ensures
        final(p).wf(),
        final(p)@ == statement_entry(old(p)@),
        final(p)@.follows(old(p)@),
        final(p)@.remaining() < old(p)@.remaining(),
    decreases old(p)@.remaining(), 21int,
{
    proof {
        reveal(statement_entry);
    }
    if parse_statement(p).is_present() {
        return ;
    }
    let recovery = ParseRecovery::new(
        NodeKind::JsBogusStatement,
        TokenSet::new().with(TokenKind::Semicolon).with(TokenKind::RCurly),
    ).enable_recovery_on_line_break();
    let outcome = ParsedSyntax::Absent.or_recover(p, &recovery, Expected::Statement);
    if outcome.is_err() {
        let m = p.start();
        p.bump_any();
        let _ = p.complete(m, NodeKind::JsBogusStatement);
        proof {
            assert(p@.open =~= old(p)@.open);
        }
    }
}

#[verifier::spinoff_prover]
fn parse_statement_entries(p: &mut Parser, in_block: bool)
    requires
        old(p).wf(),
    ensures
        final(p).wf(),
        final(p)@ == statement_entries(old(p)@, in_block),
        final(p)@.follows(old(p)@),
        !in_block ==> final(p)@.at(TokenKind::Eof),
    decreases old(p)@.remaining(), 22int,
{
    proof {
        reveal(statement_entries);
    }
    if p.at(TokenKind::Eof) || (in_block && p.at(TokenKind::RCurly)) {
        return ;
    }
    parse_statement_entry(p);
    parse_statement_entries(p, in_block);
}

/// Parses a script. The tree covers the whole input, byte for byte,
/// whatever the input is.
#[verifier::spinoff_prover]
pub fn parse_js(source: &[u8]) -> (parse: Parse)
    ensures
        parse@ == js_parse(source@),
        parse@.tree.text() == source@,
        parse@.tree.text().len() <= usize::MAX,
        parse@.tree.wf(),
        parse@.tree.is_node_of(NodeKind::JsModule),
{
    let mut p = Parser::new(source, Language::Js);
    let m = p.start();
    let list = p.start();
    parse_statement_entries(&mut p, false);
    let _ = p.complete(list, NodeKind::JsStatementList);
    p.bump_any();
    let _ = p.complete(m, NodeKind::JsModule);
    proof {
        assert(source@.subrange(0, source@.len() as int) =~= source@);
        assert(source@.len() == source.len());
    }
    match p.finish() {
        Some(parse) => parse,
        None => vstd::pervasive::unreached(),
    }
}

} // verus!
