//! Rendering a tree back to text.
//!
//! A construct that has no layout of its own is rendered verbatim: the
//! text it was parsed from, byte for byte.

use vstd::prelude::*;
use crate::kind::NodeKind;
use crate::syntax::{SyntaxNode, Tree};

verus! {

/// A piece of formatted output.
#[derive(Debug, PartialEq, Eq)]
pub enum FormatElement {
    /// Text that is written as it stands.
    Verbatim(Vec<u8>),
}

/// The mathematical value of a piece of formatted output.
pub enum FormatElementView {
    Verbatim(Seq<u8>),
}

impl View for FormatElement {
    type V = FormatElementView;

    open spec fn view(&self) -> FormatElementView {
        match self {
            FormatElement::Verbatim(text) => FormatElementView::Verbatim(text@),
        }
    }
}

impl FormatElement {
    /// The text that the element prints as.
    pub fn text(&self) -> (text: &Vec<u8>)
        ensures
            self@ == FormatElementView::Verbatim(text@),
    {
        match self {
            FormatElement::Verbatim(text) => text,
        }
    }
}

/// Why a node could not be formatted.
#[derive(Clone, Copy, Debug, PartialEq, Eq, Structural)]
pub enum FormatError {
    /// A required part of the node is missing.
    MissingRequiredChild,
}

/// The formatter.
#[derive(Clone, Copy, Debug)]
pub struct Formatter;

impl Formatter {
    /// A formatter.
    pub fn new() -> Formatter {
        Formatter
    }

    /// Renders the node as the text it was parsed from.
    pub fn format_verbatim(&self, node: &SyntaxNode) -> (element: FormatElement)
        ensures
            element@ == FormatElementView::Verbatim(node@.text()),
    {
        FormatElement::Verbatim(node.text())
    }
}

/// A `typeof` type, as a typed handle on its node.
#[derive(Debug)]
pub struct TsTypeofType {
    syntax: SyntaxNode,
}

impl View for TsTypeofType {
    type V = Tree;

    closed spec fn view(&self) -> Tree {
        self.syntax@
    }
}

impl TsTypeofType {
    /// The handle on `node`, where it is a `typeof` type.
    pub fn cast(node: SyntaxNode) -> (typed: Option<TsTypeofType>)
        ensures
            typed is Some <==> node@.is_node_of(NodeKind::TsTypeofType),
            typed matches Some(t) ==> t@ == node@,
    {
        if node.kind() == NodeKind::TsTypeofType {
            Some(TsTypeofType { syntax: node })
        } else {
            None
        }
    }

    /// The node behind the handle.
    pub fn syntax(&self) -> (node: &SyntaxNode)
        ensures
            node@ == self@,
    {
        &self.syntax
    }

    /// Formats the type: it is rendered verbatim.
    pub fn to_format_element(&self, formatter: &Formatter) -> (result: Result<
        FormatElement,
        FormatError,
    >)
        ensures
            result matches Ok(element) && element@ == FormatElementView::Verbatim(self@.text()),
    {
        Ok(formatter.format_verbatim(self.syntax()))
    }
}

} // verus!
