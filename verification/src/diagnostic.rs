//! Diagnostics: pure data that says what was found, and where.

use vstd::prelude::*;
use crate::syntax::TextRange;

verus! {

/// How serious a diagnostic is.
#[derive(Clone, Copy, Debug, PartialEq, Eq, Structural)]
pub enum Severity {
    Error,
    Warning,
    Information,
}

/// The mathematical value of an annotated range.
pub struct AnnotationView {
    pub range: TextRange,
    pub message: Seq<char>,
}

/// The mathematical value of a diagnostic.
pub struct DiagnosticView {
    pub severity: Severity,
    pub range: TextRange,
    pub message: Seq<char>,
    pub secondary: Seq<AnnotationView>,
    pub footer: Option<Seq<char>>,
}

impl DiagnosticView {
    /// A diagnostic with a primary range and message only.
    pub open spec fn plain(severity: Severity, range: TextRange, message: Seq<char>) -> Self {
        DiagnosticView { severity, range, message, secondary: Seq::empty(), footer: None }
    }

    /// The same diagnostic with one more annotated range.
    pub open spec fn with_secondary(self, range: TextRange, message: Seq<char>) -> Self {
        DiagnosticView {
            secondary: self.secondary.push(AnnotationView { range, message }),
            ..self
        }
    }

    /// The same diagnostic with the given footer note.
    pub open spec fn with_footer(self, message: Seq<char>) -> Self {
        DiagnosticView { footer: Some(message), ..self }
    }
}

/// A secondary range with the text that explains it.
#[derive(Debug, PartialEq, Eq)]
pub struct Annotation {
    range: TextRange,
    message: String,
}

/// Severity, primary range and message, annotated secondary ranges and an
/// optional footer note.
#[derive(Debug, PartialEq, Eq)]
pub struct Diagnostic {
    severity: Severity,
    range: TextRange,
    message: String,
    secondary: Vec<Annotation>,
    footer: Option<String>,
}

impl View for Annotation {
    type V = AnnotationView;

    closed spec fn view(&self) -> AnnotationView {
        AnnotationView { range: self.range, message: self.message@ }
    }
}

/// The values of a run of annotations.
pub open spec fn annotations_view(annotations: Seq<Annotation>) -> Seq<AnnotationView> {
    annotations.map_values(|a: Annotation| a@)
}

/// The values of a run of diagnostics.
pub open spec fn diagnostics_view(diagnostics: Seq<Diagnostic>) -> Seq<DiagnosticView> {
    diagnostics.map_values(|d: Diagnostic| d@)
}

impl View for Diagnostic {
    type V = DiagnosticView;

    closed spec fn view(&self) -> DiagnosticView {
        DiagnosticView {
            severity: self.severity,
            range: self.range,
            message: self.message@,
            secondary: annotations_view(self.secondary@),
            footer: match self.footer {
                Some(s) => Some(s@),
                None => None,
            },
        }
    }
}

impl Annotation {
    /// The annotated range.
    pub fn range(&self) -> (range: TextRange)
        ensures
            range == self@.range,
    {
        self.range
    }

    /// The text that explains the range.
    pub fn message(&self) -> (message: &String)
        ensures
            message@ == self@.message,
    {
        &self.message
    }
}

impl Clone for Annotation {
    fn clone(&self) -> (copy: Annotation)
        ensures
            copy@ == self@,
    {
        Annotation { range: self.range, message: self.message.clone() }
    }
}

impl Diagnostic {
    /// A diagnostic with a primary range and message only.
    pub fn new(severity: Severity, range: TextRange, message: &str) -> (d: Diagnostic)
        ensures
            d@ == DiagnosticView::plain(severity, range, message@),
    {
        let d = Diagnostic {
            severity,
            range,
            message: message.to_owned(),
            secondary: Vec::new(),
            footer: None,
        };
        proof {
            assert(annotations_view(d.secondary@) =~= Seq::empty());
        }
        d
    }

    /// An error at `range`.
    pub fn error(range: TextRange, message: &str) -> (d: Diagnostic)
        ensures
            d@ == DiagnosticView::plain(Severity::Error, range, message@),
    {
        Diagnostic::new(Severity::Error, range, message)
    }

    /// A warning at `range`.
    pub fn warning(range: TextRange, message: &str) -> (d: Diagnostic)
        ensures
            d@ == DiagnosticView::plain(Severity::Warning, range, message@),
    {
        Diagnostic::new(Severity::Warning, range, message)
    }

    /// Adds an annotated secondary range.
    pub fn secondary(self, range: TextRange, message: &str) -> (d: Diagnostic)
        ensures
            d@ == self@.with_secondary(range, message@),
    {
        let mut d = self;
        let ghost before = d.secondary@;
        let note = Annotation { range, message: message.to_owned() };
        d.secondary.push(note);
        proof {
            assert(annotations_view(before.push(note)) =~= annotations_view(before).push(note@));
        }
        d
    }

    /// Sets the footer note.
    pub fn footer_note(self, message: &str) -> (d: Diagnostic)
        ensures
            d@ == self@.with_footer(message@),
    {
        let mut d = self;
        d.footer = Some(message.to_owned());
        d
    }

    /// How serious the diagnostic is.
    pub fn severity(&self) -> (severity: Severity)
        ensures
            severity == self@.severity,
    {
        self.severity
    }

    /// The primary range.
    pub fn range(&self) -> (range: TextRange)
        ensures
            range == self@.range,
    {
        self.range
    }

    /// The primary message.
    pub fn message(&self) -> (message: &String)
        ensures
            message@ == self@.message,
    {
        &self.message
    }

    /// The annotated secondary ranges, in the order they were added.
    pub fn annotations(&self) -> (annotations: &Vec<Annotation>)
        ensures
            annotations_view(annotations@) == self@.secondary,
    {
        &self.secondary
    }

    /// The footer note, if one was set.
    pub fn footer(&self) -> (footer: &Option<String>)
        ensures
            match footer {
                Some(s) => self@.footer == Some(s@),
                None => self@.footer is None,
            },
    {
        &self.footer
    }
}

} // verus!
