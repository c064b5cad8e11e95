//! Structured diagnostics: spans, severities, labels, quick-fixes and bags.
use vstd::prelude::*;
use crate::text::{owned, cat, append};

verus! {

/// A byte-offset span in a source file.
#[derive(Debug, Clone, Copy, PartialEq, Eq, Structural)]
pub struct Span {
    /// Opaque identifier for the source file.
    pub file_id: u32,
    /// Inclusive start byte offset.
    pub start: usize,
    /// Exclusive end byte offset.
    pub end: usize,
}

impl Span {
    /// Create a new span.
    pub fn new(file_id: u32, start: usize, end: usize) -> (s: Span)
        ensures
            s == (Span { file_id, start, end }),
    {
        Span { file_id, start, end }
    }

    /// Create a zero-width span at a single position.
    pub fn point(file_id: u32, offset: usize) -> (s: Span)
        ensures
            s == (Span { file_id, start: offset, end: offset }),
    {
        Span { file_id, start: offset, end: offset }
    }

    /// The span covering both `self` and `other`: the file of `self`, the
    /// smaller start and the larger end.
    pub open spec fn spec_merge(self, other: Span) -> Span {
        Span {
            file_id: self.file_id,
            start: if self.start <= other.start { self.start } else { other.start },
            end: if self.end >= other.end { self.end } else { other.end },
        }
    }

    /// Merge two spans into one that covers both.
    pub fn merge(self, other: Span) -> (s: Span)
        ensures
            s == self.spec_merge(other),
    {
        Span {
            file_id: self.file_id,
            start: if self.start <= other.start { self.start } else { other.start },
            end: if self.end >= other.end { self.end } else { other.end },
        }
    }
}


/// Diagnostic severity level.
#[derive(Debug, Clone, Copy, PartialEq, Eq, Structural)]
pub enum Severity {
    /// A fatal error that prevents compilation.
    Error,
    /// A potential issue that does not prevent compilation.
    Warning,
    /// An informational note.
    Info,
}

impl Severity {
    /// The lower-case word for this severity, as shown in rendered output.
    pub open spec fn spec_word(self) -> Seq<char> {
        match self {
            Severity::Error => "error"@,
            Severity::Warning => "warning"@,
            Severity::Info => "info"@,
        }
    }

    /// The lower-case word for this severity (`error`, `warning`, `info`).
    pub fn word(&self) -> (r: String)
        ensures
            r@ == self.spec_word(),
    {
        match self {
            Severity::Error => owned("error"),
            Severity::Warning => owned("warning"),
            Severity::Info => owned("info"),
        }
    }
}

/// A structured error code such as `E0001`.
#[derive(Debug, Clone, PartialEq, Eq)]
pub struct ErrorCode(pub String);

impl ErrorCode {
    /// Create a new error code.
    pub fn new(code: &str) -> (r: ErrorCode)
        ensures
            r.0@ == code@,
    {
        ErrorCode(owned(code))
    }
}

/// An annotated source label pointing at a specific span.
#[derive(Debug, Clone, PartialEq, Eq)]
pub struct Label {
    /// The source span this label points to.
    pub span: Span,
    /// A short message describing this location.
    pub message: String,
}

impl Label {
    /// Create a new label.
    pub fn new(span: Span, message: &str) -> (r: Label)
        ensures
            r.span == span,
            r.message@ == message@,
    {
        Label { span, message: owned(message) }
    }

    /// Create a new label from an owned message.
    pub fn with_message(span: Span, message: String) -> (r: Label)
        ensures
            r.span == span,
            r.message == message,
    {
        Label { span, message }
    }
}

/// A structured code edit that tooling can apply automatically.
#[derive(Debug, Clone, PartialEq, Eq)]
pub struct QuickFix {
    /// The span of text to replace.
    pub span: Span,
    /// The replacement text.
    pub replacement: String,
    /// A human-readable description of what this fix does.
    pub description: String,
}

impl QuickFix {
    /// Create a new quick-fix.
    pub fn new(span: Span, replacement: &str, description: &str) -> (r: QuickFix)
        ensures
            r.span == span,
            r.replacement@ == replacement@,
            r.description@ == description@,
    {
        QuickFix { span, replacement: owned(replacement), description: owned(description) }
    }
}

/// A single diagnostic message with full context.
#[derive(Debug, Clone, PartialEq, Eq)]
pub struct Diagnostic {
    /// Error code identifying the class of diagnostic.
    pub code: ErrorCode,
    /// Severity level.
    pub severity: Severity,
    /// One-line main message.
    pub message: String,
    /// Primary source location.
    pub span: Span,
    /// Additional annotated source locations.
    pub labels: Vec<Label>,
    /// Extra explanatory notes.
    pub notes: Vec<String>,
    /// A suggested fix (human-readable).
    pub help: Option<String>,
    /// Structured code edits for automated tooling.
    pub quickfixes: Vec<QuickFix>,
}

impl Diagnostic {
    /// A diagnostic with the given code, severity, message and span, and no
    /// labels, notes, help or quick-fixes.
    pub open spec fn fresh(self, code: Seq<char>, severity: Severity, message: Seq<char>, span: Span) -> bool {
        &&& self.code.0@ == code
        &&& self.severity == severity
        &&& self.message@ == message
        &&& self.span == span
        &&& self.labels@.len() == 0
        &&& self.notes@.len() == 0
        &&& self.help is None
        &&& self.quickfixes@.len() == 0
    }

    /// A diagnostic of the given severity with an owned message.
    pub fn with_severity(code: &str, severity: Severity, message: String, span: Span) -> (r: Diagnostic)
        ensures
            r.fresh(code@, severity, message@, span),
    {
        Diagnostic {
            code: ErrorCode::new(code),
            severity,
            message,
            span,
            labels: Vec::new(),
            notes: Vec::new(),
            help: None,
            quickfixes: Vec::new(),
        }
    }

    /// Create a new error diagnostic with the given code, message, and span.
    pub fn error(code: &str, message: &str, span: Span) -> (r: Diagnostic)
        ensures
            r.fresh(code@, Severity::Error, message@, span),
    {
        Self::with_severity(code, Severity::Error, owned(message), span)
    }

    /// Create a new warning diagnostic.
    pub fn warning(code: &str, message: &str, span: Span) -> (r: Diagnostic)
        ensures
            r.fresh(code@, Severity::Warning, message@, span),
    {
        Self::with_severity(code, Severity::Warning, owned(message), span)
    }

    /// Create a new info diagnostic.
    pub fn info(code: &str, message: &str, span: Span) -> (r: Diagnostic)
        ensures
            r.fresh(code@, Severity::Info, message@, span),
    {
        Self::with_severity(code, Severity::Info, owned(message), span)
    }

    /// Add an annotated label.
    pub fn with_label(self, label: Label) -> (r: Diagnostic)
        ensures
            r == (Diagnostic { labels: r.labels, ..self }),
            r.labels@ == self.labels@.push(label),
    {
        let mut d = self;
        d.labels.push(label);
        d
    }

    /// Add a note.
    pub fn with_note(self, note: &str) -> (r: Diagnostic)
        ensures
            r == (Diagnostic { notes: r.notes, ..self }),
            r.notes@.len() == self.notes@.len() + 1,
            r.notes@.subrange(0, self.notes@.len() as int) == self.notes@,
            r.notes@.last()@ == note@,
    {
        let mut d = self;
        d.notes.push(owned(note));
        d
    }

    /// Set the help message.
    pub fn with_help(self, help: &str) -> (r: Diagnostic)
        ensures
            r == (Diagnostic { help: r.help, ..self }),
            r.help matches Some(h) && h@ == help@,
    {
        let mut d = self;
        d.help = Some(owned(help));
        d
    }

    /// Add a quick-fix.
    pub fn with_quickfix(self, fix: QuickFix) -> (r: Diagnostic)
        ensures
            r == (Diagnostic { quickfixes: r.quickfixes, ..self }),
            r.quickfixes@ == self.quickfixes@.push(fix),
    {
        let mut d = self;
        d.quickfixes.push(fix);
        d
    }
}

/// Whether some diagnostic of `ds` is an error.
pub open spec fn any_error(ds: Seq<Diagnostic>) -> bool {
    exists|i: int| 0 <= i < ds.len() && ds[i].severity == Severity::Error
}

/// A bag that collects multiple diagnostics during a compilation phase.
#[derive(Debug, Clone)]
pub struct DiagnosticBag {
    diagnostics: Vec<Diagnostic>,
}

impl View for DiagnosticBag {
    type V = Seq<Diagnostic>;

    closed spec fn view(&self) -> Seq<Diagnostic> {
        self.diagnostics@
    }
}

impl Default for DiagnosticBag {
    /// An empty bag.
    fn default() -> (b: DiagnosticBag)
        ensures
            b@ == Seq::<Diagnostic>::empty(),
    {
        DiagnosticBag::new()
    }
}

impl DiagnosticBag {
    /// Create an empty diagnostic bag.
    pub fn new() -> (b: DiagnosticBag)
        ensures
            b@ == Seq::<Diagnostic>::empty(),
    {
        DiagnosticBag { diagnostics: Vec::new() }
    }

    /// Add a diagnostic to the bag.
    pub fn add(&mut self, diagnostic: Diagnostic)
        ensures
            final(self)@ == old(self)@.push(diagnostic),
    {
        self.diagnostics.push(diagnostic);
    }

    /// Return true if any diagnostic is an error.
    pub fn has_errors(&self) -> (r: bool)
        ensures
            r == any_error(self@),
    {
        let mut i: usize = 0;
        while i < self.diagnostics.len()
            invariant
                i <= self@.len(),
                forall|j: int| 0 <= j < i ==> self@[j].severity != Severity::Error,
            decreases self@.len() - i,
        {
            if self.diagnostics[i].severity == Severity::Error {
                return true;
            }
            i = i + 1;
        }
        false
    }

    /// Return the number of collected diagnostics.
    pub fn len(&self) -> (r: usize)
        ensures
            r == self@.len(),
    {
        self.diagnostics.len()
    }

    /// Return true if there are no diagnostics.
    pub fn is_empty(&self) -> (r: bool)
        ensures
            r == (self@.len() == 0),
    {
        self.diagnostics.len() == 0
    }

    /// All diagnostics, in the order they were added.
    pub fn iter(&self) -> (r: &[Diagnostic])
        ensures
            r@ == self@,
    {
        self.diagnostics.as_slice()
    }

    /// Consume the bag and return all diagnostics.
    pub fn into_vec(self) -> (r: Vec<Diagnostic>)
        ensures
            r@ == self@,
    {
        self.diagnostics
    }

    /// Merge another bag into this one.
    pub fn merge(&mut self, other: DiagnosticBag)
        ensures
            final(self)@ == old(self)@ + other@,
    {
        let mut o = other;
        self.diagnostics.append(&mut o.diagnostics);
    }
}


/// Merging two spans of a file gives a span of that file covering both,
/// starting at one of their starts and ending at one of their ends; the
/// order of the two does not matter.
pub proof fn lemma_merge_covers(a: Span, b: Span)
    ensures
        a.spec_merge(b).file_id == a.file_id,
        a.spec_merge(b).start <= a.start && a.spec_merge(b).start <= b.start,
        a.spec_merge(b).end >= a.end && a.spec_merge(b).end >= b.end,
        a.spec_merge(b).start == a.start || a.spec_merge(b).start == b.start,
        a.spec_merge(b).end == a.end || a.spec_merge(b).end == b.end,
        a.file_id == b.file_id ==> a.spec_merge(b) == b.spec_merge(a),
{
}

/// Once an error is added, a bag has errors, whatever else it holds; merged
/// bags have errors exactly when one of them does.
pub proof fn lemma_errors_after_add(ds: Seq<Diagnostic>, d: Diagnostic, other: Seq<Diagnostic>)
    ensures
        d.severity == Severity::Error ==> any_error(ds.push(d)),
        any_error(ds + other) == (any_error(ds) || any_error(other)),
{
    if d.severity == Severity::Error {
        assert(ds.push(d)[ds.len() as int] == d);
    }
    if any_error(ds) {
        let i = choose|i: int| 0 <= i < ds.len() && ds[i].severity == Severity::Error;
        assert((ds + other)[i] == ds[i]);
    }
    if any_error(other) {
        let i = choose|i: int| 0 <= i < other.len() && other[i].severity == Severity::Error;
        assert((ds + other)[ds.len() + i] == other[i]);
    }
    if any_error(ds + other) {
        let i = choose|i: int| 0 <= i < (ds + other).len() && (ds + other)[i].severity == Severity::Error;
        if i < ds.len() {
            assert((ds + other)[i] == ds[i]);
        } else {
            assert((ds + other)[i] == other[i - ds.len()]);
        }
    }
}

} // verus!
