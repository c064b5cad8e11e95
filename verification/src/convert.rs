//! Conversion of LM diagnostics to the shape the Language Server Protocol
//! publishes: editor ranges, numeric severities and a message that carries
//! the help text.
use vstd::prelude::*;
use crate::diagnostics::{Diagnostic, Severity};
use crate::line_index::{LineIndex, Range, range_of};
use crate::text::{owned, cat, append};

verus! {

/// The severity of a published diagnostic, as the protocol names them.
#[derive(Debug, Clone, Copy, PartialEq, Eq, Structural)]
pub enum DiagnosticSeverity {
    Error,
    Warning,
    Information,
    Hint,
}

impl DiagnosticSeverity {
    /// The protocol's number for the severity.
    pub open spec fn spec_number(self) -> i32 {
        match self {
            DiagnosticSeverity::Error => 1,
            DiagnosticSeverity::Warning => 2,
            DiagnosticSeverity::Information => 3,
            DiagnosticSeverity::Hint => 4,
        }
    }

    /// The protocol's number for the severity.
    pub fn number(&self) -> (r: i32)
        ensures
            r == self.spec_number(),
    {
        match self {
            DiagnosticSeverity::Error => 1,
            DiagnosticSeverity::Warning => 2,
            DiagnosticSeverity::Information => 3,
            DiagnosticSeverity::Hint => 4,
        }
    }
}

/// A diagnostic as published to an editor.
#[derive(Debug, Clone, PartialEq, Eq)]
pub struct LspDiagnostic {
    /// The range the diagnostic covers.
    pub range: Range,
    /// Its severity.
    pub severity: Option<DiagnosticSeverity>,
    /// Its code.
    pub code: Option<String>,
    /// The tool that produced it.
    pub source: Option<String>,
    /// Its message, with the help text appended when there is one.
    pub message: String,
}

/// The published severity of an LM severity.
pub open spec fn severity_of(s: Severity) -> DiagnosticSeverity {
    match s {
        Severity::Error => DiagnosticSeverity::Error,
        Severity::Warning => DiagnosticSeverity::Warning,
        Severity::Info => DiagnosticSeverity::Information,
    }
}

/// Convert an LM severity to a published severity.
pub fn convert_severity(severity: Severity) -> (r: DiagnosticSeverity)
    ensures
        r == severity_of(severity),
{
    match severity {
        Severity::Error => DiagnosticSeverity::Error,
        Severity::Warning => DiagnosticSeverity::Warning,
        Severity::Info => DiagnosticSeverity::Information,
    }
}

/// The published message of a diagnostic: its message, followed by a blank
/// line and `help: ` with the help text when there is one.
pub open spec fn published_message(d: Diagnostic) -> Seq<char> {
    match d.help {
        Some(h) => d.message@ + "\n\nhelp: "@ + h@,
        None => d.message@,
    }
}

/// Convert an LM diagnostic to a published one, with its span turned into
/// an editor range by `index`.
pub fn convert_diagnostic(diag: &Diagnostic, index: &LineIndex) -> (r: LspDiagnostic)
    ensures
        r.range == range_of(index.text(), diag.span),
        r.severity == Some(severity_of(diag.severity)),
        r.code matches Some(c) && c@ == diag.code.0@,
        r.source matches Some(s) && s@ == "lm"@,
        r.message@ == published_message(*diag),
{
    let range = index.span_to_range(diag.span);
    let severity = Some(convert_severity(diag.severity));
    let code = Some(diag.code.0.clone());
    let message = match &diag.help {
        Some(help) => {
            let mut m = cat(diag.message.clone(), "\n\nhelp: ");
            append(&mut m, help.as_str());
            m
        },
        None => diag.message.clone(),
    };
    LspDiagnostic { range, severity, code, source: Some(owned("lm")), message }
}

} // verus!
