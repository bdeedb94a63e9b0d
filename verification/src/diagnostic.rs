//! Diagnostics reported by the lexer, the parser, the package loader and
//! the type checker.

use vstd::prelude::*;
use crate::span::{is_line_of, line_starts_of, lemma_line_unique, SourceFile, Span};
use crate::text::{nat_decimal, owned, push_str, push_string};

verus! {

/// How serious a diagnostic is.
#[derive(Clone, Copy, Debug, PartialEq, Eq, Structural)]
pub enum DiagnosticSeverity {
    Error,
    Warning,
}

/// A message attached to a byte span of the source.
#[derive(Clone, Debug)]
pub struct Diagnostic {
    pub severity: DiagnosticSeverity,
    pub span: Span,
    pub message: String,
}

/// The name of a severity as rendered diagnostics show it.
pub open spec fn severity_name(severity: DiagnosticSeverity) -> Seq<char> {
    match severity {
        DiagnosticSeverity::Error => seq!['E', 'r', 'r', 'o', 'r'],
        DiagnosticSeverity::Warning => seq!['W', 'a', 'r', 'n', 'i', 'n', 'g'],
    }
}

/// Whether `r` renders a diagnostic at `offset` in the source named `name`
/// whose text has the bytes `bytes`: `Severity: name:line:col: message`,
/// where `line` is the line holding the offset and `col` counts bytes from
/// that line's start, both from 1.
pub open spec fn located(r: Seq<char>, severity: DiagnosticSeverity, name: Seq<char>, bytes: Seq<u8>, offset: int, message: Seq<char>) -> bool {
    exists|line: usize, col: usize|
        #![trigger nat_decimal(line as nat), nat_decimal(col as nat)]
        {
            &&& is_line_of(line_starts_of(bytes), offset, line - 1)
            &&& col == offset - line_starts_of(bytes)[line - 1] + 1
            &&& r == severity_name(severity) + ": "@ + name + seq![':'] + nat_decimal(line as nat) + seq![':']
                + nat_decimal(col as nat) + ": "@ + message
        }
}

/// A located rendering is determined by what it locates: whichever
/// renderer produced them, two renderings of the same diagnostic at the same
/// offset of the same source are the same text.
pub proof fn lemma_located_unique(r1: Seq<char>, r2: Seq<char>, severity: DiagnosticSeverity, name: Seq<char>, bytes: Seq<u8>, offset: int, message: Seq<char>)
    requires
        located(r1, severity, name, bytes, offset, message),
        located(r2, severity, name, bytes, offset, message),
    ensures
        r1 == r2,
{
    let (l1, c1) = choose|line: usize, col: usize|
        #![trigger nat_decimal(line as nat), nat_decimal(col as nat)]
        {
            &&& is_line_of(line_starts_of(bytes), offset, line - 1)
            &&& col == offset - line_starts_of(bytes)[line - 1] + 1
            &&& r1 == severity_name(severity) + ": "@ + name + seq![':'] + nat_decimal(line as nat) + seq![':']
                + nat_decimal(col as nat) + ": "@ + message
        };
    let (l2, c2) = choose|line: usize, col: usize|
        #![trigger nat_decimal(line as nat), nat_decimal(col as nat)]
        {
            &&& is_line_of(line_starts_of(bytes), offset, line - 1)
            &&& col == offset - line_starts_of(bytes)[line - 1] + 1
            &&& r2 == severity_name(severity) + ": "@ + name + seq![':'] + nat_decimal(line as nat) + seq![':']
                + nat_decimal(col as nat) + ": "@ + message
        };
    lemma_line_unique(bytes, offset, l1 - 1, l2 - 1);
}

impl DiagnosticSeverity {
    /// The name of the severity as it appears in rendered diagnostics.
    pub fn name(self) -> (r: &'static str)
        ensures
            r@ == severity_name(self),
    {
        proof {
            reveal_strlit("Error");
            reveal_strlit("Warning");
        }
        match self {
            DiagnosticSeverity::Error => "Error",
            DiagnosticSeverity::Warning => "Warning",
        }
    }
}

impl Diagnostic {
    /// An error diagnostic with the given span and message.
    pub fn error(span: Span, message: String) -> (r: Diagnostic)
        ensures
            r.severity == DiagnosticSeverity::Error,
            r.span == span,
            r.message == message,
    {
        Diagnostic { severity: DiagnosticSeverity::Error, span, message }
    }

    /// The diagnostic as one line against its source:
    /// `Severity: name:line:col: message`, the position being that of the
    /// span's start; a span starting at the last offset has no position.
    pub fn render(&self, source: &SourceFile) -> (r: String)
        requires
            source.wf(),
        ensures
            self.span.start < usize::MAX ==> located(r@, self.severity, source.name_view(), source.text_bytes(),
                self.span.start as int, self.message@),
            self.span.start == usize::MAX ==> r@ == severity_name(self.severity) + ": "@ + self.message@,
    {
        let mut out = owned(self.severity.name());
        push_str(&mut out, ": ");
        if self.span.start < usize::MAX {
            let location = source.format_span(self.span);
            push_string(&mut out, &location);
            push_str(&mut out, ": ");
            push_string(&mut out, &self.message);
            proof {
                reveal_strlit(": ");
                source.lemma_starts_of_text();
                let (line, col) = choose|line: usize, col: usize|
                    #![trigger nat_decimal(line as nat), nat_decimal(col as nat)]
                    {
                        &&& is_line_of(source.starts(), self.span.start as int, line - 1)
                        &&& col == self.span.start - source.starts()[line - 1] + 1
                        &&& location@ == source.name_view() + seq![':'] + nat_decimal(line as nat) + seq![':']
                            + nat_decimal(col as nat)
                    };
                assert(out@ =~= severity_name(self.severity) + ": "@ + source.name_view() + seq![':']
                    + nat_decimal(line as nat) + seq![':'] + nat_decimal(col as nat) + ": "@ + self.message@);
            }
            return out;
        }
        push_string(&mut out, &self.message);
        out
    }
}

} // verus!
