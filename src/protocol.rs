use vstd::prelude::*;

use crate::position::Range;

verus! {

/// How grave a diagnostic is.
#[derive(Clone, Copy, Debug, PartialEq, Eq, Structural)]
pub enum Severity {
    Error,
    Warning,
}

/// A message about a span of a file, tagged with the indexer that found it.
#[derive(Debug)]
pub struct Diagnostic {
    pub range: Range,
    pub severity: Severity,
    pub message: String,
    pub source: String,
}

pub struct DiagnosticView {
    pub range: Range,
    pub severity: Severity,
    pub message: Seq<char>,
    pub source: Seq<char>,
}

impl View for Diagnostic {
    type V = DiagnosticView;

    open spec fn view(&self) -> DiagnosticView {
        DiagnosticView {
            range: self.range,
            severity: self.severity,
            message: self.message@,
            source: self.source@,
        }
    }
}

/// The diagnostics of one file.
#[derive(Debug)]
pub struct FileDiagnostics {
    pub path: String,
    pub diagnostics: Vec<Diagnostic>,
}

pub open spec fn diagnostics_view(d: Seq<Diagnostic>) -> Seq<DiagnosticView> {
    d.map_values(|x: Diagnostic| x@)
}

/// The diagnostics of a report, by file path.
pub open spec fn report_view(r: Seq<FileDiagnostics>) -> Seq<(Seq<char>, Seq<DiagnosticView>)> {
    r.map_values(|f: FileDiagnostics| (f.path@, diagnostics_view(f.diagnostics@)))
}

/// What a completion candidate names.
#[derive(Clone, Copy, Debug, PartialEq, Eq, Structural)]
pub enum CompletionKind {
    Function,
    Constant,
}

/// One completion candidate.
#[derive(Debug)]
pub struct CompletionItem {
    pub label: String,
    pub kind: CompletionKind,
    pub detail: String,
}

pub struct CompletionView {
    pub label: Seq<char>,
    pub kind: CompletionKind,
    pub detail: Seq<char>,
}

impl View for CompletionItem {
    type V = CompletionView;

    open spec fn view(&self) -> CompletionView {
        CompletionView { label: self.label@, kind: self.kind, detail: self.detail@ }
    }
}

pub open spec fn completions_view(c: Seq<CompletionItem>) -> Seq<CompletionView> {
    c.map_values(|x: CompletionItem| x@)
}

} // verus!
