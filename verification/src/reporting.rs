//! Building blocks for diagnostics over a codemap: severities, located
//! labels, and error/warning tallies. The library holds diagnostics as plain
//! data; a renderer outside it turns them into output.

use core::ops::Range;
use vstd::prelude::*;
use vstd::string::StringExecFns;
use crate::easyloc::EasyLocated;

verus! {

/// How serious a diagnostic is.
#[derive(Clone, Copy, Debug, PartialEq, Eq, Structural)]
pub enum Severity {
    Bug,
    Error,
    Warning,
    Note,
    Help,
}

/// Whether a label marks the diagnostic's main location or a related one.
#[derive(Clone, Copy, Debug, PartialEq, Eq, Structural)]
pub enum LabelStyle {
    Primary,
    Secondary,
}

impl Severity {
    /// Whether a diagnostic of this severity counts into the error tally.
    pub fn counts_as_error(&self) -> (r: bool)
        ensures
            r == (*self == Severity::Bug || *self == Severity::Error),
    {
        matches!(self, Severity::Bug | Severity::Error)
    }

    /// Whether a diagnostic of this severity counts into the warning tally.
    pub fn counts_as_warning(&self) -> (r: bool)
        ensures
            r == (*self == Severity::Warning),
    {
        matches!(self, Severity::Warning)
    }
}

/// The summary of a reporting session.
#[derive(Clone, Copy, Debug, PartialEq, Eq, Structural)]
pub enum EasyReportingStatus {
    Faultless,
    Warnings(u32),
    Errors(u32),
}

impl EasyReportingStatus {
    /// The status that the tallies amount to: any error makes the session a
    /// failure, else any warning is reported, else it was faultless.
    pub fn from_counts(errors: u32, warnings: u32) -> (r: Self)
        ensures
            r == if errors > 0 {
                EasyReportingStatus::Errors(errors)
            } else if warnings > 0 {
                EasyReportingStatus::Warnings(warnings)
            } else {
                EasyReportingStatus::Faultless
            },
    {
        if errors > 0 {
            EasyReportingStatus::Errors(errors)
        } else if warnings > 0 {
            EasyReportingStatus::Warnings(warnings)
        } else {
            EasyReportingStatus::Faultless
        }
    }

    /// Whether the session must be treated as failed.
    pub fn is_failure(&self) -> (r: bool)
        ensures
            r == (*self is Errors),
    {
        matches!(self, EasyReportingStatus::Errors(_))
    }
}

/// A diagnostic under construction: a code, a severity, a message, located
/// labels, and free-form notes.
pub struct Diagnostic<E> {
    pub code: E,
    pub severity: Severity,
    pub message: String,
    pub labels: Vec<(LabelStyle, Range<usize>, String)>,
    pub notes: Vec<String>,
}

impl Diagnostic<&'static str> {
    /// An empty diagnostic that reports a bug.
    pub fn bug() -> (r: Self)
        ensures
            r.severity == Severity::Bug,
            r.code@.len() == 0,
            r.message@.len() == 0,
            r.labels@.len() == 0,
            r.notes@.len() == 0,
    {
        proof {
            reveal_strlit("");
        }
        Self::new("", Severity::Bug)
    }

    /// An empty diagnostic that reports an error.
    pub fn error() -> (r: Self)
        ensures
            r.severity == Severity::Error,
            r.code@.len() == 0,
            r.message@.len() == 0,
            r.labels@.len() == 0,
            r.notes@.len() == 0,
    {
        proof {
            reveal_strlit("");
        }
        Self::new("", Severity::Error)
    }

    /// An empty diagnostic that reports a warning.
    pub fn warning() -> (r: Self)
        ensures
            r.severity == Severity::Warning,
            r.code@.len() == 0,
            r.message@.len() == 0,
            r.labels@.len() == 0,
            r.notes@.len() == 0,
    {
        proof {
            reveal_strlit("");
        }
        Self::new("", Severity::Warning)
    }

    /// An empty diagnostic that carries a note.
    pub fn note() -> (r: Self)
        ensures
            r.severity == Severity::Note,
            r.code@.len() == 0,
            r.message@.len() == 0,
            r.labels@.len() == 0,
            r.notes@.len() == 0,
    {
        proof {
            reveal_strlit("");
        }
        Self::new("", Severity::Note)
    }

    /// An empty diagnostic that offers help.
    pub fn help() -> (r: Self)
        ensures
            r.severity == Severity::Help,
            r.code@.len() == 0,
            r.message@.len() == 0,
            r.labels@.len() == 0,
            r.notes@.len() == 0,
    {
        proof {
            reveal_strlit("");
        }
        Self::new("", Severity::Help)
    }
}

impl<E> Diagnostic<E> {
    /// An empty diagnostic with the given code and severity.
    pub fn new(code: E, severity: Severity) -> (r: Self)
        ensures
            r.code == code,
            r.severity == severity,
            r.message@.len() == 0,
            r.labels@.len() == 0,
            r.notes@.len() == 0,
    {
        Diagnostic { code, severity, message: String::new(), labels: Vec::new(), notes: Vec::new() }
    }

    /// The diagnostic's code.
    pub fn code(&self) -> (r: &E)
        ensures
            *r == self.code,
    {
        &self.code
    }

    /// The same diagnostic under another code.
    pub fn with_code<EE>(self, code: EE) -> (r: Diagnostic<EE>)
        ensures
            r.code == code,
            r.severity == self.severity,
            r.message == self.message,
            r.labels == self.labels,
            r.notes == self.notes,
    {
        Diagnostic {
            code,
            severity: self.severity,
            message: self.message,
            labels: self.labels,
            notes: self.notes,
        }
    }

    /// Replaces the diagnostic's message.
    pub fn with_message(self, msg: String) -> (r: Self)
        ensures
            r.message == msg,
            r.code == self.code,
            r.severity == self.severity,
            r.labels == self.labels,
            r.notes == self.notes,
    {
        Diagnostic {
            code: self.code,
            severity: self.severity,
            message: msg,
            labels: self.labels,
            notes: self.notes,
        }
    }

    /// Appends a free-form note.
    pub fn with_note(self, note: String) -> (r: Self)
        ensures
            r.notes@ == self.notes@.push(note),
            r.code == self.code,
            r.severity == self.severity,
            r.message == self.message,
            r.labels == self.labels,
    {
        let mut notes = self.notes;
        notes.push(note);
        Diagnostic {
            code: self.code,
            severity: self.severity,
            message: self.message,
            labels: self.labels,
            notes,
        }
    }

    /// Appends a note under a bold label: the label is wrapped in the
    /// terminal's bold escape codes and separated from the note by a colon.
    pub fn with_labeled_note(self, label: &str, note: &str) -> (r: Self)
        ensures
            r.notes@.len() == self.notes@.len() + 1,
            r.notes@.subrange(0, self.notes@.len() as int) == self.notes@,
            r.notes@.last()@ == "\u{1B}[1m"@ + label@ + "\u{1B}[0m: "@ + note@,
            r.code == self.code,
            r.severity == self.severity,
            r.message == self.message,
            r.labels == self.labels,
    {
        let decorated = String::from_str("\u{1B}[1m").concat(label).concat("\u{1B}[0m: ").concat(
            note,
        );
        let mut notes = self.notes;
        notes.push(decorated);
        proof {
            assert(notes@.subrange(0, notes@.len() - 1) =~= self.notes@);
        }
        Diagnostic {
            code: self.code,
            severity: self.severity,
            message: self.message,
            labels: self.labels,
            notes,
        }
    }

    /// Appends the diagnostic's main location with its message. An empty
    /// range names no location and is the caller's error.
    pub fn with_primary_label(self, range: Range<usize>, msg: String) -> (r: Self)
        requires
            range.start < range.end,
        ensures
            r.labels@ == self.labels@.push((LabelStyle::Primary, range, msg)),
            r.code == self.code,
            r.severity == self.severity,
            r.message == self.message,
            r.notes == self.notes,
    {
        let mut labels = self.labels;
        labels.push((LabelStyle::Primary, range, msg));
        Diagnostic {
            code: self.code,
            severity: self.severity,
            message: self.message,
            labels,
            notes: self.notes,
        }
    }

    /// Appends a secondary location with its message. An empty range names
    /// no location and is the caller's error.
    pub fn with_secondary_label(self, range: Range<usize>, msg: String) -> (r: Self)
        requires
            range.start < range.end,
        ensures
            r.labels@ == self.labels@.push((LabelStyle::Secondary, range, msg)),
            r.code == self.code,
            r.severity == self.severity,
            r.message == self.message,
            r.notes == self.notes,
    {
        let mut labels = self.labels;
        labels.push((LabelStyle::Secondary, range, msg));
        Diagnostic {
            code: self.code,
            severity: self.severity,
            message: self.message,
            labels,
            notes: self.notes,
        }
    }

    /// Appends a located message as the diagnostic's main location.
    pub fn with_primary_located_label(self, label: EasyLocated<String>) -> (r: Self)
        requires
            label.loc.start < label.loc.end,
        ensures
            r.labels@ == self.labels@.push((LabelStyle::Primary, label.loc, label.inner)),
            r.code == self.code,
            r.severity == self.severity,
            r.message == self.message,
            r.notes == self.notes,
    {
        let EasyLocated { inner, loc } = label;
        self.with_primary_label(loc, inner)
    }

    /// Appends a located message as a secondary location.
    pub fn with_secondary_located_label(self, label: EasyLocated<String>) -> (r: Self)
        requires
            label.loc.start < label.loc.end,
        ensures
            r.labels@ == self.labels@.push((LabelStyle::Secondary, label.loc, label.inner)),
            r.code == self.code,
            r.severity == self.severity,
            r.message == self.message,
            r.notes == self.notes,
    {
        let EasyLocated { inner, loc } = label;
        self.with_secondary_label(loc, inner)
    }
}

} // verus!
