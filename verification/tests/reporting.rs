use codespan_preprocessed::reporting::{Diagnostic, EasyReportingStatus, LabelStyle, Severity};
use codespan_preprocessed::EasyLocated;

#[test]
fn status_from_counts() {
    assert_eq!(EasyReportingStatus::from_counts(0, 0), EasyReportingStatus::Faultless);
    assert_eq!(EasyReportingStatus::from_counts(0, 3), EasyReportingStatus::Warnings(3));
    assert_eq!(EasyReportingStatus::from_counts(2, 0), EasyReportingStatus::Errors(2));
    assert_eq!(EasyReportingStatus::from_counts(2, 5), EasyReportingStatus::Errors(2));
}

#[test]
fn status_failure() {
    assert!(!EasyReportingStatus::Faultless.is_failure());
    assert!(!EasyReportingStatus::Warnings(1).is_failure());
    assert!(EasyReportingStatus::Errors(1).is_failure());
}

#[test]
fn severity_tallies() {
    assert!(Severity::Bug.counts_as_error());
    assert!(Severity::Error.counts_as_error());
    assert!(!Severity::Warning.counts_as_error());
    assert!(Severity::Warning.counts_as_warning());
    assert!(!Severity::Note.counts_as_error());
    assert!(!Severity::Note.counts_as_warning());
    assert!(!Severity::Help.counts_as_warning());
}

#[test]
fn severity_constructors() {
    assert_eq!(Diagnostic::bug().severity, Severity::Bug);
    assert_eq!(Diagnostic::error().severity, Severity::Error);
    assert_eq!(Diagnostic::warning().severity, Severity::Warning);
    assert_eq!(Diagnostic::note().severity, Severity::Note);
    assert_eq!(Diagnostic::help().severity, Severity::Help);
    assert_eq!(*Diagnostic::note().code(), "");
}

#[test]
fn building_a_diagnostic() {
    let d = Diagnostic::note()
        .with_message("this is just an example".to_string())
        .with_primary_label(113..117, "do you see that ?".to_string())
        .with_secondary_label(21..26, "is it related to this ?".to_string());
    assert_eq!(d.message, "this is just an example");
    assert_eq!(d.labels.len(), 2);
    assert_eq!(d.labels[0].0, LabelStyle::Primary);
    assert_eq!(d.labels[0].1, 113..117);
    assert_eq!(d.labels[0].2, "do you see that ?");
    assert_eq!(d.labels[1].0, LabelStyle::Secondary);
    assert_eq!(d.labels[1].1, 21..26);
    assert_eq!(d.labels[1].2, "is it related to this ?");
}

#[test]
fn with_code_changes_only_the_code() {
    let d = Diagnostic::new("E01", Severity::Error)
        .with_message("bad".to_string())
        .with_code(42u32);
    assert_eq!(*d.code(), 42);
    assert_eq!(d.severity, Severity::Error);
    assert_eq!(d.message, "bad");
}

#[test]
fn notes_accumulate() {
    let d = Diagnostic::help()
        .with_note("first".to_string())
        .with_note("second".to_string());
    assert_eq!(d.notes, vec!["first".to_string(), "second".to_string()]);
}

#[test]
fn labeled_note_is_bold() {
    let d = Diagnostic::help().with_labeled_note("hint", "try again");
    assert_eq!(d.notes.len(), 1);
    assert_eq!(d.notes[0], "\u{1B}[1mhint\u{1B}[0m: try again");
}

#[test]
fn located_labels() {
    let d = Diagnostic::warning()
        .with_primary_located_label(EasyLocated::new("here".to_string(), 4..8))
        .with_secondary_located_label(EasyLocated::new("there".to_string(), 9..12));
    assert_eq!(d.labels[0], (LabelStyle::Primary, 4..8, "here".to_string()));
    assert_eq!(d.labels[1], (LabelStyle::Secondary, 9..12, "there".to_string()));
}
