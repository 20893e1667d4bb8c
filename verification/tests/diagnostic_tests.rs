use xync::diagnostic::{decimal_string, format_code};
use xync::{DiagnosticBuilder, LexerError, ParserError, SemanticError, Severity};

#[test]
fn default_diagnostic_is_a_plain_error() {
    let d = DiagnosticBuilder::default().build();
    assert_eq!(d.severity(), Severity::Error);
    assert_eq!(d.error_code(), None);
    assert_eq!(d.message(), "");
    assert_eq!(d.label(), "error");
}

#[test]
fn error_code_sets_code_message_and_severity() {
    let d = DiagnosticBuilder::new()
        .with_severity(Severity::Warning)
        .with_error_code(ParserError::ExpectedIdentifier)
        .build();
    assert_eq!(d.severity(), Severity::Error);
    assert_eq!(d.error_code(), Some(1002));
    assert_eq!(d.message(), "Expected an identifier:");
    assert_eq!(d.label(), "error[E-1002]");
}

#[test]
fn error_codes_of_each_phase() {
    let lex = DiagnosticBuilder::new().with_error_code(LexerError::UnclosedString).build();
    assert_eq!(lex.error_code(), Some(2001));
    let parse = DiagnosticBuilder::new().with_error_code(ParserError::UnclosedScope).build();
    assert_eq!(parse.error_code(), Some(1006));
    let sema = DiagnosticBuilder::new()
        .with_error_code(SemanticError::ConflictingVariable)
        .build();
    assert_eq!(sema.error_code(), Some(1));
    assert_eq!(sema.label(), "error[E-0001]");
    assert_eq!(sema.message(), "Conflicting variable:");
}

#[test]
fn message_and_severity_by_hand() {
    let d = DiagnosticBuilder::new()
        .add_message("look here")
        .with_severity(Severity::Help)
        .with_preview("let a")
        .build();
    assert_eq!(d.severity(), Severity::Help);
    assert_eq!(d.message(), "look here");
    assert_eq!(d.label(), "help");
    let out = d.render();
    assert!(out.starts_with("help: "));
    assert!(out.contains("look here"));
}

#[test]
fn warning_label() {
    let d = DiagnosticBuilder::new().with_severity(Severity::Warning).build();
    assert_eq!(d.label(), "warning");
}

#[test]
fn render_holds_label_and_message() {
    let d = DiagnosticBuilder::new().with_error_code(LexerError::UnknownChar).build();
    let out = d.render();
    assert!(out.contains("error[E-2000]"));
    assert!(out.contains(": "));
    assert!(out.contains("Unknown character"));
}

#[test]
fn codes_are_zero_padded() {
    assert_eq!(format_code(0), "0000");
    assert_eq!(format_code(7), "0007");
    assert_eq!(format_code(42), "0042");
    assert_eq!(format_code(123), "0123");
    assert_eq!(format_code(1002), "1002");
    assert_eq!(format_code(123456), "123456");
}

#[test]
fn decimal_notation() {
    assert_eq!(decimal_string(0), "0");
    assert_eq!(decimal_string(9), "9");
    assert_eq!(decimal_string(10), "10");
    assert_eq!(decimal_string(65535), "65535");
}

#[test]
fn render_colours_label_and_message() {
    let err = DiagnosticBuilder::new().with_error_code(LexerError::UnknownChar).build();
    let warn = DiagnosticBuilder::new()
        .with_severity(Severity::Warning)
        .add_message("careful")
        .build();
    let help = DiagnosticBuilder::new()
        .with_severity(Severity::Help)
        .add_message("try this")
        .build();
    colored::control::set_override(true);
    assert_eq!(
        err.render(),
        "\x1B[1;31merror[E-2000]\x1B[0m: \x1B[1mUnknown character:\x1B[0m"
    );
    assert_eq!(warn.render(), "\x1B[1;33mwarning\x1B[0m: \x1B[1mcareful\x1B[0m");
    assert_eq!(help.render(), "help: \x1B[1mtry this\x1B[0m");
    colored::control::set_override(false);
    assert_eq!(err.render(), "error[E-2000]: Unknown character:");
    assert_eq!(warn.render(), "warning: careful");
    assert_eq!(help.render(), "help: try this");
    colored::control::unset_override();
}
