// Structured errors: reading legacy strings, the constructors and the wire form.
use kapi::error::{error_from_string, error_of_wire, wire_of, AppError, AppErrorKind, AppErrorWire};

#[test]
fn code_prefix_extraction() {
    let e: AppError = "CycleDetected: workflow has a cycle".to_string().into();
    assert_eq!(e.code, "CycleDetected");
    assert_eq!(e.kind, AppErrorKind::SystemError);
    assert_eq!(e.message, "workflow has a cycle");
}

#[test]
fn no_prefix_defaults_to_unknown() {
    let e: AppError = "oops".to_string().into();
    assert_eq!(e.code, "Unknown");
}

#[test]
fn space_in_prefix_keeps_whole_string_as_message() {
    let e: AppError = "two words: rest".to_string().into();
    assert_eq!(e.code, "Unknown");
    assert_eq!(e.message, "two words: rest");
}

#[test]
fn kind_helpers() {
    assert_eq!(AppError::user("X", "y").kind, AppErrorKind::UserError);
    assert_eq!(AppError::business("X", "y").kind, AppErrorKind::BusinessError);
    assert_eq!(AppError::system("X", "y").kind, AppErrorKind::SystemError);
}

#[test]
fn wire_format() {
    let e = AppError::user("NotFound", "workflow wf-123 not found");
    let w = wire_of(e);
    assert_eq!(w.code, "NotFound");
    assert_eq!(w.kind, "user");
    assert_eq!(w.message, "workflow wf-123 not found");
}

#[test]
fn wire_round_trip() {
    let e = AppError::business("CycleDetected", "graph has cycle a→b→a");
    let wire: AppErrorWire = e.into();
    assert_eq!(wire.code, "CycleDetected");
    assert_eq!(wire.kind, "business");
    assert_eq!(wire.message, "graph has cycle a→b→a");
}

#[test]
fn with_code_preserves_kind_and_message() {
    let e = AppError::business("Original", "msg").with_code("New");
    assert_eq!(e.code, "New");
    assert_eq!(e.message, "msg");
    assert_eq!(e.kind, AppErrorKind::BusinessError);
}

#[test]
fn legacy_strings_trim_code_and_message() {
    let e = error_from_string("  NotFound :   plugin x  ");
    assert_eq!(e.code, "NotFound");
    assert_eq!(e.message, "plugin x");
    let e: AppError = ": no code".into();
    assert_eq!(e.code, "Unknown");
    assert_eq!(e.message, ": no code");
    let e = error_from_string("");
    assert_eq!(e.code, "Unknown");
    assert_eq!(e.message, "");
}

#[test]
fn display_form_and_string_conversion() {
    let e = AppError::user("NotFound", "gone");
    assert_eq!(e.to_display_string(), "[user] NotFound: gone");
    let s: String = AppError::system("Db", "down").into();
    assert_eq!(s, "[system] Db: down");
    assert_eq!(AppErrorKind::BusinessError.as_str(), "business");
}

#[test]
fn wire_values_read_back_as_unknown() {
    let w = wire_of(AppError::user("A", "b"));
    let e = error_of_wire(w);
    assert_eq!(e.code, "Unknown");
    assert_eq!(e.message, "deserialization not supported");
    assert_eq!(e.kind, AppErrorKind::SystemError);
    let back: AppError = wire_of(AppError::business("A", "b")).into();
    assert_eq!(back.code, "Unknown");
}

#[test]
fn code_message_roundtrip() {
    let original = AppError::business("Disabled", "workflow is off");
    let e = error_from_string(&format!("{}: {}", original.code, original.message));
    assert_eq!(e.code, original.code);
    assert_eq!(e.message, original.message);
}

#[test]
fn conversions_through_from() {
    let e = AppError::from("NotFound: plugin x");
    assert_eq!((e.code.as_str(), e.message.as_str(), e.kind), ("NotFound", "plugin x", AppErrorKind::SystemError));
    let text: String = AppError::user("BadInput", "empty key").into();
    assert_eq!(text, "[user] BadInput: empty key");
    let back = AppError::from(wire_of(AppError::user("X", "y")));
    assert_eq!(back.code, "Unknown");
    assert_eq!(back.message, "deserialization not supported");
    assert_eq!(back.kind, AppErrorKind::SystemError);
}
