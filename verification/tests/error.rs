use pmi::error::{io_message, Error, IoFailure};
use std::io;

#[test]
fn test_io_error_display() {
    let err = Error::Io { source: io::Error::new(io::ErrorKind::Other, "test error"), path: None };
    assert!(err.message().contains("I/O error"));
}

#[test]
fn test_io_error_with_path_display() {
    let err = Error::Io {
        source: io::Error::new(io::ErrorKind::Other, "test error"),
        path: Some(String::from("/test/path.jpg")),
    };
    assert!(err.message().contains("/test/path.jpg"));
}

#[test]
fn test_invalid_image_display() {
    let err = Error::invalid_image("/test/image.jpg", "corrupted header");
    assert!(err.message().contains("Invalid image"));
    assert!(err.message().contains("corrupted header"));
}

#[test]
fn test_unsupported_format_display() {
    let err = Error::unsupported_format("/test/file.bmp", Some("BMP"));
    assert!(err.message().contains("Unsupported format"));
    assert!(err.message().contains("BMP"));
}

#[test]
fn test_from_io_error() {
    let io_err = io::Error::new(io::ErrorKind::Other, "test");
    let err: Error = io_err.into();
    assert!(matches!(err, Error::Io { .. }));
}

#[test]
fn test_io_with_path_not_found() {
    let io_err = io::Error::new(io::ErrorKind::NotFound, "not found");
    let err = Error::io_with_path(io_err, "/test/path");
    assert!(matches!(err, Error::NotFound { .. }));
}

#[test]
fn test_io_with_path_permission_denied() {
    let io_err = io::Error::new(io::ErrorKind::PermissionDenied, "denied");
    let err = Error::io_with_path(io_err, "/test/path");
    assert!(matches!(err, Error::PermissionDenied { .. }));
}

#[test]
fn io_with_path_keeps_other_errors_with_their_path() {
    let io_err = io::Error::new(io::ErrorKind::Other, "disk on fire");
    match Error::io_with_path(io_err, "/test/path") {
        Error::Io { source, path } => {
            assert_eq!(path.as_deref(), Some("/test/path"));
            assert_eq!(source.kind(), io::ErrorKind::Other);
        },
        other => panic!("unexpected error: {:?}", other),
    }
}

#[test]
fn io_with_class_follows_the_class() {
    let make = || io::Error::new(io::ErrorKind::Other, "x");
    assert!(matches!(
        Error::io_with_class(IoFailure::NotFound, make(), "p"),
        Error::NotFound { ref path } if path == "p"
    ));
    assert!(matches!(
        Error::io_with_class(IoFailure::PermissionDenied, make(), "p"),
        Error::PermissionDenied { ref path } if path == "p"
    ));
    assert!(matches!(
        Error::io_with_class(IoFailure::Other, make(), "p"),
        Error::Io { path: Some(ref path), .. } if path == "p"
    ));
}

#[test]
fn messages_have_the_exact_text() {
    assert_eq!(
        Error::invalid_image("a.jpg", "bad").message(),
        "Invalid image 'a.jpg': bad"
    );
    assert_eq!(
        Error::unsupported_format("a.bmp", Some("BMP")).message(),
        "Unsupported format 'BMP' for 'a.bmp'"
    );
    assert_eq!(
        Error::unsupported_format("a.bmp", None).message(),
        "Unknown or unsupported format for 'a.bmp'"
    );
    assert_eq!(
        Error::InvalidArgument { argument: "--x".into(), reason: "Unknown option".into() }
            .message(),
        "Invalid argument '--x': Unknown option"
    );
    assert_eq!(
        Error::MissingArgument { argument: "<PATHS>".into() }.message(),
        "Missing required argument: <PATHS>"
    );
    assert_eq!(Error::NotFound { path: "a".into() }.message(), "File not found: 'a'");
    assert_eq!(Error::PermissionDenied { path: "a".into() }.message(), "Permission denied: 'a'");
    assert_eq!(
        Error::OutputExists { path: "a".into() }.message(),
        "Output file 'a' already exists (use --force to overwrite)"
    );
}

#[test]
fn io_messages_carry_the_detail() {
    let err = Error::Io { source: io::Error::new(io::ErrorKind::Other, "test error"), path: None };
    assert_eq!(err.message(), "I/O error: test error");
    let err = Error::io_with_path(io::Error::new(io::ErrorKind::Other, "test error"), "/p");
    assert_eq!(err.message(), "I/O error for '/p': test error");
    assert_eq!(io_message(&None, "d"), "I/O error: d");
    assert_eq!(io_message(&Some(String::from("f")), "d"), "I/O error for 'f': d");
}
