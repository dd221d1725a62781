//! Errors, their kinds and their locations.

use std::io;

use coseva::error::{Error, ErrorKind, IoError, IoErrorKind, Location};
use coseva::field_value::get_str;
use coseva::from_bytes::ConversionError;
use coseva::utf8::Utf8Error;

#[test]
fn test_error_methods() {
    let err = Error::from_conversion(ErrorKind::InvalidValue, Location::unknown(), 1);
    assert_eq!(err.kind(), ErrorKind::InvalidValue);
    assert_eq!(err.location().field, 1);

    let err_field = Error::field(ErrorKind::InvalidValue, 2, Some("f1"));
    assert_eq!(err_field.field_name(), Some("f1"));
    let err_field_none = Error::field(ErrorKind::InvalidValue, 2, None);
    assert_eq!(err_field_none.field_name(), None);

    let io_err = Error::io_at_start(IoError::new(IoErrorKind::NotFound, "not found"));
    assert_eq!(io_err.location(), Location::start());
    assert!(io_err.message().contains("not found"));
    assert!(io_err.into_io_error().is_some());
    let io_err2 = Error::io(
        IoError::new(IoErrorKind::NotFound, "not found"),
        Location::unknown(),
    );
    assert!(io_err2.into_io_error().is_some());

    let named =
        Error::new(ErrorKind::InvalidValue, Location::unknown()).with_field_name("my_field");
    assert_eq!(named.field_name(), Some("my_field"));
    let named_str = Error::new(ErrorKind::InvalidValue, Location::unknown())
        .with_field_name(&String::from("owned_field"));
    assert_eq!(named_str.field_name(), Some("owned_field"));

    let err2 = Error::new(ErrorKind::InvalidValue, Location::unknown());
    let err3 = Error::new(ErrorKind::InvalidValue, Location::unknown());
    assert_eq!(err2, err3);
    let _ = format!("{err2:?}");
    let _ = err2.message();
    let _ = named.message();
    assert!(err2.into_io_error().is_none());

    let foreign = Error::from_foreign_conversion("custom", Location::unknown(), 0);
    assert!(foreign.message().contains("custom"));
    let detailed_err = Error::detailed(ErrorKind::Serde, "detailed error");
    assert!(detailed_err.message().contains("detailed error"));
    assert!(detailed_err.into_io_error().is_none());

    let field_conv_err =
        Error::from_foreign_conversion("custom", Location::unknown(), 2).with_field_name("my_field");
    assert_eq!(field_conv_err.field_name(), Some("my_field"));

    let invalid_bytes = vec![0xff];
    let err_utf8 = get_str(Some(&invalid_bytes), 1).expect_err("not UTF-8");
    assert_eq!(err_utf8.location().field, 1);

    let indexed = Error::new(ErrorKind::Serde, Location::unknown()).with_field_index(3);
    assert_eq!(indexed.location().field, 3);
    let missing = Error::detailed(ErrorKind::Serde, "missing record field").with_field_name("foo");
    assert_eq!(missing.field_name(), Some("foo"));

    let mut relocated = Error::new(
        ErrorKind::UnexpectedQuote,
        Location {
            byte: 5,
            line: 2,
            record: 1,
            field: 0,
        },
    );
    relocated.relocate(10, 3, 2);
    assert_eq!(relocated.location().byte, 15);
    assert_eq!(relocated.location().line, 4);
    assert_eq!(relocated.location().record, 2);

    let relocated_at = relocated.at(Location {
        byte: 100,
        line: 10,
        record: 5,
        field: 0,
    });
    assert_eq!(relocated_at.location().byte, 100);
}

#[test]
fn debug_labels_and_equality_components_are_exact() {
    let error = Error::new(ErrorKind::InvalidValue, Location::unknown());
    let rendered = format!("{error:?}");
    assert!(rendered.starts_with("Error {"), "{rendered}");
    assert!(rendered.contains("kind: InvalidValue"), "{rendered}");
    assert!(rendered.contains("location: Location"), "{rendered}");
    assert!(rendered.contains("source: None"), "{rendered}");

    let different_kind = Error::new(ErrorKind::EmptyField, Location::unknown());
    assert_ne!(error, different_kind);
    let different_location = Error::new(
        ErrorKind::InvalidValue,
        Location {
            byte: 1,
            ..Location::unknown()
        },
    );
    assert_ne!(error, different_location);

    let detailed = Error::detailed(ErrorKind::InvalidValue, "detail");
    assert_eq!(error, detailed);
}

#[test]
fn kinds_are_told_in_words() {
    let cases = [
        (ErrorKind::Io(IoErrorKind::NotFound), "input or output failed: entity not found"),
        (
            ErrorKind::InvalidUtf8(Utf8Error { valid_up_to: 3, error_len: Some(1) }),
            "not UTF-8: invalid utf-8 sequence of 1 bytes from index 3",
        ),
        (
            ErrorKind::InvalidUtf8(Utf8Error { valid_up_to: 12, error_len: None }),
            "not UTF-8: incomplete utf-8 byte sequence from index 12",
        ),
        (ErrorKind::EmptyField, "cannot convert an empty field"),
        (ErrorKind::InvalidDigit, "field contains an invalid digit"),
        (ErrorKind::OutOfRange, "value does not fit in the target type"),
        (ErrorKind::InvalidValue, "field is not a valid value for the target type"),
        (ErrorKind::Configuration, "invalid configuration"),
        (ErrorKind::MissingHeader, "missing header"),
        (ErrorKind::DuplicateHeader, "duplicate header"),
        (ErrorKind::Decode, "typed decoding failed"),
        (ErrorKind::Serde, "Serde conversion failed"),
        (ErrorKind::RejectedBom, "leading UTF-8 BOM is not permitted"),
        (ErrorKind::UnterminatedQuotedField, "unterminated quoted field"),
        (ErrorKind::UnexpectedQuote, "quote in unquoted field"),
        (ErrorKind::UnexpectedByteAfterQuote(10), "byte 0x0a after closing quote"),
        (ErrorKind::InvalidEscape(0x78), "invalid escape target 0x78"),
        (ErrorKind::InvalidRecordEnding(0xff), "byte 0xff is not a valid CRLF record ending"),
        (ErrorKind::RecordTooLarge { limit: 10 }, "record exceeds 10 bytes"),
        (ErrorKind::FieldTooLarge { limit: 0 }, "field exceeds 0 bytes"),
        (ErrorKind::TooManyFields { limit: 1204 }, "record exceeds 1204 fields"),
        (
            ErrorKind::FieldCountMismatch { expected: 2, actual: 30 },
            "expected 2 fields but found 30",
        ),
        (ErrorKind::ParserFailed, "parser stopped after an earlier error"),
        (ErrorKind::Encode, "record cannot be encoded under this policy"),
        (ErrorKind::EmitterFailed, "emitter stopped after an earlier error"),
        (
            ErrorKind::UnterminatedRecord,
            "cannot append: file does not end with a record terminator",
        ),
        (ErrorKind::LocationOverflow, "CSV location exceeds supported range"),
        (ErrorKind::SourceMismatch, "index belongs to different source bytes"),
        (ErrorKind::RecordOutOfRange { record: 7 }, "record 7 is outside the index"),
        (ErrorKind::InvalidIndex, "index data is malformed or unsupported"),
    ];
    for (kind, text) in cases {
        assert_eq!(kind.message(), text);
    }
}

#[test]
fn an_error_tells_its_place_its_field_and_its_reason() {
    let location = Location { byte: 17, line: 2, record: 1, field: 3 };
    assert_eq!(location.message(), "byte 17, line 2, record 1, field 3");
    assert_eq!(Location::unknown().message(), "unknown location");
    assert!(location.is_known());
    assert!(!Location::unknown().is_known());

    let plain = Error::new(ErrorKind::UnexpectedQuote, location);
    assert_eq!(
        plain.message(),
        "CSV error at byte 17, line 2, record 1, field 3: quote in unquoted field"
    );
    assert_eq!(
        plain.with_field_name("price").message(),
        "CSV error at byte 17, line 2, record 1, field 3: field price: quote in unquoted field"
    );
    assert_eq!(
        Error::io(IoError::new(IoErrorKind::Other, "disk full"), Location::unknown()).message(),
        "disk full"
    );
    let io = Error::io(IoError::new(IoErrorKind::BrokenPipe, "closed"), Location::unknown());
    assert_eq!(io.kind(), ErrorKind::Io(IoErrorKind::BrokenPipe));
    let failure = io.into_io_error().expect("the failure is kept");
    assert_eq!(failure.kind(), IoErrorKind::BrokenPipe);
    assert_eq!(failure.message(), "closed");
    assert_eq!(failure.kind().message(), "broken pipe");
}

#[test]
fn a_window_moves_only_the_byte() {
    let mut error =
        Error::new(ErrorKind::Decode, Location { byte: 4, line: 1, record: 2, field: 3 });
    error.rebase_stream_window(6);
    assert_eq!(error.location(), Location { byte: 10, line: 1, record: 2, field: 3 });
    error.rebase_stream_window(usize::MAX);
    assert_eq!(error.location().byte, usize::MAX);
}

#[test]
fn a_conversion_failure_names_its_field() {
    let known = ErrorKind::OutOfRange.into_error(Location::unknown(), 4);
    assert_eq!(known.kind(), ErrorKind::OutOfRange);
    assert_eq!(known.location().field, 4);

    let foreign = "no such colour".to_owned().into_error(Location::unknown(), 2);
    assert_eq!(foreign.kind(), ErrorKind::InvalidValue);
    assert_eq!(foreign.message(), "no such colour");

    let named = Error::from_field_conversion(ErrorKind::InvalidDigit, 5, "count");
    assert_eq!(named.field_name(), Some("count"));
    assert_eq!(named.message(), "field count: field contains an invalid digit");
}

#[test]
fn io_categories_are_called_what_the_system_calls_them() {
    for (kind, system) in [
        (IoErrorKind::NotFound, io::ErrorKind::NotFound),
        (IoErrorKind::PermissionDenied, io::ErrorKind::PermissionDenied),
        (IoErrorKind::ConnectionRefused, io::ErrorKind::ConnectionRefused),
        (IoErrorKind::ConnectionReset, io::ErrorKind::ConnectionReset),
        (IoErrorKind::HostUnreachable, io::ErrorKind::HostUnreachable),
        (IoErrorKind::NetworkUnreachable, io::ErrorKind::NetworkUnreachable),
        (IoErrorKind::ConnectionAborted, io::ErrorKind::ConnectionAborted),
        (IoErrorKind::NotConnected, io::ErrorKind::NotConnected),
        (IoErrorKind::AddrInUse, io::ErrorKind::AddrInUse),
        (IoErrorKind::AddrNotAvailable, io::ErrorKind::AddrNotAvailable),
        (IoErrorKind::NetworkDown, io::ErrorKind::NetworkDown),
        (IoErrorKind::BrokenPipe, io::ErrorKind::BrokenPipe),
        (IoErrorKind::AlreadyExists, io::ErrorKind::AlreadyExists),
        (IoErrorKind::WouldBlock, io::ErrorKind::WouldBlock),
        (IoErrorKind::NotADirectory, io::ErrorKind::NotADirectory),
        (IoErrorKind::IsADirectory, io::ErrorKind::IsADirectory),
        (IoErrorKind::DirectoryNotEmpty, io::ErrorKind::DirectoryNotEmpty),
        (IoErrorKind::ReadOnlyFilesystem, io::ErrorKind::ReadOnlyFilesystem),
        (IoErrorKind::StaleNetworkFileHandle, io::ErrorKind::StaleNetworkFileHandle),
        (IoErrorKind::InvalidInput, io::ErrorKind::InvalidInput),
        (IoErrorKind::InvalidData, io::ErrorKind::InvalidData),
        (IoErrorKind::TimedOut, io::ErrorKind::TimedOut),
        (IoErrorKind::WriteZero, io::ErrorKind::WriteZero),
        (IoErrorKind::StorageFull, io::ErrorKind::StorageFull),
        (IoErrorKind::NotSeekable, io::ErrorKind::NotSeekable),
        (IoErrorKind::QuotaExceeded, io::ErrorKind::QuotaExceeded),
        (IoErrorKind::FileTooLarge, io::ErrorKind::FileTooLarge),
        (IoErrorKind::ResourceBusy, io::ErrorKind::ResourceBusy),
        (IoErrorKind::ExecutableFileBusy, io::ErrorKind::ExecutableFileBusy),
        (IoErrorKind::Deadlock, io::ErrorKind::Deadlock),
        (IoErrorKind::CrossesDevices, io::ErrorKind::CrossesDevices),
        (IoErrorKind::TooManyLinks, io::ErrorKind::TooManyLinks),
        (IoErrorKind::InvalidFilename, io::ErrorKind::InvalidFilename),
        (IoErrorKind::ArgumentListTooLong, io::ErrorKind::ArgumentListTooLong),
        (IoErrorKind::Interrupted, io::ErrorKind::Interrupted),
        (IoErrorKind::Unsupported, io::ErrorKind::Unsupported),
        (IoErrorKind::UnexpectedEof, io::ErrorKind::UnexpectedEof),
        (IoErrorKind::OutOfMemory, io::ErrorKind::OutOfMemory),
        (IoErrorKind::Other, io::ErrorKind::Other),
    ] {
        assert_eq!(kind.message(), system.to_string());
        assert_eq!(
            Error::io_at_start(IoError::new(kind, "text")).kind(),
            ErrorKind::Io(kind),
        );
    }
    assert_eq!(IoErrorKind::Uncategorized.message(), "uncategorized error");
}
