//! The crate's unified error type.
//!
//! Every fallible operation reports an [`Error`], with an [`ErrorKind`] and a
//! [`Location`] carrying its byte offset, line, record and field.

use vstd::prelude::*;
use vstd::string::StringExecFns;

use crate::decimal::{append_decimal, append_hex, decimal_text, hex_text};
use crate::utf8::Utf8Error;

verus! {

/// The category of an input or output failure.
#[derive(Clone, Copy, Debug, PartialEq, Eq, Structural)]
pub enum IoErrorKind {
    /// The named file does not exist.
    NotFound,
    /// The operation is not permitted.
    PermissionDenied,
    /// The remote server refused the connection.
    ConnectionRefused,
    /// The remote server reset the connection.
    ConnectionReset,
    /// The remote host cannot be reached.
    HostUnreachable,
    /// The network of the remote host cannot be reached.
    NetworkUnreachable,
    /// The remote server ended the connection.
    ConnectionAborted,
    /// The connection is not established yet.
    NotConnected,
    /// The address is in use elsewhere.
    AddrInUse,
    /// The address is not a local one.
    AddrNotAvailable,
    /// The system's networking is down.
    NetworkDown,
    /// The peer closed the stream.
    BrokenPipe,
    /// The named file exists already.
    AlreadyExists,
    /// The operation would have to wait.
    WouldBlock,
    /// A directory was expected.
    NotADirectory,
    /// A directory was not expected.
    IsADirectory,
    /// An empty directory was expected.
    DirectoryNotEmpty,
    /// The storage is read-only.
    ReadOnlyFilesystem,
    /// The handle of a network file is stale.
    StaleNetworkFileHandle,
    /// A parameter is not valid.
    InvalidInput,
    /// The data is not what the operation expects.
    InvalidData,
    /// The operation's time ran out.
    TimedOut,
    /// The sink accepted no bytes.
    WriteZero,
    /// The storage is full.
    StorageFull,
    /// The file has no positions to seek.
    NotSeekable,
    /// A quota is used up.
    QuotaExceeded,
    /// The file is larger than allowed.
    FileTooLarge,
    /// The resource is busy.
    ResourceBusy,
    /// The executable file is in use.
    ExecutableFileBusy,
    /// The operation would wait forever.
    Deadlock,
    /// The operation spans two devices.
    CrossesDevices,
    /// The file has too many links.
    TooManyLinks,
    /// The name cannot be one of a file.
    InvalidFilename,
    /// The argument list is too long.
    ArgumentListTooLong,
    /// The operation was interrupted and can be retried.
    Interrupted,
    /// The system does not support the operation.
    Unsupported,
    /// The source ended early.
    UnexpectedEof,
    /// There is no memory left.
    OutOfMemory,
    /// A failure of the program's own.
    Other,
    /// A failure of the system in none of these categories.
    Uncategorized,
}

/// An input or output failure: its category and its description.
#[derive(Debug)]
pub struct IoError {
    kind: IoErrorKind,
    message: String,
}

impl IoError {
    /// The category of this failure.
    pub closed spec fn spec_kind(&self) -> IoErrorKind {
        self.kind
    }

    /// The description of this failure.
    pub closed spec fn spec_message(&self) -> Seq<char> {
        self.message@
    }

    /// Create a failure from its category and its description.
    pub fn new(kind: IoErrorKind, message: &str) -> (error: IoError)
        ensures
            error.spec_kind() == kind,
            error.spec_message() == message@,
    {
        IoError { kind, message: message.to_owned() }
    }

    /// The category of this failure.
    pub fn kind(&self) -> (kind: IoErrorKind)
        ensures
            kind == self.spec_kind(),
    {
        self.kind
    }

    /// The description of this failure.
    pub fn message(&self) -> (message: &str)
        ensures
            message@ == self.spec_message(),
    {
        self.message.as_str()
    }
}

/// What went wrong.
#[derive(Clone, Copy, Debug, PartialEq, Eq, Structural)]
pub enum ErrorKind {
    /// Reading or writing failed.
    Io(IoErrorKind),
    /// A field is not UTF-8.
    InvalidUtf8(Utf8Error),
    /// An empty field cannot be converted.
    EmptyField,
    /// A byte is not a digit of the target type.
    InvalidDigit,
    /// The value does not fit the target type.
    OutOfRange,
    /// The field is not a value of the target type.
    InvalidValue,
    /// The format or the options contradict themselves.
    Configuration,
    /// A required header is absent.
    MissingHeader,
    /// A header names more than one column.
    DuplicateHeader,
    /// Typed decoding failed.
    Decode,
    /// A serialization framework reported a failure.
    Serde,
    /// A leading byte-order mark is present and refused.
    RejectedBom,
    /// A quoted field has no closing quote.
    UnterminatedQuotedField,
    /// A quote stands inside an unquoted field.
    UnexpectedQuote,
    /// This byte follows a closing quote.
    UnexpectedByteAfterQuote(u8),
    /// This byte cannot be escaped.
    InvalidEscape(u8),
    /// This carriage return or line feed stands alone where records end with both.
    InvalidRecordEnding(u8),
    /// A record is longer than the limit.
    RecordTooLarge {
        /// The limit in bytes.
        limit: usize,
    },
    /// A field is longer than the limit.
    FieldTooLarge {
        /// The limit in bytes.
        limit: usize,
    },
    /// A record has more fields than the limit.
    TooManyFields {
        /// The limit in fields.
        limit: usize,
    },
    /// A record has another number of fields than required.
    FieldCountMismatch {
        /// The required number.
        expected: usize,
        /// The number found.
        actual: usize,
    },
    /// The parser stopped after an earlier error.
    ParserFailed,
    /// A record cannot be encoded under the configured policy.
    Encode,
    /// The emitter stopped after an earlier error.
    EmitterFailed,
    /// A document to append to does not end with a record terminator.
    UnterminatedRecord,
    /// A location exceeds the supported range.
    LocationOverflow,
    /// An index belongs to different source bytes.
    SourceMismatch,
    /// This record is outside the index.
    RecordOutOfRange {
        /// The requested record.
        record: usize,
    },
    /// Index data is malformed or unsupported.
    InvalidIndex,
}

/// A position in a document.
#[derive(Clone, Copy, Debug, PartialEq, Eq, Hash, PartialOrd, Ord, Structural)]
pub struct Location {
    /// Byte offset from the start of the document.
    pub byte: usize,
    /// Physical line, counted from one; zero when the location is unknown.
    pub line: u64,
    /// Record number, counted from zero.
    pub record: u64,
    /// Field number within the record, counted from zero.
    pub field: usize,
}

impl Location {
    /// The location of an error that has none.
    #[verifier::allow_in_spec]
    pub fn unknown() -> Location
        returns
            (Location { byte: 0, line: 0, record: 0, field: 0 }),
    {
        Location { byte: 0, line: 0, record: 0, field: 0 }
    }

    /// The first byte of a document.
    #[verifier::allow_in_spec]
    pub fn start() -> Location
        returns
            (Location { byte: 0, line: 1, record: 0, field: 0 }),
    {
        Location { byte: 0, line: 1, record: 0, field: 0 }
    }

    /// Whether this location points into a document.
    #[verifier::allow_in_spec]
    pub fn is_known(&self) -> bool
        returns
            self.line != 0,
    {
        self.line != 0
    }
}

impl IoErrorKind {
    /// What the category is called.
    pub fn message(&self) -> (text: &'static str)
        ensures
            text@ == self.spec_message(),
    {
        match self {
            IoErrorKind::NotFound => "entity not found",
            IoErrorKind::PermissionDenied => "permission denied",
            IoErrorKind::ConnectionRefused => "connection refused",
            IoErrorKind::ConnectionReset => "connection reset",
            IoErrorKind::HostUnreachable => "host unreachable",
            IoErrorKind::NetworkUnreachable => "network unreachable",
            IoErrorKind::ConnectionAborted => "connection aborted",
            IoErrorKind::NotConnected => "not connected",
            IoErrorKind::AddrInUse => "address in use",
            IoErrorKind::AddrNotAvailable => "address not available",
            IoErrorKind::NetworkDown => "network down",
            IoErrorKind::BrokenPipe => "broken pipe",
            IoErrorKind::AlreadyExists => "entity already exists",
            IoErrorKind::WouldBlock => "operation would block",
            IoErrorKind::NotADirectory => "not a directory",
            IoErrorKind::IsADirectory => "is a directory",
            IoErrorKind::DirectoryNotEmpty => "directory not empty",
            IoErrorKind::ReadOnlyFilesystem => "read-only filesystem or storage medium",
            IoErrorKind::StaleNetworkFileHandle => "stale network file handle",
            IoErrorKind::InvalidInput => "invalid input parameter",
            IoErrorKind::InvalidData => "invalid data",
            IoErrorKind::TimedOut => "timed out",
            IoErrorKind::WriteZero => "write zero",
            IoErrorKind::StorageFull => "no storage space",
            IoErrorKind::NotSeekable => "seek on unseekable file",
            IoErrorKind::QuotaExceeded => "quota exceeded",
            IoErrorKind::FileTooLarge => "file too large",
            IoErrorKind::ResourceBusy => "resource busy",
            IoErrorKind::ExecutableFileBusy => "executable file busy",
            IoErrorKind::Deadlock => "deadlock",
            IoErrorKind::CrossesDevices => "cross-device link or rename",
            IoErrorKind::TooManyLinks => "too many links",
            IoErrorKind::InvalidFilename => "invalid filename",
            IoErrorKind::ArgumentListTooLong => "argument list too long",
            IoErrorKind::Interrupted => "operation interrupted",
            IoErrorKind::Unsupported => "unsupported",
            IoErrorKind::UnexpectedEof => "unexpected end of file",
            IoErrorKind::OutOfMemory => "out of memory",
            IoErrorKind::Other => "other error",
            IoErrorKind::Uncategorized => "uncategorized error",
        }
    }

    /// What the category is called.
    pub open spec fn spec_message(&self) -> Seq<char> {
        match self {
            IoErrorKind::NotFound => "entity not found"@,
            IoErrorKind::PermissionDenied => "permission denied"@,
            IoErrorKind::ConnectionRefused => "connection refused"@,
            IoErrorKind::ConnectionReset => "connection reset"@,
            IoErrorKind::HostUnreachable => "host unreachable"@,
            IoErrorKind::NetworkUnreachable => "network unreachable"@,
            IoErrorKind::ConnectionAborted => "connection aborted"@,
            IoErrorKind::NotConnected => "not connected"@,
            IoErrorKind::AddrInUse => "address in use"@,
            IoErrorKind::AddrNotAvailable => "address not available"@,
            IoErrorKind::NetworkDown => "network down"@,
            IoErrorKind::BrokenPipe => "broken pipe"@,
            IoErrorKind::AlreadyExists => "entity already exists"@,
            IoErrorKind::WouldBlock => "operation would block"@,
            IoErrorKind::NotADirectory => "not a directory"@,
            IoErrorKind::IsADirectory => "is a directory"@,
            IoErrorKind::DirectoryNotEmpty => "directory not empty"@,
            IoErrorKind::ReadOnlyFilesystem => "read-only filesystem or storage medium"@,
            IoErrorKind::StaleNetworkFileHandle => "stale network file handle"@,
            IoErrorKind::InvalidInput => "invalid input parameter"@,
            IoErrorKind::InvalidData => "invalid data"@,
            IoErrorKind::TimedOut => "timed out"@,
            IoErrorKind::WriteZero => "write zero"@,
            IoErrorKind::StorageFull => "no storage space"@,
            IoErrorKind::NotSeekable => "seek on unseekable file"@,
            IoErrorKind::QuotaExceeded => "quota exceeded"@,
            IoErrorKind::FileTooLarge => "file too large"@,
            IoErrorKind::ResourceBusy => "resource busy"@,
            IoErrorKind::ExecutableFileBusy => "executable file busy"@,
            IoErrorKind::Deadlock => "deadlock"@,
            IoErrorKind::CrossesDevices => "cross-device link or rename"@,
            IoErrorKind::TooManyLinks => "too many links"@,
            IoErrorKind::InvalidFilename => "invalid filename"@,
            IoErrorKind::ArgumentListTooLong => "argument list too long"@,
            IoErrorKind::Interrupted => "operation interrupted"@,
            IoErrorKind::Unsupported => "unsupported"@,
            IoErrorKind::UnexpectedEof => "unexpected end of file"@,
            IoErrorKind::OutOfMemory => "out of memory"@,
            IoErrorKind::Other => "other error"@,
            IoErrorKind::Uncategorized => "uncategorized error"@,
        }
    }
}

impl Location {
    /// A location in words.
    pub open spec fn spec_message(&self) -> Seq<char> {
        if self.line != 0 {
            "byte "@ + decimal_text(self.byte as nat) + ", line "@ + decimal_text(
                self.line as nat,
            ) + ", record "@ + decimal_text(self.record as nat) + ", field "@ + decimal_text(
                self.field as nat,
            )
        } else {
            "unknown location"@
        }
    }

    /// A location in words.
    pub fn message(&self) -> (text: String)
        ensures
            text@ == self.spec_message(),
    {
        let mut text = String::new();
        if self.line != 0 {
            text.append("byte ");
            append_decimal(&mut text, self.byte as u64);
            text.append(", line ");
            append_decimal(&mut text, self.line);
            text.append(", record ");
            append_decimal(&mut text, self.record);
            text.append(", field ");
            append_decimal(&mut text, self.field as u64);
        } else {
            text.append("unknown location");
        }
        assert(text@ =~= self.spec_message());
        text
    }
}

/// An error about UTF-8 in words.
pub open spec fn utf8_message(error: Utf8Error) -> Seq<char> {
    match error.error_len {
        Some(len) => "invalid utf-8 sequence of "@ + decimal_text(len as nat)
            + " bytes from index "@ + decimal_text(error.valid_up_to as nat),
        None => "incomplete utf-8 byte sequence from index "@ + decimal_text(
            error.valid_up_to as nat,
        ),
    }
}

impl ErrorKind {
    /// What went wrong, in words, where no number belongs to it.
    pub open spec fn plain_message(&self) -> Option<Seq<char>> {
        match self {
            ErrorKind::EmptyField => Some("cannot convert an empty field"@),
            ErrorKind::InvalidDigit => Some("field contains an invalid digit"@),
            ErrorKind::OutOfRange => Some("value does not fit in the target type"@),
            ErrorKind::InvalidValue => Some("field is not a valid value for the target type"@),
            ErrorKind::Configuration => Some("invalid configuration"@),
            ErrorKind::MissingHeader => Some("missing header"@),
            ErrorKind::DuplicateHeader => Some("duplicate header"@),
            ErrorKind::Decode => Some("typed decoding failed"@),
            ErrorKind::Serde => Some("Serde conversion failed"@),
            ErrorKind::RejectedBom => Some("leading UTF-8 BOM is not permitted"@),
            ErrorKind::UnterminatedQuotedField => Some("unterminated quoted field"@),
            ErrorKind::UnexpectedQuote => Some("quote in unquoted field"@),
            ErrorKind::ParserFailed => Some("parser stopped after an earlier error"@),
            ErrorKind::Encode => Some("record cannot be encoded under this policy"@),
            ErrorKind::EmitterFailed => Some("emitter stopped after an earlier error"@),
            ErrorKind::UnterminatedRecord => Some(
                "cannot append: file does not end with a record terminator"@,
            ),
            ErrorKind::LocationOverflow => Some("CSV location exceeds supported range"@),
            ErrorKind::SourceMismatch => Some("index belongs to different source bytes"@),
            ErrorKind::InvalidIndex => Some("index data is malformed or unsupported"@),
            _ => None,
        }
    }

    /// What went wrong, in words.
    pub open spec fn spec_message(&self) -> Seq<char> {
        match self {
            ErrorKind::Io(kind) => "input or output failed: "@ + kind.spec_message(),
            ErrorKind::InvalidUtf8(error) => "not UTF-8: "@ + utf8_message(*error),
            ErrorKind::UnexpectedByteAfterQuote(byte) => "byte "@ + hex_text(*byte)
                + " after closing quote"@,
            ErrorKind::InvalidEscape(byte) => "invalid escape target "@ + hex_text(*byte),
            ErrorKind::InvalidRecordEnding(byte) => "byte "@ + hex_text(*byte)
                + " is not a valid CRLF record ending"@,
            ErrorKind::RecordTooLarge { limit } => "record exceeds "@ + decimal_text(*limit as nat)
                + " bytes"@,
            ErrorKind::FieldTooLarge { limit } => "field exceeds "@ + decimal_text(*limit as nat)
                + " bytes"@,
            ErrorKind::TooManyFields { limit } => "record exceeds "@ + decimal_text(*limit as nat)
                + " fields"@,
            ErrorKind::FieldCountMismatch { expected, actual } => "expected "@ + decimal_text(
                *expected as nat,
            ) + " fields but found "@ + decimal_text(*actual as nat),
            ErrorKind::RecordOutOfRange { record } => "record "@ + decimal_text(*record as nat)
                + " is outside the index"@,
            _ => self.plain_message()->0,
        }
    }

    fn plain(&self) -> (text: Option<&'static str>)
        ensures
            text is Some == self.plain_message() is Some,
            text matches Some(words) ==> self.plain_message() == Some(words@),
    {
        match self {
            ErrorKind::EmptyField => Some("cannot convert an empty field"),
            ErrorKind::InvalidDigit => Some("field contains an invalid digit"),
            ErrorKind::OutOfRange => Some("value does not fit in the target type"),
            ErrorKind::InvalidValue => Some("field is not a valid value for the target type"),
            ErrorKind::Configuration => Some("invalid configuration"),
            ErrorKind::MissingHeader => Some("missing header"),
            ErrorKind::DuplicateHeader => Some("duplicate header"),
            ErrorKind::Decode => Some("typed decoding failed"),
            ErrorKind::Serde => Some("Serde conversion failed"),
            ErrorKind::RejectedBom => Some("leading UTF-8 BOM is not permitted"),
            ErrorKind::UnterminatedQuotedField => Some("unterminated quoted field"),
            ErrorKind::UnexpectedQuote => Some("quote in unquoted field"),
            ErrorKind::ParserFailed => Some("parser stopped after an earlier error"),
            ErrorKind::Encode => Some("record cannot be encoded under this policy"),
            ErrorKind::EmitterFailed => Some("emitter stopped after an earlier error"),
            ErrorKind::UnterminatedRecord => Some(
                "cannot append: file does not end with a record terminator",
            ),
            ErrorKind::LocationOverflow => Some("CSV location exceeds supported range"),
            ErrorKind::SourceMismatch => Some("index belongs to different source bytes"),
            ErrorKind::InvalidIndex => Some("index data is malformed or unsupported"),
            _ => None,
        }
    }

    /// What went wrong, in words.
    pub fn message(&self) -> (text: String)
        ensures
            text@ == self.spec_message(),
    {
        let mut text = String::new();
        match self {
            ErrorKind::Io(kind) => {
                text.append("input or output failed: ");
                text.append(kind.message());
            },
            ErrorKind::InvalidUtf8(error) => {
                text.append("not UTF-8: ");
                match error.error_len {
                    Some(len) => {
                        text.append("invalid utf-8 sequence of ");
                        append_decimal(&mut text, len as u64);
                        text.append(" bytes from index ");
                    },
                    None => {
                        text.append("incomplete utf-8 byte sequence from index ");
                    },
                }
                append_decimal(&mut text, error.valid_up_to as u64);
            },
            ErrorKind::UnexpectedByteAfterQuote(byte) => {
                text.append("byte ");
                append_hex(&mut text, *byte);
                text.append(" after closing quote");
            },
            ErrorKind::InvalidEscape(byte) => {
                text.append("invalid escape target ");
                append_hex(&mut text, *byte);
            },
            ErrorKind::InvalidRecordEnding(byte) => {
                text.append("byte ");
                append_hex(&mut text, *byte);
                text.append(" is not a valid CRLF record ending");
            },
            ErrorKind::RecordTooLarge { limit } => {
                text.append("record exceeds ");
                append_decimal(&mut text, *limit as u64);
                text.append(" bytes");
            },
            ErrorKind::FieldTooLarge { limit } => {
                text.append("field exceeds ");
                append_decimal(&mut text, *limit as u64);
                text.append(" bytes");
            },
            ErrorKind::TooManyFields { limit } => {
                text.append("record exceeds ");
                append_decimal(&mut text, *limit as u64);
                text.append(" fields");
            },
            ErrorKind::FieldCountMismatch { expected, actual } => {
                text.append("expected ");
                append_decimal(&mut text, *expected as u64);
                text.append(" fields but found ");
                append_decimal(&mut text, *actual as u64);
            },
            ErrorKind::RecordOutOfRange { record } => {
                text.append("record ");
                append_decimal(&mut text, *record as u64);
                text.append(" is outside the index");
            },
            _ => {
                if let Some(words) = self.plain() {
                    text.append(words);
                }
            },
        }
        assert(text@ =~= self.spec_message());
        text
    }
}

/// What an [`Error`] carries besides its kind and location.
#[derive(Debug)]
pub enum ErrorSource {
    /// The input or output failure.
    Io(IoError),
    /// A sentence that describes the failure.
    Detail(String),
    /// The rendered text of a foreign error.
    Custom(String),
}

/// The error of every fallible operation.
///
/// Two errors are equal when their kinds and locations are; the field name and
/// the source describe, and take no part.
#[derive(Debug)]
pub struct Error {
    kind: ErrorKind,
    location: Location,
    field_name: Option<String>,
    source: Option<ErrorSource>,
}

impl vstd::std_specs::cmp::PartialEqSpecImpl for Error {
    open spec fn obeys_eq_spec() -> bool {
        true
    }

    open spec fn eq_spec(&self, other: &Error) -> bool {
        self.spec_kind() == other.spec_kind() && self.spec_location() == other.spec_location()
    }
}

impl PartialEq for Error {
    fn eq(&self, other: &Error) -> (equal: bool) {
        self.kind == other.kind && self.location == other.location
    }
}

impl Error {
    /// The kind of this error.
    pub closed spec fn spec_kind(&self) -> ErrorKind {
        self.kind
    }

    /// The location of this error.
    pub closed spec fn spec_location(&self) -> Location {
        self.location
    }

    /// Whether this is an error of a kind that a sentence describes, and nothing
    /// else: it has no location, no field and no failure behind it.
    pub open spec fn says(&self, kind: ErrorKind, sentence: Seq<char>) -> bool {
        &&& self.spec_kind() == kind
        &&& self.spec_location() == Location::unknown()
        &&& self.spec_field_name() is None
        &&& self.spec_detail() == Some(sentence)
        &&& self.spec_io() is None
    }

    /// Whether this says that a format or options contradict themselves, which is
    /// so wherever they are used.
    pub open spec fn misconfigured(&self) -> bool {
        self.spec_kind() == ErrorKind::Configuration && self.spec_location() == Location::unknown()
    }

    /// The name of the field this error is about, if it has one.
    pub closed spec fn spec_field_name(&self) -> Option<Seq<char>> {
        match self.field_name {
            Some(name) => Some(name@),
            None => None,
        }
    }

    /// The sentence that describes this error, if it has one.
    pub closed spec fn spec_detail(&self) -> Option<Seq<char>> {
        match self.source {
            Some(ErrorSource::Detail(text)) => Some(text@),
            Some(ErrorSource::Custom(text)) => Some(text@),
            _ => None,
        }
    }

    /// The input or output failure behind this error, if there is one.
    pub closed spec fn spec_io(&self) -> Option<IoError> {
        match self.source {
            Some(ErrorSource::Io(error)) => Some(error),
            _ => None,
        }
    }

    /// Whether this error carries neither a name, a sentence nor a failure.
    pub open spec fn is_plain(&self) -> bool {
        self.spec_field_name() is None && self.spec_detail() is None && self.spec_io() is None
    }

    /// An error with a kind and a location.
    pub fn new(kind: ErrorKind, location: Location) -> (error: Error)
        ensures
            error.spec_kind() == kind,
            error.spec_location() == location,
            error.is_plain(),
    {
        Error { kind, location, field_name: None, source: None }
    }

    /// An error about the field `index`, called `name`.
    pub fn field(kind: ErrorKind, index: usize, name: Option<&str>) -> (error: Error)
        ensures
            error.spec_kind() == kind,
            error.spec_location() == (Location { field: index, ..Location::unknown() }),
            error.spec_field_name() == (match name {
                Some(text) => Some(text@),
                None => None,
            }),
            error.spec_detail() is None,
            error.spec_io() is None,
    {
        let field_name = match name {
            Some(text) => Some(text.to_owned()),
            None => None,
        };
        Error {
            kind,
            location: Location { byte: 0, line: 0, record: 0, field: index },
            field_name,
            source: None,
        }
    }

    /// An error described by a sentence, with an unknown location.
    pub fn detailed(kind: ErrorKind, detail: &str) -> (error: Error)
        ensures
            error.says(kind, detail@),
    {
        Error {
            kind,
            location: Location::unknown(),
            field_name: None,
            source: Some(ErrorSource::Detail(detail.to_owned())),
        }
    }

    /// An input or output failure at a location.
    pub fn io(error: IoError, location: Location) -> (result: Error)
        ensures
            result.spec_kind() == ErrorKind::Io(error.spec_kind()),
            result.spec_location() == location,
            result.spec_field_name() is None,
            result.spec_detail() is None,
            result.spec_io() == Some(error),
    {
        Error { kind: ErrorKind::Io(error.kind()), location, field_name: None, source: Some(ErrorSource::Io(error)) }
    }

    /// An input or output failure at the start of the document.
    pub fn io_at_start(error: IoError) -> (result: Error)
        ensures
            result.spec_kind() == ErrorKind::Io(error.spec_kind()),
            result.spec_location() == Location::start(),
            result.spec_field_name() is None,
            result.spec_detail() is None,
            result.spec_io() == Some(error),
    {
        Error::io(error, Location::start())
    }

    /// The field `index` is not UTF-8.
    pub fn utf8(utf8: Utf8Error, index: usize, location: Location) -> (error: Error)
        ensures
            error.spec_kind() == ErrorKind::InvalidUtf8(utf8),
            error.spec_location() == (Location { field: index, ..location }),
            error.is_plain(),
    {
        Error::new(
            ErrorKind::InvalidUtf8(utf8),
            Location { byte: location.byte, line: location.line, record: location.record, field: index },
        )
    }

    /// A failed conversion of the field `index`, told by its kind.
    pub fn from_conversion(kind: ErrorKind, location: Location, index: usize) -> (error: Error)
        ensures
            error.spec_kind() == kind,
            error.spec_location() == (Location { field: index, ..location }),
            error.is_plain(),
    {
        Error::new(
            kind,
            Location { byte: location.byte, line: location.line, record: location.record, field: index },
        )
    }

    /// A failed conversion of the field `index`, told by a foreign error's text.
    pub fn from_foreign_conversion(text: &str, location: Location, index: usize) -> (error: Error)
        ensures
            error.spec_kind() == ErrorKind::InvalidValue,
            error.spec_location() == (Location { field: index, ..location }),
            error.spec_field_name() is None,
            error.spec_detail() == Some(text@),
            error.spec_io() is None,
    {
        Error {
            kind: ErrorKind::InvalidValue,
            location: Location {
                byte: location.byte,
                line: location.line,
                record: location.record,
                field: index,
            },
            field_name: None,
            source: Some(ErrorSource::Custom(text.to_owned())),
        }
    }

    /// A failed conversion of the field `index`, called `name`.
    pub fn from_field_conversion(kind: ErrorKind, index: usize, name: &str) -> (error: Error)
        ensures
            error.spec_kind() == kind,
            error.spec_location() == (Location { field: index, ..Location::unknown() }),
            error.spec_field_name() == Some(name@),
            error.spec_detail() is None,
            error.spec_io() is None,
    {
        Error::from_conversion(kind, Location::unknown(), index).with_field_name(name)
    }

    /// The same error, about the field called `name`.
    pub fn with_field_name(self, name: &str) -> (error: Error)
        ensures
            error.spec_kind() == self.spec_kind(),
            error.spec_location() == self.spec_location(),
            error.spec_field_name() == Some(name@),
            error.spec_detail() == self.spec_detail(),
            error.spec_io() == self.spec_io(),
    {
        Error {
            kind: self.kind,
            location: self.location,
            field_name: Some(name.to_owned()),
            source: self.source,
        }
    }

    /// The same error, about the field `index`.
    pub fn with_field_index(self, index: usize) -> (error: Error)
        ensures
            error.spec_kind() == self.spec_kind(),
            error.spec_location() == (Location { field: index, ..self.spec_location() }),
            error.spec_field_name() == self.spec_field_name(),
            error.spec_detail() == self.spec_detail(),
            error.spec_io() == self.spec_io(),
    {
        let mut error = self;
        error.location.field = index;
        error
    }

    /// The same error at another location; the field number stays.
    pub fn at(self, location: Location) -> (error: Error)
        ensures
            error.spec_kind() == self.spec_kind(),
            error.spec_location() == (Location { field: self.spec_location().field, ..location }),
            error.spec_field_name() == self.spec_field_name(),
            error.spec_detail() == self.spec_detail(),
            error.spec_io() == self.spec_io(),
    {
        let mut error = self;
        let field: usize = error.location.field;
        error.location =
        Location { byte: location.byte, line: location.line, record: location.record, field };
        error
    }

    /// Move an error found in a part of a document to its place in the whole.
    ///
    /// The part starts at `byte_offset`, on physical line `line`, and belongs
    /// to record `record`.
    pub fn relocate(&mut self, byte_offset: usize, line: u64, record: u64)
        ensures
            final(self).spec_location() == (Location {
                byte: old(self).spec_location().byte.saturating_add(byte_offset),
                line: old(self).spec_location().line.saturating_add(line.saturating_sub(1)),
                record,
                field: old(self).spec_location().field,
            }),
            final(self).spec_kind() == old(self).spec_kind(),
            final(self).spec_field_name() == old(self).spec_field_name(),
            final(self).spec_detail() == old(self).spec_detail(),
            final(self).spec_io() == old(self).spec_io(),
    {
        self.location.byte = self.location.byte.saturating_add(byte_offset);
        self.location.line = self.location.line.saturating_add(line.saturating_sub(1));
        self.location.record = record;
    }

    /// Move an error found in a window of a stream that starts at `byte_offset`.
    pub fn rebase_stream_window(&mut self, byte_offset: usize)
        ensures
            final(self).spec_location() == (Location {
                byte: old(self).spec_location().byte.saturating_add(byte_offset),
                ..old(self).spec_location()
            }),
            final(self).spec_kind() == old(self).spec_kind(),
            final(self).spec_field_name() == old(self).spec_field_name(),
            final(self).spec_detail() == old(self).spec_detail(),
            final(self).spec_io() == old(self).spec_io(),
    {
        self.location.byte = self.location.byte.saturating_add(byte_offset);
    }

    /// What describes this error instead of its kind, if anything does.
    pub open spec fn told(&self) -> Option<Seq<char>> {
        match self.spec_io() {
            Some(error) => Some(error.spec_message()),
            None => self.spec_detail(),
        }
    }

    /// This error in words.
    pub open spec fn spec_message(&self) -> Seq<char> {
        (if self.spec_location().is_known() {
            "CSV error at "@ + self.spec_location().spec_message() + ": "@
        } else {
            Seq::empty()
        }) + (match self.spec_field_name() {
            Some(name) => "field "@ + name + ": "@,
            None => Seq::empty(),
        }) + (match self.told() {
            Some(text) => text,
            None => self.spec_kind().spec_message(),
        })
    }

    /// This error in words.
    pub fn message(&self) -> (text: String)
        ensures
            text@ == self.spec_message(),
    {
        let mut text = String::new();
        if self.location.is_known() {
            text.append("CSV error at ");
            let place = self.location.message();
            text.append(place.as_str());
            text.append(": ");
        }
        if let Some(name) = &self.field_name {
            text.append("field ");
            text.append(name.as_str());
            text.append(": ");
        }
        match &self.source {
            Some(ErrorSource::Io(error)) => {
                text.append(error.message());
            },
            Some(ErrorSource::Detail(detail)) => {
                text.append(detail.as_str());
            },
            Some(ErrorSource::Custom(detail)) => {
                text.append(detail.as_str());
            },
            None => {
                let words = self.kind.message();
                text.append(words.as_str());
            },
        }
        assert(text@ =~= self.spec_message());
        text
    }

    /// The kind of this error.
    pub fn kind(&self) -> (kind: ErrorKind)
        ensures
            kind == self.spec_kind(),
    {
        self.kind
    }

    /// The location of this error.
    pub fn location(&self) -> (location: Location)
        ensures
            location == self.spec_location(),
    {
        self.location
    }

    /// The name of the field this error is about.
    pub fn field_name(&self) -> (name: Option<&str>)
        ensures
            name is Some == self.spec_field_name() is Some,
            name matches Some(text) ==> self.spec_field_name() == Some(text@),
    {
        match &self.field_name {
            Some(name) => Some(name.as_str()),
            None => None,
        }
    }

    /// The input or output failure behind this error.
    pub fn into_io_error(self) -> (error: Option<IoError>)
        ensures
            error == self.spec_io(),
    {
        match self.source {
            Some(ErrorSource::Io(error)) => Some(error),
            _ => None,
        }
    }
}

} // verus!
