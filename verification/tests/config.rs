//! Dialects, options and their encodings.

use coseva::config::{
    Dialect, Escape, FieldCount, Limits, RecordEnding, Recovery, Syntax, Tail, Whitespace,
};
use coseva::error::ErrorKind;
use coseva::options::{EmitOptions, FormatOptions, FormatTag};

#[test]
fn a_byte_has_one_role_in_a_dialect() {
    let newline = RecordEnding::Newline;
    assert!(Dialect::new(b',', b'"', newline, Escape::DoubleQuote).is_ok());
    for (delimiter, quote, ending, escape) in [
        (b',', b',', newline, Escape::DoubleQuote),
        (b'\n', b'"', newline, Escape::DoubleQuote),
        (b'\r', b'"', newline, Escape::DoubleQuote),
        (b',', b'\r', RecordEnding::CrLf, Escape::DoubleQuote),
        (b',', b'"', RecordEnding::Byte(b','), Escape::DoubleQuote),
        (b',', b'"', RecordEnding::Byte(b'"'), Escape::DoubleQuote),
        (b',', b'"', newline, Escape::Backslash(b'"')),
        (b',', b'"', newline, Escape::Backslash(b',')),
        (b',', b'"', newline, Escape::Unquoted(b'\n')),
    ] {
        let error = Dialect::new(delimiter, quote, ending, escape)
            .err()
            .expect("two roles for one byte");
        assert_eq!(error.kind(), ErrorKind::Configuration);
    }
}

#[test]
fn a_comment_byte_has_no_other_role() {
    let csv = Dialect::default();
    assert_eq!(csv.with_comment(b'#').ok().map(|dialect| dialect.comment), Some(Some(b'#')));
    for taken in [b',', b'"', b'\n', b'\r'] {
        assert!(csv.with_comment(taken).is_err());
    }
}

#[test]
fn tails_keep_up_to_seven_bytes() {
    let tail = Tail::from_slice(b"<=>", 1);
    assert_eq!(tail.to_vec(), b"=>");
    let (len, bytes) = tail.parts();
    assert_eq!((len, bytes), (2, *b"=>\0\0\0\0\0"));
    assert_eq!(Tail::from_parts(len, bytes).to_vec(), b"=>");
    assert_eq!(Tail::empty().to_vec(), b"");
    let long = Dialect::default()
        .with_tails(tail, Tail::empty())
        .expect("no role is taken twice");
    assert!(long.has_long_separator());
    assert!(!Dialect::default().has_long_separator());
}

#[test]
fn flags_survive_their_bits() {
    for bits in 0..=255u8 {
        match Recovery::from_bits(bits) {
            Some(recovery) => assert_eq!(recovery.bits(), bits),
            None => assert!(bits > 15),
        }
        match Whitespace::from_bits(bits) {
            Some(whitespace) => assert_eq!(whitespace.bits(), bits),
            None => assert!(bits > 3),
        }
    }
    assert_eq!(Whitespace::from_bits(Whitespace::all().bits()), Some(Whitespace::all()));
    assert_eq!(Recovery::from_bits(Recovery::none().bits()), Some(Recovery::none()));
}

#[test]
fn a_strict_syntax_permits_nothing_more() {
    assert!(Syntax::Strict.quoting_enabled());
    assert!(!Syntax::Strict.permits_unquoted_quotes());
    assert!(!Syntax::Strict.permits_any_backslash_escape());
    assert!(!Syntax::Strict.permits_post_quote_whitespace());
    let permissive = Syntax::Compatible(Recovery::permissive());
    assert!(permissive.quoting_enabled());
    assert!(permissive.permits_unquoted_quotes());
    assert!(permissive.permits_any_backslash_escape());
    assert!(permissive.permits_post_quote_whitespace());
    let unquoted = Syntax::Compatible(Recovery::permissive().quoting(false));
    assert!(!unquoted.quoting_enabled());
}

#[test]
fn a_changed_format_is_no_built_in() {
    let csv = FormatOptions::csv();
    assert_eq!(csv.tag, FormatTag::Csv);
    let piped = csv.delimiter(b'|');
    assert_eq!(piped.tag, FormatTag::Custom);
    assert_eq!(piped.dialect.delimiter, b'|');
    assert_eq!(piped.dialect.quote, b'"');
    assert!(piped.validate().is_ok());
    let ambiguous = csv.delimiter(b'"').validate().err().expect("two roles for one byte");
    assert_eq!(ambiguous.kind(), ErrorKind::Configuration);
}

#[test]
fn options_hold_what_was_set() {
    let limits = Limits::new(10, 20, 30);
    assert_eq!(
        (limits.max_record_bytes, limits.max_field_bytes, limits.max_fields),
        (10, 20, 30)
    );
    let options = EmitOptions::new()
        .field_count(FieldCount::Exact(4))
        .has_headers(false)
        .buffer_capacity(0);
    assert_eq!(options.field_count, FieldCount::Exact(4));
    assert!(!options.has_headers);
    let error = options
        .validate_buffered(FormatOptions::csv())
        .err()
        .expect("nothing fits an empty buffer");
    assert_eq!(error.kind(), ErrorKind::Configuration);
    assert!(options.buffer_capacity(1).validate_buffered(FormatOptions::csv()).is_ok());
}
