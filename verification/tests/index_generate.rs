//! Writing documents together with their indexes.

use coseva::byte_record::ByteRecord;
use coseva::config::{
    BlankRecords, Dialect, Escape, FieldCount, Limits, Quoting, ReadBom, RecordEnding, Recovery,
    Syntax, WriteBom,
};
use coseva::error::{ErrorKind, Location};
use coseva::index::csv_index::CsvIndex;
use coseva::index::format::{CHECKSUM_BYTES, FIXED_HEADER_BYTES};
use coseva::index::generate::{record_entry, should_flush_buffer, validate_record, Generator};
use coseva::index::index_options::IndexOptions;
use coseva::index::stream::StreamHash;
use coseva::index::validator::{FastMode, FastValidator, FieldEnd, FrameEscape, RecordValidator};
use coseva::options::{EmitOptions, FormatOptions};

fn record(fields: &[&str]) -> ByteRecord {
    let mut record = ByteRecord::new();
    for field in fields {
        record.push_field(field.as_bytes());
    }
    record
}

fn names() -> ByteRecord {
    record(&["a", "b"])
}

fn writes_at(capacity: usize) -> Vec<usize> {
    let rows = [record(&["test", "1"]), record(&["test", "2"])];
    let encode = EmitOptions::new().has_headers(false).buffer_capacity(capacity);
    let options = IndexOptions::default();
    let (mut generator, front) = Generator::new(options, encode).expect("generator");
    assert!(front.is_empty());
    let mut writes = Vec::new();
    let mut document = Vec::new();
    let mut entries = Vec::new();
    for row in &rows {
        let step = generator.push(row).expect("generation");
        if !step.bytes.is_empty() {
            writes.push(step.bytes.len());
        }
        document.extend_from_slice(&step.bytes);
        entries.extend_from_slice(&step.entry);
    }
    let end = generator.finish();
    if !end.rest.is_empty() {
        writes.push(end.rest.len());
    }
    document.extend_from_slice(&end.rest);
    let mut index = end.header;
    index.extend_from_slice(&entries);
    index.extend_from_slice(&end.trailer);
    let (whole, reader) = CsvIndex::generate(&names(), &rows, options, encode).expect("generation");
    assert_eq!(document, whole);
    assert_eq!(index, reader.into_inner());
    writes
}

#[test]
fn generation_flushes_at_both_sides_of_the_exact_capacity_boundary() {
    assert_eq!(writes_at(7), [7, 7]);
    assert_eq!(writes_at(8), [14]);
}

#[test]
fn record_validator_finishes_each_independent_record() {
    let validator =
        RecordValidator::new(FormatOptions::csv(), Limits::standard()).expect("validator");
    validator.validate(b"a,b\n").expect("first record");
    validator.validate(b"c,d\n").expect("state resets");
    validator
        .validate(b"unterminated,final")
        .expect("finish settles a final record without a terminator");

    let validator =
        RecordValidator::new(FormatOptions::csv(), Limits::standard()).expect("validator");
    let error = validator
        .validate(b"")
        .expect_err("empty input produces no record");
    assert!(
        error
            .message()
            .contains("encoded value does not produce a parser-visible record"),
        "{error:?}"
    );

    let validator =
        RecordValidator::new(FormatOptions::csv(), Limits::standard()).expect("validator");
    let error = validator
        .validate(b"a,b\nc,d\n")
        .expect_err("two records are not one encoded value");
    assert!(
        error
            .message()
            .contains("encoded value produces more than one parser-visible record"),
        "{error:?}"
    );
}

#[test]
fn fast_validator_boundaries_and_scanners_are_exact() {
    let csv = FastValidator::for_format(FormatOptions::csv()).expect("CSV fast validator");
    assert_eq!(csv.delimiter, b',');
    assert_eq!(csv.quote, b'"');
    assert_eq!(csv.terminator, b'\n');
    assert!(!csv.crlf);
    assert!(csv.newline);
    assert!(!csv.blank_skip);
    assert!(matches!(csv.mode, FastMode::Framed(FrameEscape::Doubled)));

    assert_eq!(
        csv.validate(b"a,b\n", Limits::new(4, 1, 2))
            .expect("limits are inclusive"),
        Some(1)
    );
    assert_eq!(
        csv.validate(b"ab,c\n", Limits::new(5, 2, 2))
            .expect("field width is inclusive"),
        Some(1)
    );
    assert_eq!(
        csv.validate(b"a,zz\n", Limits::new(5, 1, 2))
            .expect_err("the second field exceeds the exact limit")
            .kind(),
        ErrorKind::FieldTooLarge { limit: 1 }
    );
    let error = csv
        .validate(b"\n", Limits::new(1, 1, 0))
        .expect_err("a preserved blank record still has one field");
    assert_eq!(error.kind(), ErrorKind::TooManyFields { limit: 0 });

    assert_eq!(
        csv.scan_quoted_field(b"\"a\"\"b\nc\",z", 0, FrameEscape::Doubled),
        Some((6, FieldEnd::Delimiter(8), 1))
    );
    assert_eq!(
        csv.scan_quoted_field(b"\"\"\"\"", 0, FrameEscape::Doubled),
        Some((2, FieldEnd::Record, 0))
    );
    assert_eq!(
        csv.scan_quoted_field(b"\"\n\"", 0, FrameEscape::Doubled),
        Some((1, FieldEnd::Record, 1))
    );
    assert_eq!(
        csv.scan_quoted_field(b"xx\"ab\"", 2, FrameEscape::Doubled),
        Some((2, FieldEnd::Record, 0))
    );
    assert_eq!(
        csv.scan_field(b"xx\"ab\"", 2),
        Some((2, FieldEnd::Record, 0))
    );
    assert_eq!(
        csv.scan_quoted_field(b"\"ab\"x", 0, FrameEscape::Doubled),
        None
    );

    let backslash_format = FormatOptions::from_dialect(
        Dialect::new(b',', b'"', RecordEnding::Newline, Escape::Backslash(b'\\'))
            .expect("backslash dialect"),
    );
    let backslash =
        FastValidator::for_format(backslash_format).expect("backslash fast validator");
    assert_eq!(
        backslash.scan_quoted_field(b"\"a\\\"\n\\\\b\",z", 0, FrameEscape::Backslash(b'\\')),
        Some((7, FieldEnd::Delimiter(9), 1))
    );
    assert_eq!(
        backslash.scan_quoted_field(b"\"\\\"\"", 0, FrameEscape::Backslash(b'\\')),
        Some((2, FieldEnd::Record, 0))
    );

    assert_eq!(
        csv.scan_unquoted_field(b"ab,cd", 0),
        Some((2, FieldEnd::Delimiter(2), 0))
    );
    assert_eq!(
        csv.scan_field(b"xxab,cd", 2),
        Some((2, FieldEnd::Delimiter(4), 0))
    );
    assert_eq!(csv.scan_unquoted_field(b"a\"b", 0), None);
    assert_eq!(csv.scan_unquoted_field(b"a\nb", 0), None);
    assert_eq!(csv.scan_unquoted_field(b"ab\rcd", 0), None);

    let byte_ending = FormatOptions::from_dialect(
        Dialect::new(b',', b'"', RecordEnding::Byte(b';'), Escape::DoubleQuote)
            .expect("byte-ending dialect"),
    );
    let byte_ending =
        FastValidator::for_format(byte_ending).expect("byte-ending fast validator");
    assert!(!byte_ending.newline);
    assert_eq!(
        byte_ending.scan_unquoted_field(b"a\n,b", 0),
        Some((2, FieldEnd::Delimiter(2), 1))
    );
    assert_eq!(
        byte_ending.scan_unquoted_field(b"xxa\nb", 2),
        Some((3, FieldEnd::Record, 1))
    );
    assert_eq!(
        byte_ending.scan_unquoted_field(b"a\rb", 0),
        Some((3, FieldEnd::Record, 0))
    );
    assert_eq!(byte_ending.scan_unquoted_field(b"a\"b", 0), None);
    assert_eq!(byte_ending.scan_unquoted_field(b"a;b", 0), None);

    let escaped_format = FormatOptions::from_dialect(
        Dialect::new(
            b',',
            b'"',
            RecordEnding::Byte(b';'),
            Escape::Unquoted(b'\\'),
        )
        .expect("escaped dialect"),
    )
    .quoting(Quoting::Never);
    let escaped = FastValidator::for_format(escaped_format).expect("escaped fast validator");
    assert_eq!(
        escaped.scan_escaped_field(b"a\\\n\\,b,c", 0, b'\\'),
        Some((6, FieldEnd::Delimiter(6), 1))
    );
    assert_eq!(
        escaped.scan_escaped_field(b"xxa\nb", 2, b'\\'),
        Some((3, FieldEnd::Record, 1))
    );
    assert_eq!(
        escaped.scan_escaped_field(b"xx\nb", 2, b'\\'),
        Some((2, FieldEnd::Record, 1))
    );
    assert_eq!(
        escaped.scan_escaped_field(b"xx\n\\\n,", 2, b'\\'),
        Some((3, FieldEnd::Delimiter(5), 2))
    );
    assert_eq!(
        escaped.scan_field(b"xxa\\\n\\,b,c", 2),
        Some((6, FieldEnd::Delimiter(8), 1))
    );
    assert_eq!(escaped.scan_escaped_field(b"a\\", 0, b'\\'), None);
    assert_eq!(escaped.scan_escaped_field(b"a\"b", 0, b'\\'), None);
    assert_eq!(escaped.scan_escaped_field(b"a;b", 0, b'\\'), None);
}

#[test]
fn test_fast_validator_for_format() {
    let raw = FormatOptions::csv().quoting(Quoting::Raw);
    assert!(FastValidator::for_format(raw).is_none());

    let skip_space = FormatOptions::csv().skip_initial_space(true);
    assert!(FastValidator::for_format(skip_space).is_none());

    let no_quote_syntax = FormatOptions::csv().syntax(Syntax::Compatible(Recovery::none()));
    assert!(FastValidator::for_format(no_quote_syntax).is_none());

    let backslash = FormatOptions::from_dialect(
        Dialect::new(b',', b'"', RecordEnding::Newline, Escape::Backslash(b'\\')).unwrap(),
    );
    let val = FastValidator::for_format(backslash).expect("backslash validator");
    assert!(matches!(
        val.mode,
        FastMode::Framed(FrameEscape::Backslash(b'\\'))
    ));

    let mysql = FormatOptions::mysql();
    let val_mysql = FastValidator::for_format(mysql).expect("mysql validator");
    assert!(matches!(val_mysql.mode, FastMode::Escaped(b'\\')));
}

#[test]
fn test_fast_validator_validate_branches() {
    let fmt = FormatOptions::csv();
    let val = FastValidator::for_format(fmt).unwrap();

    assert_eq!(val.validate(b"foo,bar", Limits::standard()).unwrap(), None);

    let val_crlf = FastValidator::for_format(FormatOptions::rfc4180()).unwrap();
    assert!(
        val_crlf
            .validate(b"a,b\r\n", Limits::standard())
            .unwrap()
            .is_some()
    );
    assert_eq!(val_crlf.validate(b"a,b\n", Limits::standard()).unwrap(), None);

    let blank_skip =
        FastValidator::for_format(FormatOptions::csv().blank_records(BlankRecords::Skip))
            .unwrap();
    assert!(blank_skip.validate(b"\n", Limits::standard()).is_err());

    let blank_zero_fields = val.validate(b"\n", Limits::new(100, 100, 0));
    assert!(blank_zero_fields.is_err());

    let blank_valid = val.validate(b"\n", Limits::standard()).unwrap();
    assert_eq!(blank_valid, Some(1));

    assert!(
        val.validate(b"hello,world\n", Limits::new(4, 100, 10))
            .is_err()
    );

    assert!(val.validate(b"a,b,c\n", Limits::new(100, 100, 2)).is_err());

    assert!(
        val.validate(b"toolong,b\n", Limits::new(100, 3, 10))
            .is_err()
    );

    let res = val
        .validate(b"\"line1\nline2\"\"continued\",val\n", Limits::standard())
        .unwrap();
    assert_eq!(res, Some(2));

    assert_eq!(
        val.validate(b"\"hello\"world,val\n", Limits::standard())
            .unwrap(),
        None
    );

    let backslash = FormatOptions::from_dialect(
        Dialect::new(b',', b'"', RecordEnding::Newline, Escape::Backslash(b'\\')).unwrap(),
    );
    let val_b = FastValidator::for_format(backslash).unwrap();
    assert!(
        val_b
            .validate(b"\"a\\\"b\",c\n", Limits::standard())
            .unwrap()
            .is_some()
    );
    assert!(
        val_b
            .validate(b"\"a\\\nb\"\n", Limits::standard())
            .unwrap()
            .is_some()
    );
    assert_eq!(val_b.validate(b"\"a\\", Limits::standard()).unwrap(), None);
    assert_eq!(val_b.validate(b"\"a\\\n", Limits::standard()).unwrap(), None);

    let custom_ending = FormatOptions::from_dialect(
        Dialect::new(b',', b'"', RecordEnding::Byte(b';'), Escape::DoubleQuote).unwrap(),
    );
    let custom_val = FastValidator::for_format(custom_ending).unwrap();
    assert!(custom_val.validate(b"a,b;", Limits::standard()).is_ok());

    let val_mysql = FastValidator::for_format(FormatOptions::mysql()).unwrap();
    let valid_mysql = val_mysql
        .validate(b"hello\\,world,second\n", Limits::standard())
        .unwrap();
    assert!(valid_mysql.is_some());

    assert_eq!(
        val_mysql.validate(b"hello\\", Limits::standard()).unwrap(),
        None
    );
    assert_eq!(
        val_mysql.validate(b"hello\\\n", Limits::standard()).unwrap(),
        None
    );
    assert_eq!(
        val_mysql
            .validate(b"hello\"world\n", Limits::standard())
            .unwrap(),
        None
    );
}

#[test]
fn test_record_validator() {
    let invalid_fmt = FormatOptions::csv().delimiter(b'"');
    assert!(RecordValidator::new(invalid_fmt, Limits::standard()).is_err());

    let rv = RecordValidator::new(FormatOptions::csv(), Limits::standard()).unwrap();
    assert!(rv.validate(b"a,b\n").is_ok());
    assert!(rv.validate(b"").is_err());
    assert!(rv.validate(b"a,b\nc,d\n").is_err());

    let raw = FormatOptions::csv().quoting(Quoting::Raw);
    let rv_raw = RecordValidator::new(raw, Limits::standard()).unwrap();
    assert_eq!(
        validate_record(None, &rv_raw, b"a,b\n", Limits::standard()).unwrap(),
        1
    );

    let val = FastValidator::for_format(FormatOptions::csv()).unwrap();
    assert_eq!(val.validate(b"", Limits::standard()).unwrap(), None);
}

#[test]
fn record_entries_are_written_little_endian() {
    let mut entries = Vec::new();
    let mut newlines = 2;
    let count = record_entry(&mut entries, 5, &mut newlines, 3, 7).expect("entry");
    let mut expected = Vec::new();
    expected.extend_from_slice(&5_u64.to_le_bytes());
    expected.extend_from_slice(&3_u64.to_le_bytes());
    assert_eq!(entries, expected);
    assert_eq!(newlines, 5);
    assert_eq!(count, 8);

    let mut newlines = 0;
    let error = record_entry(&mut entries, 0, &mut newlines, 1, u64::MAX).expect_err("too many");
    assert_eq!(error.kind(), ErrorKind::InvalidIndex);
    assert_eq!(error.message(), "too many records");
}

#[test]
fn a_writer_that_claims_too_much_is_refused() {
    let mut stream = StreamHash::new();
    let error = stream.absorb_written(b"abc", 4).expect_err("over-reporting is invalid");
    assert_eq!(
        error.message(),
        "Write implementation reported more bytes than the buffer holds"
    );
    stream.absorb_written(b"abc", 2).expect("a short write is taken as it is");
    assert_eq!(stream.len(), 2);
}

#[test]
fn buffers_are_flushed_from_the_threshold_on() {
    assert!(!should_flush_buffer(7, 8));
    assert!(should_flush_buffer(8, 8));
    assert!(should_flush_buffer(9, 8));
}

#[test]
fn a_generated_index_is_the_index_of_the_document() {
    let rows = [
        record(&["boston", "10"]),
        record(&["aus\ntin", "20"]),
        record(&["den\"ver", "30"]),
    ];
    for write_bom in [WriteBom::Omit, WriteBom::Emit] {
        for has_headers in [false, true] {
            let options = IndexOptions {
                format: FormatOptions::csv().write_bom(write_bom),
                limits: Limits::standard(),
            };
            let (document, reader) = CsvIndex::generate(
                &names(),
                &rows,
                options,
                EmitOptions::new().buffer_capacity(16).has_headers(has_headers),
            )
            .expect("generation succeeds");
            let index = CsvIndex::build(&document, options).expect("the document is well formed");
            assert_eq!(reader.len(), if has_headers { 4 } else { 3 });
            let bytes = reader.into_inner();
            assert_eq!(
                bytes.len(),
                FIXED_HEADER_BYTES + index.len() * 16 + 2 * CHECKSUM_BYTES
            );
            assert_eq!(bytes, index.encode());
        }
    }
}

#[test]
fn generation_stops_at_what_cannot_be_written() {
    let rows = [record(&["boston", "10"])];
    let invalid = IndexOptions {
        format: FormatOptions::csv().delimiter(b'"'),
        limits: Limits::standard(),
    };
    let error = CsvIndex::generate(&names(), &rows, invalid, EmitOptions::new())
        .expect_err("the dialect contradicts itself");
    assert_eq!(error.kind(), ErrorKind::Configuration);

    let uneven = [record(&["boston", "10"]), record(&["austin"])];
    let error = CsvIndex::generate(
        &names(),
        &uneven,
        IndexOptions::default(),
        EmitOptions::new().field_count(FieldCount::MatchFirst),
    )
    .expect_err("the second row is shorter");
    assert_eq!(
        error.kind(),
        ErrorKind::FieldCountMismatch { expected: 2, actual: 1 }
    );

    let narrow = IndexOptions {
        format: FormatOptions::csv(),
        limits: Limits::new(100, 3, 10),
    };
    let error = CsvIndex::generate(&names(), &rows, narrow, EmitOptions::new())
        .expect_err("a field is longer than the limit");
    assert_eq!(error.kind(), ErrorKind::FieldTooLarge { limit: 3 });

    let many: Vec<ByteRecord> = (0..50)
        .map(|i| record(&["testing_threshold_flushing", &format!("{i}")]))
        .collect();
    assert!(CsvIndex::generate(
        &names(),
        &many,
        IndexOptions::default(),
        EmitOptions::new().buffer_capacity(32),
    )
    .is_ok());
}

#[test]
fn a_blank_value_that_would_be_skipped_is_refused() {
    let options = IndexOptions {
        format: FormatOptions::csv().blank_records(BlankRecords::Skip).quoting(Quoting::Raw),
        limits: Limits::standard(),
    };
    let rows = [record(&[""])];
    let error = CsvIndex::generate(
        &names(),
        &rows,
        options,
        EmitOptions::new().has_headers(false),
    )
    .expect_err("an empty line is no record of this format");
    assert_eq!(error.kind(), ErrorKind::Encode);
    assert!(error
        .message()
        .contains("encoded value does not produce a parser-visible record"));
}

#[test]
fn a_generated_index_is_the_created_one() {
    let rows = [record(&["x", "1"]), record(&["", "\u{feff}2"]), record(&["y", " 3"])];
    for format in [
        FormatOptions::csv(),
        FormatOptions::csv().skip_initial_space(true),
        FormatOptions::csv().blank_records(BlankRecords::Skip),
        FormatOptions::csv().write_bom(WriteBom::Emit),
        FormatOptions::csv().read_bom(ReadBom::Reject),
        FormatOptions::csv().record_ending(RecordEnding::CrLf),
        FormatOptions::python_escaped(),
        FormatOptions::csv().delimiter_sequence(b"||"),
        FormatOptions::csv().delimiter_sequence(b"~~").record_ending_sequence(b";--"),
    ] {
        let options = IndexOptions { format, limits: Limits::standard() };
        let emit = EmitOptions::new().has_headers(true);
        match CsvIndex::generate(&names(), &rows, options, emit) {
            Ok((document, generated)) => {
                let created = CsvIndex::create(&document, options).expect("a readable document");
                assert_eq!(generated.len(), 4);
                assert_eq!(generated.into_inner(), created.into_inner());
            }
            Err(error) => assert_eq!(error.kind(), ErrorKind::Encode),
        }
    }
}

#[test]
fn a_header_waits_for_a_record_and_what_is_refused_changes_nothing() {
    let encode = EmitOptions::new().buffer_capacity(1).field_count(FieldCount::MatchFirst);
    let options = IndexOptions {
        format: FormatOptions::csv().write_bom(WriteBom::Emit),
        limits: Limits::new(100, 4, 10),
    };
    let (mut generator, front) = Generator::new(options, encode).expect("generator");
    assert_eq!(front, b"\xEF\xBB\xBF");
    let step = generator.push_header(&names()).expect("header");
    assert!(step.bytes.is_empty());
    assert_eq!(step.entry[..8], 3_u64.to_le_bytes());
    assert_eq!(step.entry[8..], 1_u64.to_le_bytes());
    let error = generator.push(&record(&["x"])).expect_err("one field is missing");
    assert_eq!(error.kind(), ErrorKind::FieldCountMismatch { expected: 2, actual: 1 });
    let error = generator.push(&record(&["x", "seven77"])).expect_err("a field is too long");
    assert_eq!(error.kind(), ErrorKind::FieldTooLarge { limit: 4 });
    assert_eq!(error.location(), Location::unknown());
    let step = generator.push(&record(&["x", "1"])).expect("record");
    assert_eq!(step.bytes, b"a,b\nx,1\n");
    assert_eq!(step.entry[..8], 7_u64.to_le_bytes());
    assert_eq!(step.entry[8..], 2_u64.to_le_bytes());
    assert!(generator.finish().rest.is_empty());
}

#[test]
fn a_record_over_the_limit_is_refused_by_the_scan() {
    for format in [FormatOptions::csv(), FormatOptions::backslash_csv()] {
        let options = IndexOptions { format, limits: Limits::new(6, 2, 10) };
        let error = CsvIndex::generate(
            &names(),
            &[record(&["long", "1"])],
            options,
            EmitOptions::new().has_headers(false),
        )
        .expect_err("the record is longer than six bytes");
        assert_eq!(error.kind(), ErrorKind::RecordTooLarge { limit: 6 });
        assert_eq!(error.location(), Location::unknown());
    }
}

#[test]
fn a_delimiter_that_the_end_of_a_record_cuts_off_is_refused() {
    let format = FormatOptions::csv().delimiter_sequence(b"x\ny").quoting(Quoting::Raw);
    let options = IndexOptions { format, limits: Limits::standard() };
    let encode = EmitOptions::new().has_headers(false);
    let error = CsvIndex::generate(&names(), &[record(&["ax"]), record(&["y"])], options, encode)
        .expect_err("the next record would complete the delimiter");
    assert_eq!(error.kind(), ErrorKind::Encode);
    assert!(CsvIndex::generate(&names(), &[record(&["a"]), record(&["y"])], options, encode).is_ok());
}
