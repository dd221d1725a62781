//! The byte form of an index.

use coseva::config::{Escape, Limits, Nulls, RecordEnding, Recovery, Syntax};
use coseva::error::{ErrorKind, IoError, IoErrorKind, Location};
use coseva::index::csv_index::CsvIndex;
use coseva::index::format::{
    check_entry, check_first_entry, decode_format, decode_header, encode_format, encode_header,
    entry_location, narrow, payload_len, record_out_of_range, trailer_bytes, Cursor,
    FIXED_HEADER_BYTES, MIN_VERSION, VERSION, ENCODED_VALUE_MULTIPLE_RECORDS, ENCODED_VALUE_NO_RECORD, FIELD_COUNT_LIMIT_NOT_USIZE, FIELD_LIMIT_NOT_USIZE, INDEX_CHECKSUM_MISMATCH, INDEX_CURSOR_OVERFLOW, INDEX_ENTRIES_CHECKSUM_MISMATCH, INDEX_HEADER_CHECKSUM_MISMATCH, INDEX_LENGTH_OVERFLOW, INDEX_MAGIC_MISMATCH, INDEX_TRUNCATED, LOCATION_TABLE_LENGTH_MISMATCH, OUTPUT_LENGTH_OVERFLOW, PARALLEL_FORMAT_UNSUPPORTED, READ_OVERRAN_BUFFER, RECORD_COUNT_NOT_USIZE, RECORD_LIMIT_NOT_USIZE, RECORD_LINES_INVALID, RECORD_OFFSETS_NOT_INCREASING, RECORD_OFFSET_EXCEEDS_SOURCE, SOURCE_LENGTH_OVERFLOW, TOO_MANY_RECORDS, UNSUPPORTED_INDEX_VERSION, WRITE_OVERRAN_BUFFER,
};
use coseva::index::index_options::IndexOptions;
use coseva::index::stream::{PayloadStep, StreamHash};
use coseva::options::FormatOptions;

#[test]
fn index_error_details_are_stable() {
    assert_eq!(INDEX_LENGTH_OVERFLOW, "index length overflows u64");
    assert_eq!(RECORD_OFFSET_EXCEEDS_SOURCE, "record offset exceeds source");
    assert_eq!(
        RECORD_OFFSETS_NOT_INCREASING,
        "record offsets are not strictly increasing"
    );
    assert_eq!(
        RECORD_LINES_INVALID,
        "record lines are not valid and nondecreasing"
    );
    assert_eq!(INDEX_TRUNCATED, "index is truncated");
    assert_eq!(INDEX_MAGIC_MISMATCH, "index magic does not match");
    assert_eq!(UNSUPPORTED_INDEX_VERSION, "unsupported index version");
    assert_eq!(
        READ_OVERRAN_BUFFER,
        "Read implementation returned more bytes than the buffer holds"
    );
    assert_eq!(SOURCE_LENGTH_OVERFLOW, "source length exceeds u64");
    assert_eq!(RECORD_LIMIT_NOT_USIZE, "record limit does not fit usize");
    assert_eq!(FIELD_LIMIT_NOT_USIZE, "field limit does not fit usize");
    assert_eq!(
        FIELD_COUNT_LIMIT_NOT_USIZE,
        "field-count limit does not fit usize"
    );
    assert_eq!(INDEX_CURSOR_OVERFLOW, "index cursor overflow");
    assert_eq!(
        LOCATION_TABLE_LENGTH_MISMATCH,
        "location table length does not match"
    );
    assert_eq!(INDEX_CHECKSUM_MISMATCH, "index checksum does not match");
    assert_eq!(
        INDEX_ENTRIES_CHECKSUM_MISMATCH,
        "index entries checksum does not match"
    );
    assert_eq!(
        INDEX_HEADER_CHECKSUM_MISMATCH,
        "index header checksum does not match"
    );
    assert_eq!(RECORD_COUNT_NOT_USIZE, "record count does not fit usize");
    assert_eq!(TOO_MANY_RECORDS, "too many records");
    assert_eq!(
        PARALLEL_FORMAT_UNSUPPORTED,
        "this format cannot be indexed in parallel"
    );
    assert_eq!(
        ENCODED_VALUE_NO_RECORD,
        "encoded value does not produce a parser-visible record"
    );
    assert_eq!(
        ENCODED_VALUE_MULTIPLE_RECORDS,
        "encoded value produces more than one parser-visible record"
    );
    assert_eq!(
        WRITE_OVERRAN_BUFFER,
        "Write implementation reported more bytes than the buffer holds"
    );
    assert_eq!(OUTPUT_LENGTH_OVERFLOW, "output length exceeds u64");
}

#[test]
fn first_entry_and_location_boundaries_are_exact() {
    check_first_entry(0, 1, 1).expect("the only byte starts a valid record");
    assert!(check_first_entry(1, 1, 1).is_err());
    assert!(check_first_entry(0, 0, 1).is_err());

    let location = entry_location(0, 7, 1, 11).expect("last source byte is addressable");
    assert_eq!(
        location,
        Location {
            byte: 0,
            line: 7,
            record: 11,
            field: 0,
        }
    );
}

#[test]
fn versions_immediately_outside_the_supported_range_are_rejected() {
    let mut header = encode_header(1, 3, FormatOptions::csv(), Limits::standard(), 0);
    assert_eq!(header.len(), FIXED_HEADER_BYTES);

    for version in [MIN_VERSION - 1, VERSION + 1] {
        header[8..12].copy_from_slice(&version.to_le_bytes());
        let error = match decode_header(&header) {
            Ok(_) => panic!("unsupported adjacent version"),
            Err(error) => error,
        };
        assert!(
            error.message().contains("unsupported index version"),
            "{error:?}"
        );
    }
}

#[test]
fn format_round_trip_preserves_every_separator_tail_byte() {
    let format = FormatOptions::csv()
        .delimiter_sequence(b"|~!?")
        .record_ending_sequence(b"@#$%");
    let header = encode_header(17, 9, format, Limits::new(31, 17, 5), 3);
    let decoded = decode_header(&header).expect("multi-byte header decodes");
    assert_eq!(decoded.format, format);
    assert_eq!(decoded.limits, Limits::new(31, 17, 5));
    assert_eq!(decoded.source_len, 17);
    assert_eq!(decoded.source_hash, 9);
    assert_eq!(decoded.count, 3);
}

#[test]
fn narrow_rejects_offsets_that_do_not_fit_usize_as_invalid_index() {
    let what = "record offset does not fit this platform's address width";
    let beyond = u64::from(u32::MAX) + 1;
    if usize::BITS == 32 {
        let error = narrow(beyond, what).expect_err("an offset above usize::MAX must be rejected");
        assert_eq!(error.kind(), ErrorKind::InvalidIndex);
        assert!(error.message().contains(what), "{error:?}");
    } else {
        assert_eq!(narrow(beyond, what).ok(), Some(beyond as usize));
    }
}

#[test]
fn a_zero_record_line_is_rejected() {
    let error = check_entry(16, 0, 4096, None)
        .expect_err("physical lines are numbered from one, so zero is not a valid line");
    assert_eq!(error.kind(), ErrorKind::InvalidIndex);
    assert!(
        error
            .message()
            .contains("record lines are not valid and nondecreasing"),
        "the line arm must be what rejects this, not the offset arm: {error:?}"
    );
}

#[test]
fn a_decreasing_record_line_is_rejected_but_an_equal_one_is_not() {
    check_entry(16, 7, 4096, Some((0, 7)))
        .expect("records sharing a physical line are ordinary, not corrupt");

    let error = check_entry(16, 6, 4096, Some((0, 7)))
        .expect_err("a line before its predecessor's cannot describe a later record");
    assert_eq!(error.kind(), ErrorKind::InvalidIndex);
    assert!(
        error
            .message()
            .contains("record lines are not valid and nondecreasing"),
        "{error:?}"
    );

    let error = check_entry(16, 8, 4096, Some((16, 7))).expect_err("offset <= previous");
    assert_eq!(error.kind(), ErrorKind::InvalidIndex);

    let mut stream = StreamHash::new();
    assert!(matches!(
        stream.payload_step(100, b"short", Ok(5)),
        PayloadStep::Again
    ));
    match stream.payload_step(100, b"", Ok(0)) {
        PayloadStep::Failed(error) => assert_eq!(error.kind(), ErrorKind::InvalidIndex),
        other => panic!("truncated: {other:?}"),
    }

    assert!(entry_location(10, 1, 100, 0).is_ok());
    assert!(entry_location(100, 1, 10, 0).is_err());

    let source = b"a,b\n1,2\n";
    let index = CsvIndex::build(source, IndexOptions::default()).expect("valid build");
    assert!(index.parser_at_reader(b"", 0).is_err());
    assert!(index.parser_at_reader(b"a,b\n1,2\n3,4\n", 0).is_err());

    let header = encode_header(100, 1, FormatOptions::csv(), Limits::standard(), 5);
    assert!(decode_header(&header).is_ok());

    let mut bad_magic = header.clone();
    bad_magic[0] = b'X';
    assert!(decode_header(&bad_magic).is_err());

    let mut bad_version = header.clone();
    bad_version[8] = 0;
    assert!(decode_header(&bad_version).is_err());

    let mut base = Vec::new();
    encode_format(&mut base, FormatOptions::csv());
    assert_eq!(
        base,
        [
            b',', b'"', 0, 0, 0, 0, 0, 0, 0, 0, 0, 0, 0, 0, 0, 0, 0, 0, 0, 0, 0, 0, 0, 0, 0, 0, 0,
            0, 0, 0, 0, 0, 0,
        ]
    );
    assert_eq!(decode_format(&base).ok(), Some(FormatOptions::csv()));
    for (at, byte) in [
        (2, 99),
        (4, 99),
        (6, 99),
        (8, 0xFF),
        (9, 99),
        (10, 99),
        (11, 99),
        (12, 99),
        (14, 99),
        (15, 99),
        (16, 99),
    ] {
        let mut bytes = base.clone();
        bytes[at] = byte;
        let error = decode_format(&bytes).expect_err("this byte means nothing here");
        assert_eq!(error.kind(), ErrorKind::InvalidIndex, "byte {at}");
    }
    let mut quote = base.clone();
    quote[1] = b',';
    let error = decode_format(&quote).expect_err("the quote is the delimiter");
    assert_eq!(error.kind(), ErrorKind::Configuration);
    let mut tail = base.clone();
    tail[17] = 255;
    let error = decode_format(&tail).expect_err("no tail is that long");
    assert_eq!(error.kind(), ErrorKind::Configuration);
    let mut comment = base.clone();
    comment[6] = 1;
    comment[7] = b',';
    assert!(decode_format(&comment).is_err());
    let mut flags = base.clone();
    flags[12] = 1;
    flags[13] = 0xFF;
    assert!(decode_format(&flags).is_err());

    let mut short = Cursor::new(&[1, 2]);
    assert_eq!(short.byte().ok(), Some(1));
    assert!(short.u32().is_err());
    assert!(short.u64().is_err());
    assert!(short.array_16().is_err());
    let mut overflow = Cursor::new(&[1, 2]);
    assert!(overflow.take(usize::MAX).is_err());

    assert!(payload_len(u64::MAX).is_err());
    assert_eq!(
        record_out_of_range(10).kind(),
        ErrorKind::RecordOutOfRange { record: 10 }
    );
    assert_eq!(trailer_bytes(8), 16);
    assert_eq!(trailer_bytes(9), 32);
}

fn hash_of(payload: &[u8]) -> u128 {
    let mut stream = StreamHash::new();
    stream
        .absorb_read(payload, payload.len())
        .expect("the buffer holds what was read");
    stream.hash()
}

#[test]
fn an_interrupted_read_is_retried_rather_than_reported() {
    let payload: &[u8] = b"the quick brown fox jumps over the lazy dog";
    let len = payload.len() as u64;

    let mut actual = StreamHash::new();
    for chunk in [&payload[..10], &payload[10..25], &payload[25..]] {
        let interrupted = IoError::new(IoErrorKind::Interrupted, "signal");
        assert!(matches!(
            actual.payload_step(len, &[], Err(interrupted)),
            PayloadStep::Again
        ));
        assert!(matches!(
            actual.payload_step(len, chunk, Ok(chunk.len())),
            PayloadStep::Again
        ));
    }
    assert!(matches!(
        actual.payload_step(len, &[], Ok(0)),
        PayloadStep::Complete
    ));

    assert_eq!(actual.hash(), hash_of(payload));
    assert_eq!(actual.len(), len);
}

#[test]
fn a_real_io_error_is_reported_rather_than_retried() {
    let mut stream = StreamHash::new();
    let denied = IoError::new(IoErrorKind::PermissionDenied, "no access");
    match stream.payload_step(64, &[], Err(denied)) {
        PayloadStep::Failed(error) => {
            assert_eq!(error.kind(), ErrorKind::Io(IoErrorKind::PermissionDenied));
            assert_eq!(error.location(), Location::start());
        }
        other => panic!("a real io error must surface: {other:?}"),
    }
}

#[test]
fn hashing_one_missing_byte_is_truncation() {
    let mut stream = StreamHash::new();
    match stream.payload_step(1, &[], Ok(0)) {
        PayloadStep::Failed(error) => {
            assert_eq!(error.kind(), ErrorKind::InvalidIndex);
            assert!(error.message().contains("index is truncated"), "{error:?}");
        }
        other => panic!("zero bytes cannot satisfy a one-byte payload: {other:?}"),
    }
}

#[test]
fn a_reader_that_claims_too_much_is_refused() {
    let mut stream = StreamHash::new();
    let error = stream.absorb_read(b"abc", 4).expect_err("over-reporting is invalid");
    assert_eq!(error.kind(), IoErrorKind::InvalidData);
    assert_eq!(error.message(), READ_OVERRAN_BUFFER);
    match stream.payload_step(64, b"abc", Ok(4)) {
        PayloadStep::Failed(error) => {
            assert_eq!(error.kind(), ErrorKind::Io(IoErrorKind::InvalidData));
        }
        other => panic!("over-reporting is invalid: {other:?}"),
    }
    assert_eq!(stream.len(), 0);
}

#[test]
fn no_more_is_wanted_than_the_payload_has_left() {
    let mut stream = StreamHash::new();
    assert_eq!(stream.wanted(10, 4), 4);
    stream.absorb_read(b"12345678", 8).expect("eight bytes");
    assert_eq!(stream.wanted(10, 4), 2);
    assert_eq!(stream.wanted(8, 4), 0);
}

#[test]
fn the_hash_of_pieces_is_the_hash_of_the_whole() {
    let payload: Vec<u8> = (0..2000u32).map(|i| (i % 251) as u8).collect();
    for piece in [1usize, 7, 256, 300, 1999] {
        let mut stream = StreamHash::new();
        for chunk in payload.chunks(piece) {
            stream.absorb_read(chunk, chunk.len()).expect("read");
        }
        assert_eq!(stream.hash(), hash_of(&payload), "pieces of {piece}");
        assert!(stream.validate_identity(2000, hash_of(&payload)).is_ok());
        let error = stream
            .validate_identity(1999, hash_of(&payload))
            .expect_err("another length");
        assert_eq!(error.kind(), ErrorKind::SourceMismatch);
    }
    assert_ne!(hash_of(b"a"), hash_of(b"b"));
}

#[test]
fn a_format_is_read_back_from_its_bytes() {
    for format in [
        FormatOptions::csv(),
        FormatOptions::mysql(),
        FormatOptions::rfc4180(),
        FormatOptions::commented_csv(),
        FormatOptions::python_escaped(),
        FormatOptions::postgres_copy_csv(),
        FormatOptions::csv().record_ending(RecordEnding::Byte(b';')),
        FormatOptions::csv().escape(Escape::Backslash(b'^')).nulls(Nulls::Mysql),
        FormatOptions::csv().syntax(Syntax::Compatible(Recovery::permissive())),
    ] {
        let mut bytes = Vec::new();
        encode_format(&mut bytes, format);
        assert_eq!(decode_format(&bytes).ok(), Some(format));
    }
}
