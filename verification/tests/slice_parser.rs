//! Reading documents held in memory.

use coseva::config::{
    BlankRecords, Escape, FieldCount, Limits, Nulls, ReadBom, RecordEnding, Recovery, Syntax,
};
use coseva::error::{Error, ErrorKind, Location};
use coseva::options::{FormatOptions, ParserSettings};
use coseva::slice_parser::SliceParser;
use coseva::storage::RecordStorage;

fn settings(format: FormatOptions) -> ParserSettings {
    ParserSettings::from_format(format, Limits::standard())
}

fn read(input: &[u8], settings: ParserSettings) -> Result<Vec<Vec<Vec<u8>>>, Error> {
    let mut parser = SliceParser::with_settings(input, settings)?;
    let mut record = RecordStorage::new();
    let mut records = Vec::new();
    while parser.next_record(&mut record)? {
        records.push(record.to_vecs());
    }
    Ok(records)
}

fn rows(records: &[&[&str]]) -> Vec<Vec<Vec<u8>>> {
    records
        .iter()
        .map(|record| record.iter().map(|field| field.as_bytes().to_vec()).collect())
        .collect()
}

fn failure(input: &[u8], settings: ParserSettings) -> Error {
    read(input, settings).expect_err("the document is malformed")
}

#[test]
fn records_are_separated_and_fields_unquoted() {
    assert_eq!(
        read(b"a,b\n\"c,\"\"d\"\"\",\"e\nf\"\r\ng", settings(FormatOptions::csv())).ok(),
        Some(rows(&[&["a", "b"], &["c,\"d\"", "e\nf"], &["g"]]))
    );
    assert_eq!(read(b"", settings(FormatOptions::csv())).ok(), Some(rows(&[])));
    assert_eq!(
        read(b"\n\n", settings(FormatOptions::csv())).ok(),
        Some(rows(&[&[""], &[""]]))
    );
    assert_eq!(
        read(b"a\tb\n", settings(FormatOptions::tsv())).ok(),
        Some(rows(&[&["a", "b"]]))
    );
}

#[test]
fn comments_and_blank_records_are_passed_over() {
    let commented = settings(FormatOptions::commented_csv());
    assert_eq!(
        read(b"#x,y\na,b\n\n#\nc,d\n\r\n", commented).ok(),
        Some(rows(&[&["a", "b"], &["c", "d"]]))
    );
    let skipping = settings(FormatOptions::csv().blank_records(BlankRecords::Skip));
    assert_eq!(
        read(b"\na\n\r\n\nb\n\n", skipping).ok(),
        Some(rows(&[&["a"], &["b"]]))
    );
}

#[test]
fn escapes_are_undone() {
    let backslash = settings(FormatOptions::backslash_csv());
    assert_eq!(
        read(b"\"a\\\"b\\\\c\",d\n", backslash).ok(),
        Some(rows(&[&["a\"b\\c", "d"]]))
    );
    let custom = settings(FormatOptions::csv().record_ending(RecordEnding::Byte(b';')));
    assert_eq!(
        read(b"a,b\nc;\"d;\";", custom).ok(),
        Some(rows(&[&["a", "b\nc"], &["d;"]]))
    );
}

#[test]
fn a_byte_order_mark_is_passed_over_kept_or_refused() {
    let document = b"\xEF\xBB\xBFa\n";
    assert_eq!(
        read(document, settings(FormatOptions::csv())).ok(),
        Some(rows(&[&["a"]]))
    );
    let keeping = settings(FormatOptions::csv().read_bom(ReadBom::Preserve));
    assert_eq!(
        read(document, keeping).ok(),
        Some(vec![vec![b"\xEF\xBB\xBFa".to_vec()]])
    );
    let refusing = settings(FormatOptions::csv().read_bom(ReadBom::Reject));
    let error = failure(document, refusing);
    assert_eq!(error.kind(), ErrorKind::RejectedBom);
    assert_eq!(error.location(), Location::start());
}

#[test]
fn every_malformation_has_its_kind_and_place() {
    let csv = settings(FormatOptions::csv());
    let error = failure(b"a,b\n\"c", csv);
    assert_eq!(error.kind(), ErrorKind::UnterminatedQuotedField);
    assert_eq!(error.location(), Location { byte: 6, line: 2, record: 1, field: 0 });

    let error = failure(b"a,b\"c\n", csv);
    assert_eq!(error.kind(), ErrorKind::UnexpectedQuote);
    assert_eq!(error.location(), Location { byte: 3, line: 1, record: 0, field: 1 });

    let error = failure(b"\"a\"x\n", csv);
    assert_eq!(error.kind(), ErrorKind::UnexpectedByteAfterQuote(b'x'));
    assert_eq!(error.location().byte, 3);

    let error = failure(b"\"a\\x\"\n", settings(FormatOptions::backslash_csv()));
    assert_eq!(error.kind(), ErrorKind::InvalidEscape(b'x'));

    let error = failure(b"a,b\rc\r\n", settings(FormatOptions::rfc4180()));
    assert_eq!(error.kind(), ErrorKind::InvalidRecordEnding(b'\r'));

    let limited = ParserSettings::from_format(FormatOptions::csv(), Limits::new(5, 3, 2));
    assert_eq!(failure(b"ab,cd,\n", limited).kind(), ErrorKind::RecordTooLarge { limit: 5 });
    assert_eq!(failure(b"abcd\n", limited).kind(), ErrorKind::FieldTooLarge { limit: 3 });
    assert_eq!(failure(b"a,b,\n", limited).kind(), ErrorKind::TooManyFields { limit: 2 });

    let mut counted = csv;
    counted.field_count = FieldCount::MatchFirst;
    let error = failure(b"a,b\nc\n", counted);
    assert_eq!(error.kind(), ErrorKind::FieldCountMismatch { expected: 2, actual: 1 });

    let ambiguous = settings(FormatOptions::csv().delimiter(b'"'));
    assert_eq!(failure(b"a\n", ambiguous).kind(), ErrorKind::Configuration);
}

#[test]
fn a_lenient_reader_takes_more() {
    let lenient = settings(
        FormatOptions::csv().syntax(Syntax::Compatible(Recovery::permissive())),
    );
    assert_eq!(
        read(b"a\"b,\"c\" \t,d\n", lenient).ok(),
        Some(rows(&[&["a\"b", "c", "d"]]))
    );
    let unquoted = settings(
        FormatOptions::csv().syntax(Syntax::Compatible(Recovery::none())),
    );
    assert_eq!(read(b"\"a\",b\n", unquoted).ok(), Some(rows(&[&["\"a\"", "b"]])));
    let spaced = settings(FormatOptions::csv().skip_initial_space(true));
    assert_eq!(
        read(b"  a,  \"b\"\n", spaced).ok(),
        Some(rows(&[&["a", "b"]]))
    );
}

#[test]
fn nulls_are_told_from_empty_fields() {
    let mysql = settings(FormatOptions::csv().nulls(Nulls::Mysql));
    let mut parser = SliceParser::with_settings(b"\\N,\"\\N\",,x\n", mysql).expect("valid");
    let mut record = RecordStorage::new();
    assert_eq!(parser.next_record(&mut record).ok(), Some(true));
    let flags: Vec<Option<bool>> = (0..5).map(|index| record.is_null(index)).collect();
    assert_eq!(flags, [Some(true), Some(false), Some(false), Some(false), None]);

    let postgres = settings(FormatOptions::csv().nulls(Nulls::PostgresCsv));
    let mut parser = SliceParser::with_settings(b",\"\",x\n", postgres).expect("valid");
    assert_eq!(parser.next_record(&mut record).ok(), Some(true));
    let flags: Vec<Option<bool>> = (0..3).map(|index| record.is_null(index)).collect();
    assert_eq!(flags, [Some(true), Some(false), Some(false)]);
}

#[test]
fn every_path_reads_alike() {
    let documents: [&[u8]; 12] = [
        b"a,b,c\n",
        b"\"a\",b,\"c\"\n",
        b"a,\"b\",c,\"d\",e\n",
        b"\"a\",\"b\"\n\"c\",\"d\"\n",
        b"a,\"b\"\"c\",\n,,\n",
        b"a\r\n\"b\"\r\nc",
        b"a,\"b\nc\"\nd,e\n\"f\"",
        b"\"unterminated",
        b"a,b\"c\n",
        b"a,\"b\"x\n",
        b"\n\n\"\"\n",
        b"a,\"b\",c\nd,\"e\",f\ng,h,i\n\"j\",k\n",
    ];
    for document in documents {
        for force in [false, true] {
            let fast = settings(FormatOptions::csv());
            let mut general = fast;
            general.force_general_parser = force;
            match (read(document, fast), read(document, general)) {
                (Ok(left), Ok(right)) => assert_eq!(left, right),
                (Err(left), Err(right)) => {
                    assert_eq!(left.kind(), right.kind());
                    assert_eq!(left.location(), right.location());
                }
                (left, right) => panic!("{left:?} differs from {right:?}"),
            }
        }
    }
}

#[test]
fn a_record_is_read_from_its_own_bytes() {
    let record = b"a,\"b\nc\"\n";
    let csv = settings(FormatOptions::csv());
    let alone = read(record, csv).expect("one record");
    for (before, after) in [
        (b"".as_slice(), b"x\n".as_slice()),
        (b"p,q\n".as_slice(), b"".as_slice()),
        (b"\"p\nq\"\n".as_slice(), b"\"broken".as_slice()),
    ] {
        let mut document = before.to_vec();
        document.extend_from_slice(record);
        document.extend_from_slice(after);
        let mut parser = SliceParser::with_settings(&document, csv).expect("valid");
        parser
            .seek(Location { byte: before.len(), line: 1, record: 0, field: 0 })
            .expect("inside the document");
        let mut output = RecordStorage::new();
        assert_eq!(parser.next_record(&mut output).ok(), Some(true));
        assert_eq!(output.to_vecs(), alone[0]);
        let lines = record.iter().filter(|byte| **byte == b'\n').count() as u64;
        assert_eq!(
            parser.location(),
            Location { byte: before.len() + record.len(), line: 1 + lines, record: 1, field: 0 }
        );
    }
}

#[test]
fn a_seek_stays_inside_the_document() {
    let mut parser =
        SliceParser::with_settings(b"a\nb\n", settings(FormatOptions::csv())).expect("valid");
    let beyond = Location { byte: 5, line: 3, record: 2, field: 0 };
    let error = parser.seek(beyond).expect_err("there are four bytes");
    assert_eq!(error.kind(), ErrorKind::LocationOverflow);
    assert_eq!(error.location(), beyond);
    assert_eq!(parser.location(), Location::start());
}

#[test]
fn escaped_bytes_outside_quotes_are_read() {
    let escaped = settings(FormatOptions::python_escaped());
    let read_back = read(b"a\\,b,c\n", escaped).expect("an escaped delimiter");
    assert_eq!(read_back, rows(&[&["a,b", "c"]]));
    let mysql = settings(FormatOptions::mysql());
    let read_back = read(b"a\\tb\tc\n", mysql).expect("an escaped tab");
    assert_eq!(read_back, rows(&[&["a\tb", "c"]]));
    let unquoted = settings(FormatOptions::csv().escape(Escape::Unquoted(b'^')));
    let read_back = read(b"a^,b,c\n", unquoted).expect("an escaped delimiter");
    assert_eq!(read_back, rows(&[&["a,b", "c"]]));
}

#[test]
fn starts_are_found_without_keeping_fields() {
    let mut parser =
        SliceParser::with_settings(b"a\n\"b\nc\"\nd\n", settings(FormatOptions::csv()))
            .expect("valid");
    let mut scratch = RecordStorage::new();
    let mut starts = Vec::new();
    while let Some(start) = parser.next_start(&mut scratch).expect("well formed") {
        starts.push(start);
    }
    assert_eq!(starts, [0, 2, 8]);
}

#[test]
fn separators_of_several_bytes_are_read() {
    let format = FormatOptions::csv().delimiter_sequence(b"||").record_ending_sequence(b";--");
    assert_eq!(
        read(b"a|b||\"c||d;--\"||;--x;-y||z;--last", settings(format)).ok(),
        Some(rows(&[&["a|b", "c||d;--", ""], &["x;-y", "z"], &["last"]]))
    );
    let error = failure(b"\"a\"|b;--", settings(format));
    assert_eq!(error.kind(), ErrorKind::UnexpectedByteAfterQuote(b'|'));
    assert_eq!(error.location().byte, 3);
    let skipping = settings(
        format.blank_records(BlankRecords::Skip).comment(Some(b'#')),
    );
    assert_eq!(
        read(b";--#note;-;--a||b;--;--", skipping).ok(),
        Some(rows(&[&["a", "b"]]))
    );
    let lines = settings(FormatOptions::csv().delimiter_sequence(b"::"));
    assert_eq!(
        read(b"a::b\r\n:c::\"d\"\n", lines).ok(),
        Some(rows(&[&["a", "b"], &[":c", "d"]]))
    );
}

#[test]
fn a_failed_record_leaves_what_was_read_of_it() {
    let source = b"a,b\nc,d,\"e\"x,f\ng";
    let mut parser =
        SliceParser::with_settings(source, settings(FormatOptions::csv())).expect("valid format");
    let mut record = RecordStorage::new();
    assert_eq!(parser.next_record(&mut record).ok(), Some(true));
    for _ in 0..2 {
        let error = parser.next_record(&mut record).expect_err("a byte behind a quote");
        assert_eq!(error.kind(), ErrorKind::UnexpectedByteAfterQuote(b'x'));
        assert_eq!(record.to_vecs(), [b"c".as_slice(), b"d".as_slice(), b"e".as_slice()]);
        assert_eq!(parser.location().byte, 4);
        assert_eq!(parser.location().record, 1);
    }
}
