//! Writing records, and reading them back.

use coseva::byte_record::ByteRecord;
use coseva::config::{
    Escape, FieldCount, Limits, Nulls, Quoting, RecordEnding, WriteBom,
};
use coseva::emit::encoding::{is_number, mysql_code, Writing};
use coseva::emit::push_emitter::PushEmitter;
use coseva::error::ErrorKind;
use coseva::options::{EmitOptions, FormatOptions, ParserSettings};
use coseva::slice_parser::SliceParser;
use coseva::storage::RecordStorage;
use coseva::text_record::TextRecord;

fn written(format: FormatOptions, records: &[&[&[u8]]]) -> Option<Vec<u8>> {
    let mut emitter = PushEmitter::with_options(format, EmitOptions::new()).ok()?;
    for record in records {
        emitter.emit_record(record).ok()?;
    }
    Some(emitter.into_inner())
}

fn read_back(format: FormatOptions, document: &[u8]) -> Vec<Vec<Vec<u8>>> {
    let settings = ParserSettings::from_format(format, Limits::standard());
    let mut parser = SliceParser::with_settings(document, settings).expect("valid format");
    let mut record = RecordStorage::new();
    let mut records = Vec::new();
    while parser.next_record(&mut record).expect("well formed") {
        records.push(record.to_vecs());
    }
    records
}

#[test]
fn fields_are_quoted_where_they_must_be() {
    let records: [&[&[u8]]; 2] = [
        &[b"plain", b"a,b", b"say \"x\"", b"two\nlines"],
        &[b"", b"cr\rhere"],
    ];
    assert_eq!(
        written(FormatOptions::csv(), &records).as_deref(),
        Some(b"plain,\"a,b\",\"say \"\"x\"\"\",\"two\nlines\"\n,\"cr\rhere\"\n".as_slice())
    );
    assert_eq!(
        written(FormatOptions::rfc4180(), &[&[b"a", b"b"]]).as_deref(),
        Some(b"a,b\r\n".as_slice())
    );
}

#[test]
fn every_quoting_policy_writes_its_way() {
    let record: [&[&[u8]]; 1] = [&[b"1.5e3", b"x", b"a,b"]];
    let csv = FormatOptions::csv();
    assert_eq!(
        written(csv.quoting(Quoting::Always), &record).as_deref(),
        Some(b"\"1.5e3\",\"x\",\"a,b\"\n".as_slice())
    );
    assert_eq!(
        written(csv.quoting(Quoting::NonNumeric), &record).as_deref(),
        Some(b"1.5e3,\"x\",\"a,b\"\n".as_slice())
    );
    assert_eq!(
        written(csv.quoting(Quoting::Raw), &record).as_deref(),
        Some(b"1.5e3,x,a,b\n".as_slice())
    );
    let mut strict = PushEmitter::with_options(csv.quoting(Quoting::Never), EmitOptions::new())
        .expect("valid format");
    strict.emit_record(&[b"x", b"y"]).expect("nothing to quote");
    let error = strict.emit_record(&[b"x", b"a,b"]).expect_err("a quote is needed");
    assert_eq!(error.kind(), ErrorKind::Encode);
    assert_eq!(strict.buffer(), b"x,y\n");
}

#[test]
fn numbers_are_told_from_words() {
    for number in ["0", "-1", "+2.5", ".5", "5.", "1e9", "1.25E-3"] {
        assert!(is_number(number.as_bytes()), "{number}");
    }
    for word in ["", "-", ".", "1e", "1e+", "1.2.3", "0x1", " 1", "NaN"] {
        assert!(!is_number(word.as_bytes()), "{word}");
    }
}

#[test]
fn escapes_stand_before_what_they_guard() {
    assert_eq!(
        written(FormatOptions::backslash_csv(), &[&[b"a\"b\\c,", b"d"]]).as_deref(),
        Some(b"\"a\\\"b\\\\c,\",d\n".as_slice())
    );
    assert_eq!(
        written(FormatOptions::python_escaped(), &[&[b"a,b", b"c"]]).as_deref(),
        Some(b"a\\,b,c\n".as_slice())
    );
    assert_eq!(
        written(FormatOptions::mysql(), &[&[b"a\tb\nc\\d"]]).as_deref(),
        Some(b"a\\tb\\nc\\\\d\n".as_slice())
    );
    let codes: [(u8, u8); 7] =
        [(0, b'0'), (8, b'b'), (b'\n', b'n'), (b'\r', b'r'), (b'\t', b't'), (26, b'Z'), (b'q', b'q')];
    for (byte, code) in codes {
        assert_eq!(mysql_code(byte), code);
    }
}

#[test]
fn nulls_are_written_apart_from_empty_fields() {
    let row: [Option<&[u8]>; 3] = [None, Some(b""), Some(b"x")];
    for (format, expected) in [
        (FormatOptions::postgres_copy_csv(), b",\"\",x\n".as_slice()),
        (FormatOptions::mysql(), b"\\N\t\tx\n".as_slice()),
        (FormatOptions::csv(), b",,x\n".as_slice()),
    ] {
        let mut emitter =
            PushEmitter::with_options(format, EmitOptions::new()).expect("valid format");
        emitter.emit_nullable_record(&row).expect("encodable");
        assert_eq!(emitter.buffer(), expected);
    }
}

#[test]
fn a_mark_stands_before_the_first_record_alone() {
    let marked = FormatOptions::csv().write_bom(WriteBom::Emit);
    assert_eq!(
        written(marked, &[&[b"a"], &[b"b"]]).as_deref(),
        Some(b"\xEF\xBB\xBFa\nb\n".as_slice())
    );
    assert_eq!(written(marked, &[]).as_deref(), Some(b"".as_slice()));
}

#[test]
fn separators_of_several_bytes_are_written() {
    let wide = FormatOptions::csv()
        .delimiter_sequence(b"||")
        .record_ending_sequence(b";;");
    assert_eq!(
        written(wide, &[&[b"a", b"b"], &[b"c"]]).as_deref(),
        Some(b"a||b;;c;;".as_slice())
    );
}

#[test]
fn the_number_of_fields_is_held_to_the_option() {
    let matching = EmitOptions::new().field_count(FieldCount::MatchFirst);
    let mut emitter =
        PushEmitter::with_options(FormatOptions::csv(), matching).expect("valid format");
    emitter.emit_record(&[b"a", b"b"]).expect("the first record fixes the number");
    let error = emitter.emit_record(&[b"c"]).expect_err("one field of two");
    assert_eq!(error.kind(), ErrorKind::FieldCountMismatch { expected: 2, actual: 1 });
    assert_eq!(emitter.into_inner(), b"a,b\n");

    let exact = EmitOptions::new().field_count(FieldCount::Exact(1));
    let mut emitter =
        PushEmitter::with_options(FormatOptions::csv(), exact).expect("valid format");
    let error = emitter.emit_record(&[b"a", b"b"]).expect_err("two fields of one");
    assert_eq!(error.kind(), ErrorKind::FieldCountMismatch { expected: 1, actual: 2 });
    emitter.emit_record(&[b"c"]).expect("one field");
    assert_eq!(emitter.buffer(), b"c\n");
}

#[test]
fn records_of_every_kind_are_emitted() {
    let mut bytes = ByteRecord::new();
    bytes.push_field(b"a");
    bytes.push_null();
    let mut text = TextRecord::new();
    text.push_field("\u{e9}");
    text.push_null();
    let mut emitter = PushEmitter::with_options(FormatOptions::mysql(), EmitOptions::new())
        .expect("valid format");
    emitter.emit_byte_record(&bytes).expect("encodable");
    emitter.emit_text_record(&text).expect("encodable");
    assert_eq!(emitter.buffer(), b"a\t\\N\n\xC3\xA9\t\\N\n");
    emitter.discard(5);
    assert_eq!(emitter.buffer(), b"\xC3\xA9\t\\N\n");
    emitter.clear();
    assert!(emitter.is_empty());
}

#[test]
fn an_ambiguous_format_has_no_emitter() {
    for format in [
        FormatOptions::csv().delimiter(b'"'),
        FormatOptions::csv().quote(b'\n'),
        FormatOptions::csv().escape(Escape::Backslash(b',')),
        FormatOptions::csv().record_ending(RecordEnding::Byte(b',')),
    ] {
        let error = PushEmitter::with_options(format, EmitOptions::new())
            .err()
            .expect("two roles for one byte");
        assert_eq!(error.kind(), ErrorKind::Configuration);
    }
}

#[test]
fn what_is_written_is_read_back() {
    let records: [&[&[u8]]; 4] = [
        &[b"a", b"", b"b c"],
        &[b"\"", b",", b"\n", b"\r", b"\\", b"\t", b"#", b";", b"|"],
        &[b"#lead", b" padded "],
        &[b"\xEF\xBB", b"\xFF\x00"],
    ];
    for format in [
        FormatOptions::csv(),
        FormatOptions::tsv(),
        FormatOptions::semicolon(),
        FormatOptions::pipe(),
        FormatOptions::backslash_csv(),
        FormatOptions::backslash_tsv(),
        FormatOptions::commented_csv(),
        FormatOptions::python_escaped(),
        FormatOptions::rfc4180(),
        FormatOptions::excel(),
        FormatOptions::postgres_copy_csv(),
        FormatOptions::mysql(),
        FormatOptions::csv().quoting(Quoting::Always),
        FormatOptions::csv().quoting(Quoting::NonNumeric),
        FormatOptions::csv().nulls(Nulls::PostgresCsv),
        FormatOptions::csv().delimiter_sequence(b"::"),
        FormatOptions::csv().delimiter_sequence(b"||").record_ending_sequence(b";;"),
        FormatOptions::rfc4180().delimiter_sequence(b",\n,"),
        FormatOptions::backslash_csv().record_ending_sequence(b"\n--\n"),
    ] {
        let document = written(format, &records).expect("encodable");
        assert_eq!(read_back(format, &document), records);
    }
}

#[test]
fn spaces_behind_delimiters_are_ignored_in_one_format() {
    let records: [&[&[u8]]; 2] = [&[b"a", b"b c "], &[b"\"", b",", b""]];
    let format = FormatOptions::python_csv();
    let document = written(format, &records).expect("encodable");
    assert_eq!(read_back(format, &document), records);
    assert_eq!(read_back(format, b" a,  b ,\"c\"\n"), [vec![
        b"a".to_vec(),
        b"b ".to_vec(),
        b"c".to_vec()
    ]]);
}

#[test]
fn a_document_is_the_records_in_order() {
    let writing = Writing::of(FormatOptions::csv());
    let mut parts = Vec::new();
    assert!(writing.write_record(&mut parts, &[Some(b"a"), Some(b"b,c")]));
    assert!(writing.write_record(&mut parts, &[Some(b"")]));
    assert_eq!(
        written(FormatOptions::csv(), &[&[b"a", b"b,c"], &[b""]]),
        Some(parts)
    );
}

#[test]
fn a_record_keeps_its_room_and_a_copy_takes_what_it_needs() {
    let mut record = ByteRecord::with_capacity(2, 4096);
    record.push_field(b"a");
    record.push_null();
    let copy = record.clone();
    assert_eq!((copy.len(), copy.get(0), copy.is_null(1)), (2, Some(b"a".as_slice()), true));
    assert!(copy.byte_capacity() < 4096);
    record.clear();
    assert!(record.is_empty());
    assert!(record.byte_capacity() >= 4096);

    let mut emitter = PushEmitter::with_options(FormatOptions::csv(), EmitOptions::new())
        .expect("valid format");
    emitter.return_builder_record(record);
    let taken = emitter.take_builder_record();
    assert!(taken.is_empty());
    assert!(taken.byte_capacity() >= 4096);
    assert_eq!(emitter.take_builder_record().byte_capacity(), 0);
    emitter.return_builder_record(ByteRecord::with_capacity(0, 65_536));
    emitter.reclaim_scratch();
    assert_eq!(emitter.take_builder_record().byte_capacity(), 0);
}

#[test]
fn storage_remembers_how_many_fields_it_was_made_for() {
    let mut storage = RecordStorage::with_capacity(2, 8);
    assert_eq!(storage.field_capacity(), 2);
    for _ in 0..3 {
        storage.append_field(b"x");
    }
    assert_eq!(storage.field_capacity(), 3);
    storage.clear();
    assert_eq!(storage.field_capacity(), 2);
    assert_eq!(RecordStorage::new().field_capacity(), 0);
}
