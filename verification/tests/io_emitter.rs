//! Emitters that hand their output to a sink.

use coseva::byte_record::ByteRecord;
use coseva::config::{FieldCount, RecordEnding, WriteBom};
use coseva::error::{ErrorKind, IoError, IoErrorKind, Location};
use coseva::format::Csv;
use coseva::io_emitter::{
    confirm, document_state, existing_file_field_count, write_confirmed, Confirmation,
    DocumentState, IoEmitter, Recording, Sink,
};
use coseva::options::{EmitOptions, FormatOptions};
use coseva::text_record::TextRecord;

fn small_threshold_emitter() -> IoEmitter<Vec<u8>> {
    IoEmitter::with_options(
        Vec::new(),
        FormatOptions::csv(),
        EmitOptions::new().buffer_capacity(64),
    )
    .expect("valid options")
}

struct Zero;

impl Sink for Zero {
    fn write(&mut self, _buffer: &[u8]) -> Result<usize, IoError> {
        Ok(0)
    }

    fn flush(&mut self) -> Result<(), IoError> {
        Ok(())
    }
}

#[derive(Default)]
struct Partial {
    bytes: Vec<u8>,
    calls: usize,
}

impl Sink for Partial {
    fn write(&mut self, buffer: &[u8]) -> Result<usize, IoError> {
        self.calls += 1;
        if self.calls == 1 {
            self.bytes.extend_from_slice(&buffer[..2]);
            Ok(2)
        } else {
            Err(IoError::new(IoErrorKind::BrokenPipe, "stopped"))
        }
    }

    fn flush(&mut self) -> Result<(), IoError> {
        Ok(())
    }
}

#[derive(Debug, Default)]
struct Counting {
    bytes: Vec<u8>,
    writes: usize,
}

impl Sink for Counting {
    fn write(&mut self, buffer: &[u8]) -> Result<usize, IoError> {
        self.writes += 1;
        self.bytes.extend_from_slice(buffer);
        Ok(buffer.len())
    }

    fn flush(&mut self) -> Result<(), IoError> {
        Ok(())
    }
}

struct RejectEmpty;

impl Sink for RejectEmpty {
    fn write(&mut self, buffer: &[u8]) -> Result<usize, IoError> {
        assert!(!buffer.is_empty(), "empty drains must not call the sink");
        Ok(buffer.len())
    }

    fn flush(&mut self) -> Result<(), IoError> {
        Ok(())
    }
}

#[derive(Debug, Default)]
struct OneThenFail {
    bytes: Vec<u8>,
    wrote: bool,
}

impl Sink for OneThenFail {
    fn write(&mut self, buffer: &[u8]) -> Result<usize, IoError> {
        if self.wrote {
            return Err(IoError::new(IoErrorKind::BrokenPipe, "stopped"));
        }
        self.wrote = true;
        self.bytes.push(buffer[0]);
        Ok(1)
    }

    fn flush(&mut self) -> Result<(), IoError> {
        Ok(())
    }
}

struct FlushFails;

impl Sink for FlushFails {
    fn write(&mut self, buffer: &[u8]) -> Result<usize, IoError> {
        Ok(buffer.len())
    }

    fn flush(&mut self) -> Result<(), IoError> {
        Err(IoError::new(IoErrorKind::Other, "no space left"))
    }
}

#[derive(Default)]
struct Interrupting {
    bytes: Vec<u8>,
    calls: usize,
}

impl Sink for Interrupting {
    fn write(&mut self, buffer: &[u8]) -> Result<usize, IoError> {
        self.calls += 1;
        if self.calls % 2 == 1 {
            return Err(IoError::new(IoErrorKind::Interrupted, "signal"));
        }
        self.bytes.push(buffer[0]);
        Ok(1)
    }

    fn flush(&mut self) -> Result<(), IoError> {
        Ok(())
    }
}

/// A sink that says what was asked of it, in order.
#[derive(Debug, Default)]
struct Recorder {
    bytes: Vec<u8>,
    settled: usize,
    flushes: usize,
}

impl Sink for Recorder {
    fn write(&mut self, buffer: &[u8]) -> Result<usize, IoError> {
        self.bytes.extend_from_slice(buffer);
        Ok(buffer.len())
    }

    fn flush(&mut self) -> Result<(), IoError> {
        self.settled = self.bytes.len();
        self.flushes += 1;
        Ok(())
    }
}

fn record(fields: &[&str]) -> ByteRecord {
    let mut record = ByteRecord::new();
    for field in fields {
        record.push_field(field.as_bytes());
    }
    record
}

#[test]
fn sustained_oversized_records_keep_their_buffer_capacity() {
    let mut emitter = small_threshold_emitter();
    let field = "x".repeat(1024);
    let record = [field.as_bytes()];

    emitter.emit_record(&record).expect("first record");
    emitter.emit_record(&record).expect("second record");
    let grown = emitter.core.buffer_mut().capacity();
    emitter.emit_record(&record).expect("third record");

    assert!(
        emitter.core.buffer_mut().capacity() >= grown,
        "a steady stream of oversized records must not reallocate every time"
    );
    assert!(
        grown >= 1024,
        "capacity should have grown to hold the record"
    );
}

#[test]
fn write_confirmed_reports_exact_partial_progress_and_errors() {
    let (written, error) =
        write_confirmed(&mut Zero, b"abc").expect_err("zero writes make no progress");
    assert_eq!(written, 0);
    assert_eq!(error.kind(), IoErrorKind::WriteZero);
    assert_eq!(
        error.message(),
        "CSV sink accepted no bytes of the buffered output",
    );

    let mut partial = Partial::default();
    let (written, error) =
        write_confirmed(&mut partial, b"abcdef").expect_err("second write fails");
    assert_eq!(written, 2);
    assert_eq!(partial.bytes, b"ab");
    assert_eq!(error.kind(), IoErrorKind::BrokenPipe);
}

#[test]
fn constructor_and_threshold_boundary_keep_exact_buffer_state() {
    let mut emitter = IoEmitter::with_options(
        Counting::default(),
        FormatOptions::csv(),
        EmitOptions::new().buffer_capacity(2),
    )
    .expect("emitter");
    assert_eq!(emitter.threshold, 2);
    assert_eq!(emitter.previous_drain, 0);
    assert_eq!(emitter.core.as_vec().capacity(), 2);

    emitter.emit_record(&[b"x"]).expect("two-byte record");
    assert_eq!(
        emitter.get_ref().writes,
        1,
        "equality reaches the threshold"
    );
    assert_eq!(emitter.get_ref().bytes, b"x\n");
    assert!(emitter.core.is_empty());
}

#[test]
fn drain_skips_empty_buffers_and_reclaims_output_and_builder_scratch() {
    let mut emitter = IoEmitter::with_options(
        RejectEmpty,
        FormatOptions::csv(),
        EmitOptions::new().buffer_capacity(8),
    )
    .expect("emitter");
    let mut builder = ByteRecord::with_capacity(4, 64 * 1024);
    builder.push_field(b"x");
    emitter.core.return_builder_record(builder);
    emitter.core.buffer_mut().reserve_exact(1024);
    emitter.previous_drain = 31;
    let empty_capacity = emitter.core.buffer_mut().capacity();
    let returned = emitter.core.take_builder_record();
    let empty_scratch = returned.byte_capacity();
    emitter.core.return_builder_record(returned);
    emitter.drain().expect("empty drain");
    assert_eq!(emitter.core.buffer_mut().capacity(), empty_capacity);
    let returned = emitter.core.take_builder_record();
    assert_eq!(returned.byte_capacity(), empty_scratch);
    emitter.core.return_builder_record(returned);
    assert_eq!(emitter.previous_drain, 31);

    let recycled = emitter.core.take_builder_record();
    let scratch = recycled.byte_capacity();
    assert!(scratch >= 64 * 1024);
    emitter.core.return_builder_record(recycled);

    emitter.core.buffer_mut().extend_from_slice(b"abc");
    let grown = emitter.core.buffer_mut().capacity();
    assert!(grown > emitter.threshold);
    emitter.drain().expect("drain");
    assert!(emitter.core.buffer_mut().capacity() <= 31);
    assert!(emitter.core.buffer_mut().capacity() < grown);
    let reclaimed = emitter.core.take_builder_record();
    assert!(reclaimed.byte_capacity() < scratch);
    emitter.core.return_builder_record(reclaimed);
    assert_eq!(emitter.previous_drain, 3);
}

#[test]
fn failed_emitter_message_and_retained_suffix_are_exact() {
    let mut emitter = IoEmitter::with_options(
        OneThenFail::default(),
        FormatOptions::csv(),
        EmitOptions::new().buffer_capacity(1),
    )
    .expect("emitter");
    let error = emitter
        .emit_record(&[b"abc"])
        .expect_err("partial write fails the emitter");
    assert_eq!(error.kind(), ErrorKind::Io(IoErrorKind::BrokenPipe));
    assert_eq!(emitter.pending(), b"bc\n");
    assert_eq!(emitter.get_ref().bytes, b"a");
    assert_eq!(
        emitter
            .emit_record(&[b"later"])
            .expect_err("failure is latched")
            .message(),
        "CSV writer stopped after an earlier I/O error",
    );
}

#[test]
fn take_sink_discards_pending_core_bytes_and_scratch() {
    let mut emitter = IoEmitter::with_options(
        Vec::<u8>::new(),
        FormatOptions::csv(),
        EmitOptions::new().buffer_capacity(64),
    )
    .expect("emitter");
    emitter.emit_record(&[b"pending"]).expect("buffered record");
    assert!(!emitter.core.is_empty());
    let sink = emitter.take_sink();
    assert!(sink.is_empty());
    assert!(emitter.core.is_empty());
    assert!(emitter.output.is_none());
}

#[test]
fn pending_io_record_debug_and_drop_return_builder_storage() {
    let mut emitter =
        IoEmitter::with_options(Vec::<u8>::new(), FormatOptions::csv(), EmitOptions::new())
            .expect("emitter");
    let mut pending = emitter.begin_record();
    pending.write_field(&vec![b'x'; 1024]).expect("field");
    pending.write_field(b"two").expect("field");
    assert_eq!(pending.pending_fields(), 2);
    drop(pending);
    assert!(emitter.pending().is_empty());
    let recycled = emitter.core.take_builder_record();
    assert_eq!(recycled.len(), 0);
    assert!(recycled.byte_capacity() >= 1024);
    emitter.core.return_builder_record(recycled);
}

#[test]
fn document_state_accepts_exact_terminators() {
    let cases = [
        (b"\n".as_slice(), FormatOptions::csv().dialect),
        (
            b"\r\n".as_slice(),
            FormatOptions::csv().record_ending(RecordEnding::CrLf).dialect,
        ),
    ];
    for (bytes, dialect) in cases {
        assert_eq!(
            document_state(bytes, dialect).expect("complete record"),
            DocumentState::HasRecords,
        );
    }
}

#[test]
fn a_document_is_empty_marked_complete_or_cut_off() {
    let dialect = FormatOptions::csv().dialect;
    assert_eq!(document_state(b"", dialect).ok(), Some(DocumentState::Empty));
    assert_eq!(
        document_state(b"\xEF\xBB\xBF", dialect).ok(),
        Some(DocumentState::BomOnly)
    );
    let error = document_state(b"a,b", dialect).expect_err("the record is not ended");
    assert_eq!(error.kind(), ErrorKind::UnterminatedRecord);
    let crlf = FormatOptions::csv().record_ending(RecordEnding::CrLf).dialect;
    let error = document_state(b"a,b\n", crlf).expect_err("the record is not ended");
    assert_eq!(error.kind(), ErrorKind::UnterminatedRecord);
}

#[test]
fn append_match_first_starts_empty_and_bom_only_documents() {
    for initial in [b"".as_slice(), b"\xEF\xBB\xBF".as_slice()] {
        let (mut emitter, resuming) = IoEmitter::append_resuming(
            initial.to_vec(),
            initial,
            FormatOptions::csv().write_bom(WriteBom::Emit),
            EmitOptions::new()
                .field_count(FieldCount::MatchFirst)
                .buffer_capacity(17),
        )
        .expect("append emitter");
        assert!(!resuming);
        assert_eq!(emitter.threshold, 17);
        emitter.emit_record(&[b"a", b"b"]).expect("first width");
        assert_eq!(
            emitter
                .emit_record(&[b"one"])
                .expect_err("first record established width")
                .kind(),
            ErrorKind::FieldCountMismatch {
                expected: 2,
                actual: 1,
            },
        );
        let output = match emitter.into_inner() {
            Ok(output) => output,
            Err(_) => panic!("a vector takes everything"),
        };
        assert_eq!(output, b"\xEF\xBB\xBFa,b\n");
    }

    let (mut emitter, resuming) = IoEmitter::append_resuming(
        Vec::new(),
        b",value\n",
        FormatOptions::csv(),
        EmitOptions::new().field_count(FieldCount::MatchFirst),
    )
    .expect("append emitter");
    assert!(resuming);
    assert_eq!(
        emitter
            .emit_record(&[b"one"])
            .expect_err("the leading empty field counts")
            .kind(),
        ErrorKind::FieldCountMismatch {
            expected: 2,
            actual: 1,
        },
    );
    assert!(emitter.into_inner_unflushed().is_empty());
}

#[test]
fn the_first_record_of_a_document_is_counted() {
    let csv = FormatOptions::csv();
    assert_eq!(existing_file_field_count(b"", csv).ok(), Some(None));
    assert_eq!(existing_file_field_count(b"a,\"b,c\"\nd\n", csv).ok(), Some(Some(2)));
    let long = csv.delimiter_sequence(b"||").record_ending_sequence(b";--");
    assert_eq!(existing_file_field_count(b"a||b|c||d;--x;--", long).ok(), Some(Some(3)));
    let error = existing_file_field_count(b"a\"b\n", csv).expect_err("a stray quote");
    assert_eq!(error.kind(), ErrorKind::UnexpectedQuote);
}

#[test]
fn appended_records_follow_the_document() {
    let document = b"a,b\n1,2\n";
    let (mut emitter, resuming) = IoEmitter::append_resuming(
        document.to_vec(),
        document,
        FormatOptions::csv().write_bom(WriteBom::Emit),
        EmitOptions::new(),
    )
    .expect("append emitter");
    assert!(resuming);
    emitter.emit_record(&[b"3", b"4"]).expect("record");
    let output = match emitter.into_inner() {
        Ok(output) => output,
        Err(_) => panic!("a vector takes everything"),
    };
    assert_eq!(output, b"a,b\n1,2\n3,4\n");
}

#[test]
fn a_type_can_fix_the_format() {
    let mut emitter =
        IoEmitter::new::<Csv>(Vec::new(), EmitOptions::new()).expect("a built-in format is valid");
    emitter.encode_header(&record(&["a", "b"])).expect("header");
    emitter.encode(&record(&["1", "x,y"])).expect("record");
    emitter
        .emit_nullable_record(&[Some(b"2"), None])
        .expect("record");
    let mut text = TextRecord::new();
    text.push_field("3");
    text.push_field("z");
    emitter.emit_text_record(&text).expect("record");
    emitter.flush().expect("flush");
    assert_eq!(emitter.get_ref(), b"a,b\n1,\"x,y\"\n2,\n3,z\n");

    let error = IoEmitter::new::<Csv>(Vec::<u8>::new(), EmitOptions::new().buffer_capacity(0))
        .expect_err("nothing could ever be collected");
    assert_eq!(error.kind(), ErrorKind::Configuration);
    let error = IoEmitter::with_options(
        Vec::<u8>::new(),
        FormatOptions::csv().delimiter(b'"'),
        EmitOptions::new(),
    )
    .expect_err("the dialect contradicts itself");
    assert_eq!(error.kind(), ErrorKind::Configuration);
}

#[test]
fn a_header_goes_before_the_first_named_record() {
    let mut emitter = IoEmitter::with_options(
        Vec::new(),
        FormatOptions::csv(),
        EmitOptions::new().has_headers(true),
    )
    .expect("emitter");
    let names = record(&["city", "year"]);
    emitter.serialize(&names, &record(&["Oslo", "1048"])).expect("record");
    emitter.serialize(&names, &record(&["Rome", "-753"])).expect("record");
    emitter.flush().expect("flush");
    assert_eq!(emitter.get_ref(), b"city,year\nOslo,1048\nRome,-753\n");

    let mut failing = IoEmitter::with_options(
        Zero,
        FormatOptions::csv(),
        EmitOptions::new().has_headers(true).buffer_capacity(1),
    )
    .expect("emitter");
    let error = failing
        .serialize(&names, &record(&["Oslo", "1048"]))
        .expect_err("the sink takes nothing");
    assert_eq!(error.kind(), ErrorKind::Io(IoErrorKind::WriteZero));
    assert_eq!(error.location(), Location::start());
}

#[test]
fn a_record_is_built_field_by_field() {
    let mut emitter = small_threshold_emitter();
    let mut pending = emitter.begin_record();
    pending.write_field(b"one").expect("field");
    pending.write_null().expect("field");
    assert_eq!(pending.pending_fields(), 2);
    pending.finish().expect("record");
    assert_eq!(emitter.pending(), b"one,\n");
}

#[test]
fn a_sink_that_cannot_flush_hands_the_emitter_back() {
    let mut emitter = IoEmitter::with_options(
        FlushFails,
        FormatOptions::csv(),
        EmitOptions::new(),
    )
    .expect("emitter");
    emitter.emit_record(&[b"x"]).expect("record");
    let error = match emitter.into_inner() {
        Ok(_) => panic!("the flush fails"),
        Err(error) => error,
    };
    assert_eq!(error.error().message(), "CSV error at byte 0, line 1, record 0, field 0: no space left");
    let emitter = error.into_inner();
    assert!(emitter.failed);
    assert!(emitter.pending().is_empty());
    assert_eq!(
        emitter.check_failed().expect_err("failure is latched").kind(),
        ErrorKind::EmitterFailed
    );
}

#[test]
fn interruptions_are_retried() {
    let mut sink = Interrupting::default();
    assert!(write_confirmed(&mut sink, b"abc").is_ok());
    assert_eq!(sink.bytes, b"abc");
    assert_eq!(sink.calls, 6);
}

#[test]
fn answers_of_a_sink_are_understood() {
    assert!(matches!(confirm(2, 5, Ok(3)), Confirmation::Taken(5)));
    assert!(matches!(confirm(2, 5, Ok(9)), Confirmation::Taken(5)));
    assert!(matches!(confirm(2, 5, Ok(1)), Confirmation::Taken(3)));
    assert!(matches!(
        confirm(2, 5, Err(IoError::new(IoErrorKind::Interrupted, "signal"))),
        Confirmation::Taken(2)
    ));
    match confirm(2, 5, Ok(0)) {
        Confirmation::Failed(error) => assert_eq!(error.kind(), IoErrorKind::WriteZero),
        other => panic!("nothing was taken: {other:?}"),
    }
    match confirm(2, 5, Err(IoError::new(IoErrorKind::Other, "gone"))) {
        Confirmation::Failed(error) => assert_eq!(error.message(), "gone"),
        other => panic!("the sink failed: {other:?}"),
    }
}

#[test]
fn all_values_are_emitted_up_to_the_first_that_cannot_be() {
    let mut emitter = IoEmitter::with_options(
        Vec::new(),
        FormatOptions::csv(),
        EmitOptions::new().field_count(FieldCount::Exact(2)).buffer_capacity(1),
    )
    .expect("emitter");
    let values = [record(&["1", "2"]), record(&["3"]), record(&["4", "5"])];
    let error = emitter.encode_all(&values).expect_err("the second value is too short");
    assert_eq!(
        error.kind(),
        ErrorKind::FieldCountMismatch { expected: 2, actual: 1 }
    );
    assert_eq!(emitter.get_ref(), b"1,2\n");
    emitter.get_mut().clear();
    emitter.encode_all(&values[2..]).expect("the third value fits");
    assert_eq!(emitter.get_ref(), b"4,5\n");
}

#[test]
fn a_flush_settles_what_the_sink_took() {
    let mut emitter = IoEmitter::new::<Csv>(Recorder::default(), EmitOptions::new())
        .expect("a built-in format is valid");
    emitter.emit_record(&[b"a", b"b"]).expect("record");
    assert!(emitter.get_ref().bytes.is_empty());
    emitter.flush().expect("flush");
    assert_eq!(emitter.get_ref().bytes, b"a,b\n");
    assert_eq!(emitter.get_ref().settled, 4);
    assert_eq!(emitter.get_ref().flushes, 1);
    emitter.flush().expect("nothing is pending");
    assert_eq!(emitter.get_ref().flushes, 2);
    emitter.emit_record(&[b"c", b"d"]).expect("record");
    let sink = match emitter.into_inner() {
        Ok(sink) => sink,
        Err(_) => panic!("the recorder takes everything"),
    };
    assert_eq!(sink.bytes, b"a,b\nc,d\n");
    assert_eq!(sink.settled, 8);
    assert_eq!(sink.flushes, 3);
}

#[test]
fn a_refused_record_takes_its_header_back() {
    let mut emitter = IoEmitter::with_options(
        Vec::new(),
        FormatOptions::csv(),
        EmitOptions::new().has_headers(true).field_count(FieldCount::MatchFirst),
    )
    .expect("emitter");
    let names = record(&["city", "year"]);
    let error = emitter
        .serialize(&names, &record(&["Oslo"]))
        .expect_err("the record is shorter than its header");
    assert_eq!(error.kind(), ErrorKind::FieldCountMismatch { expected: 2, actual: 1 });
    assert!(emitter.pending().is_empty());
    emitter.serialize(&names, &record(&["Oslo", "1048"])).expect("record");
    assert_eq!(emitter.pending(), b"city,year\nOslo,1048\n");
}

#[test]
fn records_are_emitted_alike_however_they_are_handed_over() {
    let values = [record(&["1", "a,b"]), record(&["", "x"]), record(&["2", ""])];
    let options = EmitOptions::new().buffer_capacity(8);
    let fresh = || {
        IoEmitter::with_options(Vec::new(), FormatOptions::csv(), options).expect("emitter")
    };
    let mut whole = fresh();
    whole.encode_all(&values).expect("records");
    let mut each = fresh();
    let mut bytes = fresh();
    let mut plain = fresh();
    let mut built = fresh();
    for value in &values {
        each.encode(value).expect("record");
        bytes.emit_byte_record(value).expect("record");
        let fields: Vec<&[u8]> =
            (0..value.len()).map(|at| value.get(at).expect("a field")).collect();
        plain.emit_record(&fields).expect("record");
        let mut pending = built.begin_record();
        for field in &fields {
            pending.write_field(field).expect("field");
        }
        pending.finish().expect("record");
    }
    assert_eq!(whole.get_ref(), b"1,\"a,b\"\n");
    assert_eq!(whole.pending(), b",x\n2,\n");
    for other in [&each, &bytes, &plain, &built] {
        assert_eq!(other.get_ref(), whole.get_ref());
        assert_eq!(other.pending(), whole.pending());
    }
}

#[test]
fn sinks_that_answer_alike_are_handed_the_same() {
    let options = EmitOptions::new().buffer_capacity(4);
    let emitter = || {
        IoEmitter::with_options(
            Recording::new(OneThenFail::default()),
            FormatOptions::csv(),
            options,
        )
        .expect("valid options")
    };
    let rows = [record(&["1"]), record(&["2", "x"]), record(&["3"])];
    let mut at_once = emitter();
    let first = at_once.encode_all(&rows).expect_err("the sink fails");
    let mut one_by_one = emitter();
    let second = rows.iter().find_map(|row| one_by_one.encode(row).err()).expect("the sink fails");
    let mut as_fields = emitter();
    as_fields.emit_record(&[b"1"]).expect("it waits");
    let third = as_fields.emit_record(&[b"2", b"x"]).expect_err("the sink fails");
    let mut built = emitter();
    built.emit_nullable_record(&[Some(b"1")]).expect("it waits");
    let mut pending = built.begin_record();
    pending.write_field(b"2").expect("a field");
    pending.write_field(b"x").expect("a field");
    let fourth = pending.finish().expect_err("the sink fails");
    for error in [first, second, third, fourth] {
        assert_eq!(error.kind(), ErrorKind::Io(IoErrorKind::BrokenPipe));
    }
    for emitter in [at_once, one_by_one, as_fields, built] {
        assert_eq!(emitter.get_ref().sink.bytes, b"1");
        assert_eq!(emitter.pending(), b"\n2,x\n");
    }
}
