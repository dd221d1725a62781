//! Writing whole documents.

use coseva::byte_record::ByteRecord;
use coseva::config::{FieldCount, Quoting, WriteBom};
use coseva::emit::push_emitter::PushEmitter;
use coseva::error::{ErrorKind, IoError, IoErrorKind};
use coseva::generate::{
    buffer_ready, encode_append, encode_to_segments, encode_to_vec, encode_to_writer,
    segment_preamble, segment_would_overflow, serialize_to_vec, serialize_to_writer,
    BufferThreshold, BufferedSize, SegmentLimit, SegmentProgress, Segmenter,
};
use coseva::io_emitter::Sink;
use coseva::options::{EmitOptions, FormatOptions};

fn record(fields: &[&str]) -> ByteRecord {
    let mut record = ByteRecord::new();
    for field in fields {
        record.push_field(field.as_bytes());
    }
    record
}

fn names() -> ByteRecord {
    record(&["a", "b"])
}

struct Broken;

impl Sink for Broken {
    fn write(&mut self, _bytes: &[u8]) -> Result<usize, IoError> {
        Err(IoError::new(IoErrorKind::BrokenPipe, "closed"))
    }

    fn flush(&mut self) -> Result<(), IoError> {
        Ok(())
    }
}

/// A sink that knows how much of it was flushed.
#[derive(Debug, Default)]
struct Settling {
    bytes: Vec<u8>,
    settled: usize,
}

impl Sink for Settling {
    fn write(&mut self, bytes: &[u8]) -> Result<usize, IoError> {
        self.bytes.extend_from_slice(bytes);
        Ok(bytes.len())
    }

    fn flush(&mut self) -> Result<(), IoError> {
        self.settled = self.bytes.len();
        Ok(())
    }
}

#[test]
fn segment_boundaries_and_generated_output_are_exact() {
    assert!(SegmentLimit::new(0).is_err());
    assert_eq!(SegmentLimit::new(12), Ok(SegmentLimit(12)));
    assert!(!segment_would_overflow(
        SegmentProgress {
            written: 100,
            has_records: false,
        },
        BufferedSize(100),
        SegmentLimit(1),
    ));
    let progress = SegmentProgress {
        written: 4,
        has_records: true,
    };
    assert!(!segment_would_overflow(
        progress,
        BufferedSize(8),
        SegmentLimit(12),
    ));
    assert!(segment_would_overflow(
        progress,
        BufferedSize(9),
        SegmentLimit(12),
    ));
    assert!(!buffer_ready(BufferedSize(31), BufferThreshold(32)));
    assert!(buffer_ready(BufferedSize(32), BufferThreshold(32)));

    let options = EmitOptions::new().has_headers(false);
    let mut core = PushEmitter::with_options(FormatOptions::csv(), options)
        .expect("the test emitter is valid");
    core.emit_byte_record(&record(&["1", "x"]))
        .expect("the test row encodes");
    assert_eq!(BufferedSize::from_emitter(&core), BufferedSize(4));
    assert_eq!(
        BufferThreshold::from_options(&options),
        BufferThreshold(options.buffer_capacity as u64),
    );
    assert_eq!(
        SegmentProgress::from_preamble(b"header\n"),
        SegmentProgress {
            written: 7,
            has_records: false,
        },
    );

    let rows = [
        record(&["1", "x"]),
        record(&["2", "x"]),
        record(&["3", "x"]),
        record(&["4", "x"]),
    ];
    let segments = encode_to_segments(
        &names(),
        &rows,
        12,
        FormatOptions::csv(),
        EmitOptions::new().has_headers(true).buffer_capacity(4),
    )
    .expect("segments are generated");

    assert_eq!(segments.len(), 2);
    assert_eq!(segments[0], b"a,b\n1,x\n2,x\n");
    assert_eq!(segments[1], b"a,b\n3,x\n4,x\n");
}

fn length_before_second_record(capacity: usize) -> usize {
    let options = EmitOptions::new()
        .has_headers(false)
        .buffer_capacity(capacity);
    let mut segmenter =
        Segmenter::new(b"", 100, FormatOptions::csv(), options).expect("the limit is not zero");
    let step = segmenter.push(&record(&["1"])).expect("the record is written");
    assert!(step.finished.is_none());
    step.bytes.len()
}

#[test]
fn segment_buffer_threshold_controls_when_bytes_reach_the_file() {
    assert_eq!(length_before_second_record(8), 0);
    assert_eq!(length_before_second_record(2), 2);
}

#[test]
fn zero_segment_size_reports_the_exact_configuration_error() {
    let error = encode_to_segments(
        &ByteRecord::new(),
        &[],
        0,
        FormatOptions::csv(),
        EmitOptions::new(),
    )
    .expect_err("zero is not a valid segment size");
    assert_eq!(error.kind(), ErrorKind::Configuration);
    assert_eq!(error.message(), "segment size must be greater than zero");
}

#[test]
fn test_serialize_to_vec() {
    let items = [record(&["a", "1"]), record(&["b", "2"])];
    let document = serialize_to_vec(&names(), &items, FormatOptions::csv(), EmitOptions::new())
        .expect("the records are written");
    let sink = serialize_to_writer(
        Vec::new(),
        &names(),
        &items,
        FormatOptions::csv(),
        EmitOptions::new(),
    )
    .expect("the records are written");
    assert_eq!(sink, document);
}

#[test]
fn a_serialized_document_has_a_header_only_if_it_has_records() {
    let options = EmitOptions::new().has_headers(true);
    let csv = FormatOptions::csv();
    assert_eq!(
        serialize_to_vec(&names(), &[], csv, options).ok(),
        Some(Vec::new())
    );
    assert_eq!(
        encode_to_vec(&names(), &[], csv, options).ok(),
        Some(b"a,b\n".to_vec())
    );
    assert_eq!(
        serialize_to_vec(&names(), &[record(&["1", "2"])], csv, options).ok(),
        Some(b"a,b\n1,2\n".to_vec())
    );
}

#[test]
fn documents_are_refused_with_their_reason() {
    let items = [record(&["1", "x"])];
    let invalid = FormatOptions::csv().delimiter(b'"').quote(b'"');
    let options = EmitOptions::new();

    let error = encode_to_vec(&names(), &items, invalid, options).expect_err("invalid format");
    assert_eq!(error.kind(), ErrorKind::Configuration);
    let failure = encode_to_writer(b"kept".to_vec(), &names(), &items, invalid, options)
        .expect_err("invalid format");
    assert_eq!(failure.error().kind(), ErrorKind::Configuration);
    assert_eq!(failure.into_inner(), b"kept");
    let error =
        encode_to_segments(&names(), &items, 100, invalid, options).expect_err("invalid format");
    assert_eq!(error.kind(), ErrorKind::Configuration);

    let mismatch = ErrorKind::FieldCountMismatch { expected: 5, actual: 2 };
    for has_headers in [false, true] {
        let counted = EmitOptions::new()
            .field_count(FieldCount::Exact(5))
            .has_headers(has_headers);
        let csv = FormatOptions::csv();
        assert_eq!(
            encode_to_vec(&names(), &items, csv, counted)
                .expect_err("two fields")
                .kind(),
            mismatch
        );
        assert_eq!(
            encode_to_writer(Vec::new(), &names(), &items, csv, counted)
                .expect_err("two fields")
                .error()
                .kind(),
            mismatch
        );
        assert_eq!(
            encode_to_segments(&names(), &items, 128, csv, counted)
                .expect_err("two fields")
                .kind(),
            mismatch
        );
    }

    let commas = [record(&["a,with,comma", "1"])];
    let bare = FormatOptions::csv().quoting(Quoting::Never);
    let error =
        serialize_to_vec(&names(), &commas, bare, EmitOptions::new()).expect_err("no quotes");
    assert_eq!(error.kind(), ErrorKind::Encode);
    let failure = serialize_to_writer(Vec::new(), &names(), &commas, bare, EmitOptions::new())
        .expect_err("no quotes");
    assert_eq!(failure.error().kind(), ErrorKind::Encode);

    let error = encode_to_writer(
        Broken,
        &names(),
        &items,
        FormatOptions::csv(),
        EmitOptions::new(),
    )
    .err()
    .expect("the sink is broken");
    assert_eq!(error.error().kind(), ErrorKind::Io(IoErrorKind::BrokenPipe));
}

#[test]
fn test_encode_functions() {
    let items = [
        record(&["1", "x"]),
        record(&["2", "y"]),
        record(&["3", "z"]),
    ];
    let headed = EmitOptions::new().has_headers(true);
    let csv = FormatOptions::csv();

    let document = encode_to_vec(&names(), &items, csv, headed).expect("encoded");
    assert_eq!(document, b"a,b\n1,x\n2,y\n3,z\n");
    let sink = encode_to_writer(Vec::new(), &names(), &items, csv, headed).expect("encoded");
    assert_eq!(sink, document);

    let longer = encode_append(document.clone(), &document, &names(), &items, csv, headed)
        .expect("appended");
    assert_eq!(longer, b"a,b\n1,x\n2,y\n3,z\n1,x\n2,y\n3,z\n");
    let fresh = encode_append(Vec::new(), b"", &names(), &items, csv, headed).expect("appended");
    assert_eq!(fresh, document);
    let error = encode_append(Vec::new(), b"cut,off", &names(), &items, csv, headed)
        .expect_err("the last record has no end");
    assert_eq!(error.error().kind(), ErrorKind::UnterminatedRecord);

    let many: Vec<ByteRecord> = (0..50)
        .map(|i| {
            record(&[
                &format!("{i}"),
                "some relatively long text value to fill buffer",
            ])
        })
        .collect();
    let segments = encode_to_segments(
        &names(),
        &many,
        128,
        csv.write_bom(WriteBom::Emit),
        EmitOptions::new().buffer_capacity(32).has_headers(true),
    )
    .expect("segments are generated");
    assert!(segments.len() > 1);
}

#[test]
fn what_was_accepted_before_a_refusal_reaches_the_sink() {
    let csv = FormatOptions::csv().quoting(Quoting::Never);
    let rows = [record(&["1", "x"]), record(&["2", "y"]), record(&["3", "a,b"]), record(&["4", "z"])];
    for capacity in [1, 6, 4096] {
        let options = EmitOptions::new().has_headers(true).buffer_capacity(capacity);
        let failure =
            encode_to_writer(b">".to_vec(), &names(), &rows, csv, options).expect_err("a comma");
        assert_eq!(failure.error().kind(), ErrorKind::Encode);
        assert_eq!(failure.into_inner(), b">a,b\n1,x\n2,y\n");
        let failure =
            serialize_to_writer(Vec::new(), &names(), &rows, csv, options).expect_err("a comma");
        assert_eq!(failure.error().kind(), ErrorKind::Encode);
        assert_eq!(failure.into_inner(), b"a,b\n1,x\n2,y\n");
        let failure = encode_append(Vec::new(), b"0,w\n", &names(), &rows, csv, options)
            .expect_err("a comma");
        assert_eq!(failure.into_inner(), b"1,x\n2,y\n");
    }
}

#[test]
fn names_are_not_serialized_without_a_record() {
    let csv = FormatOptions::csv().quoting(Quoting::Never);
    let rows = [record(&["1", "a,b"])];
    let options = EmitOptions::new().has_headers(true).buffer_capacity(1);
    let failure =
        serialize_to_writer(Vec::new(), &names(), &rows, csv, options).expect_err("a comma");
    assert_eq!(failure.error().kind(), ErrorKind::Encode);
    assert_eq!(failure.into_inner(), b"");
    let failure =
        encode_to_writer(Vec::new(), &names(), &rows, csv, options).expect_err("a comma");
    assert_eq!(failure.into_inner(), b"a,b\n");
}

#[test]
fn segments_hold_the_records_in_order() {
    let rows: Vec<ByteRecord> = (0..40).map(|i| record(&[&format!("{i}"), "x"])).collect();
    let csv = FormatOptions::csv();
    let options = EmitOptions::new().has_headers(false);
    let document = encode_to_vec(&names(), &rows, csv, options).expect("encoded");
    for limit in [1u64, 4, 5, 17, 1000] {
        for capacity in [1usize, 7, 4096] {
            let segments = encode_to_segments(
                &names(),
                &rows,
                limit,
                csv,
                EmitOptions::new().has_headers(true).buffer_capacity(capacity),
            )
            .expect("segments are generated");
            for (index, segment) in segments.iter().enumerate().skip(1) {
                let first = segment[4..].iter().position(|&byte| byte == b'\n').expect("a record");
                assert!((segments[index - 1].len() + first + 1) as u64 > limit);
            }
            let mut joined = Vec::new();
            for segment in &segments {
                assert!(segment.starts_with(b"a,b\n"));
                let body = &segment[4..];
                let records = body.iter().filter(|&&byte| byte == b'\n').count();
                assert!(segment.len() as u64 <= limit || records <= 1);
                joined.extend_from_slice(body);
            }
            assert_eq!(joined, document);
        }
    }
}

#[test]
fn a_preamble_is_a_mark_and_the_names() {
    let csv = FormatOptions::csv();
    let plain = EmitOptions::new().has_headers(false);
    let headed = EmitOptions::new().has_headers(true);
    assert_eq!(segment_preamble(&names(), csv, plain).ok(), Some(Vec::new()));
    assert_eq!(
        segment_preamble(&names(), csv, headed).ok(),
        Some(b"a,b\n".to_vec())
    );
    let marked = csv.write_bom(WriteBom::Emit);
    assert_eq!(
        segment_preamble(&names(), marked, plain).ok(),
        Some(b"\xEF\xBB\xBF".to_vec())
    );
    assert_eq!(
        segment_preamble(&names(), marked, headed).ok(),
        Some(b"\xEF\xBB\xBFa,b\n".to_vec())
    );
    assert!(segment_preamble(&names(), csv, headed.field_count(FieldCount::Exact(3))).is_err());
}

#[test]
fn written_documents_are_flushed() {
    let rows = [record(&["1", "x"])];
    let options = EmitOptions::new().has_headers(true);
    let sink =
        encode_to_writer(Settling::default(), &names(), &rows, FormatOptions::csv(), options)
            .expect("a document");
    assert_eq!(sink.bytes, b"a,b\n1,x\n");
    assert_eq!(sink.settled, 8);
    let sink =
        serialize_to_writer(Settling::default(), &names(), &rows, FormatOptions::csv(), options)
            .expect("a document");
    assert_eq!(sink.bytes, b"a,b\n1,x\n");
    assert_eq!(sink.settled, 8);
}
