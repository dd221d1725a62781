//! Indexes in memory.

use coseva::config::{BlankRecords, Escape, Limits, ReadBom, Recovery, Syntax};
use coseva::error::{Error, ErrorKind, Location};
use coseva::index::chunks::{
    boundaries, build_positions, build_positions_parallel, chunk_entry_reserve, chunk_is_blocked,
    index_pieces, join_pieces, keep_earliest_failure, normalized_thread_count,
    parallel_index_supported, parallel_worker_count, parse_index_chunk, should_build_parallel,
};
use coseva::index::csv_index::{
    build_entry_estimate, build_positions_serial, eager_reserve, position_tables,
    position_tables_default, CsvIndex, BUILD_ESTIMATE_THRESHOLD, MAX_EAGER_ENTRY_RESERVE,
    MIN_ESTIMATED_RECORD_BYTES,
};
use coseva::index::csv_index_reader::CsvIndexReader;
use coseva::index::format::{encode_header, HASH_BYTES};
use coseva::index::index_options::IndexOptions;
use coseva::index::parallel::{Boundary, INDEX_CHUNKS_PER_THREAD, PARALLEL_INDEX_THRESHOLD_BYTES};
use coseva::index::stream::StreamHash;
use coseva::options::{FormatOptions, ParserSettings};
use coseva::slice_parser::SliceParser;
use coseva::storage::RecordStorage;

fn hash_bytes(bytes: &[u8]) -> [u8; HASH_BYTES] {
    let mut stream = StreamHash::new();
    stream.absorb_read(bytes, bytes.len()).expect("the buffer holds what was read");
    stream.hash().to_le_bytes()
}

fn stored_index(source_len: u64, entries: &[(u64, u64)]) -> Vec<u8> {
    let header = encode_header(
        source_len,
        u128::from_le_bytes([7; HASH_BYTES]),
        FormatOptions::csv(),
        Limits::standard(),
        entries.len() as u64,
    );
    let mut bytes = header.clone();
    let mut encoded_entries = Vec::new();
    for &(offset, line) in entries {
        encoded_entries.extend_from_slice(&offset.to_le_bytes());
        encoded_entries.extend_from_slice(&line.to_le_bytes());
    }
    bytes.extend_from_slice(&encoded_entries);
    bytes.extend_from_slice(&hash_bytes(&encoded_entries));
    bytes.extend_from_slice(&hash_bytes(&header));
    bytes
}

fn start() -> Boundary {
    Boundary { byte: 0, line: 1, record: 0 }
}

fn error_at(byte: usize, kind: ErrorKind) -> Error {
    Error::new(
        kind,
        Location {
            byte,
            line: 1,
            record: 0,
            field: 0,
        },
    )
}

#[test]
fn eager_table_planning_and_estimation_are_exact() {
    assert_eq!(eager_reserve(0), 0);
    assert_eq!(
        eager_reserve(MAX_EAGER_ENTRY_RESERVE),
        MAX_EAGER_ENTRY_RESERVE
    );
    assert_eq!(
        eager_reserve(MAX_EAGER_ENTRY_RESERVE + 1),
        MAX_EAGER_ENTRY_RESERVE
    );

    let (offsets, lines) = position_tables(17);
    assert_eq!(offsets.capacity(), 17);
    assert_eq!(lines.capacity(), 17);
    let (offsets, lines) = position_tables_default();
    assert_eq!(offsets.capacity(), 0);
    assert_eq!(lines.capacity(), 0);

    let small = vec![b'a'; BUILD_ESTIMATE_THRESHOLD - 1];
    assert_eq!(build_entry_estimate(&small, FormatOptions::csv()), 0);

    let no_ending = vec![b'a'; BUILD_ESTIMATE_THRESHOLD];
    assert_eq!(
        build_entry_estimate(&no_ending, FormatOptions::csv()),
        1
    );

    let mut ending = no_ending.clone();
    *ending.last_mut().expect("nonempty") = b'\n';
    assert_eq!(build_entry_estimate(&ending, FormatOptions::csv()), 1);

    let mut starts_only = no_ending.clone();
    starts_only[0] = b'\n';
    assert_eq!(
        build_entry_estimate(&starts_only, FormatOptions::csv()),
        2
    );

    let mut boundary_density = vec![b'a'; BUILD_ESTIMATE_THRESHOLD];
    for at in (7..boundary_density.len()).step_by(MIN_ESTIMATED_RECORD_BYTES) {
        boundary_density[at] = b'\n';
    }
    assert_eq!(
        build_entry_estimate(&boundary_density, FormatOptions::csv()),
        boundary_density.len() / MIN_ESTIMATED_RECORD_BYTES
    );

    let mut capped =
        vec![b'a'; (MAX_EAGER_ENTRY_RESERVE + 1) * MIN_ESTIMATED_RECORD_BYTES];
    for at in (7..capped.len()).step_by(MIN_ESTIMATED_RECORD_BYTES) {
        capped[at] = b'\n';
    }
    assert_eq!(
        build_entry_estimate(&capped, FormatOptions::csv()),
        MAX_EAGER_ENTRY_RESERVE
    );
}

#[test]
fn eager_decoding_preserves_entries_and_rejects_exact_malformed_shapes() {
    let loaded =
        CsvIndex::decode(&stored_index(4, &[(0, 1), (1, 2), (3, 3)])).expect("valid test index");
    assert_eq!(loaded.offsets(), &[0, 1, 3]);
    assert_eq!(loaded.lines(), &[1, 2, 3]);

    let error = CsvIndex::decode(&stored_index(4, &[(0, 1), (0, 2)]))
        .expect_err("duplicate offsets are invalid");
    assert!(error.message().contains("record offsets are not strictly increasing"), "{error:?}");

    let error = CsvIndex::decode(&stored_index(4, &[(0, 2), (2, 1)]))
        .expect_err("decreasing lines are invalid");
    assert!(
        error.message().contains("record lines are not valid and nondecreasing"),
        "{error:?}"
    );

    let mut bytes = stored_index(4, &[(0, 1)]);
    bytes.push(0xAA);
    let error = CsvIndex::decode(&bytes).expect_err("trailing bytes are invalid");
    assert!(error.message().contains("location table length does not match"), "{error:?}");
}

#[test]
fn decoding_rejects_offsets_for_an_empty_source() {
    let error = CsvIndex::decode(&stored_index(0, &[(0, 1)]))
        .expect_err("a malformed index must be rejected");
    assert_eq!(error.kind(), ErrorKind::InvalidIndex);
}

#[test]
fn parallel_routing_helpers_cover_every_boundary_and_disqualifier() {
    assert_eq!(PARALLEL_INDEX_THRESHOLD_BYTES, 8 << 20);
    assert_eq!(normalized_thread_count(0), 1);
    assert_eq!(normalized_thread_count(1), 1);
    assert_eq!(normalized_thread_count(4), 4);
    assert_eq!(parallel_worker_count(0, 0), 1);
    assert_eq!(parallel_worker_count(8, 3), 3);
    assert_eq!(parallel_worker_count(2, 8), 2);
    assert!(chunk_is_blocked(7, 7));
    assert!(chunk_is_blocked(8, 7));
    assert!(!chunk_is_blocked(6, 7));
    assert_eq!(chunk_entry_reserve(0, 0), 1);
    assert_eq!(chunk_entry_reserve(10, 2), 6);
    assert_eq!(chunk_entry_reserve(10, 3), 4);

    let source = b"a,b\nc,d\n";
    let options = IndexOptions::default();
    let chunks = boundaries(source, options.format.dialect, start(), 2);
    let chunk = parse_index_chunk(source, options, &chunks, 0, chunks[0], 7).expect("chunk");
    assert_eq!(chunk.offsets.capacity(), 7);
    assert_eq!(chunk.lines.capacity(), 7);

    assert!(parallel_index_supported(FormatOptions::csv()));
    assert!(!parallel_index_supported(
        FormatOptions::csv().comment(Some(b'#'))
    ));
    assert!(!parallel_index_supported(
        FormatOptions::csv().escape(Escape::Backslash(b'\\'))
    ));
    assert!(!parallel_index_supported(
        FormatOptions::csv().syntax(Syntax::Compatible(Recovery::none()))
    ));
    assert!(!parallel_index_supported(FormatOptions::csv().syntax(
        Syntax::Compatible(Recovery::none().quoting(true).unquoted_quotes(true))
    )));
    assert!(!parallel_index_supported(
        FormatOptions::csv().blank_records(BlankRecords::Skip)
    ));
    assert!(!parallel_index_supported(
        FormatOptions::csv().delimiter_sequence(b"||")
    ));

    let threshold = PARALLEL_INDEX_THRESHOLD_BYTES;
    assert!(!should_build_parallel(threshold - 1, FormatOptions::csv()));
    assert!(should_build_parallel(threshold, FormatOptions::csv()));
    assert!(!should_build_parallel(
        threshold + 1,
        FormatOptions::csv().comment(Some(b'#'))
    ));
}

#[test]
fn parallel_failure_selection_keeps_the_first_error_at_the_earliest_byte() {
    let mut earliest = None;
    keep_earliest_failure(&mut earliest, error_at(5, ErrorKind::InvalidIndex));
    keep_earliest_failure(&mut earliest, error_at(6, ErrorKind::SourceMismatch));
    assert_eq!(
        earliest.as_ref().expect("first error retained").1.kind(),
        ErrorKind::InvalidIndex
    );

    keep_earliest_failure(
        &mut earliest,
        error_at(5, ErrorKind::TooManyFields { limit: 2 }),
    );
    assert_eq!(
        earliest
            .as_ref()
            .expect("equal-position error retained")
            .1
            .kind(),
        ErrorKind::InvalidIndex
    );

    keep_earliest_failure(
        &mut earliest,
        error_at(4, ErrorKind::FieldTooLarge { limit: 3 }),
    );
    assert_eq!(
        earliest.as_ref().expect("earlier error replaces").1.kind(),
        ErrorKind::FieldTooLarge { limit: 3 }
    );
}

#[test]
fn benchmark_parallel_builder_normalizes_zero_threads_and_reports_format_detail() {
    let source = b"a,b\nc,d\n";
    let built = CsvIndex::benchmark_build_parallel(source, IndexOptions::default(), 0)
        .expect("zero requested threads still means one worker");
    assert_eq!(built.offsets(), &[0, 4]);

    CsvIndex::benchmark_build_parallel(source, IndexOptions::default(), 8)
        .expect("eight requested threads build");
    let dialect = FormatOptions::csv().dialect;
    let chunks = boundaries(source, dialect, start(), 8 * INDEX_CHUNKS_PER_THREAD).len();
    assert!(
        chunks < 8,
        "the tiny source must expose chunk-count clamping"
    );
    assert_eq!(parallel_worker_count(8, chunks), chunks);

    let mut reserve_probe = Vec::with_capacity(271 * 4_096);
    for _ in 0..271 {
        reserve_probe.resize(reserve_probe.len() + 4_095, b'a');
        reserve_probe.push(b'\n');
    }
    CsvIndex::benchmark_build_parallel(&reserve_probe, IndexOptions::default(), 1)
        .expect("reserve probe builds");
    let chunks = boundaries(&reserve_probe, dialect, start(), INDEX_CHUNKS_PER_THREAD).len();
    assert_eq!(chunks, 16);
    assert_eq!(
        chunk_entry_reserve(
            build_entry_estimate(&reserve_probe, FormatOptions::csv()),
            chunks
        ),
        17
    );

    let error = CsvIndex::benchmark_build_parallel(
        source,
        IndexOptions {
            format: FormatOptions::csv().comment(Some(b'#')),
            limits: Limits::standard(),
        },
        2,
    )
    .expect_err("commented formats cannot use the parallel splitter");
    assert!(
        error
            .message()
            .contains("this format cannot be indexed in parallel"),
        "{error:?}"
    );
}

#[test]
fn parser_at_propagates_an_invalid_reconstructed_dialect() {
    let index = CsvIndex::from_positions(
        b"x",
        IndexOptions {
            format: FormatOptions::csv().delimiter(b'"'),
            limits: Limits::standard(),
        },
        vec![0],
        vec![1],
    );
    let error = index
        .parser_at(b"x", 0)
        .expect_err("an invalid dialect must be rejected");
    assert_eq!(error.kind(), ErrorKind::Configuration);
    let error = index
        .parser_at_reader(b"x", 0)
        .expect_err("an invalid dialect must be rejected");
    assert_eq!(error.kind(), ErrorKind::Configuration);
}

#[test]
fn building_an_index_leaves_no_spare_capacity() {
    let records: usize = 65;

    let mut source = String::new();
    for record in 0..records {
        source.push_str(&format!("field{record},other{record}\n"));
    }

    let index = CsvIndex::build(source.as_bytes(), IndexOptions::default())
        .expect("the generated document is well formed");

    assert_eq!(index.offsets().len(), records);
    assert_eq!(
        index.offsets().capacity(),
        index.offsets().len(),
        "record offsets kept spare capacity for the life of the index"
    );
    assert_eq!(
        index.lines().capacity(),
        index.lines().len(),
        "line numbers kept spare capacity for the life of the index"
    );
}

#[test]
fn parallel_build_positions_match_serial_build() {
    let cases: &[(&[u8], IndexOptions)] = &[
        (b"", IndexOptions::default()),
        (b"a,b\nc,d\n", IndexOptions::default()),
        (
            b"a,b\n\"x\nnext\",\"y\nz\"\nlast,row",
            IndexOptions::default(),
        ),
        (
            b"a,b\r\n\"x\r\nnext\",\"y\nz\"\r\nlast,row\r\n",
            IndexOptions {
                format: FormatOptions::rfc4180(),
                limits: Limits::standard(),
            },
        ),
        (b"a,b\nc,d", IndexOptions::default()),
    ];

    for &(source, options) in cases {
        let serial = CsvIndex::build(source, options).expect("serial index builds");
        let (offsets, lines) =
            build_positions_parallel(source, options, 4).expect("parallel positions build");
        assert_eq!(offsets, *serial.offsets(), "offsets for {source:?}");
        assert_eq!(lines, *serial.lines(), "lines for {source:?}");
        assert_eq!(offsets.len(), serial.len(), "length for {source:?}");
    }
}

#[test]
fn parallel_build_positions_match_serial_across_many_chunks() {
    let mut source = Vec::new();
    for record in 0..4096 {
        match record % 4 {
            0 => source.extend_from_slice(b"plain,field,value\n"),
            1 => source.extend_from_slice(b"\"quoted\nspanning\nlines\",b,c\n"),
            2 => source.extend_from_slice(b"\"has \"\"escaped\"\" quotes\",b,c\r\n"),
            _ => source.extend_from_slice(b"x,\"y\r\nz\",\"w,v\"\n"),
        }
    }
    source.extend_from_slice(b"tail,without,terminator");

    let options = IndexOptions::default();
    let serial = CsvIndex::build(&source, options).expect("serial index builds");
    for threads in [2, 3, 8] {
        let (offsets, lines) = build_positions_parallel(&source, options, threads)
            .expect("parallel positions build");
        assert_eq!(offsets, *serial.offsets(), "offsets with {threads} threads");
        assert_eq!(lines, *serial.lines(), "lines with {threads} threads");
    }
}

#[test]
fn a_parallel_build_reports_the_earliest_of_several_failures() {

    let records = 32_000_u32;
    let malformed_at = [records / 64, records * 3 / 64];
    let mut source = Vec::new();
    for record in 0..records {
        if malformed_at.contains(&record) {
            source.extend_from_slice(b"\"x\"y,b,c\n");
        } else {
            source.extend_from_slice(format!("{record},{record},{record}\n").as_bytes());
        }
    }

    let options = IndexOptions::default();
    let expected = build_positions_serial(&source, options)
        .expect_err("the document contains malformed records");
    let actual = build_positions_parallel(&source, options, 2)
        .expect_err("the document contains malformed records");

    assert_eq!(actual.kind(), expected.kind());
    assert_eq!(
        actual.location(),
        expected.location(),
        "the earliest failure is the one a serial parse reports"
    );
}

#[test]
fn a_failed_parallel_build_reports_the_same_error_as_a_serial_one() {
    let mut source = Vec::new();
    for record in 0..20_000_u32 {
        source.extend_from_slice(format!("{record},{record},{record}\n").as_bytes());
    }
    source.extend_from_slice(b"\"x\"y,b,c\n");
    for record in 0..20_000_u32 {
        source.extend_from_slice(format!("{record},{record},{record}\n").as_bytes());
    }

    let options = IndexOptions::default();
    let expected = build_positions_serial(&source, options)
        .expect_err("the document contains a malformed record");

    for threads in [2, 3, 4, 8] {
        let actual = build_positions_parallel(&source, options, threads)
            .expect_err("the document contains a malformed record");
        assert_eq!(
            actual.kind(),
            expected.kind(),
            "error kind with {threads} threads"
        );
        assert_eq!(
            actual.location(),
            expected.location(),
            "error location with {threads} threads"
        );
    }
}

#[test]
fn a_failed_parallel_build_stops_instead_of_indexing_the_whole_document() {
    let mut source = Vec::new();
    source.extend_from_slice(b"\"x\"y,b,c\n");
    for record in 0..200_000_u32 {
        source.extend_from_slice(format!("{record},{record},{record}\n").as_bytes());
    }

    let threads = 4;
    let options = IndexOptions::default();
    let total = threads * INDEX_CHUNKS_PER_THREAD;
    let parsed = |source: &[u8]| {
        let cuts = index_pieces(source, options, threads).expect("a readable source");
        let mut parsed = 0;
        for (index, &start) in cuts.iter().enumerate() {
            parsed += 1;
            if parse_index_chunk(source, options, &cuts, index, start, 0).is_err() {
                break;
            }
        }
        (cuts.len(), parsed)
    };

    let error = build_positions_parallel(&source, options, threads)
        .expect_err("the first record is malformed");
    assert_eq!(error.location().byte, 3, "the earliest failure is reported");
    assert_eq!(parsed(&source), (total, 1), "the first piece holds the failure");

    let (offsets, _) = build_positions_parallel(&source[9..], options, threads)
        .expect("the rest of the document is valid");
    assert_eq!(offsets.len(), 200_000);
    assert_eq!(
        parsed(&source[9..]),
        (total, total),
        "a valid document must still be parsed chunk for chunk"
    );
}

#[test]
fn a_document_is_cut_where_a_piece_is_long_enough() {
    let dialect = FormatOptions::csv().dialect;
    let bytes = |source: &[u8], count: usize| -> Vec<usize> {
        boundaries(source, dialect, start(), count).iter().map(|cut| cut.byte).collect()
    };
    let source = b"aa\nbb\ncc\ndd\nee\nff\n";
    assert_eq!(bytes(source, 0), [0]);
    assert_eq!(bytes(source, 1), [0]);
    assert_eq!(bytes(source, 2), [0, 9]);
    assert_eq!(bytes(source, 3), [0, 6, 12]);
    assert_eq!(bytes(source, 4), [0, 6, 12]);
    assert_eq!(bytes(source, 6), [0, 3, 6, 9, 12, 15]);
    assert_eq!(bytes(source, 100), [0, 3, 6, 9, 12, 15]);
    assert_eq!(bytes(b"\"a\nb\"\nc\nd", 100), [0, 6, 8]);
    assert_eq!(bytes(b"", 4), [0]);
    let cuts = boundaries(b"\"a\nb\"\nc\nd", dialect, start(), 100);
    assert_eq!((cuts[2].line, cuts[2].record), (4, 2));
}

#[test]
fn a_long_document_is_indexed_like_a_short_one() {
    let mut source = Vec::new();
    while source.len() < PARALLEL_INDEX_THRESHOLD_BYTES {
        source.extend_from_slice(b"plain,\"quoted\nlines\",0123456789012345678901234567890123\n");
    }
    let options = IndexOptions::default();
    assert!(should_build_parallel(source.len(), options.format));
    let expected = build_positions_serial(&source, options).expect("serial positions build");
    let positions = build_positions(&source, options, 4).expect("positions build");
    assert_eq!(positions, expected);

    let commented = IndexOptions {
        format: FormatOptions::commented_csv(),
        limits: Limits::standard(),
    };
    let commented = build_positions(&source, commented, 4).expect("positions build");
    assert_eq!(commented, expected);
}

#[test]
fn positions_lie_where_records_start() {
    let empty = CsvIndex::build(b"", IndexOptions::default()).expect("empty build");
    assert!(empty.is_empty());
    assert_eq!(empty.record_offset(0), None);
    assert_eq!(empty.record_line(0), None);
    assert_eq!(empty.format(), FormatOptions::csv());
    assert_eq!(empty.limits(), Limits::standard());

    let data = b"col1,col2\nval1,val2\nval3,val4\n";
    let index = CsvIndex::build(data, IndexOptions::default()).expect("valid build");
    assert_eq!(index.len(), 3);
    assert_eq!(index.record_offset(0), Some(0));
    assert_eq!(index.record_line(0), Some(1));
    assert_eq!(index.record_offset(2), Some(20));
    assert_eq!(index.record_line(2), Some(3));
    assert!(index.validate_reader(data).is_ok());
    assert!(index.validate_source(data).is_ok());
    assert_eq!(
        index
            .validate_source(b"other")
            .expect_err("other bytes")
            .kind(),
        ErrorKind::SourceMismatch
    );

    let dense = vec![b'\n'; 2 * 1024 * 1024];
    assert_eq!(build_entry_estimate(&dense, FormatOptions::csv()), 0);

    let mut parser = index.parser_at(data, 2).expect("the third record");
    let mut record = RecordStorage::new();
    assert_eq!(parser.next_record(&mut record).ok(), Some(true));
    assert_eq!(record.to_vecs(), [b"val3".as_slice(), b"val4".as_slice()]);
    record.clear();
    assert_eq!(parser.next_record(&mut record).ok(), Some(false));

    let error = index.parser_at(data, 3).expect_err("there is no fourth record");
    assert_eq!(error.kind(), ErrorKind::RecordOutOfRange { record: 3 });
}

#[test]
fn an_index_is_read_back_from_its_bytes() {
    let data = b"a,b\n\"c\nd\",e\nf,g";
    let index = CsvIndex::build(data, IndexOptions::default()).expect("valid build");
    let bytes = index.encode();
    let decoded = CsvIndex::decode(&bytes).expect("the index decodes");
    assert_eq!(decoded.offsets(), index.offsets());
    assert_eq!(decoded.lines(), index.lines());
    assert_eq!(decoded.encode(), bytes);
    assert!(decoded.validate_source(data).is_ok());

    let reader = CsvIndex::create(data, IndexOptions::default()).expect("index creation");
    assert_eq!(reader.into_inner(), bytes);

    let reader = CsvIndexReader::new(bytes).expect("the index opens");
    for record in 0..index.len() {
        assert_eq!(reader.record_offset(record).ok(), Some(index.record_offset(record)));
        assert_eq!(reader.record_line(record).ok(), Some(index.record_line(record)));
    }
}

#[test]
fn a_bound_index_parses_its_source() {
    let data = b"a,b\nc,d\n";
    let index = CsvIndex::build(data, IndexOptions::default()).expect("valid build");
    let bound = index.bind(data).expect("the source is the right one");
    let mut parser = bound.parser_at(1).expect("the second record");
    let mut record = RecordStorage::new();
    assert_eq!(parser.next_record(&mut record).ok(), Some(true));
    assert_eq!(record.to_vecs(), [b"c".as_slice(), b"d".as_slice()]);
    assert!(index.bind(b"a,b\nc,e\n").is_err());
}

#[test]
fn pieces_parsed_in_any_order_are_joined_in_theirs() {
    let mut source = Vec::new();
    for row in 0..400 {
        source.extend_from_slice(format!("{row},\"two\nlines\"\n").as_bytes());
    }
    let options = IndexOptions::default();
    for broken in [false, true] {
        if broken {
            source.extend_from_slice(b"a,b\"c\n\"unterminated");
        }
        let cuts = index_pieces(&source, options, 2).expect("a readable source");
        let mut answers: Vec<_> = (0..cuts.len())
            .rev()
            .map(|index| parse_index_chunk(&source, options, &cuts, index, cuts[index], 0))
            .collect();
        answers.reverse();
        let kept = answers
            .iter()
            .position(|answer| answer.is_err())
            .map_or(answers.len(), |index| index + 1);
        answers.truncate(kept);
        let joined = join_pieces(&source, options, &cuts, answers, 0);
        match (joined, CsvIndex::benchmark_build_serial(&source, options)) {
            (Ok((offsets, lines)), Ok(serial)) => {
                assert!(!broken);
                assert_eq!(offsets, *serial.offsets());
                assert_eq!(lines, *serial.lines());
            }
            (Err(left), Err(right)) => {
                assert!(broken);
                assert_eq!(left.kind(), right.kind());
                assert_eq!(left.location(), right.location());
            }
            (left, right) => panic!("{left:?} differs from {right:?}"),
        }
    }
}

#[test]
fn parser_at_reader_propagates_an_invalid_reconstructed_dialect() {
    let index = CsvIndex::from_positions(
        b"x",
        IndexOptions {
            format: FormatOptions::csv().delimiter(b'"'),
            limits: Limits::standard(),
        },
        vec![0],
        vec![1],
    );
    let error = index
        .parser_at_reader(b"x", 0)
        .expect_err("an invalid dialect must be rejected");
    assert_eq!(error.kind(), ErrorKind::Configuration);
}

#[test]
fn reader_at_defensively_checks_offsets_before_slicing() {
    let index = CsvIndex::from_positions(b"", IndexOptions::default(), vec![0], vec![1]);
    assert_eq!(
        index
            .parser_at(b"", 0)
            .expect_err("a malformed index must be rejected")
            .kind(),
        ErrorKind::InvalidIndex,
    );
}

#[test]
fn positions_are_collected_with_their_lines() {
    let (offsets, lines) =
        build_positions_serial(b"a\nb\nc\n", IndexOptions::default()).expect("positions");
    assert_eq!(offsets, [0, 2, 4]);
    assert_eq!(lines, [1, 2, 3]);
}

#[test]
fn a_parser_at_a_record_reads_what_a_parser_from_the_start_reads() {
    let data = b"\xef\xbb\xbfa,b\n\"c\nd\",e\n\nf,g";
    let options = IndexOptions {
        format: FormatOptions::csv().blank_records(BlankRecords::Skip),
        limits: Limits::standard(),
    };
    let settings = ParserSettings::from_format(options.format, options.limits);
    let mut whole = SliceParser::with_settings(data, settings).expect("valid settings");
    let mut records = Vec::new();
    loop {
        let mut output = RecordStorage::new();
        if !whole.next_record(&mut output).expect("a readable document") {
            break;
        }
        records.push((output.to_vecs(), whole.location()));
    }
    assert_eq!(records.len(), 3);

    let index = CsvIndex::build(data, options).expect("valid build");
    let reader = CsvIndexReader::new(index.encode()).expect("the index opens");
    let bound = index.bind(data).expect("the source is the right one");
    let starts = [(3, 1), (7, 2), (16, 5)];
    for first in 0..3 {
        let (byte, line) = starts[first];
        let start = Location { byte, line, record: first as u64, field: 0 };
        for mut parser in [
            index.parser_at(data, first).expect("a record"),
            bound.parser_at(first).expect("a record"),
            index.parser_at_reader(data, first).expect("a record"),
            reader.parser_at_reader(data, first).expect("a record"),
        ] {
            assert_eq!(parser.location(), start);
            for (fields, after) in &records[first..] {
                let mut output = RecordStorage::new();
                assert_eq!(parser.next_record(&mut output).ok(), Some(true));
                assert_eq!(output.to_vecs(), *fields);
                assert_eq!(parser.location(), *after);
            }
            let mut output = RecordStorage::new();
            assert_eq!(parser.next_record(&mut output).ok(), Some(false));
        }
    }
}

#[test]
fn a_source_that_is_not_read_is_refused_where_the_reason_is() {
    let marked = IndexOptions {
        format: FormatOptions::csv().read_bom(ReadBom::Reject),
        limits: Limits::standard(),
    };
    let data = b"\xef\xbb\xbfa,b\n";
    for error in [
        build_positions_serial(data, marked).expect_err("the mark is refused"),
        build_positions_parallel(data, marked, 4).expect_err("the mark is refused"),
        CsvIndex::create(data, marked).expect_err("the mark is refused"),
    ] {
        assert_eq!(error.kind(), ErrorKind::RejectedBom);
        assert_eq!(error.location(), Location::start());
    }
    let invalid = IndexOptions {
        format: FormatOptions::csv().delimiter(b'"'),
        limits: Limits::standard(),
    };
    for error in [
        build_positions_serial(data, invalid).expect_err("the dialect contradicts itself"),
        CsvIndex::create(data, invalid).expect_err("the dialect contradicts itself"),
    ] {
        assert_eq!(error.kind(), ErrorKind::Configuration);
        assert_eq!(error.location(), Location::unknown());
    }
}

#[test]
fn an_estimate_is_never_below_the_records() {
    for ending in ["\n", ""] {
        let mut source = Vec::new();
        while source.len() <= BUILD_ESTIMATE_THRESHOLD {
            source.extend_from_slice(format!("{},\"two\nlines\"\n", "x".repeat(120)).as_bytes());
        }
        source.extend_from_slice(b"last");
        source.extend_from_slice(ending.as_bytes());
        let estimate = build_entry_estimate(&source, FormatOptions::csv());
        let index =
            CsvIndex::benchmark_build_serial(&source, IndexOptions::default()).expect("a build");
        assert_eq!(estimate, 2 * index.len() - 1);
        assert!(estimate >= index.len());
    }
}

#[test]
fn a_source_with_long_separators_is_indexed() {
    let options = IndexOptions {
        format: FormatOptions::csv().delimiter_sequence(b"||").record_ending_sequence(b";--"),
        limits: Limits::standard(),
    };
    let data = b"a||b;--\"c\n;--\"||d;--e";
    let index = CsvIndex::build(data, options).expect("a build");
    assert_eq!(index.offsets(), &[0, 7, 20]);
    assert_eq!(index.lines(), &[1, 1, 2]);
    let decoded = CsvIndex::decode(&index.encode()).expect("the index decodes");
    assert_eq!(decoded.encode(), index.encode());
    let mut parser = decoded.parser_at(data, 1).expect("the second record");
    let mut output = RecordStorage::new();
    assert_eq!(parser.next_record(&mut output).ok(), Some(true));
    assert_eq!(output.to_vecs(), [b"c\n;--".as_slice(), b"d".as_slice()]);
}
