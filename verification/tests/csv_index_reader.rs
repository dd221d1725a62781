//! Indexes read entry by entry.

use coseva::config::Limits;
use coseva::error::{ErrorKind, IoError, IoErrorKind, Location};
use coseva::index::csv_index::CsvIndex;
use coseva::index::csv_index_reader::CsvIndexReader;
use coseva::index::format::{CHECKSUM_BYTES, FIXED_HEADER_BYTES, MIN_VERSION};
use coseva::index::index_options::IndexOptions;
use coseva::index::remote::{fetch_failure, RemoteIndex};
use coseva::index::stream::StreamHash;
use coseva::options::FormatOptions;
use coseva::storage::RecordStorage;

fn index_bytes(source: &[u8]) -> Vec<u8> {
    CsvIndex::create(source, IndexOptions::default())
        .expect("index creation")
        .into_inner()
}

fn hash_payload(payload: &[u8]) -> [u8; 16] {
    let mut stream = StreamHash::new();
    stream
        .absorb_read(payload, payload.len())
        .expect("the buffer holds what was read");
    stream.hash().to_le_bytes()
}

#[test]
fn reader_reports_exact_length_and_checksum_failures() {
    let bytes = index_bytes(b"a,b\nc,d\n");

    let mut wrong_len = bytes.clone();
    wrong_len.push(0xAA);
    let error = CsvIndexReader::new(wrong_len).expect_err("trailing bytes must be rejected");
    assert!(
        error
            .message()
            .contains("location table length does not match"),
        "{error:?}"
    );

    let mut bad_entries = bytes.clone();
    let entries_checksum = bad_entries.len() - 2 * CHECKSUM_BYTES;
    bad_entries[entries_checksum] ^= 0x80;
    let reader = CsvIndexReader::new(bad_entries).expect("length is valid");
    let error = reader
        .verify()
        .expect_err("entries checksum must be checked");
    assert!(
        error
            .message()
            .contains("index entries checksum does not match"),
        "{error:?}"
    );

    let mut bad_header = bytes.clone();
    let last = bad_header.len() - 1;
    bad_header[last] ^= 0x80;
    let reader = CsvIndexReader::new(bad_header).expect("length is valid");
    let error = reader
        .verify()
        .expect_err("header checksum must be checked");
    assert!(
        error
            .message()
            .contains("index header checksum does not match"),
        "{error:?}"
    );

    let count = 2_u64;
    let payload = FIXED_HEADER_BYTES + count as usize * 16;
    let mut legacy = bytes[..payload].to_vec();
    legacy[8..12].copy_from_slice(&MIN_VERSION.to_le_bytes());
    let checksum = hash_payload(&legacy);
    legacy.extend_from_slice(&checksum);
    let last = legacy.len() - 1;
    legacy[last] ^= 0x80;
    let reader = CsvIndexReader::new(legacy).expect("legacy length is valid");
    let error = reader
        .verify()
        .expect_err("legacy checksum must be checked");
    assert!(
        error.message().contains("index checksum does not match"),
        "{error:?}"
    );
}

#[test]
fn reader_location_accepts_the_last_source_byte() {
    let reader = CsvIndexReader::new(index_bytes(b"\nx")).expect("valid index");
    assert_eq!(
        reader
            .location(1)
            .expect("second record starts at final byte"),
        Location {
            byte: 1,
            line: 2,
            record: 1,
            field: 0,
        }
    );
    assert_eq!(
        reader.record_offset(usize::MAX).expect("out of range"),
        None
    );
}

#[test]
fn test_csv_index_reader_coverage() {
    let data = b"col1,col2\nval1,val2\n";
    let reader = CsvIndex::create(data, IndexOptions::default()).unwrap();
    assert_eq!(reader.len(), 2);
    assert!(!reader.is_empty());
    assert_eq!(reader.format(), FormatOptions::csv());
    assert_eq!(reader.limits(), Limits::standard());
    assert_eq!(reader.source_len(), data.len() as u64);

    assert_eq!(reader.record_offset(0).unwrap(), Some(0));
    assert_eq!(reader.record_line(0).unwrap(), Some(1));
    assert_eq!(reader.record_offset(10).unwrap(), None);
    assert_eq!(reader.record_line(10).unwrap(), None);
    assert!(reader.location(10).is_err());
    assert!(reader.validate_reader(data).is_ok());
    assert!(reader.verify().is_ok());

    let mut p = reader.parser_at_reader(data, 0).unwrap();
    let mut record = RecordStorage::new();
    assert!(p.next_record(&mut record).unwrap());
    assert_eq!(record.get(0), Some(&b"col1"[..]));

    let bytes = reader.into_inner();
    let mut v8_bytes = bytes.clone();
    v8_bytes[8..12].copy_from_slice(&8_u32.to_le_bytes());
    let payload_len = FIXED_HEADER_BYTES + 2 * 16;
    let v8_hash = hash_payload(&v8_bytes[..payload_len]);
    let mut v8_file = v8_bytes[..payload_len].to_vec();
    v8_file.extend_from_slice(&v8_hash);
    let v8_reader = CsvIndexReader::new(v8_file.clone()).unwrap();
    assert!(v8_reader.verify().is_ok());

    let mut bad_v8_file = v8_file;
    let last = bad_v8_file.len() - 1;
    bad_v8_file[last] ^= 0xFF;
    let bad_v8_reader = CsvIndexReader::new(bad_v8_file).unwrap();
    assert!(bad_v8_reader.verify().is_err());

    let mut bad_v9_entries = bytes.clone();
    let ent_chk_pos = bad_v9_entries.len() - 32;
    bad_v9_entries[ent_chk_pos] ^= 0xFF;
    let bad_v9_reader = CsvIndexReader::new(bad_v9_entries).unwrap();
    assert!(bad_v9_reader.verify().is_err());

    let mut bad_v9_hdr = bytes.clone();
    let hdr_chk_pos = bad_v9_hdr.len() - 1;
    bad_v9_hdr[hdr_chk_pos] ^= 0xFF;
    let bad_v9_hdr_reader = CsvIndexReader::new(bad_v9_hdr).unwrap();
    assert!(bad_v9_hdr_reader.verify().is_err());
}

#[test]
fn every_kind_of_bad_index_is_told_apart() {
    let good = index_bytes(b"a,b\nc,d\n");

    let error = CsvIndexReader::new(good[..40].to_vec()).expect_err("too short");
    assert_eq!(error.kind(), ErrorKind::InvalidIndex);
    assert_eq!(error.message(), "index is truncated");

    let mut magic = good.clone();
    magic[0] ^= 1;
    let error = CsvIndexReader::new(magic).expect_err("other magic");
    assert_eq!(error.message(), "index magic does not match");

    let mut version = good.clone();
    version[8] = 1;
    let error = CsvIndexReader::new(version).expect_err("other version");
    assert_eq!(error.message(), "unsupported index version");

    let reader = CsvIndexReader::new(good).expect("a good index opens");
    let error = reader.location(2).expect_err("there are two records");
    assert_eq!(error.kind(), ErrorKind::RecordOutOfRange { record: 2 });
    let error = reader.validate_reader(b"a,b\nc,e\n").expect_err("another source");
    assert_eq!(error.kind(), ErrorKind::SourceMismatch);
}

#[test]
fn a_remote_index_is_the_stored_one() {
    let source = b"a,b\n\"c\nd\",e\nf,g\n";
    let bytes = index_bytes(source);
    let reader = CsvIndexReader::new(bytes.clone()).expect("a stored index");
    let remote = RemoteIndex::new(&bytes[..FIXED_HEADER_BYTES], bytes.len() as u64)
        .expect("the same index");
    assert_eq!(remote.len(), reader.len());
    assert_eq!(remote.format(), reader.format());
    assert_eq!(remote.limits(), reader.limits());
    assert_eq!(remote.source().0, source.len() as u64);
    for record in 0..3 {
        let position = remote.position(record).expect("an entry") as usize;
        assert_eq!(position, FIXED_HEADER_BYTES + 16 * record);
        let found = remote.location(record, &bytes[position..position + 16]);
        assert_eq!(found.ok(), reader.location(record).ok());
    }
    let error = remote.position(3).expect_err("there are three records");
    assert_eq!(error.kind(), ErrorKind::RecordOutOfRange { record: 3 });
    let error = remote.location(0, &[0; 16]).expect_err("there is no line zero");
    assert_eq!(error.kind(), ErrorKind::InvalidIndex);

    let (start, end) = remote.hashed_range();
    let (start, end) = (start as usize, end as usize);
    assert_eq!((start, end), (FIXED_HEADER_BYTES, bytes.len() - 2 * CHECKSUM_BYTES));
    assert_eq!(remote.trailer_len(), 2 * CHECKSUM_BYTES);
    let hash = u128::from_le_bytes(hash_payload(&bytes[start..end]));
    assert!(remote.verify(hash, &bytes[end..]).is_ok());
    assert!(remote.verify(hash ^ 1, &bytes[end..]).is_err());
    let mut trailer = bytes[end..].to_vec();
    trailer[CHECKSUM_BYTES] ^= 1;
    let error = remote.verify(hash, &trailer).expect_err("the header hash differs");
    assert!(error.message().contains("header"), "{error:?}");
}

#[test]
fn a_remote_index_has_the_length_that_its_header_says() {
    let bytes = index_bytes(b"a\n");
    let error = RemoteIndex::new(&bytes[..FIXED_HEADER_BYTES], bytes.len() as u64 + 1)
        .expect_err("one byte too many");
    assert_eq!(error.kind(), ErrorKind::InvalidIndex);
    let ended = fetch_failure(IoError::new(IoErrorKind::UnexpectedEof, "ended"));
    assert_eq!(ended.kind(), ErrorKind::InvalidIndex);
    let broken = fetch_failure(IoError::new(IoErrorKind::BrokenPipe, "broken"));
    assert_eq!(broken.kind(), ErrorKind::Io(IoErrorKind::BrokenPipe));
}
