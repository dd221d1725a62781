//! An index in memory.

use vstd::bytes::{
    lemma_auto_spec_u128_to_from_le_bytes, lemma_auto_spec_u64_to_from_le_bytes,
    spec_u128_from_le_bytes, spec_u128_to_le_bytes, spec_u64_to_le_bytes, u128_from_le_bytes,
    u128_to_le_bytes, u64_from_le_bytes, u64_to_le_bytes,
};
use vstd::prelude::*;

use crate::ascii::LF;
use crate::byte_record::shrink_vec;
use crate::config::{BlankRecords, FieldCount, Limits, ReadBom};
use crate::engine::{line_number, reports};
use crate::error::{Error, ErrorKind, Location};
use crate::index::chunks::{
    build_positions, build_positions_parallel, normalized_thread_count, parallel_index_supported,
    supports_pieces,
};
use crate::index::csv_index_reader::CsvIndexReader;
use crate::index::format::{
    check_entry, checked, decode_header, encode_header, entry_fault, entry_location, faulty,
    header_bytes, header_fault, header_of, law_a_written_header_is_read_back, malformed, narrow,
    number_at, payload_len, record_out_of_range, trailer_bytes, widen, Fault, IndexHeader,
    CHECKSUM_BYTES, FIXED_HEADER_BYTES, INDEX_CHECKSUM_MISMATCH, INDEX_ENTRIES_CHECKSUM_MISMATCH,
    INDEX_HEADER_CHECKSUM_MISMATCH, INDEX_LENGTH_OVERFLOW, INDEX_TRUNCATED,
    LOCATION_TABLE_LENGTH_MISMATCH, PARALLEL_FORMAT_UNSUPPORTED, RECORD_COUNT_NOT_USIZE,
    RECORD_OFFSET_EXCEEDS_SOURCE,
};
use crate::index::hash::{xxh3, xxh3_128};
use crate::index::index_options::IndexOptions;
use crate::options::{FormatOptions, FormatTag, ParserSettings};
use crate::search::{
    count_newlines, lemma_occurrences_bounded, lemma_occurrences_concat, occurrences,
};
use crate::slice_parser::{lemma_record_start, lemma_record_takes_bytes, Listing, SliceParser};
use crate::storage::RecordStorage;

verus! {

/// How many entries room is made for beforehand at most.
pub const MAX_EAGER_ENTRY_RESERVE: usize = 1_048_576;

/// From how many bytes on a source is long enough to estimate its records.
pub const BUILD_ESTIMATE_THRESHOLD: usize = 1_048_576;

/// The shortest plausible record.
pub const MIN_ESTIMATED_RECORD_BYTES: usize = 8;

/// The positions of the records of a source.
///
/// An index belongs to the exact bytes it was built from.
#[derive(Debug)]
pub struct CsvIndex {
    source_len: u64,
    source_hash: u128,
    format: FormatOptions,
    limits: Limits,
    offsets: Vec<u64>,
    lines: Vec<u64>,
}

/// An index as a value.
#[verifier::ext_equal]
pub struct Table {
    /// The length of the source.
    pub source_len: u64,
    /// The hash of the source.
    pub source_hash: u128,
    /// The format of the source.
    pub format: FormatOptions,
    /// The limits that the source was read under.
    pub limits: Limits,
    /// Where each record starts.
    pub offsets: Seq<u64>,
    /// The physical line that each record starts on.
    pub lines: Seq<u64>,
}

impl CsvIndex {
    /// Every record has an offset and a line.
    #[verifier::type_invariant]
    spec fn paired(self) -> bool {
        self.offsets@.len() == self.lines@.len()
    }
}

impl Clone for CsvIndex {
    fn clone(&self) -> (index: CsvIndex)
        ensures
            index@ == self@,
    {
        proof {
            use_type_invariant(self);
        }
        let offsets = self.offsets.clone();
        let lines = self.lines.clone();
        assert(offsets@ =~= self.offsets@);
        assert(lines@ =~= self.lines@);
        CsvIndex {
            source_len: self.source_len,
            source_hash: self.source_hash,
            format: self.format,
            limits: self.limits,
            offsets,
            lines,
        }
    }
}

impl View for CsvIndex {
    type V = Table;

    closed spec fn view(&self) -> Table {
        Table {
            source_len: self.source_len,
            source_hash: self.source_hash,
            format: self.format,
            limits: self.limits,
            offsets: self.offsets@,
            lines: self.lines@,
        }
    }
}

impl Table {
    /// The entry before entry `index`.
    pub open spec fn previous(self, index: int) -> Option<(u64, u64)> {
        if index <= 0 {
            None
        } else {
            Some((self.offsets[index - 1], self.lines[index - 1]))
        }
    }

    /// Whether the entries are in order and inside the source.
    pub open spec fn valid(self) -> bool {
        &&& self.offsets.len() == self.lines.len()
        &&& self.format.dialect.valid()
        &&& forall|i: int| 0 <= i < self.offsets.len() ==> #[trigger] self.sound_at(i)
    }

    /// Whether entry `index` is inside the source and in order with the one before.
    pub open spec fn sound_at(self, index: int) -> bool {
        entry_fault(
            self.offsets[index],
            self.lines[index],
            self.source_len,
            self.previous(index),
        ) is None
    }

    /// The options that the source was read with.
    pub open spec fn options(self) -> IndexOptions {
        IndexOptions { format: self.format, limits: self.limits }
    }

    /// Whether this is the index of `source`, read with `options`, whose records
    /// start at `starts`.
    pub open spec fn indexes(self, source: Seq<u8>, options: IndexOptions, starts: Seq<int>) -> bool {
        &&& self.source_len == source.len()
        &&& self.source_hash == xxh3(source)
        &&& self.format == options.format
        &&& self.limits == options.limits
        &&& positions(source, starts, self.offsets, self.lines)
    }

    /// Whether `source` has the identity of the bytes this index belongs to.
    pub open spec fn identifies(self, source: Seq<u8>) -> bool {
        self.source_len == source.len() && self.source_hash == xxh3(source)
    }
}

/// Whether offsets and lines are those of records that start at `starts`.
pub open spec fn positions(
    source: Seq<u8>,
    starts: Seq<int>,
    offsets: Seq<u64>,
    lines: Seq<u64>,
) -> bool {
    &&& offsets.len() == starts.len()
    &&& lines.len() == starts.len()
    &&& forall|i: int|
        0 <= i < starts.len() ==> #[trigger] offsets[i] == starts[i] && lines[i] == line_number(
            source,
            starts[i],
        )
}

/// Whether a source can be read at all with these options.
pub open spec fn readable(source: Seq<u8>, options: IndexOptions) -> bool {
    &&& options.format.dialect.valid()
    &&& !(options.format.read_bom == ReadBom::Reject && crate::engine::has_bom(source))
}

/// Whether `result` holds the positions of the records of a source, or says what
/// is wrong with it.
pub open spec fn built(
    source: Seq<u8>,
    options: IndexOptions,
    result: Result<(Vec<u64>, Vec<u64>), Error>,
) -> bool {
    if !readable(source, options) {
        result matches Err(error) && options.settings().refused_with(error)
    } else {
        match options.settings().records(source) {
            Listing::Complete(starts) => result matches Ok((offsets, lines)) && positions(
                source,
                starts,
                offsets@,
                lines@,
            ),
            Listing::Broken { starts, kind, at, number } => result matches Err(error) && reports(
                error,
                starts.len() as u64,
                source,
                kind,
                at,
                number,
            ),
        }
    }
}

/// The positions of the records of a source, read one after the other.
pub fn build_positions_serial(source: &[u8], options: IndexOptions) -> (result: Result<
    (Vec<u64>, Vec<u64>),
    Error,
>)
    ensures
        built(source@, options, result),
{
    let settings = ParserSettings::from_format(options.format, options.limits);
    let mut parser = match SliceParser::with_settings(source, settings) {
        Ok(parser) => parser,
        Err(error) => {
            return Err(error);
        },
    };
    let estimate: usize = build_entry_estimate(source, options.format);
    let (mut offsets, mut lines) = position_tables(estimate);
    let mut scratch = RecordStorage::new();
    let mut origin: usize = 0;
    let mut newlines: u64 = 0;
    let ghost mut starts = Seq::<int>::empty();
    proof {
        assert(source@.take(0) =~= Seq::<u8>::empty());
    }
    loop
        invariant
            parser.wf(),
            parser.document() == source@,
            parser.spec_settings() == settings,
            parser.state().field_count == FieldCount::Flexible,
            settings == options.settings(),
            readable(source@, options),
            origin <= parser.state().location <= source.len(),
            newlines == occurrences(source@.take(origin as int), LF),
            newlines <= origin,
            starts.len() == parser.state().record,
            starts.len() <= parser.state().location,
            positions(source@, starts, offsets@, lines@),
            settings.records(source@) == settings.listing(
                source@,
                parser.state().location as int,
                starts,
            ),
        decreases source.len() - parser.state().location,
    {
        let ghost before = parser.state();
        proof {
            lemma_record_start(settings, source@, before.location as int);
        }
        match parser.next_start(&mut scratch) {
            Err(error) => {
                return Err(error);
            },
            Ok(None) => {
                shrink_vec(&mut offsets, 0);
                shrink_vec(&mut lines, 0);
                return Ok((offsets, lines));
            },
            Ok(Some(start)) => {
                proof {
                    lemma_record_takes_bytes(
                        settings.rules(),
                        source@,
                        start as int,
                        settings.nulls,
                    );
                    let piece = source@.subrange(origin as int, start as int);
                    lemma_occurrences_concat(source@.take(origin as int), piece, LF);
                    assert(source@.take(origin as int) + piece =~= source@.take(start as int));
                    lemma_occurrences_bounded(source@.take(start as int), LF);
                    starts = starts.push(start as int);
                }
                newlines = newlines + count_newlines(source, origin, start);
                origin = start;
                offsets.push(start as u64);
                lines.push(newlines.saturating_add(1));
            },
        }
    }
}

/// How many record endings stand in `source`, one that is missing at its end
/// counted in.
pub open spec fn endings(source: Seq<u8>, terminator: u8) -> int {
    let count = occurrences(source, terminator) as int;
    if source.len() > 0 && source.last() == terminator {
        count
    } else {
        count + 1
    }
}

/// How many entries to make room for in an index of `source`.
pub open spec fn entry_estimate(source: Seq<u8>, terminator: u8) -> int {
    let endings = endings(source, terminator);
    if source.len() < BUILD_ESTIMATE_THRESHOLD || source.len() as int / endings
        < MIN_ESTIMATED_RECORD_BYTES {
        0
    } else if endings < MAX_EAGER_ENTRY_RESERVE {
        endings
    } else {
        MAX_EAGER_ENTRY_RESERVE as int
    }
}

fn count1(byte: u8, bytes: &[u8]) -> (count: usize)
    ensures
        count == occurrences(bytes@, byte),
{
    let mut count: usize = 0;
    let mut at: usize = 0;
    while at < bytes.len()
        invariant
            at <= bytes.len(),
            count <= at,
            count == occurrences(bytes@.take(at as int), byte),
        decreases bytes.len() - at,
    {
        assert(bytes@.take(at + 1).drop_last() =~= bytes@.take(at as int));
        if bytes[at] == byte {
            count += 1;
        }
        at += 1;
    }
    assert(bytes@.take(at as int) =~= bytes@);
    count
}

/// How many entries to make room for in an index of `source`.
///
/// Nothing is reserved for a short source, nor for one whose records would be
/// implausibly short.
pub fn build_entry_estimate(source: &[u8], format: FormatOptions) -> (estimate: usize)
    ensures
        estimate == entry_estimate(source@, format.dialect.record_ending.byte()),
{
    if source.len() < BUILD_ESTIMATE_THRESHOLD {
        return 0;
    }
    let terminator: u8 = format.dialect.record_ending.byte();
    let count: usize = count1(terminator, source);
    proof {
        lemma_occurrences_bounded(source@, terminator);
        if source@.last() != terminator {
            lemma_occurrences_bounded(source@.drop_last(), terminator);
        }
    }
    let endings: usize = if source[source.len() - 1] == terminator {
        count
    } else {
        count + 1
    };
    if source.len() / endings < MIN_ESTIMATED_RECORD_BYTES {
        return 0;
    }
    if endings < MAX_EAGER_ENTRY_RESERVE {
        endings
    } else {
        MAX_EAGER_ENTRY_RESERVE
    }
}

/// How many entries to make room for in an index that claims `count`.
#[verifier::allow_in_spec]
pub fn eager_reserve(count: usize) -> usize
    returns
        (if count < MAX_EAGER_ENTRY_RESERVE {
            count
        } else {
            MAX_EAGER_ENTRY_RESERVE
        }),
{
    if count < MAX_EAGER_ENTRY_RESERVE {
        count
    } else {
        MAX_EAGER_ENTRY_RESERVE
    }
}

/// Empty tables with room for some entries.
pub fn position_tables(entries: usize) -> (tables: (Vec<u64>, Vec<u64>))
    ensures
        tables.0@ == Seq::<u64>::empty(),
        tables.1@ == Seq::<u64>::empty(),
{
    (Vec::with_capacity(entries), Vec::with_capacity(entries))
}

/// Empty tables.
pub fn position_tables_default() -> (tables: (Vec<u64>, Vec<u64>))
    ensures
        tables.0@ == Seq::<u64>::empty(),
        tables.1@ == Seq::<u64>::empty(),
{
    (Vec::new(), Vec::new())
}

/// The bytes of the first `count` entries.
pub open spec fn entries_bytes(offsets: Seq<u64>, lines: Seq<u64>, count: nat) -> Seq<u8>
    decreases count,
{
    if count == 0 {
        Seq::empty()
    } else {
        entries_bytes(offsets, lines, (count - 1) as nat) + (spec_u64_to_le_bytes(
            offsets[count - 1],
        ) + spec_u64_to_le_bytes(lines[count - 1]))
    }
}

/// Each entry stands at its place.
proof fn lemma_entries_bytes(offsets: Seq<u64>, lines: Seq<u64>, count: nat, index: int)
    requires
        0 <= index < count,
    ensures
        entries_bytes(offsets, lines, count).len() == 16 * count,
        number_at(entries_bytes(offsets, lines, count), 16 * index) == offsets[index],
        number_at(entries_bytes(offsets, lines, count), 16 * index + 8) == lines[index],
    decreases count,
{
    lemma_auto_spec_u64_to_from_le_bytes();
    let shorter = entries_bytes(offsets, lines, (count - 1) as nat);
    let all = entries_bytes(offsets, lines, count);
    lemma_entries_len(offsets, lines, (count - 1) as nat);
    if index == count - 1 {
        assert(all.subrange(16 * index, 16 * index + 8) =~= spec_u64_to_le_bytes(offsets[index]));
        assert(all.subrange(16 * index + 8, 16 * index + 16) =~= spec_u64_to_le_bytes(
            lines[index],
        ));
    } else {
        lemma_entries_bytes(offsets, lines, (count - 1) as nat, index);
        assert(all.subrange(16 * index, 16 * index + 8) =~= shorter.subrange(
            16 * index,
            16 * index + 8,
        ));
        assert(all.subrange(16 * index + 8, 16 * index + 16) =~= shorter.subrange(
            16 * index + 8,
            16 * index + 16,
        ));
    }
}

proof fn lemma_entries_len(offsets: Seq<u64>, lines: Seq<u64>, count: nat)
    ensures
        entries_bytes(offsets, lines, count).len() == 16 * count,
    decreases count,
{
    lemma_auto_spec_u64_to_from_le_bytes();
    if count > 0 {
        lemma_entries_len(offsets, lines, (count - 1) as nat);
    }
}

impl Table {
    /// The bytes of the header.
    pub open spec fn header(self) -> Seq<u8> {
        header_bytes(
            self.source_len,
            self.source_hash,
            self.format,
            self.limits,
            self.offsets.len() as u64,
        )
    }

    /// The bytes of the entries.
    pub open spec fn entries(self) -> Seq<u8> {
        entries_bytes(self.offsets, self.lines, self.offsets.len())
    }

    /// The byte form of this index.
    pub open spec fn bytes(self) -> Seq<u8> {
        self.header() + self.entries() + (spec_u128_to_le_bytes(xxh3(self.entries()))
            + spec_u128_to_le_bytes(xxh3(self.header())))
    }
}

/// The entry `index` in stored bytes.
pub open spec fn stored_entry(bytes: Seq<u8>, index: int) -> (u64, u64) {
    (number_at(bytes, 101 + 16 * index), number_at(bytes, 109 + 16 * index))
}

/// What is wrong with the first entry from `index` on that is wrong.
pub open spec fn table_fault(bytes: Seq<u8>, source_len: u64, count: int, index: int) -> Option<
    &'static str,
>
    decreases count - index,
{
    if index >= count {
        None
    } else {
        let (offset, line) = stored_entry(bytes, index);
        let previous = if index <= 0 {
            None
        } else {
            Some(stored_entry(bytes, index - 1))
        };
        match entry_fault(offset, line, source_len, previous) {
            Some(fault) => Some(fault),
            None => table_fault(bytes, source_len, count, index + 1),
        }
    }
}

/// The checksum stored at `at`.
pub open spec fn stored_checksum(bytes: Seq<u8>, at: int) -> u128 {
    spec_u128_from_le_bytes(bytes.subrange(at, at + 16))
}

/// What is wrong with a header, or with the length of the stored bytes that it
/// heads.
pub open spec fn shape_fault(head: Seq<u8>, len: int) -> Option<Fault> {
    let header = header_of(head);
    let payload = header.count * 16 + 101;
    match header_fault(head) {
        Some(fault) => Some(fault),
        None => if payload + trailer_bytes(header.version) > u64::MAX {
            Some(Fault::Malformed(INDEX_LENGTH_OVERFLOW))
        } else if payload + trailer_bytes(header.version) != len {
            Some(Fault::Malformed(LOCATION_TABLE_LENGTH_MISMATCH))
        } else {
            None
        },
    }
}

/// What is wrong with the length of stored bytes, or with their header.
pub open spec fn layout_fault(bytes: Seq<u8>) -> Option<Fault> {
    if bytes.len() < FIXED_HEADER_BYTES {
        Some(Fault::Malformed(INDEX_TRUNCATED))
    } else {
        shape_fault(bytes.take(101), bytes.len() as int)
    }
}

/// What is wrong with the checksums of stored bytes of the right length.
pub open spec fn checksum_fault(bytes: Seq<u8>) -> Option<&'static str> {
    let header = header_of(bytes.take(101));
    let end = 101 + 16 * header.count as int;
    if header.version < 9 {
        if xxh3(bytes.take(end)) != stored_checksum(bytes, end) {
            Some(INDEX_CHECKSUM_MISMATCH)
        } else {
            None
        }
    } else if xxh3(bytes.subrange(101, end)) != stored_checksum(bytes, end) {
        Some(INDEX_ENTRIES_CHECKSUM_MISMATCH)
    } else if xxh3(bytes.take(101)) != stored_checksum(bytes, end + 16) {
        Some(INDEX_HEADER_CHECKSUM_MISMATCH)
    } else {
        None
    }
}

/// What is wrong with stored bytes.
pub open spec fn index_fault(bytes: Seq<u8>) -> Option<Fault> {
    match layout_fault(bytes) {
        Some(fault) => Some(fault),
        None => {
            let header = header_of(bytes.take(101));
            match table_fault(bytes, header.source_len, header.count as int, 0) {
                Some(detail) => Some(Fault::Malformed(detail)),
                None => match checksum_fault(bytes) {
                    Some(detail) => Some(Fault::Malformed(detail)),
                    None => None,
                },
            }
        },
    }
}

/// The index that stored bytes stand for, once they are known to be right.
pub open spec fn table_of(bytes: Seq<u8>) -> Table {
    let header = header_of(bytes.take(101));
    Table {
        source_len: header.source_len,
        source_hash: header.source_hash,
        format: header.format,
        limits: header.limits,
        offsets: Seq::new(header.count as nat, |i: int| stored_entry(bytes, i).0),
        lines: Seq::new(header.count as nat, |i: int| stored_entry(bytes, i).1),
    }
}

fn malformed_error(detail: &str) -> (error: Error)
    ensures
        malformed(error, detail),
{
    Error::detailed(ErrorKind::InvalidIndex, detail)
}

/// The header of `len` stored bytes, from its own bytes.
pub fn decode_shape(head: &[u8], len: u64) -> (result: Result<IndexHeader, Error>)
    requires
        head@.len() == 101,
    ensures
        match shape_fault(head@, len as int) {
            Some(fault) => result matches Err(error) && faulty(error, fault),
            None => result == Ok::<IndexHeader, Error>(header_of(head@)) && header_of(
                head@,
            ).format.dialect.valid(),
        },
{
    let header = match decode_header(head) {
        Ok(header) => header,
        Err(error) => {
            return Err(error);
        },
    };
    let payload: u64 = match payload_len(header.count) {
        Ok(len) => len,
        Err(error) => {
            return Err(error);
        },
    };
    match payload.checked_add(trailer_bytes(header.version) as u64) {
        None => Err(malformed_error(INDEX_LENGTH_OVERFLOW)),
        Some(expected) => if expected != len {
            Err(malformed_error(LOCATION_TABLE_LENGTH_MISMATCH))
        } else {
            Ok(header)
        },
    }
}

/// The header of stored bytes of the right length.
pub fn decode_layout(bytes: &[u8]) -> (result: Result<IndexHeader, Error>)
    ensures
        match layout_fault(bytes@) {
            Some(fault) => result matches Err(error) && faulty(error, fault),
            None => result == Ok::<IndexHeader, Error>(header_of(bytes@.take(101))) && header_of(
                bytes@.take(101),
            ).format.dialect.valid(),
        },
{
    if bytes.len() < FIXED_HEADER_BYTES {
        return Err(malformed_error(INDEX_TRUNCATED));
    }
    let head = &bytes[0..FIXED_HEADER_BYTES];
    assert(head@ =~= bytes@.take(101));
    assert(bytes@.len() == bytes.len());
    decode_shape(head, bytes.len() as u64)
}

fn read_number(bytes: &[u8], at: usize) -> (number: u64)
    requires
        at + 8 <= bytes.len(),
    ensures
        number == number_at(bytes@, at as int),
{
    u64_from_le_bytes(&bytes[at..at + 8])
}

fn read_checksum(bytes: &[u8], at: usize) -> (checksum: u128)
    requires
        at + 16 <= bytes.len(),
    ensures
        checksum == stored_checksum(bytes@, at as int),
{
    u128_from_le_bytes(&bytes[at..at + 16])
}

/// The entry `index` of stored bytes of the right length.
pub fn read_entry(bytes: &[u8], index: usize) -> (entry: (u64, u64))
    requires
        101 + 16 * (index + 1) <= bytes@.len(),
    ensures
        entry == stored_entry(bytes@, index as int),
{
    assert(bytes@.len() == bytes.len());
    let at: usize = FIXED_HEADER_BYTES + index * 16;
    (read_number(bytes, at), read_number(bytes, at + 8))
}

/// Fail when a checksum of stored bytes of the right length is wrong.
pub fn verify_checksums(bytes: &[u8], version: u32, count: usize) -> (result: Result<(), Error>)
    requires
        layout_fault(bytes@) is None,
        version == header_of(bytes@.take(101)).version,
        count == header_of(bytes@.take(101)).count,
    ensures
        checked(result, checksum_fault(bytes@)),
{
    assert(bytes@.len() == bytes.len());
    let end: usize = FIXED_HEADER_BYTES + count * 16;
    let stored: u128 = read_checksum(bytes, end);
    if version < 9 {
        let payload = &bytes[0..end];
        assert(payload@ =~= bytes@.take(end as int));
        if xxh3_128(payload) != stored {
            return Err(malformed_error(INDEX_CHECKSUM_MISMATCH));
        }
        return Ok(());
    }
    if xxh3_128(&bytes[FIXED_HEADER_BYTES..end]) != stored {
        return Err(malformed_error(INDEX_ENTRIES_CHECKSUM_MISMATCH));
    }
    let stored_header: u128 = read_checksum(bytes, end + CHECKSUM_BYTES);
    let header = &bytes[0..FIXED_HEADER_BYTES];
    assert(header@ =~= bytes@.take(101));
    if xxh3_128(header) != stored_header {
        return Err(malformed_error(INDEX_HEADER_CHECKSUM_MISMATCH));
    }
    Ok(())
}

/// Whether a source was indexed, or why not.
pub open spec fn indexed(
    source: Seq<u8>,
    options: IndexOptions,
    result: Result<CsvIndex, Error>,
) -> bool {
    if !readable(source, options) {
        result matches Err(error) && options.settings().refused_with(error)
    } else {
        match options.settings().records(source) {
            Listing::Complete(starts) => result matches Ok(index) && index@.indexes(
                source,
                options,
                starts,
            ),
            Listing::Broken { starts, kind, at, number } => result matches Err(error) && reports(
                error,
                starts.len() as u64,
                source,
                kind,
                at,
                number,
            ),
        }
    }
}

impl CsvIndex {
    /// Index a source held in memory.
    pub fn build(source: &[u8], options: IndexOptions) -> (result: Result<CsvIndex, Error>)
        ensures
            indexed(source@, options, result),
    {
        match build_positions(source, options, 1) {
            Ok((offsets, lines)) => Ok(CsvIndex::from_positions(source, options, offsets, lines)),
            Err(error) => Err(error),
        }
    }

    /// Index a source held in memory, record by record.
    pub fn benchmark_build_serial(source: &[u8], options: IndexOptions) -> (result: Result<
        CsvIndex,
        Error,
    >)
        ensures
            indexed(source@, options, result),
    {
        match build_positions_serial(source, options) {
            Ok((offsets, lines)) => Ok(CsvIndex::from_positions(source, options, offsets, lines)),
            Err(error) => Err(error),
        }
    }

    /// Index a source held in memory, piece by piece, for this many threads.
    ///
    /// Refuses a format whose documents cannot be cut into pieces.
    pub fn benchmark_build_parallel(
        source: &[u8],
        options: IndexOptions,
        threads: usize,
    ) -> (result: Result<CsvIndex, Error>)
        ensures
            if supports_pieces(options.format) {
                indexed(source@, options, result)
            } else {
                result matches Err(error) && error.says(
                    ErrorKind::InvalidIndex,
                    PARALLEL_FORMAT_UNSUPPORTED@,
                )
            },
    {
        if !parallel_index_supported(options.format) {
            return Err(Error::detailed(ErrorKind::InvalidIndex, PARALLEL_FORMAT_UNSUPPORTED));
        }
        match build_positions_parallel(source, options, normalized_thread_count(threads)) {
            Ok((offsets, lines)) => Ok(CsvIndex::from_positions(source, options, offsets, lines)),
            Err(error) => Err(error),
        }
    }

    /// Where each record starts.
    pub fn offsets(&self) -> (offsets: &Vec<u64>)
        ensures
            offsets@ == self@.offsets,
    {
        &self.offsets
    }

    /// The physical line that each record starts on.
    pub fn lines(&self) -> (lines: &Vec<u64>)
        ensures
            lines@ == self@.lines,
    {
        &self.lines
    }

    /// The index of a source whose records are known.
    pub fn from_positions(
        source: &[u8],
        options: IndexOptions,
        offsets: Vec<u64>,
        lines: Vec<u64>,
    ) -> (index: CsvIndex)
        requires
            offsets@.len() == lines@.len(),
        ensures
            index@ == (Table {
                source_len: source@.len() as u64,
                source_hash: xxh3(source@),
                format: options.format,
                limits: options.limits,
                offsets: offsets@,
                lines: lines@,
            }),
            index@.source_len == source@.len(),
    {
        CsvIndex {
            source_len: widen(source.len()),
            source_hash: xxh3_128(source),
            format: options.format,
            limits: options.limits,
            offsets,
            lines,
        }
    }

    /// How many records are indexed.
    pub fn len(&self) -> (len: usize)
        ensures
            len == self@.offsets.len(),
    {
        self.offsets.len()
    }

    /// Whether no record is indexed.
    pub fn is_empty(&self) -> (empty: bool)
        ensures
            empty == (self@.offsets.len() == 0),
    {
        self.offsets.len() == 0
    }

    /// The format that the source was read with.
    pub fn format(&self) -> (format: FormatOptions)
        ensures
            format == self@.format,
    {
        self.format
    }

    /// The limits that the source was read under.
    pub fn limits(&self) -> (limits: Limits)
        ensures
            limits == self@.limits,
    {
        self.limits
    }

    /// Where record `record` starts.
    pub fn record_offset(&self, record: usize) -> (offset: Option<u64>)
        ensures
            offset == (if record < self@.offsets.len() {
                Some(self@.offsets[record as int])
            } else {
                None
            }),
    {
        if record < self.offsets.len() {
            Some(self.offsets[record])
        } else {
            None
        }
    }

    /// The physical line that record `record` starts on.
    pub fn record_line(&self, record: usize) -> (line: Option<u64>)
        ensures
            line == (if record < self@.lines.len() {
                Some(self@.lines[record as int])
            } else {
                None
            }),
    {
        if record < self.lines.len() {
            Some(self.lines[record])
        } else {
            None
        }
    }

    /// Fail when `source` is not what this index was built from.
    pub fn validate_source(&self, source: &[u8]) -> (result: Result<(), Error>)
        ensures
            result is Ok == self@.identifies(source@),
            result is Ok ==> self@.source_len == source@.len() && self@.source_hash == xxh3(
                source@,
            ),
            result is Err ==> self@.source_len != source@.len() || self@.source_hash != xxh3(
                source@,
            ),
            result matches Err(error) ==> error.spec_kind() == ErrorKind::SourceMismatch
                && error.spec_location() == Location::start(),
    {
        if source.len() as u64 != self.source_len || xxh3_128(source) != self.source_hash {
            return Err(Error::new(ErrorKind::SourceMismatch, Location::start()));
        }
        Ok(())
    }

    /// Where record `record` starts, as a location in the source.
    pub fn location_at(&self, record: usize) -> (result: Result<Location, Error>)
        ensures
            result is Ok == (record < self@.offsets.len() && self@.offsets[record as int]
                < self@.source_len),
            result matches Ok(location) ==> location == (Location {
                byte: self@.offsets[record as int] as usize,
                line: self@.lines[record as int],
                record: record as u64,
                field: 0,
            }),
            result matches Err(error) ==> if record < self@.offsets.len() {
                malformed(error, RECORD_OFFSET_EXCEEDS_SOURCE)
            } else {
                error.spec_kind() == (ErrorKind::RecordOutOfRange { record })
                    && error.spec_location() == Location::start()
            },
    {
        proof {
            use_type_invariant(self);
        }
        if record >= self.offsets.len() {
            return Err(record_out_of_range(record));
        }
        entry_location(self.offsets[record], self.lines[record], self.source_len, record)
    }

    fn parser_at_validated<'source>(&self, source: &'source [u8], record: usize) -> (result: Result<
        SliceParser<'source>,
        Error,
    >)
        requires
            self@.identifies(source@),
        ensures
            self@.parses_at(source@, record as int, result),
    {
        let location = match self.location_at(record) {
            Ok(location) => location,
            Err(error) => {
                return Err(error);
            },
        };
        parser_at_location(
            source,
            self.source_len,
            IndexOptions { format: self.format, limits: self.limits },
            location,
        )
    }

    /// A parser of `source` that is at record `record`.
    pub fn parser_at<'source>(&self, source: &'source [u8], record: usize) -> (result: Result<
        SliceParser<'source>,
        Error,
    >)
        ensures
            !self@.identifies(source@) ==> (result matches Err(error) && error.spec_kind()
                == ErrorKind::SourceMismatch && error.spec_location() == Location::start()),
            self@.identifies(source@) ==> self@.parses_at(source@, record as int, result),
            result is Ok ==> self@.source_len == source@.len() && self@.source_hash == xxh3(
                source@,
            ),
    {
        if let Err(error) = self.validate_source(source) {
            return Err(error);
        }
        self.parser_at_validated(source, record)
    }

    /// This index with a source that was checked once.
    pub fn bind<'index, 'source>(&'index self, source: &'source [u8]) -> (result: Result<
        BoundSource<'index, 'source>,
        Error,
    >)
        ensures
            result is Ok == self@.identifies(source@),
            result is Ok ==> self@.source_len == source@.len() && self@.source_hash == xxh3(
                source@,
            ),
            result is Err ==> self@.source_len != source@.len() || self@.source_hash != xxh3(
                source@,
            ),
            result matches Ok(bound) ==> bound.table() == self@ && bound.bytes() == source@,
            result matches Err(error) ==> error.spec_kind() == ErrorKind::SourceMismatch
                && error.spec_location() == Location::start(),
    {
        if let Err(error) = self.validate_source(source) {
            return Err(error);
        }
        Ok(BoundSource { index: self, source })
    }

    /// The byte form of this index.
    pub fn encode(&self) -> (bytes: Vec<u8>)
        ensures
            bytes@ == self@.bytes(),
    {
        proof {
            use_type_invariant(self);
        }
        let count: usize = self.offsets.len();
        let header = encode_header(
            self.source_len,
            self.source_hash,
            self.format,
            self.limits,
            count as u64,
        );
        let mut entries: Vec<u8> = Vec::new();
        let mut index: usize = 0;
        while index < count
            invariant
                index <= count == self.offsets@.len() == self.lines@.len(),
                entries@ == entries_bytes(self.offsets@, self.lines@, index as nat),
            decreases count - index,
        {
            let ghost before = entries@;
            entries.extend_from_slice(u64_to_le_bytes(self.offsets[index]).as_slice());
            entries.extend_from_slice(u64_to_le_bytes(self.lines[index]).as_slice());
            proof {
                assert(entries@ =~= before + (spec_u64_to_le_bytes(self.offsets@[index as int])
                    + spec_u64_to_le_bytes(self.lines@[index as int])));
            }
            index += 1;
        }
        let entries_checksum: u128 = xxh3_128(entries.as_slice());
        let header_checksum: u128 = xxh3_128(header.as_slice());
        let mut bytes = header;
        let ghost head = bytes@;
        bytes.extend_from_slice(entries.as_slice());
        bytes.extend_from_slice(u128_to_le_bytes(entries_checksum).as_slice());
        bytes.extend_from_slice(u128_to_le_bytes(header_checksum).as_slice());
        proof {
            assert(bytes@ =~= head + entries@ + (spec_u128_to_le_bytes(entries_checksum)
                + spec_u128_to_le_bytes(header_checksum)));
        }
        bytes
    }

    /// Read an index back from its byte form.
    pub fn decode(bytes: &[u8]) -> (result: Result<CsvIndex, Error>)
        ensures
            match index_fault(bytes@) {
                Some(fault) => result matches Err(error) && faulty(error, fault),
                None => result matches Ok(index) && index@ == table_of(bytes@) && index@.valid(),
            },
    {
        let header = match decode_layout(bytes) {
            Ok(header) => header,
            Err(error) => {
                return Err(error);
            },
        };
        assert(bytes@.len() == bytes.len());
        let count: usize = match narrow(header.count, RECORD_COUNT_NOT_USIZE) {
            Ok(count) => count,
            Err(error) => {
                return Err(error);
            },
        };
        let (mut offsets, mut lines) = position_tables(eager_reserve(count));
        let mut previous: Option<(u64, u64)> = None;
        let mut index: usize = 0;
        let ghost table = table_of(bytes@);
        while index < count
            invariant
                index <= count,
                101 + 16 * count <= bytes@.len(),
                count == header.count,
                layout_fault(bytes@) is None,
                header == header_of(bytes@.take(101)),
                table == table_of(bytes@),
                offsets@.len() == index,
                lines@.len() == index,
                offsets@ == table.offsets.take(index as int),
                lines@ == table.lines.take(index as int),
                forall|i: int|
                    0 <= i < index ==> entry_fault(
                        #[trigger] table.offsets[i],
                        table.lines[i],
                        table.source_len,
                        table.previous(i),
                    ) is None,
                previous == (if index == 0 {
                    None
                } else {
                    Some(stored_entry(bytes@, index - 1))
                }),
                table_fault(bytes@, header.source_len, count as int, 0) == table_fault(
                    bytes@,
                    header.source_len,
                    count as int,
                    index as int,
                ),
            decreases count - index,
        {
            let (offset, line) = read_entry(bytes, index);
            if let Err(error) = check_entry(offset, line, header.source_len, previous) {
                return Err(error);
            }
            assert(table.offsets[index as int] == offset && table.lines[index as int] == line);
            previous = Some((offset, line));
            offsets.push(offset);
            lines.push(line);
            index += 1;
            assert(offsets@ =~= table.offsets.take(index as int));
            assert(lines@ =~= table.lines.take(index as int));
        }
        if let Err(error) = verify_checksums(bytes, header.version, count) {
            return Err(error);
        }
        let index = CsvIndex {
            source_len: header.source_len,
            source_hash: header.source_hash,
            format: header.format,
            limits: header.limits,
            offsets,
            lines,
        };
        proof {
            assert(index@.offsets =~= table.offsets);
            assert(index@.lines =~= table.lines);
        }
        Ok(index)
    }
}

/// Whether `result` is a parser of `source` at `location`, or the reason why
/// there is none.
///
/// Of the source only its length is checked.
pub open spec fn seeks_to<'source>(
    source: Seq<u8>,
    source_len: u64,
    options: IndexOptions,
    location: Location,
    result: Result<SliceParser<'source>, Error>,
) -> bool {
    if source.len() != source_len {
        result matches Err(error) && error.spec_kind() == ErrorKind::SourceMismatch
            && error.spec_location() == Location::start()
    } else if !options.format.dialect.valid() {
        result matches Err(error) && options.seek_settings().refused_with(error)
    } else {
        result matches Ok(parser) && {
            &&& parser.wf()
            &&& parser.document() == source
            &&& parser.spec_settings() == options.seek_settings()
            &&& parser.spec_origin() == (location.byte, location.line)
            &&& parser.state().built_from(options.seek_settings())
            &&& parser.state().location == location.byte
            &&& parser.state().record == location.record
        }
    }
}

/// A parser of `source` at a location inside it.
pub fn parser_at_location<'source>(
    source: &'source [u8],
    source_len: u64,
    options: IndexOptions,
    location: Location,
) -> (result: Result<SliceParser<'source>, Error>)
    requires
        location.byte < source_len,
    ensures
        seeks_to(source@, source_len, options, location, result),
{
    if source.len() as u64 != source_len {
        return Err(Error::new(ErrorKind::SourceMismatch, Location::start()));
    }
    let settings = ParserSettings::from_format(
        options.format.read_bom(ReadBom::Preserve),
        options.limits,
    );
    let mut parser = match SliceParser::with_settings(source, settings) {
        Ok(parser) => parser,
        Err(error) => {
            return Err(error);
        },
    };
    match parser.seek(location) {
        Ok(()) => Ok(parser),
        Err(error) => Err(error),
    }
}

/// Whether a source was indexed and the byte form of the index handed to a
/// reader, or why not.
pub open spec fn created(
    source: Seq<u8>,
    options: IndexOptions,
    result: Result<CsvIndexReader, Error>,
) -> bool {
    if !readable(source, options) {
        result matches Err(error) && options.settings().refused_with(error)
    } else {
        match options.settings().records(source) {
            Listing::Complete(starts) => result matches Ok(reader) && reader.wf() && exists|
                table: Table,
            |
                #![trigger table.bytes()]
                table.indexes(source, options, starts) && reader.bytes() == table.bytes(),
            Listing::Broken { starts, kind, at, number } => result matches Err(error) && reports(
                error,
                starts.len() as u64,
                source,
                kind,
                at,
                number,
            ),
        }
    }
}

impl CsvIndex {
    /// Index a source, and hand the byte form of the index to a reader of it.
    pub fn create(source: &[u8], options: IndexOptions) -> (result: Result<CsvIndexReader, Error>)
        ensures
            created(source@, options, result),
    {
        let index = match CsvIndex::build(source, options) {
            Ok(index) => index,
            Err(error) => {
                return Err(error);
            },
        };
        assert(source@.len() == source.len());
        let bytes = index.encode();
        proof {
            if let Listing::Complete(starts) = options.settings().records(source@) {
                assert(bytes@.len() == bytes.len());
                law_a_built_index_is_valid(index@, source@, options, starts);
                law_a_stored_index_is_read_back(index@);
            }
        }
        CsvIndexReader::new(bytes)
    }

    /// Fail when `source` is not what this index was built from.
    pub fn validate_reader(&self, source: &[u8]) -> (result: Result<(), Error>)
        ensures
            result is Ok == self@.identifies(source@),
            result is Ok ==> self@.source_len == source@.len() && self@.source_hash == xxh3(
                source@,
            ),
            result is Err ==> self@.source_len != source@.len() || self@.source_hash != xxh3(
                source@,
            ),
            result matches Err(error) ==> error.spec_kind() == ErrorKind::SourceMismatch
                && error.spec_location() == Location::start(),
    {
        self.validate_source(source)
    }

    /// A parser of `source` that is at record `record`.
    ///
    /// Unlike [`CsvIndex::parser_at`] this reads nothing of the source: its
    /// length is checked, its content is not.
    pub fn parser_at_reader<'source>(&self, source: &'source [u8], record: usize) -> (result: Result<
        SliceParser<'source>,
        Error,
    >)
        ensures
            if record >= self@.offsets.len() {
                result matches Err(error) && error.spec_kind() == (ErrorKind::RecordOutOfRange {
                    record,
                }) && error.spec_location() == Location::start()
            } else if self@.offsets[record as int] >= self@.source_len {
                result matches Err(error) && malformed(error, RECORD_OFFSET_EXCEEDS_SOURCE)
            } else {
                seeks_to(
                    source@,
                    self@.source_len,
                    self@.options(),
                    (Location {
                        byte: self@.offsets[record as int] as usize,
                        line: self@.lines[record as int],
                        record: record as u64,
                        field: 0,
                    }),
                    result,
                )
            },
    {
        let location = match self.location_at(record) {
            Ok(location) => location,
            Err(error) => {
                return Err(error);
            },
        };
        parser_at_location(
            source,
            self.source_len,
            IndexOptions { format: self.format, limits: self.limits },
            location,
        )
    }
}

impl Table {
    /// Whether `result` is a parser of `source` at record `record`, or the
    /// reason why there is none.
    pub open spec fn parses_at<'source>(
        self,
        source: Seq<u8>,
        record: int,
        result: Result<SliceParser<'source>, Error>,
    ) -> bool {
        let settings = self.options().seek_settings();
        if record >= self.offsets.len() {
            result matches Err(error) && error.spec_kind() == (ErrorKind::RecordOutOfRange {
                record: record as usize,
            }) && error.spec_location() == Location::start()
        } else if self.offsets[record] >= self.source_len {
            result matches Err(error) && malformed(error, RECORD_OFFSET_EXCEEDS_SOURCE)
        } else if !self.format.dialect.valid() {
            result matches Err(error) && settings.refused_with(error)
        } else {
            result matches Ok(parser) && {
                &&& parser.wf()
                &&& parser.document() == source
                &&& parser.spec_settings() == settings
                &&& parser.spec_origin() == (self.offsets[record] as usize, self.lines[record])
                &&& parser.state().built_from(settings)
                &&& parser.state().location == self.offsets[record]
                &&& parser.state().record == record
            }
        }
    }
}

/// An index with a source that was checked once.
#[derive(Clone, Copy, Debug)]
pub struct BoundSource<'index, 'source> {
    index: &'index CsvIndex,
    source: &'source [u8],
}

impl<'index, 'source> BoundSource<'index, 'source> {
    /// The source is the one that the index belongs to.
    #[verifier::type_invariant]
    spec fn bound(self) -> bool {
        self.index@.identifies(self.source@)
    }

    /// The index.
    pub closed spec fn table(&self) -> Table {
        self.index@
    }

    /// The source.
    pub closed spec fn bytes(&self) -> Seq<u8> {
        self.source@
    }

    /// A parser of the source that is at record `record`.
    pub fn parser_at(&self, record: usize) -> (result: Result<SliceParser<'source>, Error>)
        ensures
            self.table().parses_at(self.bytes(), record as int, result),
    {
        proof {
            use_type_invariant(self);
        }
        self.index.parser_at_validated(self.source, record)
    }
}

/// Where the parts of a stored index stand.
pub proof fn lemma_stored_parts(table: Table)
    requires
        table.header().len() == 101,
    ensures
        ({
            let bytes = table.bytes();
            let end = 101 + 16 * table.offsets.len() as int;
            &&& bytes.len() == end + 32
            &&& bytes.take(101) == table.header()
            &&& bytes.subrange(101, end) == table.entries()
            &&& stored_checksum(bytes, end) == xxh3(table.entries())
            &&& stored_checksum(bytes, end + 16) == xxh3(table.header())
        }),
{
    lemma_auto_spec_u128_to_from_le_bytes();
    lemma_entries_len(table.offsets, table.lines, table.offsets.len());
    let bytes = table.bytes();
    let end = 101 + 16 * table.offsets.len() as int;
    assert(bytes.take(101) =~= table.header());
    assert(bytes.subrange(101, end) =~= table.entries());
    assert(bytes.subrange(end, end + 16) =~= spec_u128_to_le_bytes(xxh3(table.entries())));
    assert(bytes.subrange(end + 16, end + 32) =~= spec_u128_to_le_bytes(xxh3(table.header())));
}

/// Where an entry of a stored index stands.
pub proof fn lemma_stored_entry(table: Table, index: int)
    requires
        table.header().len() == 101,
        0 <= index < table.offsets.len(),
    ensures
        stored_entry(table.bytes(), index) == (table.offsets[index], table.lines[index]),
{
    lemma_stored_parts(table);
    let bytes = table.bytes();
    let entries = table.entries();
    let end = 101 + 16 * table.offsets.len() as int;
    lemma_entries_bytes(table.offsets, table.lines, table.offsets.len(), index);
    assert(bytes.subrange(101, end) == entries);
    assert(bytes.subrange(101 + 16 * index, 109 + 16 * index) =~= entries.subrange(
        16 * index,
        16 * index + 8,
    ));
    assert(bytes.subrange(109 + 16 * index, 117 + 16 * index) =~= entries.subrange(
        16 * index + 8,
        16 * index + 16,
    ));
}

/// An index that was stored is read back; of its format only where it came from
/// is forgotten.
pub proof fn law_a_stored_index_is_read_back(table: Table)
    requires
        table.valid(),
        table.bytes().len() <= usize::MAX,
    ensures
        index_fault(table.bytes()) is None,
        table_of(table.bytes()) == (Table {
            format: FormatOptions { tag: FormatTag::Custom, ..table.format },
            ..table
        }),
{
    let bytes = table.bytes();
    let count = table.offsets.len();
    law_a_written_header_is_read_back(
        table.source_len,
        table.source_hash,
        table.format,
        table.limits,
        count as u64,
    );
    lemma_stored_parts(table);
    assert forall|i: int| 0 <= i < count implies #[trigger] stored_entry(bytes, i) == (
        table.offsets[i],
        table.lines[i],
    ) by {
        lemma_stored_entry(table, i);
    }
    lemma_no_table_fault(bytes, table, 0);
    let read = table_of(bytes);
    assert(header_of(bytes.take(101)).count == count);
    assert(read.offsets =~= table.offsets);
    assert(read.lines =~= table.lines);
}

proof fn lemma_no_table_fault(bytes: Seq<u8>, table: Table, index: int)
    requires
        table.valid(),
        0 <= index <= table.offsets.len(),
        forall|i: int|
            0 <= i < table.offsets.len() ==> #[trigger] stored_entry(bytes, i) == (
                table.offsets[i],
                table.lines[i],
            ),
    ensures
        table_fault(bytes, table.source_len, table.offsets.len() as int, index) is None,
    decreases table.offsets.len() - index,
{
    if index < table.offsets.len() {
        assert(table.sound_at(index));
        assert(stored_entry(bytes, index) == (table.offsets[index], table.lines[index]));
        if index > 0 {
            assert(stored_entry(bytes, index - 1) == (
                table.offsets[index - 1],
                table.lines[index - 1],
            ));
        }
        lemma_no_table_fault(bytes, table, index + 1);
    }
}

/// An index never accepts a source of another length, and an index read back
/// accepts exactly the sources it accepted before it was stored.
pub proof fn law_storing_keeps_the_source(table: Table, source: Seq<u8>)
    requires
        table.valid(),
        table.bytes().len() <= usize::MAX,
    ensures
        table_of(table.bytes()).identifies(source) == table.identifies(source),
        table.identifies(source) ==> table.source_len == source.len(),
{
    law_a_stored_index_is_read_back(table);
}

/// The records of a document start in order, each where a record can start.
pub open spec fn proper_starts(
    settings: ParserSettings,
    source: Seq<u8>,
    starts: Seq<int>,
    limit: int,
) -> bool {
    &&& forall|i: int|
        0 <= i < starts.len() ==> {
            &&& 0 <= #[trigger] starts[i] < limit
            &&& settings.record_start(source, starts[i]) == starts[i]
        }
    &&& forall|i: int, j: int| 0 <= i < j < starts.len() ==> starts[i] < starts[j]
}

pub proof fn lemma_record_start_again(settings: ParserSettings, source: Seq<u8>, at: int)
    requires
        0 <= at <= source.len(),
    ensures
        settings.record_start(source, settings.record_start(source, at))
            == settings.record_start(source, at),
    decreases source.len() - at,
{
    if at < source.len() {
        settings.dialect.lemma_line_end(source, at);
        if settings.dialect.comment == Some(source[at]) {
            lemma_record_start_again(settings, source, settings.line_end(source, at));
        } else if settings.blank_records == BlankRecords::Skip && settings.ending_len(source, at)
            > 0 {
            lemma_record_start_again(settings, source, at + settings.ending_len(source, at));
        }
    }
}

/// Records are listed in order, each where a record can start.
pub proof fn lemma_listing_proper(
    settings: ParserSettings,
    source: Seq<u8>,
    at: int,
    starts: Seq<int>,
)
    requires
        0 <= at <= source.len(),
        proper_starts(settings, source, starts, at),
    ensures
        settings.listing(source, at, starts) matches Listing::Complete(all) ==> proper_starts(
            settings,
            source,
            all,
            source.len() as int,
        ) && starts.len() <= all.len() && all.take(starts.len() as int) == starts,
    decreases source.len() - at,
{
    lemma_record_start(settings, source, at);
    lemma_record_start_again(settings, source, at);
    let start = settings.record_start(source, at);
    if start < source.len() {
        lemma_record_takes_bytes(settings.rules(), source, start, settings.nulls);
        match settings.rules().read_record(source, start, settings.nulls) {
            crate::engine::grammar::Scan::Done { next, .. } => {
                let more = starts.push(start);
                lemma_listing_proper(settings, source, next, more);
                if let Listing::Complete(all) = settings.listing(source, next, more) {
                    assert(all.take(starts.len() as int) =~= all.take(more.len() as int).take(
                        starts.len() as int,
                    ));
                    assert(more.take(starts.len() as int) =~= starts);
                }
            },
            _ => {},
        }
    } else {
        assert(starts.take(starts.len() as int) =~= starts);
    }
}

proof fn lemma_lines_grow(source: Seq<u8>, a: int, b: int)
    requires
        0 <= a <= b <= source.len(),
        source.len() <= usize::MAX,
    ensures
        1 <= line_number(source, a) <= line_number(source, b),
{
    let piece = source.subrange(a, b);
    assert(source.take(a) + piece =~= source.take(b));
    lemma_occurrences_concat(source.take(a), piece, LF);
    lemma_occurrences_bounded(source.take(b), LF);
}

/// Positions in order make a well-formed index.
pub proof fn lemma_positions_valid(
    table: Table,
    source: Seq<u8>,
    options: IndexOptions,
    starts: Seq<int>,
)
    requires
        source.len() <= usize::MAX,
        options.format.dialect.valid(),
        forall|i: int| 0 <= i < starts.len() ==> 0 <= #[trigger] starts[i] < source.len(),
        forall|i: int, j: int| 0 <= i < j < starts.len() ==> starts[i] < starts[j],
        table.indexes(source, options, starts),
    ensures
        table.valid(),
        table.identifies(source),
{
    assert forall|i: int| 0 <= i < table.offsets.len() implies entry_fault(
        #[trigger] table.offsets[i],
        table.lines[i],
        table.source_len,
        table.previous(i),
    ) is None by {
        assert(table.offsets[i] == starts[i]);
        lemma_lines_grow(source, starts[i], starts[i]);
        if i > 0 {
            assert(table.offsets[i - 1] == starts[i - 1]);
            assert(starts[i - 1] < starts[i]);
            lemma_lines_grow(source, starts[i - 1], starts[i]);
        }
    }
}

/// The index of a document is well formed: its offsets increase and stay inside
/// the source, its lines do not decrease. It can be stored and read back.
pub proof fn law_a_built_index_is_valid(
    table: Table,
    source: Seq<u8>,
    options: IndexOptions,
    starts: Seq<int>,
)
    requires
        source.len() <= usize::MAX,
        options.format.dialect.valid(),
        options.settings().records(source) == Listing::Complete(starts),
        table.indexes(source, options, starts),
    ensures
        table.valid(),
        table.identifies(source),
{
    let settings = options.settings();
    lemma_listing_proper(settings, source, settings.document_start(source), Seq::empty());
    lemma_positions_valid(table, source, options, starts);
}

/// A parser that an index hands back is at the record that was asked for: it
/// skips nothing, and it reads with the settings that found the record.
pub proof fn law_seeking_finds_the_record<'source>(
    table: Table,
    source: Seq<u8>,
    options: IndexOptions,
    starts: Seq<int>,
    record: int,
    parser: SliceParser<'source>,
)
    requires
        source.len() <= usize::MAX,
        options.format.dialect.valid(),
        options.settings().records(source) == Listing::Complete(starts),
        table.indexes(source, options, starts),
        0 <= record < starts.len(),
        table.parses_at(source, record, Ok::<SliceParser<'source>, Error>(parser)),
    ensures
        parser.state().location == starts[record],
        parser.next_state().location == starts[record],
        parser.state().rules() == options.settings().rules(),
{
    let settings = options.settings();
    lemma_listing_proper(settings, source, settings.document_start(source), Seq::empty());
    assert(table.offsets[record] == starts[record]);
    lemma_same_starts(options.seek_settings(), settings, source, starts[record]);
}

pub proof fn lemma_same_starts(a: ParserSettings, b: ParserSettings, source: Seq<u8>, at: int)
    requires
        a.dialect == b.dialect,
        a.blank_records == b.blank_records,
    ensures
        a.record_start(source, at) == b.record_start(source, at),
    decreases source.len() - at,
{
    if 0 <= at < source.len() {
        a.dialect.lemma_line_end(source, at);
        if a.dialect.comment == Some(source[at]) {
            lemma_same_starts(a, b, source, a.line_end(source, at));
        } else if a.blank_records == BlankRecords::Skip && a.ending_len(source, at) > 0 {
            lemma_same_starts(a, b, source, at + a.ending_len(source, at));
        }
    }
}

} // verus!
