//! Encoding records and indexing them in one go.

use vstd::bytes::{
    lemma_auto_spec_u64_to_from_le_bytes, spec_u128_to_le_bytes, spec_u64_to_le_bytes,
    u128_to_le_bytes, u64_to_le_bytes,
};
use vstd::prelude::*;

use crate::ascii::{CR, LF};
use crate::byte_record::ByteRecord;
use crate::config::{BlankRecords, Escape, Limits, ReadBom, RecordEnding, WriteBom};
use crate::emit::encoding::Writing;
use crate::emit::laws::{holds, lemma_holds_within, lemma_record_stands};
use crate::emit::push_emitter::{
    all_rows, law_output_is_a_mark_and_the_records, row_at, Emitting, PushEmitter,
};
use crate::engine::checked_locality::{
    law_a_whole_record_is_read_from_its_own_bytes, lemma_reading_ended, lemma_same_breaks, uncut,
};
use crate::engine::grammar::Scan;
use crate::engine::locality::law_a_record_is_read_from_its_own_bytes;
use crate::engine::{bom, has_bom, line_number, BOM_FIRST, BOM_SECOND, BOM_THIRD};
use crate::error::{Error, ErrorKind, Location};
use crate::index::csv_index::{
    created, entries_bytes, law_a_stored_index_is_read_back, lemma_positions_valid,
    lemma_same_starts, positions, CsvIndex, Table,
};
use crate::index::csv_index_reader::{law_entries_are_read_on_demand, CsvIndexReader};
use crate::index::format::{
    encode_header, header_bytes, ENCODED_VALUE_MULTIPLE_RECORDS, OUTPUT_LENGTH_OVERFLOW,
    TOO_MANY_RECORDS,
};
use crate::index::hash::{xxh3, xxh3_128};
use crate::index::index_options::IndexOptions;
use crate::index::stream::StreamHash;
use crate::index::validator::{checked_as, one_record, FastValidator, RecordValidator, Verdict};
use crate::index::validator_laws::law_what_a_scan_accepts_is_one_record;
use crate::options::{EmitOptions, FormatOptions, FormatTag, ParserSettings};
use crate::search::{
    count_newlines, lemma_occurrences_bounded, lemma_occurrences_concat, occurrences,
};
use crate::slice_parser::{lemma_record_start, lemma_record_takes_bytes, Listing, SliceParser};
use crate::storage::{Field, RecordStorage};

verus! {

/// Whether enough is buffered to hand it over.
#[verifier::allow_in_spec]
pub fn should_flush_buffer(buffered: usize, threshold: usize) -> bool
    returns
        buffered >= threshold,
{
    buffered >= threshold
}

/// Whether a record is read back as itself, whatever follows it.
///
/// The record is read with the byte of a record ending behind it: what ends a
/// record too late shows by taking that byte in. Where separators have more than
/// one byte, the end of the record must not cut one off.
pub open spec fn reads_back(settings: ParserSettings, record: Seq<u8>) -> bool {
    let probe = record.push(settings.rules().terminator());
    &&& record.len() > 0
    &&& if settings.dialect.multibyte() {
        uncut(settings.dialect, record)
    } else {
        record[record.len() - 1] == settings.rules().terminator()
    }
    &&& settings.record_start(probe, 0) == 0
    &&& settings.rules().read_record(probe, 0, settings.nulls) matches Scan::Done { next, .. }
        && next == record.len()
}

/// Whether the first byte of a record is neither that of a comment nor that of
/// an empty line that is skipped.
pub open spec fn plainly_visible(settings: ParserSettings, record: Seq<u8>) -> bool {
    &&& record.len() > 0
    &&& settings.dialect.comment != Some(record[0])
    &&& settings.blank_records == BlankRecords::Skip
        ==> !settings.dialect.record_ending.contains(record[0])
}

/// Whether what a scan accepts is sure to be one record.
pub open spec fn scan_suffices(format: FormatOptions, limits: Limits, record: Seq<u8>) -> bool {
    &&& FastValidator::exact(format)
    &&& plainly_visible(ParserSettings::of_format(format, limits), record)
    &&& record.len() <= limits.max_record_bytes
}

/// What a scan makes of a record: it is refused at once, or accepted where that
/// will do.
pub open spec fn scanned(format: FormatOptions, limits: Limits, record: Seq<u8>) -> Verdict {
    if !FastValidator::covers(format) {
        Verdict::Unsure
    } else {
        match FastValidator::of(format).judge(record, limits) {
            Verdict::Accepted(feeds) => if scan_suffices(format, limits, record) {
                Verdict::Accepted(feeds)
            } else {
                Verdict::Unsure
            },
            other => other,
        }
    }
}

/// Whether a record may be committed.
#[verifier::opaque]
pub open spec fn confirmed(format: FormatOptions, limits: Limits, record: Seq<u8>) -> bool {
    let settings = ParserSettings {
        bom: ReadBom::Preserve,
        ..ParserSettings::of_format(format, limits)
    };
    match scanned(format, limits, record) {
        Verdict::Accepted(_) => true,
        Verdict::Refused(_) => false,
        Verdict::Unsure => one_record(settings.records(record)) && reads_back(settings, record),
    }
}

/// Whether an error says why a record may not be committed: the scan refused it,
/// it is no record or more than one, or what follows would become part of it.
#[verifier::opaque]
pub open spec fn unconfirmed(
    format: FormatOptions,
    limits: Limits,
    record: Seq<u8>,
    error: Error,
) -> bool {
    let settings = ParserSettings {
        bom: ReadBom::Preserve,
        ..ParserSettings::of_format(format, limits)
    };
    match scanned(format, limits, record) {
        Verdict::Accepted(_) => false,
        Verdict::Refused(kind) => error.spec_kind() == kind && error.spec_location()
            == Location::unknown(),
        Verdict::Unsure => if one_record(settings.records(record)) {
            !reads_back(settings, record) && error.says(
                ErrorKind::Encode,
                ENCODED_VALUE_MULTIPLE_RECORDS@,
            )
        } else {
            checked_as(settings.records(record), record, Err(error))
        },
    }
}

/// A record that was confirmed is one record of any document it stands in.
pub proof fn law_a_confirmed_record_stands(
    format: FormatOptions,
    limits: Limits,
    record: Seq<u8>,
    input: Seq<u8>,
    at: int,
)
    requires
        format.dialect.valid(),
        confirmed(format, limits, record),
        0 <= at,
        holds(input, at, record),
    ensures
        record.len() > 0,
        ({
            let settings = ParserSettings::of_format(format, limits);
            &&& settings.record_start(input, at) == at
            &&& settings.rules().read_record(input, at, settings.nulls) matches Scan::Done {
                next,
                ..
            }
            &&& next == at + record.len()
        }),
{
    reveal(confirmed);
    let settings = ParserSettings::of_format(format, limits);
    let rules = settings.rules();
    if scanned(format, limits, record) is Accepted {
        law_what_a_scan_accepts_is_one_record(
            FastValidator::of(format),
            format,
            limits,
            input,
            at,
            record,
        );
        assert(input[at + 0] == record[0]);
    } else {
        let probe = record.push(rules.terminator());
        let slow = ParserSettings { bom: ReadBom::Preserve, ..settings };
        assert(slow.rules() == rules);
        assert(input[at + 0] == record[0]);
        assert(probe[0] == record[0]);
        if record.len() > 1 {
            assert(input[at + 1] == record[1]);
            assert(probe[1] == record[1]);
        }
        lemma_starts_at_once(slow, probe);
        assert forall|i: int| 0 <= i < 0 + record.len() implies #[trigger] probe[i] == input[i - 0
            + at] by {
            assert(input[at + i] == record[i]);
        }
        if format.dialect.multibyte() {
            lemma_whole_record_stands(settings, record, input, at);
        } else {
            law_a_record_is_read_from_its_own_bytes(
                rules,
                probe,
                0,
                input,
                at,
                record.len() as int,
                settings.nulls,
            );
        }
    }
}

/// A record whose separators have more than one byte is the same record in any
/// document.
proof fn lemma_whole_record_stands(
    settings: ParserSettings,
    record: Seq<u8>,
    input: Seq<u8>,
    at: int,
)
    requires
        settings.dialect.valid(),
        settings.dialect.multibyte(),
        reads_back(settings, record),
        0 <= at,
        holds(input, at, record),
    ensures
        settings.record_start(input, at) == at,
        settings.rules().read_record(input, at, settings.nulls) matches Scan::Done { next, .. }
            && next == at + record.len(),
{
    let rules = settings.rules();
    let probe = record.push(rules.terminator());
    let n = record.len() as int;
    assert(probe.subrange(0, n) =~= record);
    assert forall|i: int| 0 <= i < 0 + n implies #[trigger] probe[i] == input[i - 0 + at] by {
        assert(input[at + i] == record[i]);
    }
    lemma_reading_ended(rules, probe, 0, 0, Seq::empty(), settings.nulls);
    law_a_whole_record_is_read_from_its_own_bytes(
        rules,
        probe,
        0,
        input,
        at,
        n,
        0,
        Seq::empty(),
        settings.nulls,
    );
    lemma_starts_at_once(settings, probe);
    assert(probe[0] == input[at]);
    let tail = settings.dialect.ending_tail.text().len() as int;
    lemma_same_breaks(rules, probe, 0, input, at, n, 0);
    if 2 + tail <= n {
        lemma_same_breaks(rules, probe, 0, input, at, n, 1);
    }
}

/// What a record that starts at once does not start with.
proof fn lemma_starts_at_once(settings: ParserSettings, input: Seq<u8>)
    requires
        input.len() > 0,
        settings.record_start(input, 0) == 0,
    ensures
        settings.dialect.comment != Some(input[0]),
        settings.blank_records == BlankRecords::Skip ==> settings.ending_len(input, 0) == 0,
{
    settings.dialect.lemma_line_end(input, 0);
    if settings.dialect.comment == Some(input[0]) {
        lemma_record_start(settings, input, settings.line_end(input, 0));
    } else if settings.blank_records == BlankRecords::Skip && settings.ending_len(input, 0) > 0 {
        lemma_record_start(settings, input, settings.ending_len(input, 0));
    }
}

/// Whether the first `count` records of a document were confirmed.
pub open spec fn all_confirmed(
    format: FormatOptions,
    limits: Limits,
    records: Seq<Seq<Field>>,
    count: int,
) -> bool {
    forall|i: int|
        0 <= i < count ==> confirmed(
            format,
            limits,
            Writing::of(format).record(#[trigger] records[i])->0,
        )
}

/// Whether confirmed records stand in a document from `base` on.
spec fn confirmed_document(
    options: IndexOptions,
    records: Seq<Seq<Field>>,
    input: Seq<u8>,
    base: int,
) -> bool {
    let document = Writing::of(options.format).document(records, records.len() as int);
    &&& options.format.dialect.valid()
    &&& all_confirmed(options.format, options.limits, records, records.len() as int)
    &&& 0 <= base
    &&& input.len() == base + document.len()
    &&& holds(input, base, document)
}

/// Each record of a document stands where it was written.
proof fn lemma_record_held(
    writing: Writing,
    records: Seq<Seq<Field>>,
    input: Seq<u8>,
    base: int,
    index: int,
)
    requires
        0 <= base,
        holds(input, base, writing.document(records, records.len() as int)),
        0 <= index < records.len(),
    ensures
        holds(
            input,
            base + writing.document(records, index).len(),
            writing.record(records[index])->0,
        ),
        writing.document(records, index + 1).len() == writing.document(records, index).len()
            + writing.record(records[index])->0.len(),
        writing.starts(records, base, index).push(
            base + writing.document(records, index).len(),
        ) == writing.starts(records, base, index + 1),
{
    lemma_record_stands(writing, records, index, records.len() as int);
    lemma_holds_within(
        input,
        base,
        writing.document(records, records.len() as int),
        writing.document(records, index).len() as int,
        writing.record(records[index])->0,
    );
    assert(writing.starts(records, base, index).push(
        base + writing.document(records, index).len(),
    ) =~= writing.starts(records, base, index + 1));
}

/// One record of a document of confirmed records.
proof fn lemma_confirmed_next(
    options: IndexOptions,
    records: Seq<Seq<Field>>,
    input: Seq<u8>,
    base: int,
    index: int,
)
    requires
        confirmed_document(options, records, input, base),
        0 <= index < records.len(),
    ensures
        ({
            let writing = Writing::of(options.format);
            let settings = options.settings();
            let at = base + writing.document(records, index).len();
            &&& 0 <= at < input.len()
            &&& settings.record_start(input, at) == at
            &&& settings.rules().read_record(input, at, settings.nulls) matches Scan::Done {
                next,
                ..
            }
            &&& next == base + writing.document(records, index + 1).len()
            &&& writing.starts(records, base, index).push(at) == writing.starts(
                records,
                base,
                index + 1,
            )
        }),
{
    let writing = Writing::of(options.format);
    let at = base + writing.document(records, index).len();
    let record = writing.record(records[index])->0;
    lemma_record_held(writing, records, input, base, index);
    assert(confirmed(options.format, options.limits, record));
    law_a_confirmed_record_stands(options.format, options.limits, record, input, at);
}

/// A document of confirmed records holds those records and no others.
proof fn lemma_confirmed_listed(
    options: IndexOptions,
    records: Seq<Seq<Field>>,
    input: Seq<u8>,
    base: int,
    index: int,
)
    requires
        confirmed_document(options, records, input, base),
        0 <= index <= records.len(),
    ensures
        ({
            let writing = Writing::of(options.format);
            options.settings().listing(
                input,
                base + writing.document(records, index).len(),
                writing.starts(records, base, index),
            ) == Listing::Complete(writing.starts(records, base, records.len() as int))
        }),
    decreases records.len() - index,
{
    if index < records.len() {
        lemma_confirmed_next(options, records, input, base, index);
        lemma_confirmed_listed(options, records, input, base, index + 1);
    } else {
        let settings = options.settings();
        assert(settings.record_start(input, input.len() as int) == input.len());
    }
}

impl RecordValidator {
    /// Whether a record is read back as itself, whatever follows it.
    pub fn is_read_back(&self, record: &[u8]) -> (yes: bool)
        requires
            self.wf(),
        ensures
            yes == reads_back(self.spec_settings(), record@),
    {
        let settings = self.settings();
        let terminator: u8 = settings.dialect.record_ending.byte();
        if record.len() == 0 {
            return false;
        }
        let closed = if settings.dialect.has_long_separator() {
            settings.dialect.is_uncut(record)
        } else {
            record[record.len() - 1] == terminator
        };
        if !closed {
            return false;
        }
        let mut probe: Vec<u8> = Vec::new();
        probe.extend_from_slice(record);
        probe.push(terminator);
        assert(probe@ =~= record@.push(terminator));
        assert(probe@.len() == probe.len());
        let mut parser = match SliceParser::with_settings(probe.as_slice(), settings) {
            Ok(parser) => parser,
            Err(_) => {
                return false;
            },
        };
        let mut scratch = RecordStorage::new();
        proof {
            lemma_record_start(settings, probe@, 0);
        }
        match parser.next_start(&mut scratch) {
            Ok(Some(start)) => start == 0 && parser.location().byte == record.len(),
            _ => false,
        }
    }
}

/// Check a record before it is committed.
///
/// Answers the number of its line feeds.
pub fn validate_record(
    fast: Option<&FastValidator>,
    validator: &RecordValidator,
    record: &[u8],
    limits: Limits,
) -> (result: Result<u64, Error>)
    requires
        validator.wf(),
    ensures
        ({
            let settings = validator.spec_settings();
            let verdict = match fast {
                Some(fast) => fast.judge(record@, limits),
                None => Verdict::Unsure,
            };
            match verdict {
                Verdict::Accepted(feeds) => result matches Ok(newlines) && newlines == feeds,
                Verdict::Refused(kind) => result matches Err(error) && error.spec_kind() == kind
                    && error.spec_location() == Location::unknown(),
                Verdict::Unsure => if one_record(settings.records(record@)) && reads_back(
                    settings,
                    record@,
                ) {
                    result matches Ok(newlines) && newlines == occurrences(record@, LF)
                } else if one_record(settings.records(record@)) {
                    result matches Err(error) && error.says(
                        ErrorKind::Encode,
                        ENCODED_VALUE_MULTIPLE_RECORDS@,
                    )
                } else {
                    result matches Err(error) && checked_as(
                        settings.records(record@),
                        record@,
                        Err(error),
                    )
                },
            }
        }),
{
    if let Some(fast) = fast {
        match fast.validate(record, limits) {
            Ok(Some(newlines)) => {
                return Ok(newlines);
            },
            Ok(None) => {},
            Err(error) => {
                return Err(error);
            },
        }
    }
    if let Err(error) = validator.validate(record) {
        return Err(error);
    }
    if !validator.is_read_back(record) {
        return Err(Error::detailed(ErrorKind::Encode, ENCODED_VALUE_MULTIPLE_RECORDS));
    }
    assert(record@.subrange(0, record@.len() as int) =~= record@);
    Ok(count_newlines(record, 0, record.len()))
}

/// Add the entry of a record to an index.
///
/// Answers how many entries there are.
pub fn record_entry(
    entries: &mut Vec<u8>,
    offset: u64,
    newlines: &mut u64,
    record_newlines: u64,
    count: u64,
) -> (result: Result<u64, Error>)
    requires
        *old(newlines) + record_newlines <= u64::MAX,
    ensures
        final(entries)@ == old(entries)@ + (spec_u64_to_le_bytes(offset) + spec_u64_to_le_bytes(
            (*old(newlines)).saturating_add(1),
        )),
        *final(newlines) == *old(newlines) + record_newlines,
        result is Ok == (count < u64::MAX),
        result matches Ok(next) ==> next == count + 1,
        result matches Err(error) ==> error.says(ErrorKind::InvalidIndex, TOO_MANY_RECORDS@),
{
    let ghost before = entries@;
    let line: u64 = (*newlines).saturating_add(1);
    entries.extend_from_slice(u64_to_le_bytes(offset).as_slice());
    entries.extend_from_slice(u64_to_le_bytes(line).as_slice());
    assert(entries@ =~= before + (spec_u64_to_le_bytes(offset) + spec_u64_to_le_bytes(line)));
    *newlines = *newlines + record_newlines;
    match count.checked_add(1) {
        Some(next) => Ok(next),
        None => Err(Error::detailed(ErrorKind::InvalidIndex, TOO_MANY_RECORDS)),
    }
}

/// What decides about the records of a generated document.
pub open spec fn generating(options: IndexOptions, encode: EmitOptions) -> Emitting {
    Emitting {
        writing: Writing::of(options.format),
        bom_pending: false,
        field_count: encode.field_count,
        expected_fields: None,
        header_pending: encode.has_headers,
    }
}

/// What stands before the first record of a generated document.
pub open spec fn preamble(format: FormatOptions) -> Seq<u8> {
    if format.write_bom == WriteBom::Emit {
        bom()
    } else {
        Seq::empty()
    }
}

/// The lines that the first records of a document start on.
spec fn lines_of(
    front: Seq<u8>,
    writing: Writing,
    records: Seq<Seq<Field>>,
    count: int,
) -> Seq<u64> {
    Seq::new(
        count as nat,
        |i: int|
            (occurrences(front + writing.document(records, i), LF) as u64).saturating_add(1),
    )
}

/// The offsets that the first records of a document start at.
spec fn offsets_of(
    front: Seq<u8>,
    writing: Writing,
    records: Seq<Seq<Field>>,
    count: int,
) -> Seq<u64> {
    Seq::new(count as nat, |i: int| (front.len() + writing.document(records, i).len()) as u64)
}

/// The entries of some records do not depend on what follows them.
pub proof fn lemma_entries_alike(
    a: Seq<u64>,
    b: Seq<u64>,
    c: Seq<u64>,
    d: Seq<u64>,
    count: nat,
)
    requires
        count <= a.len(),
        count <= c.len(),
        count <= b.len(),
        count <= d.len(),
        forall|i: int| 0 <= i < count ==> a[i] == #[trigger] c[i],
        forall|i: int| 0 <= i < count ==> b[i] == #[trigger] d[i],
    ensures
        entries_bytes(a, b, count) == entries_bytes(c, d, count),
    decreases count,
{
    if count > 0 {
        lemma_entries_alike(a, b, c, d, (count - 1) as nat);
        assert(a[count - 1] == c[count - 1] && b[count - 1] == d[count - 1]);
    }
}

/// The front of a document is what was written first.
proof fn lemma_front(writing: Writing, records: Seq<Seq<Field>>, index: int, count: int)
    requires
        0 <= index <= count,
    ensures
        writing.document(records, index).len() <= writing.document(records, count).len(),
        writing.document(records, count).take(writing.document(records, index).len() as int)
            == writing.document(records, index),
    decreases count - index,
{
    let part = writing.document(records, index);
    let whole = writing.document(records, count);
    if index < count {
        lemma_front(writing, records, index, count - 1);
        let most = writing.document(records, count - 1);
        assert(whole.take(part.len() as int) =~= most.take(part.len() as int));
    } else {
        assert(whole.take(part.len() as int) =~= part);
    }
}

/// The positions of a generated document are those of its records.
proof fn lemma_generated_positions(
    front: Seq<u8>,
    writing: Writing,
    records: Seq<Seq<Field>>,
    document: Seq<u8>,
)
    requires
        document == front + writing.document(records, records.len() as int),
        document.len() <= usize::MAX,
        forall|i: int|
            0 <= i < records.len() ==> writing.record(#[trigger] records[i])->0.len() > 0,
    ensures
        ({
            let n = records.len() as int;
            let starts = writing.starts(records, front.len() as int, n);
            &&& positions(
                document,
                starts,
                offsets_of(front, writing, records, n),
                lines_of(front, writing, records, n),
            )
            &&& forall|i: int| 0 <= i < n ==> 0 <= #[trigger] starts[i] < document.len()
            &&& forall|i: int, j: int| 0 <= i < j < n ==> starts[i] < starts[j]
        }),
{
    let n = records.len() as int;
    let all = writing.document(records, n);
    let starts = writing.starts(records, front.len() as int, n);
    let offsets = offsets_of(front, writing, records, n);
    let lines = lines_of(front, writing, records, n);
    assert forall|i: int| 0 <= i < n implies 0 <= #[trigger] starts[i] < document.len() by {
        lemma_record_stands(writing, records, i, n);
        lemma_front(writing, records, i + 1, n);
        assert(writing.record(records[i])->0.len() > 0);
    }
    assert forall|i: int| 0 <= i < n implies #[trigger] offsets[i] == starts[i] && lines[i]
        == line_number(document, starts[i]) by {
        lemma_front(writing, records, i, n);
        assert(0 <= starts[i] < document.len());
        assert(document.take(starts[i]) =~= front + all.take(
            writing.document(records, i).len() as int,
        ));
    }
    assert forall|i: int, j: int| 0 <= i < j < n implies starts[i] < starts[j] by {
        lemma_record_stands(writing, records, i, n);
        lemma_front(writing, records, i + 1, j);
        assert(writing.record(records[i])->0.len() > 0);
    }
}

fn does_scan_suffice(options: IndexOptions, record: &[u8]) -> (yes: bool)
    requires
        options.format.dialect.valid(),
        FastValidator::covers(options.format),
    ensures
        yes == scan_suffices(options.format, options.limits, record@),
{
    let format = options.format;
    let loose = match format.dialect.escape {
        Escape::Backslash(_) => !format.syntax.permits_any_backslash_escape(),
        _ => false,
    };
    let unchecked = format.dialect.escape.unquoted_byte().is_some() && format.dialect.record_ending
        == RecordEnding::CrLf;
    if loose || unchecked || format.dialect.delimiter == LF || format.dialect.quote == LF {
        return false;
    }
    if record.len() == 0 || record.len() > options.limits.max_record_bytes {
        return false;
    }
    let head: u8 = record[0];
    let comment = match format.dialect.comment {
        Some(comment) => comment == head,
        None => false,
    };
    let blank = format.blank_records == BlankRecords::Skip && (head
        == format.dialect.record_ending.byte() || (format.dialect.record_ending.is_newline()
        && head == CR));
    !comment && !blank
}

/// Scan a record of a generated document.
///
/// Answers the number of its line feeds where the scan accepts it and that will
/// do.
fn scan(options: IndexOptions, record: &[u8]) -> (result: Result<Option<u64>, Error>)
    requires
        options.format.dialect.valid(),
    ensures
        match scanned(options.format, options.limits, record@) {
            Verdict::Accepted(feeds) => result matches Ok(Some(newlines)) && newlines == feeds,
            Verdict::Unsure => result == Ok::<Option<u64>, Error>(None),
            Verdict::Refused(kind) => result matches Err(error) && error.spec_kind() == kind
                && error.spec_location() == Location::unknown(),
        },
{
    match FastValidator::for_format(options.format) {
        None => Ok(None),
        Some(fast) => match fast.validate(record, options.limits) {
            Err(error) => Err(error),
            Ok(None) => Ok(None),
            Ok(Some(newlines)) => if does_scan_suffice(options, record) {
                Ok(Some(newlines))
            } else {
                Ok(None)
            },
        },
    }
}

/// Check a record of a generated document.
fn confirm(options: IndexOptions, validator: &RecordValidator, record: &[u8]) -> (result: Result<
    u64,
    Error,
>)
    requires
        options.format.dialect.valid(),
        validator.wf(),
        validator.spec_settings() == (ParserSettings {
            bom: ReadBom::Preserve,
            format_tag: FormatTag::Custom,
            ..options.settings()
        }),
    ensures
        result is Ok == confirmed(options.format, options.limits, record@),
        result matches Ok(newlines) ==> newlines == occurrences(record@, LF),
        result matches Err(error) ==> unconfirmed(options.format, options.limits, record@, error),
{
    proof {
        reveal(confirmed);
        reveal(unconfirmed);
        let settings = ParserSettings { bom: ReadBom::Preserve, ..options.settings() };
        lemma_same_reading(settings, validator.spec_settings(), record@);
        assert(record@.len() == record.len());
        if scanned(options.format, options.limits, record@) is Accepted {
            assert(holds(record@, 0, record@));
            law_what_a_scan_accepts_is_one_record(
                FastValidator::of(options.format),
                options.format,
                options.limits,
                record@,
                0,
                record@,
            );
        }
    }
    match scan(options, record) {
        Err(error) => Err(error),
        Ok(Some(newlines)) => Ok(newlines),
        Ok(None) => validate_record(None, validator, record, options.limits),
    }
}

/// Settings that differ in where they come from read alike.
proof fn lemma_same_reading(a: ParserSettings, b: ParserSettings, input: Seq<u8>)
    requires
        b == (ParserSettings { format_tag: b.format_tag, ..a }),
    ensures
        a.records(input) == b.records(input),
        reads_back(a, input) == reads_back(b, input),
{
    assert(a.rules() == b.rules());
    lemma_same_listing(a, b, input, a.document_start(input), Seq::empty());
    lemma_same_starts(a, b, input.push(a.rules().terminator()), 0);
}

proof fn lemma_same_listing(
    a: ParserSettings,
    b: ParserSettings,
    input: Seq<u8>,
    at: int,
    starts: Seq<int>,
)
    requires
        b == (ParserSettings { format_tag: b.format_tag, ..a }),
        0 <= at <= input.len(),
    ensures
        a.listing(input, at, starts) == b.listing(input, at, starts),
    decreases input.len() - at,
{
    lemma_same_starts(a, b, input, at);
    lemma_record_start(a, input, at);
    let start = a.record_start(input, at);
    if start < input.len() {
        lemma_record_takes_bytes(a.rules(), input, start, a.nulls);
        if let Scan::Done { next, .. } = a.rules().read_record(input, start, a.nulls) {
            lemma_same_listing(a, b, input, next, starts.push(start));
        }
    }
}

/// Whether a generated document and its index are what they should be, or why
/// there are none.
pub open spec fn generated(
    names: Seq<Field>,
    values: Seq<ByteRecord>,
    options: IndexOptions,
    encode: EmitOptions,
    result: Result<(Vec<u8>, CsvIndexReader), Error>,
) -> bool {
    let format = options.format;
    let records = all_rows(names, values, encode.has_headers);
    let n = records.len() as int;
    let emitting = generating(options, encode);
    let writing = Writing::of(format);
    let front = preamble(format);
    if !(format.dialect.valid() && encode.buffer_capacity > 0) {
        result matches Err(error) && error.misconfigured()
    } else {
        match result {
            Ok((document, reader)) => {
                &&& emitting.accepts(records, n)
                &&& all_confirmed(format, options.limits, records, n)
                &&& document@ == front + writing.document(records, n)
                &&& reader.wf()
                &&& exists|table: Table|
                    #![trigger table.bytes()]
                    table.indexes(
                        document@,
                        options,
                        writing.starts(records, front.len() as int, n),
                    ) && table.valid() && reader.bytes() == table.bytes()
            },
            Err(error) => exists|k: int|
                #![trigger records[k]]
                0 <= k < n && emitting.accepts(records, k) && all_confirmed(
                    format,
                    options.limits,
                    records,
                    k,
                ) && {
                    ||| emitting.after_all(records, k).refusal(records[k]) == Some(
                        error.spec_kind(),
                    )
                    ||| !confirmed(format, options.limits, writing.record(records[k])->0)
                        && unconfirmed(
                        format,
                        options.limits,
                        writing.record(records[k])->0,
                        error,
                    )
                    ||| (front + writing.document(records, k + 1)).len() > u64::MAX && error.says(
                        ErrorKind::InvalidIndex,
                        OUTPUT_LENGTH_OVERFLOW@,
                    )
                    ||| 16 * (k + 1) > u64::MAX && error.says(
                        ErrorKind::InvalidIndex,
                        TOO_MANY_RECORDS@,
                    )
                },
        }
    }
}

/// What is known when some records of a document were generated.
spec fn underway(
    options: IndexOptions,
    encode: EmitOptions,
    records: Seq<Seq<Field>>,
    index: int,
    output: Seq<u8>,
    entries: Seq<u8>,
    newlines: int,
) -> bool {
    let writing = Writing::of(options.format);
    let front = preamble(options.format);
    let n = records.len() as int;
    &&& 0 <= index <= n
    &&& generating(options, encode).accepts(records, index)
    &&& all_confirmed(options.format, options.limits, records, index)
    &&& output == front + writing.document(records, index)
    &&& newlines == occurrences(output, LF)
    &&& entries == entries_bytes(
        offsets_of(front, writing, records, index),
        lines_of(front, writing, records, index),
        index as nat,
    )
    &&& forall|i: int| 0 <= i < index ==> writing.record(#[trigger] records[i])->0.len() > 0
}

/// One record more was generated.
#[verifier::rlimit(40)]
#[verifier::spinoff_prover]
proof fn lemma_underway(
    options: IndexOptions,
    encode: EmitOptions,
    records: Seq<Seq<Field>>,
    index: int,
    output: Seq<u8>,
    entries: Seq<u8>,
    newlines: int,
)
    requires
        underway(options, encode, records, index, output, entries, newlines),
        index < records.len(),
        options.format.dialect.valid(),
        generating(options, encode).after_all(records, index).refusal(records[index]) is None,
        confirmed(
            options.format,
            options.limits,
            Writing::of(options.format).record(records[index])->0,
        ),
        output.len() <= u64::MAX,
    ensures
        ({
            let writing = Writing::of(options.format);
            let record = writing.record(records[index])->0;
            underway(
                options,
                encode,
                records,
                index + 1,
                output + record,
                entries + (spec_u64_to_le_bytes(output.len() as u64) + spec_u64_to_le_bytes(
                    (newlines as u64).saturating_add(1),
                )),
                newlines + occurrences(record, LF),
            )
        }),
{
    let writing = Writing::of(options.format);
    let front = preamble(options.format);
    let record = writing.record(records[index])->0;
    let emitting = generating(options, encode);
    law_output_is_a_mark_and_the_records(emitting, records, index);
    assert(emitting.after_all(records, index).writing == writing);
    assert(writing.record(records[index]) is Some);
    assert(record.len() > 0) by {
        assert(record[record.len() - 1] == writing.ending_bytes().last()) by {
            assert(writing.ending_bytes().len() > 0);
        }
        assert(writing.ending_bytes().len() > 0);
    }
    lemma_occurrences_concat(output, record, LF);
    assert(output + record =~= front + writing.document(records, index + 1));
    let offsets = offsets_of(front, writing, records, index);
    let lines = lines_of(front, writing, records, index);
    let more_offsets = offsets_of(front, writing, records, index + 1);
    let more_lines = lines_of(front, writing, records, index + 1);
    lemma_entries_alike(offsets, lines, more_offsets, more_lines, index as nat);
    assert(more_offsets[index] == output.len() as u64);
    assert(more_lines[index] == (newlines as u64).saturating_add(1));
    assert(emitting.accepts(records, index + 1)) by {
        assert forall|i: int| 0 <= i < index + 1 implies (#[trigger] emitting.after_all(
            records,
            i,
        )).refusal(records[i]) is None by {}
    }
}

/// What to do after a record was generated.
#[derive(Debug)]
pub struct GenerateStep {
    /// What to add to the document.
    pub bytes: Vec<u8>,
    /// What to add to the entries of the index.
    pub entry: Vec<u8>,
}

/// What to do when all records were generated.
#[derive(Debug)]
pub struct GeneratedEnd {
    /// What to add to the document.
    pub rest: Vec<u8>,
    /// What goes before the entries of the index.
    pub header: Vec<u8>,
    /// What goes behind the entries of the index.
    pub trailer: Vec<u8>,
}

/// Encodes records one by one, and indexes them while it does.
///
/// It holds what waits to be handed out and no more: neither the document nor
/// the index.
pub struct Generator {
    options: IndexOptions,
    threshold: usize,
    core: PushEmitter,
    validator: RecordValidator,
    document: StreamHash,
    entries: StreamHash,
    count: u64,
    newlines: u64,
}

impl Generator {
    /// What decides about the next record.
    pub closed spec fn emitting(&self) -> Emitting {
        self.core.emitting()
    }

    /// How the document is read and indexed.
    pub closed spec fn spec_options(&self) -> IndexOptions {
        self.options
    }

    /// How much may wait.
    pub closed spec fn spec_threshold(&self) -> usize {
        self.threshold
    }

    /// The part of the document that was handed out.
    pub closed spec fn written(&self) -> Seq<u8> {
        self.document.passed()
    }

    /// What waits to be handed out.
    pub closed spec fn held(&self) -> Seq<u8> {
        self.core.output()
    }

    /// The document so far.
    pub open spec fn so_far(&self) -> Seq<u8> {
        self.written() + self.held()
    }

    /// The entries of the index so far.
    pub closed spec fn indexed(&self) -> Seq<u8> {
        self.entries.passed()
    }

    /// How many records were generated.
    pub closed spec fn spec_count(&self) -> u64 {
        self.count
    }

    /// Whether the generator is usable.
    pub closed spec fn wf(&self) -> bool {
        &&& self.core.wf()
        &&& self.validator.wf()
        &&& self.validator.spec_settings() == (ParserSettings {
            bom: ReadBom::Preserve,
            format_tag: FormatTag::Custom,
            ..self.options.settings()
        })
        &&& self.options.format.dialect.valid()
        &&& self.threshold > 0
        &&& self.document.wf()
        &&& self.entries.wf()
        &&& self.indexed().len() == 16 * self.count
        &&& self.newlines == occurrences(self.so_far(), LF)
        &&& self.so_far().len() <= u64::MAX
        &&& !self.emitting().bom_pending
        &&& self.emitting().writing == Writing::of(self.options.format)
    }

    /// Whether nothing changed.
    pub open spec fn same_as(&self, other: Generator) -> bool {
        &&& self.emitting() == other.emitting()
        &&& self.written() == other.written()
        &&& self.held() == other.held()
        &&& self.indexed() == other.indexed()
        &&& self.spec_count() == other.spec_count()
    }

    /// Start a document.
    ///
    /// What stands before its first record comes along; it is to be written first.
    pub fn new(options: IndexOptions, encode: EmitOptions) -> (result: Result<
        (Generator, Vec<u8>),
        Error,
    >)
        ensures
            result is Ok == (options.format.dialect.valid() && encode.buffer_capacity > 0),
            result matches Ok((generator, front)) ==> {
                &&& generator.wf()
                &&& front@ == preamble(options.format)
                &&& generator.spec_options() == options
                &&& generator.spec_threshold() == encode.buffer_capacity
                &&& generator.emitting() == generating(options, encode)
                &&& generator.written() == front@
                &&& generator.held() == Seq::<u8>::empty()
                &&& generator.indexed() == Seq::<u8>::empty()
                &&& generator.spec_count() == 0
            },
            result matches Err(error) ==> error.misconfigured(),
    {
        if let Err(error) = encode.validate_buffered(options.format) {
            return Err(error);
        }
        let format = options.format.write_bom(WriteBom::Omit);
        let core = match PushEmitter::with_options(format, encode) {
            Ok(core) => core,
            Err(error) => {
                return Err(error);
            },
        };
        let validator = match RecordValidator::new(options.format, options.limits) {
            Ok(validator) => validator,
            Err(error) => {
                return Err(error);
            },
        };
        let mut front: Vec<u8> = Vec::new();
        if options.format.emits_bom() {
            front.push(BOM_FIRST);
            front.push(BOM_SECOND);
            front.push(BOM_THIRD);
        }
        let mut document = StreamHash::new();
        let passed = document.absorb_written(front.as_slice(), front.len());
        let generator = Generator {
            options,
            threshold: encode.buffer_capacity,
            core,
            validator,
            document,
            entries: StreamHash::new(),
            count: 0,
            newlines: 0,
        };
        proof {
            assert(front@ =~= preamble(options.format));
            assert(front@.take(front@.len() as int) =~= front@);
            assert(generator.written() =~= front@);
            reveal_with_fuel(occurrences, 4);
            assert(front@.len() == 3 ==> front@.drop_last().drop_last().drop_last() =~= Seq::<
                u8,
            >::empty());
            assert(generator.so_far() =~= front@);
        }
        Ok((generator, front))
    }

    /// Encode a record that names the fields, before any other.
    ///
    /// It waits with the record behind it, however long it is.
    pub fn push_header(&mut self, names: &ByteRecord) -> (result: Result<GenerateStep, Error>)
        requires
            old(self).wf(),
            names.wf(),
        ensures
            final(self).wf(),
            generates(*old(self), *final(self), names@, false, result),
    {
        self.add_record(names, false)
    }

    /// Encode a record.
    ///
    /// It is checked before it is committed, so that indexing the document
    /// afterwards finds the same record. What was refused changes nothing.
    pub fn push(&mut self, record: &ByteRecord) -> (result: Result<GenerateStep, Error>)
        requires
            old(self).wf(),
            record.wf(),
        ensures
            final(self).wf(),
            generates(*old(self), *final(self), record@, true, result),
    {
        self.add_record(record, true)
    }

    #[verifier::rlimit(40)]
    #[verifier::spinoff_prover]
    fn add_record(&mut self, row: &ByteRecord, flush: bool) -> (result: Result<
        GenerateStep,
        Error,
    >)
        requires
            old(self).wf(),
            row.wf(),
        ensures
            final(self).wf(),
            generates(*old(self), *final(self), row@, flush, result),
    {
        let start: usize = self.core.len();
        let expected_fields = self.core.expected_fields();
        let ghost writing = Writing::of(self.options.format);
        let ghost so_far = self.so_far();
        if let Err(error) = self.core.emit_byte_record(row) {
            return Err(error);
        }
        let ghost record = writing.record(row@)->0;
        assert(self.core.output() =~= old(self).held() + record);
        assert(self.core.output().take(start as int) =~= old(self).held());
        let bytes = &self.core.buffer()[start..self.core.len()];
        assert(bytes@ =~= record);
        let record_newlines: u64 = match confirm(self.options, &self.validator, bytes) {
            Ok(newlines) => newlines,
            Err(error) => {
                self.core.withdraw(start, expected_fields);
                return Err(error);
            },
        };
        proof {
            assert((so_far + record).len() == so_far.len() + record.len());
        }
        let written: u64 = self.document.len();
        if written.checked_add(self.core.len() as u64).is_none() {
            self.core.withdraw(start, expected_fields);
            return Err(Error::detailed(ErrorKind::InvalidIndex, OUTPUT_LENGTH_OVERFLOW));
        }
        if self.entries.len() > u64::MAX - 16 {
            self.core.withdraw(start, expected_fields);
            return Err(Error::detailed(ErrorKind::InvalidIndex, TOO_MANY_RECORDS));
        }
        let mut entry: Vec<u8> = Vec::new();
        proof {
            lemma_occurrences_concat(so_far, record, LF);
            lemma_occurrences_bounded(so_far + record, LF);
            assert(self.so_far() =~= so_far + record);
            lemma_auto_spec_u64_to_from_le_bytes();
        }
        match record_entry(
            &mut entry,
            written + start as u64,
            &mut self.newlines,
            record_newlines,
            self.count,
        ) {
            Ok(next) => {
                self.count = next;
            },
            Err(error) => {
                return Err(error);
            },
        }
        assert(entry@ =~= spec_u64_to_le_bytes(so_far.len() as u64) + spec_u64_to_le_bytes(
            (occurrences(so_far, LF) as u64).saturating_add(1),
        ));
        assert(entry@.take(entry@.len() as int) =~= entry@);
        let _ = self.entries.absorb_written(entry.as_slice(), entry.len());
        let mut bytes: Vec<u8> = Vec::new();
        if flush && should_flush_buffer(self.core.len(), self.threshold) {
            bytes.extend_from_slice(self.core.buffer());
            assert(bytes@.take(bytes@.len() as int) =~= bytes@);
            let _ = self.document.absorb_written(bytes.as_slice(), bytes.len());
            self.core.clear();
            assert(self.so_far() =~= so_far + record);
        } else {
            assert(self.written() =~= old(self).written() + bytes@);
        }
        let step = GenerateStep { bytes, entry };
        proof {
            let held = old(self).held() + record;
            assert(self.held() =~= (if flush && held.len() >= self.threshold {
                Seq::empty()
            } else {
                held
            }));
            assert(step.bytes@ =~= (if flush && held.len() >= self.threshold {
                held
            } else {
                Seq::empty()
            }));
            assert(self.written() =~= old(self).written() + step.bytes@);
            assert(self.indexed() =~= old(self).indexed() + step.entry@);
        }
        Ok(step)
    }

    /// End the document and its index.
    pub fn finish(self) -> (end: GeneratedEnd)
        requires
            self.wf(),
        ensures
            end.rest@ == self.held(),
            end.header@ == header_bytes(
                self.so_far().len() as u64,
                xxh3(self.so_far()),
                self.spec_options().format,
                self.spec_options().limits,
                self.spec_count(),
            ),
            end.trailer@ == spec_u128_to_le_bytes(xxh3(self.indexed())) + spec_u128_to_le_bytes(
                xxh3(end.header@),
            ),
    {
        let mut document = self.document;
        let mut rest: Vec<u8> = Vec::new();
        rest.extend_from_slice(self.core.buffer());
        let _ = document.absorb_written(rest.as_slice(), rest.len());
        assert(rest@.take(rest@.len() as int) =~= rest@);
        assert(document.passed() =~= self.so_far());
        let header = encode_header(
            document.len(),
            document.hash(),
            self.options.format,
            self.options.limits,
            self.count,
        );
        let entries_checksum: u128 = self.entries.hash();
        let header_checksum: u128 = xxh3_128(header.as_slice());
        let mut trailer: Vec<u8> = Vec::new();
        trailer.extend_from_slice(u128_to_le_bytes(entries_checksum).as_slice());
        trailer.extend_from_slice(u128_to_le_bytes(header_checksum).as_slice());
        assert(trailer@ =~= spec_u128_to_le_bytes(entries_checksum) + spec_u128_to_le_bytes(
            header_checksum,
        ));
        GeneratedEnd { rest, header, trailer }
    }
}

/// Whether a record was generated, or refused and nothing changed.
///
/// It is handed out with what waited before it if that is enough and `flush` is
/// set; else it waits.
pub open spec fn generates(
    before: Generator,
    after: Generator,
    fields: Seq<Field>,
    flush: bool,
    result: Result<GenerateStep, Error>,
) -> bool {
    let options = before.spec_options();
    let record = Writing::of(options.format).record(fields)->0;
    let so_far = before.so_far();
    let held = before.held() + record;
    &&& after.spec_options() == options
    &&& after.spec_threshold() == before.spec_threshold()
    &&& match before.emitting().refusal(fields) {
        Some(kind) => {
            &&& result matches Err(error) && error.spec_kind() == kind
            &&& after.same_as(before)
        },
        None => if !confirmed(options.format, options.limits, record) {
            &&& result matches Err(error) && unconfirmed(
                options.format,
                options.limits,
                record,
                error,
            )
            &&& after.same_as(before)
        } else if so_far.len() + record.len() > u64::MAX {
            &&& result matches Err(error) && error.says(
                ErrorKind::InvalidIndex,
                OUTPUT_LENGTH_OVERFLOW@,
            )
            &&& after.same_as(before)
        } else if before.indexed().len() + 16 > u64::MAX {
            &&& result matches Err(error) && error.says(
                ErrorKind::InvalidIndex,
                TOO_MANY_RECORDS@,
            )
            &&& after.same_as(before)
        } else {
            &&& result matches Ok(step) && {
                &&& step.entry@ == spec_u64_to_le_bytes(so_far.len() as u64)
                    + spec_u64_to_le_bytes((occurrences(so_far, LF) as u64).saturating_add(1))
                &&& step.bytes@ == (if flush && held.len() >= before.spec_threshold() {
                    held
                } else {
                    Seq::empty()
                })
                &&& after.written() == before.written() + step.bytes@
                &&& after.indexed() == before.indexed() + step.entry@
            }
            &&& after.held() == (if flush && held.len() >= before.spec_threshold() {
                Seq::empty()
            } else {
                held
            })
            &&& after.emitting() == before.emitting().after(fields)
            &&& after.spec_count() == before.spec_count() + 1
        },
    }
}

impl CsvIndex {
    /// Encode records, and index them while they are encoded.
    ///
    /// Each record is checked before it is committed, so that indexing the
    /// document afterwards finds the same records. This is a [`Generator`] whose
    /// output is collected.
    #[verifier::rlimit(60)]
    #[verifier::spinoff_prover]
    pub fn generate(
        names: &ByteRecord,
        values: &[ByteRecord],
        options: IndexOptions,
        encode: EmitOptions,
    ) -> (result: Result<(Vec<u8>, CsvIndexReader), Error>)
        requires
            names.wf(),
            forall|i: int| 0 <= i < values@.len() ==> (#[trigger] values@[i]).wf(),
            values@.len() < usize::MAX,
        ensures
            generated(names@, values@, options, encode, result),
    {
        let (mut generator, mut document) = match Generator::new(options, encode) {
            Ok(started) => started,
            Err(error) => {
                return Err(error);
            },
        };
        let headed = encode.has_headers;
        let ghost records = all_rows(names@, values@, headed);
        let ghost emitting = generating(options, encode);
        let total: usize = if headed {
            values.len() + 1
        } else {
            values.len()
        };
        let mut entries: Vec<u8> = Vec::new();
        let mut index: usize = 0;
        proof {
            let front = preamble(options.format);
            let writing = Writing::of(options.format);
            assert(front + writing.document(records, 0) =~= front);
            assert(generator.so_far() =~= front);
            assert(entries@ =~= Seq::<u8>::empty());
        }
        while index < total
            invariant
                index <= total == records.len(),
                records == all_rows(names@, values@, headed),
                headed == encode.has_headers,
                emitting == generating(options, encode),
                names.wf(),
                forall|i: int| 0 <= i < values@.len() ==> (#[trigger] values@[i]).wf(),
                options.format.dialect.valid(),
                encode.buffer_capacity > 0,
                generator.wf(),
                generator.spec_options() == options,
                generator.emitting() == emitting.after_all(records, index as int),
                generator.spec_count() == index,
                generator.written() == document@,
                generator.indexed() == entries@,
                entries@.len() == 16 * index,
                generator.so_far().len() <= u64::MAX,
                underway(
                    options,
                    encode,
                    records,
                    index as int,
                    generator.so_far(),
                    entries@,
                    occurrences(generator.so_far(), LF) as int,
                ),
            decreases total - index,
        {
            let ghost before = generator;
            let ghost so_far = generator.so_far();
            let ghost k = index as int;
            let ghost writing = Writing::of(options.format);
            let ghost record = writing.record(records[k])->0;
            proof {
                law_output_is_a_mark_and_the_records(emitting, records, k);
                lemma_occurrences_bounded(so_far, LF);
                lemma_occurrences_concat(so_far, record, LF);
                assert(so_far + record =~= preamble(options.format) + writing.document(
                    records,
                    k + 1,
                ));
                generator.lemma_bounds();
            }
            let row = row_at(names, values, headed, index);
            let step = if headed && index == 0 {
                generator.push_header(row)
            } else {
                generator.push(row)
            };
            let step = match step {
                Ok(step) => step,
                Err(error) => {
                    assert(records[k] == records[k]);
                    return Err(error);
                },
            };
            proof {
                lemma_underway(
                    options,
                    encode,
                    records,
                    k,
                    so_far,
                    entries@,
                    occurrences(so_far, LF) as int,
                );
                assert(generator.so_far() =~= so_far + record);
                generator.lemma_bounds();
                lemma_auto_spec_u64_to_from_le_bytes();
            }
            document.extend_from_slice(step.bytes.as_slice());
            entries.extend_from_slice(step.entry.as_slice());
            assert(generator.written() =~= document@);
            assert(generator.indexed() =~= entries@);
            index += 1;
        }
        let ghost whole = generator.so_far();
        let ghost last = generator;
        let end = generator.finish();
        document.extend_from_slice(end.rest.as_slice());
        assert(document@ =~= whole);
        assert(document@.len() == document.len());
        let mut bytes: Vec<u8> = end.header;
        bytes.extend_from_slice(entries.as_slice());
        bytes.extend_from_slice(end.trailer.as_slice());
        proof {
            let front = preamble(options.format);
            let writing = Writing::of(options.format);
            let n = records.len() as int;
            let table = Table {
                source_len: document@.len() as u64,
                source_hash: xxh3(document@),
                format: options.format,
                limits: options.limits,
                offsets: offsets_of(front, writing, records, n),
                lines: lines_of(front, writing, records, n),
            };
            let starts = writing.starts(records, front.len() as int, n);
            lemma_generated_positions(front, writing, records, document@);
            assert(table.entries() == entries@);
            assert(table.indexes(document@, options, starts));
            lemma_positions_valid(table, document@, options, starts);
            assert(bytes@ =~= table.bytes());
            assert(bytes@.len() == bytes.len());
            law_a_stored_index_is_read_back(table);
        }
        match CsvIndexReader::new(bytes) {
            Ok(reader) => Ok((document, reader)),
            Err(error) => Err(error),
        }
    }
}

impl Generator {
    /// What a usable generator has generated can be counted.
    pub proof fn lemma_bounds(&self)
        requires
            self.wf(),
        ensures
            self.so_far().len() <= u64::MAX,
            self.indexed().len() == 16 * self.spec_count(),
    {
    }
}

/// A generated document holds the records that were written.
proof fn lemma_generated_listed(
    options: IndexOptions,
    records: Seq<Seq<Field>>,
    document: Seq<u8>,
)
    requires
        options.format.dialect.valid(),
        all_confirmed(options.format, options.limits, records, records.len() as int),
        document == preamble(options.format) + Writing::of(options.format).document(
            records,
            records.len() as int,
        ),
        options.format.write_bom == WriteBom::Emit ==> options.format.read_bom == ReadBom::Detect,
        options.format.write_bom == WriteBom::Omit && options.format.read_bom != ReadBom::Preserve
            ==> !has_bom(document),
    ensures
        options.settings().records(document) == Listing::Complete(
            Writing::of(options.format).starts(
                records,
                preamble(options.format).len() as int,
                records.len() as int,
            ),
        ),
{
    let front = preamble(options.format);
    let writing = Writing::of(options.format);
    let n = records.len() as int;
    let base = front.len() as int;
    if options.format.write_bom == WriteBom::Emit {
        assert(document[0] == front[0] && document[1] == front[1] && document[2] == front[2]);
        assert(has_bom(document));
    }
    assert(options.settings().document_start(document) == base);
    assert(holds(document, base, writing.document(records, n)));
    assert(confirmed_document(options, records, document, base));
    lemma_confirmed_listed(options, records, document, base, 0);
    assert(writing.starts(records, base, 0) =~= Seq::<int>::empty());
}

/// A document has one index.
pub proof fn lemma_one_index(
    a: Table,
    b: Table,
    source: Seq<u8>,
    options: IndexOptions,
    starts: Seq<int>,
)
    requires
        a.indexes(source, options, starts),
        b.indexes(source, options, starts),
    ensures
        a == b,
{
    assert(a.offsets =~= b.offsets);
    assert forall|i: int| 0 <= i < a.lines.len() implies a.lines[i] == b.lines[i] by {
        assert(a.offsets[i] == starts[i]);
        assert(b.offsets[i] == starts[i]);
    }
    assert(a.lines =~= b.lines);
}

/// The index of a generated document is the index that the document would be
/// given afterwards, byte for byte, with an entry for every record.
///
/// A format that writes a byte-order mark must look for one. A document that
/// starts like one by chance, where it is looked for, is left out: what it
/// starts with would be taken for the mark.
#[verifier::rlimit(40)]
#[verifier::spinoff_prover]
pub proof fn law_a_generated_index_is_the_index(
    names: Seq<Field>,
    values: Seq<ByteRecord>,
    options: IndexOptions,
    encode: EmitOptions,
    document: Vec<u8>,
    reader: CsvIndexReader,
    result: Result<CsvIndexReader, Error>,
)
    requires
        generated(
            names,
            values,
            options,
            encode,
            Ok::<(Vec<u8>, CsvIndexReader), Error>((document, reader)),
        ),
        options.format.write_bom == WriteBom::Emit ==> options.format.read_bom == ReadBom::Detect,
        options.format.write_bom == WriteBom::Omit && options.format.read_bom != ReadBom::Preserve
            ==> !has_bom(document@),
        created(document@, options, result),
    ensures
        result matches Ok(made) && made.bytes() == reader.bytes(),
        reader.spec_header().count == all_rows(names, values, encode.has_headers).len(),
{
    let records = all_rows(names, values, encode.has_headers);
    let writing = Writing::of(options.format);
    let starts = writing.starts(
        records,
        preamble(options.format).len() as int,
        records.len() as int,
    );
    lemma_generated_listed(options, records, document@);
    let table = choose|table: Table|
        #![trigger table.bytes()]
        table.indexes(document@, options, starts) && table.valid() && reader.bytes()
            == table.bytes();
    let index = choose|table: Table|
        #![trigger table.bytes()]
        table.indexes(document@, options, starts) && result->Ok_0.bytes() == table.bytes();
    lemma_one_index(table, index, document@, options, starts);
    law_entries_are_read_on_demand(table, reader, 0);
}

} // verus!
