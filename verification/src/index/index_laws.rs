//! What holds of indexes and the sources they belong to.

use vstd::bytes::{spec_u128_from_le_bytes, spec_u64_from_le_bytes};
use vstd::prelude::*;

use crate::ascii::LF;
use crate::config::{BlankRecords, Dialect, ReadBom};
use crate::engine::grammar::Scan;
use crate::engine::line_number;
use crate::engine::reading_laws::{are_at, ending_of, ending_size, lemma_separators};
use crate::error::{Error, ErrorKind};
use crate::index::csv_index::{
    index_fault, indexed, positions, stored_entry, table_fault, table_of, CsvIndex, Table,
};
use crate::index::format::{entry_fault, header_of, number_at};
use crate::index::hash::xxh3;
use crate::index::index_options::IndexOptions;
use crate::options::ParserSettings;
use crate::search::{lemma_occurrences_bounded, occurrences};
use crate::slice_parser::{lemma_record_start, lemma_record_takes_bytes, Listing};

verus! {

/// An index that was built from a source accepts another source if and only if
/// the two have one length and one hash, whatever the length: one with another
/// hash is refused, and so is one of another length.
pub proof fn law_an_index_accepts_its_source_only(
    source: Seq<u8>,
    options: IndexOptions,
    index: CsvIndex,
    other: Seq<u8>,
)
    requires
        source.len() <= usize::MAX,
        indexed(source, options, Ok::<CsvIndex, Error>(index)),
    ensures
        index@.identifies(source),
        index@.identifies(other) == (other.len() == source.len() && xxh3(other) == xxh3(source)),
        xxh3(other) != xxh3(source) ==> !index@.identifies(other),
        other.len() != source.len() ==> !index@.identifies(other),
{
}

/// Two indexes of one source accept the same sources, whatever options they
/// were built with.
pub proof fn law_acceptance_depends_on_the_source_only(
    source: Seq<u8>,
    first: Table,
    second: Table,
    other: Seq<u8>,
)
    requires
        first.identifies(source),
        second.identifies(source),
    ensures
        first.identifies(other) == second.identifies(other),
        first.source_len == second.source_len,
        first.source_hash == second.source_hash,
{
}

/// The first line is line one, and each line feed starts another; no other byte
/// does.
pub proof fn law_lines_are_counted_by_line_feeds(source: Seq<u8>, at: int)
    requires
        source.len() < u64::MAX,
        0 <= at < source.len(),
    ensures
        line_number(source, 0) == 1,
        line_number(source, at + 1) == line_number(source, at) + if source[at] == 10 {
            1int
        } else {
            0int
        },
{
    assert(source.take(0) =~= Seq::<u8>::empty());
    let longer = source.take(at + 1);
    assert(longer.drop_last() =~= source.take(at));
    assert(longer.last() == source[at]);
    lemma_occurrences_bounded(source.take(at), LF);
    lemma_occurrences_bounded(longer, LF);
    assert(occurrences(source.take(at), LF) <= at);
}

proof fn lemma_entry_order(table: Table, low: int, high: int)
    requires
        table.valid(),
        0 <= low < high < table.offsets.len(),
    ensures
        table.offsets[low] < table.offsets[high],
        table.lines[low] <= table.lines[high],
    decreases high - low,
{
    assert(table.sound_at(high));
    if low < high - 1 {
        lemma_entry_order(table, low, high - 1);
    }
}

/// The entries of a well-formed index are inside the source and in order: each
/// record starts behind the one before it, on a line that is not before its
/// line, and lines are counted from one.
pub proof fn law_entries_are_in_order(table: Table, low: int, high: int)
    requires
        table.valid(),
        0 <= low < high < table.offsets.len(),
    ensures
        table.offsets[low] < table.offsets[high] < table.source_len,
        1 <= table.lines[low] <= table.lines[high],
        table.offsets.len() == table.lines.len(),
{
    lemma_entry_order(table, low, high);
    assert(table.sound_at(low));
    assert(table.sound_at(high));
}

proof fn lemma_entries_sound(bytes: Seq<u8>, source_len: u64, count: int, from: int, index: int)
    requires
        table_fault(bytes, source_len, count, from) is None,
        0 <= from <= index < count,
    ensures
        entry_fault(
            stored_entry(bytes, index).0,
            stored_entry(bytes, index).1,
            source_len,
            if index <= 0 {
                None
            } else {
                Some(stored_entry(bytes, index - 1))
            },
        ) is None,
    decreases index - from,
{
    if from < index {
        lemma_entries_sound(bytes, source_len, count, from + 1, index);
    }
}

/// Stored bytes that are accepted start with the mark of an index, are of a
/// known version, have room for their entries and nothing else, and carry the
/// hashes of their own parts; what they stand for has its entries in order.
pub proof fn law_accepted_bytes_vouch_for_themselves(bytes: Seq<u8>)
    requires
        index_fault(bytes) is None,
    ensures
        bytes.len() >= 101,
        bytes.take(8) == seq![66u8, 67u8, 83u8, 86u8, 73u8, 68u8, 88u8, 50u8],
        ({
            let version = header_of(bytes.take(101)).version;
            let end = 101 + 16 * table_of(bytes).offsets.len() as int;
            &&& version == 8 || version == 9
            &&& version == 8 ==> {
                &&& bytes.len() == end + 16
                &&& spec_u128_from_le_bytes(bytes.skip(end)) == xxh3(bytes.take(end))
            }
            &&& version == 9 ==> {
                &&& bytes.len() == end + 32
                &&& spec_u128_from_le_bytes(bytes.subrange(end, end + 16)) == xxh3(
                    bytes.subrange(101, end),
                )
                &&& spec_u128_from_le_bytes(bytes.skip(end + 16)) == xxh3(bytes.take(101))
            }
        }),
        table_of(bytes).offsets.len() == table_of(bytes).lines.len(),
        forall|i: int|
            0 <= i < table_of(bytes).offsets.len() ==> #[trigger] table_of(bytes).sound_at(i),
{
    let head = bytes.take(101);
    let table = table_of(bytes);
    let count = header_of(head).count as int;
    assert(head.subrange(0, 8) =~= bytes.take(8));
    let end = 101 + 16 * count;
    assert(bytes.len() == end + 16 ==> bytes.skip(end) =~= bytes.subrange(end, end + 16));
    assert(bytes.len() == end + 32 ==> bytes.skip(end + 16) =~= bytes.subrange(
        end + 16,
        end + 32,
    ));
    assert forall|i: int| 0 <= i < table.offsets.len() implies #[trigger] table.sound_at(i) by {
        lemma_entries_sound(bytes, table.source_len, count, 0, i);
    }
}

/// The stored form says where its numbers stand: the length of the source, then
/// its hash, and the entries one behind the other from the end of the header on.
pub proof fn law_stored_numbers_stand_in_order(bytes: Seq<u8>, index: int)
    requires
        index_fault(bytes) is None,
        0 <= index < table_of(bytes).offsets.len(),
    ensures
        table_of(bytes).source_len == spec_u64_from_le_bytes(bytes.subrange(12, 20)),
        table_of(bytes).source_hash == spec_u128_from_le_bytes(bytes.subrange(20, 36)),
        table_of(bytes).offsets.len() == spec_u64_from_le_bytes(bytes.subrange(93, 101)),
        table_of(bytes).offsets[index] == spec_u64_from_le_bytes(
            bytes.subrange(101 + 16 * index, 101 + 16 * index + 8),
        ),
        table_of(bytes).lines[index] == spec_u64_from_le_bytes(
            bytes.subrange(101 + 16 * index + 8, 101 + 16 * index + 16),
        ),
{
    let head = bytes.take(101);
    assert(head.subrange(12, 20) =~= bytes.subrange(12, 20));
    assert(head.subrange(20, 36) =~= bytes.subrange(20, 36));
    assert(head.subrange(93, 101) =~= bytes.subrange(93, 101));
    assert(number_at(bytes, 101 + 16 * index) == table_of(bytes).offsets[index]);
}

/// No record starts with a comment, nor, where empty lines are skipped, with a
/// record ending; and nothing else is skipped.
pub proof fn law_only_comments_and_empty_lines_are_skipped(
    settings: ParserSettings,
    source: Seq<u8>,
    at: int,
)
    requires
        0 <= at < source.len(),
    ensures
        ({
            let start = settings.record_start(source, at);
            let comment = settings.dialect.comment;
            let skips = settings.blank_records == BlankRecords::Skip;
            &&& at <= start <= source.len()
            &&& start < source.len() ==> comment != Some(source[start])
            &&& start < source.len() && skips ==> ending_size(settings.dialect, source, start)
                == 0
            &&& comment != Some(source[at]) && !(skips && ending_size(
                settings.dialect,
                source,
                at,
            ) > 0) ==> start == at
            &&& comment is None && !skips ==> start == at
        }),
    decreases source.len() - at,
{
    lemma_record_start(settings, source, at);
    settings.dialect.lemma_line_end(source, at);
    lemma_separators(settings.dialect, source, at);
    lemma_separators(settings.dialect, source, settings.record_start(source, at));
    if settings.dialect.comment == Some(source[at]) {
        let next = settings.line_end(source, at);
        lemma_record_start(settings, source, next);
        if next < source.len() {
            law_only_comments_and_empty_lines_are_skipped(settings, source, next);
        }
    } else if settings.blank_records == BlankRecords::Skip && settings.ending_len(source, at) > 0 {
        let next = at + settings.ending_len(source, at);
        assert(next <= source.len());
        lemma_record_start(settings, source, next);
        if next < source.len() {
            law_only_comments_and_empty_lines_are_skipped(settings, source, next);
        }
    }
}

proof fn lemma_line_end(dialect: Dialect, source: Seq<u8>, at: int)
    requires
        0 <= at <= source.len(),
    ensures
        ({
            let end = dialect.line_end(source, at);
            let ending = ending_of(dialect);
            &&& at <= end <= source.len()
            &&& are_at(source, end - ending.len(), ending) && at <= end - ending.len() || end
                == source.len()
            &&& forall|i: int|
                at <= i < end - ending.len() ==> !#[trigger] are_at(source, i, ending)
            &&& end == source.len() && !(are_at(source, end - ending.len(), ending) && at <= end
                - ending.len()) ==> forall|i: int| at <= i ==> !#[trigger] are_at(
                source,
                i,
                ending,
            )
        }),
    decreases source.len() - at,
{
    let ending = ending_of(dialect);
    lemma_separators(dialect, source, at);
    assert(ending.len() > 0);
    if at < source.len() && !dialect.breaks(source, at) {
        lemma_line_end(dialect, source, at + 1);
        let end = dialect.line_end(source, at + 1);
        assert(!are_at(source, at, ending));
    } else if at == source.len() {
        assert forall|i: int| at <= i implies !#[trigger] are_at(source, i, ending) by {}
    }
}

/// A comment takes its line and no more: it ends behind the first record ending
/// from its start on, or with the source where there is none.
pub proof fn law_a_comment_is_a_line(settings: ParserSettings, source: Seq<u8>, at: int)
    requires
        0 <= at < source.len(),
        settings.dialect.comment == Some(source[at]),
    ensures
        exists|end: int|
            {
                let ending = ending_of(settings.dialect);
                &&& at < end <= source.len()
                &&& settings.record_start(source, at) == #[trigger] settings.record_start(
                    source,
                    end,
                )
                &&& forall|i: int|
                    at <= i < end - ending.len() ==> !#[trigger] are_at(source, i, ending)
                &&& are_at(source, end - ending.len(), ending) || end == source.len()
            },
{
    let end = settings.line_end(source, at);
    settings.dialect.lemma_line_end(source, at);
    lemma_line_end(settings.dialect, source, at);
    assert(settings.record_start(source, at) == settings.record_start(source, end));
}

/// A byte-order mark is skipped where it is looked for, and only there; a
/// document without one is read from its first byte on.
pub proof fn law_a_mark_is_no_content(settings: ParserSettings, source: Seq<u8>)
    ensures
        settings.bom == ReadBom::Detect ==> settings.document_start(
            seq![0xEFu8, 0xBB, 0xBF] + source,
        ) == 3,
        settings.bom != ReadBom::Detect ==> settings.document_start(source) == 0,
        settings.document_start(source) != 0 ==> source.len() >= 3 && source.take(3)
            == seq![0xEFu8, 0xBB, 0xBF] && settings.document_start(source) == 3,
{
    let marked = seq![0xEFu8, 0xBB, 0xBF] + source;
    assert(marked[0] == 0xEF && marked[1] == 0xBB && marked[2] == 0xBF);
    if settings.document_start(source) != 0 {
        assert(source.take(3) =~= seq![0xEFu8, 0xBB, 0xBF]);
    }
}

/// Whether record `index` of a list is read where it is listed, and the next
/// one, or the end, is what is found behind it.
pub open spec fn follows(
    settings: ParserSettings,
    source: Seq<u8>,
    starts: Seq<int>,
    index: int,
) -> bool {
    settings.rules().read_record(source, starts[index], settings.nulls) matches Scan::Done {
        next,
        ..
    } && settings.record_start(source, next) == if index + 1 < starts.len() {
        starts[index + 1]
    } else {
        source.len() as int
    }
}

proof fn lemma_listing_follows(
    settings: ParserSettings,
    source: Seq<u8>,
    at: int,
    starts: Seq<int>,
)
    requires
        0 <= at <= source.len(),
        settings.listing(source, at, starts) is Complete,
        forall|i: int|
            0 <= i < starts.len() - 1 ==> #[trigger] follows(settings, source, starts, i),
        starts.len() > 0 ==> (settings.rules().read_record(
            source,
            starts.last(),
            settings.nulls,
        ) matches Scan::Done { next, .. } && next == at),
    ensures
        ({
            let all = settings.listing(source, at, starts)->Complete_0;
            &&& starts.len() <= all.len()
            &&& all.take(starts.len() as int) == starts
            &&& forall|i: int| 0 <= i < all.len() ==> #[trigger] follows(settings, source, all, i)
            &&& settings.record_start(source, at) == if starts.len() < all.len() {
                all[starts.len() as int]
            } else {
                source.len() as int
            }
        }),
    decreases source.len() - at,
{
    lemma_record_start(settings, source, at);
    let start = settings.record_start(source, at);
    if start < source.len() {
        lemma_record_takes_bytes(settings.rules(), source, start, settings.nulls);
        match settings.rules().read_record(source, start, settings.nulls) {
            Scan::Done { next, .. } => {
                let more = starts.push(start);
                assert forall|i: int| 0 <= i < more.len() - 1 implies #[trigger] follows(
                    settings,
                    source,
                    more,
                    i,
                ) by {
                    if i < starts.len() - 1 {
                        assert(follows(settings, source, starts, i));
                    } else {
                        assert(starts[i] == starts.last());
                    }
                }
                lemma_listing_follows(settings, source, next, more);
                let all = settings.listing(source, next, more)->Complete_0;
                assert(all.take(starts.len() as int) =~= all.take(more.len() as int).take(
                    starts.len() as int,
                ));
                assert(more.take(starts.len() as int) =~= starts);
                assert(all[starts.len() as int] == all.take(more.len() as int)[starts.len() as int]);
            },
            _ => {},
        }
    } else {
        assert(starts.take(starts.len() as int) =~= starts);
        assert forall|i: int| 0 <= i < starts.len() implies #[trigger] follows(
            settings,
            source,
            starts,
            i,
        ) by {
            if i == starts.len() - 1 {
                assert(starts[i] == starts.last());
            }
        }
    }
}

/// An index leaves out no record: the first one starts where the first record of
/// the source does, and behind each one, comments and empty lines aside, starts
/// the next or the source ends.
pub proof fn law_an_index_leaves_out_no_record(
    source: Seq<u8>,
    options: IndexOptions,
    index: CsvIndex,
    starts: Seq<int>,
    record: int,
)
    requires
        indexed(source, options, Ok::<CsvIndex, Error>(index)),
        options.settings().records(source) == Listing::Complete(starts),
        0 <= record < starts.len(),
    ensures
        index@.offsets.len() == starts.len(),
        index@.lines.len() == starts.len(),
        index@.offsets[record] == starts[record],
        index@.lines[record] == line_number(source, starts[record]),
        index@.format == options.format,
        index@.limits == options.limits,
        follows(options.settings(), source, starts, record),
        starts[0] == options.settings().record_start(
            source,
            options.settings().document_start(source),
        ),
{
    let settings = options.settings();
    let at = settings.document_start(source);
    lemma_listing_follows(settings, source, at, Seq::empty());
    assert(positions(source, starts, index@.offsets, index@.lines));
    assert(index@.offsets[record] == starts[record]);
}

/// A source is indexed if and only if it can be read: a byte-order mark where
/// none may stand is refused, and so is a source with bytes that are no record.
pub proof fn law_only_a_readable_source_is_indexed(
    source: Seq<u8>,
    options: IndexOptions,
    result: Result<CsvIndex, Error>,
)
    requires
        options.format.dialect.valid(),
        indexed(source, options, result),
    ensures
        options.format.read_bom == ReadBom::Reject && source.len() >= 3 && source.take(3)
            == seq![0xEFu8, 0xBB, 0xBF] ==> result is Err && result->Err_0.spec_kind()
            == ErrorKind::RejectedBom,
        result is Ok ==> options.settings().records(source) is Complete,
        options.format.read_bom != ReadBom::Reject && options.settings().records(source) is Complete
            ==> result is Ok,
{
    if options.format.read_bom == ReadBom::Reject && source.len() >= 3 && source.take(3)
        == seq![0xEFu8, 0xBB, 0xBF] {
        assert(source.take(3)[0] == source[0]);
        assert(source.take(3)[1] == source[1]);
        assert(source.take(3)[2] == source[2]);
    }
}

} // verus!
