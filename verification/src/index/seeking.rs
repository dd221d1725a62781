//! What is read from an indexed record on.

use vstd::prelude::*;

use crate::config::FieldCount;
use crate::engine::grammar::Scan;
use crate::engine::laws::{law_every_path_reads_alike, law_reading_keeps_the_parser_sound};
use crate::engine::{line_number, Engine};
use crate::error::Error;
use crate::index::csv_index::{built, lemma_record_start_again, lemma_same_starts, Table};
use crate::index::index_options::IndexOptions;
use crate::options::ParserSettings;
use crate::slice_parser::{
    lemma_line_from, lemma_record_start, lemma_record_takes_bytes, readings, record_at, Listing,
    Reading, SliceParser,
};

verus! {

/// The record of a document that starts at `start`, under number `number`.
pub open spec fn reading_at(
    settings: ParserSettings,
    document: Seq<u8>,
    start: int,
    number: int,
) -> Reading {
    let scan = settings.rules().read_record(document, start, settings.nulls);
    Reading {
        start,
        next: scan->Done_next,
        line: line_number(document, start),
        number: number as u64,
        fields: scan->Done_fields,
    }
}

/// The records of a document from number `from` on, `count` of them at most.
pub open spec fn listed(
    settings: ParserSettings,
    document: Seq<u8>,
    starts: Seq<int>,
    from: int,
    count: nat,
) -> Seq<Reading> {
    let rest = starts.len() - from;
    Seq::new(
        if count < rest {
            count
        } else {
            rest as nat
        },
        |i: int| reading_at(settings, document, starts[from + i], from + i),
    )
}

/// Whether a state reads single records as the settings have it.
pub open spec fn fit(settings: ParserSettings, state: Engine) -> bool {
    &&& state.rules() == settings.rules()
    &&& state.field_count == FieldCount::Flexible
    &&& Engine::supports(settings.dialect) ==> state.sound()
}

/// Listing keeps what was listed before.
proof fn lemma_listing_extends(settings: ParserSettings, document: Seq<u8>, at: int, starts: Seq<int>)
    requires
        0 <= at <= document.len(),
    ensures
        settings.listing(document, at, starts) matches Listing::Complete(all) ==> starts.len()
            <= all.len() && all.take(starts.len() as int) == starts,
    decreases document.len() - at,
{
    assert(starts.take(starts.len() as int) =~= starts);
    lemma_record_start(settings, document, at);
    let start = settings.record_start(document, at);
    if start < document.len() {
        lemma_record_takes_bytes(settings.rules(), document, start, settings.nulls);
        if let Scan::Done { next, .. } = settings.rules().read_record(
            document,
            start,
            settings.nulls,
        ) {
            let more = starts.push(start);
            lemma_listing_extends(settings, document, next, more);
            if let Listing::Complete(all) = settings.listing(document, next, more) {
                assert(all.take(starts.len() as int) =~= more.take(starts.len() as int));
                assert(more.take(starts.len() as int) =~= starts);
            }
        }
    }
}

/// What a fit state makes of a well-formed record.
proof fn lemma_fit_reads(settings: ParserSettings, document: Seq<u8>, state: Engine)
    requires
        fit(settings, state),
        state.location < document.len(),
        settings.rules().read_record(document, state.location as int, settings.nulls) is Done,
    ensures
        record_at(state, document).scan == settings.rules().read_record(
            document,
            state.location as int,
            settings.nulls,
        ),
        fit(settings, record_at(state, document).state),
{
    reveal(record_at);
    let start = state.location as int;
    if Engine::supports(settings.dialect) {
        law_every_path_reads_alike(state, document, start, false);
        law_reading_keeps_the_parser_sound(state, document, start, Seq::empty(), false);
        lemma_owned_keeps_the_count(state, document, start);
    }
}

/// Reading does not change how many fields are asked for.
proof fn lemma_owned_keeps_the_count(state: Engine, document: Seq<u8>, start: int)
    ensures
        state.owned(document, start, Seq::empty(), false).state.field_count == state.field_count,
{
}

/// From where a listing stands, a fit state reads what is listed.
proof fn lemma_readings_are_listed(
    settings: ParserSettings,
    document: Seq<u8>,
    origin: (usize, u64),
    state: Engine,
    starts: Seq<int>,
    from: int,
    count: nat,
)
    requires
        document.len() <= usize::MAX,
        fit(settings, state),
        state.location <= document.len(),
        origin.0 <= state.location,
        origin.1 == line_number(document, origin.0 as int),
        0 <= from <= starts.len() <= document.len(),
        state.record == from,
        settings.listing(document, state.location as int, starts.take(from)) == Listing::Complete(
            starts,
        ),
    ensures
        readings(settings, document, origin, state, count) == listed(
            settings,
            document,
            starts,
            from,
            count,
        ),
    decreases count,
{
    let at = state.location as int;
    let start = settings.record_start(document, at);
    lemma_record_start(settings, document, at);
    let here = state.moved(start as usize);
    assert(fit(settings, here));
    if start >= document.len() {
        assert(starts.take(from) =~= starts);
        assert(from == starts.len());
    } else if count > 0 {
        lemma_record_takes_bytes(settings.rules(), document, start, settings.nulls);
        if let Scan::Done { fields, next } = settings.rules().read_record(
            document,
            start,
            settings.nulls,
        ) {
            let more = starts.take(from).push(start);
            lemma_listing_extends(settings, document, next, more);
            assert(starts.take(from + 1) == more);
            assert(starts[from] == starts.take(from + 1)[from]);
            assert(starts[from] == start);
            lemma_fit_reads(settings, document, here);
            lemma_line_from(document, origin.0 as int, start);
            let after = Engine {
                location: next as usize,
                record: here.record.saturating_add(1),
                ..record_at(here, document).state
            };
            assert(fit(settings, after));
            lemma_readings_are_listed(
                settings,
                document,
                origin,
                after,
                starts,
                from + 1,
                (count - 1) as nat,
            );
            let rest = listed(settings, document, starts, from + 1, (count - 1) as nat);
            let all = listed(settings, document, starts, from, count);
            assert(seq![reading_at(settings, document, start, from)] + rest =~= all) by {
                assert forall|i: int| 0 < i < all.len() implies all[i] == #[trigger] rest[i - 1] by {
                    assert(starts[from + i] == starts[(from + 1) + (i - 1)]);
                }
            }
        }
    }
    assert(readings(settings, document, origin, state, count) =~= listed(
        settings,
        document,
        starts,
        from,
        count,
    ));
}

/// Listing from the start of a record lists what comes from there on.
proof fn lemma_listing_at(
    settings: ParserSettings,
    document: Seq<u8>,
    at: int,
    before: Seq<int>,
    starts: Seq<int>,
    record: int,
)
    requires
        0 <= at <= document.len(),
        settings.listing(document, at, before) == Listing::Complete(starts),
        before.len() <= record < starts.len(),
    ensures
        0 <= starts[record] < document.len(),
        settings.listing(document, starts[record], starts.take(record)) == Listing::Complete(
            starts,
        ),
    decreases document.len() - at,
{
    lemma_listing_extends(settings, document, at, before);
    lemma_record_start(settings, document, at);
    lemma_record_start_again(settings, document, at);
    let start = settings.record_start(document, at);
    if start >= document.len() {
        assert(false);
    }
    lemma_record_takes_bytes(settings.rules(), document, start, settings.nulls);
    if let Scan::Done { next, .. } = settings.rules().read_record(document, start, settings.nulls) {
        let more = before.push(start);
        lemma_listing_extends(settings, document, next, more);
        if record == before.len() {
            assert(starts[record] == starts.take(more.len() as int)[record]);
            assert(starts.take(record) == before);
        } else {
            lemma_listing_at(settings, document, next, more, starts, record);
        }
    }
}

/// A document has at least as many bytes as records.
proof fn lemma_starts_bounded(settings: ParserSettings, document: Seq<u8>, at: int, starts: Seq<int>)
    requires
        0 <= at <= document.len(),
        starts.len() <= at,
    ensures
        settings.listing(document, at, starts) matches Listing::Complete(all) ==> all.len()
            <= document.len(),
    decreases document.len() - at,
{
    lemma_record_start(settings, document, at);
    let start = settings.record_start(document, at);
    if start < document.len() {
        lemma_record_takes_bytes(settings.rules(), document, start, settings.nulls);
        if let Scan::Done { next, .. } = settings.rules().read_record(
            document,
            start,
            settings.nulls,
        ) {
            lemma_starts_bounded(settings, document, next, starts.push(start));
        }
    }
}

/// The same is read with settings that differ in nothing that is looked at.
proof fn lemma_same_readings(
    a: ParserSettings,
    b: ParserSettings,
    document: Seq<u8>,
    origin: (usize, u64),
    state: Engine,
    count: nat,
)
    requires
        a.dialect == b.dialect,
        a.blank_records == b.blank_records,
    ensures
        readings(a, document, origin, state, count) == readings(b, document, origin, state, count),
    decreases count,
{
    lemma_same_starts(a, b, document, state.location as int);
    let here = state.moved(a.record_start(document, state.location as int) as usize);
    if count > 0 && here.location < document.len() {
        let owned = record_at(here, document);
        if let Scan::Done { next, .. } = owned.scan {
            let after = Engine {
                location: next as usize,
                record: here.record.saturating_add(1),
                ..owned.state
            };
            lemma_same_readings(a, b, document, origin, after, (count - 1) as nat);
        }
    }
}

/// A parser of a document yields the records that the document has, in order:
/// their fields, where they start and end, their lines and their numbers.
pub proof fn law_a_parser_yields_the_records<'a>(
    parser: SliceParser<'a>,
    options: IndexOptions,
    starts: Seq<int>,
    count: nat,
)
    requires
        parser.wf(),
        parser.spec_settings() == options.settings(),
        parser.spec_origin() == (0usize, 1u64),
        parser.state().location == options.settings().document_start(parser.document()),
        parser.state().record == 0,
        options.settings().records(parser.document()) == Listing::Complete(starts),
    ensures
        parser.readings(count) == listed(options.settings(), parser.document(), starts, 0, count),
{
    let settings = options.settings();
    let document = parser.document();
    assert(starts.take(0) =~= Seq::<int>::empty());
    assert(document.take(0) =~= Seq::<u8>::empty());
    assert(line_number(document, 0) == 1);
    lemma_starts_bounded(settings, document, parser.state().location as int, Seq::empty());
    lemma_readings_are_listed(
        settings,
        document,
        parser.spec_origin(),
        parser.state(),
        starts,
        0,
        count,
    );
}

/// A parser that an index hands back yields the records from the one that was
/// asked for on: the same fields, places, lines and numbers that a parser of the
/// whole source yields for them.
pub proof fn law_a_seeked_parser_yields_the_rest<'a>(
    table: Table,
    source: Seq<u8>,
    options: IndexOptions,
    starts: Seq<int>,
    record: int,
    whole: SliceParser<'a>,
    parser: SliceParser<'a>,
    count: nat,
)
    requires
        options.settings().records(source) == Listing::Complete(starts),
        table.indexes(source, options, starts),
        0 <= record < starts.len(),
        table.parses_at(source, record, Ok::<SliceParser<'a>, Error>(parser)),
        whole.wf(),
        whole.document() == source,
        whole.spec_settings() == options.settings(),
        whole.spec_origin() == (0usize, 1u64),
        whole.state().location == options.settings().document_start(source),
        whole.state().record == 0,
    ensures
        parser.readings(count) == listed(options.settings(), source, starts, record, count),
        parser.readings(count) == whole.readings((record + count) as nat).skip(record),
        parser.spec_location().byte == table.offsets[record],
        parser.spec_location().line == table.lines[record],
        parser.spec_location().record == record,
{
    let settings = options.settings();
    let at = settings.document_start(source);
    law_a_parser_yields_the_records(whole, options, starts, (record + count) as nat);
    lemma_listing_at(settings, source, at, Seq::empty(), starts, record);
    lemma_starts_bounded(settings, source, at, Seq::empty());
    assert(table.offsets[record] == starts[record]);
    lemma_seeked_readings(settings, options, source, parser, starts, record, count);
    let all = listed(settings, source, starts, 0, (record + count) as nat);
    assert(all.skip(record) =~= listed(settings, source, starts, record, count));
}

proof fn lemma_seeked_readings<'a>(
    settings: ParserSettings,
    options: IndexOptions,
    source: Seq<u8>,
    parser: SliceParser<'a>,
    starts: Seq<int>,
    record: int,
    count: nat,
)
    requires
        settings == options.settings(),
        parser.wf(),
        parser.document() == source,
        parser.spec_settings() == options.seek_settings(),
        0 <= record < starts.len() <= source.len(),
        settings.listing(source, starts[record], starts.take(record)) == Listing::Complete(starts),
        parser.state().location == starts[record],
        parser.state().record == record,
        parser.spec_origin() == (starts[record] as usize, line_number(source, starts[record])),
    ensures
        parser.readings(count) == listed(settings, source, starts, record, count),
{
    lemma_same_readings(
        options.seek_settings(),
        settings,
        source,
        parser.spec_origin(),
        parser.state(),
        count,
    );
    lemma_readings_are_listed(
        settings,
        source,
        parser.spec_origin(),
        parser.state(),
        starts,
        record,
        count,
    );
}

/// Two parsers that were asked of one index for one record, by way of the index
/// or of a source bound to it, are both there and yield the same, or are both
/// refused for the same reason.
pub proof fn law_asking_twice_answers_alike<'a>(
    table: Table,
    source: Seq<u8>,
    record: int,
    first: Result<SliceParser<'a>, Error>,
    second: Result<SliceParser<'a>, Error>,
    count: nat,
)
    requires
        table.parses_at(source, record, first),
        table.parses_at(source, record, second),
    ensures
        first is Ok == second is Ok,
        first matches Ok(parser) ==> parser.readings(count) == second->Ok_0.readings(count)
            && parser.spec_location() == second->Ok_0.spec_location(),
        first matches Err(error) ==> error.spec_kind() == second->Err_0.spec_kind(),
{
    if let Ok(parser) = first {
        assert(parser.state() == second->Ok_0.state());
    }
}

/// Whatever two builders found in a source, they found the same in it: the same
/// tables, or the same failure at the same place.
pub proof fn law_builds_agree(
    source: Seq<u8>,
    options: IndexOptions,
    first: Result<(Vec<u64>, Vec<u64>), Error>,
    second: Result<(Vec<u64>, Vec<u64>), Error>,
)
    requires
        built(source, options, first),
        built(source, options, second),
    ensures
        first is Ok == second is Ok,
        first matches Ok((offsets, lines)) ==> offsets@ == second->Ok_0.0@ && lines@
            == second->Ok_0.1@,
        first matches Err(error) ==> error.spec_kind() == second->Err_0.spec_kind()
            && error.spec_location() == second->Err_0.spec_location(),
{
    if let Ok((offsets, lines)) = first {
        let (others, other_lines) = second->Ok_0;
        assert forall|i: int| 0 <= i < offsets@.len() implies offsets@[i] == others@[i] && lines@[i]
            == other_lines@[i] by {}
        assert(offsets@ =~= others@);
        assert(lines@ =~= other_lines@);
    }
}

} // verus!
