//! How many records a document can have at most.

use vstd::prelude::*;

use crate::config::Nulls;
use crate::engine::checked::{
    lemma_checked_step_bounds, lemma_text_body_bounds, lemma_text_ends,
};
use crate::engine::grammar::{Body, Rules, Scan, Step};
use crate::engine::owned_parser::{
    lemma_field_step_bounds, lemma_quoted_body_bounds, lemma_skip_padding, lemma_skip_spaces,
};
use crate::engine::Engine;
use crate::index::csv_index::endings;
use crate::index::index_options::IndexOptions;
use crate::options::ParserSettings;
use crate::search::{first_of, lemma_first_of, lemma_occurrences_concat, occurrences};
use crate::slice_parser::{lemma_record_start, lemma_record_takes_bytes, Listing};
use crate::storage::Field;

verus! {

/// Whether `byte` occurs in `from..to`.
pub open spec fn occurs(input: Seq<u8>, byte: u8, from: int, to: int) -> bool {
    exists|i: int| from <= i < to && #[trigger] input[i] == byte
}

/// Whether what was read from `p` to `next` holds a record ending, or ends with
/// the input.
pub open spec fn ended(rules: Rules, input: Seq<u8>, p: int, next: int) -> bool {
    next == input.len() || (next < input.len() && occurs(input, rules.terminator(), p, next))
}

/// A byte that occurs is counted.
proof fn lemma_occurs(input: Seq<u8>, byte: u8)
    requires
        occurs(input, byte, 0, input.len() as int),
    ensures
        occurrences(input, byte) >= 1,
    decreases input.len(),
{
    if input.last() != byte {
        let i = choose|i: int| 0 <= i < input.len() && #[trigger] input[i] == byte;
        assert(input.drop_last()[i] == byte);
        lemma_occurs(input.drop_last(), byte);
    }
}

proof fn lemma_field_ends(
    rules: Rules,
    input: Seq<u8>,
    start: int,
    p: int,
    count: int,
    nulls: Nulls,
)
    requires
        0 <= start <= p <= input.len(),
    ensures
        rules.field_step(input, start, p, count, nulls) matches Step::Read { next, last, .. } ==> (
        last ==> ended(rules, input, p, next)),
{
    lemma_field_step_bounds(rules, input, start, p, count, nulls);
    if rules.opens_quoted(input, p) {
        lemma_quoted_body_bounds(rules, input, start, p + 1, p + 1, Seq::empty());
        if let Body::Closed { bytes, after } = rules.quoted_body(
            input,
            start,
            p + 1,
            p + 1,
            Seq::empty(),
        ) {
            lemma_skip_padding(rules, input, after);
            let a = rules.skip_padding(input, after);
            assert(a + 1 < input.len() ==> input[a + 1] == input[a + 1]);
        }
    } else {
        let end = rules.field_window(input, start, p);
        if p <= end {
            lemma_first_of(input, p, end, rules.unquoted_stops());
            assert(input[first_of(input, p, end, rules.unquoted_stops())] == input[first_of(
                input,
                p,
                end,
                rules.unquoted_stops(),
            )]);
        }
    }
}

proof fn lemma_checked_field_ends(
    rules: Rules,
    input: Seq<u8>,
    start: int,
    p: int,
    count: int,
    nulls: Nulls,
)
    requires
        0 <= start <= p <= input.len(),
        !Engine::supports(rules.dialect),
    ensures
        rules.checked_step(input, start, p, count, nulls) matches Step::Read { next, last, .. }
            ==> (last ==> ended(rules, input, p, next)),
{
    lemma_checked_step_bounds(rules, input, start, p, count, nulls);
    lemma_text_body_bounds(rules, input, start, p, p, Seq::empty());
    lemma_text_ends(rules, input, start, p, p, Seq::empty());
    lemma_quoted_body_bounds(rules, input, start, p + 1, p + 1, Seq::empty());
    if let Body::Closed { bytes, after } = rules.quoted_body(
        input,
        start,
        p + 1,
        p + 1,
        Seq::empty(),
    ) {
        lemma_skip_padding(rules, input, after);
        let a = rules.skip_padding(input, after);
        assert(a + 1 < input.len() ==> input[a + 1] == input[a + 1]);
    }
    if let Body::Closed { bytes, after } = rules.text_body(input, start, p, p, Seq::empty()) {
        assert(after + 1 < input.len() ==> input[after + 1] == input[after + 1]);
    }
}

proof fn lemma_fields_end(
    rules: Rules,
    input: Seq<u8>,
    start: int,
    p: int,
    fields: Seq<Field>,
    nulls: Nulls,
)
    requires
        0 <= start <= p <= input.len(),
    ensures
        Engine::supports(rules.dialect) ==> (rules.read_fields(
            input,
            start,
            p,
            fields,
            nulls,
        ) matches Scan::Done { next, .. } ==> ended(rules, input, p, next)),
        !Engine::supports(rules.dialect) ==> (rules.read_checked(
            input,
            start,
            p,
            fields,
            nulls,
        ) matches Scan::Done { next, .. } ==> ended(rules, input, p, next)),
    decreases input.len() - p,
{
    let q = rules.skip_spaces(input, start, p);
    let count = fields.len() as int;
    lemma_skip_spaces(rules, input, start, p);
    if Engine::supports(rules.dialect) {
        lemma_field_ends(rules, input, start, q, count, nulls);
        lemma_field_step_bounds(rules, input, start, q, count, nulls);
        if let Step::Read { field, next, last } = rules.field_step(input, start, q, count, nulls) {
            if !last {
                lemma_fields_end(rules, input, start, next, fields.push(field), nulls);
            }
        }
    } else {
        lemma_checked_field_ends(rules, input, start, q, count, nulls);
        lemma_checked_step_bounds(rules, input, start, q, count, nulls);
        if let Step::Read { field, next, last } = rules.checked_step(
            input,
            start,
            q,
            count,
            nulls,
        ) {
            if !last {
                lemma_fields_end(rules, input, start, next, fields.push(field), nulls);
            }
        }
    }
}

/// Records are counted by their endings.
proof fn lemma_records_counted(
    settings: ParserSettings,
    document: Seq<u8>,
    at: int,
    starts: Seq<int>,
)
    requires
        0 <= at <= document.len(),
    ensures
        settings.listing(document, at, starts) matches Listing::Complete(all) ==> all.len()
            <= starts.len() + (if at < document.len() {
            endings(document.skip(at), settings.rules().terminator())
        } else {
            0
        }),
    decreases document.len() - at,
{
    let rules = settings.rules();
    let byte = rules.terminator();
    let start = settings.record_start(document, at);
    lemma_record_start(settings, document, at);
    if start < document.len() {
        lemma_record_takes_bytes(rules, document, start, settings.nulls);
        lemma_fields_end(rules, document, start, start, Seq::empty(), settings.nulls);
        if let Scan::Done { next, .. } = rules.read_record(document, start, settings.nulls) {
            lemma_records_counted(settings, document, next, starts.push(start));
            let rest = document.skip(at);
            let record = rest.take(next - at);
            if next < document.len() {
                let i = choose|i: int| start <= i < next && #[trigger] document[i] == byte;
                assert(record[i - at] == byte);
                lemma_occurs(record, byte);
            }
            assert(rest =~= record + rest.skip(next - at));
            assert(rest.skip(next - at) =~= document.skip(next));
            lemma_occurrences_concat(record, document.skip(next), byte);
            if next < document.len() {
                assert(rest.last() == document.skip(next).last());
            } else {
                assert(rest.last() == record.last());
                assert(rest == record);
            }
        }
    }
}

/// A document never has more records than endings were counted in it, one that
/// is missing at its end included.
pub proof fn law_endings_are_at_least_the_records(
    options: IndexOptions,
    document: Seq<u8>,
    starts: Seq<int>,
)
    requires
        options.settings().records(document) == Listing::Complete(starts),
    ensures
        starts.len() <= endings(document, options.format.dialect.record_ending.byte()),
{
    let settings = options.settings();
    let at = settings.document_start(document);
    let byte = settings.rules().terminator();
    lemma_records_counted(settings, document, at, Seq::empty());
    lemma_occurrences_concat(document.take(at), document.skip(at), byte);
    assert(document =~= document.take(at) + document.skip(at));
    if at < document.len() {
        assert(document.last() == document.skip(at).last());
    }
}

} // verus!
