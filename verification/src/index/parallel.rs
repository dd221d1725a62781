//! Indexing a document in pieces.
//!
//! Where quotes come in pairs, a record ending after an even number of quotes
//! ends a record. A document is cut behind such endings, each piece is indexed
//! by itself, and the positions are joined.

use vstd::prelude::*;

use crate::ascii::{SPACE, TAB};
use crate::config::{BlankRecords, Escape, Nulls};
use crate::engine::checked::{
    lemma_checked_step_bounds, lemma_text_body_bounds, lemma_text_ends,
};
use crate::engine::grammar::{Body, Rules, Scan, Step};
use crate::engine::locality::{
    law_a_record_is_read_from_its_own_bytes, lemma_first_checked, lemma_first_field,
    lemma_local_checked_step, lemma_local_step, lemma_padding_is_padding, lemma_text_is_content,
};
use crate::engine::owned_parser::{lemma_field_step_bounds, lemma_skip_padding, lemma_skip_spaces};
use crate::engine::{line_number, Engine};
use crate::options::ParserSettings;
use crate::search::{first_of, lemma_first_of, lemma_occurrences_concat, occurrences};
use crate::slice_parser::{lemma_record_takes_bytes, Listing};
use crate::storage::Field;

verus! {

/// From how many bytes on a source is indexed in pieces.
pub const PARALLEL_INDEX_THRESHOLD_BYTES: usize = 8_388_608;

/// How many pieces each worker gets.
pub const INDEX_CHUNKS_PER_THREAD: usize = 16;

/// How many quotes stand in `input[from..to]`.
pub open spec fn quotes(input: Seq<u8>, quote: u8, from: int, to: int) -> int {
    occurrences(input.subrange(from, to), quote) as int
}

/// Whether a format keeps quotes in pairs, so that a document can be cut.
pub open spec fn cuttable(rules: Rules) -> bool {
    &&& rules.dialect.valid()
    &&& !rules.dialect.multibyte()
    &&& rules.dialect.escape == Escape::DoubleQuote
    &&& rules.syntax.quoting_enabled()
    &&& !rules.syntax.permits_unquoted_quotes()
    &&& rules.syntax.permits_post_quote_whitespace() ==> rules.dialect.quote != SPACE
        && rules.dialect.quote != TAB
    &&& rules.skip_initial_space ==> rules.dialect.quote != SPACE && rules.terminator() != SPACE
}

pub proof fn lemma_quotes_add(input: Seq<u8>, quote: u8, a: int, b: int, c: int)
    requires
        0 <= a <= b <= c <= input.len(),
    ensures
        quotes(input, quote, a, c) == quotes(input, quote, a, b) + quotes(input, quote, b, c),
        quotes(input, quote, a, a) == 0,
{
    lemma_occurrences_concat(input.subrange(a, b), input.subrange(b, c), quote);
    assert(input.subrange(a, b) + input.subrange(b, c) =~= input.subrange(a, c));
    assert(input.subrange(a, a) =~= Seq::<u8>::empty());
}

proof fn lemma_quotes_none(input: Seq<u8>, quote: u8, a: int, b: int)
    requires
        0 <= a <= b <= input.len(),
        forall|i: int| a <= i < b ==> input[i] != quote,
    ensures
        quotes(input, quote, a, b) == 0,
    decreases b - a,
{
    if a < b {
        lemma_quotes_none(input, quote, a, b - 1);
        assert(input.subrange(a, b).drop_last() =~= input.subrange(a, b - 1));
    } else {
        assert(input.subrange(a, b) =~= Seq::<u8>::empty());
    }
}

pub proof fn lemma_quotes_one(input: Seq<u8>, quote: u8, a: int)
    requires
        0 <= a < input.len(),
    ensures
        quotes(input, quote, a, a + 1) == if input[a] == quote {
            1int
        } else {
            0int
        },
{
    reveal_with_fuel(occurrences, 2);
    let piece = input.subrange(a, a + 1);
    assert(piece.drop_last() =~= Seq::<u8>::empty());
    assert(piece.last() == input[a]);
}

/// Whether `input[at]` ends a record by the parity of the quotes from `from` on.
pub open spec fn even_ending(rules: Rules, input: Seq<u8>, from: int, at: int) -> bool {
    input[at] == rules.terminator() && quotes(input, rules.dialect.quote, from, at) % 2 == 0
}

/// What the quotes of a piece of a record tell: they come in pairs, and only
/// the byte before `next` can end a record, and does if `last`.
pub open spec fn paired(rules: Rules, input: Seq<u8>, p: int, next: int, last: bool) -> bool {
    &&& quotes(input, rules.dialect.quote, p, next) % 2 == 0
    &&& forall|i: int|
        p <= i < next && #[trigger] even_ending(rules, input, p, i) ==> last && i == next - 1
    &&& last && next < input.len() ==> p < next && input[next - 1] == rules.terminator()
}

/// Inside a quoted field every record ending follows an odd number of quotes.
proof fn lemma_body_pairs(
    rules: Rules,
    input: Seq<u8>,
    start: int,
    content: int,
    cursor: int,
    decoded: Seq<u8>,
)
    requires
        rules.dialect.escape == Escape::DoubleQuote,
        rules.dialect.valid(),
        0 <= start <= content <= cursor <= input.len(),
    ensures
        rules.quoted_body(input, start, content, cursor, decoded) matches Body::Closed { after, .. }
            ==> {
            &&& cursor < after <= input.len()
            &&& quotes(input, rules.dialect.quote, cursor, after) % 2 == 1
            &&& forall|i: int|
                cursor <= i < after && input[i] == rules.terminator() ==> #[trigger] quotes(
                    input,
                    rules.dialect.quote,
                    cursor,
                    i,
                ) % 2 == 0
        },
    decreases input.len() - cursor,
{
    let quote = rules.dialect.quote;
    let end = rules.field_window(input, start, content);
    let at = first_of(input, cursor, end, rules.quoted_stops());
    if cursor < end {
        lemma_first_of(input, cursor, end, rules.quoted_stops());
        if at < end {
            assert(input[at] == quote);
            assert forall|i: int| cursor <= i < at implies input[i] != quote by {
                assert(!rules.quoted_stops()(input[i]));
            }
            lemma_quotes_none(input, quote, cursor, at);
            lemma_quotes_one(input, quote, at);
            lemma_quotes_add(input, quote, cursor, at, at + 1);
            assert forall|i: int| cursor <= i <= at implies #[trigger] quotes(
                input,
                quote,
                cursor,
                i,
            ) == 0 by {
                lemma_quotes_none(input, quote, cursor, i);
            }
            if at + 1 < input.len() && input[at + 1] == quote {
                let segment = decoded + input.subrange(cursor, at);
                lemma_quotes_one(input, quote, at + 1);
                lemma_quotes_add(input, quote, cursor, at + 1, at + 2);
                lemma_body_pairs(rules, input, start, content, at + 2, segment.push(quote));
                if let Body::Closed { after, .. } = rules.quoted_body(
                    input,
                    start,
                    content,
                    at + 2,
                    segment.push(quote),
                ) {
                    lemma_quotes_add(input, quote, cursor, at + 2, after);
                    assert forall|i: int|
                        cursor <= i < after && input[i] == rules.terminator() implies
                        #[trigger] quotes(input, quote, cursor, i) % 2 == 0 by {
                        if i >= at + 2 {
                            lemma_quotes_add(input, quote, cursor, at + 2, i);
                        }
                    }
                }
            }
        }
    }
}

/// A piece without quotes that holds no record ending but at its end.
proof fn lemma_plain_pairs(rules: Rules, input: Seq<u8>, p: int, next: int, last: bool)
    requires
        0 <= p <= next <= input.len(),
        forall|i: int| p <= i < next ==> input[i] != rules.dialect.quote,
        forall|i: int|
            p <= i < next && input[i] == rules.terminator() ==> last && i == next - 1,
        last && next < input.len() ==> p < next && input[next - 1] == rules.terminator(),
    ensures
        paired(rules, input, p, next, last),
{
    lemma_quotes_none(input, rules.dialect.quote, p, next);
}

/// A quoted field, from its opening quote on.
proof fn lemma_quoted_pairs(
    rules: Rules,
    input: Seq<u8>,
    p: int,
    after: int,
    next: int,
    last: bool,
)
    requires
        rules.dialect.valid(),
        0 <= p < after <= next <= input.len(),
        input[p] == rules.dialect.quote,
        quotes(input, rules.dialect.quote, p + 1, after) % 2 == 1,
        forall|i: int|
            p < i < after && input[i] == rules.terminator() ==> #[trigger] quotes(
                input,
                rules.dialect.quote,
                p + 1,
                i,
            ) % 2 == 0,
        paired(rules, input, after, next, last),
        last && next < input.len() ==> input[next - 1] == rules.terminator(),
    ensures
        paired(rules, input, p, next, last),
{
    let quote = rules.dialect.quote;
    lemma_quotes_one(input, quote, p);
    lemma_quotes_add(input, quote, p, p + 1, after);
    lemma_quotes_add(input, quote, p, after, next);
    assert forall|i: int| p <= i < next && #[trigger] even_ending(rules, input, p, i) implies last
        && i == next - 1 by {
        if p < i < after {
            lemma_quotes_add(input, quote, p, p + 1, i);
            assert(quotes(input, quote, p + 1, i) % 2 == 0);
        } else if i >= after {
            lemma_quotes_add(input, quote, p, after, i);
            assert(even_ending(rules, input, after, i));
        }
    }
}

/// What follows a closing quote.
proof fn lemma_after_quote(rules: Rules, input: Seq<u8>, start: int, after: int, count: int, field: Field)
    requires
        cuttable(rules),
        0 <= after <= input.len(),
    ensures
        rules.finish_quoted(input, start, after, count, field) matches Step::Read {
            next,
            last,
            ..
        } ==> after <= next <= input.len() && paired(rules, input, after, next, last),
        rules.dialect.record_ending is CrLf ==> (rules.finish_checked(
            input,
            start,
            after,
            count,
            field,
        ) matches Step::Read { next, last, .. } ==> after <= next <= input.len() && paired(
            rules,
            input,
            after,
            next,
            last,
        )),
{
    lemma_skip_padding(rules, input, after);
    lemma_padding_is_padding(rules, input, after);
    let pad = rules.skip_padding(input, after);
    if let Step::Read { next, last, .. } = rules.finish_quoted(input, start, after, count, field) {
        lemma_plain_pairs(rules, input, after, next, last);
    }
    if rules.dialect.record_ending is CrLf {
        if let Step::Read { next, last, .. } = rules.finish_checked(input, start, after, count, field) {
            lemma_plain_pairs(rules, input, after, next, last);
        }
    }
}

proof fn lemma_field_pairs(
    rules: Rules,
    input: Seq<u8>,
    start: int,
    p: int,
    count: int,
    nulls: Nulls,
)
    requires
        cuttable(rules),
        Engine::supports(rules.dialect),
        0 <= start <= p <= input.len(),
    ensures
        rules.field_step(input, start, p, count, nulls) matches Step::Read { next, last, .. } ==> p
            <= next <= input.len() && paired(rules, input, p, next, last),
{
    if let Step::Read { field, next, last } = rules.field_step(input, start, p, count, nulls) {
        if rules.opens_quoted(input, p) {
            lemma_body_pairs(rules, input, start, p + 1, p + 1, Seq::empty());
            if let Body::Closed { bytes, after } = rules.quoted_body(
                input,
                start,
                p + 1,
                p + 1,
                Seq::empty(),
            ) {
                lemma_after_quote(rules, input, start, after, count + 1, crate::storage::text(bytes));
                lemma_quoted_pairs(rules, input, p, after, next, last);
            }
        } else {
            let end = rules.field_window(input, start, p);
            lemma_first_of(input, p, end, rules.unquoted_stops());
            lemma_plain_pairs(rules, input, p, next, last);
        }
    }
}

proof fn lemma_checked_pairs(
    rules: Rules,
    input: Seq<u8>,
    start: int,
    p: int,
    count: int,
    nulls: Nulls,
)
    requires
        cuttable(rules),
        rules.dialect.record_ending is CrLf,
        0 <= start <= p <= input.len(),
    ensures
        rules.checked_step(input, start, p, count, nulls) matches Step::Read { next, last, .. }
            ==> p <= next <= input.len() && paired(rules, input, p, next, last),
{
    if let Step::Read { field, next, last } = rules.checked_step(input, start, p, count, nulls) {
        if rules.opens_quoted(input, p) {
            lemma_body_pairs(rules, input, start, p + 1, p + 1, Seq::empty());
            if let Body::Closed { bytes, after } = rules.quoted_body(
                input,
                start,
                p + 1,
                p + 1,
                Seq::empty(),
            ) {
                lemma_after_quote(rules, input, start, after, count + 1, crate::storage::text(bytes));
                lemma_quoted_pairs(rules, input, p, after, next, last);
            }
        } else {
            lemma_text_body_bounds(rules, input, start, p, p, Seq::empty());
            lemma_text_is_content(rules, input, start, p, p, Seq::empty());
            if let Body::Closed { bytes, after } = rules.text_body(
                input,
                start,
                p,
                p,
                Seq::empty(),
            ) {
                assert forall|i: int| p <= i < after implies input[i] != rules.dialect.quote
                    && input[i] != rules.terminator() by {
                    assert(rules.mark(input, i) is Content);
                }
                lemma_text_ends(rules, input, start, p, p, Seq::empty());
                lemma_plain_pairs(rules, input, p, next, last);
            }
        }
    }
}

/// Pieces one behind the other.
proof fn lemma_pairs_join(rules: Rules, input: Seq<u8>, a: int, b: int, c: int, last: bool)
    requires
        0 <= a <= b <= c <= input.len(),
        paired(rules, input, a, b, false),
        paired(rules, input, b, c, last),
    ensures
        paired(rules, input, a, c, last),
{
    let quote = rules.dialect.quote;
    lemma_quotes_add(input, quote, a, b, c);
    assert forall|i: int| a <= i < c && #[trigger] even_ending(rules, input, a, i) implies last
        && i == c - 1 by {
        if i >= b {
            lemma_quotes_add(input, quote, a, b, i);
            assert(even_ending(rules, input, b, i));
        }
    }
}

/// Skipped spaces are spaces.
proof fn lemma_spaces_are_spaces(rules: Rules, input: Seq<u8>, start: int, p: int)
    requires
        0 <= p <= input.len(),
    ensures
        forall|i: int| p <= i < rules.skip_spaces(input, start, p) ==> input[i] == SPACE,
        rules.skip_spaces(input, start, p) > p ==> rules.skip_initial_space,
    decreases input.len() - p,
{
    if rules.skip_initial_space && p < rules.record_window(input, start) && input[p] == SPACE {
        lemma_spaces_are_spaces(rules, input, start, p + 1);
    }
}

proof fn lemma_fields_pairs(
    rules: Rules,
    input: Seq<u8>,
    start: int,
    p: int,
    fields: Seq<Field>,
    nulls: Nulls,
)
    requires
        cuttable(rules),
        Engine::supports(rules.dialect),
        0 <= start <= p <= input.len(),
    ensures
        rules.read_fields(input, start, p, fields, nulls) matches Scan::Done { next, .. } ==> p
            <= next <= input.len() && paired(rules, input, p, next, true),
    decreases input.len() - p,
{
    let q = rules.skip_spaces(input, start, p);
    lemma_skip_spaces(rules, input, start, p);
    lemma_spaces_are_spaces(rules, input, start, p);
    lemma_field_step_bounds(rules, input, start, q, fields.len() as int, nulls);
    lemma_field_pairs(rules, input, start, q, fields.len() as int, nulls);
    lemma_plain_pairs(rules, input, p, q, false);
    if let Step::Read { field, next, last } = rules.field_step(
        input,
        start,
        q,
        fields.len() as int,
        nulls,
    ) {
        lemma_pairs_join(rules, input, p, q, next, last);
        if !last {
            lemma_fields_pairs(rules, input, start, next, fields.push(field), nulls);
            if let Scan::Done { next: end, .. } = rules.read_fields(
                input,
                start,
                next,
                fields.push(field),
                nulls,
            ) {
                lemma_pairs_join(rules, input, p, next, end, true);
            }
        }
    }
}

proof fn lemma_checked_fields_pairs(
    rules: Rules,
    input: Seq<u8>,
    start: int,
    p: int,
    fields: Seq<Field>,
    nulls: Nulls,
)
    requires
        cuttable(rules),
        rules.dialect.record_ending is CrLf,
        0 <= start <= p <= input.len(),
    ensures
        rules.read_checked(input, start, p, fields, nulls) matches Scan::Done { next, .. } ==> p
            <= next <= input.len() && paired(rules, input, p, next, true),
    decreases input.len() - p,
{
    let q = rules.skip_spaces(input, start, p);
    lemma_skip_spaces(rules, input, start, p);
    lemma_spaces_are_spaces(rules, input, start, p);
    lemma_checked_step_bounds(rules, input, start, q, fields.len() as int, nulls);
    lemma_checked_pairs(rules, input, start, q, fields.len() as int, nulls);
    lemma_plain_pairs(rules, input, p, q, false);
    if let Step::Read { field, next, last } = rules.checked_step(
        input,
        start,
        q,
        fields.len() as int,
        nulls,
    ) {
        lemma_pairs_join(rules, input, p, q, next, last);
        if !last {
            lemma_checked_fields_pairs(rules, input, start, next, fields.push(field), nulls);
            if let Scan::Done { next: end, .. } = rules.read_checked(
                input,
                start,
                next,
                fields.push(field),
                nulls,
            ) {
                lemma_pairs_join(rules, input, p, next, end, true);
            }
        }
    }
}

/// The quotes of a record come in pairs, and only its last byte ends a record.
pub proof fn law_quotes_of_a_record_come_in_pairs(
    rules: Rules,
    input: Seq<u8>,
    start: int,
    nulls: Nulls,
)
    requires
        cuttable(rules),
        0 <= start < input.len(),
    ensures
        rules.read_record(input, start, nulls) matches Scan::Done { next, .. } ==> start < next
            <= input.len() && paired(rules, input, start, next, true),
{
    lemma_record_takes_bytes(rules, input, start, nulls);
    if Engine::supports(rules.dialect) {
        lemma_fields_pairs(rules, input, start, start, Seq::empty(), nulls);
    } else {
        lemma_checked_fields_pairs(rules, input, start, start, Seq::empty(), nulls);
    }
}

/// Whether a document read with these settings can be cut: besides what
/// [`cuttable`] asks, every line that is not part of another record is one.
pub open spec fn divisible(settings: ParserSettings) -> bool {
    &&& cuttable(settings.rules())
    &&& settings.dialect.comment is None
    &&& settings.blank_records != BlankRecords::Skip
}

/// What precedes is kept in front.
proof fn lemma_listing_prefix(settings: ParserSettings, input: Seq<u8>, at: int, starts: Seq<int>)
    requires
        divisible(settings),
        0 <= at <= input.len(),
    ensures
        match settings.listing(input, at, Seq::empty()) {
            Listing::Complete(rest) => settings.listing(input, at, starts) == Listing::Complete(
                starts + rest,
            ),
            Listing::Broken { starts: rest, kind, at: bad, number } => settings.listing(
                input,
                at,
                starts,
            ) == (Listing::Broken { starts: starts + rest, kind, at: bad, number }),
        },
    decreases input.len() - at,
{
    assert(starts + Seq::<int>::empty() =~= starts);
    if at < input.len() {
        lemma_record_takes_bytes(settings.rules(), input, at, settings.nulls);
        if let Scan::Done { next, .. } = settings.rules().read_record(input, at, settings.nulls) {
            let one = Seq::<int>::empty().push(at);
            lemma_listing_prefix(settings, input, next, one);
            lemma_listing_prefix(settings, input, next, starts.push(at));
            match settings.listing(input, next, Seq::empty()) {
                Listing::Complete(rest) => {
                    assert(starts.push(at) + rest =~= starts + (one + rest));
                },
                Listing::Broken { starts: rest, .. } => {
                    assert(starts.push(at) + rest =~= starts + (one + rest));
                },
            }
        }
    }
}

/// Whether `b` is where a document whose records start at `from` can be cut.
pub open spec fn cut(rules: Rules, input: Seq<u8>, from: int, b: int) -> bool {
    from < b <= input.len() && even_ending(rules, input, from, b - 1)
}

/// A record in front of a cut is read the same without what follows the cut.
#[verifier::rlimit(60)]
#[verifier::spinoff_prover]
proof fn lemma_cut_record(
    rules: Rules,
    input: Seq<u8>,
    at: int,
    b: int,
    nulls: Nulls,
    fields: Seq<Field>,
    next: int,
)
    requires
        cuttable(rules),
        0 <= at,
        cut(rules, input, at, b),
        rules.read_record(input, at, nulls) == (Scan::Done { fields, next }),
    ensures
        at < next <= b,
        b == next || cut(rules, input, next, b),
        rules.read_record(input.take(b), at, nulls) == (Scan::Done { fields, next }),
{
    law_quotes_of_a_record_come_in_pairs(rules, input, at, nulls);
    if next >= b {
        assert(even_ending(rules, input, at, b - 1));
        assert(b == next);
    } else {
        lemma_quotes_add(input, rules.dialect.quote, at, next, b - 1);
        assert(even_ending(rules, input, next, b - 1));
    }
    law_a_record_is_read_from_its_own_bytes(rules, input, at, input.take(b), at, next - at, nulls);
}

/// A complete document is cut between two records.
proof fn lemma_cut_complete(
    settings: ParserSettings,
    input: Seq<u8>,
    at: int,
    b: int,
    starts: Seq<int>,
) -> (mid: Seq<int>)
    requires
        divisible(settings),
        0 <= at <= b <= input.len(),
        b == at || cut(settings.rules(), input, at, b),
        settings.listing(input, at, starts) is Complete,
    ensures
        settings.listing(input.take(b), at, starts) == Listing::Complete(mid),
        settings.listing(input, b, mid) == settings.listing(input, at, starts),
    decreases b - at,
{
    if at == b {
        starts
    } else {
        lemma_record_takes_bytes(settings.rules(), input, at, settings.nulls);
        let read = settings.rules().read_record(input, at, settings.nulls);
        lemma_cut_record(
            settings.rules(),
            input,
            at,
            b,
            settings.nulls,
            read->Done_fields,
            read->next,
        );
        lemma_cut_complete(settings, input, read->next, b, starts.push(at))
    }
}

/// A quoted field that is none is none in front of a cut either.
proof fn lemma_body_fails_alike(
    rules: Rules,
    x: Seq<u8>,
    start: int,
    content: int,
    cursor: int,
    decoded: Seq<u8>,
    b: int,
)
    requires
        cuttable(rules),
        0 <= start <= content <= cursor < b <= x.len(),
        x[b - 1] == rules.terminator(),
        quotes(x, rules.dialect.quote, cursor, b - 1) % 2 == 1,
    ensures
        rules.quoted_body(x, start, content, cursor, decoded) == rules.quoted_body(
            x.take(b),
            start,
            content,
            cursor,
            decoded,
        ),
        rules.quoted_body(x, start, content, cursor, decoded) matches Body::Closed { after, .. }
            ==> after < b,
        rules.quoted_body(x, start, content, cursor, decoded) matches Body::Broken { at, .. }
            ==> start <= at <= b,
    decreases b - cursor,
{
    let quote = rules.dialect.quote;
    let y = x.take(b);
    let end = rules.field_window(x, start, content);
    let y_end = rules.field_window(y, start, content);
    let stops = rules.quoted_stops();
    let at = first_of(x, cursor, end, stops);
    let y_at = first_of(y, cursor, y_end, stops);
    if cursor < end {
        lemma_first_of(x, cursor, end, stops);
        lemma_first_of(y, cursor, y_end, stops);
        if at >= b - 1 {
            assert forall|i: int| cursor <= i < b - 1 implies x[i] != quote by {
                assert(!stops(x[i]));
            }
            lemma_quotes_none(x, quote, cursor, b - 1);
            assert(false);
        }
        assert(forall|i: int| cursor <= i < at ==> !stops(y[i])) by {
            assert forall|i: int| cursor <= i < at implies !stops(y[i]) by {
                assert(!stops(x[i]));
            }
        }
        crate::search::lemma_first_of_is(y, cursor, y_end, stops, at);
        if at < end {
            assert(x.subrange(cursor, at) =~= y.subrange(cursor, at));
            assert(x[at + 1] == y[at + 1]);
            if x[at + 1] == quote {
                assert forall|i: int| cursor <= i < at implies x[i] != quote by {
                    assert(!stops(x[i]));
                }
                lemma_quotes_none(x, quote, cursor, at);
                lemma_quotes_one(x, quote, at);
                lemma_quotes_one(x, quote, at + 1);
                lemma_quotes_add(x, quote, cursor, at, b - 1);
                lemma_quotes_add(x, quote, at, at + 1, b - 1);
                assert(at + 1 != b - 1);
                lemma_quotes_add(x, quote, at + 1, at + 2, b - 1);
                let segment = decoded + x.subrange(cursor, at);
                lemma_body_fails_alike(
                    rules,
                    x,
                    start,
                    content,
                    at + 2,
                    segment.push(quote),
                    b,
                );
            }
        }
    }
}

/// What follows a closing quote is the same in front of a cut.
proof fn lemma_after_quote_alike(
    rules: Rules,
    x: Seq<u8>,
    start: int,
    after: int,
    count: int,
    field: Field,
    b: int,
)
    requires
        cuttable(rules),
        0 <= start <= after,
        cut(rules, x, after, b),
    ensures
        rules.finish_quoted(x.take(b), start, after, count, field) == rules.finish_quoted(
            x,
            start,
            after,
            count,
            field,
        ),
        rules.finish_quoted(x, start, after, count, field) matches Step::Broken { at, .. } ==> start
            <= at <= b,
        rules.dialect.record_ending is CrLf ==> {
            &&& rules.finish_checked(x, start, after, count, field) is Broken ==> rules.finish_checked(
                x.take(b),
                start,
                after,
                count,
                field,
            ) == rules.finish_checked(x, start, after, count, field)
            &&& rules.finish_checked(x, start, after, count, field) matches Step::Broken { at, .. }
                ==> start <= at <= b
        },
{
    let y = x.take(b);
    lemma_padding_alike(rules, x, after, b);
    let pad = rules.skip_padding(x, after);
    assert(x[pad] == y[pad]);
    if pad + 1 < b {
        assert(x[pad + 1] == y[pad + 1]);
    } else {
        assert(x[pad] == rules.terminator());
    }
}

/// A quoted field that is none is none in front of a cut either.
proof fn lemma_quoted_fails_alike(
    rules: Rules,
    x: Seq<u8>,
    start: int,
    p: int,
    b: int,
)
    requires
        cuttable(rules),
        0 <= start <= p,
        cut(rules, x, p, b),
        rules.opens_quoted(x, p),
    ensures
        p + 1 < b,
        rules.quoted_body(x, start, p + 1, p + 1, Seq::empty()) == rules.quoted_body(
            x.take(b),
            start,
            p + 1,
            p + 1,
            Seq::empty(),
        ),
        rules.quoted_body(x, start, p + 1, p + 1, Seq::empty()) matches Body::Closed { after, .. }
            ==> p < after && cut(rules, x, after, b),
        rules.quoted_body(x, start, p + 1, p + 1, Seq::empty()) matches Body::Broken { at, .. }
            ==> start <= at <= b,
{
    let quote = rules.dialect.quote;
    lemma_quotes_one(x, quote, p);
    assert(p != b - 1);
    lemma_quotes_add(x, quote, p, p + 1, b - 1);
    lemma_body_fails_alike(rules, x, start, p + 1, p + 1, Seq::empty(), b);
    lemma_body_pairs(rules, x, start, p + 1, p + 1, Seq::empty());
    if let Body::Closed { bytes, after } = rules.quoted_body(x, start, p + 1, p + 1, Seq::empty()) {
        lemma_quotes_add(x, quote, p + 1, after, b - 1);
    }
}

/// An unquoted field that is none is none in front of a cut either.
proof fn lemma_unquoted_fails_alike(
    rules: Rules,
    x: Seq<u8>,
    start: int,
    p: int,
    count: int,
    nulls: Nulls,
    b: int,
)
    requires
        cuttable(rules),
        Engine::supports(rules.dialect),
        0 <= start <= p < b <= x.len(),
        x[b - 1] == rules.terminator(),
        rules.unquoted_step(x, start, p, count, nulls) is Broken,
    ensures
        rules.unquoted_step(x.take(b), start, p, count, nulls) == rules.unquoted_step(
            x,
            start,
            p,
            count,
            nulls,
        ),
        rules.unquoted_step(x, start, p, count, nulls) matches Step::Broken { at, .. } && start <= at
            <= b,
{
    let y = x.take(b);
    let end = rules.field_window(x, start, p);
    let y_end = rules.field_window(y, start, p);
    let stops = rules.unquoted_stops();
    let at = first_of(x, p, end, stops);
    if p <= end {
        lemma_first_of(x, p, end, stops);
        if b - 1 < at {
            assert(!stops(x[b - 1]));
            assert(false);
        }
        assert forall|i: int| p <= i < at implies !stops(y[i]) by {
            assert(!stops(x[i]));
        }
        crate::search::lemma_first_of_is(y, p, y_end, stops, at);
        assert(x.subrange(p, at) =~= y.subrange(p, at));
        if at > p {
            assert(x.subrange(p, at - 1) =~= y.subrange(p, at - 1));
        }
    }
}

/// A field that is none is none in front of a cut either.
proof fn lemma_field_fails_alike(
    rules: Rules,
    x: Seq<u8>,
    start: int,
    p: int,
    count: int,
    nulls: Nulls,
    b: int,
)
    requires
        cuttable(rules),
        Engine::supports(rules.dialect),
        0 <= start <= p,
        cut(rules, x, p, b),
        rules.field_step(x, start, p, count, nulls) is Broken,
    ensures
        rules.field_step(x.take(b), start, p, count, nulls) == rules.field_step(
            x,
            start,
            p,
            count,
            nulls,
        ),
        rules.field_step(x, start, p, count, nulls) matches Step::Broken { at, .. } && start <= at
            <= b,
{
    assert(x[p] == x.take(b)[p]);
    if rules.opens_quoted(x, p) {
        lemma_quoted_fails_alike(rules, x, start, p, b);
        if let Body::Closed { bytes, after } = rules.quoted_body(
            x,
            start,
            p + 1,
            p + 1,
            Seq::empty(),
        ) {
            lemma_after_quote_alike(
                rules,
                x,
                start,
                after,
                count + 1,
                crate::storage::text(bytes),
                b,
            );
        }
    } else {
        lemma_unquoted_fails_alike(rules, x, start, p, count, nulls, b);
    }
}

/// Padding ends before the record does.
proof fn lemma_padding_alike(rules: Rules, x: Seq<u8>, after: int, b: int)
    requires
        0 <= after < b <= x.len(),
        x[b - 1] == rules.terminator(),
    ensures
        after <= rules.skip_padding(x, after) < b,
        rules.skip_padding(x.take(b), after) == rules.skip_padding(x, after),
    decreases b - after,
{
    if rules.is_padding(x[after]) {
        lemma_padding_alike(rules, x, after + 1, b);
    }
}

/// Spaces end before the record does.
proof fn lemma_spaces_alike(rules: Rules, x: Seq<u8>, start: int, p: int, b: int)
    requires
        cuttable(rules),
        0 <= start <= p < b <= x.len(),
        x[b - 1] == rules.terminator(),
    ensures
        p <= rules.skip_spaces(x, start, p) < b,
        rules.skip_spaces(x.take(b), start, p) == rules.skip_spaces(x, start, p),
    decreases b - p,
{
    if rules.skip_initial_space && p < rules.record_window(x, start) && x[p] == SPACE {
        lemma_spaces_alike(rules, x, start, p + 1, b);
    }
}

/// Unquoted text is the same in front of a cut.
proof fn lemma_text_alike(
    rules: Rules,
    x: Seq<u8>,
    start: int,
    from: int,
    cursor: int,
    decoded: Seq<u8>,
    b: int,
)
    requires
        cuttable(rules),
        rules.dialect.record_ending is CrLf,
        0 <= start <= from <= cursor < b <= x.len(),
        x[b - 1] == rules.terminator(),
    ensures
        rules.text_body(x, start, from, cursor, decoded) == rules.text_body(
            x.take(b),
            start,
            from,
            cursor,
            decoded,
        ),
        rules.text_body(x, start, from, cursor, decoded) matches Body::Closed { after, .. } ==> from
            <= after < b - 1 && rules.mark(x.take(b), after) == rules.mark(x, after),
        rules.text_body(x, start, from, cursor, decoded) matches Body::Broken { at, .. } ==> start
            <= at <= b,
    decreases b - cursor,
{
    let y = x.take(b);
    let end = rules.field_window(x, start, from);
    assert(x[cursor] == y[cursor]);
    if cursor + 1 < b {
        assert(x[cursor + 1] == y[cursor + 1]);
    }
    if cursor < end {
        assert(rules.mark(x, cursor) == rules.mark(y, cursor));
        if rules.mark(x, cursor) is Content {
            lemma_text_alike(rules, x, start, from, cursor + 1, decoded.push(x[cursor]), b);
        }
    }
}

proof fn lemma_checked_fails_alike(
    rules: Rules,
    x: Seq<u8>,
    start: int,
    p: int,
    count: int,
    nulls: Nulls,
    b: int,
)
    requires
        cuttable(rules),
        rules.dialect.record_ending is CrLf,
        0 <= start <= p,
        cut(rules, x, p, b),
        rules.checked_step(x, start, p, count, nulls) is Broken,
    ensures
        rules.checked_step(x.take(b), start, p, count, nulls) == rules.checked_step(
            x,
            start,
            p,
            count,
            nulls,
        ),
        rules.checked_step(x, start, p, count, nulls) matches Step::Broken { at, .. } && start <= at
            <= b,
{
    assert(x[p] == x.take(b)[p]);
    if rules.opens_quoted(x, p) {
        lemma_quoted_fails_alike(rules, x, start, p, b);
        if let Body::Closed { bytes, after } = rules.quoted_body(
            x,
            start,
            p + 1,
            p + 1,
            Seq::empty(),
        ) {
            lemma_after_quote_alike(
                rules,
                x,
                start,
                after,
                count + 1,
                crate::storage::text(bytes),
                b,
            );
        }
    } else {
        lemma_text_alike(rules, x, start, p, p, Seq::empty(), b);
        if let Body::Closed { bytes, after } = rules.text_body(x, start, p, p, Seq::empty()) {
            assert(x.subrange(p, after) =~= x.take(b).subrange(p, after));
        }
    }
}

/// The part of a record that is left behind a field still ends at the cut.
proof fn lemma_cut_on(rules: Rules, x: Seq<u8>, p: int, next: int, b: int)
    requires
        cut(rules, x, p, b),
        0 <= p <= next <= x.len(),
        paired(rules, x, p, next, false),
    ensures
        cut(rules, x, next, b),
{
    if b <= next {
        assert(even_ending(rules, x, p, b - 1));
        assert(false);
    }
    lemma_quotes_add(x, rules.dialect.quote, p, next, b - 1);
}

/// A field in front of a cut is the same without what follows it.
proof fn lemma_step_alike(
    rules: Rules,
    x: Seq<u8>,
    start: int,
    p: int,
    count: int,
    nulls: Nulls,
    b: int,
)
    requires
        cuttable(rules),
        0 <= start <= p,
        cut(rules, x, p, b),
    ensures
        Engine::supports(rules.dialect) ==> (match rules.field_step(x, start, p, count, nulls) {
            Step::Broken { at, .. } => {
                &&& rules.field_step(x.take(b), start, p, count, nulls) == rules.field_step(
                    x,
                    start,
                    p,
                    count,
                    nulls,
                )
                &&& start <= at <= b
            },
            Step::Read { next, last, .. } => p <= next <= x.len() && (!last ==> p < next && cut(
                rules,
                x,
                next,
                b,
            )),
        }),
        rules.dialect.record_ending is CrLf ==> (match rules.checked_step(
            x,
            start,
            p,
            count,
            nulls,
        ) {
            Step::Broken { at, .. } => {
                &&& rules.checked_step(x.take(b), start, p, count, nulls) == rules.checked_step(
                    x,
                    start,
                    p,
                    count,
                    nulls,
                )
                &&& start <= at <= b
            },
            Step::Read { next, last, .. } => p <= next <= x.len() && (!last ==> p < next && cut(
                rules,
                x,
                next,
                b,
            )),
        }),
{
    if Engine::supports(rules.dialect) {
        lemma_field_step_bounds(rules, x, start, p, count, nulls);
        match rules.field_step(x, start, p, count, nulls) {
            Step::Broken { .. } => lemma_field_fails_alike(rules, x, start, p, count, nulls, b),
            Step::Read { next, last, .. } => {
                lemma_field_pairs(rules, x, start, p, count, nulls);
                if !last {
                    lemma_cut_on(rules, x, p, next, b);
                }
            },
        }
    }
    if rules.dialect.record_ending is CrLf {
        lemma_checked_step_bounds(rules, x, start, p, count, nulls);
        match rules.checked_step(x, start, p, count, nulls) {
            Step::Broken { .. } => lemma_checked_fails_alike(rules, x, start, p, count, nulls, b),
            Step::Read { next, last, .. } => {
                lemma_checked_pairs(rules, x, start, p, count, nulls);
                if !last {
                    lemma_cut_on(rules, x, p, next, b);
                }
            },
        }
    }
}

#[verifier::rlimit(60)]
#[verifier::spinoff_prover]
proof fn lemma_fields_fail_alike(
    rules: Rules,
    x: Seq<u8>,
    start: int,
    p: int,
    fields: Seq<Field>,
    nulls: Nulls,
    b: int,
)
    requires
        cuttable(rules),
        Engine::supports(rules.dialect),
        0 <= start <= p,
        cut(rules, x, p, b),
        rules.read_fields(x, start, p, fields, nulls) is Failed,
    ensures
        rules.read_fields(x.take(b), start, p, fields, nulls) == rules.read_fields(
            x,
            start,
            p,
            fields,
            nulls,
        ),
        rules.read_fields(x, start, p, fields, nulls) matches Scan::Failed { at, .. } && start <= at
            <= b,
    decreases x.len() - p,
{
    let y = x.take(b);
    let count = fields.len() as int;
    let q = rules.skip_spaces(x, start, p);
    lemma_spaces_alike(rules, x, start, p, b);
    lemma_spaces_are_spaces(rules, x, start, p);
    lemma_plain_pairs(rules, x, p, q, false);
    lemma_cut_on(rules, x, p, q, b);
    if !(rules.skip_initial_space && q - start > rules.limits.max_record_bytes) {
        let step = rules.field_step(x, start, q, count, nulls);
        lemma_step_alike(rules, x, start, q, count, nulls, b);
        lemma_first_field(rules, x, start, p, q, step, fields, nulls);
        if let Step::Read { field, next, last } = step {
            lemma_local_step(rules, x, start, y, start, b - start, q, count, nulls);
            lemma_first_field(rules, y, start, p, q, step, fields, nulls);
            lemma_fields_fail_alike(rules, x, start, next, fields.push(field), nulls, b);
        } else {
            lemma_first_field(rules, y, start, p, q, step, fields, nulls);
        }
    }
}

#[verifier::rlimit(60)]
#[verifier::spinoff_prover]
proof fn lemma_checked_fields_fail_alike(
    rules: Rules,
    x: Seq<u8>,
    start: int,
    p: int,
    fields: Seq<Field>,
    nulls: Nulls,
    b: int,
)
    requires
        cuttable(rules),
        rules.dialect.record_ending is CrLf,
        0 <= start <= p,
        cut(rules, x, p, b),
        rules.read_checked(x, start, p, fields, nulls) is Failed,
    ensures
        rules.read_checked(x.take(b), start, p, fields, nulls) == rules.read_checked(
            x,
            start,
            p,
            fields,
            nulls,
        ),
        rules.read_checked(x, start, p, fields, nulls) matches Scan::Failed { at, .. } && start <= at
            <= b,
    decreases x.len() - p,
{
    let y = x.take(b);
    let count = fields.len() as int;
    let q = rules.skip_spaces(x, start, p);
    lemma_spaces_alike(rules, x, start, p, b);
    lemma_spaces_are_spaces(rules, x, start, p);
    lemma_plain_pairs(rules, x, p, q, false);
    lemma_cut_on(rules, x, p, q, b);
    if !(rules.skip_initial_space && q - start > rules.limits.max_record_bytes) {
        let step = rules.checked_step(x, start, q, count, nulls);
        lemma_step_alike(rules, x, start, q, count, nulls, b);
        lemma_first_checked(rules, x, start, p, q, step, fields, nulls);
        if let Step::Read { field, next, last } = step {
            lemma_local_checked_step(rules, x, start, y, start, b - start, q, count, nulls);
            lemma_first_checked(rules, y, start, p, q, step, fields, nulls);
            lemma_checked_fields_fail_alike(rules, x, start, next, fields.push(field), nulls, b);
        } else {
            lemma_first_checked(rules, y, start, p, q, step, fields, nulls);
        }
    }
}

/// What is no record in front of a cut is none with what follows either.
proof fn lemma_record_fails_alike(rules: Rules, x: Seq<u8>, start: int, nulls: Nulls, b: int)
    requires
        cuttable(rules),
        0 <= start,
        cut(rules, x, start, b),
        rules.read_record(x, start, nulls) is Failed,
    ensures
        rules.read_record(x.take(b), start, nulls) == rules.read_record(x, start, nulls),
        rules.read_record(x, start, nulls) matches Scan::Failed { at, .. } && start <= at <= b,
{
    if Engine::supports(rules.dialect) {
        lemma_fields_fail_alike(rules, x, start, start, Seq::empty(), nulls, b);
    } else {
        lemma_checked_fields_fail_alike(rules, x, start, start, Seq::empty(), nulls, b);
    }
}

/// A broken document is broken alike in front of a cut, or behind it.
pub proof fn lemma_cut_broken(
    settings: ParserSettings,
    input: Seq<u8>,
    at: int,
    b: int,
    starts: Seq<int>,
)
    requires
        divisible(settings),
        0 <= at <= b <= input.len(),
        b == at || cut(settings.rules(), input, at, b),
        settings.listing(input, at, starts) is Broken,
    ensures
        match settings.listing(input.take(b), at, starts) {
            Listing::Complete(mid) => settings.listing(input, b, mid) == settings.listing(
                input,
                at,
                starts,
            ),
            Listing::Broken { at: bad, .. } => {
                &&& settings.listing(input.take(b), at, starts) == settings.listing(
                    input,
                    at,
                    starts,
                )
                &&& at <= bad <= b
            },
        },
    decreases b - at,
{
    if at < b {
        lemma_record_takes_bytes(settings.rules(), input, at, settings.nulls);
        let read = settings.rules().read_record(input, at, settings.nulls);
        match read {
            Scan::Done { fields, next } => {
                lemma_cut_record(settings.rules(), input, at, b, settings.nulls, fields, next);
                lemma_cut_broken(settings, input, next, b, starts.push(at));
            },
            _ => {
                lemma_record_fails_alike(settings.rules(), input, at, settings.nulls, b);
            },
        }
    }
}

/// How many records end in `input[from..to]`, by the parity of the quotes.
pub open spec fn endings(rules: Rules, input: Seq<u8>, from: int, to: int) -> int
    decreases to - from,
{
    if to <= from {
        0
    } else {
        endings(rules, input, from, to - 1) + if even_ending(rules, input, from, to - 1) {
            1int
        } else {
            0int
        }
    }
}

pub proof fn lemma_endings_bounded(rules: Rules, input: Seq<u8>, from: int, to: int)
    requires
        from <= to,
    ensures
        0 <= endings(rules, input, from, to) <= to - from,
    decreases to - from,
{
    if from < to {
        lemma_endings_bounded(rules, input, from, to - 1);
    }
}

pub proof fn lemma_endings_add(rules: Rules, input: Seq<u8>, from: int, mid: int, to: int)
    requires
        0 <= from <= mid <= to <= input.len(),
        quotes(input, rules.dialect.quote, from, mid) % 2 == 0,
    ensures
        endings(rules, input, from, to) == endings(rules, input, from, mid) + endings(
            rules,
            input,
            mid,
            to,
        ),
    decreases to - mid,
{
    if mid < to {
        lemma_endings_add(rules, input, from, mid, to - 1);
        lemma_quotes_add(input, rules.dialect.quote, from, mid, to - 1);
    }
}

proof fn lemma_endings_none(rules: Rules, input: Seq<u8>, from: int, to: int)
    requires
        forall|i: int| from <= i < to ==> !#[trigger] even_ending(rules, input, from, i),
    ensures
        endings(rules, input, from, to) == 0,
    decreases to - from,
{
    if from < to {
        lemma_endings_none(rules, input, from, to - 1);
    }
}

/// A record has one ending.
proof fn lemma_endings_one(rules: Rules, input: Seq<u8>, from: int, next: int)
    requires
        rules.dialect.valid(),
        0 <= from < next <= input.len(),
        paired(rules, input, from, next, true),
        input[next - 1] == rules.terminator(),
    ensures
        endings(rules, input, from, next) == 1,
{
    let quote = rules.dialect.quote;
    lemma_quotes_one(input, quote, next - 1);
    lemma_quotes_add(input, quote, from, next - 1, next);
    lemma_endings_none(rules, input, from, next - 1);
}

/// A record in front of a cut takes one of the endings there.
#[verifier::rlimit(60)]
#[verifier::spinoff_prover]
proof fn lemma_record_counts(
    rules: Rules,
    input: Seq<u8>,
    at: int,
    b: int,
    nulls: Nulls,
    fields: Seq<Field>,
    next: int,
)
    requires
        cuttable(rules),
        0 <= at,
        cut(rules, input, at, b),
        rules.read_record(input.take(b), at, nulls) == (Scan::Done { fields, next }),
    ensures
        at < next <= b,
        b == next || cut(rules, input, next, b),
        endings(rules, input, at, b) == 1 + endings(rules, input, next, b),
{
    law_quotes_of_a_record_come_in_pairs(rules, input.take(b), at, nulls);
    law_a_record_is_read_from_its_own_bytes(rules, input.take(b), at, input, at, next - at, nulls);
    lemma_cut_record(rules, input, at, b, nulls, fields, next);
    law_quotes_of_a_record_come_in_pairs(rules, input, at, nulls);
    lemma_endings_one(rules, input, at, next);
    lemma_endings_add(rules, input, at, next, b);
}

/// Up to a cut there are as many records as endings.
pub proof fn lemma_cut_counts(
    settings: ParserSettings,
    input: Seq<u8>,
    at: int,
    b: int,
    starts: Seq<int>,
)
    requires
        divisible(settings),
        0 <= at <= b <= input.len(),
        b == at || cut(settings.rules(), input, at, b),
    ensures
        settings.listing(input.take(b), at, starts) matches Listing::Complete(mid) ==> mid.len()
            == starts.len() + endings(settings.rules(), input, at, b),
    decreases b - at,
{
    if at < b {
        lemma_record_takes_bytes(settings.rules(), input.take(b), at, settings.nulls);
        if let Scan::Done { fields, next } = settings.rules().read_record(
            input.take(b),
            at,
            settings.nulls,
        ) {
            lemma_record_counts(settings.rules(), input, at, b, settings.nulls, fields, next);
            lemma_cut_counts(settings, input, next, b, starts.push(at));
        }
    }
}

/// Where a piece of a document starts.
#[derive(Clone, Copy, Debug, PartialEq, Eq, Structural)]
pub struct Boundary {
    /// The byte.
    pub byte: usize,
    /// The physical line of that byte.
    pub line: u64,
    /// How many records precede it.
    pub record: u64,
}

/// Whether a document that starts at `start` can be cut into these pieces.
pub open spec fn pieces(rules: Rules, input: Seq<u8>, start: int, cuts: Seq<Boundary>) -> bool {
    &&& cuts.len() > 0
    &&& cuts[0].byte == start
    &&& forall|i: int|
        0 <= i < cuts.len() ==> {
            &&& start <= (#[trigger] cuts[i]).byte <= input.len()
            &&& cuts[i].line == line_number(input, cuts[i].byte as int)
            &&& cuts[i].record == endings(rules, input, start, cuts[i].byte as int)
        }
    &&& forall|i: int|
        0 < i < cuts.len() ==> cut(rules, input, start, (#[trigger] cuts[i]).byte as int)
    &&& forall|i: int, j: int| 0 <= i < j < cuts.len() ==> cuts[i].byte < cuts[j].byte
}

/// Where piece `index` ends.
pub open spec fn piece_end(input: Seq<u8>, cuts: Seq<Boundary>, index: int) -> int {
    if index + 1 < cuts.len() {
        cuts[index + 1].byte as int
    } else {
        input.len() as int
    }
}

impl ParserSettings {
    /// List the records of piece `index`.
    pub open spec fn piece(self, input: Seq<u8>, cuts: Seq<Boundary>, index: int) -> Listing {
        self.listing(
            input.take(piece_end(input, cuts, index)),
            cuts[index].byte as int,
            Seq::empty(),
        )
    }

    /// List the records of the pieces from `index` on, after those that start at
    /// `starts`, up to the first piece that is broken.
    pub open spec fn piece_by_piece(
        self,
        input: Seq<u8>,
        cuts: Seq<Boundary>,
        index: int,
        starts: Seq<int>,
    ) -> Listing
        decreases cuts.len() - index,
    {
        if index < 0 || index >= cuts.len() {
            Listing::Complete(starts)
        } else {
            match self.piece(input, cuts, index) {
                Listing::Complete(more) => self.piece_by_piece(
                    input,
                    cuts,
                    index + 1,
                    starts + more,
                ),
                Listing::Broken { starts: more, kind, at, number } => Listing::Broken {
                    starts: starts + more,
                    kind,
                    at,
                    number,
                },
            }
        }
    }
}

/// Two cuts bound a piece that can be read by itself.
pub proof fn lemma_cut_between(rules: Rules, input: Seq<u8>, start: int, a: int, b: int)
    requires
        rules.dialect.valid(),
        0 <= start,
        a == start || cut(rules, input, start, a),
        cut(rules, input, start, b),
        a < b,
    ensures
        cut(rules, input, a, b),
        quotes(input, rules.dialect.quote, start, a) % 2 == 0,
{
    let quote = rules.dialect.quote;
    lemma_quotes_add(input, quote, start, a, b - 1);
    if a > start {
        lemma_quotes_one(input, quote, a - 1);
        lemma_quotes_add(input, quote, start, a - 1, a);
        lemma_quotes_add(input, quote, start, a, b - 1);
    }
}

/// A document reads the same piece by piece as from one end to the other.
pub proof fn law_pieces_read_like_the_whole(
    settings: ParserSettings,
    input: Seq<u8>,
    start: int,
    cuts: Seq<Boundary>,
    index: int,
    starts: Seq<int>,
)
    requires
        divisible(settings),
        0 <= start,
        pieces(settings.rules(), input, start, cuts),
        0 <= index < cuts.len(),
    ensures
        settings.piece_by_piece(input, cuts, index, starts) == settings.listing(
            input,
            cuts[index].byte as int,
            starts,
        ),
    decreases cuts.len() - index,
{
    reveal_with_fuel(ParserSettings::piece_by_piece, 2);
    let rules = settings.rules();
    let a = cuts[index].byte as int;
    let b = piece_end(input, cuts, index);
    lemma_listing_prefix(settings, input.take(b), a, starts);
    if index + 1 < cuts.len() {
        assert(cuts[index].byte < cuts[index + 1].byte);
        assert(cut(rules, input, start, cuts[index + 1].byte as int));
        if index > 0 {
            assert(cut(rules, input, start, cuts[index].byte as int));
        }
        lemma_cut_between(rules, input, start, a, b);
        match settings.listing(input, a, starts) {
            Listing::Complete(_) => {
                let mid = lemma_cut_complete(settings, input, a, b, starts);
                law_pieces_read_like_the_whole(settings, input, start, cuts, index + 1, mid);
            },
            Listing::Broken { .. } => {
                lemma_cut_broken(settings, input, a, b, starts);
                if let Listing::Complete(mid) = settings.listing(input.take(b), a, starts) {
                    law_pieces_read_like_the_whole(settings, input, start, cuts, index + 1, mid);
                }
            },
        }
    } else {
        assert(input.take(b) =~= input);
    }
}

} // verus!
