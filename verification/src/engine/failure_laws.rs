//! What holds of bytes that are refused as a record.

use vstd::prelude::*;

use crate::config::{Limits, Nulls};
use crate::engine::checked::{lemma_checked_step_bounds, Mark};
use crate::engine::grammar::{Body, Rules, Scan, Step};
use crate::engine::owned_parser::{
    lemma_field_step_bounds, lemma_plain_bounded, lemma_quoted_body_bounds, lemma_reads_bounded,
    lemma_skip_padding, lemma_skip_spaces,
};
use crate::engine::{Engine, PrefixParser};
use crate::error::ErrorKind;
use crate::search::{first_of, lemma_first_of, lemma_run_end, run_end};
use crate::storage::{empties, text, Field};

verus! {

/// Whether a failure says what is wrong at `at` in a record that starts at
/// `start`: the byte that it names stands there, or as many bytes as a limit
/// allows have been passed, or the input is over inside quotes.
pub open spec fn is_at_fault(
    rules: Rules,
    input: Seq<u8>,
    start: int,
    kind: ErrorKind,
    at: int,
) -> bool {
    &&& start <= at <= input.len()
    &&& match kind {
        ErrorKind::FieldTooLarge { limit } => limit == rules.limits.max_field_bytes && at - start
            > limit,
        ErrorKind::RecordTooLarge { limit } => limit == rules.limits.max_record_bytes && at - start
            > limit,
        ErrorKind::TooManyFields { limit } => limit == rules.limits.max_fields,
        ErrorKind::UnexpectedQuote => at < input.len() && input[at] == rules.dialect.quote
            && rules.syntax.quoting_enabled() && !rules.syntax.permits_unquoted_quotes(),
        ErrorKind::UnexpectedByteAfterQuote(byte) => at < input.len() && input[at] == byte,
        ErrorKind::InvalidEscape(byte) => at < input.len() && input[at] == byte,
        ErrorKind::InvalidRecordEnding(byte) => at < input.len() && input[at] == byte && (byte == 13
            || byte == 10) && rules.dialect.record_ending is CrLf,
        ErrorKind::UnterminatedQuotedField => at == input.len()
            && rules.syntax.quoting_enabled(),
        _ => false,
    }
}

proof fn lemma_body_fault(
    rules: Rules,
    input: Seq<u8>,
    start: int,
    content: int,
    cursor: int,
    decoded: Seq<u8>,
)
    requires
        rules.syntax.quoting_enabled(),
        0 <= start <= content <= cursor,
        content <= input.len(),
    ensures
        rules.quoted_body(input, start, content, cursor, decoded) matches Body::Broken {
            kind,
            at,
        } ==> is_at_fault(rules, input, start, kind, at),
    decreases input.len() - cursor,
{
    let end = rules.field_window(input, start, content);
    let at = first_of(input, cursor, end, rules.quoted_stops());
    if cursor < end {
        lemma_first_of(input, cursor, end, rules.quoted_stops());
        if at < end && at + 1 < input.len() {
            let segment = decoded + input.subrange(cursor, at);
            lemma_body_fault(rules, input, start, content, at + 2, segment.push(input[at + 1]));
            lemma_body_fault(
                rules,
                input,
                start,
                content,
                at + 2,
                segment.push(rules.dialect.quote),
            );
        }
    }
}

proof fn lemma_text_fault(
    rules: Rules,
    input: Seq<u8>,
    start: int,
    from: int,
    cursor: int,
    decoded: Seq<u8>,
)
    requires
        0 <= start <= from <= cursor,
        from <= input.len(),
    ensures
        rules.text_body(input, start, from, cursor, decoded) matches Body::Broken { kind, at }
            ==> is_at_fault(rules, input, start, kind, at),
    decreases input.len() - cursor,
{
    let end = rules.field_window(input, start, from);
    if cursor < end {
        match rules.mark(input, cursor) {
            Mark::Content => lemma_text_fault(
                rules,
                input,
                start,
                from,
                cursor + 1,
                decoded.push(input[cursor]),
            ),
            Mark::Escape => lemma_text_fault(
                rules,
                input,
                start,
                from,
                cursor + 2,
                decoded.push(rules.unescaped(input[cursor + 1])),
            ),
            _ => {},
        }
    }
}

proof fn lemma_step_fault(
    rules: Rules,
    input: Seq<u8>,
    start: int,
    p: int,
    count: int,
    nulls: Nulls,
)
    requires
        rules.dialect.valid(),
        0 <= start <= p <= input.len(),
    ensures
        rules.field_step(input, start, p, count, nulls) matches Step::Broken { kind, at, .. }
            ==> is_at_fault(rules, input, start, kind, at),
{
    if rules.opens_quoted(input, p) {
        lemma_body_fault(rules, input, start, p + 1, p + 1, Seq::empty());
        lemma_quoted_body_bounds(rules, input, start, p + 1, p + 1, Seq::empty());
        if let Body::Closed { bytes, after } = rules.quoted_body(
            input,
            start,
            p + 1,
            p + 1,
            Seq::empty(),
        ) {
            lemma_skip_padding(rules, input, after);
        }
    } else {
        let end = rules.field_window(input, start, p);
        let at = first_of(input, p, end, rules.unquoted_stops());
        if p <= end {
            lemma_first_of(input, p, end, rules.unquoted_stops());
            if at < end {
                assert(rules.unquoted_stops()(input[at]));
            }
        }
    }
}

proof fn lemma_checked_step_fault(
    rules: Rules,
    input: Seq<u8>,
    start: int,
    p: int,
    count: int,
    nulls: Nulls,
)
    requires
        rules.dialect.valid(),
        0 <= start <= p <= input.len(),
    ensures
        rules.checked_step(input, start, p, count, nulls) matches Step::Broken { kind, at, .. }
            ==> is_at_fault(rules, input, start, kind, at),
{
    if rules.dialect.escape.unquoted_byte() is None && rules.opens_quoted(input, p) {
        lemma_body_fault(rules, input, start, p + 1, p + 1, Seq::empty());
        lemma_quoted_body_bounds(rules, input, start, p + 1, p + 1, Seq::empty());
        if let Body::Closed { bytes, after } = rules.quoted_body(
            input,
            start,
            p + 1,
            p + 1,
            Seq::empty(),
        ) {
            lemma_skip_padding(rules, input, after);
        }
    } else {
        lemma_text_fault(rules, input, start, p, p, Seq::empty());
        crate::engine::checked::lemma_text_body_bounds(rules, input, start, p, p, Seq::empty());
    }
}

proof fn lemma_fields_fault(
    rules: Rules,
    input: Seq<u8>,
    start: int,
    p: int,
    fields: Seq<Field>,
    nulls: Nulls,
)
    requires
        rules.dialect.valid(),
        0 <= start <= p <= input.len(),
    ensures
        rules.read_fields(input, start, p, fields, nulls) matches Scan::Failed { kind, at, .. }
            ==> is_at_fault(rules, input, start, kind, at),
        rules.read_checked(input, start, p, fields, nulls) matches Scan::Failed { kind, at, .. }
            ==> is_at_fault(rules, input, start, kind, at),
    decreases input.len() - p,
{
    let q = rules.skip_spaces(input, start, p);
    let count = fields.len() as int;
    lemma_skip_spaces(rules, input, start, p);
    lemma_step_fault(rules, input, start, q, count, nulls);
    lemma_checked_step_fault(rules, input, start, q, count, nulls);
    lemma_field_step_bounds(rules, input, start, q, count, nulls);
    lemma_checked_step_bounds(rules, input, start, q, count, nulls);
    if let Step::Read { field, next, last } = rules.field_step(input, start, q, count, nulls) {
        if !last {
            lemma_fields_fault(rules, input, start, next, fields.push(field), nulls);
        }
    }
    if let Step::Read { field, next, last } = rules.checked_step(input, start, q, count, nulls) {
        if !last {
            lemma_fields_fault(rules, input, start, next, fields.push(field), nulls);
        }
    }
}

/// A record that is refused is refused for what stands where the failure points:
/// a byte that it names is the byte there, a limit that it names is the one that
/// was set, and has been passed there, and quotes are left open only by the end
/// of the input.
pub proof fn law_a_refusal_names_what_is_wrong(
    rules: Rules,
    input: Seq<u8>,
    start: int,
    nulls: Nulls,
)
    requires
        rules.dialect.valid(),
        0 <= start <= input.len(),
    ensures
        rules.read_record(input, start, nulls) matches Scan::Failed { kind, at, .. }
            ==> is_at_fault(rules, input, start, kind, at),
{
    lemma_fields_fault(rules, input, start, start, Seq::empty(), nulls);
}

proof fn lemma_plain_fault(rules: Rules, input: Seq<u8>, start: int, p: int, fields: Seq<Field>)
    requires
        rules.dialect.valid(),
        0 <= start <= p <= input.len(),
    ensures
        rules.read_plain(input, start, p, fields) matches Scan::Failed { kind, at, .. }
            ==> is_at_fault(rules, input, start, kind, at),
    decreases input.len() - p,
{
    let end = rules.record_window(input, start);
    let at = rules.plain_stop(input, p, end);
    let count = fields.len() as int;
    if p <= end && at < end {
        lemma_first_of(input, p, end, rules.plain_stops());
        if input[at] == rules.dialect.delimiter {
            if at == p {
                let after = run_end(input, at, rules.dialect.delimiter);
                lemma_run_end(input, at, rules.dialect.delimiter);
                if p < after <= input.len() {
                    lemma_plain_fault(
                        rules,
                        input,
                        start,
                        after,
                        fields + empties((after - at) as nat),
                    );
                }
            } else {
                lemma_plain_fault(
                    rules,
                    input,
                    start,
                    at + 1,
                    fields.push(text(input.subrange(p, at))),
                );
            }
        }
    }
}

proof fn lemma_resume_fault(
    engine: Engine,
    input: Seq<u8>,
    start: int,
    at: int,
    fields: Seq<Field>,
)
    requires
        engine.dialect.valid(),
        0 <= start <= at <= input.len(),
    ensures
        engine.resume(input, start, at, fields) matches Scan::Failed { kind, at: place, .. }
            ==> is_at_fault(engine.rules(), input, start, kind, place),
        engine.resume(input, start, at, fields) matches Scan::Paused { at: stop, .. } ==> start
            <= stop <= input.len(),
    decreases input.len() - at,
{
    if let (Some(parser), Some(window)) = (
        engine.quoted_prefix_parser,
        engine.resume_window(input, start, at),
    ) {
        lemma_reads_bounded(parser, window, fields);
        if let Some(prefix) = parser.reads(window, fields) {
            let p = at + prefix.at;
            if !prefix.finished {
                lemma_plain_fault(engine.rules(), input, start, p, prefix.fields);
                lemma_plain_bounded(engine.rules(), input, start, p, prefix.fields);
                if let Scan::Paused { fields: more, at: stop } = engine.rules().read_plain(
                    input,
                    start,
                    p,
                    prefix.fields,
                ) {
                    if at < stop <= input.len() {
                        lemma_resume_fault(engine, input, start, stop, more);
                    }
                }
            }
        }
    }
}

/// Whether an outcome is a record, or points at what is wrong with it, or with
/// its number of fields.
pub open spec fn is_told(rules: Rules, input: Seq<u8>, start: int, scan: Scan) -> bool {
    match scan {
        Scan::Done { .. } => true,
        Scan::Paused { at, .. } => start <= at <= input.len(),
        Scan::Failed { kind, at, .. } => kind is FieldCountMismatch || is_at_fault(
            rules,
            input,
            start,
            kind,
            at,
        ),
    }
}

proof fn lemma_interior_fault(engine: Engine, input: Seq<u8>, start: int, header: bool)
    requires
        engine.dialect.valid(),
        0 <= start < input.len(),
    ensures
        is_told(
            engine.rules(),
            input,
            start,
            engine.interior(input, start, Seq::empty(), header).scan,
        ),
{
    if let Some(parser) = engine.interior_prefix_parser {
        lemma_reads_bounded(parser, input.skip(start), Seq::empty());
        if let Some(prefix) = parser.reads(input.skip(start), Seq::empty()) {
            let p = start + prefix.at;
            lemma_plain_fault(engine.rules(), input, start, p, prefix.fields);
            lemma_plain_bounded(engine.rules(), input, start, p, prefix.fields);
            if let Scan::Paused { fields: more, at } = engine.rules().read_plain(
                input,
                start,
                p,
                prefix.fields,
            ) {
                let state = engine.expecting(engine.multi_quote_parser);
                assert(state.rules() == engine.rules());
                lemma_resume_fault(state, input, start, at, more);
            }
        }
    }
}

proof fn lemma_interrupted_fault(
    engine: Engine,
    input: Seq<u8>,
    start: int,
    p: int,
    fields: Seq<Field>,
    header: bool,
    parser: Option<PrefixParser>,
)
    requires
        engine.dialect.valid(),
        0 <= start <= p <= input.len(),
    ensures
        is_told(
            engine.rules(),
            input,
            start,
            engine.interrupted(
                input,
                start,
                engine.rules().read_plain(input, start, p, fields),
                header,
                parser,
            ).scan,
        ),
{
    lemma_plain_fault(engine.rules(), input, start, p, fields);
    lemma_plain_bounded(engine.rules(), input, start, p, fields);
    if let Scan::Paused { fields: more, at } = engine.rules().read_plain(input, start, p, fields) {
        let state = engine.expecting(parser);
        assert(state.rules() == engine.rules());
        lemma_resume_fault(state, input, start, at, state.nulled(more, header));
    }
}

/// Whichever parser reads a record, where it is refused, what is wrong stands
/// where the failure points, or its number of fields is wrong.
#[verifier::spinoff_prover]
#[verifier::rlimit(40)]
pub proof fn law_every_path_names_what_is_wrong(
    engine: Engine,
    input: Seq<u8>,
    start: int,
    header: bool,
)
    requires
        engine.dialect.valid(),
        0 <= start < input.len(),
    ensures
        engine.owned(input, start, Seq::empty(), header).scan matches Scan::Failed { kind, at, .. }
            ==> kind is FieldCountMismatch || is_at_fault(engine.rules(), input, start, kind, at),
{
    let none = Seq::<Field>::empty();
    let opens = input[start] == engine.dialect.quote;
    let head = engine.predicted(input, start, none, header);
    if engine.plain_kernel {
        if engine.syntax.quoting_enabled() && (opens || engine.interior_quotes != 0) {
            let state = Engine {
                interior_quotes: engine.interior_quotes.saturating_sub(1),
                ..engine
            };
            assert(state.rules() == engine.rules());
            if !opens {
                lemma_interior_fault(state, input, start, header);
            } else if let Some(parser) = state.quoted_prefix_parser {
                lemma_reads_bounded(parser, input.skip(start), none);
                if let Some(prefix) = parser.reads(input.skip(start), none) {
                    lemma_interrupted_fault(
                        state,
                        input,
                        start,
                        start + prefix.at,
                        prefix.fields,
                        header,
                        state.multi_quote_parser,
                    );
                }
            }
        } else {
            lemma_interrupted_fault(
                engine,
                input,
                start,
                start,
                none,
                header,
                engine.interior_handoff_parser,
            );
        }
    }
    assert(is_told(engine.rules(), input, start, head.scan));
    if let Scan::Paused { fields, at } = head.scan {
        lemma_fields_fault(
            engine.rules(),
            input,
            start,
            at,
            fields,
            engine.nulls_for(header),
        );
    }
}

/// No more of the input than its limits allow is looked at before a record is
/// refused for its size: one that fits is not.
pub proof fn law_a_short_input_breaks_no_limit_on_bytes(
    rules: Rules,
    input: Seq<u8>,
    start: int,
    nulls: Nulls,
)
    requires
        rules.dialect.valid(),
        0 <= start <= input.len(),
        input.len() - start <= rules.limits.max_field_bytes,
        input.len() - start <= rules.limits.max_record_bytes,
    ensures
        rules.read_record(input, start, nulls) matches Scan::Failed { kind, .. } ==> !(
        kind is FieldTooLarge) && !(kind is RecordTooLarge),
{
    law_a_refusal_names_what_is_wrong(rules, input, start, nulls);
}

/// Limits say how much is read, not what: a record that is read under some limits
/// is read alike under wider ones.
pub proof fn law_wider_limits_read_alike(
    rules: Rules,
    limits: Limits,
    input: Seq<u8>,
    start: int,
    nulls: Nulls,
)
    requires
        rules.dialect.valid(),
        0 <= start <= input.len(),
        limits.max_fields >= rules.limits.max_fields,
        limits.max_field_bytes >= rules.limits.max_record_bytes,
        limits.max_record_bytes >= rules.limits.max_record_bytes,
    ensures
        rules.read_record(input, start, nulls) is Done ==> (Rules { limits, ..rules }).read_record(
            input,
            start,
            nulls,
        ) == rules.read_record(input, start, nulls),
{
    let wider = Rules { limits, ..rules };
    crate::engine::reading_laws::law_a_record_is_what_its_bytes_say(rules, input, start, nulls);
    crate::engine::reading_laws::law_a_record_is_within_its_limits(rules, input, start, nulls);
    if let Scan::Done { fields, next } = rules.read_record(input, start, nulls) {
        crate::engine::reading_laws::lemma_limits_say_nothing(
            rules,
            wider,
            input,
            start,
            next,
            fields,
            nulls,
        );
        crate::engine::reading_laws::law_what_bytes_say_is_read(
            wider,
            input,
            start,
            next,
            fields,
            nulls,
        );
    }
}

} // verus!
