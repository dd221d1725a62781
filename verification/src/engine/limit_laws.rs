//! Every parser keeps to the limits.

use vstd::prelude::*;

use crate::config::{Limits, Nulls};
use crate::engine::grammar::{least, Named, Rules, Scan};
use crate::engine::owned_parser::{lemma_plain_bounded, lemma_reads_bounded};
use crate::engine::reading_laws::lemma_fields_hold;
use crate::engine::record_parser::default_csv;
use crate::engine::{Engine, PrefixParser};
use crate::search::{first_of, lemma_first_of, lemma_run_end, one_of3, run_end};
use crate::storage::{all_with_nulls, empties, text, Field};

verus! {

/// Whether there are no more fields than allowed, and none is longer than
/// allowed.
pub open spec fn are_within(limits: Limits, fields: Seq<Field>) -> bool {
    &&& fields.len() <= limits.max_fields
    &&& forall|i: int|
        0 <= i < fields.len() ==> (#[trigger] fields[i]).bytes.len() <= limits.max_field_bytes
}

proof fn lemma_one_more(limits: Limits, fields: Seq<Field>, field: Field)
    requires
        are_within(limits, fields),
        fields.len() != limits.max_fields,
        field.bytes.len() <= limits.max_field_bytes,
    ensures
        are_within(limits, fields.push(field)),
{
    let all = fields.push(field);
    assert forall|i: int| 0 <= i < all.len() implies (#[trigger] all[i]).bytes.len()
        <= limits.max_field_bytes by {
        if i < fields.len() {
            assert(all[i] == fields[i]);
        }
    }
}

proof fn lemma_empties_within(limits: Limits, fields: Seq<Field>, count: nat)
    requires
        are_within(limits, fields),
        fields.len() + count <= limits.max_fields,
    ensures
        are_within(limits, fields + empties(count)),
{
    let all = fields + empties(count);
    assert forall|i: int| 0 <= i < all.len() implies (#[trigger] all[i]).bytes.len()
        <= limits.max_field_bytes by {
        if i < fields.len() {
            assert(all[i] == fields[i]);
        } else {
            assert(all[i] == empties(count)[i - fields.len()]);
        }
    }
}

proof fn lemma_nulls_within(engine: Engine, fields: Seq<Field>, header: bool)
    requires
        are_within(engine.limits, fields),
    ensures
        are_within(engine.limits, engine.nulled(fields, header)),
{
    let all = all_with_nulls(engine.nulls, fields);
    assert forall|i: int| 0 <= i < all.len() implies (#[trigger] all[i]).bytes.len()
        <= engine.limits.max_field_bytes by {
        assert(fields[i].bytes.len() <= engine.limits.max_field_bytes);
    }
}

/// Whether what was read is within the limits, as far as it goes.
pub open spec fn keeps_to(limits: Limits, input: Seq<u8>, start: int, scan: Scan) -> bool {
    match scan {
        Scan::Done { fields, next } => are_within(limits, fields) && next - start
            <= limits.max_record_bytes,
        Scan::Paused { fields, at } => are_within(limits, fields) && start <= at <= input.len(),
        Scan::Failed { .. } => true,
    }
}

proof fn lemma_plain_keeps(rules: Rules, input: Seq<u8>, start: int, p: int, fields: Seq<Field>)
    requires
        0 <= start <= p <= input.len(),
        are_within(rules.limits, fields),
    ensures
        keeps_to(rules.limits, input, start, rules.read_plain(input, start, p, fields)),
    decreases input.len() - p,
{
    let end = rules.record_window(input, start);
    let at = rules.plain_stop(input, p, end);
    let count = fields.len() as int;
    lemma_plain_bounded(rules, input, start, p, fields);
    if p > end || at >= end {
        if end >= input.len() && rules.push_failure(count, end - p) is None {
            lemma_one_more(rules.limits, fields, text(input.subrange(p, end)));
        }
    } else {
        lemma_first_of(input, p, end, rules.plain_stops());
        if input[at] == rules.dialect.delimiter {
            if at == p {
                let after = run_end(input, at, rules.dialect.delimiter);
                lemma_run_end(input, at, rules.dialect.delimiter);
                if after - at <= rules.limits.max_fields - count && p < after <= input.len() {
                    lemma_empties_within(rules.limits, fields, (after - at) as nat);
                    lemma_plain_keeps(
                        rules,
                        input,
                        start,
                        after,
                        fields + empties((after - at) as nat),
                    );
                }
            } else if rules.push_failure(count, at - p) is None {
                let field = text(input.subrange(p, at));
                lemma_one_more(rules.limits, fields, field);
                lemma_plain_keeps(rules, input, start, at + 1, fields.push(field));
            }
        } else {
            let stop = rules.unquoted_end(input, p, at);
            if rules.push_failure(count, stop - p) is None {
                lemma_one_more(rules.limits, fields, text(input.subrange(p, stop)));
            }
        }
    }
}

proof fn lemma_named_body(
    named: Named,
    input: Seq<u8>,
    content: int,
    cursor: int,
    decoded: Seq<u8>,
)
    requires
        0 <= content <= cursor,
        decoded.len() <= cursor - content,
    ensures
        named.quoted_body(input, content, cursor, decoded) matches Some((bytes, after)) ==> {
            &&& bytes.len() <= after - 1 - content
            &&& !named.too_long(after - 1 - content)
            &&& cursor < after <= input.len()
        },
    decreases input.len() - cursor,
{
    let at = first_of(input, cursor, input.len() as int, named.quoted_stops());
    if cursor <= input.len() {
        lemma_first_of(input, cursor, input.len() as int, named.quoted_stops());
        if at < input.len() {
            let segment = decoded + input.subrange(cursor, at);
            if at + 1 < input.len() {
                lemma_named_body(named, input, content, at + 2, segment.push(input[at + 1]));
                lemma_named_body(named, input, content, at + 2, segment.push(crate::ascii::QUOTE));
            }
        }
    }
}

/// Whether a field of these bytes cannot be too long, or is checked.
pub open spec fn is_checked(named: Named, input: Seq<u8>) -> bool {
    named.check || input.len() <= Limits::standard().max_field_bytes
}

proof fn lemma_named_field(named: Named, input: Seq<u8>, p: int)
    requires
        0 <= p,
        is_checked(named, input),
    ensures
        named.field(input, p) matches Some((field, next, last)) ==> field.bytes.len()
            <= Limits::standard().max_field_bytes && p < next <= input.len(),
        p < input.len() ==> (named.quoted_field(input, p) matches Some((field, next, last))
            ==> field.bytes.len() <= Limits::standard().max_field_bytes && p < next
            <= input.len()),
{
    lemma_named_body(named, input, p + 1, p + 1, Seq::empty());
    if p < input.len() {
        lemma_first_of(
            input,
            p,
            input.len() as int,
            one_of3(named.delimiter, crate::ascii::QUOTE, crate::ascii::LF),
        );
    }
}

proof fn lemma_named_record(named: Named, input: Seq<u8>, p: int, fields: Seq<Field>)
    requires
        0 <= p,
        is_checked(named, input),
        are_within(Limits::standard(), fields),
    ensures
        named.record(input, p, fields) matches Some(prefix) ==> are_within(
            Limits::standard(),
            prefix.fields,
        ) && prefix.at <= input.len(),
    decreases input.len() - p,
{
    lemma_named_field(named, input, p);
    if let Some((field, next, last)) = named.field(input, p) {
        if !Named::full(fields) {
            lemma_one_more(Limits::standard(), fields, field);
            if !last {
                lemma_named_record(named, input, next, fields.push(field));
            }
        }
    }
}

proof fn lemma_named_quoted(named: Named, input: Seq<u8>, p: int, fields: Seq<Field>)
    requires
        0 <= p <= input.len(),
        is_checked(named, input),
        are_within(Limits::standard(), fields),
    ensures
        named.quoted_prefix(input, p, fields) matches Some(prefix) ==> are_within(
            Limits::standard(),
            prefix.fields,
        ) && prefix.at <= input.len(),
    decreases input.len() - p,
{
    lemma_named_field(named, input, p);
    if p < input.len() && input[p] == crate::ascii::QUOTE {
        if let Some((field, next, last)) = named.quoted_field(input, p) {
            if !Named::full(fields) {
                lemma_one_more(Limits::standard(), fields, field);
                if !last {
                    lemma_named_quoted(named, input, next, fields.push(field));
                }
            }
        }
    }
}

proof fn lemma_named_interior(named: Named, input: Seq<u8>, p: int, fields: Seq<Field>)
    requires
        0 <= p,
        is_checked(named, input),
        are_within(Limits::standard(), fields),
    ensures
        named.interior_prefix(input, p, fields) matches Some(prefix) ==> are_within(
            Limits::standard(),
            prefix.fields,
        ) && prefix.at <= input.len(),
    decreases input.len() - p,
{
    lemma_named_field(named, input, p);
    if let Some((field, next, last)) = named.field(input, p) {
        if !Named::full(fields) {
            lemma_one_more(Limits::standard(), fields, field);
            if !last && input[p] != crate::ascii::QUOTE {
                lemma_named_interior(named, input, next, fields.push(field));
            }
        }
    }
}

proof fn lemma_parser_keeps(parser: PrefixParser, input: Seq<u8>, fields: Seq<Field>)
    requires
        are_within(Limits::standard(), fields),
    ensures
        parser.reads(input, fields) matches Some(prefix) ==> are_within(
            Limits::standard(),
            prefix.fields,
        ) && prefix.at <= Limits::standard().max_record_bytes && 0 <= prefix.at <= input.len(),
{
    let named = default_csv(input.len() > Limits::standard().max_field_bytes);
    let window = Named::window(input);
    lemma_reads_bounded(parser, input, fields);
    match parser {
        PrefixParser::Record => lemma_named_record(named, window, 0, fields),
        PrefixParser::QuotedPrefix => lemma_named_quoted(named, window, 0, fields),
        PrefixParser::InteriorPrefix => lemma_named_interior(named, window, 0, fields),
    }
}

proof fn lemma_resume_keeps(
    engine: Engine,
    input: Seq<u8>,
    start: int,
    at: int,
    fields: Seq<Field>,
)
    requires
        engine.quoted_prefix_parser is Some ==> engine.limits == Limits::standard(),
        0 <= start <= at <= input.len(),
        are_within(engine.limits, fields),
    ensures
        keeps_to(engine.limits, input, start, engine.resume(input, start, at, fields)),
    decreases input.len() - at,
{
    if let (Some(parser), Some(window)) = (
        engine.quoted_prefix_parser,
        engine.resume_window(input, start, at),
    ) {
        let end = least(input.len() as int, start + engine.limits.max_record_bytes);
        lemma_parser_keeps(parser, window, fields);
        if let Some(prefix) = parser.reads(window, fields) {
            assert(at + prefix.at <= end);
            if !prefix.finished {
                lemma_plain_keeps(engine.rules(), input, start, at + prefix.at, prefix.fields);
                if let Scan::Paused { fields: more, at: stop } = engine.rules().read_plain(
                    input,
                    start,
                    at + prefix.at,
                    prefix.fields,
                ) {
                    if at < stop <= input.len() {
                        lemma_resume_keeps(engine, input, start, stop, more);
                    }
                }
            }
        }
    }
}

proof fn lemma_whole_keeps(engine: Engine, input: Seq<u8>, start: int, fields: Seq<Field>)
    requires
        engine.owned_parser is Some ==> engine.limits == Limits::standard(),
        0 <= start <= input.len(),
        are_within(engine.limits, fields),
    ensures
        keeps_to(engine.limits, input, start, engine.whole(input, start, fields)),
{
    if let Some(parser) = engine.owned_parser {
        let rest = input.skip(start);
        let named = Named {
            delimiter: parser.delimiter,
            backslash: parser.backslash,
            check: rest.len() > Limits::standard().max_field_bytes,
        };
        lemma_named_record(named, Named::window(rest), 0, fields);
    }
}

proof fn lemma_settled_keeps(
    engine: Engine,
    input: Seq<u8>,
    start: int,
    fields: Seq<Field>,
    next: int,
)
    requires
        are_within(engine.limits, fields),
        next - start <= engine.limits.max_record_bytes,
    ensures
        keeps_to(engine.limits, input, start, engine.settled(fields, next).scan),
{
}

proof fn lemma_interrupted_keeps(
    engine: Engine,
    input: Seq<u8>,
    start: int,
    plain: Scan,
    header: bool,
    parser: Option<PrefixParser>,
)
    requires
        engine.quoted_prefix_parser is Some ==> engine.limits == Limits::standard(),
        0 <= start <= input.len(),
        keeps_to(engine.limits, input, start, plain),
    ensures
        keeps_to(
            engine.limits,
            input,
            start,
            engine.interrupted(input, start, plain, header, parser).scan,
        ),
{
    match plain {
        Scan::Done { fields, next } => {
            lemma_nulls_within(engine, fields, header);
            lemma_settled_keeps(engine, input, start, engine.nulled(fields, header), next);
        },
        Scan::Paused { fields, at } => {
            let state = engine.expecting(parser);
            lemma_nulls_within(state, fields, header);
            lemma_resume_keeps(state, input, start, at, state.nulled(fields, header));
        },
        Scan::Failed { .. } => {},
    }
}

#[verifier::spinoff_prover]
#[verifier::rlimit(40)]
proof fn lemma_interior_keeps(engine: Engine, input: Seq<u8>, start: int, header: bool)
    requires
        engine.sound(),
        0 <= start < input.len(),
    ensures
        keeps_to(
            engine.limits,
            input,
            start,
            engine.interior(input, start, Seq::empty(), header).scan,
        ),
{
    let none = Seq::<Field>::empty();
    lemma_whole_keeps(engine, input, start, none);
    if let Some(parser) = engine.interior_prefix_parser {
        lemma_parser_keeps(parser, input.skip(start), none);
        if let Some(prefix) = parser.reads(input.skip(start), none) {
            let p = start + prefix.at;
            lemma_plain_keeps(engine.rules(), input, start, p, prefix.fields);
            match engine.rules().read_plain(input, start, p, prefix.fields) {
                Scan::Done { fields: more, next } => {
                    lemma_nulls_within(engine, more, header);
                    lemma_settled_keeps(engine, input, start, engine.nulled(more, header), next);
                },
                Scan::Paused { fields: more, at } => {
                    let state = engine.expecting(engine.multi_quote_parser);
                    lemma_resume_keeps(state, input, start, at, more);
                    match state.resume(input, start, at, more) {
                        Scan::Done { fields: all, next } => {
                            lemma_nulls_within(state, all, header);
                            lemma_settled_keeps(state, input, start, state.nulled(all, header), next);
                        },
                        Scan::Paused { fields: some, at: stop } => {
                            lemma_nulls_within(state, some, header);
                        },
                        Scan::Failed { .. } => {},
                    }
                },
                Scan::Failed { .. } => {},
            }
        }
    }
}

#[verifier::spinoff_prover]
#[verifier::rlimit(40)]
proof fn lemma_predicted_keeps(engine: Engine, input: Seq<u8>, start: int, header: bool)
    requires
        engine.sound(),
        0 <= start < input.len(),
    ensures
        keeps_to(
            engine.limits,
            input,
            start,
            engine.predicted(input, start, Seq::empty(), header).scan,
        ),
{
    let none = Seq::<Field>::empty();
    let opens = input[start] == engine.dialect.quote;
    if engine.plain_kernel {
        if engine.syntax.quoting_enabled() && (opens || engine.interior_quotes != 0) {
            let state = Engine {
                interior_quotes: engine.interior_quotes.saturating_sub(1),
                ..engine
            };
            assert(state.sound());
            if !opens {
                lemma_interior_keeps(state, input, start, header);
            } else {
                lemma_whole_keeps(state, input, start, none);
                if let Some(parser) = state.quoted_prefix_parser {
                    lemma_parser_keeps(parser, input.skip(start), none);
                    if let Some(prefix) = parser.reads(input.skip(start), none) {
                        let p = start + prefix.at;
                        lemma_plain_keeps(state.rules(), input, start, p, prefix.fields);
                        lemma_interrupted_keeps(
                            state,
                            input,
                            start,
                            state.rules().read_plain(input, start, p, prefix.fields),
                            header,
                            state.multi_quote_parser,
                        );
                    }
                }
            }
        } else {
            lemma_plain_keeps(engine.rules(), input, start, start, none);
            lemma_interrupted_keeps(
                engine,
                input,
                start,
                engine.rules().read_plain(input, start, start, none),
                header,
                engine.interior_handoff_parser,
            );
        }
    }
}

proof fn lemma_goes_on_within(
    engine: Engine,
    input: Seq<u8>,
    start: int,
    at: int,
    fields: Seq<Field>,
    nulls: Nulls,
)
    requires
        engine.dialect.valid(),
        Engine::supports(engine.dialect),
        0 <= start <= at <= input.len(),
        are_within(engine.limits, fields),
    ensures
        engine.rules().read_fields(input, start, at, fields, nulls) matches Scan::Done {
            fields: all,
            next,
        } ==> are_within(engine.limits, all) && next - start <= engine.limits.max_record_bytes,
{
    lemma_fields_hold(engine.rules(), input, start, at, fields, nulls);
    if let Scan::Done { fields: all, next } = engine.rules().read_fields(
        input,
        start,
        at,
        fields,
        nulls,
    ) {
        let n = fields.len() as int;
        assert forall|i: int| 0 <= i < all.len() implies (#[trigger] all[i]).bytes.len()
            <= engine.limits.max_field_bytes by {
            if i < n {
                assert(all.take(n)[i] == all[i]);
                assert(fields[i].bytes.len() <= engine.limits.max_field_bytes);
            }
        }
    }
}

/// A record that is read keeps to the limits whichever parser reads it: it has no
/// more fields than allowed, none of them is longer than allowed, and neither is
/// the record.
pub proof fn law_every_path_keeps_to_the_limits(
    engine: Engine,
    input: Seq<u8>,
    start: int,
    header: bool,
)
    requires
        engine.sound(),
        Engine::supports(engine.dialect),
        0 <= start < input.len(),
    ensures
        engine.owned(input, start, Seq::empty(), header).scan matches Scan::Done { fields, next }
            ==> {
            &&& fields.len() <= engine.limits.max_fields
            &&& next - start <= engine.limits.max_record_bytes
            &&& forall|i: int|
                0 <= i < fields.len() ==> (#[trigger] fields[i]).bytes.len()
                    <= engine.limits.max_field_bytes
        },
{
    lemma_predicted_keeps(engine, input, start, header);
    let head = engine.predicted(input, start, Seq::empty(), header);
    if let Scan::Paused { fields, at } = head.scan {
        lemma_goes_on_within(engine, input, start, at, fields, engine.nulls_for(header));
    }
}

} // verus!
