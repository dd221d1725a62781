//! The specialized parsers read what the field-by-field reading reads.

use vstd::prelude::*;

use crate::ascii::{BACKSLASH, LF, QUOTE};
use crate::config::{Escape, FieldCount, Limits, Nulls, RecordEnding, Syntax};
use crate::engine::grammar::{least, Body, Named, Prefix, Rules, Scan, Step};
use crate::engine::owned_parser::{
    lemma_field_step_bounds, lemma_reads_bounded, lemma_skip_spaces,
};
use crate::engine::record_parser::{default_csv, lemma_body_bounds, lemma_field_bounds};
use crate::engine::{Engine, PrefixParser};
use crate::error::ErrorKind;
use crate::options::ParserSettings;
use crate::search::{
    first_of, lemma_first_of, lemma_first_of_is, lemma_run_end, one_of3, run_end,
};
use crate::storage::{all_with_nulls, empties, text, unquoted, Field};

verus! {

/// Whether the field-by-field reading refused a field for its length.
///
/// It counts the carriage return of a CRLF ending; the other parsers do not.
pub open spec fn refused_length(scan: Scan) -> bool {
    scan matches Scan::Failed { kind: ErrorKind::FieldTooLarge { .. }, .. }
}

/// Whether the rules are among those that unquoted fields can be tried first.
pub open spec fn plain_rules(rules: Rules) -> bool {
    rules.dialect.valid() && Engine::supports(rules.dialect) && !rules.skip_initial_space
}

proof fn lemma_nulls_push(nulls: Nulls, fields: Seq<Field>, bytes: Seq<u8>)
    ensures
        all_with_nulls(nulls, fields.push(text(bytes))) == all_with_nulls(nulls, fields).push(
            unquoted(nulls, bytes),
        ),
        all_with_nulls(nulls, fields).len() == fields.len(),
{
    assert(all_with_nulls(nulls, fields.push(text(bytes))) =~= all_with_nulls(nulls, fields).push(
        unquoted(nulls, bytes),
    ));
}

proof fn lemma_nulls_disabled(fields: Seq<Field>)
    ensures
        all_with_nulls(Nulls::Disabled, fields) == fields,
{
    assert(all_with_nulls(Nulls::Disabled, fields) =~= fields);
}

/// `count` empty unquoted fields under a NULL policy.
spec fn blank_fields(nulls: Nulls, count: nat) -> Seq<Field> {
    Seq::new(count, |i: int| unquoted(nulls, Seq::empty()))
}

proof fn lemma_nulls_empties(nulls: Nulls, fields: Seq<Field>, count: nat)
    ensures
        all_with_nulls(nulls, fields + empties(count)) == all_with_nulls(nulls, fields)
            + blank_fields(nulls, count),
{
    assert(all_with_nulls(nulls, fields + empties(count)) =~= all_with_nulls(nulls, fields)
        + blank_fields(nulls, count));
}

/// Past the record limit nothing can be read.
proof fn lemma_beyond(
    rules: Rules,
    input: Seq<u8>,
    start: int,
    p: int,
    fields: Seq<Field>,
    marked: Seq<Field>,
    nulls: Nulls,
)
    requires
        plain_rules(rules),
        0 <= start <= p <= input.len(),
        p - start > rules.limits.max_record_bytes,
    ensures
        rules.read_fields(input, start, p, marked, nulls) is Failed,
        rules.read_plain(input, start, p, fields) is Failed,
{
}

/// The step over a delimiter at the start of a field.
proof fn lemma_delimiter_step(
    rules: Rules,
    input: Seq<u8>,
    start: int,
    p: int,
    count: int,
    nulls: Nulls,
)
    requires
        plain_rules(rules),
        0 <= start <= p < input.len(),
        p - start <= rules.limits.max_record_bytes,
        input[p] == rules.dialect.delimiter,
    ensures
        ({
            let step = rules.field_step(input, start, p, count, nulls);
            if count == rules.limits.max_fields || p + 1 - start > rules.limits.max_record_bytes {
                step is Broken
            } else {
                step == (Step::Read {
                    field: unquoted(nulls, Seq::empty()),
                    next: p + 1,
                    last: false,
                })
            }
        }),
{
    let end = rules.field_window(input, start, p);
    assert(first_of(input, p, end, rules.unquoted_stops()) == p);
    assert(input.subrange(p, p) =~= Seq::<u8>::empty());
}

/// A run of delimiters is as many empty fields.
proof fn lemma_run(
    rules: Rules,
    input: Seq<u8>,
    start: int,
    p: int,
    count: int,
    fields: Seq<Field>,
    nulls: Nulls,
)
    requires
        plain_rules(rules),
        0 <= start <= p,
        0 <= count,
        p + count <= input.len(),
        p + count - start <= rules.limits.max_record_bytes,
        fields.len() + count <= rules.limits.max_fields,
        forall|i: int| p <= i < p + count ==> input[i] == rules.dialect.delimiter,
    ensures
        rules.read_fields(input, start, p, fields, nulls) == rules.read_fields(
            input,
            start,
            p + count,
            fields + blank_fields(nulls, count as nat),
            nulls,
        ),
    decreases count,
{
    if count == 0 {
        assert(fields + blank_fields(nulls, 0) =~= fields);
    } else {
        let field = unquoted(nulls, Seq::empty());
        lemma_delimiter_step(rules, input, start, p, fields.len() as int, nulls);
        lemma_run(rules, input, start, p + 1, count - 1, fields.push(field), nulls);
        assert(fields.push(field) + blank_fields(nulls, (count - 1) as nat) =~= fields
            + blank_fields(nulls, count as nat));
    }
}

/// A run of delimiters that goes over a limit is refused.
proof fn lemma_run_refused(
    rules: Rules,
    input: Seq<u8>,
    start: int,
    p: int,
    count: int,
    fields: Seq<Field>,
    nulls: Nulls,
)
    requires
        plain_rules(rules),
        0 <= start <= p,
        0 < count,
        p + count <= input.len(),
        p - start <= rules.limits.max_record_bytes,
        fields.len() <= rules.limits.max_fields,
        fields.len() + count > rules.limits.max_fields || p + count - start
            > rules.limits.max_record_bytes,
        forall|i: int| p <= i < p + count ==> input[i] == rules.dialect.delimiter,
    ensures
        rules.read_fields(input, start, p, fields, nulls) is Failed,
{
    let available = rules.limits.max_fields - fields.len();
    let room = start + rules.limits.max_record_bytes - p;
    let fits = least(available, room);
    lemma_run(rules, input, start, p, fits, fields, nulls);
    lemma_delimiter_step(
        rules,
        input,
        start,
        p + fits,
        (fields + blank_fields(nulls, fits as nat)).len() as int,
        nulls,
    );
}

/// Searching a shorter window finds the same stop, if it lies inside.
proof fn lemma_narrower(
    input: Seq<u8>,
    from: int,
    near: int,
    far: int,
    stop: spec_fn(u8) -> bool,
)
    requires
        from <= near <= far,
    ensures
        ({
            let at = first_of(input, from, far, stop);
            first_of(input, from, near, stop) == (if at < near {
                at
            } else {
                near
            })
        }),
{
    lemma_first_of(input, from, far, stop);
    let at = first_of(input, from, far, stop);
    lemma_first_of_is(
        input,
        from,
        near,
        stop,
        if at < near {
            at
        } else {
            near
        },
    );
}

/// What a plain scan means for the field-by-field reading `general`.
pub open spec fn agrees(
    rules: Rules,
    input: Seq<u8>,
    start: int,
    scan: Scan,
    general: Scan,
    nulls: Nulls,
) -> bool {
    refused_length(general) || match scan {
        Scan::Done { fields, next } => {
            &&& fields.len() <= rules.limits.max_fields
            &&& general == (Scan::Done { fields: all_with_nulls(nulls, fields), next })
        },
        Scan::Paused { fields, at } => {
            &&& start <= at <= input.len()
            &&& fields.len() <= rules.limits.max_fields
            &&& general == rules.read_fields(
                input,
                start,
                at,
                all_with_nulls(nulls, fields),
                nulls,
            )
        },
        Scan::Failed { .. } => general is Failed,
    }
}

/// Reading unquoted fields together reads them as one by one.
pub proof fn lemma_plain_agrees(
    rules: Rules,
    input: Seq<u8>,
    start: int,
    p: int,
    fields: Seq<Field>,
    nulls: Nulls,
)
    requires
        plain_rules(rules),
        0 <= start <= p <= input.len(),
        fields.len() <= rules.limits.max_fields,
    ensures
        agrees(
            rules,
            input,
            start,
            rules.read_plain(input, start, p, fields),
            rules.read_fields(input, start, p, all_with_nulls(nulls, fields), nulls),
            nulls,
        ),
    decreases input.len() - p,
{
    let marked = all_with_nulls(nulls, fields);
    let count = fields.len() as int;
    let end = rules.record_window(input, start);
    let near = rules.field_window(input, start, p);
    let stops = rules.unquoted_stops();
    if p - start > rules.limits.max_record_bytes {
        lemma_beyond(rules, input, start, p, fields, marked, nulls);
    } else {
        let at = rules.plain_stop(input, p, end);
        lemma_first_of(input, p, end, stops);
        lemma_narrower(input, p, near, end, stops);
        if rules.opens_quoted(input, p) && p < end {
            assert(at == p);
            assert(input[at] != rules.dialect.delimiter);
        } else if at >= end {
            lemma_nulls_push(nulls, fields, input.subrange(p, end));
        } else if input[at] == rules.dialect.delimiter && at == p {
            let after = run_end(input, at, rules.dialect.delimiter);
            lemma_run_end(input, at, rules.dialect.delimiter);
            let length = after - at;
            if count + length > rules.limits.max_fields || after - start
                > rules.limits.max_record_bytes {
                lemma_run_refused(rules, input, start, p, length, marked, nulls);
                if count + length <= rules.limits.max_fields {
                    lemma_beyond(
                        rules,
                        input,
                        start,
                        after,
                        fields + empties(length as nat),
                        marked,
                        nulls,
                    );
                }
            } else {
                lemma_run(rules, input, start, p, length, marked, nulls);
                lemma_nulls_empties(nulls, fields, length as nat);
                lemma_plain_agrees(
                    rules,
                    input,
                    start,
                    after,
                    fields + empties(length as nat),
                    nulls,
                );
            }
        } else if input[at] == rules.dialect.delimiter {
            let bytes = input.subrange(p, at);
            lemma_nulls_push(nulls, fields, bytes);
            if at < near && count != rules.limits.max_fields {
                if at + 1 - start > rules.limits.max_record_bytes {
                    lemma_beyond(
                        rules,
                        input,
                        start,
                        at + 1,
                        fields.push(text(bytes)),
                        marked,
                        nulls,
                    );
                } else {
                    lemma_plain_agrees(rules, input, start, at + 1, fields.push(text(bytes)), nulls);
                }
            }
        } else {
            lemma_nulls_push(
                nulls,
                fields,
                input.subrange(p, rules.unquoted_end(input, p, at)),
            );
        }
    }
}

/// Whether a named dialect is the one that the rules describe.
pub open spec fn named_rules(named: Named, rules: Rules) -> bool {
    &&& plain_rules(rules)
    &&& rules.syntax == Syntax::Strict
    &&& rules.nulls == Nulls::Disabled
    &&& rules.limits == Limits::standard()
    &&& rules.dialect.quote == QUOTE
    &&& rules.dialect.record_ending == RecordEnding::Newline
    &&& rules.dialect.delimiter == named.delimiter
    &&& rules.dialect.escape == (if named.backslash {
        Escape::Backslash(BACKSLASH)
    } else {
        Escape::DoubleQuote
    })
}

/// Whether `from..to` is a part of a record that a specialized parser may see.
pub open spec fn visible(
    named: Named,
    rules: Rules,
    input: Seq<u8>,
    start: int,
    from: int,
    to: int,
) -> bool {
    &&& 0 <= start <= from <= to <= input.len()
    &&& to - start <= rules.limits.max_record_bytes
    &&& named.check || to - from <= rules.limits.max_field_bytes
}

/// A quoted field that a specialized parser reads is read alike in full.
proof fn lemma_named_body(
    named: Named,
    rules: Rules,
    input: Seq<u8>,
    start: int,
    from: int,
    to: int,
    content: int,
    cursor: int,
    decoded: Seq<u8>,
)
    requires
        named_rules(named, rules),
        visible(named, rules, input, start, from, to),
        0 <= content <= cursor,
    ensures
        named.quoted_body(input.subrange(from, to), content, cursor, decoded) matches Some(
            (bytes, after),
        ) ==> (after < to - from ==> rules.quoted_body(
            input,
            start,
            from + content,
            from + cursor,
            decoded,
        ) == (Body::Closed { bytes, after: from + after })),
    decreases to - cursor,
{
    let window = input.subrange(from, to);
    let stops = named.quoted_stops();
    assert(stops == rules.quoted_stops());
    let result = named.quoted_body(window, content, cursor, decoded);
    if cursor <= window.len() && result is Some {
        let at = first_of(window, cursor, window.len() as int, stops);
        lemma_first_of(window, cursor, window.len() as int, stops);
        lemma_body_bounds(named, window, content, cursor, decoded);
        let end = rules.field_window(input, start, from + content);
        assert(from + at < end);
        assert forall|i: int| from + cursor <= i < from + at implies !stops(#[trigger] input[i]) by {
            assert(!stops(window[i - from]));
        }
        assert(input[from + at] == window[at]);
        lemma_first_of_is(input, from + cursor, end, stops, from + at);
        assert(window.subrange(cursor, at) =~= input.subrange(from + cursor, from + at));
        let segment = decoded + window.subrange(cursor, at);
        if at + 1 < window.len() {
            assert(input[from + at + 1] == window[at + 1]);
            lemma_named_body(
                named,
                rules,
                input,
                start,
                from,
                to,
                content,
                at + 2,
                segment.push(window[at + 1]),
            );
            lemma_named_body(
                named,
                rules,
                input,
                start,
                from,
                to,
                content,
                at + 2,
                segment.push(QUOTE),
            );
        }
    }
}

/// A field that a specialized parser reads is read alike in full.
proof fn lemma_named_field(
    named: Named,
    rules: Rules,
    input: Seq<u8>,
    start: int,
    from: int,
    to: int,
    p: int,
    count: int,
)
    requires
        named_rules(named, rules),
        visible(named, rules, input, start, from, to),
        0 <= p,
        count != rules.limits.max_fields,
    ensures
        named.field(input.subrange(from, to), p) matches Some((field, next, last)) ==> {
            let step = rules.field_step(input, start, from + p, count, Nulls::Disabled);
            ||| step == (Step::Read { field, next: from + next, last })
            ||| step matches Step::Broken { kind: ErrorKind::FieldTooLarge { .. }, .. }
        },
{
    let window = input.subrange(from, to);
    if p < window.len() {
        assert(window[p] == input[from + p]);
        if window[p] == QUOTE {
            lemma_named_body(named, rules, input, start, from, to, p + 1, p + 1, Seq::empty());
            lemma_body_bounds(named, window, p + 1, p + 1, Seq::empty());
            if let Some((bytes, after)) = named.quoted_body(window, p + 1, p + 1, Seq::empty()) {
                if after < window.len() {
                    assert(window[after] == input[from + after]);
                    assert(rules.skip_padding(input, from + after) == from + after);
                    if after + 1 < window.len() {
                        assert(window[after + 1] == input[from + after + 1]);
                    }
                }
            }
        } else {
            let stops = one_of3(named.delimiter, QUOTE, LF);
            assert(stops == rules.unquoted_stops());
            let at = first_of(window, p, window.len() as int, stops);
            lemma_first_of(window, p, window.len() as int, stops);
            if at < window.len() {
                let end = rules.field_window(input, start, from + p);
                let stop = if from + at < end {
                    from + at
                } else {
                    end
                };
                assert forall|i: int| from + p <= i < stop implies !stops(#[trigger] input[i]) by {
                    assert(!stops(window[i - from]));
                }
                assert(input[from + at] == window[at]);
                lemma_first_of_is(input, from + p, end, stops, stop);
                if at > p {
                    assert(window[at - 1] == input[from + at - 1]);
                }
                assert(window.subrange(p, at) =~= input.subrange(from + p, from + at));
                if at > p {
                    assert(window.subrange(p, at - 1) =~= input.subrange(
                        from + p,
                        from + at - 1,
                    ));
                }
            }
        }
    }
}

/// What a specialized parser's outcome means for the field-by-field reading.
pub open spec fn prefix_agrees(
    rules: Rules,
    input: Seq<u8>,
    start: int,
    from: int,
    prefix: Prefix,
    general: Scan,
) -> bool {
    refused_length(general) || {
        &&& prefix.fields.len() <= rules.limits.max_fields
        &&& general == (if prefix.finished {
            Scan::Done { fields: prefix.fields, next: from + prefix.at }
        } else {
            rules.read_fields(input, start, from + prefix.at, prefix.fields, Nulls::Disabled)
        })
    }
}

proof fn lemma_named_step(
    named: Named,
    rules: Rules,
    input: Seq<u8>,
    start: int,
    from: int,
    to: int,
    p: int,
    fields: Seq<Field>,
)
    requires
        named_rules(named, rules),
        visible(named, rules, input, start, from, to),
        0 <= p <= to - from,
        fields.len() <= rules.limits.max_fields,
        !Named::full(fields),
        named.field(input.subrange(from, to), p) is Some,
    ensures
        ({
            let (field, next, last) = named.field(input.subrange(from, to), p)->0;
            let general = rules.read_fields(input, start, from + p, fields, Nulls::Disabled);
            refused_length(general) || general == (if last {
                Scan::Done { fields: fields.push(field), next: from + next }
            } else {
                rules.read_fields(input, start, from + next, fields.push(field), Nulls::Disabled)
            })
        }),
        fields.len() + 1 <= rules.limits.max_fields,
{
    lemma_named_field(named, rules, input, start, from, to, p, fields.len() as int);
    lemma_field_bounds(named, input.subrange(from, to), p);
}

/// A record that a specialized parser reads is read alike field by field.
pub proof fn lemma_record_agrees(
    named: Named,
    rules: Rules,
    input: Seq<u8>,
    start: int,
    from: int,
    to: int,
    p: int,
    fields: Seq<Field>,
)
    requires
        named_rules(named, rules),
        visible(named, rules, input, start, from, to),
        0 <= p <= to - from,
        fields.len() <= rules.limits.max_fields,
    ensures
        named.record(input.subrange(from, to), p, fields) matches Some(prefix) ==> prefix.finished
            && prefix_agrees(
            rules,
            input,
            start,
            from,
            prefix,
            rules.read_fields(input, start, from + p, fields, Nulls::Disabled),
        ),
    decreases to - p,
{
    let window = input.subrange(from, to);
    if let Some((field, next, last)) = named.field(window, p) {
        lemma_field_bounds(named, window, p);
        if !Named::full(fields) {
            lemma_named_step(named, rules, input, start, from, to, p, fields);
            if !last {
                lemma_record_agrees(
                    named,
                    rules,
                    input,
                    start,
                    from,
                    to,
                    next,
                    fields.push(field),
                );
            }
        }
    }
}

/// Leading quoted fields are read alike field by field.
pub proof fn lemma_quoted_prefix_agrees(
    named: Named,
    rules: Rules,
    input: Seq<u8>,
    start: int,
    from: int,
    to: int,
    p: int,
    fields: Seq<Field>,
)
    requires
        named_rules(named, rules),
        visible(named, rules, input, start, from, to),
        0 <= p <= to - from,
        fields.len() <= rules.limits.max_fields,
    ensures
        named.quoted_prefix(input.subrange(from, to), p, fields) matches Some(prefix)
            ==> prefix_agrees(
            rules,
            input,
            start,
            from,
            prefix,
            rules.read_fields(input, start, from + p, fields, Nulls::Disabled),
        ),
    decreases to - p,
{
    let window = input.subrange(from, to);
    if p < window.len() && window[p] == QUOTE {
        if let Some((field, next, last)) = named.quoted_field(window, p) {
            lemma_field_bounds(named, window, p);
            if !Named::full(fields) {
                lemma_named_step(named, rules, input, start, from, to, p, fields);
                if !last {
                    lemma_quoted_prefix_agrees(
                        named,
                        rules,
                        input,
                        start,
                        from,
                        to,
                        next,
                        fields.push(field),
                    );
                }
            }
        }
    }
}

/// Unquoted fields and a quoted one after them are read alike field by field.
pub proof fn lemma_interior_prefix_agrees(
    named: Named,
    rules: Rules,
    input: Seq<u8>,
    start: int,
    from: int,
    to: int,
    p: int,
    fields: Seq<Field>,
)
    requires
        named_rules(named, rules),
        visible(named, rules, input, start, from, to),
        0 <= p <= to - from,
        fields.len() <= rules.limits.max_fields,
    ensures
        named.interior_prefix(input.subrange(from, to), p, fields) matches Some(prefix)
            ==> prefix_agrees(
            rules,
            input,
            start,
            from,
            prefix,
            rules.read_fields(input, start, from + p, fields, Nulls::Disabled),
        ),
    decreases to - p,
{
    let window = input.subrange(from, to);
    if let Some((field, next, last)) = named.field(window, p) {
        lemma_field_bounds(named, window, p);
        if !Named::full(fields) {
            lemma_named_step(named, rules, input, start, from, to, p, fields);
            if !last && window[p] != QUOTE {
                lemma_interior_prefix_agrees(
                    named,
                    rules,
                    input,
                    start,
                    from,
                    to,
                    next,
                    fields.push(field),
                );
            }
        }
    }
}

/// What a prefix parser reads of a part of a record is read alike field by field.
pub proof fn lemma_prefix_agrees(
    parser: PrefixParser,
    rules: Rules,
    input: Seq<u8>,
    start: int,
    from: int,
    to: int,
    fields: Seq<Field>,
)
    requires
        named_rules(default_csv(true), rules),
        0 <= start <= from <= to <= input.len(),
        to - start <= rules.limits.max_record_bytes || from == start,
        fields.len() <= rules.limits.max_fields,
    ensures
        parser.reads(input.subrange(from, to), fields) matches Some(prefix) ==> prefix_agrees(
            rules,
            input,
            start,
            from,
            prefix,
            rules.read_fields(input, start, from, fields, Nulls::Disabled),
        ),
{
    let part = input.subrange(from, to);
    let named = default_csv(part.len() > Limits::standard().max_field_bytes);
    let end = from + Named::window(part).len();
    assert(Named::window(part) =~= input.subrange(from, end));
    match parser {
        PrefixParser::Record => lemma_record_agrees(
            named,
            rules,
            input,
            start,
            from,
            end,
            0,
            fields,
        ),
        PrefixParser::QuotedPrefix => lemma_quoted_prefix_agrees(
            named,
            rules,
            input,
            start,
            from,
            end,
            0,
            fields,
        ),
        PrefixParser::InteriorPrefix => lemma_interior_prefix_agrees(
            named,
            rules,
            input,
            start,
            from,
            end,
            0,
            fields,
        ),
    }
}

impl Engine {
    /// Whether this state uses specialized parsers only where they apply.
    pub open spec fn sound(self) -> bool {
        let uses_csv = self.quoted_prefix_parser is Some || self.interior_prefix_parser is Some
            || self.interior_handoff_parser is Some || self.multi_quote_parser is Some;
        &&& self.dialect.valid()
        &&& self.dialect.escape.unquoted_byte() is None
        &&& self.plain_kernel ==> plain_rules(self.rules())
        &&& uses_csv ==> self.field_count == FieldCount::Flexible && named_rules(
            default_csv(true),
            self.rules(),
        )
        &&& self.owned_parser matches Some(parser) ==> self.field_count == FieldCount::Flexible
            && named_rules(
            Named { delimiter: parser.delimiter, backslash: parser.backslash, check: true },
            self.rules(),
        )
    }
}

/// Reading on from a quoted field by turns reads the rest field by field.
pub proof fn lemma_resume_reads_alike(
    engine: Engine,
    input: Seq<u8>,
    start: int,
    at: int,
    fields: Seq<Field>,
    nulls: Nulls,
)
    requires
        engine.sound(),
        engine.plain_kernel,
        0 <= start <= at <= input.len(),
        fields.len() <= engine.limits.max_fields,
        engine.quoted_prefix_parser is Some ==> nulls == Nulls::Disabled,
    ensures
        ({
            let general = engine.rules().read_fields(input, start, at, fields, nulls);
            refused_length(general) || match engine.resume(input, start, at, fields) {
                Scan::Done { fields: all, next } => general == (Scan::Done { fields: all, next }),
                Scan::Paused { fields: some, at: stop } => {
                    &&& start <= stop <= input.len()
                    &&& some.len() <= engine.limits.max_fields
                    &&& general == engine.rules().read_fields(input, start, stop, some, nulls)
                },
                Scan::Failed { .. } => general is Failed,
            }
        }),
    decreases input.len() - at,
{
    let rules = engine.rules();
    if let (Some(parser), Some(window)) = (
        engine.quoted_prefix_parser,
        engine.resume_window(input, start, at),
    ) {
        let end = at + window.len();
        assert(window =~= input.subrange(at, end));
        if let Some(prefix) = parser.reads(window, fields) {
            lemma_prefix_agrees(parser, rules, input, start, at, end, fields);
            lemma_reads_bounded(parser, window, fields);
            let general = rules.read_fields(input, start, at, fields, nulls);
            if !prefix.finished && !refused_length(general) {
                lemma_plain_agrees(rules, input, start, at + prefix.at, prefix.fields, nulls);
                lemma_nulls_disabled(prefix.fields);
                match rules.read_plain(input, start, at + prefix.at, prefix.fields) {
                    Scan::Paused { fields: more, at: stop } => {
                        lemma_nulls_disabled(more);
                        if at < stop <= input.len() {
                            lemma_resume_reads_alike(engine, input, start, stop, more, nulls);
                        }
                    },
                    Scan::Done { fields: more, next } => {
                        lemma_nulls_disabled(more);
                    },
                    Scan::Failed { .. } => {},
                }
            }
        }
    }
}

proof fn lemma_state_kept(engine: Engine, input: Seq<u8>, start: int, fields: Seq<Field>, header: bool)
    ensures
        ({
            let state = engine.predicted(input, start, fields, header).state;
            let scan = engine.predicted(input, start, fields, header).scan;
            &&& state.rules() == engine.rules()
            &&& state.field_count == engine.field_count
            &&& !(scan is Done) ==> state.expected_fields == engine.expected_fields
            &&& engine.sound() ==> state.sound()
        }),
{
}

proof fn lemma_interrupted(
    engine: Engine,
    input: Seq<u8>,
    start: int,
    p: int,
    fields: Seq<Field>,
    header: bool,
    parser: Option<PrefixParser>,
)
    requires
        engine.sound(),
        engine.plain_kernel,
        engine.quoted_prefix_parser is Some ==> engine.nulls == Nulls::Disabled,
        0 <= start <= p <= input.len(),
        fields.len() <= engine.limits.max_fields,
        parser is Some ==> engine.quoted_prefix_parser is Some || engine.interior_handoff_parser
            is Some || engine.multi_quote_parser is Some,
    ensures
        ({
            let nulls = engine.nulls_for(header);
            let general = engine.rules().read_fields(
                input,
                start,
                p,
                all_with_nulls(nulls, fields),
                nulls,
            );
            let plain = engine.rules().read_plain(input, start, p, fields);
            reads_alike(
                engine,
                input,
                start,
                engine.interrupted(input, start, plain, header, parser).scan,
                general,
                nulls,
            )
        }),
{
    let nulls = engine.nulls_for(header);
    let rules = engine.rules();
    lemma_plain_agrees(rules, input, start, p, fields, nulls);
    let general = rules.read_fields(input, start, p, all_with_nulls(nulls, fields), nulls);
    if !refused_length(general) {
        match rules.read_plain(input, start, p, fields) {
            Scan::Done { fields: all, next } => {
                lemma_nulls_disabled(all);
            },
            Scan::Paused { fields: some, at } => {
                lemma_nulls_disabled(some);
                let state = engine.expecting(parser);
                let marked = state.nulled(some, header);
                assert(marked == all_with_nulls(nulls, some));
                assert(state.sound());
                lemma_resume_reads_alike(state, input, start, at, marked, nulls);
            },
            Scan::Failed { .. } => {},
        }
    }
}

/// The field-by-field reading comes to an end, inside the input.
pub proof fn lemma_reading_ends(
    rules: Rules,
    input: Seq<u8>,
    start: int,
    p: int,
    fields: Seq<Field>,
    nulls: Nulls,
)
    requires
        0 <= start <= p <= input.len(),
    ensures
        !(rules.read_fields(input, start, p, fields, nulls) is Paused),
        rules.read_fields(input, start, p, fields, nulls) matches Scan::Done { next, .. } ==> p
            <= next <= input.len(),
    decreases input.len() - p,
{
    let q = rules.skip_spaces(input, start, p);
    lemma_skip_spaces(rules, input, start, p);
    lemma_field_step_bounds(rules, input, start, q, fields.len() as int, nulls);
    if let Step::Read { field, next, last } = rules.field_step(
        input,
        start,
        q,
        fields.len() as int,
        nulls,
    ) {
        if !last {
            lemma_reading_ends(rules, input, start, next, fields.push(field), nulls);
        }
    }
}

/// What an outcome that leaves a rest means for the field-by-field reading.
pub open spec fn reads_alike(
    engine: Engine,
    input: Seq<u8>,
    start: int,
    scan: Scan,
    general: Scan,
    nulls: Nulls,
) -> bool {
    refused_length(general) || match general {
        Scan::Done { fields, next } => scan == engine.settled(fields, next).scan || (
        scan matches Scan::Paused { fields: some, at } && general == engine.rules().read_fields(
            input,
            start,
            at,
            some,
            nulls,
        )),
        _ => scan is Failed || (scan matches Scan::Paused { fields: some, at } && general
            == engine.rules().read_fields(input, start, at, some, nulls)),
    }
}

proof fn lemma_whole(engine: Engine, input: Seq<u8>, start: int, nulls: Nulls)
    requires
        engine.sound(),
        0 <= start < input.len(),
        engine.owned_parser is Some ==> nulls == Nulls::Disabled,
    ensures
        reads_alike(
            engine,
            input,
            start,
            engine.whole(input, start, Seq::empty()),
            engine.rules().read_fields(input, start, start, Seq::empty(), nulls),
            nulls,
        ),
{
    if let Some(parser) = engine.owned_parser {
        let rest = input.skip(start);
        let named = Named {
            delimiter: parser.delimiter,
            backslash: parser.backslash,
            check: rest.len() > Limits::standard().max_field_bytes,
        };
        let end = start + Named::window(rest).len();
        assert(Named::window(rest) =~= input.subrange(start, end));
        lemma_record_agrees(
            named,
            engine.rules(),
            input,
            start,
            start,
            end,
            0,
            Seq::empty(),
        );
    }
}

proof fn lemma_interior(engine: Engine, input: Seq<u8>, start: int, header: bool)
    requires
        engine.sound(),
        engine.plain_kernel,
        0 <= start < input.len(),
    ensures
        ({
            let nulls = engine.nulls_for(header);
            reads_alike(
                engine,
                input,
                start,
                engine.interior(input, start, Seq::empty(), header).scan,
                engine.rules().read_fields(input, start, start, Seq::empty(), nulls),
                nulls,
            )
        }),
{
    let nulls = engine.nulls_for(header);
    let rules = engine.rules();
    match engine.interior_prefix_parser {
        None => lemma_whole(engine, input, start, nulls),
        Some(parser) => {
            let rest = input.skip(start);
            assert(rest =~= input.subrange(start, input.len() as int));
            lemma_prefix_agrees(parser, rules, input, start, start, input.len() as int, Seq::empty());
            lemma_reads_bounded(parser, rest, Seq::empty());
            if let Some(prefix) = parser.reads(rest, Seq::empty()) {
                let general = rules.read_fields(input, start, start, Seq::empty(), nulls);
                if !prefix.finished && !refused_length(general) {
                    lemma_nulls_disabled(prefix.fields);
                    lemma_plain_agrees(rules, input, start, start + prefix.at, prefix.fields, nulls);
                    match rules.read_plain(input, start, start + prefix.at, prefix.fields) {
                        Scan::Done { fields: all, next } => {
                            lemma_nulls_disabled(all);
                        },
                        Scan::Paused { fields: some, at } => {
                            lemma_nulls_disabled(some);
                            let state = engine.expecting(engine.multi_quote_parser);
                            assert(state.sound());
                            lemma_resume_reads_alike(state, input, start, at, some, nulls);
                        },
                        Scan::Failed { .. } => {},
                    }
                }
            }
        },
    }
}

/// Which parser a record is tried with first has no part in what is read.
///
/// Where the field-by-field reading succeeds, so does every other, with the
/// same fields and the same end; where it fails, so do they. The one exception
/// is a field refused for its length: the other parsers do not count the
/// carriage return that ends it.
pub proof fn law_every_path_reads_alike(engine: Engine, input: Seq<u8>, start: int, header: bool)
    requires
        engine.sound(),
        0 <= start < input.len(),
    ensures
        ({
            let general = engine.rules().read_fields(
                input,
                start,
                start,
                Seq::empty(),
                engine.nulls_for(header),
            );
            let scan = engine.owned(input, start, Seq::empty(), header).scan;
            match general {
                Scan::Done { fields, next } => scan == engine.settled(fields, next).scan,
                _ => scan is Failed || refused_length(general),
            }
        }),
{
    let nulls = engine.nulls_for(header);
    let none = Seq::<Field>::empty();
    let general = engine.rules().read_fields(input, start, start, none, nulls);
    assert(all_with_nulls(nulls, none) =~= none);
    lemma_state_kept(engine, input, start, none, header);
    lemma_reading_ends(engine.rules(), input, start, start, none, nulls);
    let opens = input[start] == engine.dialect.quote;
    let head = engine.predicted(input, start, none, header);
    if engine.plain_kernel {
        if engine.syntax.quoting_enabled() && (opens || engine.interior_quotes != 0) {
            let state = Engine {
                interior_quotes: engine.interior_quotes.saturating_sub(1),
                ..engine
            };
            assert(state.sound());
            assert(state.rules() == engine.rules());
            if !opens {
                lemma_interior(state, input, start, header);
            } else {
                match state.quoted_prefix_parser {
                    None => lemma_whole(state, input, start, nulls),
                    Some(parser) => {
                        let rest = input.skip(start);
                        assert(rest =~= input.subrange(start, input.len() as int));
                        lemma_prefix_agrees(
                            parser,
                            state.rules(),
                            input,
                            start,
                            start,
                            input.len() as int,
                            none,
                        );
                        lemma_reads_bounded(parser, rest, none);
                        if let Some(prefix) = parser.reads(rest, none) {
                            if !prefix.finished && !refused_length(general) {
                                lemma_nulls_disabled(prefix.fields);
                                lemma_interrupted(
                                    state,
                                    input,
                                    start,
                                    start + prefix.at,
                                    prefix.fields,
                                    header,
                                    state.multi_quote_parser,
                                );
                            }
                        }
                    },
                }
            }
            assert(reads_alike(state, input, start, head.scan, general, nulls));
        } else {
            lemma_interrupted(
                engine,
                input,
                start,
                start,
                none,
                header,
                engine.interior_handoff_parser,
            );
        }
    }
}

/// Reading a record leaves the parser fit to read the next.
pub proof fn law_reading_keeps_the_parser_sound(
    engine: Engine,
    input: Seq<u8>,
    start: int,
    fields: Seq<Field>,
    header: bool,
)
    requires
        engine.sound(),
    ensures
        engine.owned(input, start, fields, header).state.sound(),
        engine.owned(input, start, fields, header).state.rules() == engine.rules(),
{
}

/// A parser built from a format that it supports is fit to read.
pub proof fn law_a_configured_parser_is_sound(settings: ParserSettings, engine: Engine)
    requires
        settings.dialect.valid(),
        settings.dialect.escape.unquoted_byte() is None,
        engine.built_from(settings),
    ensures
        engine.sound(),
{
}

} // verus!
