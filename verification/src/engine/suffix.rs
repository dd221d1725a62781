//! The end of a document reads like a document of its own.

use vstd::prelude::*;

use crate::config::Nulls;
use crate::engine::checked::lemma_text_body_bounds;
use crate::engine::grammar::{Body, Rules, Scan, Step};
use crate::engine::locality::shifted;
use crate::engine::owned_parser::{lemma_quoted_body_bounds, lemma_skip_padding, lemma_skip_spaces};
use crate::engine::Engine;
use crate::options::ParserSettings;
use crate::search::{first_of, lemma_first_of};
use crate::storage::Field;

verus! {

impl Body {
    /// The same outcome, `by` bytes further on.
    pub open spec fn moved(self, by: int) -> Body {
        match self {
            Body::Closed { bytes, after } => Body::Closed { bytes, after: after + by },
            Body::Broken { kind, at } => Body::Broken { kind, at: at + by },
        }
    }
}

impl Scan {
    /// The same outcome, `by` bytes further on.
    pub open spec fn moved(self, by: int) -> Scan {
        match self {
            Scan::Done { fields, next } => Scan::Done { fields, next: next + by },
            Scan::Failed { kind, at, number } => Scan::Failed { kind, at: at + by, number },
            Scan::Paused { fields, at } => Scan::Paused { fields, at: at + by },
        }
    }
}

proof fn lemma_first(x: Seq<u8>, b: int, from: int, to: int, stop: spec_fn(u8) -> bool)
    requires
        0 <= b,
        0 <= from,
        b + to <= x.len(),
    ensures
        first_of(x, from + b, to + b, stop) == first_of(x.skip(b), from, to, stop) + b,
    decreases to - from,
{
    if from < to {
        lemma_first(x, b, from + 1, to, stop);
    }
}

proof fn lemma_separators(rules: Rules, x: Seq<u8>, b: int, p: int)
    requires
        0 <= b <= x.len(),
        0 <= p,
    ensures
        rules.dialect.delimits(x, p + b) == rules.dialect.delimits(x.skip(b), p),
        rules.dialect.breaks(x, p + b) == rules.dialect.breaks(x.skip(b), p),
        rules.dialect.breaks_crlf(x, p + b) == rules.dialect.breaks_crlf(x.skip(b), p),
        rules.dialect.break_len(x, p + b) == rules.dialect.break_len(x.skip(b), p),
{
    let t = x.skip(b);
    let delimiter = rules.dialect.delimiter_tail.text();
    let ending = rules.dialect.ending_tail.text();
    assert(rules.dialect.delimiter_tail.stands_at(x, p + b + 1)
        == rules.dialect.delimiter_tail.stands_at(t, p + 1)) by {
        if p + 1 + delimiter.len() <= t.len() {
            assert forall|i: int| 0 <= i < delimiter.len() implies x[p + b + 1 + i] == t[p + 1 + i]
                && (x[p + b + 1 + i] == #[trigger] delimiter[i]) == (t[p + 1 + i]
                == delimiter[i]) by {}
        }
    }
    assert forall|q: int| 0 <= q implies #[trigger] rules.dialect.ending_tail.stands_at(t, q)
        == rules.dialect.ending_tail.stands_at(x, q + b) by {
        if q + ending.len() <= t.len() {
            assert forall|i: int| 0 <= i < ending.len() implies (x[q + b + i]
                == #[trigger] ending[i]) == (t[q + i] == ending[i]) by {}
        }
    }
    assert(rules.dialect.ending_tail.stands_at(t, p + 1)
        == rules.dialect.ending_tail.stands_at(x, p + 1 + b));
    assert(rules.dialect.ending_tail.stands_at(t, p + 2)
        == rules.dialect.ending_tail.stands_at(x, p + 2 + b));
}

proof fn lemma_quoted(
    rules: Rules,
    x: Seq<u8>,
    b: int,
    start: int,
    content: int,
    cursor: int,
    decoded: Seq<u8>,
)
    requires
        0 <= b <= x.len(),
        0 <= start,
        0 <= content,
        0 <= cursor,
    ensures
        rules.quoted_body(x, start + b, content + b, cursor + b, decoded) == rules.quoted_body(
            x.skip(b),
            start,
            content,
            cursor,
            decoded,
        ).moved(b),
    decreases x.len() - cursor,
{
    let t = x.skip(b);
    let end = rules.field_window(t, start, content);
    assert(rules.field_window(x, start + b, content + b) == end + b);
    lemma_first(x, b, cursor, end, rules.quoted_stops());
    let at = first_of(t, cursor, end, rules.quoted_stops());
    if cursor < end && cursor <= at < end {
        let segment = decoded + t.subrange(cursor, at);
        assert(t.subrange(cursor, at) =~= x.subrange(cursor + b, at + b));
        if at + 1 < t.len() {
            assert(t[at + 1] == x[at + b + 1]);
            lemma_quoted(rules, x, b, start, content, at + 2, segment.push(t[at + 1]));
            lemma_quoted(rules, x, b, start, content, at + 2, segment.push(rules.dialect.quote));
        }
    }
}

proof fn lemma_padding(rules: Rules, x: Seq<u8>, b: int, after: int)
    requires
        0 <= b <= x.len(),
        0 <= after,
    ensures
        rules.skip_padding(x, after + b) == rules.skip_padding(x.skip(b), after) + b,
        rules.skip_padding(x.skip(b), after) >= after,
    decreases x.len() - after,
{
    if after < x.skip(b).len() {
        lemma_padding(rules, x, b, after + 1);
    }
}

proof fn lemma_spaces(rules: Rules, x: Seq<u8>, b: int, start: int, p: int)
    requires
        0 <= b <= x.len(),
        0 <= start,
        0 <= p,
    ensures
        rules.skip_spaces(x, start + b, p + b) == rules.skip_spaces(x.skip(b), start, p) + b,
        rules.skip_spaces(x.skip(b), start, p) >= p,
    decreases x.len() - p,
{
    if p < x.skip(b).len() {
        lemma_spaces(rules, x, b, start, p + 1);
    }
}

proof fn lemma_text(
    rules: Rules,
    x: Seq<u8>,
    b: int,
    start: int,
    from: int,
    cursor: int,
    decoded: Seq<u8>,
)
    requires
        0 <= b <= x.len(),
        0 <= start,
        0 <= from <= cursor,
    ensures
        rules.text_body(x, start + b, from + b, cursor + b, decoded) == rules.text_body(
            x.skip(b),
            start,
            from,
            cursor,
            decoded,
        ).moved(b),
        rules.text_body(x.skip(b), start, from, cursor, decoded) matches Body::Closed { after, .. }
            ==> after >= cursor,
    decreases x.len() - cursor,
{
    let t = x.skip(b);
    let end = rules.field_window(t, start, from);
    assert(rules.field_window(x, start + b, from + b) == end + b);
    if cursor < end {
        lemma_separators(rules, x, b, cursor);
        assert(t[cursor] == x[cursor + b]);
        lemma_text(rules, x, b, start, from, cursor + 1, decoded.push(t[cursor]));
        if cursor + 1 < t.len() {
            assert(t[cursor + 1] == x[cursor + b + 1]);
            lemma_text(
                rules,
                x,
                b,
                start,
                from,
                cursor + 2,
                decoded.push(rules.unescaped(t[cursor + 1])),
            );
        }
    }
}

proof fn lemma_text_step(
    rules: Rules,
    x: Seq<u8>,
    b: int,
    start: int,
    p: int,
    count: int,
    nulls: Nulls,
)
    requires
        0 <= b <= x.len(),
        0 <= start <= p <= x.len() - b,
    ensures
        rules.text_step(x, start + b, p + b, count, nulls) == shifted(
            rules.text_step(x.skip(b), start, p, count, nulls),
            b,
        ),
{
    let t = x.skip(b);
    lemma_text(rules, x, b, start, p, p, Seq::empty());
    if let Body::Closed { bytes, after } = rules.text_body(t, start, p, p, Seq::empty()) {
        lemma_separators(rules, x, b, after);
        lemma_text_body_bounds(rules, t, start, p, p, Seq::empty());
        assert(t.subrange(p, after) =~= x.subrange(p + b, after + b));
        if after < t.len() {
            assert(t[after] == x[after + b]);
        }
    }
}

proof fn lemma_checked_step(
    rules: Rules,
    x: Seq<u8>,
    b: int,
    start: int,
    p: int,
    count: int,
    nulls: Nulls,
)
    requires
        0 <= b <= x.len(),
        0 <= start <= p <= x.len() - b,
    ensures
        rules.checked_step(x, start + b, p + b, count, nulls) == shifted(
            rules.checked_step(x.skip(b), start, p, count, nulls),
            b,
        ),
{
    let t = x.skip(b);
    lemma_text_step(rules, x, b, start, p, count, nulls);
    lemma_quoted(rules, x, b, start, p + 1, p + 1, Seq::empty());
    lemma_quoted_body_bounds(
        rules,
        t,
        start,
        p + 1,
        p + 1,
        Seq::empty(),
    );
    if p < t.len() {
        assert(t[p] == x[p + b]);
    }
    if let Body::Closed { bytes, after } = rules.quoted_body(t, start, p + 1, p + 1, Seq::empty()) {
        lemma_padding(rules, x, b, after);
        let a = rules.skip_padding(t, after);
        lemma_separators(rules, x, b, a);
        if a < t.len() {
            assert(t[a] == x[a + b]);
        }
    }
}

proof fn lemma_field_step(
    rules: Rules,
    x: Seq<u8>,
    b: int,
    start: int,
    p: int,
    count: int,
    nulls: Nulls,
)
    requires
        0 <= b <= x.len(),
        0 <= start <= p <= x.len() - b,
    ensures
        rules.field_step(x, start + b, p + b, count, nulls) == shifted(
            rules.field_step(x.skip(b), start, p, count, nulls),
            b,
        ),
{
    let t = x.skip(b);
    if p < t.len() {
        assert(t[p] == x[p + b]);
    }
    if rules.opens_quoted(t, p) {
        lemma_quoted(rules, x, b, start, p + 1, p + 1, Seq::empty());
        lemma_quoted_body_bounds(
            rules,
            t,
            start,
            p + 1,
            p + 1,
            Seq::empty(),
        );
        if let Body::Closed { bytes, after } = rules.quoted_body(
            t,
            start,
            p + 1,
            p + 1,
            Seq::empty(),
        ) {
            lemma_padding(rules, x, b, after);
            let a = rules.skip_padding(t, after);
            if a < t.len() {
                assert(t[a] == x[a + b]);
            }
            if a + 1 < t.len() {
                assert(t[a + 1] == x[a + b + 1]);
            }
        }
    } else {
        let end = rules.field_window(t, start, p);
        assert(rules.field_window(x, start + b, p + b) == end + b);
        lemma_first(x, b, p, end, rules.unquoted_stops());
        let at = first_of(t, p, end, rules.unquoted_stops());
        if p <= end {
            lemma_first_of(t, p, end, rules.unquoted_stops());
            assert(t.subrange(p, at) =~= x.subrange(p + b, at + b));
            if at < end {
                assert(t[at] == x[at + b]);
                if at > p {
                    assert(t[at - 1] == x[at + b - 1]);
                    assert(t.subrange(p, at - 1) =~= x.subrange(p + b, at - 1 + b));
                }
            }
        }
    }
}

proof fn lemma_fields(
    rules: Rules,
    x: Seq<u8>,
    b: int,
    start: int,
    p: int,
    fields: Seq<Field>,
    nulls: Nulls,
)
    requires
        0 <= b <= x.len(),
        0 <= start <= p <= x.len() - b,
    ensures
        rules.read_fields(x, start + b, p + b, fields, nulls) == rules.read_fields(
            x.skip(b),
            start,
            p,
            fields,
            nulls,
        ).moved(b),
    decreases x.len() - p,
{
    let t = x.skip(b);
    let q = rules.skip_spaces(t, start, p);
    lemma_spaces(rules, x, b, start, p);
    lemma_skip_spaces(rules, t, start, p);
    lemma_field_step(rules, x, b, start, q, fields.len() as int, nulls);
    if let Step::Read { field, next, last } = rules.field_step(
        t,
        start,
        q,
        fields.len() as int,
        nulls,
    ) {
        if !last && p < next <= t.len() {
            lemma_fields(rules, x, b, start, next, fields.push(field), nulls);
        }
    }
}

proof fn lemma_checked(
    rules: Rules,
    x: Seq<u8>,
    b: int,
    start: int,
    p: int,
    fields: Seq<Field>,
    nulls: Nulls,
)
    requires
        0 <= b <= x.len(),
        0 <= start <= p <= x.len() - b,
    ensures
        rules.read_checked(x, start + b, p + b, fields, nulls) == rules.read_checked(
            x.skip(b),
            start,
            p,
            fields,
            nulls,
        ).moved(b),
    decreases x.len() - p,
{
    let t = x.skip(b);
    let q = rules.skip_spaces(t, start, p);
    lemma_spaces(rules, x, b, start, p);
    lemma_skip_spaces(rules, t, start, p);
    lemma_checked_step(rules, x, b, start, q, fields.len() as int, nulls);
    if let Step::Read { field, next, last } = rules.checked_step(
        t,
        start,
        q,
        fields.len() as int,
        nulls,
    ) {
        if !last && p < next <= t.len() {
            lemma_checked(rules, x, b, start, next, fields.push(field), nulls);
        }
    }
}

/// A record at the end of a document reads as it does where what stands before
/// is missing.
pub proof fn law_a_record_of_a_suffix_reads_alike(
    rules: Rules,
    x: Seq<u8>,
    b: int,
    start: int,
    nulls: Nulls,
)
    requires
        0 <= b <= x.len(),
        0 <= start <= x.len() - b,
    ensures
        rules.read_record(x, start + b, nulls) == rules.read_record(x.skip(b), start, nulls).moved(
            b,
        ),
{
    if Engine::supports(rules.dialect) {
        lemma_fields(rules, x, b, start, start, Seq::empty(), nulls);
    } else {
        lemma_checked(rules, x, b, start, start, Seq::empty(), nulls);
    }
}

proof fn lemma_line(settings: ParserSettings, x: Seq<u8>, b: int, p: int)
    requires
        0 <= b <= x.len(),
        0 <= p,
    ensures
        settings.line_end(x, p + b) == settings.line_end(x.skip(b), p) + b,
    decreases x.len() - p,
{
    if p < x.skip(b).len() {
        lemma_separators(settings.rules(), x, b, p);
        lemma_line(settings, x, b, p + 1);
    }
}

/// Records of the end of a document start where they do in that end alone.
pub proof fn lemma_start_in_suffix(settings: ParserSettings, x: Seq<u8>, b: int, p: int)
    requires
        0 <= b <= x.len(),
        0 <= p <= x.len() - b,
    ensures
        settings.record_start(x, p + b) == settings.record_start(x.skip(b), p) + b,
    decreases x.len() - p,
{
    let t = x.skip(b);
    if p < t.len() {
        assert(t[p] == x[p + b]);
        lemma_line(settings, x, b, p);
        lemma_separators(settings.rules(), x, b, p);
        settings.dialect.lemma_line_end(t, p);
        lemma_start_in_suffix(settings, x, b, settings.line_end(t, p));
        if settings.ending_len(t, p) > 0 {
            lemma_start_in_suffix(settings, x, b, p + settings.ending_len(t, p));
        }
    }
}

proof fn lemma_quoted_failure(
    rules: Rules,
    input: Seq<u8>,
    start: int,
    content: int,
    cursor: int,
    decoded: Seq<u8>,
)
    ensures
        rules.quoted_body(input, start, content, cursor, decoded) matches Body::Broken { at, .. }
            ==> at <= input.len(),
    decreases input.len() - cursor,
{
    let end = rules.field_window(input, start, content);
    let at = first_of(input, cursor, end, rules.quoted_stops());
    if 0 <= cursor < end && cursor <= at < end && at + 1 < input.len() {
        let segment = decoded + input.subrange(cursor, at);
        lemma_quoted_failure(rules, input, start, content, at + 2, segment.push(input[at + 1]));
        lemma_quoted_failure(
            rules,
            input,
            start,
            content,
            at + 2,
            segment.push(rules.dialect.quote),
        );
    }
}

proof fn lemma_text_failure(
    rules: Rules,
    input: Seq<u8>,
    start: int,
    from: int,
    cursor: int,
    decoded: Seq<u8>,
)
    ensures
        rules.text_body(input, start, from, cursor, decoded) matches Body::Broken { at, .. } ==> at
            <= input.len(),
    decreases input.len() - cursor,
{
    let end = rules.field_window(input, start, from);
    if 0 <= cursor < end {
        lemma_text_failure(rules, input, start, from, cursor + 1, decoded.push(input[cursor]));
        if cursor + 1 < input.len() {
            lemma_text_failure(
                rules,
                input,
                start,
                from,
                cursor + 2,
                decoded.push(rules.unescaped(input[cursor + 1])),
            );
        }
    }
}

proof fn lemma_step_failure(
    rules: Rules,
    input: Seq<u8>,
    start: int,
    p: int,
    count: int,
    nulls: Nulls,
)
    requires
        0 <= start <= p <= input.len(),
    ensures
        rules.field_step(input, start, p, count, nulls) matches Step::Broken { at, .. } ==> at
            <= input.len(),
        rules.checked_step(input, start, p, count, nulls) matches Step::Broken { at, .. } ==> at
            <= input.len(),
{
    let none = Seq::<u8>::empty();
    lemma_quoted_failure(rules, input, start, p + 1, p + 1, none);
    lemma_quoted_body_bounds(rules, input, start, p + 1, p + 1, none);
    if let Body::Closed { bytes, after } = rules.quoted_body(input, start, p + 1, p + 1, none) {
        lemma_skip_padding(rules, input, after);
    }
    lemma_text_failure(rules, input, start, p, p, none);
    lemma_text_body_bounds(rules, input, start, p, p, none);
    let end = rules.field_window(input, start, p);
    if p <= end {
        lemma_first_of(input, p, end, rules.unquoted_stops());
    }
}

proof fn lemma_fields_failure(
    rules: Rules,
    input: Seq<u8>,
    start: int,
    p: int,
    fields: Seq<Field>,
    nulls: Nulls,
)
    requires
        0 <= start <= p <= input.len(),
    ensures
        rules.read_fields(input, start, p, fields, nulls) matches Scan::Failed { at, .. } ==> at
            <= input.len(),
        rules.read_checked(input, start, p, fields, nulls) matches Scan::Failed { at, .. } ==> at
            <= input.len(),
    decreases input.len() - p,
{
    let q = rules.skip_spaces(input, start, p);
    let count = fields.len() as int;
    lemma_skip_spaces(rules, input, start, p);
    lemma_step_failure(rules, input, start, q, count, nulls);
    if let Step::Read { field, next, .. } = rules.field_step(input, start, q, count, nulls) {
        if p < next <= input.len() {
            lemma_fields_failure(rules, input, start, next, fields.push(field), nulls);
        }
    }
    if let Step::Read { field, next, .. } = rules.checked_step(input, start, q, count, nulls) {
        if p < next <= input.len() {
            lemma_fields_failure(rules, input, start, next, fields.push(field), nulls);
        }
    }
}

/// What is wrong with a record is found inside the document.
pub proof fn lemma_failure_inside(rules: Rules, input: Seq<u8>, start: int, nulls: Nulls)
    requires
        0 <= start <= input.len(),
    ensures
        rules.read_record(input, start, nulls) matches Scan::Failed { at, .. } ==> at
            <= input.len(),
{
    lemma_fields_failure(rules, input, start, start, Seq::empty(), nulls);
}

} // verus!
