//! A terminated record is read from its own bytes alone.

use vstd::prelude::*;

use crate::ascii::SPACE;
use crate::config::Nulls;
use crate::engine::checked::{lemma_checked_step_bounds, lemma_text_body_bounds, Mark};
use crate::engine::grammar::{Body, Rules, Scan, Step};
use crate::engine::laws::lemma_reading_ends;
use crate::engine::owned_parser::{
    lemma_field_step_bounds, lemma_quoted_body_bounds, lemma_skip_padding, lemma_skip_spaces,
};
use crate::engine::Engine;
use crate::search::{first_of, lemma_first_of, lemma_first_of_is};
use crate::slice_parser::lemma_checked_reading_ends;
use crate::storage::Field;

verus! {

/// Whether `x` from `a` on and `y` from `b` on hold the same `n` bytes.
pub open spec fn same_bytes(x: Seq<u8>, a: int, y: Seq<u8>, b: int, n: int) -> bool {
    &&& 0 <= a
    &&& 0 <= b
    &&& 0 < n
    &&& a + n <= x.len()
    &&& b + n <= y.len()
    &&& forall|i: int| a <= i < a + n ==> #[trigger] x[i] == y[i - a + b]
}

/// Whether `x` from `a` on and `y` from `b` on hold the same `n` bytes, the last
/// of which ends a record.
pub open spec fn same_record(
    rules: Rules,
    x: Seq<u8>,
    a: int,
    y: Seq<u8>,
    b: int,
    n: int,
) -> bool {
    &&& rules.dialect.valid()
    &&& !rules.dialect.multibyte()
    &&& same_bytes(x, a, y, b, n)
    &&& x[a + n - 1] == rules.terminator()
}

proof fn lemma_local_first(
    x: Seq<u8>,
    a: int,
    y: Seq<u8>,
    b: int,
    n: int,
    from: int,
    x_end: int,
    y_end: int,
    stop: spec_fn(u8) -> bool,
)
    requires
        a <= from <= x_end,
        a + n <= x.len(),
        b + n <= y.len(),
        forall|i: int| a <= i < a + n ==> #[trigger] x[i] == y[i - a + b],
        first_of(x, from, x_end, stop) < x_end,
        first_of(x, from, x_end, stop) < a + n,
        first_of(x, from, x_end, stop) - a + b < y_end,
    ensures
        first_of(y, from - a + b, y_end, stop) == first_of(x, from, x_end, stop) - a + b,
{
    let at = first_of(x, from, x_end, stop);
    lemma_first_of(x, from, x_end, stop);
    assert forall|i: int| from - a + b <= i < at - a + b implies !stop(#[trigger] y[i]) by {
        assert(!stop(x[i - b + a]));
    }
    lemma_first_of_is(y, from - a + b, y_end, stop, at - a + b);
}

/// A quoted field is read from its own bytes.
pub proof fn lemma_local_body(
    rules: Rules,
    x: Seq<u8>,
    a: int,
    y: Seq<u8>,
    b: int,
    n: int,
    content: int,
    cursor: int,
    decoded: Seq<u8>,
)
    requires
        same_bytes(x, a, y, b, n),
        a <= content <= cursor,
    ensures
        rules.quoted_body(x, a, content, cursor, decoded) matches Body::Closed { bytes, after } ==> (
        after < a + n ==> rules.quoted_body(y, b, content - a + b, cursor - a + b, decoded) == (
        Body::Closed { bytes, after: after - a + b })),
    decreases x.len() - cursor,
{
    if let Body::Closed { bytes, after } = rules.quoted_body(x, a, content, cursor, decoded) {
        if after < a + n {
            let x_end = rules.field_window(x, a, content);
            let y_end = rules.field_window(y, b, content - a + b);
            let stops = rules.quoted_stops();
            let at = first_of(x, cursor, x_end, stops);
            lemma_first_of(x, cursor, x_end, stops);
            lemma_quoted_body_bounds(rules, x, a, content, cursor, decoded);
            let segment = decoded + x.subrange(cursor, at);
            if at + 1 < x.len() {
                lemma_quoted_body_bounds(
                    rules,
                    x,
                    a,
                    content,
                    at + 2,
                    segment.push(x[at + 1]),
                );
                lemma_quoted_body_bounds(
                    rules,
                    x,
                    a,
                    content,
                    at + 2,
                    segment.push(rules.dialect.quote),
                );
            }
            assert(at < a + n);
            lemma_local_first(x, a, y, b, n, cursor, x_end, y_end, stops);
            assert(x[at] == y[at - a + b]);
            assert(x.subrange(cursor, at) =~= y.subrange(cursor - a + b, at - a + b));
            if at + 1 < a + n {
                assert(x[at + 1] == y[at + 1 - a + b]);
                lemma_local_body(
                    rules,
                    x,
                    a,
                    y,
                    b,
                    n,
                    content,
                    at + 2,
                    segment.push(x[at + 1]),
                );
                lemma_local_body(
                    rules,
                    x,
                    a,
                    y,
                    b,
                    n,
                    content,
                    at + 2,
                    segment.push(rules.dialect.quote),
                );
            }
        }
    }
}

proof fn lemma_local_padding(
    rules: Rules,
    x: Seq<u8>,
    a: int,
    y: Seq<u8>,
    b: int,
    n: int,
    after: int,
)
    requires
        same_record(rules, x, a, y, b, n),
        a <= after < a + n,
    ensures
        after <= rules.skip_padding(x, after) < a + n,
        rules.skip_padding(y, after - a + b) == rules.skip_padding(x, after) - a + b,
    decreases a + n - after,
{
    assert(x[after] == y[after - a + b]);
    if rules.is_padding(x[after]) {
        assert(after != a + n - 1);
        lemma_local_padding(rules, x, a, y, b, n, after + 1);
    }
}

proof fn lemma_local_spaces(
    rules: Rules,
    x: Seq<u8>,
    a: int,
    y: Seq<u8>,
    b: int,
    n: int,
    p: int,
)
    requires
        same_record(rules, x, a, y, b, n),
        rules.terminator() != SPACE,
        a <= p < a + n,
    ensures
        p <= rules.skip_spaces(x, a, p) < a + n,
        rules.skip_spaces(y, b, p - a + b) == rules.skip_spaces(x, a, p) - a + b,
    decreases a + n - p,
{
    assert(x[p] == y[p - a + b]);
    if rules.skip_initial_space && p < rules.record_window(x, a) && x[p] == SPACE {
        assert(p != a + n - 1);
        lemma_local_spaces(rules, x, a, y, b, n, p + 1);
    }
}

/// Whether a terminator that could be skipped as a space has one more behind it,
/// so that a reading that ends right behind the first did not skip it.
pub open spec fn shut(rules: Rules, x: Seq<u8>, end: int) -> bool {
    rules.skip_initial_space && rules.terminator() == SPACE ==> end < x.len() && x[end] == SPACE
}

/// Spaces that are skipped up to the end of a record are skipped beyond it, or
/// the record is too long.
proof fn lemma_spaces_run_on(rules: Rules, x: Seq<u8>, a: int, n: int, p: int)
    requires
        rules.skip_initial_space,
        0 <= a <= p <= a + n < x.len(),
        x[a + n] == SPACE,
    ensures
        ({
            let q = rules.skip_spaces(x, a, p);
            q != a + n || q - a > rules.limits.max_record_bytes
        }),
    decreases a + n - p,
{
    if p < rules.record_window(x, a) && x[p] == SPACE {
        if p < a + n {
            lemma_spaces_run_on(rules, x, a, n, p + 1);
        } else {
            lemma_skip_spaces(rules, x, a, p + 1);
        }
    }
}

/// Spaces that end before the record does are skipped alike elsewhere.
pub proof fn lemma_local_spaces_within(
    rules: Rules,
    x: Seq<u8>,
    a: int,
    y: Seq<u8>,
    b: int,
    n: int,
    p: int,
)
    requires
        same_bytes(x, a, y, b, n),
        a <= p < a + n,
        rules.skip_spaces(x, a, p) < a + n,
    ensures
        p <= rules.skip_spaces(x, a, p),
        rules.skip_spaces(y, b, p - a + b) == rules.skip_spaces(x, a, p) - a + b,
    decreases a + n - p,
{
    assert(x[p] == y[p - a + b]);
    if rules.skip_initial_space && p < rules.record_window(x, a) && x[p] == SPACE {
        lemma_skip_spaces(rules, x, a, p + 1);
        lemma_local_spaces_within(rules, x, a, y, b, n, p + 1);
    }
}

/// The same step elsewhere.
pub open spec fn shifted(step: Step, by: int) -> Step {
    match step {
        Step::Read { field, next, last } => Step::Read { field, next: next + by, last },
        Step::Broken { kind, at, number } => Step::Broken { kind, at: at + by, number },
    }
}

/// Whether a step stays inside the record that ends at `end`, and ends it there
/// if it ends it.
pub open spec fn inside(step: Step, end: int) -> bool {
    step matches Step::Read { next, last, .. } && next <= end && (last ==> next == end)
}

pub proof fn lemma_local_step(
    rules: Rules,
    x: Seq<u8>,
    a: int,
    y: Seq<u8>,
    b: int,
    n: int,
    p: int,
    count: int,
    nulls: Nulls,
)
    requires
        same_record(rules, x, a, y, b, n),
        a <= p < a + n,
        inside(rules.field_step(x, a, p, count, nulls), a + n),
    ensures
        rules.field_step(y, b, p - a + b, count, nulls) == shifted(
            rules.field_step(x, a, p, count, nulls),
            b - a,
        ),
        rules.field_step(x, a, p, count, nulls) matches Step::Read { next, last, .. } && (!last
            ==> p < next < a + n),
{
    assert(x[p] == y[p - a + b]);
    lemma_field_step_bounds(rules, x, a, p, count, nulls);
    if rules.opens_quoted(x, p) {
        lemma_quoted_body_bounds(rules, x, a, p + 1, p + 1, Seq::empty());
        if let Body::Closed { bytes, after } = rules.quoted_body(x, a, p + 1, p + 1, Seq::empty()) {
            lemma_skip_padding(rules, x, after);
            let pad = rules.skip_padding(x, after);
            lemma_padding_is_padding(rules, x, after);
            if after >= a + n {
                lemma_closing_quote(rules, x, a, p + 1, p + 1, Seq::empty());
                assert(false);
            }
            lemma_local_padding(rules, x, a, y, b, n, after);
            lemma_local_body(rules, x, a, y, b, n, p + 1, p + 1, Seq::empty());
            assert(x[pad] == y[pad - a + b]);
            if pad + 1 < a + n {
                assert(x[pad + 1] == y[pad + 1 - a + b]);
            }
        }
    } else {
        let x_end = rules.field_window(x, a, p);
        let y_end = rules.field_window(y, b, p - a + b);
        let stops = rules.unquoted_stops();
        let at = first_of(x, p, x_end, stops);
        lemma_first_of(x, p, x_end, stops);
        if at == x_end {
            assert(!stops(x[a + n - 1]));
            assert(false);
        }
        lemma_local_first(x, a, y, b, n, p, x_end, y_end, stops);
        assert(x[at] == y[at - a + b]);
        if at > p {
            assert(x[at - 1] == y[at - 1 - a + b]);
            assert(x.subrange(p, at - 1) =~= y.subrange(p - a + b, at - 1 - a + b));
        }
        assert(x.subrange(p, at) =~= y.subrange(p - a + b, at - a + b));
    }
}

pub proof fn lemma_padding_is_padding(rules: Rules, x: Seq<u8>, after: int)
    requires
        0 <= after <= x.len(),
    ensures
        forall|i: int|
            after <= i < rules.skip_padding(x, after) ==> rules.is_padding(#[trigger] x[i]),
    decreases x.len() - after,
{
    if after < x.len() && rules.is_padding(x[after]) {
        lemma_padding_is_padding(rules, x, after + 1);
    }
}

/// A quoted field ends behind a quote.
proof fn lemma_closing_quote(
    rules: Rules,
    x: Seq<u8>,
    start: int,
    content: int,
    cursor: int,
    decoded: Seq<u8>,
)
    ensures
        rules.quoted_body(x, start, content, cursor, decoded) matches Body::Closed { after, .. }
            ==> x[after - 1] == rules.dialect.quote,
    decreases x.len() - cursor,
{
    let end = rules.field_window(x, start, content);
    let at = first_of(x, cursor, end, rules.quoted_stops());
    if 0 <= cursor < end {
        lemma_first_of(x, cursor, end, rules.quoted_stops());
        if at < end && at + 1 < x.len() {
            let segment = decoded + x.subrange(cursor, at);
            lemma_closing_quote(rules, x, start, content, at + 2, segment.push(x[at + 1]));
            lemma_closing_quote(
                rules,
                x,
                start,
                content,
                at + 2,
                segment.push(rules.dialect.quote),
            );
        }
    }
}

/// What the reading of fields does first.
pub proof fn lemma_first_field(
    rules: Rules,
    x: Seq<u8>,
    a: int,
    p: int,
    q: int,
    step: Step,
    fields: Seq<Field>,
    nulls: Nulls,
)
    requires
        q == rules.skip_spaces(x, a, p),
        step == rules.field_step(x, a, q, fields.len() as int, nulls),
        !(rules.skip_initial_space && q - a > rules.limits.max_record_bytes),
    ensures
        rules.read_fields(x, a, p, fields, nulls) == (match step {
            Step::Broken { kind, at, number } => Scan::Failed { kind, at, number },
            Step::Read { field, next, last } => if last {
                Scan::Done { fields: fields.push(field), next }
            } else if p < next <= x.len() {
                rules.read_fields(x, a, next, fields.push(field), nulls)
            } else {
                Scan::Paused { fields: fields.push(field), at: next }
            },
        }),
{
}

/// Where the next field of a terminated record is read, and what it is.
proof fn lemma_local_next(
    rules: Rules,
    x: Seq<u8>,
    a: int,
    y: Seq<u8>,
    b: int,
    n: int,
    p: int,
    fields: Seq<Field>,
    nulls: Nulls,
) -> (step: (int, Step))
    requires
        same_record(rules, x, a, y, b, n),
        shut(rules, x, a + n),
        a <= p < a + n,
        rules.read_fields(x, a, p, fields, nulls) matches Scan::Done { next, .. } && next == a + n,
    ensures
        step.0 == rules.skip_spaces(x, a, p),
        step.1 == rules.field_step(x, a, step.0, fields.len() as int, nulls),
        !(rules.skip_initial_space && step.0 - a > rules.limits.max_record_bytes),
        step.0 - a + b == rules.skip_spaces(y, b, p - a + b),
        shifted(step.1, b - a) == rules.field_step(
            y,
            b,
            step.0 - a + b,
            fields.len() as int,
            nulls,
        ),
        step.1 matches Step::Read { next, last, .. } && (if last {
            next == a + n
        } else {
            p < next < a + n
        }),
{
    let q = rules.skip_spaces(x, a, p);
    lemma_skip_spaces(rules, x, a, p);
    let count = fields.len() as int;
    let step = rules.field_step(x, a, q, count, nulls);
    lemma_field_step_bounds(rules, x, a, q, count, nulls);
    lemma_first_field(rules, x, a, p, q, step, fields, nulls);
    if let Step::Read { field, next, last } = step {
        if !last {
            lemma_reading_ends(rules, x, a, next, fields.push(field), nulls);
        }
    }
    if rules.skip_initial_space {
        if rules.terminator() == SPACE {
            lemma_spaces_run_on(rules, x, a, n, p);
            lemma_local_spaces_within(rules, x, a, y, b, n, p);
        } else {
            lemma_local_spaces(rules, x, a, y, b, n, p);
        }
    } else {
        assert(q == p);
        assert(rules.skip_spaces(y, b, p - a + b) == p - a + b);
    }
    lemma_local_step(rules, x, a, y, b, n, q, count, nulls);
    (q, step)
}

/// The fields of a terminated record are read from its own bytes.
pub proof fn lemma_local_fields(
    rules: Rules,
    x: Seq<u8>,
    a: int,
    y: Seq<u8>,
    b: int,
    n: int,
    p: int,
    fields: Seq<Field>,
    nulls: Nulls,
)
    requires
        same_record(rules, x, a, y, b, n),
        shut(rules, x, a + n),
        a <= p < a + n,
        rules.read_fields(x, a, p, fields, nulls) matches Scan::Done { next, .. } && next == a + n,
    ensures
        ({
            let read = rules.read_fields(x, a, p, fields, nulls)->Done_fields;
            rules.read_fields(y, b, p - a + b, fields, nulls) == (Scan::Done {
                fields: read,
                next: b + n,
            })
        }),
    decreases x.len() - p,
{
    let (q, step) = lemma_local_next(rules, x, a, y, b, n, p, fields, nulls);
    lemma_first_field(rules, x, a, p, q, step, fields, nulls);
    lemma_first_field(
        rules,
        y,
        b,
        p - a + b,
        q - a + b,
        shifted(step, b - a),
        fields,
        nulls,
    );
    if let Step::Read { field, next, last } = step {
        if !last {
            lemma_local_fields(rules, x, a, y, b, n, next, fields.push(field), nulls);
        }
    }
}

proof fn lemma_local_text(
    rules: Rules,
    x: Seq<u8>,
    a: int,
    y: Seq<u8>,
    b: int,
    n: int,
    from: int,
    cursor: int,
    decoded: Seq<u8>,
)
    requires
        same_record(rules, x, a, y, b, n),
        a <= from <= cursor,
        cursor <= x.len(),
    ensures
        rules.text_body(x, a, from, cursor, decoded) matches Body::Closed { bytes, after } ==> (
        after < a + n && (rules.mark(x, after) is CrLf ==> after + 1 < a + n) ==> {
            &&& rules.text_body(y, b, from - a + b, cursor - a + b, decoded) == (Body::Closed {
                bytes,
                after: after - a + b,
            })
            &&& rules.mark(y, after - a + b) == rules.mark(x, after)
        }),
    decreases x.len() - cursor,
{
    if let Body::Closed { bytes, after } = rules.text_body(x, a, from, cursor, decoded) {
        if after < a + n && (rules.mark(x, after) is CrLf ==> after + 1 < a + n) {
            lemma_text_body_bounds(rules, x, a, from, cursor, decoded);
            let x_end = rules.field_window(x, a, from);
            let y_end = rules.field_window(y, b, from - a + b);
            assert(cursor < x_end);
            assert(x[cursor] == y[cursor - a + b]);
            if cursor + 1 < a + n {
                assert(x[cursor + 1] == y[cursor + 1 - a + b]);
            } else {
                assert(cursor == a + n - 1);
                assert(x[cursor] == rules.terminator());
            }
            assert(rules.mark(y, cursor - a + b) == rules.mark(x, cursor));
            match rules.mark(x, cursor) {
                Mark::Content => {
                    lemma_text_body_bounds(
                        rules,
                        x,
                        a,
                        from,
                        cursor + 1,
                        decoded.push(x[cursor]),
                    );
                    lemma_local_text(
                        rules,
                        x,
                        a,
                        y,
                        b,
                        n,
                        from,
                        cursor + 1,
                        decoded.push(x[cursor]),
                    );
                },
                Mark::Escape => {
                    lemma_text_body_bounds(
                        rules,
                        x,
                        a,
                        from,
                        cursor + 2,
                        decoded.push(rules.unescaped(x[cursor + 1])),
                    );
                    lemma_local_text(
                        rules,
                        x,
                        a,
                        y,
                        b,
                        n,
                        from,
                        cursor + 2,
                        decoded.push(rules.unescaped(x[cursor + 1])),
                    );
                },
                _ => {},
            }
        }
    }
}

/// Unquoted text without escapes is content throughout.
pub proof fn lemma_text_is_content(
    rules: Rules,
    x: Seq<u8>,
    start: int,
    from: int,
    cursor: int,
    decoded: Seq<u8>,
)
    requires
        0 <= start <= from <= cursor <= x.len(),
        rules.dialect.escape.unquoted_byte() is None,
    ensures
        rules.text_body(x, start, from, cursor, decoded) matches Body::Closed { after, .. } ==> (
        forall|i: int| cursor <= i < after ==> rules.mark(x, i) is Content),
    decreases x.len() - cursor,
{
    let end = rules.field_window(x, start, from);
    if cursor < end && rules.mark(x, cursor) is Content {
        lemma_text_is_content(rules, x, start, from, cursor + 1, decoded.push(x[cursor]));
    }
}

/// Whether the record that ends at `end` cannot have ended with an escape that
/// the end of the input cut short.
pub open spec fn surely_ended(rules: Rules, x: Seq<u8>, end: int) -> bool {
    rules.dialect.escape.unquoted_byte() is None || end < x.len()
}

proof fn lemma_local_text_step(
    rules: Rules,
    x: Seq<u8>,
    a: int,
    y: Seq<u8>,
    b: int,
    n: int,
    p: int,
    count: int,
    nulls: Nulls,
)
    requires
        same_record(rules, x, a, y, b, n),
        surely_ended(rules, x, a + n),
        a <= p < a + n,
        inside(rules.text_step(x, a, p, count, nulls), a + n),
    ensures
        rules.text_step(y, b, p - a + b, count, nulls) == shifted(
            rules.text_step(x, a, p, count, nulls),
            b - a,
        ),
        rules.text_step(x, a, p, count, nulls) matches Step::Read { next, last, .. } && (!last
            ==> p < next < a + n),
{
    lemma_text_body_bounds(rules, x, a, p, p, Seq::empty());
    if let Body::Closed { bytes, after } = rules.text_body(x, a, p, p, Seq::empty()) {
        if after >= a + n {
            assert(after == x.len());
            lemma_text_is_content(rules, x, a, p, p, Seq::empty());
            assert(rules.mark(x, a + n - 1) is Content);
            assert(false);
        }
        lemma_local_text(rules, x, a, y, b, n, p, p, Seq::empty());
        assert(x.subrange(p, after) =~= y.subrange(p - a + b, after - a + b));
        assert(x[after] == y[after - a + b]);
    }
}

proof fn lemma_local_crlf_step(
    rules: Rules,
    x: Seq<u8>,
    a: int,
    y: Seq<u8>,
    b: int,
    n: int,
    p: int,
    count: int,
    nulls: Nulls,
)
    requires
        same_record(rules, x, a, y, b, n),
        rules.dialect.escape.unquoted_byte() is None,
        rules.dialect.record_ending is CrLf,
        a <= p < a + n,
        rules.opens_quoted(x, p),
        inside(rules.checked_step(x, a, p, count, nulls), a + n),
    ensures
        rules.checked_step(y, b, p - a + b, count, nulls) == shifted(
            rules.checked_step(x, a, p, count, nulls),
            b - a,
        ),
        rules.checked_step(x, a, p, count, nulls) matches Step::Read { next, last, .. } && (!last
            ==> p < next < a + n),
{
    assert(x[p] == y[p - a + b]);
    lemma_quoted_body_bounds(rules, x, a, p + 1, p + 1, Seq::empty());
    if let Body::Closed { bytes, after } = rules.quoted_body(x, a, p + 1, p + 1, Seq::empty()) {
        lemma_skip_padding(rules, x, after);
        let pad = rules.skip_padding(x, after);
        lemma_padding_is_padding(rules, x, after);
        if after >= a + n {
            lemma_closing_quote(rules, x, a, p + 1, p + 1, Seq::empty());
            assert(false);
        }
        lemma_local_padding(rules, x, a, y, b, n, after);
        lemma_local_body(rules, x, a, y, b, n, p + 1, p + 1, Seq::empty());
        assert(x[pad] == y[pad - a + b]);
        if pad + 1 < a + n {
            assert(x[pad + 1] == y[pad + 1 - a + b]);
        }
    }
}

pub proof fn lemma_local_checked_step(
    rules: Rules,
    x: Seq<u8>,
    a: int,
    y: Seq<u8>,
    b: int,
    n: int,
    p: int,
    count: int,
    nulls: Nulls,
)
    requires
        same_record(rules, x, a, y, b, n),
        surely_ended(rules, x, a + n),
        !Engine::supports(rules.dialect),
        a <= p < a + n,
        inside(rules.checked_step(x, a, p, count, nulls), a + n),
    ensures
        rules.checked_step(y, b, p - a + b, count, nulls) == shifted(
            rules.checked_step(x, a, p, count, nulls),
            b - a,
        ),
        rules.checked_step(x, a, p, count, nulls) matches Step::Read { next, last, .. } && (!last
            ==> p < next < a + n),
{
    assert(x[p] == y[p - a + b]);
    if rules.dialect.escape.unquoted_byte() is None && rules.opens_quoted(x, p) {
        lemma_local_crlf_step(rules, x, a, y, b, n, p, count, nulls);
    } else {
        lemma_local_text_step(rules, x, a, y, b, n, p, count, nulls);
    }
}

pub proof fn lemma_first_checked(
    rules: Rules,
    x: Seq<u8>,
    a: int,
    p: int,
    q: int,
    step: Step,
    fields: Seq<Field>,
    nulls: Nulls,
)
    requires
        q == rules.skip_spaces(x, a, p),
        step == rules.checked_step(x, a, q, fields.len() as int, nulls),
        !(rules.skip_initial_space && q - a > rules.limits.max_record_bytes),
    ensures
        rules.read_checked(x, a, p, fields, nulls) == (match step {
            Step::Broken { kind, at, number } => Scan::Failed { kind, at, number },
            Step::Read { field, next, last } => if last {
                Scan::Done { fields: fields.push(field), next }
            } else if p < next <= x.len() {
                rules.read_checked(x, a, next, fields.push(field), nulls)
            } else {
                Scan::Paused { fields: fields.push(field), at: next }
            },
        }),
{
}

proof fn lemma_local_checked_next(
    rules: Rules,
    x: Seq<u8>,
    a: int,
    y: Seq<u8>,
    b: int,
    n: int,
    p: int,
    fields: Seq<Field>,
    nulls: Nulls,
) -> (step: (int, Step))
    requires
        same_record(rules, x, a, y, b, n),
        surely_ended(rules, x, a + n),
        !Engine::supports(rules.dialect),
        shut(rules, x, a + n),
        a <= p < a + n,
        rules.read_checked(x, a, p, fields, nulls) matches Scan::Done { next, .. } && next == a + n,
    ensures
        step.0 == rules.skip_spaces(x, a, p),
        step.1 == rules.checked_step(x, a, step.0, fields.len() as int, nulls),
        !(rules.skip_initial_space && step.0 - a > rules.limits.max_record_bytes),
        step.0 - a + b == rules.skip_spaces(y, b, p - a + b),
        shifted(step.1, b - a) == rules.checked_step(
            y,
            b,
            step.0 - a + b,
            fields.len() as int,
            nulls,
        ),
        step.1 matches Step::Read { next, last, .. } && (if last {
            next == a + n
        } else {
            p < next < a + n
        }),
{
    let q = rules.skip_spaces(x, a, p);
    lemma_skip_spaces(rules, x, a, p);
    let count = fields.len() as int;
    let step = rules.checked_step(x, a, q, count, nulls);
    lemma_checked_step_bounds(rules, x, a, q, count, nulls);
    lemma_first_checked(rules, x, a, p, q, step, fields, nulls);
    if let Step::Read { field, next, last } = step {
        if !last {
            lemma_checked_reading_ends(rules, x, a, next, fields.push(field), nulls);
        }
    }
    if rules.skip_initial_space {
        if rules.terminator() == SPACE {
            lemma_spaces_run_on(rules, x, a, n, p);
            lemma_local_spaces_within(rules, x, a, y, b, n, p);
        } else {
            lemma_local_spaces(rules, x, a, y, b, n, p);
        }
    } else {
        assert(q == p);
        assert(rules.skip_spaces(y, b, p - a + b) == p - a + b);
    }
    lemma_local_checked_step(rules, x, a, y, b, n, q, count, nulls);
    (q, step)
}

proof fn lemma_local_checked(
    rules: Rules,
    x: Seq<u8>,
    a: int,
    y: Seq<u8>,
    b: int,
    n: int,
    p: int,
    fields: Seq<Field>,
    nulls: Nulls,
)
    requires
        same_record(rules, x, a, y, b, n),
        surely_ended(rules, x, a + n),
        !Engine::supports(rules.dialect),
        shut(rules, x, a + n),
        a <= p < a + n,
        rules.read_checked(x, a, p, fields, nulls) matches Scan::Done { next, .. } && next == a + n,
    ensures
        ({
            let read = rules.read_checked(x, a, p, fields, nulls)->Done_fields;
            rules.read_checked(y, b, p - a + b, fields, nulls) == (Scan::Done {
                fields: read,
                next: b + n,
            })
        }),
    decreases x.len() - p,
{
    let (q, step) = lemma_local_checked_next(rules, x, a, y, b, n, p, fields, nulls);
    lemma_first_checked(rules, x, a, p, q, step, fields, nulls);
    lemma_first_checked(
        rules,
        y,
        b,
        p - a + b,
        q - a + b,
        shifted(step, b - a),
        fields,
        nulls,
    );
    if let Step::Read { field, next, last } = step {
        if !last {
            lemma_local_checked(rules, x, a, y, b, n, next, fields.push(field), nulls);
        }
    }
}

/// A record that its terminator ended reads the same wherever its bytes stand.
pub proof fn law_a_record_is_read_from_its_own_bytes(
    rules: Rules,
    x: Seq<u8>,
    a: int,
    y: Seq<u8>,
    b: int,
    n: int,
    nulls: Nulls,
)
    requires
        same_record(rules, x, a, y, b, n),
        surely_ended(rules, x, a + n),
        shut(rules, x, a + n),
        rules.read_record(x, a, nulls) matches Scan::Done { next, .. } && next == a + n,
    ensures
        rules.read_record(y, b, nulls) == (Scan::Done {
            fields: rules.read_record(x, a, nulls)->Done_fields,
            next: b + n,
        }),
{
    if Engine::supports(rules.dialect) {
        lemma_local_fields(rules, x, a, y, b, n, a, Seq::empty(), nulls);
    } else {
        lemma_local_checked(rules, x, a, y, b, n, a, Seq::empty(), nulls);
    }
}

} // verus!
