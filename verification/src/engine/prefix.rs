//! What is read well before the end of a document is read alike whatever follows.

use vstd::prelude::*;

use crate::config::Nulls;
use crate::engine::checked::{lemma_checked_step_bounds, lemma_text_body_bounds};
use crate::engine::grammar::{Body, Rules, Scan, Step};
use crate::engine::owned_parser::{
    lemma_field_step_bounds, lemma_quoted_body_bounds, lemma_skip_padding, lemma_skip_spaces,
};
use crate::engine::Engine;
use crate::search::{first_of, lemma_first_of, lemma_first_of_is};
use crate::storage::Field;

verus! {

/// Whether a document starts with these bytes.
pub open spec fn begins(document: Seq<u8>, front: Seq<u8>) -> bool {
    &&& front.len() <= document.len()
    &&& document.take(front.len() as int) == front
}

impl Body {
    /// Where this outcome was found.
    pub open spec fn extent(self) -> int {
        match self {
            Body::Closed { after, .. } => after,
            Body::Broken { at, .. } => at,
        }
    }
}

impl Step {
    /// Where this outcome was found.
    pub open spec fn extent(self) -> int {
        match self {
            Step::Read { next, .. } => next,
            Step::Broken { at, .. } => at,
        }
    }
}

impl Scan {
    /// Where this outcome was found.
    pub open spec fn extent(self) -> int {
        match self {
            Scan::Done { next, .. } => next,
            Scan::Failed { at, .. } => at,
            Scan::Paused { at, .. } => at,
        }
    }
}

impl Rules {
    /// How many bytes are looked at behind the place where an outcome is found.
    pub open spec fn margin(self) -> int {
        (2 + self.dialect.delimiter_tail.text().len() + self.dialect.ending_tail.text().len()) as int
    }
}

proof fn lemma_byte(x: Seq<u8>, y: Seq<u8>, at: int)
    requires
        begins(y, x),
        0 <= at < x.len(),
    ensures
        y[at] == x[at],
{
    assert(y.take(x.len() as int)[at] == y[at]);
}

proof fn lemma_first(
    x: Seq<u8>,
    y: Seq<u8>,
    from: int,
    x_end: int,
    y_end: int,
    stop: spec_fn(u8) -> bool,
)
    requires
        begins(y, x),
        0 <= from <= x_end <= x.len(),
        x_end <= y_end,
        first_of(x, from, x_end, stop) < x_end || x_end == y_end,
    ensures
        first_of(y, from, y_end, stop) == first_of(x, from, x_end, stop),
{
    let at = first_of(x, from, x_end, stop);
    lemma_first_of(x, from, x_end, stop);
    assert forall|i: int| from <= i < at implies !stop(#[trigger] y[i]) by {
        lemma_byte(x, y, i);
    }
    if at < x_end {
        lemma_byte(x, y, at);
    }
    lemma_first_of_is(y, from, y_end, stop, at);
}

proof fn lemma_separators(rules: Rules, x: Seq<u8>, y: Seq<u8>, p: int)
    requires
        begins(y, x),
        0 <= p,
        p + rules.margin() <= x.len(),
    ensures
        rules.dialect.delimits(y, p) == rules.dialect.delimits(x, p),
        rules.dialect.breaks(y, p) == rules.dialect.breaks(x, p),
        rules.dialect.breaks_crlf(y, p) == rules.dialect.breaks_crlf(x, p),
        rules.dialect.break_len(y, p) == rules.dialect.break_len(x, p),
{
    let delimiter = rules.dialect.delimiter_tail.text();
    let ending = rules.dialect.ending_tail.text();
    lemma_byte(x, y, p);
    lemma_byte(x, y, p + 1);
    assert forall|i: int| 0 <= i < delimiter.len() implies (y[p + 1 + i] == #[trigger] delimiter[i])
        == (x[p + 1 + i] == delimiter[i]) by {
        lemma_byte(x, y, p + 1 + i);
    }
    assert forall|i: int| 0 <= i < ending.len() implies (y[p + 1 + i] == #[trigger] ending[i]) == (
    x[p + 1 + i] == ending[i]) by {
        lemma_byte(x, y, p + 1 + i);
    }
    assert forall|i: int| 0 <= i < ending.len() implies (y[p + 1 + 1 + i] == #[trigger] ending[i])
        == (x[p + 1 + 1 + i] == ending[i]) by {
        lemma_byte(x, y, p + 2 + i);
    }
}

proof fn lemma_quoted(
    rules: Rules,
    x: Seq<u8>,
    y: Seq<u8>,
    start: int,
    content: int,
    cursor: int,
    decoded: Seq<u8>,
)
    requires
        begins(y, x),
        0 <= cursor,
        rules.quoted_body(x, start, content, cursor, decoded).extent() + 2 <= x.len(),
    ensures
        rules.quoted_body(y, start, content, cursor, decoded) == rules.quoted_body(
            x,
            start,
            content,
            cursor,
            decoded,
        ),
    decreases x.len() - cursor,
{
    let x_end = rules.field_window(x, start, content);
    let y_end = rules.field_window(y, start, content);
    let stops = rules.quoted_stops();
    let at = first_of(x, cursor, x_end, stops);
    if cursor < x_end {
        lemma_first_of(x, cursor, x_end, stops);
        lemma_first(x, y, cursor, x_end, y_end, stops);
        if at < x_end {
            let segment = decoded + x.subrange(cursor, at);
            assert(y.subrange(cursor, at) =~= x.subrange(cursor, at)) by {
                assert forall|i: int| cursor <= i < at implies x[i] == y[i] by {
                    lemma_byte(x, y, i);
                }
            }
            lemma_byte(x, y, at);
            if at + 1 < x.len() {
                lemma_byte(x, y, at + 1);
                if rules.quoted_body(x, start, content, at + 2, segment.push(x[at + 1])).extent()
                    + 2 <= x.len() {
                    lemma_quoted(rules, x, y, start, content, at + 2, segment.push(x[at + 1]));
                }
                if rules.quoted_body(
                    x,
                    start,
                    content,
                    at + 2,
                    segment.push(rules.dialect.quote),
                ).extent() + 2 <= x.len() {
                    lemma_quoted(
                        rules,
                        x,
                        y,
                        start,
                        content,
                        at + 2,
                        segment.push(rules.dialect.quote),
                    );
                }
            }
        }
    }
}

proof fn lemma_padding(rules: Rules, x: Seq<u8>, y: Seq<u8>, after: int)
    requires
        begins(y, x),
        0 <= after <= x.len(),
        rules.skip_padding(x, after) < x.len(),
    ensures
        rules.skip_padding(y, after) == rules.skip_padding(x, after),
    decreases x.len() - after,
{
    lemma_skip_padding(rules, x, after);
    lemma_byte(x, y, after);
    if rules.is_padding(x[after]) {
        lemma_padding(rules, x, y, after + 1);
    }
}

proof fn lemma_spaces(rules: Rules, x: Seq<u8>, y: Seq<u8>, start: int, p: int)
    requires
        begins(y, x),
        0 <= p <= x.len(),
        rules.skip_spaces(x, start, p) < x.len(),
    ensures
        rules.skip_spaces(y, start, p) == rules.skip_spaces(x, start, p),
    decreases x.len() - p,
{
    lemma_skip_spaces(rules, x, start, p);
    lemma_byte(x, y, p);
    if rules.skip_initial_space && p < rules.record_window(x, start) && x[p]
        == crate::ascii::SPACE {
        lemma_spaces(rules, x, y, start, p + 1);
    }
}

proof fn lemma_text(
    rules: Rules,
    x: Seq<u8>,
    y: Seq<u8>,
    start: int,
    from: int,
    cursor: int,
    decoded: Seq<u8>,
)
    requires
        begins(y, x),
        0 <= start <= from <= cursor,
        rules.text_body(x, start, from, cursor, decoded).extent() + rules.margin() <= x.len(),
    ensures
        rules.text_body(y, start, from, cursor, decoded) == rules.text_body(
            x,
            start,
            from,
            cursor,
            decoded,
        ),
    decreases x.len() - cursor,
{
    let end = rules.field_window(x, start, from);
    lemma_text_extent(rules, x, start, from, cursor, decoded);
    if cursor < end {
        lemma_separators(rules, x, y, cursor);
        lemma_byte(x, y, cursor);
        lemma_byte(x, y, cursor + 1);
        if rules.text_body(x, start, from, cursor + 1, decoded.push(x[cursor])).extent()
            + rules.margin() <= x.len() {
            lemma_text(rules, x, y, start, from, cursor + 1, decoded.push(x[cursor]));
        }
        let escaped = decoded.push(rules.unescaped(x[cursor + 1]));
        if rules.text_body(x, start, from, cursor + 2, escaped).extent() + rules.margin()
            <= x.len() {
            lemma_text(rules, x, y, start, from, cursor + 2, escaped);
        }
    }
}

proof fn lemma_text_extent(
    rules: Rules,
    x: Seq<u8>,
    start: int,
    from: int,
    cursor: int,
    decoded: Seq<u8>,
)
    requires
        0 <= start <= from <= cursor,
    ensures
        cursor < rules.field_window(x, start, from) ==> cursor <= rules.text_body(
            x,
            start,
            from,
            cursor,
            decoded,
        ).extent(),
        rules.field_window(x, start, from) <= cursor ==> rules.field_window(x, start, from)
            <= rules.text_body(x, start, from, cursor, decoded).extent(),
    decreases x.len() - cursor,
{
    let end = rules.field_window(x, start, from);
    if cursor < end {
        lemma_text_extent(rules, x, start, from, cursor + 1, decoded.push(x[cursor]));
        if cursor + 1 < x.len() {
            lemma_text_extent(
                rules,
                x,
                start,
                from,
                cursor + 2,
                decoded.push(rules.unescaped(x[cursor + 1])),
            );
        }
    }
}

proof fn lemma_content(x: Seq<u8>, y: Seq<u8>, from: int, to: int)
    requires
        begins(y, x),
        0 <= from <= to <= x.len(),
    ensures
        y.subrange(from, to) == x.subrange(from, to),
{
    assert forall|i: int| from <= i < to implies x[i] == y[i] by {
        lemma_byte(x, y, i);
    }
    assert(y.subrange(from, to) =~= x.subrange(from, to));
}

proof fn lemma_checked_step(
    rules: Rules,
    x: Seq<u8>,
    y: Seq<u8>,
    start: int,
    p: int,
    count: int,
    nulls: Nulls,
)
    requires
        begins(y, x),
        0 <= start <= p <= x.len(),
        p < x.len() || y.len() == x.len(),
        rules.checked_step(x, start, p, count, nulls).extent() + rules.margin() <= x.len(),
    ensures
        rules.checked_step(y, start, p, count, nulls) == rules.checked_step(
            x,
            start,
            p,
            count,
            nulls,
        ),
{
    let none = Seq::<u8>::empty();
    if p < x.len() {
        lemma_byte(x, y, p);
    }
    if rules.dialect.escape.unquoted_byte() is None && rules.opens_quoted(x, p) {
        let body = rules.quoted_body(x, start, p + 1, p + 1, none);
        lemma_quoted_body_bounds(rules, x, start, p + 1, p + 1, none);
        if let Body::Closed { bytes, after } = body {
            lemma_skip_padding(rules, x, after);
            if count != rules.limits.max_fields {
                let a = rules.skip_padding(x, after);
                assert(a + rules.margin() <= x.len());
                lemma_padding(rules, x, y, after);
                lemma_separators(rules, x, y, a);
                lemma_byte(x, y, a);
            }
        }
        if count != rules.limits.max_fields {
            lemma_quoted(rules, x, y, start, p + 1, p + 1, none);
        }
    } else {
        lemma_text_body_bounds(rules, x, start, p, p, none);
        lemma_text(rules, x, y, start, p, p, none);
        if let Body::Closed { bytes, after } = rules.text_body(x, start, p, p, none) {
            lemma_separators(rules, x, y, after);
            lemma_byte(x, y, after);
            lemma_byte(x, y, after + 1);
            lemma_content(x, y, p, after);
        }
    }
}

proof fn lemma_field_step(
    rules: Rules,
    x: Seq<u8>,
    y: Seq<u8>,
    start: int,
    p: int,
    count: int,
    nulls: Nulls,
)
    requires
        begins(y, x),
        0 <= start <= p <= x.len(),
        p < x.len() || y.len() == x.len(),
        rules.field_step(x, start, p, count, nulls).extent() + rules.margin() <= x.len(),
    ensures
        rules.field_step(y, start, p, count, nulls) == rules.field_step(x, start, p, count, nulls),
{
    let none = Seq::<u8>::empty();
    if p < x.len() {
        lemma_byte(x, y, p);
    }
    if rules.opens_quoted(x, p) {
        let body = rules.quoted_body(x, start, p + 1, p + 1, none);
        lemma_quoted_body_bounds(rules, x, start, p + 1, p + 1, none);
        if count != rules.limits.max_fields {
            if let Body::Closed { bytes, after } = body {
                lemma_skip_padding(rules, x, after);
                let a = rules.skip_padding(x, after);
                assert(a + rules.margin() <= x.len());
                lemma_padding(rules, x, y, after);
                lemma_byte(x, y, a);
                lemma_byte(x, y, a + 1);
            }
            lemma_quoted(rules, x, y, start, p + 1, p + 1, none);
        }
    } else {
        let x_end = rules.field_window(x, start, p);
        let y_end = rules.field_window(y, start, p);
        let at = first_of(x, p, x_end, rules.unquoted_stops());
        if p <= x_end {
            lemma_first_of(x, p, x_end, rules.unquoted_stops());
            lemma_first(x, y, p, x_end, y_end, rules.unquoted_stops());
            lemma_content(x, y, p, at);
            if at < x_end {
                lemma_byte(x, y, at);
                if at > p {
                    lemma_byte(x, y, at - 1);
                    lemma_content(x, y, p, at - 1);
                }
            }
        }
    }
}

impl Rules {
    /// Whether an outcome that is found at `extent`, in a record that starts at
    /// `start`, is the outcome whatever follows `x`.
    ///
    /// Where a record is too long, the padding behind a closing quote may have
    /// been read far beyond the place where that is found.
    pub open spec fn firm(self, x: Seq<u8>, start: int, extent: int) -> bool {
        &&& extent + self.margin() <= x.len()
        &&& extent - start <= self.limits.max_record_bytes || (
        !self.syntax.permits_post_quote_whitespace() && start + self.limits.max_record_bytes + 1 + 2
            * self.margin() <= x.len())
    }
}

proof fn lemma_quoted_extent(
    rules: Rules,
    x: Seq<u8>,
    start: int,
    content: int,
    cursor: int,
    decoded: Seq<u8>,
)
    requires
        0 <= start <= content <= cursor,
        content <= x.len(),
    ensures
        match rules.quoted_body(x, start, content, cursor, decoded) {
            Body::Closed { after, .. } => after <= start + rules.limits.max_record_bytes + 1,
            Body::Broken { at, .. } => content <= at || at - start > rules.limits.max_record_bytes,
        },
    decreases x.len() - cursor,
{
    let end = rules.field_window(x, start, content);
    let stops = rules.quoted_stops();
    let at = first_of(x, cursor, end, stops);
    if cursor < end {
        lemma_first_of(x, cursor, end, stops);
        if at < end && at + 1 < x.len() {
            let segment = decoded + x.subrange(cursor, at);
            lemma_quoted_extent(rules, x, start, content, at + 2, segment.push(x[at + 1]));
            lemma_quoted_extent(
                rules,
                x,
                start,
                content,
                at + 2,
                segment.push(rules.dialect.quote),
            );
        }
    }
}

proof fn lemma_step_extent(
    rules: Rules,
    x: Seq<u8>,
    start: int,
    p: int,
    count: int,
    nulls: Nulls,
    step: Step,
)
    requires
        0 <= start <= p <= x.len(),
        step == rules.field_step(x, start, p, count, nulls) || step == rules.checked_step(
            x,
            start,
            p,
            count,
            nulls,
        ),
    ensures
        p <= step.extent() || step.extent() - start > rules.limits.max_record_bytes,
        !rules.syntax.permits_post_quote_whitespace() && step is Read ==> step.extent() <= start
            + rules.limits.max_record_bytes + 1 + rules.margin(),
{
    let none = Seq::<u8>::empty();
    if p < x.len() {
        lemma_quoted_extent(rules, x, start, p + 1, p + 1, none);
    }
    lemma_quoted_body_bounds(rules, x, start, p + 1, p + 1, none);
    if let Body::Closed { bytes, after } = rules.quoted_body(x, start, p + 1, p + 1, none) {
        lemma_skip_padding(rules, x, after);
    }
    lemma_text_body_bounds(rules, x, start, p, p, none);
    lemma_text_extent(rules, x, start, p, p, none);
    let end = rules.field_window(x, start, p);
    if p <= end {
        lemma_first_of(x, p, end, rules.unquoted_stops());
    }
}

proof fn lemma_spaces_extent(rules: Rules, x: Seq<u8>, start: int, p: int)
    requires
        0 <= p <= x.len(),
    ensures
        rules.skip_spaces(x, start, p) == p || rules.skip_spaces(x, start, p) <= start
            + rules.limits.max_record_bytes + 1,
        !rules.skip_initial_space ==> rules.skip_spaces(x, start, p) == p,
    decreases x.len() - p,
{
    if rules.skip_initial_space && p < rules.record_window(x, start) && x[p]
        == crate::ascii::SPACE {
        lemma_spaces_extent(rules, x, start, p + 1);
    }
}

proof fn lemma_fields_extent(
    rules: Rules,
    x: Seq<u8>,
    start: int,
    p: int,
    fields: Seq<Field>,
    nulls: Nulls,
    scan: Scan,
)
    requires
        0 <= start <= p <= x.len(),
        scan == rules.read_fields(x, start, p, fields, nulls) || scan == rules.read_checked(
            x,
            start,
            p,
            fields,
            nulls,
        ),
    ensures
        rules.skip_spaces(x, start, p) <= scan.extent() || scan.extent() - start
            > rules.limits.max_record_bytes,
    decreases x.len() - p,
{
    let q = rules.skip_spaces(x, start, p);
    let count = fields.len() as int;
    let plain = rules.field_step(x, start, q, count, nulls);
    let checked = rules.checked_step(x, start, q, count, nulls);
    lemma_skip_spaces(rules, x, start, p);
    lemma_step_extent(rules, x, start, q, count, nulls, plain);
    lemma_step_extent(rules, x, start, q, count, nulls, checked);
    lemma_field_step_bounds(rules, x, start, q, count, nulls);
    lemma_checked_step_bounds(rules, x, start, q, count, nulls);
    if let Step::Read { field, next, last } = plain {
        if !last && p < next <= x.len() {
            lemma_skip_spaces(rules, x, start, next);
            lemma_fields_extent(
                rules,
                x,
                start,
                next,
                fields.push(field),
                nulls,
                rules.read_fields(x, start, next, fields.push(field), nulls),
            );
        }
    }
    if let Step::Read { field, next, last } = checked {
        if !last && p < next <= x.len() {
            lemma_skip_spaces(rules, x, start, next);
            lemma_fields_extent(
                rules,
                x,
                start,
                next,
                fields.push(field),
                nulls,
                rules.read_checked(x, start, next, fields.push(field), nulls),
            );
        }
    }
}

proof fn lemma_fields(
    rules: Rules,
    x: Seq<u8>,
    y: Seq<u8>,
    start: int,
    p: int,
    fields: Seq<Field>,
    nulls: Nulls,
)
    requires
        begins(y, x),
        0 <= start <= p,
        p + rules.margin() <= x.len(),
        rules.firm(x, start, rules.read_fields(x, start, p, fields, nulls).extent()),
    ensures
        rules.read_fields(y, start, p, fields, nulls) == rules.read_fields(
            x,
            start,
            p,
            fields,
            nulls,
        ),
    decreases x.len() - p,
{
    let q = rules.skip_spaces(x, start, p);
    let count = fields.len() as int;
    let step = rules.field_step(x, start, q, count, nulls);
    lemma_skip_spaces(rules, x, start, p);
    lemma_spaces_extent(rules, x, start, p);
    lemma_fields_extent(
        rules,
        x,
        start,
        p,
        fields,
        nulls,
        rules.read_fields(x, start, p, fields, nulls),
    );
    assert(q < x.len());
    lemma_spaces(rules, x, y, start, p);
    if !(rules.skip_initial_space && q - start > rules.limits.max_record_bytes) {
        lemma_step_extent(rules, x, start, q, count, nulls, step);
        lemma_field_step_bounds(rules, x, start, q, count, nulls);
        if let Step::Read { field, next, last } = step {
            if !last {
                lemma_skip_spaces(rules, x, start, next);
                lemma_fields_extent(
                    rules,
                    x,
                    start,
                    next,
                    fields.push(field),
                    nulls,
                    rules.read_fields(x, start, next, fields.push(field), nulls),
                );
                assert(next + rules.margin() <= x.len());
                lemma_fields(rules, x, y, start, next, fields.push(field), nulls);
            }
        }
        lemma_field_step(rules, x, y, start, q, count, nulls);
    }
}

proof fn lemma_checked(
    rules: Rules,
    x: Seq<u8>,
    y: Seq<u8>,
    start: int,
    p: int,
    fields: Seq<Field>,
    nulls: Nulls,
)
    requires
        begins(y, x),
        0 <= start <= p,
        p + rules.margin() <= x.len(),
        rules.firm(x, start, rules.read_checked(x, start, p, fields, nulls).extent()),
    ensures
        rules.read_checked(y, start, p, fields, nulls) == rules.read_checked(
            x,
            start,
            p,
            fields,
            nulls,
        ),
    decreases x.len() - p,
{
    let q = rules.skip_spaces(x, start, p);
    let count = fields.len() as int;
    let step = rules.checked_step(x, start, q, count, nulls);
    lemma_skip_spaces(rules, x, start, p);
    lemma_spaces_extent(rules, x, start, p);
    lemma_fields_extent(
        rules,
        x,
        start,
        p,
        fields,
        nulls,
        rules.read_checked(x, start, p, fields, nulls),
    );
    assert(q < x.len());
    lemma_spaces(rules, x, y, start, p);
    if !(rules.skip_initial_space && q - start > rules.limits.max_record_bytes) {
        lemma_step_extent(rules, x, start, q, count, nulls, step);
        lemma_checked_step_bounds(rules, x, start, q, count, nulls);
        if let Step::Read { field, next, last } = step {
            if !last {
                lemma_skip_spaces(rules, x, start, next);
                lemma_fields_extent(
                    rules,
                    x,
                    start,
                    next,
                    fields.push(field),
                    nulls,
                    rules.read_checked(x, start, next, fields.push(field), nulls),
                );
                assert(next + rules.margin() <= x.len());
                lemma_checked(rules, x, y, start, next, fields.push(field), nulls);
            }
        }
        lemma_checked_step(rules, x, y, start, q, count, nulls);
    }
}

/// What comes of a record that was read well before the end of `x` comes of it
/// in every document that starts with `x`.
pub proof fn law_a_firm_outcome_stays(
    rules: Rules,
    x: Seq<u8>,
    y: Seq<u8>,
    start: int,
    nulls: Nulls,
)
    requires
        begins(y, x),
        0 <= start,
        start + rules.margin() <= x.len(),
        rules.firm(x, start, rules.read_record(x, start, nulls).extent()),
    ensures
        rules.read_record(y, start, nulls) == rules.read_record(x, start, nulls),
{
    if Engine::supports(rules.dialect) {
        lemma_fields(rules, x, y, start, start, Seq::empty(), nulls);
    } else {
        lemma_checked(rules, x, y, start, start, Seq::empty(), nulls);
    }
}

} // verus!
