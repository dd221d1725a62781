//! A record whose separators may have more than one byte is read from its own
//! bytes alone.

use vstd::prelude::*;

use crate::config::{Dialect, Nulls};
use crate::engine::checked::{
    lemma_checked_step_bounds, lemma_text_body_bounds, lemma_text_ends, Mark,
};
use crate::engine::grammar::{Body, Rules, Scan, Step};
use crate::engine::locality::{
    lemma_first_checked, lemma_local_body, lemma_local_spaces_within, same_bytes, shifted,
};
use crate::engine::owned_parser::{
    lemma_quoted_body_bounds, lemma_skip_padding, lemma_skip_spaces,
};
use crate::slice_parser::lemma_checked_reading_ends;
use crate::storage::Field;

verus! {

/// Whether the end of `record` cuts off a delimiter that starts at `at`.
pub open spec fn cuts(dialect: Dialect, record: Seq<u8>, at: int) -> bool {
    let tail = dialect.delimiter_tail.text();
    &&& 0 <= at < record.len()
    &&& record[at] == dialect.delimiter
    &&& at + dialect.delimiter_len() > record.len()
    &&& forall|i: int|
        0 <= i < record.len() - at - 1 ==> record[at + 1 + i] == #[trigger] tail[i]
}

/// Whether no delimiter is cut off by the end of `record`, so that what follows
/// cannot complete one.
pub open spec fn uncut(dialect: Dialect, record: Seq<u8>) -> bool {
    forall|at: int| !#[trigger] cuts(dialect, record, at)
}

impl Dialect {
    /// Whether no delimiter is cut off by the end of `record`.
    pub fn is_uncut(self, record: &[u8]) -> (yes: bool)
        requires
            self.valid(),
        ensures
            yes == uncut(self, record@),
    {
        let tail = self.delimiter_tail.to_vec();
        let ghost all = self.delimiter_tail.text();
        assert(tail@ == all);
        let len: usize = record.len();
        let mut at: usize = if tail.len() < len {
            len - tail.len()
        } else {
            0
        };
        proof {
            assert forall|i: int| i < at implies !#[trigger] cuts(self, record@, i) by {}
        }
        while at < len
            invariant
                len == record@.len(),
                at <= len,
                tail@ == all,
                all == self.delimiter_tail.text(),
                len - at <= tail.len(),
                forall|i: int| i < at ==> !#[trigger] cuts(self, record@, i),
            decreases len - at,
        {
            let mut matched: usize = 0;
            if record[at] == self.delimiter {
                while at + 1 + matched < len && record[at + 1 + matched] == tail[matched]
                    invariant
                        len == record@.len(),
                        at < len,
                        at + 1 + matched <= len,
                        len - at <= tail.len(),
                        tail@ == all,
                        forall|i: int|
                            0 <= i < matched ==> record@[at + 1 + i] == #[trigger] all[i],
                    decreases len - matched,
                {
                    matched += 1;
                }
                if at + 1 + matched == len {
                    assert(cuts(self, record@, at as int));
                    return false;
                }
                assert(record@[at + 1 + matched as int] != all[matched as int]);
            }
            assert(!cuts(self, record@, at as int));
            at += 1;
        }
        assert forall|i: int| !#[trigger] cuts(self, record@, i) by {}
        true
    }
}

/// Whether two documents hold the same record, which more bytes follow in the
/// first, and whose end cuts no delimiter off.
pub open spec fn same_whole(rules: Rules, x: Seq<u8>, a: int, y: Seq<u8>, b: int, n: int) -> bool {
    &&& same_bytes(x, a, y, b, n)
    &&& a + n < x.len()
    &&& uncut(rules.dialect, x.subrange(a, a + n))
}

/// The same delimiters stand in the record.
proof fn lemma_same_delimiters(
    rules: Rules,
    x: Seq<u8>,
    a: int,
    y: Seq<u8>,
    b: int,
    n: int,
    at: int,
)
    requires
        same_whole(rules, x, a, y, b, n),
        a <= at < a + n,
    ensures
        rules.dialect.delimits(x, at) == rules.dialect.delimits(y, at - a + b),
        rules.dialect.delimits(x, at) ==> at + rules.dialect.delimiter_len() <= a + n,
{
    let record = x.subrange(a, a + n);
    let tail = rules.dialect.delimiter_tail.text();
    assert(x[at] == y[at - a + b]);
    assert(!cuts(rules.dialect, record, at - a));
    if at + rules.dialect.delimiter_len() <= a + n {
        assert forall|i: int| 0 <= i < tail.len() implies x[at + 1 + i] == #[trigger] y[at - a + b + 1
            + i] by {
            assert(x[at + 1 + i] == y[(at + 1 + i) - a + b]);
        }
        assert forall|i: int| 0 <= i < tail.len() implies (x[at + 1 + i] == #[trigger] tail[i]) == (
        y[at - a + b + 1 + i] == tail[i]) by {}
    } else {
        if rules.dialect.delimits(x, at) || rules.dialect.delimits(y, at - a + b) {
            assert forall|i: int| 0 <= i < record.len() - (at - a) - 1 implies record[at - a + 1 + i]
                == #[trigger] tail[i] by {
                assert(x[at + 1 + i] == y[(at + 1 + i) - a + b]);
            }
            assert(cuts(rules.dialect, record, at - a));
        }
    }
}

/// The same record endings stand in the record, as far as they end in it.
pub proof fn lemma_same_breaks(
    rules: Rules,
    x: Seq<u8>,
    a: int,
    y: Seq<u8>,
    b: int,
    n: int,
    at: int,
)
    requires
        same_bytes(x, a, y, b, n),
        a <= at,
        at + 1 + rules.dialect.ending_tail.text().len() <= a + n,
    ensures
        rules.dialect.breaks(x, at) == rules.dialect.breaks(y, at - a + b),
{
    let tail = rules.dialect.ending_tail.text();
    assert(x[at] == y[at - a + b]);
    assert forall|i: int| 0 <= i < tail.len() implies (x[at + 1 + i] == #[trigger] tail[i]) == (
    y[at - a + b + 1 + i] == tail[i]) by {
        assert(x[at + 1 + i] == y[(at + 1 + i) - a + b]);
    }
}

/// Where the last single byte of the ending stands of a record that ends at `end`.
pub open spec fn breaking(rules: Rules, end: int) -> int {
    end - 1 - rules.dialect.ending_tail.text().len()
}

/// Whether the record ends with a whole record ending.
pub open spec fn well_ended(rules: Rules, x: Seq<u8>, end: int) -> bool {
    &&& rules.dialect.valid()
    &&& rules.dialect.breaks(x, breaking(rules, end))
}

/// What is marked up to the ending of a record is marked alike elsewhere.
proof fn lemma_same_mark(
    rules: Rules,
    x: Seq<u8>,
    a: int,
    y: Seq<u8>,
    b: int,
    n: int,
    at: int,
)
    requires
        same_whole(rules, x, a, y, b, n),
        well_ended(rules, x, a + n),
        a <= at <= breaking(rules, a + n),
    ensures
        rules.mark(y, at - a + b) == rules.mark(x, at),
{
    assert(x[at] == y[at - a + b]);
    lemma_same_delimiters(rules, x, a, y, b, n, at);
    lemma_same_breaks(rules, x, a, y, b, n, at);
    if at < breaking(rules, a + n) {
        lemma_same_breaks(rules, x, a, y, b, n, at + 1);
        assert(x[at + 1] == y[(at + 1) - a + b]);
    }
}

/// A step that ends its record before the input ends does so with an ending.
proof fn lemma_step_ended(
    rules: Rules,
    x: Seq<u8>,
    a: int,
    p: int,
    count: int,
    nulls: Nulls,
)
    requires
        0 <= a <= p <= x.len(),
    ensures
        rules.checked_step(x, a, p, count, nulls) matches Step::Read { next, last, .. } ==> (last
            && next < x.len() ==> rules.dialect.breaks(x, breaking(rules, next)) && p <= breaking(
            rules,
            next,
        )),
{
    lemma_text_body_bounds(rules, x, a, p, p, Seq::empty());
    lemma_text_ends(rules, x, a, p, p, Seq::empty());
    lemma_quoted_body_bounds(rules, x, a, p + 1, p + 1, Seq::empty());
    if let Body::Closed { bytes, after } = rules.quoted_body(x, a, p + 1, p + 1, Seq::empty()) {
        lemma_skip_padding(rules, x, after);
    }
}

/// A record that ends before the input does ends with an ending.
pub proof fn lemma_reading_ended(
    rules: Rules,
    x: Seq<u8>,
    a: int,
    p: int,
    fields: Seq<Field>,
    nulls: Nulls,
)
    requires
        0 <= a <= p <= x.len(),
    ensures
        rules.read_checked(x, a, p, fields, nulls) matches Scan::Done { next, .. } ==> (next
            < x.len() ==> rules.dialect.breaks(x, breaking(rules, next)) && p <= breaking(
            rules,
            next,
        )),
    decreases x.len() - p,
{
    let q = rules.skip_spaces(x, a, p);
    let count = fields.len() as int;
    lemma_skip_spaces(rules, x, a, p);
    lemma_step_ended(rules, x, a, q, count, nulls);
    lemma_checked_step_bounds(rules, x, a, q, count, nulls);
    if let Step::Read { field, next, last } = rules.checked_step(x, a, q, count, nulls) {
        if !last {
            lemma_reading_ended(rules, x, a, next, fields.push(field), nulls);
        }
    }
}

proof fn lemma_whole_text(
    rules: Rules,
    x: Seq<u8>,
    a: int,
    y: Seq<u8>,
    b: int,
    n: int,
    from: int,
    cursor: int,
    decoded: Seq<u8>,
)
    requires
        same_whole(rules, x, a, y, b, n),
        well_ended(rules, x, a + n),
        a <= from <= cursor <= x.len(),
    ensures
        rules.text_body(x, a, from, cursor, decoded) matches Body::Closed { bytes, after } ==> (
        after <= breaking(rules, a + n) ==> {
            &&& rules.text_body(y, b, from - a + b, cursor - a + b, decoded) == (Body::Closed {
                bytes,
                after: after - a + b,
            })
            &&& rules.mark(y, after - a + b) == rules.mark(x, after)
        }),
    decreases x.len() - cursor,
{
    if let Body::Closed { bytes, after } = rules.text_body(x, a, from, cursor, decoded) {
        if after <= breaking(rules, a + n) {
            lemma_text_body_bounds(rules, x, a, from, cursor, decoded);
            lemma_same_mark(rules, x, a, y, b, n, cursor);
            assert(x[cursor] == y[cursor - a + b]);
            match rules.mark(x, cursor) {
                Mark::Content => {
                    lemma_text_body_bounds(rules, x, a, from, cursor + 1, decoded.push(x[cursor]));
                    lemma_whole_text(
                        rules,
                        x,
                        a,
                        y,
                        b,
                        n,
                        from,
                        cursor + 1,
                        decoded.push(x[cursor]),
                    );
                },
                Mark::Escape => {
                    let more = decoded.push(rules.unescaped(x[cursor + 1]));
                    lemma_text_body_bounds(rules, x, a, from, cursor + 2, more);
                    assert(x[cursor + 1] == y[(cursor + 1) - a + b]);
                    lemma_whole_text(rules, x, a, y, b, n, from, cursor + 2, more);
                },
                _ => {},
            }
        }
    }
}

proof fn lemma_whole_padding(
    rules: Rules,
    x: Seq<u8>,
    a: int,
    y: Seq<u8>,
    b: int,
    n: int,
    after: int,
)
    requires
        same_bytes(x, a, y, b, n),
        a <= after,
        rules.skip_padding(x, after) < a + n,
    ensures
        rules.skip_padding(y, after - a + b) == rules.skip_padding(x, after) - a + b,
    decreases a + n - after,
{
    lemma_skip_padding_from(rules, x, after);
    assert(x[after] == y[after - a + b]);
    if rules.is_padding(x[after]) {
        lemma_whole_padding(rules, x, a, y, b, n, after + 1);
    }
}

proof fn lemma_skip_padding_from(rules: Rules, x: Seq<u8>, after: int)
    ensures
        after <= rules.skip_padding(x, after),
    decreases x.len() - after,
{
    if 0 <= after < x.len() && rules.is_padding(x[after]) {
        lemma_skip_padding_from(rules, x, after + 1);
    }
}

/// A step that stays inside its record is the same step elsewhere.
proof fn lemma_whole_step(
    rules: Rules,
    x: Seq<u8>,
    a: int,
    y: Seq<u8>,
    b: int,
    n: int,
    p: int,
    count: int,
    nulls: Nulls,
)
    requires
        same_whole(rules, x, a, y, b, n),
        well_ended(rules, x, a + n),
        a <= p <= breaking(rules, a + n),
        rules.checked_step(x, a, p, count, nulls) matches Step::Read { next, last, .. } && (if last {
            next == a + n
        } else {
            next <= breaking(rules, a + n)
        }),
    ensures
        rules.checked_step(y, b, p - a + b, count, nulls) == shifted(
            rules.checked_step(x, a, p, count, nulls),
            b - a,
        ),
{
    assert(x[p] == y[p - a + b]);
    lemma_checked_step_bounds(rules, x, a, p, count, nulls);
    lemma_step_ended(rules, x, a, p, count, nulls);
    if rules.dialect.escape.unquoted_byte() is None && rules.opens_quoted(x, p) {
        lemma_quoted_body_bounds(rules, x, a, p + 1, p + 1, Seq::empty());
        if let Body::Closed { bytes, after } = rules.quoted_body(x, a, p + 1, p + 1, Seq::empty()) {
            lemma_skip_padding(rules, x, after);
            let pad = rules.skip_padding(x, after);
            assert(pad < a + n);
            lemma_whole_padding(rules, x, a, y, b, n, after);
            lemma_local_body(rules, x, a, y, b, n, p + 1, p + 1, Seq::empty());
            assert(x[pad] == y[pad - a + b]);
            assert(pad <= breaking(rules, a + n));
            lemma_same_delimiters(rules, x, a, y, b, n, pad);
            lemma_same_breaks(rules, x, a, y, b, n, pad);
            if pad < breaking(rules, a + n) {
                lemma_same_breaks(rules, x, a, y, b, n, pad + 1);
                assert(x[pad + 1] == y[(pad + 1) - a + b]);
            }
        }
    } else {
        lemma_text_body_bounds(rules, x, a, p, p, Seq::empty());
        lemma_text_ends(rules, x, a, p, p, Seq::empty());
        if let Body::Closed { bytes, after } = rules.text_body(x, a, p, p, Seq::empty()) {
            assert(after <= breaking(rules, a + n));
            lemma_whole_text(rules, x, a, y, b, n, p, p, Seq::empty());
            assert(x.subrange(p, after) =~= y.subrange(p - a + b, after - a + b));
        }
    }
}

/// A record that an ending ended, behind which more bytes stand, reads the same
/// wherever its bytes stand, if its end cuts no delimiter off.
#[verifier::spinoff_prover]
#[verifier::rlimit(60)]
pub proof fn law_a_whole_record_is_read_from_its_own_bytes(
    rules: Rules,
    x: Seq<u8>,
    a: int,
    y: Seq<u8>,
    b: int,
    n: int,
    p: int,
    fields: Seq<Field>,
    nulls: Nulls,
)
    requires
        rules.dialect.valid(),
        same_whole(rules, x, a, y, b, n),
        a <= p < a + n,
        rules.read_checked(x, a, p, fields, nulls) matches Scan::Done { next, .. } && next == a + n,
    ensures
        rules.read_checked(y, b, p - a + b, fields, nulls) == (Scan::Done {
            fields: rules.read_checked(x, a, p, fields, nulls)->Done_fields,
            next: b + n,
        }),
    decreases x.len() - p,
{
    let q = rules.skip_spaces(x, a, p);
    let count = fields.len() as int;
    let step = rules.checked_step(x, a, q, count, nulls);
    lemma_skip_spaces(rules, x, a, p);
    lemma_reading_ended(rules, x, a, p, fields, nulls);
    lemma_checked_step_bounds(rules, x, a, q, count, nulls);
    lemma_step_ended(rules, x, a, q, count, nulls);
    lemma_first_checked(rules, x, a, p, q, step, fields, nulls);
    if let Step::Read { field, next, last } = step {
        if !last {
            lemma_checked_reading_ends(rules, x, a, next, fields.push(field), nulls);
            lemma_reading_ended(rules, x, a, next, fields.push(field), nulls);
        }
        assert(q <= breaking(rules, a + n));
        lemma_local_spaces_within(rules, x, a, y, b, n, p);
        lemma_whole_step(rules, x, a, y, b, n, q, count, nulls);
        lemma_first_checked(
            rules,
            y,
            b,
            p - a + b,
            q - a + b,
            shifted(step, b - a),
            fields,
            nulls,
        );
        if !last {
            law_a_whole_record_is_read_from_its_own_bytes(
                rules,
                x,
                a,
                y,
                b,
                n,
                next,
                fields.push(field),
                nulls,
            );
        }
    }
}

} // verus!
