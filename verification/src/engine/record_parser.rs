//! Specialized parsers for well-formed records in common dialects.
//!
//! Each answers `None` for anything out of the ordinary: a malformed record,
//! one that is not complete, one over the standard limits. What it had stored
//! by then is the caller's to discard.

use vstd::prelude::*;

use crate::ascii::{BACKSLASH, COMMA, CR, LF, QUOTE};
use crate::config::Limits;
use crate::engine::grammar::{least, Named, Prefix};
use crate::search::{find1_near, find2_near, find3_near, first_of, lemma_first_of, one_of3};
use crate::storage::{text, Field, RecordStorage};

verus! {

/// Whether `fields` starts with `settled`.
pub open spec fn keeps(settled: Seq<Field>, fields: Seq<Field>) -> bool {
    settled.len() <= fields.len() && fields.take(settled.len() as int) == settled
}

/// What a parser that answered `result` did to its output.
pub open spec fn stored(
    parsed: Option<Prefix>,
    result: Option<(usize, bool)>,
    settled: Seq<Field>,
    output: RecordStorage,
) -> bool {
    &&& output.wf()
    &&& keeps(settled, output.fields())
    &&& match parsed {
        Some(prefix) => {
            &&& result matches Some((at, finished)) && at == prefix.at && finished
                == prefix.finished
            &&& output.fields() == prefix.fields
            &&& output.open_bytes() == Seq::<u8>::empty()
        },
        None => result is None,
    }
}

/// The dialect of default CSV.
pub open spec fn default_csv(check: bool) -> Named {
    Named { delimiter: COMMA, backslash: false, check }
}

/// Whether raw field lengths need to be checked in a window this long.
pub fn window_needs_field_limit(input: &[u8]) -> (needed: bool)
    ensures
        needed == (input@.len() > Limits::standard().max_field_bytes),
{
    input.len() > Limits::standard().max_field_bytes
}

/// The part of the input that the quote-aware parsers look at: all of it.
pub fn structural_input_limit(input: &[u8]) -> (limit: usize)
    ensures
        limit == input@.len(),
{
    input.len()
}

fn finish_default_field(output: &mut RecordStorage) -> (finished: bool)
    requires
        old(output).wf(),
    ensures
        final(output).wf(),
        finished == !Named::full(old(output).fields()),
        finished ==> final(output).fields() == old(output).fields().push(
            text(old(output).open_bytes()),
        ) && final(output).open_bytes() == Seq::<u8>::empty(),
        !finished ==> *final(output) == *old(output),
{
    if output.len() == Limits::standard().max_fields {
        return false;
    }
    output.finish_field();
    true
}

/// Read the quoted field whose opening quote is at `p` in `input[..end]`.
fn parse_quoted_field(
    input: &[u8],
    end: usize,
    p: usize,
    output: &mut RecordStorage,
    named: &Named,
) -> (result: Option<(usize, bool)>)
    requires
        p < end <= input.len(),
        old(output).wf(),
        old(output).open_bytes() == Seq::<u8>::empty(),
    ensures
        final(output).wf(),
        keeps(old(output).fields(), final(output).fields()),
        ({
            let window = input@.take(end as int);
            match named.quoted_field(window, p as int) {
                Some((field, next, last)) => if Named::full(old(output).fields()) {
                    result is None
                } else {
                    &&& result == Some((next as usize, last))
                    &&& p < next <= end
                    &&& final(output).fields() == old(output).fields().push(field)
                    &&& final(output).open_bytes() == Seq::<u8>::empty()
                },
                None => result is None,
            }
        }),
{
    let ghost window = input@.take(end as int);
    let ghost settled = output.fields();
    let content: usize = p + 1;
    let mut cursor: usize = content;
    proof {
        assert(keeps(settled, output.fields())) by {
            assert(settled.take(settled.len() as int) =~= settled);
        }
    }
    loop
        invariant
            p < end <= input.len(),
            content == p + 1,
            content <= cursor <= end,
            window == input@.take(end as int),
            output.wf(),
            output.fields() == settled,
            settled == old(output).fields(),
            keeps(settled, settled),
            !named.too_long(cursor - content),
            named.quoted_body(window, content as int, content as int, Seq::empty())
                == named.quoted_body(window, content as int, cursor as int, output.open_bytes()),
        decreases end - cursor,
    {
        let at: usize = if named.backslash {
            find2_near(QUOTE, BACKSLASH, input, cursor, end)
        } else {
            find1_near(QUOTE, input, cursor, end)
        };
        proof {
            lemma_window_first(input@, end as int, cursor as int, named.quoted_stops());
            lemma_first_of(window, cursor as int, end as int, named.quoted_stops());
        }
        if at == end {
            return None;
        }
        if named.check && at - content > Limits::standard().max_field_bytes {
            return None;
        }
        assert(window.subrange(cursor as int, at as int) =~= input@.subrange(
            cursor as int,
            at as int,
        ));
        output.append_segment(input, cursor, at);
        let byte: u8 = input[at];
        if named.backslash && byte == BACKSLASH {
            if at + 1 >= end {
                return None;
            }
            let escaped: u8 = input[at + 1];
            if escaped != QUOTE && escaped != BACKSLASH {
                return None;
            }
            if named.check && at + 2 - content > Limits::standard().max_field_bytes {
                return None;
            }
            output.push_byte(escaped);
            cursor = at + 2;
            continue;
        }
        if !named.backslash && at + 1 < end && input[at + 1] == QUOTE {
            if named.check && at + 2 - content > Limits::standard().max_field_bytes {
                return None;
            }
            output.push_byte(QUOTE);
            cursor = at + 2;
            continue;
        }
        let ghost before = output.fields();
        if !finish_default_field(output) {
            return None;
        }
        proof {
            assert(output.fields().take(settled.len() as int) =~= settled);
        }
        let after: usize = at + 1;
        if after >= end {
            return None;
        }
        let next: u8 = input[after];
        if next == named.delimiter {
            return Some((after + 1, false));
        }
        if next == LF {
            return Some((after + 1, true));
        }
        if next == CR && after + 1 < end && input[after + 1] == LF {
            return Some((after + 2, true));
        }
        return None;
    }
}

/// Searching a prefix of the input is searching the input up to its end.
proof fn lemma_window_first(input: Seq<u8>, end: int, from: int, stop: spec_fn(u8) -> bool)
    requires
        0 <= from <= end <= input.len(),
    ensures
        first_of(input.take(end), from, end, stop) == first_of(input, from, end, stop),
    decreases end - from,
{
    if from < end && !stop(input[from]) {
        lemma_window_first(input, end, from + 1, stop);
    }
}

/// Read the unquoted field at `p` in `input[..end]`.
fn parse_plain_field(
    input: &[u8],
    end: usize,
    p: usize,
    output: &mut RecordStorage,
    named: &Named,
) -> (result: Option<(usize, bool)>)
    requires
        p < end <= input.len(),
        old(output).wf(),
        old(output).open_bytes() == Seq::<u8>::empty(),
    ensures
        final(output).wf(),
        keeps(old(output).fields(), final(output).fields()),
        ({
            let window = input@.take(end as int);
            match named.plain_field(window, p as int) {
                Some((field, next, last)) => if Named::full(old(output).fields()) {
                    result is None
                } else {
                    &&& result == Some((next as usize, last))
                    &&& p < next <= end
                    &&& final(output).fields() == old(output).fields().push(field)
                    &&& final(output).open_bytes() == Seq::<u8>::empty()
                },
                None => result is None,
            }
        }),
{
    let ghost window = input@.take(end as int);
    let ghost settled = output.fields();
    let at: usize = find3_near(named.delimiter, QUOTE, LF, input, p, end);
    proof {
        let stop = one_of3(named.delimiter, QUOTE, LF);
        lemma_window_first(input@, end as int, p as int, stop);
        lemma_first_of(window, p as int, end as int, stop);
        assert(settled.take(settled.len() as int) =~= settled);
    }
    if at == end {
        return None;
    }
    let byte: u8 = input[at];
    if byte == QUOTE {
        return None;
    }
    let field_end: usize = if byte == LF && at > p && input[at - 1] == CR {
        at - 1
    } else {
        at
    };
    if named.check && field_end - p > Limits::standard().max_field_bytes {
        return None;
    }
    output.append_segment(input, p, field_end);
    proof {
        assert(window.subrange(p as int, field_end as int) =~= input@.subrange(
            p as int,
            field_end as int,
        ));
        assert(output.open_bytes() =~= window.subrange(p as int, field_end as int));
    }
    if !finish_default_field(output) {
        return None;
    }
    proof {
        assert(output.fields().take(settled.len() as int) =~= settled);
    }
    Some((at + 1, byte == LF))
}

/// Read the field at `p` in `input[..end]`.
fn parse_field(
    input: &[u8],
    end: usize,
    p: usize,
    output: &mut RecordStorage,
    named: &Named,
) -> (result: Option<(usize, bool)>)
    requires
        p <= end <= input.len(),
        old(output).wf(),
        old(output).open_bytes() == Seq::<u8>::empty(),
    ensures
        final(output).wf(),
        keeps(old(output).fields(), final(output).fields()),
        ({
            let window = input@.take(end as int);
            match named.field(window, p as int) {
                Some((field, next, last)) => if Named::full(old(output).fields()) {
                    result is None
                } else {
                    &&& result == Some((next as usize, last))
                    &&& p < next <= end
                    &&& final(output).fields() == old(output).fields().push(field)
                    &&& final(output).open_bytes() == Seq::<u8>::empty()
                },
                None => result is None,
            }
        }),
{
    proof {
        let settled = output.fields();
        assert(settled.take(settled.len() as int) =~= settled);
    }
    if p >= end {
        None
    } else if input[p] == QUOTE {
        parse_quoted_field(input, end, p, output, named)
    } else {
        parse_plain_field(input, end, p, output, named)
    }
}

proof fn lemma_keeps_trans(a: Seq<Field>, b: Seq<Field>, c: Seq<Field>)
    requires
        keeps(a, b),
        keeps(b, c),
    ensures
        keeps(a, c),
{
    assert(c.take(a.len() as int) =~= b.take(a.len() as int)) by {
        assert forall|i: int| 0 <= i < a.len() implies c[i] == b[i] by {
            assert(c.take(b.len() as int)[i] == b[i]);
        }
    }
}

fn window_end(input: &[u8]) -> (end: usize)
    ensures
        end == least(input@.len() as int, Limits::standard().max_record_bytes as int),
        end <= input@.len(),
        Named::window(input@) == input@.take(end as int),
{
    if input.len() < Limits::standard().max_record_bytes {
        input.len()
    } else {
        Limits::standard().max_record_bytes
    }
}

/// Read a whole record of a newline-terminated dialect with double quotes.
///
/// Answers how many bytes the record takes, its terminator counted.
pub fn try_parse_named_dialect_record_runtime(
    input: &[u8],
    output: &mut RecordStorage,
    delimiter: u8,
    backslash: bool,
    check_field_limit: bool,
) -> (result: Option<usize>)
    requires
        old(output).wf(),
        old(output).open_bytes() == Seq::<u8>::empty(),
    ensures
        stored(
            (Named { delimiter, backslash, check: check_field_limit }).record(
                Named::window(input@),
                0,
                old(output).fields(),
            ),
            match result {
                Some(consumed) => Some((consumed, true)),
                None => None,
            },
            old(output).fields(),
            *final(output),
        ),
{
    let named = Named { delimiter, backslash, check: check_field_limit };
    let end: usize = window_end(input);
    let ghost window = Named::window(input@);
    let ghost settled = output.fields();
    let mut location: usize = 0;
    proof {
        assert(settled.take(settled.len() as int) =~= settled);
    }
    loop
        invariant
            location <= end <= input.len(),
            window == input@.take(end as int),
            window == Named::window(input@),
            output.wf(),
            output.open_bytes() == Seq::<u8>::empty(),
            settled == old(output).fields(),
            keeps(settled, output.fields()),
            named.record(window, 0, settled) == named.record(
                window,
                location as int,
                output.fields(),
            ),
            named == (Named { delimiter, backslash, check: check_field_limit }),
        decreases end - location,
    {
        let ghost before = output.fields();
        match parse_field(input, end, location, output, &named) {
            None => {
                proof {
                    lemma_keeps_trans(settled, before, output.fields());
                }
                return None;
            },
            Some((next, last)) => {
                proof {
                    lemma_keeps_trans(settled, before, output.fields());
                }
                if last {
                    return Some(next);
                }
                location = next;
            },
        }
    }
}

/// [`try_parse_named_dialect_record_runtime`] for a dialect known beforehand.
pub fn try_parse_named_dialect_record<
    const DELIMITER: u8,
    const BACKSLASH_ESCAPES: bool,
    const CHECK_FIELD_LIMIT: bool,
>(input: &[u8], output: &mut RecordStorage) -> (result: Option<usize>)
    requires
        old(output).wf(),
        old(output).open_bytes() == Seq::<u8>::empty(),
    ensures
        stored(
            (Named {
                delimiter: DELIMITER,
                backslash: BACKSLASH_ESCAPES,
                check: CHECK_FIELD_LIMIT,
            }).record(Named::window(input@), 0, old(output).fields()),
            match result {
                Some(consumed) => Some((consumed, true)),
                None => None,
            },
            old(output).fields(),
            *final(output),
        ),
{
    try_parse_named_dialect_record_runtime(
        input,
        output,
        DELIMITER,
        BACKSLASH_ESCAPES,
        CHECK_FIELD_LIMIT,
    )
}

/// Read a whole record of default CSV.
pub fn try_parse_default_record<const CHECK_FIELD_LIMIT: bool>(
    input: &[u8],
    output: &mut RecordStorage,
) -> (result: Option<usize>)
    requires
        old(output).wf(),
        old(output).open_bytes() == Seq::<u8>::empty(),
    ensures
        stored(
            default_csv(CHECK_FIELD_LIMIT).record(Named::window(input@), 0, old(output).fields()),
            match result {
                Some(consumed) => Some((consumed, true)),
                None => None,
            },
            old(output).fields(),
            *final(output),
        ),
{
    try_parse_named_dialect_record_runtime(input, output, COMMA, false, CHECK_FIELD_LIMIT)
}

/// Read a whole record of default CSV; lengths are checked where they can matter.
pub fn try_parse_default_record_windowed(input: &[u8], output: &mut RecordStorage) -> (result:
    Option<usize>)
    requires
        old(output).wf(),
        old(output).open_bytes() == Seq::<u8>::empty(),
    ensures
        stored(
            default_csv(input@.len() > Limits::standard().max_field_bytes).record(
                Named::window(input@),
                0,
                old(output).fields(),
            ),
            match result {
                Some(consumed) => Some((consumed, true)),
                None => None,
            },
            old(output).fields(),
            *final(output),
        ),
{
    if window_needs_field_limit(input) {
        try_parse_default_record::<true>(input, output)
    } else {
        try_parse_default_record::<false>(input, output)
    }
}

/// [`try_parse_default_record`] with the answer of a prefix parser.
pub fn try_parse_default_record_prefix<const CHECK_FIELD_LIMIT: bool>(
    input: &[u8],
    output: &mut RecordStorage,
) -> (result: Option<(usize, bool)>)
    requires
        old(output).wf(),
        old(output).open_bytes() == Seq::<u8>::empty(),
    ensures
        stored(
            default_csv(CHECK_FIELD_LIMIT).record(Named::window(input@), 0, old(output).fields()),
            result,
            old(output).fields(),
            *final(output),
        ),
        result matches Some((_, finished)) ==> finished,
{
    match try_parse_default_record::<CHECK_FIELD_LIMIT>(input, output) {
        Some(consumed) => Some((consumed, true)),
        None => None,
    }
}

/// Read the leading quoted fields of a default CSV record.
pub fn try_parse_default_quoted_prefix<const CHECK_FIELD_LIMIT: bool>(
    input: &[u8],
    output: &mut RecordStorage,
) -> (result: Option<(usize, bool)>)
    requires
        old(output).wf(),
        old(output).open_bytes() == Seq::<u8>::empty(),
    ensures
        stored(
            default_csv(CHECK_FIELD_LIMIT).quoted_prefix(
                Named::window(input@),
                0,
                old(output).fields(),
            ),
            result,
            old(output).fields(),
            *final(output),
        ),
{
    let named = Named { delimiter: COMMA, backslash: false, check: CHECK_FIELD_LIMIT };
    let end: usize = window_end(input);
    let ghost window = Named::window(input@);
    let ghost settled = output.fields();
    let mut location: usize = 0;
    proof {
        assert(settled.take(settled.len() as int) =~= settled);
    }
    while location < end && input[location] == QUOTE
        invariant
            location <= end <= input.len(),
            window == input@.take(end as int),
            window == Named::window(input@),
            output.wf(),
            output.open_bytes() == Seq::<u8>::empty(),
            settled == old(output).fields(),
            keeps(settled, output.fields()),
            named.quoted_prefix(window, 0, settled) == named.quoted_prefix(
                window,
                location as int,
                output.fields(),
            ),
            named == default_csv(CHECK_FIELD_LIMIT),
        decreases end - location,
    {
        let ghost before = output.fields();
        match parse_quoted_field(input, end, location, output, &named) {
            None => {
                proof {
                    lemma_keeps_trans(settled, before, output.fields());
                }
                return None;
            },
            Some((next, last)) => {
                proof {
                    lemma_keeps_trans(settled, before, output.fields());
                }
                if last {
                    return Some((next, true));
                }
                location = next;
            },
        }
    }
    Some((location, false))
}

/// Read the unquoted fields at the head of a default CSV record, and the
/// quoted one after them.
pub fn try_parse_default_interior_prefix<const CHECK_FIELD_LIMIT: bool>(
    input: &[u8],
    output: &mut RecordStorage,
) -> (result: Option<(usize, bool)>)
    requires
        old(output).wf(),
        old(output).open_bytes() == Seq::<u8>::empty(),
    ensures
        stored(
            default_csv(CHECK_FIELD_LIMIT).interior_prefix(
                Named::window(input@),
                0,
                old(output).fields(),
            ),
            result,
            old(output).fields(),
            *final(output),
        ),
{
    let named = Named { delimiter: COMMA, backslash: false, check: CHECK_FIELD_LIMIT };
    let end: usize = window_end(input);
    let ghost window = Named::window(input@);
    let ghost settled = output.fields();
    let mut location: usize = 0;
    proof {
        assert(settled.take(settled.len() as int) =~= settled);
    }
    loop
        invariant
            location <= end <= input.len(),
            window == input@.take(end as int),
            window == Named::window(input@),
            output.wf(),
            output.open_bytes() == Seq::<u8>::empty(),
            settled == old(output).fields(),
            keeps(settled, output.fields()),
            named.interior_prefix(window, 0, settled) == named.interior_prefix(
                window,
                location as int,
                output.fields(),
            ),
            named == default_csv(CHECK_FIELD_LIMIT),
        decreases end - location,
    {
        let ghost before = output.fields();
        let quoted = location < end && input[location] == QUOTE;
        match parse_field(input, end, location, output, &named) {
            None => {
                proof {
                    lemma_keeps_trans(settled, before, output.fields());
                }
                return None;
            },
            Some((next, last)) => {
                proof {
                    lemma_keeps_trans(settled, before, output.fields());
                }
                if last || quoted {
                    return Some((next, last));
                }
                location = next;
            },
        }
    }
}

/// [`try_parse_default_interior_prefix`]; lengths are checked where they can matter.
pub fn try_parse_default_interior_prefix_windowed(
    input: &[u8],
    output: &mut RecordStorage,
) -> (result: Option<(usize, bool)>)
    requires
        old(output).wf(),
        old(output).open_bytes() == Seq::<u8>::empty(),
    ensures
        stored(
            default_csv(input@.len() > Limits::standard().max_field_bytes).interior_prefix(
                Named::window(input@),
                0,
                old(output).fields(),
            ),
            result,
            old(output).fields(),
            *final(output),
        ),
{
    if window_needs_field_limit(input) {
        try_parse_default_interior_prefix::<true>(input, output)
    } else {
        try_parse_default_interior_prefix::<false>(input, output)
    }
}

/// Read a whole record of default CSV over what the output held before.
pub fn try_parse_default_quoted_record_structural<const CHECK_FIELD_LIMIT: bool>(
    input: &[u8],
    output: &mut RecordStorage,
) -> (result: Option<(usize, bool)>)
    ensures
        stored(
            default_csv(CHECK_FIELD_LIMIT).record(Named::window(input@), 0, Seq::empty()),
            result,
            Seq::empty(),
            *final(output),
        ),
{
    output.clear_fields();
    try_parse_default_record_prefix::<CHECK_FIELD_LIMIT>(input, output)
}

/// Read a whole record of default CSV after what the output held before.
pub fn try_parse_default_quoted_record_structural_appending<const CHECK_FIELD_LIMIT: bool>(
    input: &[u8],
    output: &mut RecordStorage,
) -> (result: Option<(usize, bool)>)
    requires
        old(output).wf(),
        old(output).open_bytes() == Seq::<u8>::empty(),
    ensures
        stored(
            default_csv(CHECK_FIELD_LIMIT).record(Named::window(input@), 0, old(output).fields()),
            result,
            old(output).fields(),
            *final(output),
        ),
{
    try_parse_default_record_prefix::<CHECK_FIELD_LIMIT>(input, output)
}

/// Read a whole record of default CSV after what the output held before;
/// lengths are checked where they can matter.
pub fn try_parse_default_quoted_record_structural_windowed(
    input: &[u8],
    output: &mut RecordStorage,
) -> (result: Option<(usize, bool)>)
    requires
        old(output).wf(),
        old(output).open_bytes() == Seq::<u8>::empty(),
    ensures
        stored(
            default_csv(input@.len() > Limits::standard().max_field_bytes).record(
                Named::window(input@),
                0,
                old(output).fields(),
            ),
            result,
            old(output).fields(),
            *final(output),
        ),
{
    if window_needs_field_limit(input) {
        try_parse_default_quoted_record_structural_appending::<true>(input, output)
    } else {
        try_parse_default_quoted_record_structural_appending::<false>(input, output)
    }
}

/// Whether `byte` is one of the three structural bytes.
pub open spec fn is_structural(byte: u8, delimiter: u8, quote: u8, record_ending: u8) -> bool {
    byte == delimiter || byte == quote || byte == record_ending
}

/// How many structural bytes there are.
pub open spec fn structurals(input: Seq<u8>, delimiter: u8, quote: u8, record_ending: u8) -> nat
    decreases input.len(),
{
    if input.len() == 0 {
        0
    } else {
        structurals(input.drop_last(), delimiter, quote, record_ending) + (if is_structural(
            input.last(),
            delimiter,
            quote,
            record_ending,
        ) {
            1nat
        } else {
            0nat
        })
    }
}

/// Count the structural bytes.
pub fn count_structurals_scalar(input: &[u8], delimiter: u8, quote: u8, record_ending: u8) -> (count:
    usize)
    ensures
        count == structurals(input@, delimiter, quote, record_ending),
{
    let mut count: usize = 0;
    let mut at: usize = 0;
    while at < input.len()
        invariant
            at <= input.len(),
            count <= at,
            count == structurals(input@.take(at as int), delimiter, quote, record_ending),
        decreases input.len() - at,
    {
        assert(input@.take(at + 1).drop_last() =~= input@.take(at as int));
        let byte: u8 = input[at];
        if byte == delimiter || byte == quote || byte == record_ending {
            count += 1;
        }
        at += 1;
    }
    assert(input@.take(at as int) =~= input@);
    count
}

/// A quoted field ends inside the bytes it was read from.
pub proof fn lemma_body_bounds(
    named: Named,
    input: Seq<u8>,
    content: int,
    cursor: int,
    decoded: Seq<u8>,
)
    ensures
        named.quoted_body(input, content, cursor, decoded) matches Some((_, after)) ==> cursor
            < after <= input.len(),
    decreases input.len() - cursor,
{
    let at = first_of(input, cursor, input.len() as int, named.quoted_stops());
    if 0 <= cursor <= input.len() {
        lemma_first_of(input, cursor, input.len() as int, named.quoted_stops());
        if at < input.len() && at + 1 < input.len() {
            let segment = decoded + input.subrange(cursor, at);
            lemma_body_bounds(named, input, content, at + 2, segment.push(input[at + 1]));
            lemma_body_bounds(named, input, content, at + 2, segment.push(QUOTE));
        }
    }
}

/// A field takes at least one byte and ends inside the bytes it was read from.
pub proof fn lemma_field_bounds(named: Named, input: Seq<u8>, p: int)
    requires
        0 <= p,
    ensures
        named.field(input, p) matches Some((_, next, _)) ==> p < next <= input.len(),
        p < input.len() ==> (named.quoted_field(input, p) matches Some((_, next, _)) ==> p < next
            <= input.len()),
{
    if p < input.len() {
        lemma_body_bounds(named, input, p + 1, p + 1, Seq::empty());
        lemma_first_of(
            input,
            p,
            input.len() as int,
            one_of3(named.delimiter, QUOTE, LF),
        );
    }
}

/// A record ends inside the bytes it was read from.
pub proof fn lemma_record_bounds(named: Named, input: Seq<u8>, p: int, fields: Seq<Field>)
    requires
        0 <= p,
    ensures
        named.record(input, p, fields) matches Some(prefix) ==> p < prefix.at <= input.len(),
    decreases input.len() - p,
{
    lemma_field_bounds(named, input, p);
    if let Some((field, next, last)) = named.field(input, p) {
        if !last {
            lemma_record_bounds(named, input, next, fields.push(field));
        }
    }
}

/// Leading quoted fields end inside the bytes they were read from.
pub proof fn lemma_quoted_prefix_bounds(named: Named, input: Seq<u8>, p: int, fields: Seq<Field>)
    requires
        0 <= p <= input.len(),
    ensures
        named.quoted_prefix(input, p, fields) matches Some(prefix) ==> p <= prefix.at
            <= input.len(),
        p < input.len() && input[p] == QUOTE ==> (named.quoted_prefix(
            input,
            p,
            fields,
        ) matches Some(prefix) ==> p < prefix.at),
    decreases input.len() - p,
{
    lemma_field_bounds(named, input, p);
    if p < input.len() && input[p] == QUOTE {
        if let Some((field, next, last)) = named.quoted_field(input, p) {
            if !last {
                lemma_quoted_prefix_bounds(named, input, next, fields.push(field));
            }
        }
    }
}

/// A prefix with its first quoted field ends inside the bytes it was read from.
pub proof fn lemma_interior_prefix_bounds(named: Named, input: Seq<u8>, p: int, fields: Seq<Field>)
    requires
        0 <= p,
    ensures
        named.interior_prefix(input, p, fields) matches Some(prefix) ==> p < prefix.at
            <= input.len(),
    decreases input.len() - p,
{
    lemma_field_bounds(named, input, p);
    if let Some((field, next, last)) = named.field(input, p) {
        if !last && input[p] != QUOTE {
            lemma_interior_prefix_bounds(named, input, next, fields.push(field));
        }
    }
}

} // verus!
