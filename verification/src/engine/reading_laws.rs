//! What the bytes of a record say, and that this is what is read.

use vstd::prelude::*;

use crate::config::{Dialect, Escape, Nulls, RecordEnding};
use crate::engine::checked::{lemma_text_body_bounds, Mark};
use crate::engine::grammar::{Body, Rules, Scan, Step};
use crate::engine::Engine;
use crate::search::{first_of, lemma_first_of};
use crate::storage::{null_field, text, Field};

verus! {

/// Whether bytes stand in `input` at `at`.
pub open spec fn are_at(input: Seq<u8>, at: int, bytes: Seq<u8>) -> bool {
    0 <= at && at + bytes.len() <= input.len() && input.subrange(at, at + bytes.len()) == bytes
}

/// What separates fields.
pub open spec fn delimiter_of(dialect: Dialect) -> Seq<u8> {
    seq![dialect.delimiter] + dialect.delimiter_tail.text()
}

/// What ends records: a line feed or the chosen byte, and what belongs to it.
pub open spec fn ending_of(dialect: Dialect) -> Seq<u8> {
    (match dialect.record_ending {
        RecordEnding::Byte(byte) => seq![byte],
        _ => seq![10u8],
    }) + dialect.ending_tail.text()
}

/// How many bytes of a record ending stand at `at`, none if no ending does: a
/// line feed may have a carriage return before it, or must, where that is asked
/// for.
pub open spec fn ending_size(dialect: Dialect, input: Seq<u8>, at: int) -> int {
    let ending = ending_of(dialect);
    if are_at(input, at, ending) && !(dialect.record_ending is CrLf) {
        ending.len() as int
    } else if are_at(input, at, seq![13u8] + ending) && !(dialect.record_ending is Byte) {
        1 + ending.len() as int
    } else {
        0
    }
}

/// The byte that gives the next one another meaning, in formats that do not
/// quote.
pub open spec fn escape_of(dialect: Dialect) -> Option<u8> {
    match dialect.escape {
        Escape::Mysql => Some(92),
        Escape::Unquoted(byte) => Some(byte),
        _ => None,
    }
}

/// What a byte stands for behind the escape byte of a format that does not
/// quote: itself, or what MySQL's letter stands for.
pub open spec fn escaped(dialect: Dialect, byte: u8) -> u8 {
    if !(dialect.escape is Mysql) {
        byte
    } else if byte == 48 {
        0
    } else if byte == 98 {
        8
    } else if byte == 116 {
        9
    } else if byte == 110 {
        10
    } else if byte == 114 {
        13
    } else if byte == 90 {
        26
    } else {
        byte
    }
}

/// Whether the byte at `at` stands for itself in a field without quotes: no
/// delimiter and no record ending starts there, it is no half of a line ending
/// where only whole ones are accepted, and no quote where one must not stand.
pub open spec fn is_content(rules: Rules, input: Seq<u8>, at: int) -> bool {
    &&& !are_at(input, at, delimiter_of(rules.dialect))
    &&& ending_size(rules.dialect, input, at) == 0
    &&& rules.dialect.record_ending is CrLf ==> input[at] != 13 && input[at] != 10
    &&& rules.syntax.quoting_enabled() && !rules.syntax.permits_unquoted_quotes() ==> input[at]
        != rules.dialect.quote
}

/// Whether the bytes from `from` to `to`, without quotes around them, say
/// `bytes`.
pub open spec fn says(rules: Rules, input: Seq<u8>, from: int, to: int, bytes: Seq<u8>) -> bool
    decreases to - from,
{
    if from >= to {
        from == to && bytes.len() == 0
    } else if escape_of(rules.dialect) == Some(input[from]) {
        &&& from + 2 <= to
        &&& bytes.len() > 0
        &&& bytes[0] == escaped(rules.dialect, input[from + 1])
        &&& says(rules, input, from + 2, to, bytes.skip(1))
    } else {
        &&& is_content(rules, input, from)
        &&& bytes.len() > 0
        &&& bytes[0] == input[from]
        &&& says(rules, input, from + 1, to, bytes.skip(1))
    }
}

/// The byte before a quote that is content of a quoted field: the escape byte,
/// or another quote.
pub open spec fn guard_of(dialect: Dialect) -> u8 {
    match dialect.escape {
        Escape::Backslash(escape) => escape,
        _ => dialect.quote,
    }
}

/// Whether a byte may follow the guard: a quote, the guard itself, or any byte
/// where any may be escaped.
pub open spec fn may_be_guarded(rules: Rules, byte: u8) -> bool {
    ||| byte == rules.dialect.quote
    ||| rules.dialect.escape is Backslash && byte == guard_of(rules.dialect)
    ||| rules.dialect.escape is Backslash && rules.syntax.permits_any_backslash_escape()
}

/// Whether the bytes from `from` to `to`, between quotes, say `bytes`.
pub open spec fn encloses(
    rules: Rules,
    input: Seq<u8>,
    from: int,
    to: int,
    bytes: Seq<u8>,
) -> bool
    decreases to - from,
{
    if from >= to {
        from == to && bytes.len() == 0
    } else if input[from] == guard_of(rules.dialect) {
        &&& from + 2 <= to
        &&& may_be_guarded(rules, input[from + 1])
        &&& bytes.len() > 0
        &&& bytes[0] == input[from + 1]
        &&& encloses(rules, input, from + 2, to, bytes.skip(1))
    } else {
        &&& input[from] != rules.dialect.quote
        &&& bytes.len() > 0
        &&& bytes[0] == input[from]
        &&& encloses(rules, input, from + 1, to, bytes.skip(1))
    }
}

/// Whether the bytes of a field without quotes stand for a NULL.
pub open spec fn says_null(nulls: Nulls, bytes: Seq<u8>) -> bool {
    match nulls {
        Nulls::Disabled => false,
        Nulls::PostgresCsv => bytes.len() == 0,
        Nulls::Mysql => bytes == seq![92u8, 78u8],
    }
}

/// Whether the field at `at` is one in quotes.
pub open spec fn is_quoted(rules: Rules, input: Seq<u8>, at: int) -> bool {
    &&& at < input.len()
    &&& input[at] == rules.dialect.quote
    &&& rules.syntax.quoting_enabled()
    &&& escape_of(rules.dialect) is None
}

/// Whether a byte is a space or a tab that may stand behind a closing quote, and
/// nothing that ends the field.
pub open spec fn is_ignored(rules: Rules, byte: u8) -> bool {
    &&& rules.syntax.permits_post_quote_whitespace()
    &&& byte == 32 || byte == 9
    &&& byte != rules.dialect.delimiter
    &&& rules.dialect.record_ending != RecordEnding::Byte(byte)
}

/// Whether the bytes from `from` to `at` are spaces that are skipped, all there
/// are.
pub open spec fn are_skipped(rules: Rules, input: Seq<u8>, from: int, at: int) -> bool {
    &&& from < at ==> rules.skip_initial_space
    &&& forall|i: int| from <= i < at ==> #[trigger] input[i] == 32
    &&& rules.skip_initial_space && at < input.len() ==> input[at] != 32
}

/// Whether the bytes from `at` to `end` are a field, its closing quote, if it has
/// one, at `close`.
pub open spec fn is_spelled(
    rules: Rules,
    input: Seq<u8>,
    at: int,
    close: int,
    end: int,
    field: Field,
    nulls: Nulls,
) -> bool {
    if is_quoted(rules, input, at) {
        &&& at < close < end
        &&& encloses(rules, input, at + 1, close, field.bytes)
        &&& input[close] == rules.dialect.quote
        &&& !(rules.dialect.escape is Backslash) && close + 1 < input.len() ==> input[close + 1]
            != rules.dialect.quote
        &&& forall|i: int| close < i < end ==> is_ignored(rules, #[trigger] input[i])
        &&& !field.null
    } else {
        &&& field.null == says_null(nulls, input.subrange(at, end))
        &&& !field.null ==> says(rules, input, at, end, field.bytes)
        &&& field.null ==> field.bytes.len() == 0 && exists|bytes: Seq<u8>| #[trigger]
            says(rules, input, at, end, bytes)
    }
}

/// Whether the bytes from `end` to `to` end a field: a delimiter, or a record
/// ending or the end of the input, if it is the last one.
pub open spec fn is_ended(rules: Rules, input: Seq<u8>, end: int, to: int, last: bool) -> bool {
    if last {
        to == end + ending_size(rules.dialect, input, end) && (to == end ==> end == input.len())
    } else {
        are_at(input, end, delimiter_of(rules.dialect)) && to == end + delimiter_of(
            rules.dialect,
        ).len()
    }
}

/// Whether the bytes from `from` to `to` are a field and what ends it: spaces
/// that are skipped up to `at`, the field up to `end`, its closing quote, if it
/// has one, at `close`, and then what ends it.
pub open spec fn parts(
    rules: Rules,
    input: Seq<u8>,
    from: int,
    at: int,
    close: int,
    end: int,
    to: int,
    field: Field,
    nulls: Nulls,
    last: bool,
) -> bool {
    &&& 0 <= from <= at <= end <= to <= input.len()
    &&& are_skipped(rules, input, from, at)
    &&& is_spelled(rules, input, at, close, end, field, nulls)
    &&& is_ended(rules, input, end, to, last)
}

/// Whether the bytes from `from` to `to` are this field and what ends it.
pub open spec fn is_field(
    rules: Rules,
    input: Seq<u8>,
    from: int,
    to: int,
    field: Field,
    nulls: Nulls,
    last: bool,
) -> bool {
    exists|at: int, close: int, end: int| #[trigger]
        parts(rules, input, from, at, close, end, to, field, nulls, last)
}

/// Whether field `index` of a record is what stands between two of its cuts.
pub open spec fn is_cut(
    rules: Rules,
    input: Seq<u8>,
    cuts: Seq<int>,
    fields: Seq<Field>,
    nulls: Nulls,
    index: int,
) -> bool {
    is_field(
        rules,
        input,
        cuts[index],
        cuts[index + 1],
        fields[index],
        nulls,
        index == fields.len() - 1,
    )
}

/// Whether a record from `from` to `to` can be cut like this into its fields.
pub open spec fn is_cut_up(
    rules: Rules,
    input: Seq<u8>,
    from: int,
    to: int,
    cuts: Seq<int>,
    fields: Seq<Field>,
    nulls: Nulls,
) -> bool {
    &&& fields.len() > 0
    &&& cuts.len() == fields.len() + 1
    &&& cuts[0] == from
    &&& cuts[fields.len() as int] == to
    &&& forall|i: int|
        0 <= i < fields.len() ==> #[trigger] is_cut(rules, input, cuts, fields, nulls, i)
}

/// Whether the bytes from `from` to `to` are a record of these fields: the
/// fields one behind the other, a delimiter behind each but the last, and a
/// record ending or the end of the input behind that.
pub open spec fn is_record(
    rules: Rules,
    input: Seq<u8>,
    from: int,
    to: int,
    fields: Seq<Field>,
    nulls: Nulls,
) -> bool {
    exists|cuts: Seq<int>| #[trigger] is_cut_up(rules, input, from, to, cuts, fields, nulls)
}

proof fn lemma_are_at(input: Seq<u8>, at: int, byte: u8, tail: Seq<u8>)
    ensures
        are_at(input, at, seq![byte] + tail) == (0 <= at < input.len() && input[at] == byte
            && are_at(input, at + 1, tail)),
{
    let bytes = seq![byte] + tail;
    assert(bytes[0] == byte);
    assert(bytes.skip(1) =~= tail);
    if 0 <= at && at + bytes.len() <= input.len() {
        let part = input.subrange(at, at + bytes.len());
        assert(part[0] == input[at]);
        assert(part.skip(1) =~= input.subrange(at + 1, at + 1 + tail.len()));
        if input[at] == byte && are_at(input, at + 1, tail) {
            assert(part =~= seq![byte] + part.skip(1));
        }
    }
}

proof fn lemma_tail(tail: crate::config::Tail, input: Seq<u8>, at: int)
    ensures
        tail.stands_at(input, at) == are_at(input, at, tail.text()),
{
    let bytes = tail.text();
    if 0 <= at && at + bytes.len() <= input.len() {
        let part = input.subrange(at, at + bytes.len());
        if tail.stands_at(input, at) {
            assert(part =~= bytes);
        }
        if part == bytes {
            assert forall|i: int| 0 <= i < bytes.len() implies input[at + i] == #[trigger] bytes[i] by {
                assert(part[i] == bytes[i]);
            }
        }
    }
}

/// A delimiter and a record ending stand where they are found to stand.
pub proof fn lemma_separators(dialect: Dialect, input: Seq<u8>, at: int)
    ensures
        dialect.delimits(input, at) == are_at(input, at, delimiter_of(dialect)),
        dialect.breaks(input, at) == are_at(input, at, ending_of(dialect)),
        dialect.breaks_crlf(input, at) == (!(dialect.record_ending is Byte) && are_at(
            input,
            at,
            seq![13u8] + ending_of(dialect),
        )),
        dialect.break_len(input, at) == ending_size(dialect, input, at),
        dialect.delimiter_len() == delimiter_of(dialect).len(),
{
    lemma_are_at(input, at, dialect.delimiter, dialect.delimiter_tail.text());
    lemma_tail(dialect.delimiter_tail, input, at + 1);
    let byte = match dialect.record_ending {
        RecordEnding::Byte(byte) => byte,
        _ => 10u8,
    };
    assert(ending_of(dialect) =~= seq![byte] + dialect.ending_tail.text());
    lemma_are_at(input, at, byte, dialect.ending_tail.text());
    lemma_tail(dialect.ending_tail, input, at + 1);
    lemma_are_at(input, at, 13u8, ending_of(dialect));
    lemma_are_at(input, at + 1, byte, dialect.ending_tail.text());
    lemma_tail(dialect.ending_tail, input, at + 2);
}

proof fn lemma_encloses_run(
    rules: Rules,
    input: Seq<u8>,
    from: int,
    mid: int,
    to: int,
    bytes: Seq<u8>,
)
    requires
        0 <= from <= mid <= to <= input.len(),
        forall|i: int|
            from <= i < mid ==> #[trigger] input[i] != rules.dialect.quote && input[i] != guard_of(
                rules.dialect,
            ),
        encloses(rules, input, mid, to, bytes),
    ensures
        encloses(rules, input, from, to, input.subrange(from, mid) + bytes),
    decreases mid - from,
{
    let all = input.subrange(from, mid) + bytes;
    if from < mid {
        lemma_encloses_run(rules, input, from + 1, mid, to, bytes);
        assert(all[0] == input[from]);
        assert(all.skip(1) =~= input.subrange(from + 1, mid) + bytes);
    } else {
        assert(all =~= bytes);
    }
}

proof fn lemma_encloses_len(rules: Rules, input: Seq<u8>, from: int, to: int, bytes: Seq<u8>)
    requires
        encloses(rules, input, from, to, bytes),
    ensures
        bytes.len() <= to - from,
    decreases to - from,
{
    if from < to {
        if input[from] == guard_of(rules.dialect) {
            lemma_encloses_len(rules, input, from + 2, to, bytes.skip(1));
        } else {
            lemma_encloses_len(rules, input, from + 1, to, bytes.skip(1));
        }
    }
}

/// What is read between quotes is what stands there.
proof fn lemma_body(
    rules: Rules,
    input: Seq<u8>,
    start: int,
    content: int,
    cursor: int,
    decoded: Seq<u8>,
)
    requires
        rules.dialect.valid(),
        0 <= start <= content <= cursor,
    ensures
        rules.quoted_body(input, start, content, cursor, decoded) matches Body::Closed {
            bytes,
            after,
        } ==> {
            &&& cursor < after <= input.len()
            &&& decoded.len() <= bytes.len()
            &&& bytes.take(decoded.len() as int) == decoded
            &&& encloses(rules, input, cursor, after - 1, bytes.skip(decoded.len() as int))
            &&& input[after - 1] == rules.dialect.quote
            &&& !(rules.dialect.escape is Backslash) && after < input.len() ==> input[after]
                != rules.dialect.quote
            &&& after - 1 < rules.field_window(input, start, content)
        },
    decreases input.len() - cursor,
{
    let end = rules.field_window(input, start, content);
    let at = first_of(input, cursor, end, rules.quoted_stops());
    if cursor < end {
        lemma_first_of(input, cursor, end, rules.quoted_stops());
        if at < end {
            let run = input.subrange(cursor, at);
            let segment = decoded + run;
            let n = decoded.len() as int;
            let quote = rules.dialect.quote;
            let guard = guard_of(rules.dialect);
            assert forall|i: int| cursor <= i < at implies #[trigger] input[i] != quote && input[i]
                != guard by {
                assert(!rules.quoted_stops()(input[i]));
            }
            assert(rules.quoted_stops()(input[at]));
            assert(segment.take(n) =~= decoded);
            let goes_on = match rules.dialect.escape {
                Escape::Backslash(escape) => input[at] == escape && at + 1 < input.len()
                    && may_be_guarded(rules, input[at + 1]),
                _ => at + 1 < input.len() && input[at + 1] == quote,
            };
            if goes_on {
                let byte = input[at + 1];
                lemma_body(rules, input, start, content, at + 2, segment.push(byte));
                if let Body::Closed { bytes, after } = rules.quoted_body(
                    input,
                    start,
                    content,
                    at + 2,
                    segment.push(byte),
                ) {
                    let m = n + run.len() + 1;
                    let rest = bytes.skip(m);
                    let here = seq![byte] + rest;
                    assert(bytes.take(m) == segment.push(byte));
                    assert(bytes.take(n) =~= bytes.take(m).take(n));
                    assert(segment.push(byte).take(n) =~= decoded);
                    assert(bytes.skip(n) =~= run + here) by {
                        assert forall|i: int| 0 <= i < bytes.len() - n implies bytes.skip(n)[i]
                            == (run + here)[i] by {
                            if i <= run.len() {
                                assert(bytes[n + i] == bytes.take(m)[n + i]);
                            }
                        }
                    }
                    assert(here[0] == byte);
                    assert(here.skip(1) =~= rest);
                    assert(encloses(rules, input, at, after - 1, here));
                    lemma_encloses_run(rules, input, cursor, at, after - 1, here);
                }
            } else if input[at] == quote {
                assert(segment.skip(n) =~= run + Seq::<u8>::empty());
                lemma_encloses_run(rules, input, cursor, at, at, Seq::empty());
            }
        }
    }
}

/// What is read of text is what stands there.
proof fn lemma_text(
    rules: Rules,
    input: Seq<u8>,
    start: int,
    from: int,
    cursor: int,
    decoded: Seq<u8>,
)
    requires
        rules.dialect.valid(),
        0 <= start <= from <= cursor <= input.len(),
    ensures
        rules.text_body(input, start, from, cursor, decoded) matches Body::Closed {
            bytes,
            after,
        } ==> {
            &&& cursor <= after <= input.len()
            &&& decoded.len() <= bytes.len() <= decoded.len() + (after - cursor)
            &&& bytes.take(decoded.len() as int) == decoded
            &&& says(rules, input, cursor, after, bytes.skip(decoded.len() as int))
            &&& after - from <= rules.limits.max_field_bytes
            &&& after < input.len() ==> {
                ||| rules.mark(input, after) is Delimiter
                ||| rules.mark(input, after) is Ending
                ||| rules.mark(input, after) is CrLf
            }
        },
    decreases input.len() - cursor,
{
    let end = rules.field_window(input, start, from);
    let n = decoded.len() as int;
    if cursor < end {
        lemma_separators(rules.dialect, input, cursor);
        match rules.mark(input, cursor) {
            Mark::Content => {
                let more = decoded.push(input[cursor]);
                lemma_text(rules, input, start, from, cursor + 1, more);
                if let Body::Closed { bytes, after } = rules.text_body(
                    input,
                    start,
                    from,
                    cursor + 1,
                    more,
                ) {
                    assert(bytes.take(n) =~= bytes.take(n + 1).take(n));
                    assert(more.take(n) =~= decoded);
                    assert(bytes[n] == bytes.take(n + 1)[n]);
                    assert(bytes.skip(n).skip(1) =~= bytes.skip(n + 1));
                }
            },
            Mark::Escape => {
                let more = decoded.push(rules.unescaped(input[cursor + 1]));
                lemma_text(rules, input, start, from, cursor + 2, more);
                if let Body::Closed { bytes, after } = rules.text_body(
                    input,
                    start,
                    from,
                    cursor + 2,
                    more,
                ) {
                    assert(bytes.take(n) =~= bytes.take(n + 1).take(n));
                    assert(more.take(n) =~= decoded);
                    assert(bytes[n] == bytes.take(n + 1)[n]);
                    assert(bytes.skip(n).skip(1) =~= bytes.skip(n + 1));
                }
            },
            _ => {
                assert(decoded.take(n) =~= decoded);
                assert(decoded.skip(n).len() == 0);
            },
        }
    } else {
        assert(decoded.take(n) =~= decoded);
        assert(decoded.skip(n).len() == 0);
    }
}

proof fn lemma_says_run(rules: Rules, input: Seq<u8>, from: int, to: int)
    requires
        0 <= from <= to <= input.len(),
        escape_of(rules.dialect) is None,
        forall|i: int| from <= i < to ==> #[trigger] is_content(rules, input, i),
    ensures
        says(rules, input, from, to, input.subrange(from, to)),
    decreases to - from,
{
    if from < to {
        assert(is_content(rules, input, from));
        lemma_says_run(rules, input, from + 1, to);
        assert(input.subrange(from, to).skip(1) =~= input.subrange(from + 1, to));
    }
}

proof fn lemma_spaces(rules: Rules, input: Seq<u8>, start: int, p: int)
    requires
        0 <= start <= p <= input.len(),
    ensures
        ({
            let q = rules.skip_spaces(input, start, p);
            &&& p <= q <= input.len()
            &&& p < q ==> rules.skip_initial_space
            &&& forall|i: int| p <= i < q ==> #[trigger] input[i] == 32
            &&& rules.skip_initial_space && q < input.len() && q - start
                <= rules.limits.max_record_bytes ==> input[q] != 32
        }),
    decreases input.len() - p,
{
    if rules.skip_initial_space && p < rules.record_window(input, start) && input[p] == 32 {
        lemma_spaces(rules, input, start, p + 1);
    }
}

proof fn lemma_padding(rules: Rules, input: Seq<u8>, after: int)
    requires
        0 <= after <= input.len(),
    ensures
        ({
            let end = rules.skip_padding(input, after);
            &&& after <= end <= input.len()
            &&& forall|i: int| after <= i < end ==> is_ignored(rules, #[trigger] input[i])
        }),
    decreases input.len() - after,
{
    if after < input.len() && rules.is_padding(input[after]) {
        lemma_padding(rules, input, after + 1);
    }
}

/// Whether a field that was read is what stands there, and within the limits.
pub open spec fn step_holds(
    rules: Rules,
    input: Seq<u8>,
    start: int,
    p: int,
    count: int,
    nulls: Nulls,
    step: Step,
) -> bool {
    step matches Step::Read { field, next, last } ==> {
        &&& p <= next <= input.len()
        &&& !last ==> p < next
        &&& is_field(rules, input, p, next, field, nulls, last)
        &&& count != rules.limits.max_fields
        &&& field.bytes.len() <= rules.limits.max_field_bytes
        &&& last ==> next - start <= rules.limits.max_record_bytes
    }
}

proof fn lemma_single_bytes(dialect: Dialect)
    requires
        Engine::supports(dialect),
    ensures
        dialect.delimiter_tail.text() == Seq::<u8>::empty(),
        dialect.ending_tail.text() == Seq::<u8>::empty(),
        delimiter_of(dialect) == seq![dialect.delimiter],
        ending_of(dialect) == seq![dialect.record_ending.byte()],
{
    assert(dialect.delimiter_tail.text() =~= Seq::<u8>::empty());
    assert(dialect.ending_tail.text() =~= Seq::<u8>::empty());
    assert(delimiter_of(dialect) =~= seq![dialect.delimiter]);
    assert(ending_of(dialect) =~= seq![dialect.record_ending.byte()]);
}

proof fn lemma_single_at(input: Seq<u8>, at: int, byte: u8)
    ensures
        are_at(input, at, seq![byte]) == (0 <= at < input.len() && input[at] == byte),
{
    let nothing = Seq::<u8>::empty();
    assert(seq![byte] + nothing =~= seq![byte]);
    lemma_are_at(input, at, byte, nothing);
    if 0 <= at < input.len() {
        assert(input.subrange(at + 1, at + 1) =~= nothing);
    }
}

/// Where single bytes separate, what is found is what those bytes say.
proof fn lemma_single(dialect: Dialect, input: Seq<u8>, at: int)
    requires
        Engine::supports(dialect),
        0 <= at < input.len(),
    ensures
        are_at(input, at, delimiter_of(dialect)) == (input[at] == dialect.delimiter),
        ending_size(dialect, input, at) == if input[at] == dialect.record_ending.byte() {
            1int
        } else if dialect.record_ending is Newline && input[at] == 13 && at + 1 < input.len()
            && input[at + 1] == 10 {
            2int
        } else {
            0int
        },
        delimiter_of(dialect).len() == 1,
{
    lemma_single_bytes(dialect);
    lemma_single_at(input, at, dialect.delimiter);
    lemma_single_at(input, at, dialect.record_ending.byte());
    lemma_are_at(input, at, 13u8, ending_of(dialect));
    lemma_single_at(input, at + 1, dialect.record_ending.byte());
}

proof fn lemma_past_the_end(dialect: Dialect, input: Seq<u8>)
    ensures
        ending_size(dialect, input, input.len() as int) == 0,
{
    let byte = match dialect.record_ending {
        RecordEnding::Byte(byte) => byte,
        _ => 10u8,
    };
    assert(ending_of(dialect) =~= seq![byte] + dialect.ending_tail.text());
}

#[verifier::spinoff_prover]
#[verifier::rlimit(40)]
proof fn lemma_unquoted_step(
    rules: Rules,
    input: Seq<u8>,
    start: int,
    p: int,
    count: int,
    nulls: Nulls,
)
    requires
        rules.dialect.valid(),
        Engine::supports(rules.dialect),
        0 <= start <= p <= input.len(),
        !rules.opens_quoted(input, p),
        rules.skip_initial_space && p < input.len() ==> input[p] != 32,
    ensures
        step_holds(
            rules,
            input,
            start,
            p,
            count,
            nulls,
            rules.unquoted_step(input, start, p, count, nulls),
        ),
{
    let step = rules.unquoted_step(input, start, p, count, nulls);
    let end = rules.field_window(input, start, p);
    let at = first_of(input, p, end, rules.unquoted_stops());
    if let Step::Read { field, next, last } = step {
        assert(p <= end);
        lemma_first_of(input, p, end, rules.unquoted_stops());
        let stop = if at == end {
            end
        } else {
            rules.unquoted_end(input, p, at)
        };
        assert(p <= stop <= at <= end);
        assert forall|i: int| p <= i < stop implies #[trigger] is_content(rules, input, i) by {
            lemma_single(rules.dialect, input, i);
            assert(!rules.unquoted_stops()(input[i]));
            if i + 1 < at {
                assert(!rules.unquoted_stops()(input[i + 1]));
            }
        }
        lemma_says_run(rules, input, p, stop);
        if at == end {
            assert(end == input.len());
            lemma_past_the_end(rules.dialect, input);
        } else {
            assert(rules.unquoted_stops()(input[at]));
            lemma_single(rules.dialect, input, at);
            if stop < at {
                lemma_single(rules.dialect, input, stop);
            }
        }
        assert(input.subrange(p, stop).len() == stop - p);
        if field.null {
            assert(says(rules, input, p, stop, input.subrange(p, stop)));
        }
        assert(parts(rules, input, p, p, p, stop, next, field, nulls, last));
    }
}

#[verifier::spinoff_prover]
#[verifier::rlimit(40)]
proof fn lemma_quoted_step(
    rules: Rules,
    input: Seq<u8>,
    start: int,
    p: int,
    count: int,
    nulls: Nulls,
    step: Step,
)
    requires
        rules.dialect.valid(),
        0 <= start <= p <= input.len(),
        rules.opens_quoted(input, p),
        escape_of(rules.dialect) is None,
        rules.skip_initial_space ==> input[p] != 32,
        count != rules.limits.max_fields,
        rules.quoted_body(input, start, p + 1, p + 1, Seq::empty()) matches Body::Closed {
            bytes,
            after,
        } && (step == rules.finish_checked(input, start, after, count + 1, text(bytes)) || (
        Engine::supports(rules.dialect) && step == rules.finish_quoted(
            input,
            start,
            after,
            count + 1,
            text(bytes),
        ))),
    ensures
        step_holds(rules, input, start, p, count, nulls, step),
{
    lemma_body(rules, input, start, p + 1, p + 1, Seq::empty());
    if let Body::Closed { bytes, after } = rules.quoted_body(
        input,
        start,
        p + 1,
        p + 1,
        Seq::empty(),
    ) {
        assert(bytes.skip(0) =~= bytes);
        lemma_encloses_len(rules, input, p + 1, after - 1, bytes);
        lemma_padding(rules, input, after);
        let end = rules.skip_padding(input, after);
        if end < input.len() {
            lemma_separators(rules.dialect, input, end);
            if Engine::supports(rules.dialect) {
                lemma_single(rules.dialect, input, end);
            }
        } else {
            lemma_past_the_end(rules.dialect, input);
        }
        if let Step::Read { field, next, last } = step {
            assert(parts(rules, input, p, p, after - 1, end, next, field, nulls, last));
        }
    }
}

proof fn lemma_text_step(
    rules: Rules,
    input: Seq<u8>,
    start: int,
    p: int,
    count: int,
    nulls: Nulls,
)
    requires
        rules.dialect.valid(),
        0 <= start <= p <= input.len(),
        !(rules.dialect.escape.unquoted_byte() is None && rules.opens_quoted(input, p)),
        rules.skip_initial_space && p < input.len() ==> input[p] != 32,
    ensures
        step_holds(
            rules,
            input,
            start,
            p,
            count,
            nulls,
            rules.text_step(input, start, p, count, nulls),
        ),
{
    lemma_text(rules, input, start, p, p, Seq::empty());
    if let Body::Closed { bytes, after } = rules.text_body(input, start, p, p, Seq::empty()) {
        lemma_text_body_bounds(rules, input, start, p, p, Seq::empty());
        assert(bytes.skip(0) =~= bytes);
        if after < input.len() {
            lemma_separators(rules.dialect, input, after);
        } else {
            lemma_past_the_end(rules.dialect, input);
        }
        if let Step::Read { field, next, last } = rules.text_step(input, start, p, count, nulls) {
            assert(says(rules, input, p, after, bytes));
            assert(parts(rules, input, p, p, p, after, next, field, nulls, last));
        }
    }
}

proof fn lemma_lead(
    rules: Rules,
    input: Seq<u8>,
    from: int,
    at: int,
    to: int,
    field: Field,
    nulls: Nulls,
    last: bool,
)
    requires
        0 <= from <= at,
        from < at ==> rules.skip_initial_space,
        forall|i: int| from <= i < at ==> #[trigger] input[i] == 32,
        is_field(rules, input, at, to, field, nulls, last),
    ensures
        is_field(rules, input, from, to, field, nulls, last),
{
    let (q, close, end) = choose|q: int, close: int, end: int| #[trigger]
        parts(rules, input, at, q, close, end, to, field, nulls, last);
    assert(are_skipped(rules, input, from, q));
    assert(parts(rules, input, from, q, close, end, to, field, nulls, last));
}

/// One more field before a record makes a record.
proof fn lemma_one_before(
    rules: Rules,
    input: Seq<u8>,
    from: int,
    mid: int,
    to: int,
    field: Field,
    fields: Seq<Field>,
    nulls: Nulls,
)
    requires
        is_field(rules, input, from, mid, field, nulls, false),
        is_record(rules, input, mid, to, fields, nulls),
    ensures
        is_record(rules, input, from, to, seq![field] + fields, nulls),
{
    let cuts = choose|cuts: Seq<int>| #[trigger]
        is_cut_up(rules, input, mid, to, cuts, fields, nulls);
    let all = seq![field] + fields;
    let more = seq![from] + cuts;
    assert forall|i: int| 0 <= i < all.len() implies #[trigger] is_cut(
        rules,
        input,
        more,
        all,
        nulls,
        i,
    ) by {
        if i > 0 {
            assert(is_cut(rules, input, cuts, fields, nulls, i - 1));
            assert(more[i] == cuts[i - 1]);
            assert(more[i + 1] == cuts[i]);
            assert(all[i] == fields[i - 1]);
        } else {
            assert(more[1] == cuts[0]);
        }
    }
    assert(is_cut_up(rules, input, from, to, more, all, nulls));
}

proof fn lemma_one_field(
    rules: Rules,
    input: Seq<u8>,
    from: int,
    to: int,
    field: Field,
    nulls: Nulls,
)
    requires
        is_field(rules, input, from, to, field, nulls, true),
    ensures
        is_record(rules, input, from, to, seq![field], nulls),
{
    let cuts = seq![from, to];
    let fields = seq![field];
    assert(is_cut(rules, input, cuts, fields, nulls, 0));
    assert(is_cut_up(rules, input, from, to, cuts, fields, nulls));
}

/// Whether a record that was read, after these fields, is what stands there, and
/// within the limits.
pub open spec fn scan_holds(
    rules: Rules,
    input: Seq<u8>,
    start: int,
    p: int,
    fields: Seq<Field>,
    nulls: Nulls,
    scan: Scan,
) -> bool {
    scan matches Scan::Done { fields: all, next } ==> {
        let n = fields.len() as int;
        &&& n < all.len() <= rules.limits.max_fields
        &&& all.take(n) == fields
        &&& is_record(rules, input, p, next, all.skip(n), nulls)
        &&& next - start <= rules.limits.max_record_bytes
        &&& forall|i: int|
            n <= i < all.len() ==> (#[trigger] all[i]).bytes.len() <= rules.limits.max_field_bytes
    }
}

proof fn lemma_scan_goes_on(
    rules: Rules,
    input: Seq<u8>,
    start: int,
    p: int,
    next: int,
    fields: Seq<Field>,
    field: Field,
    nulls: Nulls,
    scan: Scan,
)
    requires
        is_field(rules, input, p, next, field, nulls, false),
        field.bytes.len() <= rules.limits.max_field_bytes,
        scan_holds(rules, input, start, next, fields.push(field), nulls, scan),
    ensures
        scan_holds(rules, input, start, p, fields, nulls, scan),
{
    if let Scan::Done { fields: all, next: end } = scan {
        let n = fields.len() as int;
        assert(all.take(n) =~= all.take(n + 1).take(n));
        assert(fields.push(field).take(n) =~= fields);
        assert(all[n] == all.take(n + 1)[n]);
        lemma_one_before(rules, input, p, next, end, field, all.skip(n + 1), nulls);
        assert(all.skip(n) =~= seq![field] + all.skip(n + 1));
    }
}

proof fn lemma_scan_ends(
    rules: Rules,
    input: Seq<u8>,
    start: int,
    p: int,
    next: int,
    fields: Seq<Field>,
    field: Field,
    nulls: Nulls,
)
    requires
        is_field(rules, input, p, next, field, nulls, true),
        field.bytes.len() <= rules.limits.max_field_bytes,
        next - start <= rules.limits.max_record_bytes,
        fields.len() < rules.limits.max_fields,
    ensures
        scan_holds(
            rules,
            input,
            start,
            p,
            fields,
            nulls,
            (Scan::Done { fields: fields.push(field), next }),
        ),
{
    let all = fields.push(field);
    let n = fields.len() as int;
    assert(all.take(n) =~= fields);
    assert(all.skip(n) =~= seq![field]);
    lemma_one_field(rules, input, p, next, field, nulls);
}

/// Fields that are read one by one are what stands there, and within the limits.
pub proof fn lemma_fields_hold(
    rules: Rules,
    input: Seq<u8>,
    start: int,
    p: int,
    fields: Seq<Field>,
    nulls: Nulls,
)
    requires
        rules.dialect.valid(),
        Engine::supports(rules.dialect),
        0 <= start <= p <= input.len(),
        fields.len() <= rules.limits.max_fields,
    ensures
        scan_holds(
            rules,
            input,
            start,
            p,
            fields,
            nulls,
            rules.read_fields(input, start, p, fields, nulls),
        ),
    decreases input.len() - p,
{
    let q = rules.skip_spaces(input, start, p);
    let count = fields.len() as int;
    lemma_spaces(rules, input, start, p);
    if !(rules.skip_initial_space && q - start > rules.limits.max_record_bytes) {
        let step = rules.field_step(input, start, q, count, nulls);
        if rules.opens_quoted(input, q) {
            if count != rules.limits.max_fields {
                if rules.quoted_body(input, start, q + 1, q + 1, Seq::empty()) is Closed {
                    lemma_quoted_step(rules, input, start, q, count, nulls, step);
                }
            }
        } else {
            lemma_unquoted_step(rules, input, start, q, count, nulls);
        }
        if let Step::Read { field, next, last } = step {
            lemma_lead(rules, input, p, q, next, field, nulls, last);
            if last {
                lemma_scan_ends(rules, input, start, p, next, fields, field, nulls);
            } else {
                lemma_fields_hold(rules, input, start, next, fields.push(field), nulls);
                let scan = rules.read_fields(input, start, next, fields.push(field), nulls);
                lemma_scan_goes_on(rules, input, start, p, next, fields, field, nulls, scan);
            }
        }
    }
}

proof fn lemma_checked_fields_hold(
    rules: Rules,
    input: Seq<u8>,
    start: int,
    p: int,
    fields: Seq<Field>,
    nulls: Nulls,
)
    requires
        rules.dialect.valid(),
        0 <= start <= p <= input.len(),
        fields.len() <= rules.limits.max_fields,
    ensures
        scan_holds(
            rules,
            input,
            start,
            p,
            fields,
            nulls,
            rules.read_checked(input, start, p, fields, nulls),
        ),
    decreases input.len() - p,
{
    let q = rules.skip_spaces(input, start, p);
    let count = fields.len() as int;
    lemma_spaces(rules, input, start, p);
    if !(rules.skip_initial_space && q - start > rules.limits.max_record_bytes) {
        let step = rules.checked_step(input, start, q, count, nulls);
        if rules.dialect.escape.unquoted_byte() is None && rules.opens_quoted(input, q) {
            if count != rules.limits.max_fields {
                if rules.quoted_body(input, start, q + 1, q + 1, Seq::empty()) is Closed {
                    lemma_quoted_step(rules, input, start, q, count, nulls, step);
                }
            }
        } else {
            lemma_text_step(rules, input, start, q, count, nulls);
        }
        if let Step::Read { field, next, last } = step {
            lemma_lead(rules, input, p, q, next, field, nulls, last);
            if last {
                lemma_scan_ends(rules, input, start, p, next, fields, field, nulls);
            } else {
                lemma_checked_fields_hold(rules, input, start, next, fields.push(field), nulls);
                let scan = rules.read_checked(input, start, next, fields.push(field), nulls);
                lemma_scan_goes_on(rules, input, start, p, next, fields, field, nulls, scan);
            }
        }
    }
}

/// A record that is read is what its bytes say: its fields are what stands
/// between the delimiters, in quotes or not, and it ends with a record ending, of
/// which no field has a byte, or with the input.
pub proof fn law_a_record_is_what_its_bytes_say(
    rules: Rules,
    input: Seq<u8>,
    start: int,
    nulls: Nulls,
)
    requires
        rules.dialect.valid(),
        0 <= start <= input.len(),
    ensures
        rules.read_record(input, start, nulls) matches Scan::Done { fields, next } ==> is_record(
            rules,
            input,
            start,
            next,
            fields,
            nulls,
        ),
{
    let none = Seq::<Field>::empty();
    if Engine::supports(rules.dialect) {
        lemma_fields_hold(rules, input, start, start, none, nulls);
    } else {
        lemma_checked_fields_hold(rules, input, start, start, none, nulls);
    }
    if let Scan::Done { fields, next } = rules.read_record(input, start, nulls) {
        assert(fields.skip(0) =~= fields);
    }
}

/// A record that is read is within the limits: on its bytes, on its fields and
/// on the bytes of each of them.
pub proof fn law_a_record_is_within_its_limits(
    rules: Rules,
    input: Seq<u8>,
    start: int,
    nulls: Nulls,
)
    requires
        rules.dialect.valid(),
        0 <= start <= input.len(),
    ensures
        rules.read_record(input, start, nulls) matches Scan::Done { fields, next } ==> {
            &&& 1 <= fields.len() <= rules.limits.max_fields
            &&& next - start <= rules.limits.max_record_bytes
            &&& forall|i: int|
                0 <= i < fields.len() ==> (#[trigger] fields[i]).bytes.len()
                    <= rules.limits.max_field_bytes
        },
{
    let none = Seq::<Field>::empty();
    if Engine::supports(rules.dialect) {
        lemma_fields_hold(rules, input, start, start, none, nulls);
    } else {
        lemma_checked_fields_hold(rules, input, start, start, none, nulls);
    }
}

proof fn lemma_encloses_rest(
    rules: Rules,
    input: Seq<u8>,
    from: int,
    mid: int,
    to: int,
    bytes: Seq<u8>,
)
    requires
        0 <= from <= mid <= to <= input.len(),
        forall|i: int|
            from <= i < mid ==> #[trigger] input[i] != rules.dialect.quote && input[i] != guard_of(
                rules.dialect,
            ),
        encloses(rules, input, from, to, bytes),
    ensures
        mid - from <= bytes.len(),
        bytes.take(mid - from) == input.subrange(from, mid),
        encloses(rules, input, mid, to, bytes.skip(mid - from)),
    decreases mid - from,
{
    if from < mid {
        let rest = bytes.skip(1);
        lemma_encloses_rest(rules, input, from + 1, mid, to, rest);
        assert(bytes.skip(mid - from) =~= rest.skip(mid - from - 1));
        assert(bytes.take(mid - from) =~= seq![bytes[0]] + rest.take(mid - from - 1));
        assert(input.subrange(from, mid) =~= seq![input[from]] + input.subrange(from + 1, mid));
    } else {
        assert(bytes.skip(0) =~= bytes);
        assert(bytes.take(0) =~= input.subrange(from, mid));
    }
}

/// What stands between quotes is what is read there.
proof fn lemma_body_is_read(
    rules: Rules,
    input: Seq<u8>,
    start: int,
    content: int,
    cursor: int,
    decoded: Seq<u8>,
    close: int,
    bytes: Seq<u8>,
)
    requires
        rules.dialect.valid(),
        0 <= start <= content <= cursor <= close < rules.field_window(input, start, content),
        encloses(rules, input, cursor, close, bytes),
        input[close] == rules.dialect.quote,
        !(rules.dialect.escape is Backslash) && close + 1 < input.len() ==> input[close + 1]
            != rules.dialect.quote,
    ensures
        rules.quoted_body(input, start, content, cursor, decoded) == (Body::Closed {
            bytes: decoded + bytes,
            after: close + 1,
        }),
    decreases close - cursor,
{
    let end = rules.field_window(input, start, content);
    let at = first_of(input, cursor, end, rules.quoted_stops());
    let quote = rules.dialect.quote;
    let guard = guard_of(rules.dialect);
    lemma_first_of(input, cursor, end, rules.quoted_stops());
    if at > close {
        assert(!rules.quoted_stops()(input[close]));
    }
    assert forall|i: int| cursor <= i < at implies #[trigger] input[i] != quote && input[i]
        != guard by {
        assert(!rules.quoted_stops()(input[i]));
    }
    assert(rules.quoted_stops()(input[at]));
    lemma_encloses_rest(rules, input, cursor, at, close, bytes);
    let run = input.subrange(cursor, at);
    let rest = bytes.skip(at - cursor);
    let segment = decoded + run;
    if at < close {
        let byte = input[at + 1];
        let more = rest.skip(1);
        assert(input[at] == guard);
        lemma_body_is_read(
            rules,
            input,
            start,
            content,
            at + 2,
            segment.push(byte),
            close,
            more,
        );
        assert(segment.push(byte) + more =~= decoded + bytes) by {
            assert(bytes =~= run + (seq![byte] + more));
        }
    } else {
        assert(bytes =~= run + rest);
        assert(segment =~= decoded + bytes);
    }
}

/// What text says is what is read of it.
proof fn lemma_text_is_read(
    rules: Rules,
    input: Seq<u8>,
    start: int,
    from: int,
    cursor: int,
    decoded: Seq<u8>,
    end: int,
    bytes: Seq<u8>,
)
    requires
        rules.dialect.valid(),
        0 <= start <= from <= cursor <= end <= rules.field_window(input, start, from)
            <= input.len(),
        end - from <= rules.limits.max_field_bytes,
        end - start <= rules.limits.max_record_bytes,
        says(rules, input, cursor, end, bytes),
        end < input.len() ==> end < rules.field_window(input, start, from) && {
            ||| rules.mark(input, end) is Delimiter
            ||| rules.mark(input, end) is Ending
            ||| rules.mark(input, end) is CrLf
        },
    ensures
        rules.text_body(input, start, from, cursor, decoded) == (Body::Closed {
            bytes: decoded + bytes,
            after: end,
        }),
    decreases end - cursor,
{
    if cursor < end {
        lemma_separators(rules.dialect, input, cursor);
        let rest = bytes.skip(1);
        if escape_of(rules.dialect) == Some(input[cursor]) {
            assert(rules.mark(input, cursor) is Escape);
            let more = decoded.push(rules.unescaped(input[cursor + 1]));
            lemma_text_is_read(rules, input, start, from, cursor + 2, more, end, rest);
            assert(more + rest =~= decoded + bytes);
        } else {
            assert(rules.mark(input, cursor) is Content);
            let more = decoded.push(input[cursor]);
            lemma_text_is_read(rules, input, start, from, cursor + 1, more, end, rest);
            assert(more + rest =~= decoded + bytes);
        }
    } else {
        assert(decoded + bytes =~= decoded);
    }
}

proof fn lemma_says_itself(rules: Rules, input: Seq<u8>, from: int, to: int, bytes: Seq<u8>)
    requires
        0 <= from <= to <= input.len(),
        escape_of(rules.dialect) is None,
        says(rules, input, from, to, bytes),
    ensures
        bytes == input.subrange(from, to),
        forall|i: int| from <= i < to ==> #[trigger] is_content(rules, input, i),
    decreases to - from,
{
    if from < to {
        lemma_says_itself(rules, input, from + 1, to, bytes.skip(1));
        assert(bytes =~= seq![bytes[0]] + bytes.skip(1));
        assert(input.subrange(from, to) =~= seq![input[from]] + input.subrange(from + 1, to));
        assert forall|i: int| from <= i < to implies #[trigger] is_content(rules, input, i) by {
            if i > from {
                assert(from + 1 <= i < to);
            }
        }
    } else {
        assert(bytes =~= input.subrange(from, to));
    }
}

/// Whether a field from `from` to `to`, what ends it counted, is short enough for
/// every limit.
pub open spec fn is_short(rules: Rules, start: int, from: int, to: int, count: int) -> bool {
    &&& to - from <= rules.limits.max_field_bytes
    &&& to - start <= rules.limits.max_record_bytes
    &&& count < rules.limits.max_fields
}

proof fn lemma_padding_is_skipped(rules: Rules, input: Seq<u8>, after: int, end: int)
    requires
        0 <= after <= end <= input.len(),
        forall|i: int| after <= i < end ==> is_ignored(rules, #[trigger] input[i]),
        end < input.len() ==> !rules.is_padding(input[end]),
    ensures
        rules.skip_padding(input, after) == end,
    decreases end - after,
{
    if after < end {
        assert(is_ignored(rules, input[after]));
        lemma_padding_is_skipped(rules, input, after + 1, end);
    }
}

proof fn lemma_spaces_are_skipped(rules: Rules, input: Seq<u8>, start: int, p: int, at: int)
    requires
        0 <= start <= p <= at <= input.len(),
        at - start <= rules.limits.max_record_bytes,
        are_skipped(rules, input, p, at),
    ensures
        rules.skip_spaces(input, start, p) == at,
    decreases at - p,
{
    if p < at {
        assert(input[p] == 32);
        lemma_spaces_are_skipped(rules, input, start, p + 1, at);
    }
}

#[verifier::spinoff_prover]
#[verifier::rlimit(40)]
proof fn lemma_quoted_is_read(
    rules: Rules,
    input: Seq<u8>,
    start: int,
    at: int,
    close: int,
    end: int,
    to: int,
    field: Field,
    nulls: Nulls,
    last: bool,
    count: int,
)
    requires
        rules.dialect.valid(),
        is_short(rules, start, at, to, count),
        0 <= start <= at,
        parts(rules, input, at, at, close, end, to, field, nulls, last),
        is_quoted(rules, input, at),
    ensures
        rules.checked_step(input, start, at, count, nulls) == (Step::Read {
            field,
            next: to,
            last,
        }),
        Engine::supports(rules.dialect) ==> rules.field_step(input, start, at, count, nulls) == (
        Step::Read { field, next: to, last }),
{
    let none = Seq::<u8>::empty();
    lemma_body_is_read(rules, input, start, at + 1, at + 1, none, close, field.bytes);
    assert(none + field.bytes =~= field.bytes);
    assert(field == text(field.bytes));
    if end < input.len() {
        lemma_separators(rules.dialect, input, end);
        if Engine::supports(rules.dialect) {
            lemma_single(rules.dialect, input, end);
        }
        let byte = match rules.dialect.record_ending {
            RecordEnding::Byte(byte) => byte,
            _ => 10u8,
        };
        assert(ending_of(rules.dialect) =~= seq![byte] + rules.dialect.ending_tail.text());
        lemma_are_at(input, end, byte, rules.dialect.ending_tail.text());
        lemma_are_at(input, end, 13u8, ending_of(rules.dialect));
        lemma_are_at(
            input,
            end,
            rules.dialect.delimiter,
            rules.dialect.delimiter_tail.text(),
        );
    } else {
        lemma_past_the_end(rules.dialect, input);
    }
    lemma_padding_is_skipped(rules, input, close + 1, end);
}

#[verifier::spinoff_prover]
#[verifier::rlimit(40)]
proof fn lemma_text_field_is_read(
    rules: Rules,
    input: Seq<u8>,
    start: int,
    at: int,
    close: int,
    end: int,
    to: int,
    field: Field,
    nulls: Nulls,
    last: bool,
    count: int,
)
    requires
        rules.dialect.valid(),
        is_short(rules, start, at, to, count),
        0 <= start <= at,
        parts(rules, input, at, at, close, end, to, field, nulls, last),
        !is_quoted(rules, input, at),
    ensures
        rules.checked_step(input, start, at, count, nulls) == (Step::Read {
            field,
            next: to,
            last,
        }),
{
    let none = Seq::<u8>::empty();
    let bytes = if field.null {
        choose|bytes: Seq<u8>| #[trigger] says(rules, input, at, end, bytes)
    } else {
        field.bytes
    };
    if end < input.len() {
        lemma_separators(rules.dialect, input, end);
        let byte = match rules.dialect.record_ending {
            RecordEnding::Byte(byte) => byte,
            _ => 10u8,
        };
        assert(ending_of(rules.dialect) =~= seq![byte] + rules.dialect.ending_tail.text());
        lemma_are_at(input, end, byte, rules.dialect.ending_tail.text());
        lemma_are_at(input, end, 13u8, ending_of(rules.dialect));
        lemma_are_at(
            input,
            end,
            rules.dialect.delimiter,
            rules.dialect.delimiter_tail.text(),
        );
    } else {
        lemma_past_the_end(rules.dialect, input);
    }
    lemma_text_is_read(rules, input, start, at, at, none, end, bytes);
    assert(none + bytes =~= bytes);
    if field.null {
        assert(field.bytes =~= none);
        assert(field == null_field());
    } else {
        assert(field == text(bytes));
    }
}

#[verifier::spinoff_prover]
#[verifier::rlimit(40)]
proof fn lemma_unquoted_is_read(
    rules: Rules,
    input: Seq<u8>,
    start: int,
    at: int,
    close: int,
    end: int,
    to: int,
    field: Field,
    nulls: Nulls,
    last: bool,
    count: int,
)
    requires
        rules.dialect.valid(),
        Engine::supports(rules.dialect),
        is_short(rules, start, at, to, count),
        0 <= start <= at,
        parts(rules, input, at, at, close, end, to, field, nulls, last),
        !is_quoted(rules, input, at),
    ensures
        rules.field_step(input, start, at, count, nulls) == (Step::Read { field, next: to, last }),
{
    let bytes = if field.null {
        choose|bytes: Seq<u8>| #[trigger] says(rules, input, at, end, bytes)
    } else {
        field.bytes
    };
    lemma_says_itself(rules, input, at, end, bytes);
    let window = rules.field_window(input, start, at);
    assert(to <= window);
    assert forall|i: int| at <= i < end implies !rules.unquoted_stops()(#[trigger] input[i]) by {
        assert(is_content(rules, input, i));
        lemma_single(rules.dialect, input, i);
    }
    if end > at {
        assert(is_content(rules, input, end - 1));
        lemma_single(rules.dialect, input, end - 1);
    }
    let stop = if end == input.len() {
        end
    } else {
        lemma_single(rules.dialect, input, end);
        if last && to == end + 2 {
            assert(!rules.unquoted_stops()(input[end]));
            assert(rules.unquoted_stops()(input[end + 1]));
            end + 1
        } else {
            assert(rules.unquoted_stops()(input[end]));
            end
        }
    };
    if end == input.len() {
        lemma_past_the_end(rules.dialect, input);
        assert(window == end);
    }
    crate::search::lemma_first_of_is(input, at, window, rules.unquoted_stops(), stop);
    if field.null {
        assert(field.bytes =~= Seq::<u8>::empty());
        assert(field == null_field());
    } else {
        assert(field == text(bytes));
    }
}

/// A field that stands somewhere is what is read there.
proof fn lemma_field_is_read(
    rules: Rules,
    input: Seq<u8>,
    start: int,
    p: int,
    to: int,
    field: Field,
    nulls: Nulls,
    last: bool,
    count: int,
)
    requires
        rules.dialect.valid(),
        is_short(rules, start, p, to, count),
        0 <= start <= p,
        is_field(rules, input, p, to, field, nulls, last),
    ensures
        ({
            let q = rules.skip_spaces(input, start, p);
            &&& p <= q <= to <= input.len()
            &&& !last ==> q < to
            &&& if Engine::supports(rules.dialect) {
                rules.field_step(input, start, q, count, nulls) == (Step::Read {
                    field,
                    next: to,
                    last,
                })
            } else {
                rules.checked_step(input, start, q, count, nulls) == (Step::Read {
                    field,
                    next: to,
                    last,
                })
            }
        }),
{
    let (at, close, end) = choose|at: int, close: int, end: int| #[trigger]
        parts(rules, input, p, at, close, end, to, field, nulls, last);
    assert(are_skipped(rules, input, at, at));
    assert(parts(rules, input, at, at, close, end, to, field, nulls, last));
    lemma_spaces_are_skipped(rules, input, start, p, at);
    if is_quoted(rules, input, at) {
        lemma_quoted_is_read(
            rules,
            input,
            start,
            at,
            close,
            end,
            to,
            field,
            nulls,
            last,
            count,
        );
    } else if Engine::supports(rules.dialect) {
        lemma_unquoted_is_read(
            rules,
            input,
            start,
            at,
            close,
            end,
            to,
            field,
            nulls,
            last,
            count,
        );
    } else {
        lemma_text_field_is_read(
            rules,
            input,
            start,
            at,
            close,
            end,
            to,
            field,
            nulls,
            last,
            count,
        );
    }
}

/// Whether what stands between two cuts is no longer than a field may be.
pub open spec fn is_short_cut(rules: Rules, cuts: Seq<int>, index: int) -> bool {
    cuts[index + 1] - cuts[index] <= rules.limits.max_field_bytes
}

/// Whether no piece of a record is longer than a field may be.
pub open spec fn are_short(rules: Rules, cuts: Seq<int>) -> bool {
    forall|i: int| 0 <= i < cuts.len() - 1 ==> #[trigger] is_short_cut(rules, cuts, i)
}

proof fn lemma_fields_are_read(
    rules: Rules,
    input: Seq<u8>,
    start: int,
    to: int,
    cuts: Seq<int>,
    fields: Seq<Field>,
    nulls: Nulls,
    index: int,
)
    requires
        rules.dialect.valid(),
        0 <= start <= cuts[index],
        is_cut_up(rules, input, cuts[0], to, cuts, fields, nulls),
        0 <= index < fields.len() <= rules.limits.max_fields,
        are_short(rules, cuts),
        to - start <= rules.limits.max_record_bytes,
        forall|i: int| 0 <= i < cuts.len() ==> #[trigger] cuts[i] <= to,
    ensures
        Engine::supports(rules.dialect) ==> rules.read_fields(
            input,
            start,
            cuts[index],
            fields.take(index),
            nulls,
        ) == (Scan::Done { fields, next: to }),
        !Engine::supports(rules.dialect) ==> rules.read_checked(
            input,
            start,
            cuts[index],
            fields.take(index),
            nulls,
        ) == (Scan::Done { fields, next: to }),
    decreases fields.len() - index,
{
    let last = index == fields.len() - 1;
    assert(is_cut(rules, input, cuts, fields, nulls, index));
    assert(cuts[index + 1] <= to);
    assert(is_short_cut(rules, cuts, index));
    lemma_field_is_read(
        rules,
        input,
        start,
        cuts[index],
        cuts[index + 1],
        fields[index],
        nulls,
        last,
        index,
    );
    assert(fields.take(index).push(fields[index]) =~= fields.take(index + 1));
    if last {
        assert(fields.take(index + 1) =~= fields);
    } else {
        lemma_fields_are_read(rules, input, start, to, cuts, fields, nulls, index + 1);
    }
}

/// The fields of a record end inside it.
pub proof fn lemma_cuts_grow(
    rules: Rules,
    input: Seq<u8>,
    to: int,
    cuts: Seq<int>,
    fields: Seq<Field>,
    nulls: Nulls,
    index: int,
)
    requires
        is_cut_up(rules, input, cuts[0], to, cuts, fields, nulls),
        0 <= index < cuts.len(),
    ensures
        cuts[index] <= to,
    decreases cuts.len() - index,
{
    if index < fields.len() {
        assert(is_cut(rules, input, cuts, fields, nulls, index));
        lemma_cuts_grow(rules, input, to, cuts, fields, nulls, index + 1);
    }
}

/// What bytes say is what is read: where the fields of a record stand one behind
/// the other, with a delimiter between them and a record ending behind them, those
/// fields are read, and reading goes on behind the ending. No field, with what
/// ends it, may be longer than the limit on fields, nor the record longer than
/// its own limit.
pub proof fn law_a_cut_up_record_is_read(
    rules: Rules,
    input: Seq<u8>,
    start: int,
    next: int,
    cuts: Seq<int>,
    fields: Seq<Field>,
    nulls: Nulls,
)
    requires
        rules.dialect.valid(),
        0 <= start,
        is_cut_up(rules, input, start, next, cuts, fields, nulls),
        are_short(rules, cuts),
        fields.len() <= rules.limits.max_fields,
        next - start <= rules.limits.max_record_bytes,
    ensures
        rules.read_record(input, start, nulls) == (Scan::Done { fields, next }),
{
    assert forall|i: int| 0 <= i < cuts.len() implies #[trigger] cuts[i] <= next by {
        lemma_cuts_grow(rules, input, next, cuts, fields, nulls, i);
    }
    lemma_fields_are_read(rules, input, start, next, cuts, fields, nulls, 0);
    assert(fields.take(0) =~= Seq::<Field>::empty());
}

/// What bytes say is what is read, in particular, where the whole record is no
/// longer than a field may be.
pub proof fn law_what_bytes_say_is_read(
    rules: Rules,
    input: Seq<u8>,
    start: int,
    next: int,
    fields: Seq<Field>,
    nulls: Nulls,
)
    requires
        rules.dialect.valid(),
        0 <= start,
        is_record(rules, input, start, next, fields, nulls),
        fields.len() <= rules.limits.max_fields,
        next - start <= rules.limits.max_field_bytes,
        next - start <= rules.limits.max_record_bytes,
    ensures
        rules.read_record(input, start, nulls) == (Scan::Done { fields, next }),
{
    let cuts = choose|cuts: Seq<int>| #[trigger]
        is_cut_up(rules, input, start, next, cuts, fields, nulls);
    assert forall|i: int| 0 <= i < cuts.len() - 1 implies #[trigger] is_short_cut(
        rules,
        cuts,
        i,
    ) by {
        lemma_cuts_grow(rules, input, next, cuts, fields, nulls, i + 1);
        lemma_cuts_from(rules, input, start, next, cuts, fields, nulls, i);
    }
    law_a_cut_up_record_is_read(rules, input, start, next, cuts, fields, nulls);
}

/// The fields of a record start inside it.
pub proof fn lemma_cuts_from(
    rules: Rules,
    input: Seq<u8>,
    start: int,
    to: int,
    cuts: Seq<int>,
    fields: Seq<Field>,
    nulls: Nulls,
    index: int,
)
    requires
        is_cut_up(rules, input, start, to, cuts, fields, nulls),
        0 <= index < fields.len(),
    ensures
        start <= cuts[index],
    decreases index,
{
    if index > 0 {
        lemma_cuts_from(rules, input, start, to, cuts, fields, nulls, index - 1);
        assert(is_cut(rules, input, cuts, fields, nulls, index - 1));
    }
}

/// Whether two inputs have their first `n` bytes in common, and a byte of a line
/// ending in each behind them.
spec fn alike_up_to(x: Seq<u8>, y: Seq<u8>, n: int) -> bool {
    &&& 0 <= n < x.len()
    &&& n < y.len()
    &&& x[n] == 13 || x[n] == 10
    &&& y[n] == 13 || y[n] == 10
    &&& forall|i: int| 0 <= i < n ==> #[trigger] x[i] == y[i]
    &&& n > 0 ==> x[n - 1] != 13
}

proof fn lemma_alike(x: Seq<u8>, y: Seq<u8>, n: int, from: int, to: int)
    requires
        alike_up_to(x, y, n),
        0 <= from <= to <= n,
    ensures
        x.subrange(from, to) == y.subrange(from, to),
{
    assert(x.subrange(from, to) =~= y.subrange(from, to)) by {
        assert forall|i: int| 0 <= i < to - from implies x.subrange(from, to)[i] == y.subrange(
            from,
            to,
        )[i] by {
            assert(x[from + i] == y[from + i]);
        }
    }
}

proof fn lemma_encloses_alike(
    rules: Rules,
    x: Seq<u8>,
    y: Seq<u8>,
    n: int,
    from: int,
    to: int,
    bytes: Seq<u8>,
)
    requires
        alike_up_to(x, y, n),
        0 <= from <= to <= n,
        encloses(rules, x, from, to, bytes),
    ensures
        encloses(rules, y, from, to, bytes),
    decreases to - from,
{
    if from < to {
        assert(x[from] == y[from]);
        if x[from] == guard_of(rules.dialect) {
            assert(x[from + 1] == y[from + 1]);
            lemma_encloses_alike(rules, x, y, n, from + 2, to, bytes.skip(1));
        } else {
            lemma_encloses_alike(rules, x, y, n, from + 1, to, bytes.skip(1));
        }
    }
}

proof fn lemma_content_alike(rules: Rules, x: Seq<u8>, y: Seq<u8>, n: int, at: int)
    requires
        Engine::supports(rules.dialect),
        rules.dialect.record_ending == RecordEnding::Newline,
        alike_up_to(x, y, n),
        0 <= at < n,
        is_content(rules, x, at),
    ensures
        is_content(rules, y, at),
{
    lemma_single(rules.dialect, x, at);
    lemma_single(rules.dialect, y, at);
    assert(x[at] == y[at]);
    if at + 1 < n {
        assert(x[at + 1] == y[at + 1]);
    }
}

/// A field that ends before the line ending is the same in both inputs.
proof fn lemma_spelled_alike(
    rules: Rules,
    x: Seq<u8>,
    y: Seq<u8>,
    n: int,
    at: int,
    close: int,
    end: int,
    field: Field,
    nulls: Nulls,
)
    requires
        rules.dialect.valid(),
        Engine::supports(rules.dialect),
        rules.dialect.record_ending == RecordEnding::Newline,
        alike_up_to(x, y, n),
        0 <= at <= end <= n,
        is_spelled(rules, x, at, close, end, field, nulls),
    ensures
        is_spelled(rules, y, at, close, end, field, nulls),
{
    lemma_alike(x, y, n, at, end);
    if at < n {
        assert(x[at] == y[at]);
    }
    assert(is_quoted(rules, x, at) == is_quoted(rules, y, at));
    if is_quoted(rules, x, at) {
        lemma_encloses_alike(rules, x, y, n, at + 1, close, field.bytes);
        assert(x[close] == y[close]);
        if close + 1 < n {
            assert(x[close + 1] == y[close + 1]);
        }
        assert forall|i: int| close < i < end implies is_ignored(rules, #[trigger] y[i]) by {
            assert(is_ignored(rules, x[i]));
        }
    } else {
        let bytes = if field.null {
            choose|bytes: Seq<u8>| #[trigger] says(rules, x, at, end, bytes)
        } else {
            field.bytes
        };
        lemma_says_itself(rules, x, at, end, bytes);
        assert forall|i: int| at <= i < end implies #[trigger] is_content(rules, y, i) by {
            assert(is_content(rules, x, i));
            lemma_content_alike(rules, x, y, n, i);
        }
        lemma_says_run(rules, y, at, end);
        assert(says(rules, y, at, end, bytes));
    }
}

/// A field that ends with a line ending ends before the line ending.
proof fn lemma_ends_before(
    rules: Rules,
    x: Seq<u8>,
    n: int,
    at: int,
    close: int,
    end: int,
    field: Field,
    nulls: Nulls,
)
    requires
        rules.dialect.valid(),
        Engine::supports(rules.dialect),
        rules.dialect.record_ending == RecordEnding::Newline,
        0 <= at <= end <= x.len(),
        0 <= n < x.len(),
        x[n] == 10 || (x[n] == 13 && n + 1 < x.len() && x[n + 1] == 10),
        end <= n + (if x[n] == 10 {
            1int
        } else {
            2int
        }),
        at <= n,
        is_spelled(rules, x, at, close, end, field, nulls),
    ensures
        end <= n,
{
    if end > n {
        if is_quoted(rules, x, at) {
            assert(at != n);
            if close < n {
                assert(is_ignored(rules, x[n]));
            }
            assert(close < n || close == n || close == n + 1);
        } else {
            let bytes = if field.null {
                choose|bytes: Seq<u8>| #[trigger] says(rules, x, at, end, bytes)
            } else {
                field.bytes
            };
            lemma_says_itself(rules, x, at, end, bytes);
            assert(is_content(rules, x, n));
            lemma_single(rules.dialect, x, n);
        }
    }
}

/// A record that ends with the line ending behind the bytes that two inputs
/// share is the same record in both.
#[verifier::spinoff_prover]
#[verifier::rlimit(60)]
proof fn lemma_record_alike(
    rules: Rules,
    x: Seq<u8>,
    y: Seq<u8>,
    n: int,
    start: int,
    fields: Seq<Field>,
    nulls: Nulls,
)
    requires
        rules.dialect.valid(),
        Engine::supports(rules.dialect),
        rules.dialect.record_ending == RecordEnding::Newline,
        alike_up_to(x, y, n),
        0 <= start <= n,
        ending_size(rules.dialect, x, n) > 0,
        ending_size(rules.dialect, y, n) > 0,
        is_record(rules, x, start, n + ending_size(rules.dialect, x, n), fields, nulls),
    ensures
        is_record(rules, y, start, n + ending_size(rules.dialect, y, n), fields, nulls),
{
    lemma_single(rules.dialect, x, n);
    lemma_single(rules.dialect, y, n);
    let from = n + ending_size(rules.dialect, x, n);
    let to = n + ending_size(rules.dialect, y, n);
    let count = fields.len() as int;
    let cuts = choose|cuts: Seq<int>| #[trigger]
        is_cut_up(rules, x, start, from, cuts, fields, nulls);
    let moved = cuts.update(count, to);
    lemma_cuts_before(rules, x, n, start, from, cuts, fields, nulls, count - 1);
    assert forall|i: int| 0 <= i < count implies #[trigger] is_cut(
        rules,
        y,
        moved,
        fields,
        nulls,
        i,
    ) by {
        let last = i == count - 1;
        assert(is_cut(rules, x, cuts, fields, nulls, i));
        let (at, close, end) = choose|at: int, close: int, end: int| #[trigger]
            parts(rules, x, cuts[i], at, close, end, cuts[i + 1], fields[i], nulls, last);
        lemma_cuts_before(rules, x, n, start, from, cuts, fields, nulls, i);
        if last {
            if at > n {
                assert(x[n] == 32);
            }
            lemma_ends_before(rules, x, n, at, close, end, fields[i], nulls);
            lemma_single(rules.dialect, x, end);
            if end == n - 1 {
                assert(x[n - 1] != 13);
            }
            assert(end == n);
        } else {
            lemma_cuts_before(rules, x, n, start, from, cuts, fields, nulls, i + 1);
            lemma_single(rules.dialect, x, end);
            lemma_single(rules.dialect, y, end);
            assert(x[end] == y[end]);
        }
        lemma_spelled_alike(rules, x, y, n, at, close, end, fields[i], nulls);
        assert(are_skipped(rules, y, cuts[i], at)) by {
            assert forall|j: int| cuts[i] <= j < at implies #[trigger] y[j] == 32 by {
                assert(x[j] == y[j]);
            }
            if at < n {
                assert(x[at] == y[at]);
            }
        }
        assert(is_ended(rules, y, end, moved[i + 1], last));
        assert(parts(
            rules,
            y,
            moved[i],
            at,
            close,
            end,
            moved[i + 1],
            fields[i],
            nulls,
            last,
        ));
    }
    assert(is_cut_up(rules, y, start, to, moved, fields, nulls));
}

/// The fields of a record that ends with a line ending start before it.
proof fn lemma_cuts_before(
    rules: Rules,
    x: Seq<u8>,
    n: int,
    start: int,
    to: int,
    cuts: Seq<int>,
    fields: Seq<Field>,
    nulls: Nulls,
    index: int,
)
    requires
        rules.dialect.valid(),
        Engine::supports(rules.dialect),
        rules.dialect.record_ending == RecordEnding::Newline,
        0 <= start <= n < x.len(),
        x[n] == 10 || x[n] == 13,
        to == n + 1 || (to == n + 2 && x[n] == 13 && n + 1 < x.len() && x[n + 1] == 10),
        is_cut_up(rules, x, start, to, cuts, fields, nulls),
        0 <= index < fields.len(),
    ensures
        start <= cuts[index] <= n,
    decreases index,
{
    if index > 0 {
        lemma_cuts_before(rules, x, n, start, to, cuts, fields, nulls, index - 1);
        assert(is_cut(rules, x, cuts, fields, nulls, index - 1));
        let (at, close, end) = choose|at: int, close: int, end: int| #[trigger]
            parts(
                rules,
                x,
                cuts[index - 1],
                at,
                close,
                end,
                cuts[index],
                fields[index - 1],
                nulls,
                false,
            );
        lemma_cuts_grow(rules, x, to, cuts, fields, nulls, index);
        lemma_single_bytes(rules.dialect);
        lemma_single_at(x, end, rules.dialect.delimiter);
    }
}

/// In a format whose records end with a newline, a carriage return before the
/// line feed is part of the ending: a record that ends with both is read to the
/// same fields as with the line feed alone, whatever its last field is, and the
/// other way round. This is stated where nothing else than the one carriage
/// return can make a difference: the record itself does not end with one, and it
/// is no longer than a field may be.
pub proof fn law_both_line_endings_read_alike(
    rules: Rules,
    front: Seq<u8>,
    back: Seq<u8>,
    start: int,
    nulls: Nulls,
)
    requires
        rules.dialect.valid(),
        Engine::supports(rules.dialect),
        rules.dialect.record_ending == RecordEnding::Newline,
        0 <= start <= front.len(),
        front.len() > 0 ==> front.last() != 13,
        front.len() + 2 - start <= rules.limits.max_field_bytes,
        front.len() + 2 - start <= rules.limits.max_record_bytes,
    ensures
        ({
            let both = rules.read_record(front + seq![13u8, 10u8] + back, start, nulls);
            let one = rules.read_record(front + seq![10u8] + back, start, nulls);
            &&& both is Done && both->next == front.len() + 2 ==> one == (Scan::Done {
                fields: both->Done_fields,
                next: front.len() as int + 1,
            })
            &&& one is Done && one->next == front.len() + 1 ==> both == (Scan::Done {
                fields: one->Done_fields,
                next: front.len() as int + 2,
            })
        }),
{
    let x = front + seq![13u8, 10u8] + back;
    let y = front + seq![10u8] + back;
    let n = front.len() as int;
    assert(x[n] == 13 && x[n + 1] == 10 && y[n] == 10);
    assert forall|i: int| 0 <= i < n implies #[trigger] x[i] == y[i] by {
        assert(x[i] == front[i]);
        assert(y[i] == front[i]);
    }
    assert(n > 0 ==> x[n - 1] == front.last());
    lemma_single(rules.dialect, x, n);
    lemma_single(rules.dialect, y, n);
    law_a_record_is_what_its_bytes_say(rules, x, start, nulls);
    law_a_record_is_what_its_bytes_say(rules, y, start, nulls);
    law_a_record_is_within_its_limits(rules, x, start, nulls);
    law_a_record_is_within_its_limits(rules, y, start, nulls);
    if let Scan::Done { fields, next } = rules.read_record(x, start, nulls) {
        if next == n + 2 {
            lemma_record_alike(rules, x, y, n, start, fields, nulls);
            law_what_bytes_say_is_read(rules, y, start, n + 1, fields, nulls);
        }
    }
    if let Scan::Done { fields, next } = rules.read_record(y, start, nulls) {
        if next == n + 1 {
            assert forall|i: int| 0 <= i < n implies #[trigger] y[i] == x[i] by {
                assert(x[i] == y[i]);
            }
            lemma_record_alike(rules, y, x, n, start, fields, nulls);
            law_what_bytes_say_is_read(rules, x, start, n + 2, fields, nulls);
        }
    }
}

/// In a format whose records end with a newline, the last field of a record that
/// ends with a carriage return and a line feed ends before both: neither is part
/// of it.
pub proof fn law_a_line_ending_is_no_content(
    rules: Rules,
    input: Seq<u8>,
    start: int,
    nulls: Nulls,
)
    requires
        rules.dialect.valid(),
        Engine::supports(rules.dialect),
        rules.dialect.record_ending == RecordEnding::Newline,
        0 <= start <= input.len(),
    ensures
        rules.read_record(input, start, nulls) matches Scan::Done { fields, next } ==> (next - 2
            >= start && input[next - 2] == 13 && input[next - 1] == 10 ==> exists|
            at: int,
            close: int,
        | #[trigger]
            is_spelled(rules, input, at, close, next - 2, fields.last(), nulls) && start <= at
                <= next - 2),
{
    law_a_record_is_what_its_bytes_say(rules, input, start, nulls);
    if let Scan::Done { fields, next } = rules.read_record(input, start, nulls) {
        let n = next - 2;
        if n >= start && input[n] == 13 && input[n + 1] == 10 {
            let cuts = choose|cuts: Seq<int>| #[trigger]
                is_cut_up(rules, input, start, next, cuts, fields, nulls);
            let index = fields.len() - 1;
            assert(is_cut(rules, input, cuts, fields, nulls, index));
            let (at, close, end) = choose|at: int, close: int, end: int| #[trigger]
                parts(
                    rules,
                    input,
                    cuts[index],
                    at,
                    close,
                    end,
                    cuts[index + 1],
                    fields[index],
                    nulls,
                    true,
                );
            lemma_cuts_before(rules, input, n, start, next, cuts, fields, nulls, index);
            if at > n {
                assert(input[n] == 32);
            }
            lemma_ends_before(rules, input, n, at, close, end, fields[index], nulls);
            lemma_single(rules.dialect, input, end);
            assert(end == n);
            assert(is_spelled(rules, input, at, close, n, fields.last(), nulls));
        }
    }
}

proof fn lemma_says_under(
    rules: Rules,
    other: Rules,
    input: Seq<u8>,
    from: int,
    to: int,
    bytes: Seq<u8>,
)
    requires
        other == (Rules { limits: other.limits, ..rules }),
    ensures
        says(rules, input, from, to, bytes) == says(other, input, from, to, bytes),
    decreases to - from,
{
    if from < to {
        lemma_says_under(rules, other, input, from + 1, to, bytes.skip(1));
        if from + 2 <= to {
            lemma_says_under(rules, other, input, from + 2, to, bytes.skip(1));
        }
    }
}

proof fn lemma_encloses_under(
    rules: Rules,
    other: Rules,
    input: Seq<u8>,
    from: int,
    to: int,
    bytes: Seq<u8>,
)
    requires
        other == (Rules { limits: other.limits, ..rules }),
    ensures
        encloses(rules, input, from, to, bytes) == encloses(other, input, from, to, bytes),
    decreases to - from,
{
    if from < to {
        lemma_encloses_under(rules, other, input, from + 1, to, bytes.skip(1));
        if from + 2 <= to {
            lemma_encloses_under(rules, other, input, from + 2, to, bytes.skip(1));
        }
    }
}

/// What bytes say does not depend on the limits.
pub proof fn lemma_limits_say_nothing(
    rules: Rules,
    other: Rules,
    input: Seq<u8>,
    from: int,
    to: int,
    fields: Seq<Field>,
    nulls: Nulls,
)
    requires
        other == (Rules { limits: other.limits, ..rules }),
        is_record(rules, input, from, to, fields, nulls),
    ensures
        is_record(other, input, from, to, fields, nulls),
{
    let cuts = choose|cuts: Seq<int>| #[trigger]
        is_cut_up(rules, input, from, to, cuts, fields, nulls);
    assert forall|i: int| 0 <= i < fields.len() implies #[trigger] is_cut(
        other,
        input,
        cuts,
        fields,
        nulls,
        i,
    ) by {
        let last = i == fields.len() - 1;
        assert(is_cut(rules, input, cuts, fields, nulls, i));
        let (at, close, end) = choose|at: int, close: int, end: int| #[trigger]
            parts(rules, input, cuts[i], at, close, end, cuts[i + 1], fields[i], nulls, last);
        lemma_encloses_under(rules, other, input, at + 1, close, fields[i].bytes);
        lemma_says_under(rules, other, input, at, end, fields[i].bytes);
        if is_quoted(rules, input, at) {
            assert forall|j: int| close < j < end implies is_ignored(other, #[trigger] input[j]) by {
                assert(is_ignored(rules, input[j]));
            }
        } else if fields[i].null {
            let bytes = choose|bytes: Seq<u8>| #[trigger] says(rules, input, at, end, bytes);
            lemma_says_under(rules, other, input, at, end, bytes);
        }
        assert(are_skipped(other, input, cuts[i], at));
        assert(is_spelled(other, input, at, close, end, fields[i], nulls));
        assert(is_ended(other, input, end, cuts[i + 1], last));
        assert(parts(
            other,
            input,
            cuts[i],
            at,
            close,
            end,
            cuts[i + 1],
            fields[i],
            nulls,
            last,
        ));
    }
    assert(is_cut_up(other, input, from, to, cuts, fields, nulls));
}

} // verus!
