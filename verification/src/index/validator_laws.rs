//! What a scan accepts is one record to a parser too.

use vstd::prelude::*;

use crate::ascii::{CR, LF};
use crate::config::{Escape, Limits, Nulls};
use crate::emit::laws::holds;
use crate::engine::grammar::{Body, Rules, Scan, Step};
use crate::engine::locality::{lemma_first_checked, lemma_first_field};
use crate::engine::Engine;
use crate::error::{Error, ErrorKind};
use crate::index::validator::{
    checked_as, lemma_close_bounds, lemma_escaped_bounds, lemma_feeds_bounded, line_feeds,
    FastMode, FastValidator, FrameEscape, Verdict,
};
use crate::options::{FormatOptions, ParserSettings};
use crate::search::{
    first_of, lemma_first_of, lemma_first_of_is, lemma_occurrences_concat, occurrences, one,
    one_of2, one_of4,
};
use crate::slice_parser::Listing;
use crate::storage::Field;

verus! {

impl FastValidator {
    /// Whether the scan reads a format as its parser does, and counts the line
    /// feeds right.
    ///
    /// The scan lets any byte be escaped inside quotes, and does not look for a
    /// carriage return where bytes are escaped one by one. It counts the line
    /// feeds inside fields and in the record ending.
    pub open spec fn exact(format: FormatOptions) -> bool {
        &&& FastValidator::covers(format)
        &&& format.dialect.valid()
        &&& format.dialect.escape is Backslash ==> format.syntax.permits_any_backslash_escape()
        &&& format.dialect.escape.unquoted_byte() is Some ==> !(format.dialect.record_ending is CrLf)
        &&& format.dialect.delimiter != LF
        &&& format.dialect.quote != LF
    }
}

/// Whether a record stands in a document, and its ending was left off.
spec fn laid_out(
    validator: FastValidator,
    format: FormatOptions,
    rules: Rules,
    input: Seq<u8>,
    start: int,
    record: Seq<u8>,
    content: Seq<u8>,
) -> bool {
    &&& validator == FastValidator::of(format)
    &&& FastValidator::exact(format)
    &&& rules.dialect == format.dialect
    &&& rules.syntax == format.syntax
    &&& !rules.skip_initial_space
    &&& 0 <= start
    &&& holds(input, start, record)
    &&& validator.terminated(record)
    &&& content == record.take(record.len() - validator.ending_len())
    &&& record.len() <= rules.limits.max_record_bytes
}

proof fn lemma_byte(
    validator: FastValidator,
    format: FormatOptions,
    rules: Rules,
    input: Seq<u8>,
    start: int,
    record: Seq<u8>,
    content: Seq<u8>,
    index: int,
)
    requires
        laid_out(validator, format, rules, input, start, record, content),
        0 <= index < record.len(),
    ensures
        start + index < input.len(),
        input[start + index] == record[index],
        index < content.len() ==> record[index] == content[index],
        index == content.len() ==> record[index] == (if validator.crlf {
            CR
        } else {
            validator.terminator
        }),
        index == content.len() + 1 ==> validator.crlf && record[index] == LF,
{
}

/// The scan and the parser find the same closing quote.
proof fn lemma_close_read(
    validator: FastValidator,
    format: FormatOptions,
    rules: Rules,
    input: Seq<u8>,
    start: int,
    record: Seq<u8>,
    content: Seq<u8>,
    from: int,
    cursor: int,
    decoded: Seq<u8>,
    escape: FrameEscape,
)
    requires
        laid_out(validator, format, rules, input, start, record, content),
        validator.mode == FastMode::Framed(escape),
        0 <= from <= cursor <= content.len(),
        validator.close(content, cursor, escape) matches Some(close) && close - from
            <= rules.limits.max_field_bytes,
    ensures
        rules.quoted_body(input, start, start + from, start + cursor, decoded) matches Body::Closed {
            after,
            ..
        } && after == start + validator.close(content, cursor, escape)->0 + 1,
    decreases content.len() - cursor,
{
    let len = content.len() as int;
    let end = rules.field_window(input, start, start + from);
    let stops = rules.quoted_stops();
    let quote = validator.quote;
    lemma_close_bounds(validator, content, cursor, escape);
    let here = match escape {
        FrameEscape::Doubled => one(quote),
        FrameEscape::Backslash(byte) => one_of2(quote, byte),
    };
    let at = first_of(content, cursor, len, here);
    lemma_first_of(content, cursor, len, here);
    let close = validator.close(content, cursor, escape)->0;
    if at + 2 <= len {
        lemma_close_bounds(validator, content, at + 2, escape);
    }
    assert(at <= close);
    assert forall|i: int| start + cursor <= i < start + at implies !stops(#[trigger] input[i]) by {
        lemma_byte(validator, format, rules, input, start, record, content, i - start);
        assert(!here(content[i - start]));
    }
    lemma_byte(validator, format, rules, input, start, record, content, at);
    lemma_byte(validator, format, rules, input, start, record, content, at + 1);
    assert(input[start + at + 1] == input[start + (at + 1)]);
    lemma_first_of_is(input, start + cursor, end, stops, start + at);
    let segment = decoded + input.subrange(start + cursor, start + at);
    match escape {
        FrameEscape::Doubled => {
            if at + 1 < len && content[at + 1] == quote {
                lemma_close_read(
                    validator,
                    format,
                    rules,
                    input,
                    start,
                    record,
                    content,
                    from,
                    at + 2,
                    segment.push(quote),
                    escape,
                );
            }
        },
        FrameEscape::Backslash(byte) => {
            if content[at] == byte {
                lemma_close_read(
                    validator,
                    format,
                    rules,
                    input,
                    start,
                    record,
                    content,
                    from,
                    at + 2,
                    segment.push(input[start + at + 1]),
                    escape,
                );
            }
        },
    }
}

/// Where reading goes on after a scanned field.
spec fn after_scan(start: int, record: Seq<u8>, end: Option<int>) -> int {
    match end {
        None => start + record.len(),
        Some(at) => start + at + 1,
    }
}

/// A quoted field that was scanned is a field.
proof fn lemma_quoted_scanned(
    validator: FastValidator,
    format: FormatOptions,
    rules: Rules,
    input: Seq<u8>,
    start: int,
    record: Seq<u8>,
    content: Seq<u8>,
    pos: int,
    escape: FrameEscape,
    count: int,
    nulls: Nulls,
)
    requires
        laid_out(validator, format, rules, input, start, record, content),
        validator.mode == FastMode::Framed(escape),
        0 <= pos < content.len(),
        content[pos] == validator.quote,
        0 <= count < rules.limits.max_fields,
        validator.quoted(content, pos, escape) matches Some((len, _, _)) && len
            <= rules.limits.max_field_bytes,
    ensures
        ({
            let end = (validator.quoted(content, pos, escape)->0).1;
            let next = after_scan(start, record, end);
            &&& Engine::supports(rules.dialect) ==> (rules.field_step(
                input,
                start,
                start + pos,
                count,
                nulls,
            ) matches Step::Read { next: to, last, .. } && to == next && last == (end is None))
            &&& !Engine::supports(rules.dialect) ==> (rules.checked_step(
                input,
                start,
                start + pos,
                count,
                nulls,
            ) matches Step::Read { next: to, last, .. } && to == next && last == (end is None))
        }),
{
    lemma_byte(validator, format, rules, input, start, record, content, pos);
    lemma_close_read(
        validator,
        format,
        rules,
        input,
        start,
        record,
        content,
        pos + 1,
        pos + 1,
        Seq::empty(),
        escape,
    );
    let close = validator.close(content, pos + 1, escape)->0;
    lemma_close_bounds(validator, content, pos + 1, escape);
    let after = close + 1;
    lemma_byte(validator, format, rules, input, start, record, content, after);
    if validator.crlf && after == content.len() {
        lemma_byte(validator, format, rules, input, start, record, content, after + 1);
        assert(input[start + after + 1] == input[start + (after + 1)]);
    }
    assert(input[start + close + 1] == input[start + after]);
    assert(!rules.is_padding(input[start + after]));
    assert(rules.skip_padding(input, start + after) == start + after);
    assert(start + pos + 1 == start + (pos + 1));
}

/// An unquoted field that was scanned is a field.
proof fn lemma_plain_scanned(
    validator: FastValidator,
    format: FormatOptions,
    rules: Rules,
    input: Seq<u8>,
    start: int,
    record: Seq<u8>,
    content: Seq<u8>,
    pos: int,
    count: int,
    nulls: Nulls,
)
    requires
        laid_out(validator, format, rules, input, start, record, content),
        validator.mode is Framed,
        Engine::supports(rules.dialect),
        0 <= pos <= content.len(),
        pos < content.len() ==> content[pos] != validator.quote,
        0 <= count < rules.limits.max_fields,
        validator.plain(content, pos) matches Some((len, _, _)) && len
            <= rules.limits.max_field_bytes,
    ensures
        ({
            let end = (validator.plain(content, pos)->0).1;
            rules.field_step(input, start, start + pos, count, nulls) matches Step::Read {
                next,
                last,
                ..
            } && next == after_scan(start, record, end) && last == (end is None)
        }),
{
    let len = content.len() as int;
    let stops = validator.plain_stops();
    let at = first_of(content, pos, len, stops);
    lemma_first_of(content, pos, len, stops);
    let window = rules.field_window(input, start, start + pos);
    let theirs = rules.unquoted_stops();
    lemma_byte(validator, format, rules, input, start, record, content, at);
    if pos < at {
        lemma_byte(validator, format, rules, input, start, record, content, at - 1);
        assert(!stops(content[at - 1]));
        assert(input[start + at - 1] == input[start + (at - 1)]);
    }
    assert forall|i: int| start + pos <= i < start + at implies !theirs(#[trigger] input[i]) by {
        lemma_byte(validator, format, rules, input, start, record, content, i - start);
        assert(!stops(content[i - start]));
    }
    lemma_first_of_is(input, start + pos, window, theirs, start + at);
    lemma_byte(validator, format, rules, input, start, record, content, pos);
    assert(!rules.opens_quoted(input, start + pos));
}

/// An unquoted field that was scanned is a field, where records end with CRLF.
proof fn lemma_plain_checked(
    validator: FastValidator,
    format: FormatOptions,
    rules: Rules,
    input: Seq<u8>,
    start: int,
    record: Seq<u8>,
    content: Seq<u8>,
    pos: int,
    cursor: int,
    decoded: Seq<u8>,
)
    requires
        laid_out(validator, format, rules, input, start, record, content),
        validator.mode is Framed,
        validator.crlf,
        0 <= pos <= cursor <= first_of(
            content,
            pos,
            content.len() as int,
            validator.plain_stops(),
        ),
        validator.plain(content, pos) matches Some((len, _, _)) && len
            <= rules.limits.max_field_bytes,
    ensures
        ({
            let at = first_of(content, pos, content.len() as int, validator.plain_stops());
            rules.text_body(input, start, start + pos, start + cursor, decoded) matches Body::Closed {
                after,
                ..
            } && after == start + at
        }),
    decreases content.len() - cursor,
{
    let len = content.len() as int;
    let stops = validator.plain_stops();
    let at = first_of(content, pos, len, stops);
    lemma_first_of_any(content, pos, len, stops);
    lemma_byte(validator, format, rules, input, start, record, content, cursor);
    lemma_byte(validator, format, rules, input, start, record, content, cursor + 1);
    assert(input[start + cursor + 1] == input[start + (cursor + 1)]);
    if cursor < at {
        assert(!stops(content[cursor]));
        assert(rules.mark(input, start + cursor) is Content);
        lemma_plain_checked(
            validator,
            format,
            rules,
            input,
            start,
            record,
            content,
            pos,
            cursor + 1,
            decoded.push(input[start + cursor]),
        );
        assert(start + cursor + 1 == start + (cursor + 1));
    } else if at < len {
        assert(rules.mark(input, start + cursor) is Delimiter);
    } else {
        assert(rules.mark(input, start + cursor) is CrLf);
    }
}

proof fn lemma_first_of_any(content: Seq<u8>, pos: int, len: int, stops: spec_fn(u8) -> bool)
    ensures
        pos <= len ==> {
            &&& pos <= first_of(content, pos, len, stops) <= len
            &&& first_of(content, pos, len, stops) < len ==> stops(
                content[first_of(content, pos, len, stops)],
            )
            &&& forall|i: int|
                pos <= i < first_of(content, pos, len, stops) ==> !stops(#[trigger] content[i])
        },
{
    if pos <= len {
        lemma_first_of(content, pos, len, stops);
    }
}

/// A byte that stops nothing is passed over.
proof fn lemma_escaped_skip(validator: FastValidator, content: Seq<u8>, cursor: int, escape: u8)
    requires
        0 <= cursor < content.len(),
        !one_of4(validator.delimiter, validator.terminator, validator.quote, escape)(
            content[cursor],
        ),
    ensures
        validator.escaped_end(content, cursor, escape) == validator.escaped_end(
            content,
            cursor + 1,
            escape,
        ),
{
    let len = content.len() as int;
    let stops = one_of4(validator.delimiter, validator.terminator, validator.quote, escape);
    assert(first_of(content, cursor, len, stops) == first_of(content, cursor + 1, len, stops));
    lemma_first_of(content, cursor + 1, len, stops);
}

/// An escaped field that was scanned is unquoted text.
///
/// Where the text ends with a carriage return and the record with a line feed,
/// the parser takes both for the ending.
proof fn lemma_escaped_read(
    validator: FastValidator,
    format: FormatOptions,
    rules: Rules,
    input: Seq<u8>,
    start: int,
    record: Seq<u8>,
    content: Seq<u8>,
    pos: int,
    cursor: int,
    decoded: Seq<u8>,
    escape: u8,
)
    requires
        laid_out(validator, format, rules, input, start, record, content),
        validator.mode == FastMode::Escaped(escape),
        0 <= pos <= cursor <= content.len(),
        validator.escaped_end(content, cursor, escape) matches Some(at) && at - pos
            <= rules.limits.max_field_bytes && (at < content.len() ==> content[at]
            == validator.delimiter),
    ensures
        ({
            let at = validator.escaped_end(content, cursor, escape)->0;
            &&& rules.text_body(
                input,
                start,
                start + pos,
                start + cursor,
                decoded,
            ) matches Body::Closed { after, .. }
            &&& after <= start + at
            &&& rules.after_text(input, after) == (if at < content.len() {
                (start + at + 1, false)
            } else {
                (start + record.len(), true)
            })
        }),
    decreases content.len() - cursor,
{
    let len = content.len() as int;
    let stops = one_of4(validator.delimiter, validator.terminator, validator.quote, escape);
    lemma_escaped_bounds(validator, content, cursor, escape);
    let at = validator.escaped_end(content, cursor, escape)->0;
    lemma_byte(validator, format, rules, input, start, record, content, cursor);
    if cursor < len {
        lemma_byte(validator, format, rules, input, start, record, content, cursor + 1);
        assert(input[start + cursor + 1] == input[start + (cursor + 1)]);
    }
    if cursor == len {
        assert(rules.mark(input, start + cursor) is Ending);
    } else if !stops(content[cursor]) {
        lemma_escaped_skip(validator, content, cursor, escape);
        lemma_escaped_bounds(validator, content, cursor + 1, escape);
        if rules.mark(input, start + cursor) is Content {
            lemma_escaped_read(
                validator,
                format,
                rules,
                input,
                start,
                record,
                content,
                pos,
                cursor + 1,
                decoded.push(input[start + cursor]),
                escape,
            );
            assert(start + cursor + 1 == start + (cursor + 1));
        } else {
            assert(rules.mark(input, start + cursor) is CrLf);
            if cursor + 1 < len {
                assert(stops(content[cursor + 1]));
                lemma_first_of_is(content, cursor + 1, len, stops, cursor + 1);
                assert(false);
            }
        }
    } else {
        lemma_first_of_is(content, cursor, len, stops, cursor);
        if content[cursor] == escape {
            lemma_escaped_bounds(validator, content, cursor + 2, escape);
            assert(rules.mark(input, start + cursor) is Escape);
            lemma_escaped_read(
                validator,
                format,
                rules,
                input,
                start,
                record,
                content,
                pos,
                cursor + 2,
                decoded.push(rules.unescaped(input[start + cursor + 1])),
                escape,
            );
            assert(start + cursor + 2 == start + (cursor + 2));
        } else {
            assert(at == cursor);
            assert(rules.mark(input, start + cursor) is Delimiter);
        }
    }
}

/// A field that was scanned is a field.
proof fn lemma_field_scanned(
    validator: FastValidator,
    format: FormatOptions,
    rules: Rules,
    input: Seq<u8>,
    start: int,
    record: Seq<u8>,
    content: Seq<u8>,
    pos: int,
    count: int,
    nulls: Nulls,
)
    requires
        laid_out(validator, format, rules, input, start, record, content),
        0 <= pos <= content.len(),
        0 <= count < rules.limits.max_fields,
        validator.field(content, pos) matches Some((len, _, _)) && len
            <= rules.limits.max_field_bytes,
    ensures
        ({
            let end = (validator.field(content, pos)->0).1;
            let next = after_scan(start, record, end);
            &&& Engine::supports(rules.dialect) ==> (rules.field_step(
                input,
                start,
                start + pos,
                count,
                nulls,
            ) matches Step::Read { next: to, last, .. } && to == next && last == (end is None))
            &&& !Engine::supports(rules.dialect) ==> (rules.checked_step(
                input,
                start,
                start + pos,
                count,
                nulls,
            ) matches Step::Read { next: to, last, .. } && to == next && last == (end is None))
        }),
{
    lemma_byte(validator, format, rules, input, start, record, content, pos);
    match validator.mode {
        FastMode::Framed(escape) => {
            if pos < content.len() && content[pos] == validator.quote {
                lemma_quoted_scanned(
                    validator,
                    format,
                    rules,
                    input,
                    start,
                    record,
                    content,
                    pos,
                    escape,
                    count,
                    nulls,
                );
            } else if Engine::supports(rules.dialect) {
                lemma_plain_scanned(
                    validator,
                    format,
                    rules,
                    input,
                    start,
                    record,
                    content,
                    pos,
                    count,
                    nulls,
                );
            } else {
                let at = first_of(
                    content,
                    pos,
                    content.len() as int,
                    validator.plain_stops(),
                );
                lemma_first_of(content, pos, content.len() as int, validator.plain_stops());
                lemma_plain_checked(
                    validator,
                    format,
                    rules,
                    input,
                    start,
                    record,
                    content,
                    pos,
                    pos,
                    Seq::empty(),
                );
                lemma_byte(validator, format, rules, input, start, record, content, at);
                if at == content.len() {
                    lemma_byte(validator, format, rules, input, start, record, content, at + 1);
                    assert(input[start + at + 1] == input[start + (at + 1)]);
                    assert(rules.mark(input, start + at) is CrLf);
                } else {
                    assert(rules.mark(input, start + at) is Delimiter);
                }
            }
        },
        FastMode::Escaped(escape) => {
            lemma_escaped_bounds(validator, content, pos, escape);
            lemma_escaped_read(
                validator,
                format,
                rules,
                input,
                start,
                record,
                content,
                pos,
                pos,
                Seq::empty(),
                escape,
            );
        },
    }
}

/// The fields of a record that was scanned are read from `pos` on.
proof fn lemma_fields_scanned(
    validator: FastValidator,
    format: FormatOptions,
    rules: Rules,
    input: Seq<u8>,
    start: int,
    record: Seq<u8>,
    content: Seq<u8>,
    pos: int,
    feeds: int,
    fields: Seq<Field>,
    nulls: Nulls,
)
    requires
        laid_out(validator, format, rules, input, start, record, content),
        0 <= pos <= content.len(),
        validator.verdict(
            content,
            pos,
            fields.len() as int,
            feeds,
            rules.limits,
        ) is Accepted,
        fields.len() <= rules.limits.max_fields,
    ensures
        Engine::supports(rules.dialect) ==> (rules.read_fields(
            input,
            start,
            start + pos,
            fields,
            nulls,
        ) matches Scan::Done { next, .. } && next == start + record.len()),
        !Engine::supports(rules.dialect) ==> (rules.read_checked(
            input,
            start,
            start + pos,
            fields,
            nulls,
        ) matches Scan::Done { next, .. } && next == start + record.len()),
    decreases content.len() - pos,
{
    let count = fields.len() as int;
    let p = start + pos;
    lemma_feeds_bounded(validator, content, pos);
    lemma_field_scanned(
        validator,
        format,
        rules,
        input,
        start,
        record,
        content,
        pos,
        count,
        nulls,
    );
    let (_, end, more) = validator.field(content, pos)->0;
    assert(rules.skip_spaces(input, start, p) == p);
    if Engine::supports(rules.dialect) {
        let step = rules.field_step(input, start, p, count, nulls);
        lemma_first_field(rules, input, start, p, p, step, fields, nulls);
        if let Some(at) = end {
            let field = step->Read_field;
            lemma_fields_scanned(
                validator,
                format,
                rules,
                input,
                start,
                record,
                content,
                at + 1,
                feeds + more,
                fields.push(field),
                nulls,
            );
            assert(start + at + 1 == start + (at + 1));
        }
    } else {
        let step = rules.checked_step(input, start, p, count, nulls);
        lemma_first_checked(rules, input, start, p, p, step, fields, nulls);
        if let Some(at) = end {
            let field = step->Read_field;
            lemma_fields_scanned(
                validator,
                format,
                rules,
                input,
                start,
                record,
                content,
                at + 1,
                feeds + more,
                fields.push(field),
                nulls,
            );
            assert(start + at + 1 == start + (at + 1));
        }
    }
}

proof fn lemma_feeds_split(bytes: Seq<u8>, a: int, b: int, c: int)
    requires
        0 <= a <= b <= c <= bytes.len(),
    ensures
        line_feeds(bytes, a, c) == line_feeds(bytes, a, b) + line_feeds(bytes, b, c),
{
    lemma_occurrences_concat(bytes.subrange(a, b), bytes.subrange(b, c), LF);
    assert(bytes.subrange(a, b) + bytes.subrange(b, c) =~= bytes.subrange(a, c));
}

proof fn lemma_feeds_one(bytes: Seq<u8>, at: int)
    requires
        0 <= at < bytes.len(),
    ensures
        line_feeds(bytes, at, at + 1) == if bytes[at] == LF {
            1int
        } else {
            0int
        },
{
    reveal_with_fuel(occurrences, 2);
    let piece = bytes.subrange(at, at + 1);
    assert(piece.drop_last() =~= Seq::<u8>::empty());
    assert(piece.last() == bytes[at]);
}

/// A field and what stands behind it have the line feeds that were counted.
proof fn lemma_field_feeds(validator: FastValidator, content: Seq<u8>, pos: int)
    requires
        0 <= pos <= content.len(),
        validator.delimiter != LF,
        validator.quote != LF,
    ensures
        validator.field(content, pos) matches Some((_, end, feeds)) ==> feeds == line_feeds(
            content,
            pos,
            match end {
                None => content.len() as int,
                Some(at) => at + 1,
            },
        ),
{
    lemma_feeds_bounded(validator, content, pos);
    let len = content.len() as int;
    if let Some((_, end, feeds)) = validator.field(content, pos) {
        if let Some(at) = end {
            lemma_feeds_one(content, at);
            lemma_feeds_split(content, pos, at, at + 1);
        }
        if let FastMode::Framed(escape) = validator.mode {
            if pos < len && content[pos] == validator.quote {
                let close = validator.close(content, pos + 1, escape)->0;
                lemma_close_bounds(validator, content, pos + 1, escape);
                lemma_feeds_one(content, pos);
                lemma_feeds_one(content, close);
                lemma_feeds_split(content, pos, pos + 1, close);
                lemma_feeds_split(content, pos, close, close + 1);
            } else {
                lemma_first_of(content, pos, len, validator.plain_stops());
            }
        } else if let FastMode::Escaped(escape) = validator.mode {
            lemma_escaped_bounds(validator, content, pos, escape);
        }
    }
}

/// A record that was scanned has the line feeds that were counted.
proof fn lemma_verdict_feeds(
    validator: FastValidator,
    content: Seq<u8>,
    pos: int,
    count: int,
    feeds: int,
    limits: Limits,
)
    requires
        0 <= pos <= content.len(),
        validator.delimiter != LF,
        validator.quote != LF,
    ensures
        validator.verdict(content, pos, count, feeds, limits) matches Verdict::Accepted(total)
            ==> total == feeds + line_feeds(content, pos, content.len() as int),
    decreases content.len() - pos,
{
    if count != limits.max_fields {
        lemma_field_feeds(validator, content, pos);
        lemma_feeds_bounded(validator, content, pos);
        if let Some((_, Some(at), more)) = validator.field(content, pos) {
            lemma_verdict_feeds(validator, content, at + 1, count + 1, feeds + more, limits);
            lemma_feeds_split(content, pos, at + 1, content.len() as int);
        }
    }
}

/// A record that a scan accepts is one record to a parser too, wherever it
/// stands, and has as many line feeds as the scan says.
///
/// A record longer than the limit is left out: of an empty line the scan does
/// not check the length.
pub proof fn law_what_a_scan_accepts_is_one_record(
    validator: FastValidator,
    format: FormatOptions,
    limits: Limits,
    input: Seq<u8>,
    start: int,
    record: Seq<u8>,
)
    requires
        validator == FastValidator::of(format),
        FastValidator::exact(format),
        validator.judge(record, limits) is Accepted,
        record.len() <= limits.max_record_bytes,
        0 <= start,
        holds(input, start, record),
    ensures
        ({
            let settings = ParserSettings::of_format(format, limits);
            settings.rules().read_record(input, start, settings.nulls) matches Scan::Done {
                next,
                ..
            } && next == start + record.len()
        }),
        validator.judge(record, limits) == Verdict::Accepted(occurrences(record, LF) as int),
{
    let settings = ParserSettings::of_format(format, limits);
    let rules = settings.rules();
    let len = record.len() - validator.ending_len();
    let content = record.take(len);
    let feeds = if validator.crlf || validator.terminator == LF {
        1int
    } else {
        0int
    };
    if len == 0 {
        lemma_blank_accepted(validator, content, feeds, limits);
    }
    lemma_fields_scanned(
        validator,
        format,
        rules,
        input,
        start,
        record,
        content,
        0,
        feeds,
        Seq::empty(),
        settings.nulls,
    );
    lemma_verdict_feeds(validator, content, 0, 0, feeds, limits);
    assert(content.subrange(0, len) =~= record.subrange(0, len));
    lemma_feeds_split(record, 0, len, record.len() as int);
    lemma_feeds_one(record, record.len() - 1);
    if validator.crlf {
        lemma_feeds_one(record, len);
        lemma_feeds_split(record, len, len + 1, record.len() as int);
    }
    assert(record.subrange(0, record.len() as int) =~= record);
}

/// An empty record is accepted like any other.
proof fn lemma_blank_accepted(
    validator: FastValidator,
    content: Seq<u8>,
    feeds: int,
    limits: Limits,
)
    requires
        content.len() == 0,
        limits.max_fields > 0,
    ensures
        validator.verdict(content, 0, 0, feeds, limits) == Verdict::Accepted(feeds),
{
    assert(content.subrange(0, 0) =~= Seq::<u8>::empty());
}

/// Whether a refusal names a limit that so many bytes break.
pub open spec fn is_for_cause(kind: ErrorKind, len: int, limits: Limits) -> bool {
    match kind {
        ErrorKind::FieldTooLarge { limit } => limit == limits.max_field_bytes && len > limit,
        ErrorKind::RecordTooLarge { limit } => limit == limits.max_record_bytes && len > limit,
        ErrorKind::TooManyFields { limit } => limit == limits.max_fields && len >= limit,
        _ => false,
    }
}

proof fn lemma_verdict_for_cause(
    validator: FastValidator,
    content: Seq<u8>,
    pos: int,
    count: int,
    feeds: int,
    limits: Limits,
)
    requires
        0 <= count <= pos <= content.len(),
    ensures
        validator.verdict(content, pos, count, feeds, limits) matches Verdict::Refused(kind)
            ==> is_for_cause(kind, content.len() as int, limits),
    decreases content.len() - pos,
{
    lemma_feeds_bounded(validator, content, pos);
    if let Some((_, Some(at), more)) = validator.field(content, pos) {
        if count != limits.max_fields {
            lemma_verdict_for_cause(validator, content, at + 1, count + 1, feeds + more, limits);
        }
    }
}

/// A scan refuses a record for cause only: it is longer than a record or a field
/// may be, or long enough for more fields than allowed; or it is an empty line,
/// and those are no records.
pub proof fn law_a_scan_refuses_for_cause(
    validator: FastValidator,
    record: Seq<u8>,
    limits: Limits,
)
    ensures
        validator.judge(record, limits) matches Verdict::Refused(kind) ==> {
            ||| is_for_cause(kind, record.len() as int, limits)
            ||| kind == ErrorKind::Encode && validator.blank_skip && record.len()
                == validator.ending_len()
        },
{
    let content = record.take(record.len() - validator.ending_len());
    let feeds = if validator.crlf || validator.terminator == LF {
        1int
    } else {
        0int
    };
    if validator.terminated(record) {
        lemma_verdict_for_cause(validator, content, 0, 0, feeds, limits);
    }
}

/// A document passes the check for one record if and only if it holds one and
/// nothing else.
pub proof fn law_one_record_passes_and_nothing_else(
    settings: ParserSettings,
    document: Seq<u8>,
    result: Result<(), Error>,
)
    requires
        checked_as(settings.records(document), document, result),
    ensures
        result is Ok <==> (settings.records(document) matches Listing::Complete(starts)
            && starts.len() == 1),
{
}

} // verus!
