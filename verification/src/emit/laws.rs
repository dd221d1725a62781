//! What is written is read back.

use vstd::prelude::*;

use crate::ascii::{BACKSLASH, CR, SPACE, UPPER_N};
use crate::config::{BlankRecords, Nulls, Quoting};
use crate::emit::encoding::Writing;
use crate::engine::grammar::{Body, Rules, Scan, Step};
use crate::engine::locality::{lemma_first_checked, lemma_first_field};
use crate::engine::Engine;
use crate::options::ParserSettings;
use crate::search::{first_of, lemma_first_of_is};
use crate::slice_parser::Listing;
use crate::storage::{null_field, raw_null, text, Field};

verus! {

/// Whether `bytes` stand in `input` at `at`.
pub open spec fn holds(input: Seq<u8>, at: int, bytes: Seq<u8>) -> bool {
    &&& 0 <= at
    &&& at + bytes.len() <= input.len()
    &&& forall|k: int| 0 <= k < bytes.len() ==> input[at + k] == #[trigger] bytes[k]
}

/// What stands in a part stands in the whole.
pub proof fn lemma_holds_within(
    input: Seq<u8>,
    at: int,
    part: Seq<u8>,
    offset: int,
    bytes: Seq<u8>,
)
    requires
        holds(input, at, part),
        holds(part, offset, bytes),
    ensures
        holds(input, at + offset, bytes),
{
    assert forall|k: int| 0 <= k < bytes.len() implies input[at + offset + k]
        == #[trigger] bytes[k] by {
        assert(part[offset + k] == bytes[k]);
        assert(input[at + (offset + k)] == part[offset + k]);
    }
}

impl Writing {
    /// What a field is after it was written and read: where NULLs are not told
    /// from empty strings, a NULL has become one.
    pub open spec fn read_back(self, field: Field) -> Field {
        if field.null && self.nulls == Nulls::Disabled {
            text(Seq::empty())
        } else {
            field
        }
    }

    /// What the first `count` fields are after they were written and read.
    pub open spec fn all_read_back(self, fields: Seq<Field>, count: int) -> Seq<Field> {
        Seq::new(count as nat, |i: int| self.read_back(fields[i]))
    }

    /// What stands behind a field.
    pub open spec fn separator(self, last: bool) -> Seq<u8> {
        if last {
            self.ending_bytes()
        } else {
            self.delimiter_bytes()
        }
    }

    /// How many bytes of a written field count against the limit on fields.
    pub open spec fn counted(self, field: Field, first: bool) -> int {
        let written = self.field(field, first)->0;
        if !field.null && self.dialect.escape.unquoted_byte() is None && self.quotes(
            field.bytes,
            first,
        ) {
            written.len() - 2
        } else {
            written.len() as int
        }
    }

    /// Whether a field that can be written is read with these rules as what it is.
    pub open spec fn legible(self, rules: Rules, field: Field, first: bool, last: bool) -> bool {
        let written = self.field(field, first);
        &&& written is Some
        &&& field.null ==> field.bytes.len() == 0
        &&& self.counted(field, first) <= rules.limits.max_field_bytes
        // a quoted field is read by rules that know quotes
        &&& !field.null && self.dialect.escape.unquoted_byte() is None && self.quotes(
            field.bytes,
            first,
        ) ==> rules.syntax.quoting_enabled()
        // the bytes of a NULL are content
        &&& field.null && self.nulls == Nulls::Mysql ==> {
            &&& !self.is_structural(BACKSLASH)
            &&& !self.is_structural(UPPER_N)
            &&& self.dialect.escape.unquoted_byte() != Some(UPPER_N)
        }
        // no byte is taken for one of the spaces that are skipped
        &&& rules.skip_initial_space ==> (written->0 + self.separator(last))[0] != SPACE
    }

    /// Whether these rules read what is written this way.
    pub open spec fn read_by(self, rules: Rules) -> bool {
        &&& rules.dialect == self.dialect
        &&& self.dialect.valid()
        &&& self.quoting != Quoting::Raw
    }
}

/// A byte that stops nothing is content.
proof fn lemma_body_skip(
    rules: Rules,
    input: Seq<u8>,
    start: int,
    content: int,
    cursor: int,
    decoded: Seq<u8>,
)
    requires
        0 <= cursor < rules.field_window(input, start, content),
        !rules.quoted_stops()(input[cursor]),
    ensures
        rules.quoted_body(input, start, content, cursor, decoded) == rules.quoted_body(
            input,
            start,
            content,
            cursor + 1,
            decoded.push(input[cursor]),
        ),
{
    let end = rules.field_window(input, start, content);
    let stops = rules.quoted_stops();
    let at = first_of(input, cursor, end, stops);
    assert(at == first_of(input, cursor + 1, end, stops));
    if cursor + 1 < end {
        crate::search::lemma_first_of(input, cursor + 1, end, stops);
        if at < end {
            assert(decoded + input.subrange(cursor, at) =~= decoded.push(input[cursor])
                + input.subrange(cursor + 1, at));
        }
    }
}

/// A guarded byte is read as the byte.
proof fn lemma_body_guard(
    rules: Rules,
    input: Seq<u8>,
    start: int,
    content: int,
    cursor: int,
    decoded: Seq<u8>,
    byte: u8,
    writing: Writing,
)
    requires
        writing.read_by(rules),
        writing.dialect.escape.unquoted_byte() is None,
        0 <= cursor,
        holds(input, cursor, writing.guarded(byte)),
        cursor + writing.guarded(byte).len() < rules.field_window(input, start, content),
    ensures
        rules.quoted_body(input, start, content, cursor, decoded) == rules.quoted_body(
            input,
            start,
            content,
            cursor + writing.guarded(byte).len(),
            decoded.push(byte),
        ),
{
    let guarded = writing.guarded(byte);
    assert(input[cursor] == guarded[0]);
    if guarded.len() == 1 {
        lemma_body_skip(rules, input, start, content, cursor, decoded);
    } else {
        let end = rules.field_window(input, start, content);
        assert(input[cursor + 1] == guarded[1]);
        lemma_first_of_is(input, cursor, end, rules.quoted_stops(), cursor);
        assert(decoded + input.subrange(cursor, cursor) =~= decoded);
    }
}

/// Where the guarded form of a byte stands.
proof fn lemma_guarded_layout(writing: Writing, bytes: Seq<u8>, index: int, count: int)
    requires
        0 <= index < count <= bytes.len(),
    ensures
        ({
            let all = writing.all_guarded(bytes, count);
            let before = writing.all_guarded(bytes, index);
            let piece = writing.guarded(bytes[index]);
            &&& before.len() + piece.len() <= all.len()
            &&& forall|k: int|
                0 <= k < piece.len() ==> all[before.len() + k] == #[trigger] piece[k]
            &&& writing.all_guarded(bytes, index + 1).len() == before.len() + piece.len()
        }),
    decreases count - index,
{
    if index + 1 < count {
        lemma_guarded_layout(writing, bytes, index, count - 1);
        let all = writing.all_guarded(bytes, count);
        let front = writing.all_guarded(bytes, count - 1);
        let before = writing.all_guarded(bytes, index);
        let piece = writing.guarded(bytes[index]);
        assert forall|k: int| 0 <= k < piece.len() implies all[before.len() + k]
            == #[trigger] piece[k] by {
            assert(all[before.len() + k] == front[before.len() + k]);
        }
    }
}

/// The content between two quotes is read byte by byte.
proof fn lemma_body_read(
    rules: Rules,
    writing: Writing,
    input: Seq<u8>,
    start: int,
    content: int,
    bytes: Seq<u8>,
    index: int,
)
    requires
        writing.read_by(rules),
        writing.dialect.escape.unquoted_byte() is None,
        0 <= start <= content,
        0 <= index <= bytes.len(),
        holds(input, content, writing.all_guarded(bytes, bytes.len() as int)),
        content + writing.all_guarded(bytes, bytes.len() as int).len() < rules.field_window(
            input,
            start,
            content,
        ),
    ensures
        rules.quoted_body(
            input,
            start,
            content,
            content + writing.all_guarded(bytes, index).len(),
            bytes.take(index),
        ) == rules.quoted_body(
            input,
            start,
            content,
            content + writing.all_guarded(bytes, bytes.len() as int).len(),
            bytes,
        ),
    decreases bytes.len() - index,
{
    let all = writing.all_guarded(bytes, bytes.len() as int);
    if index < bytes.len() {
        let before = writing.all_guarded(bytes, index);
        let cursor = content + before.len();
        let piece = writing.guarded(bytes[index]);
        lemma_guarded_layout(writing, bytes, index, bytes.len() as int);
        assert forall|k: int| 0 <= k < piece.len() implies input[cursor + k]
            == #[trigger] piece[k] by {
            assert(all[before.len() + k] == piece[k]);
            assert(input[content + (before.len() + k)] == all[before.len() + k]);
        }
        lemma_body_guard(
            rules,
            input,
            start,
            content,
            cursor,
            bytes.take(index),
            bytes[index],
            writing,
        );
        assert(bytes.take(index).push(bytes[index]) =~= bytes.take(index + 1));
        lemma_body_read(rules, writing, input, start, content, bytes, index + 1);
    } else {
        assert(bytes.take(index) =~= bytes);
    }
}

/// A quoted field is read as its content.
proof fn lemma_quoted_read(
    rules: Rules,
    writing: Writing,
    input: Seq<u8>,
    start: int,
    p: int,
    bytes: Seq<u8>,
)
    requires
        writing.read_by(rules),
        writing.dialect.escape.unquoted_byte() is None,
        0 <= start <= p,
        ({
            let guarded = writing.all_guarded(bytes, bytes.len() as int);
            let close = p + 1 + guarded.len();
            &&& holds(
                input,
                p,
                seq![writing.dialect.quote] + guarded + seq![writing.dialect.quote],
            )
            &&& close + 1 < input.len()
            &&& input[close + 1] != writing.dialect.quote
            &&& guarded.len() <= rules.limits.max_field_bytes
            &&& close + 1 <= start + rules.limits.max_record_bytes
        }),
    ensures
        rules.quoted_body(input, start, p + 1, p + 1, Seq::empty()) == (Body::Closed {
            bytes,
            after: p + 2 + writing.all_guarded(bytes, bytes.len() as int).len(),
        }),
        input[p] == writing.dialect.quote,
{
    let quote = writing.dialect.quote;
    let guarded = writing.all_guarded(bytes, bytes.len() as int);
    let written = seq![quote] + guarded + seq![quote];
    let close = p + 1 + guarded.len();
    let end = rules.field_window(input, start, p + 1);
    assert(input[p + 0] == written[0]);
    assert(input[p + (1 + guarded.len())] == written[1 + guarded.len() as int]);
    assert forall|k: int| 0 <= k < guarded.len() implies input[p + 1 + k] == #[trigger] guarded[k] by {
        assert(input[p + (1 + k)] == written[1 + k]);
    }
    lemma_body_read(rules, writing, input, start, p + 1, bytes, 0);
    assert(bytes.take(0) =~= Seq::<u8>::empty());
    lemma_first_of_is(input, close, end, rules.quoted_stops(), close);
    assert(bytes + input.subrange(close, close) =~= bytes);
}

/// What stands behind a field: a whole delimiter, or a whole record ending.
pub proof fn lemma_separators(writing: Writing)
    requires
        writing.dialect.valid(),
    ensures
        ({
            let delimiter = writing.delimiter_bytes();
            let tail = writing.dialect.delimiter_tail.text();
            &&& delimiter.len() == writing.dialect.delimiter_len()
            &&& delimiter[0] == writing.dialect.delimiter
            &&& forall|i: int| 0 <= i < tail.len() ==> delimiter[1 + i] == #[trigger] tail[i]
        }),
        ({
            let ending = writing.ending_bytes();
            let tail = writing.dialect.ending_tail.text();
            let crlf = writing.dialect.record_ending is CrLf;
            let at: int = if crlf {
                1
            } else {
                0
            };
            &&& ending.len() == at + 1 + tail.len()
            &&& crlf ==> ending[0] == CR
            &&& ending[at] == writing.dialect.record_ending.byte()
            &&& forall|i: int| 0 <= i < tail.len() ==> ending[at + 1 + i] == #[trigger] tail[i]
        }),
{
    writing.dialect.delimiter_tail.lemma_bytes_len();
    writing.dialect.ending_tail.lemma_bytes_len();
}

/// Whether a written field and what stands behind it are at `p`, inside a record
/// that starts at `start` and is not too long.
pub open spec fn standing(
    rules: Rules,
    writing: Writing,
    input: Seq<u8>,
    start: int,
    p: int,
    field: Field,
    first: bool,
    last: bool,
) -> bool {
    let written = writing.field(field, first)->0;
    let next = p + written.len() + writing.separator(last).len();
    &&& writing.read_by(rules)
    &&& 0 <= start <= p
    &&& writing.legible(rules, field, first, last)
    &&& holds(input, p, written + writing.separator(last))
    &&& next - start <= rules.limits.max_record_bytes
}

/// What is known of the bytes of a standing field.
proof fn lemma_standing(
    rules: Rules,
    writing: Writing,
    input: Seq<u8>,
    start: int,
    p: int,
    field: Field,
    first: bool,
    last: bool,
)
    requires
        standing(rules, writing, input, start, p, field, first, last),
    ensures
        ({
            let written = writing.field(field, first)->0;
            let at = p + written.len();
            &&& holds(input, p, written)
            &&& at < input.len()
            &&& input.subrange(p, at) == written
            &&& input[at] == writing.separator(last)[0]
            &&& last && writing.dialect.record_ending is CrLf ==> rules.dialect.breaks_crlf(
                input,
                at,
            )
            &&& last && !(writing.dialect.record_ending is CrLf) ==> rules.dialect.breaks(input, at)
            &&& !last ==> rules.dialect.delimits(input, at)
            &&& writing.separator(last).len() == if !last {
                rules.dialect.delimiter_len()
            } else if writing.dialect.record_ending is CrLf {
                2 + rules.dialect.ending_tail.text().len() as int
            } else {
                1 + rules.dialect.ending_tail.text().len() as int
            }
            &&& rules.skip_initial_space ==> input[p] != SPACE
        }),
{
    lemma_separators(writing);
    let written = writing.field(field, first)->0;
    let all = written + writing.separator(last);
    let at = p + written.len();
    assert forall|k: int| 0 <= k < written.len() implies input[p + k] == #[trigger] written[k] by {
        assert(input[p + k] == all[k]);
    }
    let separator = writing.separator(last);
    assert forall|k: int| 0 <= k < separator.len() implies input[at + k] == #[trigger] separator[k] by {
        assert(input[p + (written.len() + k)] == all[written.len() + k]);
    }
    let tail = if last {
        rules.dialect.ending_tail.text()
    } else {
        rules.dialect.delimiter_tail.text()
    };
    let base: int = if last && writing.dialect.record_ending is CrLf {
        2
    } else {
        1
    };
    assert(input[at + 0] == separator[0]);
    assert(input[at + (base - 1)] == separator[base - 1]);
    assert forall|i: int| 0 <= i < tail.len() implies input[at + base + i] == #[trigger] tail[i] by {
        assert(separator[base + i] == tail[i]);
        assert(input[at + (base + i)] == separator[base + i]);
    }
    assert(input.subrange(p, at) =~= written);
    assert(input[p + 0] == all[0]);
}

/// A field written as it is, or as a NULL, is read as what it is.
proof fn lemma_plain_read(
    rules: Rules,
    writing: Writing,
    input: Seq<u8>,
    start: int,
    p: int,
    field: Field,
    first: bool,
    last: bool,
    count: int,
)
    requires
        standing(rules, writing, input, start, p, field, first, last),
        Engine::supports(rules.dialect),
        0 <= count < rules.limits.max_fields,
        field.null || !writing.quotes(field.bytes, first),
    ensures
        rules.field_step(input, start, p, count, writing.nulls) == (Step::Read {
            field: writing.read_back(field),
            next: p + writing.field(field, first)->0.len() + writing.separator(last).len(),
            last,
        }),
{
    lemma_standing(rules, writing, input, start, p, field, first, last);
    let written = writing.field(field, first)->0;
    let at = p + written.len();
    let end = rules.field_window(input, start, p);
    let stops = rules.unquoted_stops();
    assert forall|k: int| 0 <= k < written.len() implies !#[trigger] writing.is_structural(
        written[k],
    ) by {
        if !field.null {
            assert(!writing.is_structural(field.bytes[k]));
        }
    }
    assert forall|i: int| p <= i < at implies !stops(#[trigger] input[i]) by {
        assert(input[p + (i - p)] == written[i - p]);
        assert(!writing.is_structural(written[i - p]));
    }
    assert(input[at] != writing.dialect.quote);
    if written.len() > 0 {
        assert(input[p + 0] == written[0]);
        assert(!writing.is_structural(written[0]));
        assert(input[p + (written.len() - 1)] == written[written.len() - 1]);
        assert(!writing.is_structural(written[written.len() - 1]));
    }
    assert(!rules.opens_quoted(input, p));
    lemma_first_of_is(input, p, end, stops, at);
    assert(rules.unquoted_end(input, p, at) == at);
    if field.null {
        assert(field.bytes =~= Seq::<u8>::empty());
        if writing.nulls == Nulls::Disabled {
            assert(written =~= Seq::<u8>::empty());
        }
    }
}

/// A quoted field is read as what it is.
proof fn lemma_quoted_step_read(
    rules: Rules,
    writing: Writing,
    input: Seq<u8>,
    start: int,
    p: int,
    field: Field,
    first: bool,
    last: bool,
    count: int,
)
    requires
        standing(rules, writing, input, start, p, field, first, last),
        writing.dialect.escape.unquoted_byte() is None,
        0 <= count < rules.limits.max_fields,
        !field.null,
        writing.quotes(field.bytes, first),
    ensures
        Engine::supports(rules.dialect) ==> rules.field_step(
            input,
            start,
            p,
            count,
            writing.nulls,
        ) == (Step::Read {
            field: writing.read_back(field),
            next: p + writing.field(field, first)->0.len() + writing.separator(last).len(),
            last,
        }),
        !Engine::supports(rules.dialect) ==> rules.checked_step(
            input,
            start,
            p,
            count,
            writing.nulls,
        ) == (Step::Read {
            field: writing.read_back(field),
            next: p + writing.field(field, first)->0.len() + writing.separator(last).len(),
            last,
        }),
{
    lemma_standing(rules, writing, input, start, p, field, first, last);
    let written = writing.field(field, first)->0;
    let at = p + written.len();
    lemma_quoted_read(rules, writing, input, start, p, field.bytes);
    assert(!rules.is_padding(input[at]));
    assert(rules.skip_padding(input, at) == at);
}

/// Bytes that are content are read as they are.
proof fn lemma_text_plain(
    rules: Rules,
    writing: Writing,
    input: Seq<u8>,
    start: int,
    p: int,
    bytes: Seq<u8>,
    index: int,
)
    requires
        writing.read_by(rules),
        0 <= start <= p,
        0 <= index <= bytes.len(),
        holds(input, p, bytes),
        p + bytes.len() < rules.field_window(input, start, p),
        forall|k: int|
            0 <= k < bytes.len() ==> !#[trigger] writing.is_structural(bytes[k])
                && writing.dialect.escape.unquoted_byte() != Some(bytes[k]),
    ensures
        rules.text_body(input, start, p, p + index, bytes.take(index)) == rules.text_body(
            input,
            start,
            p,
            p + bytes.len(),
            bytes,
        ),
    decreases bytes.len() - index,
{
    if index < bytes.len() {
        assert(input[p + index] == bytes[index]);
        assert(!writing.is_structural(bytes[index]));
        assert(rules.mark(input, p + index) is Content);
        assert(bytes.take(index).push(bytes[index]) =~= bytes.take(index + 1));
        lemma_text_plain(rules, writing, input, start, p, bytes, index + 1);
    } else {
        assert(bytes.take(index) =~= bytes);
    }
}

/// Where the escaped form of a byte stands.
proof fn lemma_shielded_layout(
    writing: Writing,
    bytes: Seq<u8>,
    index: int,
    count: int,
    first: bool,
)
    requires
        0 <= index < count <= bytes.len(),
    ensures
        ({
            let all = writing.all_shielded(bytes, count, first);
            let before = writing.all_shielded(bytes, index, first);
            let piece = writing.shielded(bytes, index, first);
            &&& before.len() + piece.len() <= all.len()
            &&& forall|k: int|
                0 <= k < piece.len() ==> all[before.len() + k] == #[trigger] piece[k]
            &&& writing.all_shielded(bytes, index + 1, first).len() == before.len() + piece.len()
        }),
    decreases count - index,
{
    if index + 1 < count {
        lemma_shielded_layout(writing, bytes, index, count - 1, first);
        let all = writing.all_shielded(bytes, count, first);
        let front = writing.all_shielded(bytes, count - 1, first);
        let before = writing.all_shielded(bytes, index, first);
        let piece = writing.shielded(bytes, index, first);
        assert forall|k: int| 0 <= k < piece.len() implies all[before.len() + k]
            == #[trigger] piece[k] by {
            assert(all[before.len() + k] == front[before.len() + k]);
        }
    }
}

/// Escaped text is read as what was escaped.
proof fn lemma_text_shielded(
    rules: Rules,
    writing: Writing,
    input: Seq<u8>,
    start: int,
    p: int,
    bytes: Seq<u8>,
    index: int,
    first: bool,
)
    requires
        writing.read_by(rules),
        writing.dialect.escape.unquoted_byte() is Some,
        writing.shieldable(bytes, first),
        0 <= start <= p,
        0 <= index <= bytes.len(),
        holds(input, p, writing.all_shielded(bytes, bytes.len() as int, first)),
        p + writing.all_shielded(bytes, bytes.len() as int, first).len() < rules.field_window(
            input,
            start,
            p,
        ),
    ensures
        rules.text_body(
            input,
            start,
            p,
            p + writing.all_shielded(bytes, index, first).len(),
            bytes.take(index),
        ) == rules.text_body(
            input,
            start,
            p,
            p + writing.all_shielded(bytes, bytes.len() as int, first).len(),
            bytes,
        ),
    decreases bytes.len() - index,
{
    let all = writing.all_shielded(bytes, bytes.len() as int, first);
    if index < bytes.len() {
        let before = writing.all_shielded(bytes, index, first);
        let cursor = p + before.len();
        let piece = writing.shielded(bytes, index, first);
        lemma_shielded_layout(writing, bytes, index, bytes.len() as int, first);
        assert(all[before.len() as int] == piece[0]);
        assert(input[p + (before.len() as int)] == all[before.len() as int]);
        assert(input[cursor] == piece[0]);
        if writing.escapes(bytes, index, first) {
            assert(all[before.len() as int + 1] == piece[1]);
            assert(input[p + (before.len() + 1)] == all[before.len() as int + 1]);
            assert(rules.mark(input, cursor) is Escape);
            assert(rules.unescaped(input[cursor + 1]) == bytes[index]);
        } else {
            assert(rules.mark(input, cursor) is Content);
        }
        assert(bytes.take(index).push(bytes[index]) =~= bytes.take(index + 1));
        lemma_text_shielded(rules, writing, input, start, p, bytes, index + 1, first);
    } else {
        assert(bytes.take(index) =~= bytes);
    }
}

/// A NULL is read as unquoted text of its length.
proof fn lemma_text_null(
    rules: Rules,
    writing: Writing,
    input: Seq<u8>,
    start: int,
    p: int,
)
    requires
        writing.read_by(rules),
        0 <= start <= p,
        writing.nulls == Nulls::Mysql ==> {
            &&& !writing.is_structural(BACKSLASH)
            &&& !writing.is_structural(UPPER_N)
            &&& writing.dialect.escape.unquoted_byte() != Some(UPPER_N)
        },
        holds(input, p, writing.null_bytes()),
        p + writing.null_bytes().len() < rules.field_window(input, start, p),
    ensures
        exists|bytes: Seq<u8>|
            #![trigger rules.text_body(
                input,
                start,
                p,
                p + writing.null_bytes().len(),
                bytes,
            )]
            rules.text_body(input, start, p, p, Seq::empty()) == rules.text_body(
                input,
                start,
                p,
                p + writing.null_bytes().len(),
                bytes,
            ) && (writing.nulls != Nulls::Mysql ==> bytes.len() == 0),
{
    let none = Seq::<u8>::empty();
    let written = writing.null_bytes();
    if writing.nulls == Nulls::Mysql {
        assert(input[p + 0] == written[0]);
        assert(input[p + 1] == written[1]);
        if writing.dialect.escape.unquoted_byte() == Some(BACKSLASH) {
            assert(rules.mark(input, p) is Escape);
            let bytes = none.push(rules.unescaped(UPPER_N));
            assert(rules.text_body(input, start, p, p, none) == rules.text_body(
                input,
                start,
                p,
                p + 2,
                bytes,
            ));
        } else {
            lemma_text_plain(rules, writing, input, start, p, written, 0);
            assert(written.take(0) =~= none);
        }
    } else {
        assert(rules.text_body(input, start, p, p, none) == rules.text_body(
            input,
            start,
            p,
            p + written.len(),
            none,
        ));
    }
}

/// Unquoted text that ends before a separator is a field.
proof fn lemma_text_field(
    rules: Rules,
    writing: Writing,
    input: Seq<u8>,
    start: int,
    p: int,
    field: Field,
    first: bool,
    last: bool,
    count: int,
    bytes: Seq<u8>,
)
    requires
        standing(rules, writing, input, start, p, field, first, last),
        0 <= count < rules.limits.max_fields,
        rules.text_body(input, start, p, p, Seq::empty()) == rules.text_body(
            input,
            start,
            p,
            p + writing.field(field, first)->0.len(),
            bytes,
        ),
        writing.counted(field, first) == writing.field(field, first)->0.len(),
        if raw_null(writing.nulls, writing.field(field, first)->0) {
            writing.read_back(field) == null_field()
        } else {
            writing.read_back(field) == text(bytes)
        },
    ensures
        rules.text_step(input, start, p, count, writing.nulls) == (Step::Read {
            field: writing.read_back(field),
            next: p + writing.field(field, first)->0.len() + writing.separator(last).len(),
            last,
        }),
{
    lemma_standing(rules, writing, input, start, p, field, first, last);
    let at = p + writing.field(field, first)->0.len();
    let mark = rules.mark(input, at);
    if !last {
        assert(mark is Delimiter);
    } else if writing.dialect.record_ending is CrLf {
        assert(mark is CrLf);
    } else {
        assert(mark is Ending);
    }
    assert(rules.text_body(input, start, p, at, bytes) == (Body::Closed { bytes, after: at }));
}

/// A field that is not quoted is read as what it is, in a dialect that needs the
/// checked reading.
proof fn lemma_checked_plain_read(
    rules: Rules,
    writing: Writing,
    input: Seq<u8>,
    start: int,
    p: int,
    field: Field,
    first: bool,
    last: bool,
    count: int,
)
    requires
        standing(rules, writing, input, start, p, field, first, last),
        !Engine::supports(rules.dialect),
        0 <= count < rules.limits.max_fields,
        field.null || writing.dialect.escape.unquoted_byte() is Some || !writing.quotes(
            field.bytes,
            first,
        ),
    ensures
        rules.checked_step(input, start, p, count, writing.nulls) == (Step::Read {
            field: writing.read_back(field),
            next: p + writing.field(field, first)->0.len() + writing.separator(last).len(),
            last,
        }),
{
    lemma_standing(rules, writing, input, start, p, field, first, last);
    let none = Seq::<u8>::empty();
    let written = writing.field(field, first)->0;
    let at = p + written.len();
    if field.null {
        lemma_text_null(rules, writing, input, start, p);
        let bytes = choose|bytes: Seq<u8>|
            #![trigger rules.text_body(
                input,
                start,
                p,
                p + writing.null_bytes().len(),
                bytes,
            )]
            rules.text_body(input, start, p, p, Seq::empty()) == rules.text_body(
                input,
                start,
                p,
                p + writing.null_bytes().len(),
                bytes,
            ) && (writing.nulls != Nulls::Mysql ==> bytes.len() == 0);
        assert(field.bytes =~= none);
        if writing.nulls != Nulls::Mysql {
            assert(bytes =~= none);
        }
        lemma_text_field(rules, writing, input, start, p, field, first, last, count, bytes);
    } else if writing.dialect.escape.unquoted_byte() is Some {
        lemma_text_shielded(rules, writing, input, start, p, field.bytes, 0, first);
        assert(field.bytes.take(0) =~= none);
        lemma_text_field(
            rules,
            writing,
            input,
            start,
            p,
            field,
            first,
            last,
            count,
            field.bytes,
        );
    } else {
        assert forall|k: int| 0 <= k < written.len() implies !#[trigger] writing.is_structural(
            written[k],
        ) by {
            assert(!writing.is_structural(field.bytes[k]));
        }
        lemma_text_plain(rules, writing, input, start, p, written, 0);
        assert(written.take(0) =~= none);
        lemma_text_field(rules, writing, input, start, p, field, first, last, count, written);
    }
    if written.len() > 0 {
        assert(input[p + 0] == written[0]);
    }
    if writing.dialect.escape.unquoted_byte() is None {
        if written.len() > 0 {
            assert(!writing.is_structural(written[0]));
        }
        assert(!rules.opens_quoted(input, p));
    }
}

impl Writing {
    /// Whether a record that can be written is read with these rules as what it is.
    pub open spec fn legible_record(self, rules: Rules, fields: Seq<Field>) -> bool {
        &&& self.read_by(rules)
        &&& 0 < fields.len() <= rules.limits.max_fields
        &&& self.record(fields) is Some
        &&& self.record(fields)->0.len() <= rules.limits.max_record_bytes
        &&& forall|i: int|
            0 <= i < fields.len() ==> self.legible(
                rules,
                #[trigger] fields[i],
                i == 0,
                i == fields.len() - 1,
            )
    }

    /// Where field `index` of a record starts, from the start of the record on.
    pub open spec fn offset(self, fields: Seq<Field>, index: int) -> int {
        if index <= 0 {
            0
        } else {
            (self.fields(fields, index)->0.len() + self.delimiter_bytes().len()) as int
        }
    }
}

/// Where the fields of a written record stand.
proof fn lemma_fields_layout(writing: Writing, fields: Seq<Field>, index: int, count: int)
    requires
        0 < index <= count,
        writing.fields(fields, count) is Some,
    ensures
        writing.fields(fields, index) is Some,
        ({
            let all = writing.fields(fields, count)->0;
            let front = writing.fields(fields, index)->0;
            let delimiter = writing.delimiter_bytes();
            &&& front.len() <= all.len()
            &&& forall|k: int| 0 <= k < front.len() ==> all[k] == #[trigger] front[k]
            &&& index < count ==> {
                &&& front.len() + delimiter.len() <= all.len()
                &&& forall|k: int|
                    0 <= k < delimiter.len() ==> all[front.len() + k] == #[trigger] delimiter[k]
            }
        }),
    decreases count - index,
{
    if index < count {
        lemma_fields_layout(writing, fields, index, count - 1);
        let all = writing.fields(fields, count)->0;
        let most = writing.fields(fields, count - 1)->0;
        let front = writing.fields(fields, index)->0;
        let delimiter = writing.delimiter_bytes();
        assert forall|k: int| 0 <= k < front.len() implies all[k] == #[trigger] front[k] by {
            assert(all[k] == most[k]);
        }
        assert forall|k: int| 0 <= k < delimiter.len() implies all[front.len() + k]
            == #[trigger] delimiter[k] by {
            if index < count - 1 {
                assert(all[front.len() + k] == most[front.len() + k]);
            }
        }
    }
}

/// Each field of a written record stands where it was written.
proof fn lemma_field_stands(
    rules: Rules,
    writing: Writing,
    input: Seq<u8>,
    start: int,
    fields: Seq<Field>,
    index: int,
)
    requires
        writing.legible_record(rules, fields),
        0 <= start,
        holds(input, start, writing.record(fields)->0),
        0 <= index < fields.len(),
    ensures
        standing(
            rules,
            writing,
            input,
            start,
            start + writing.offset(fields, index),
            fields[index],
            index == 0,
            index == fields.len() - 1,
        ),
        ({
            let next = writing.offset(fields, index) + writing.field(
                fields[index],
                index == 0,
            )->0.len() + writing.separator(index == fields.len() - 1).len();
            if index == fields.len() - 1 {
                next == writing.record(fields)->0.len()
            } else {
                next == writing.offset(fields, index + 1)
            }
        }),
{
    let n = fields.len() as int;
    let last = index == n - 1;
    let body = writing.fields(fields, n)->0;
    let record = writing.record(fields)->0;
    let up_to = writing.fields(fields, index + 1)->0;
    let front = writing.fields(fields, index)->0;
    let written = writing.field(fields[index], index == 0)->0;
    let separator = writing.separator(last);
    let offset = writing.offset(fields, index);
    let delimiter = writing.delimiter_bytes();
    assert(writing.legible(rules, fields[index], index == 0, last));
    lemma_fields_layout(writing, fields, index + 1, n);
    if index > 0 {
        lemma_fields_layout(writing, fields, index, n);
    }
    assert(up_to.len() == offset + written.len());
    let whole = written + separator;
    assert forall|k: int| 0 <= k < whole.len() implies input[start + offset + k]
        == #[trigger] whole[k] by {
        assert(input[start + (offset + k)] == record[offset + k]);
        if k < written.len() {
            assert(up_to[offset + k] == written[k]);
            assert(body[offset + k] == up_to[offset + k]);
            assert(record[offset + k] == body[offset + k]);
        } else if last {
            assert(record[offset + k] == writing.ending_bytes()[k - written.len()]);
        } else {
            let d = k - written.len();
            assert(body[up_to.len() + d] == delimiter[d]);
            assert(record[offset + k] == body[offset + k]);
        }
    }
}

/// A field is read as what it is.
proof fn lemma_field_read(
    rules: Rules,
    writing: Writing,
    input: Seq<u8>,
    start: int,
    p: int,
    field: Field,
    first: bool,
    last: bool,
    count: int,
)
    requires
        standing(rules, writing, input, start, p, field, first, last),
        0 <= count < rules.limits.max_fields,
    ensures
        ({
            let read = Step::Read {
                field: writing.read_back(field),
                next: p + writing.field(field, first)->0.len() + writing.separator(last).len(),
                last,
            };
            if Engine::supports(rules.dialect) {
                rules.field_step(input, start, p, count, writing.nulls) == read
            } else {
                rules.checked_step(input, start, p, count, writing.nulls) == read
            }
        }),
        rules.skip_spaces(input, start, p) == p,
{
    lemma_standing(rules, writing, input, start, p, field, first, last);
    let escaped = writing.dialect.escape.unquoted_byte() is Some;
    if !escaped && !field.null && writing.quotes(field.bytes, first) {
        lemma_quoted_step_read(rules, writing, input, start, p, field, first, last, count);
    } else if Engine::supports(rules.dialect) {
        lemma_plain_read(rules, writing, input, start, p, field, first, last, count);
    } else {
        lemma_checked_plain_read(rules, writing, input, start, p, field, first, last, count);
    }
}

/// The fields of a written record are read from field `index` on.
proof fn lemma_fields_read(
    rules: Rules,
    writing: Writing,
    input: Seq<u8>,
    start: int,
    fields: Seq<Field>,
    index: int,
)
    requires
        writing.legible_record(rules, fields),
        0 <= start,
        holds(input, start, writing.record(fields)->0),
        0 <= index < fields.len(),
    ensures
        ({
            let p = start + writing.offset(fields, index);
            let before = writing.all_read_back(fields, index);
            let done = Scan::Done {
                fields: writing.all_read_back(fields, fields.len() as int),
                next: start + writing.record(fields)->0.len(),
            };
            if Engine::supports(rules.dialect) {
                rules.read_fields(input, start, p, before, writing.nulls) == done
            } else {
                rules.read_checked(input, start, p, before, writing.nulls) == done
            }
        }),
    decreases fields.len() - index,
{
    let p = start + writing.offset(fields, index);
    let first = index == 0;
    let last = index == fields.len() - 1;
    let before = writing.all_read_back(fields, index);
    let field = fields[index];
    let next = p + writing.field(field, first)->0.len() + writing.separator(last).len();
    let step = Step::Read { field: writing.read_back(field), next, last };
    lemma_field_stands(rules, writing, input, start, fields, index);
    lemma_separators(writing);
    lemma_field_read(rules, writing, input, start, p, field, first, last, index);
    if Engine::supports(rules.dialect) {
        lemma_first_field(rules, input, start, p, p, step, before, writing.nulls);
    } else {
        lemma_first_checked(rules, input, start, p, p, step, before, writing.nulls);
    }
    assert(before.push(writing.read_back(field)) =~= writing.all_read_back(fields, index + 1));
    if !last {
        lemma_fields_read(rules, writing, input, start, fields, index + 1);
    }
}

/// A record that was written is read back, wherever it stands: the fields are
/// the ones that were written, and the next record starts right behind it.
pub proof fn law_a_written_record_is_read_back(
    rules: Rules,
    writing: Writing,
    input: Seq<u8>,
    start: int,
    fields: Seq<Field>,
)
    requires
        writing.legible_record(rules, fields),
        0 <= start,
        holds(input, start, writing.record(fields)->0),
    ensures
        rules.read_record(input, start, writing.nulls) == (Scan::Done {
            fields: writing.all_read_back(fields, fields.len() as int),
            next: start + writing.record(fields)->0.len(),
        }),
{
    lemma_fields_read(rules, writing, input, start, fields, 0);
    assert(writing.all_read_back(fields, 0) =~= Seq::<Field>::empty());
}

impl Writing {
    /// What the first `count` records are written as, one behind the other.
    pub open spec fn document(self, rows: Seq<Seq<Field>>, count: int) -> Seq<u8>
        decreases count,
    {
        if count <= 0 {
            Seq::empty()
        } else {
            self.document(rows, count - 1) + self.record(rows[count - 1])->0
        }
    }

    /// Where the records of a document start whose first one is at `base`.
    pub open spec fn starts(self, rows: Seq<Seq<Field>>, base: int, count: int) -> Seq<int> {
        Seq::new(count as nat, |i: int| base + self.document(rows, i).len())
    }

    /// Whether a written record is taken for a record: not for a comment, and
    /// not for an empty line that is skipped.
    pub open spec fn visible(self, settings: ParserSettings, fields: Seq<Field>) -> bool {
        let head = self.record(fields)->0[0];
        &&& settings.dialect.comment != Some(head)
        &&& settings.blank_records == BlankRecords::Skip ==> !self.dialect.record_ending.contains(
            head,
        )
    }

    /// Whether a reader with these settings finds every record of a document.
    pub open spec fn legible_document(self, settings: ParserSettings, rows: Seq<Seq<Field>>) -> bool {
        &&& self.nulls == settings.nulls
        &&& forall|i: int|
            0 <= i < rows.len() ==> self.legible_record(settings.rules(), #[trigger] rows[i])
                && self.visible(settings, rows[i])
    }
}

/// Each record of a document stands where it was written.
pub proof fn lemma_record_stands(writing: Writing, rows: Seq<Seq<Field>>, index: int, count: int)
    requires
        0 <= index < count,
    ensures
        holds(
            writing.document(rows, count),
            writing.document(rows, index).len() as int,
            writing.record(rows[index])->0,
        ),
        writing.document(rows, index + 1).len() == writing.document(rows, index).len()
            + writing.record(rows[index])->0.len(),
    decreases count - index,
{
    let all = writing.document(rows, count);
    let front = writing.document(rows, index);
    let record = writing.record(rows[index])->0;
    if index + 1 < count {
        lemma_record_stands(writing, rows, index, count - 1);
        let most = writing.document(rows, count - 1);
        assert forall|k: int| 0 <= k < record.len() implies all[front.len() + k]
            == #[trigger] record[k] by {
            assert(all[front.len() + k] == most[front.len() + k]);
        }
    }
}

/// The records of a written document are listed from record `index` on.
proof fn lemma_document_listed(
    settings: ParserSettings,
    writing: Writing,
    rows: Seq<Seq<Field>>,
    input: Seq<u8>,
    base: int,
    index: int,
)
    requires
        writing.legible_document(settings, rows),
        0 <= base,
        input.len() == base + writing.document(rows, rows.len() as int).len(),
        holds(input, base, writing.document(rows, rows.len() as int)),
        0 <= index <= rows.len(),
    ensures
        settings.listing(
            input,
            base + writing.document(rows, index).len(),
            writing.starts(rows, base, index),
        ) == Listing::Complete(writing.starts(rows, base, rows.len() as int)),
    decreases rows.len() - index,
{
    if index < rows.len() {
        let offset = writing.document(rows, index).len() as int;
        let at = base + offset;
        let record = writing.record(rows[index])->0;
        lemma_record_stands(writing, rows, index, rows.len() as int);
        assert(writing.legible_record(settings.rules(), rows[index]));
        lemma_separators(writing);
        lemma_holds_within(
            input,
            base,
            writing.document(rows, rows.len() as int),
            offset,
            record,
        );
        assert(input[at + 0] == record[0]);
        assert(settings.record_start(input, at) == at);
        law_a_written_record_is_read_back(settings.rules(), writing, input, at, rows[index]);
        assert(writing.starts(rows, base, index).push(at) =~= writing.starts(
            rows,
            base,
            index + 1,
        ));
        lemma_document_listed(settings, writing, rows, input, base, index + 1);
    }
}

/// A document that was written, with or without a byte-order mark in front, holds
/// the records that were written and no others.
pub proof fn law_a_written_document_is_listed(
    settings: ParserSettings,
    writing: Writing,
    rows: Seq<Seq<Field>>,
    input: Seq<u8>,
    base: int,
)
    requires
        writing.legible_document(settings, rows),
        base == settings.document_start(input),
        input.len() == base + writing.document(rows, rows.len() as int).len(),
        holds(input, base, writing.document(rows, rows.len() as int)),
    ensures
        settings.records(input) == Listing::Complete(
            writing.starts(rows, base, rows.len() as int),
        ),
        forall|i: int|
            0 <= i < rows.len() ==> #[trigger] settings.rules().read_record(
                input,
                writing.starts(rows, base, rows.len() as int)[i],
                settings.nulls,
            ) == (Scan::Done {
                fields: writing.all_read_back(rows[i], rows[i].len() as int),
                next: base + writing.document(rows, i + 1).len(),
            }),
{
    assert(writing.starts(rows, base, 0) =~= Seq::<int>::empty());
    lemma_document_listed(settings, writing, rows, input, base, 0);
    let all = writing.document(rows, rows.len() as int);
    assert forall|i: int| 0 <= i < rows.len() implies #[trigger] settings.rules().read_record(
        input,
        writing.starts(rows, base, rows.len() as int)[i],
        settings.nulls,
    ) == (Scan::Done {
        fields: writing.all_read_back(rows[i], rows[i].len() as int),
        next: base + writing.document(rows, i + 1).len(),
    }) by {
        let offset = writing.document(rows, i).len() as int;
        let at = base + offset;
        let record = writing.record(rows[i])->0;
        lemma_record_stands(writing, rows, i, rows.len() as int);
        assert(writing.legible_record(settings.rules(), rows[i]));
        lemma_holds_within(input, base, all, offset, record);
        law_a_written_record_is_read_back(settings.rules(), writing, input, at, rows[i]);
    }
}

} // verus!
