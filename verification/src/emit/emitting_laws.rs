//! What holds of the records that are emitted.

use vstd::prelude::*;

use crate::byte_record::ByteRecord;
use crate::config::{Escape, FieldCount, Limits, Nulls, Quoting, ReadBom, RecordEnding, WriteBom};
use crate::emit::encoding::{Numeral, Writing};
use crate::emit::push_emitter::{all_rows, emits, emits_named, Emitting, PushEmitter};
use crate::engine::has_bom;
use crate::engine::reading_laws::{escape_of, escaped, is_record, law_what_bytes_say_is_read};
use crate::error::{Error, ErrorKind, IoError, IoErrorKind};
use crate::generate::{appending, preamble_bytes};
use crate::io_emitter::{
    counts_first, emits_all, emits_to, flushed, handed_over, understood, Confirmation, Handover,
    IoEmitter, Sink,
};
use crate::options::{EmitOptions, FormatOptions, ParserSettings};
use crate::storage::{null_field, text, Field};

verus! {

/// Whether the next record must have this number of fields: an exact number is
/// asked for, or that of the first record, which was emitted.
pub open spec fn asks_for(emitting: Emitting, count: usize) -> bool {
    ||| emitting.field_count == FieldCount::Exact(count)
    ||| emitting.field_count == FieldCount::MatchFirst && emitting.expected_fields == Some(count)
}

/// Whether the next record may have any number of fields: no number is asked
/// for, or that of the first record, which is still to come.
pub open spec fn asks_for_none(emitting: Emitting) -> bool {
    ||| emitting.field_count == FieldCount::Flexible
    ||| emitting.field_count == FieldCount::MatchFirst && emitting.expected_fields is None
}

/// A record with another number of fields than is asked for is refused, be they
/// fewer or more, and nothing is emitted; where none is asked for, no record is
/// refused for its number of fields.
pub proof fn law_another_number_of_fields_is_refused(
    before: PushEmitter,
    after: PushEmitter,
    fields: Seq<Field>,
    result: Result<(), Error>,
    count: usize,
)
    requires
        fields.len() <= usize::MAX,
        emits(before, after, fields, result),
    ensures
        asks_for(before.emitting(), count) && fields.len() != count ==> {
            &&& result matches Err(error) && error.spec_kind() == (ErrorKind::FieldCountMismatch {
                expected: count,
                actual: fields.len() as usize,
            })
            &&& after.output() == before.output()
            &&& after.emitting() == before.emitting()
        },
        asks_for(before.emitting(), count) && result is Ok ==> fields.len() == count,
        asks_for_none(before.emitting()) || (asks_for(before.emitting(), count) && fields.len()
            == count) ==> {
            result matches Err(error) ==> error.spec_kind() == ErrorKind::Encode
        },
{
}

/// Where records must match the first one, one that is emitted fixes the number
/// of fields: a later one with another number is refused, one with the same
/// number is not refused for it.
pub proof fn law_a_record_fixes_the_number_of_fields(
    start: PushEmitter,
    between: PushEmitter,
    end: PushEmitter,
    first: Seq<Field>,
    second: Seq<Field>,
    result: Result<(), Error>,
)
    requires
        first.len() <= usize::MAX,
        second.len() <= usize::MAX,
        start.emitting().field_count == FieldCount::MatchFirst,
        emits(start, between, first, Ok(())),
        emits(between, end, second, result),
    ensures
        result is Ok ==> first.len() == second.len(),
        first.len() != second.len() ==> {
            &&& result matches Err(error) && error.spec_kind() == (ErrorKind::FieldCountMismatch {
                expected: first.len() as usize,
                actual: second.len() as usize,
            })
            &&& end.output() == between.output()
        },
        first.len() == second.len() ==> (result matches Err(error) ==> error.spec_kind()
            == ErrorKind::Encode),
{
}

/// The number of fields that is asked for stays what it is while records are
/// emitted.
proof fn lemma_number_asked_for(emitting: Emitting, rows: Seq<Seq<Field>>, count: int)
    requires
        0 <= count,
    ensures
        emitting.after_all(rows, count).field_count == emitting.field_count,
        emitting.after_all(rows, count).expected_fields == if emitting.field_count
            == FieldCount::MatchFirst && emitting.expected_fields is None && count > 0 {
            Some(rows[0].len() as usize)
        } else {
            emitting.expected_fields
        },
    decreases count,
{
    if count > 0 {
        lemma_number_asked_for(emitting, rows, count - 1);
    }
}

/// Records that are accepted one after the other have one number of fields,
/// where one is asked for: the exact number, that of an earlier record, or that
/// of the first of them.
pub proof fn law_accepted_records_have_one_width(
    emitting: Emitting,
    rows: Seq<Seq<Field>>,
    count: int,
    index: int,
)
    requires
        emitting.accepts(rows, count),
        0 <= index < count <= rows.len(),
        forall|i: int| 0 <= i < count ==> (#[trigger] rows[i]).len() <= usize::MAX,
    ensures
        emitting.field_count matches FieldCount::Exact(exact) ==> rows[index].len() == exact,
        emitting.field_count == FieldCount::MatchFirst && emitting.expected_fields is None
            ==> rows[index].len() == rows[0].len(),
        emitting.field_count == FieldCount::MatchFirst && emitting.expected_fields is Some
            ==> rows[index].len() == emitting.expected_fields->0,
{
    lemma_number_asked_for(emitting, rows, index);
    assert(emitting.after_all(rows, index).refusal(rows[index]) is None);
    assert(rows[0].len() <= usize::MAX);
}

/// What holds of an emitter in memory holds of one with a sink: a record with
/// another number of fields than is asked for is refused, and neither the sink
/// nor what is collected for it changes.
pub proof fn law_a_sink_gets_no_other_number_of_fields<W: Sink>(
    before: IoEmitter<W>,
    after: IoEmitter<W>,
    fields: Seq<Field>,
    result: Result<(), Error>,
    count: usize,
)
    requires
        fields.len() <= usize::MAX,
        emits_to(before, after, fields, result),
    ensures
        asks_for(before.core.emitting(), count) && fields.len() != count ==> {
            &&& result is Err
            &&& after.spec_pending() == before.spec_pending()
            &&& after.output == before.output
            &&& after.core.emitting() == before.core.emitting()
            &&& !before.failed ==> result->Err_0.spec_kind() == (ErrorKind::FieldCountMismatch {
                expected: count,
                actual: fields.len() as usize,
            })
        },
        asks_for_none(before.core.emitting()) || (asks_for(before.core.emitting(), count)
            && fields.len() == count) ==> {
            result matches Err(error) ==> !(error.spec_kind() is FieldCountMismatch)
        },
{
}

/// Records that were all emitted to a sink have one number of fields, where one
/// is asked for.
pub proof fn law_emitted_records_have_one_width<W: Sink>(
    before: IoEmitter<W>,
    after: IoEmitter<W>,
    records: Seq<Seq<Field>>,
    done: int,
    result: Result<(), Error>,
    index: int,
)
    requires
        emits_all(before, after, records, done, result),
        0 <= index < done,
        forall|i: int| 0 <= i < records.len() ==> (#[trigger] records[i]).len() <= usize::MAX,
    ensures
        before.core.emitting().field_count matches FieldCount::Exact(exact)
            ==> records[index].len() == exact,
        before.core.emitting().field_count == FieldCount::MatchFirst
            && before.core.emitting().expected_fields is None ==> records[index].len()
            == records[0].len(),
{
    law_accepted_records_have_one_width(before.core.emitting(), records, done, index);
}

/// A byte-order mark leads the first record that is emitted, if one is wanted,
/// and no other; behind it stand the records as the format writes them.
pub proof fn law_a_mark_leads_the_first_record_only(
    start: PushEmitter,
    between: PushEmitter,
    end: PushEmitter,
    first: Seq<Field>,
    second: Seq<Field>,
)
    requires
        emits(start, between, first, Ok(())),
        emits(between, end, second, Ok(())),
    ensures
        start.emitting().writing.record(first) is Some,
        start.emitting().writing.record(second) is Some,
        end.output() == start.output() + (if start.emitting().bom_pending {
            seq![0xEFu8, 0xBB, 0xBF]
        } else {
            Seq::empty()
        }) + start.emitting().writing.record(first)->0 + start.emitting().writing.record(second)->0,
{
    assert(end.output() =~= start.output() + (if start.emitting().bom_pending {
        seq![0xEFu8, 0xBB, 0xBF]
    } else {
        Seq::empty()
    }) + start.emitting().writing.record(first)->0 + start.emitting().writing.record(second)->0);
}

/// A header is written before the first record whose fields have names, where
/// one is due, and before no other; a mark leads the header.
pub proof fn law_a_header_is_written_once(
    start: PushEmitter,
    between: PushEmitter,
    end: PushEmitter,
    names: Seq<Field>,
    first: Seq<Field>,
    second: Seq<Field>,
)
    requires
        emits_named(start, between, names, first, Ok(())),
        emits_named(between, end, names, second, Ok(())),
    ensures
        ({
            let writing = start.emitting().writing;
            let mark = if start.emitting().bom_pending {
                seq![0xEFu8, 0xBB, 0xBF]
            } else {
                Seq::empty()
            };
            let header = if start.emitting().header_pending {
                writing.record(names)->0
            } else {
                Seq::empty()
            };
            &&& start.emitting().header_pending ==> writing.record(names) is Some
            &&& writing.record(first) is Some
            &&& writing.record(second) is Some
            &&& !end.emitting().header_pending
            &&& end.output() == start.output() + mark + header + writing.record(first)->0
                + writing.record(second)->0
        }),
{
    let writing = start.emitting().writing;
    let mark = if start.emitting().bom_pending {
        seq![0xEFu8, 0xBB, 0xBF]
    } else {
        Seq::empty()
    };
    let header = if start.emitting().header_pending {
        writing.record(names)->0
    } else {
        Seq::empty()
    };
    assert(end.output() =~= start.output() + mark + header + writing.record(first)->0
        + writing.record(second)->0);
}

/// Where the header or the record is refused, neither is written, and a header
/// that was due still is; under one number of fields both have it.
pub proof fn law_a_header_is_not_written_alone(
    before: PushEmitter,
    after: PushEmitter,
    names: Seq<Field>,
    fields: Seq<Field>,
    result: Result<(), Error>,
)
    requires
        names.len() <= usize::MAX,
        fields.len() <= usize::MAX,
        emits_named(before, after, names, fields, result),
    ensures
        result is Err ==> after.output() == before.output() && after.emitting()
            == before.emitting(),
        result is Ok && before.emitting().header_pending && before.emitting().field_count
            == FieldCount::MatchFirst ==> names.len() == fields.len(),
        result is Ok && (before.emitting().field_count matches FieldCount::Exact(count))
            ==> FieldCount::Exact(fields.len() as usize) == before.emitting().field_count,
{
}

/// Whether a byte has a meaning in a format: it separates fields, encloses them
/// or ends records, where either byte of a line ending does.
pub open spec fn has_meaning(writing: Writing, byte: u8) -> bool {
    ||| byte == writing.dialect.delimiter
    ||| byte == writing.dialect.quote
    ||| match writing.dialect.record_ending {
        RecordEnding::Byte(ending) => byte == ending,
        _ => byte == 10 || byte == 13,
    }
}

/// Whether a field is told from content by what it is as a whole: it would start
/// a comment, or stand for a NULL.
pub open spec fn stands_for_more(writing: Writing, bytes: Seq<u8>, first: bool) -> bool {
    ||| first && bytes.len() > 0 && writing.dialect.comment == Some(bytes[0])
    ||| writing.nulls == Nulls::PostgresCsv && bytes == Seq::<u8>::empty()
    ||| writing.nulls == Nulls::Mysql && bytes == seq![92u8, 78u8]
}

/// Whether a field can be written as it is and is read as what it is.
pub open spec fn is_plain(writing: Writing, bytes: Seq<u8>, first: bool) -> bool {
    &&& !stands_for_more(writing, bytes, first)
    &&& forall|i: int| 0 <= i < bytes.len() ==> !has_meaning(writing, #[trigger] bytes[i])
}

/// Whether what was written is enclosed in quotes.
pub open spec fn is_enclosed(writing: Writing, written: Option<Seq<u8>>) -> bool {
    written matches Some(bytes) && bytes.len() >= 2 && bytes[0] == writing.dialect.quote
        && bytes.last() == writing.dialect.quote
}

/// A field is written as it is exactly where that is harmless: all fields are
/// quoted where that is asked for, else those that would be misread, and those
/// that are no numbers where that is asked for; where quoting is ruled out, a
/// field that would be misread is refused, or written as it is where nothing is
/// checked.
pub proof fn law_a_field_is_quoted_where_it_must_be(writing: Writing, bytes: Seq<u8>, first: bool)
    requires
        writing.dialect.escape is DoubleQuote || writing.dialect.escape is Backslash,
    ensures
        ({
            let written = writing.field(text(bytes), first);
            let plain = is_plain(writing, bytes, first);
            match writing.quoting {
                Quoting::Always => is_enclosed(writing, written),
                Quoting::Necessary => if plain {
                    written == Some(bytes)
                } else {
                    is_enclosed(writing, written)
                },
                Quoting::NonNumeric => if plain && Numeral::of(bytes).is_complete() {
                    written == Some(bytes)
                } else {
                    is_enclosed(writing, written)
                },
                Quoting::Never => if plain {
                    written == Some(bytes)
                } else {
                    written is None
                },
                Quoting::Raw => written == Some(bytes),
            }
        }),
{
    let plain = is_plain(writing, bytes, first);
    assert(plain == !writing.exposed(bytes, first)) by {
        assert(bytes.len() == 0 ==> bytes =~= Seq::<u8>::empty());
        if plain {
            assert forall|i: int| 0 <= i < bytes.len() implies !#[trigger] writing.is_structural(
                bytes[i],
            ) by {
                assert(!has_meaning(writing, bytes[i]));
            }
        } else if !stands_for_more(writing, bytes, first) {
            let i = choose|i: int|
                0 <= i < bytes.len() && has_meaning(writing, #[trigger] bytes[i]);
            assert(writing.is_structural(bytes[i]));
        }
    }
}

/// A NULL is written as nothing, or as `\N` where that is its mark, whichever
/// fields are quoted.
pub proof fn law_a_null_is_written_as_its_mark(writing: Writing, first: bool)
    ensures
        writing.field(null_field(), first) == Some(
            if writing.nulls == Nulls::Mysql {
                seq![92u8, 78u8]
            } else {
                Seq::<u8>::empty()
            },
        ),
{
}

proof fn lemma_guarded_parts(writing: Writing, front: Seq<u8>, back: Seq<u8>, count: int)
    requires
        0 <= count <= back.len(),
    ensures
        writing.all_guarded(front + back, front.len() + count) == writing.all_guarded(
            front,
            front.len() as int,
        ) + writing.all_guarded(back, count),
    decreases count,
{
    if count > 0 {
        lemma_guarded_parts(writing, front, back, count - 1);
        assert((front + back)[front.len() + count - 1] == back[count - 1]);
        assert(writing.all_guarded(front + back, front.len() + count) =~= writing.all_guarded(
            front,
            front.len() as int,
        ) + writing.all_guarded(back, count));
    } else {
        lemma_guarded_prefix(writing, front, front + back, front.len() as int);
        assert(writing.all_guarded(back, 0) =~= Seq::<u8>::empty());
    }
}

proof fn lemma_guarded_prefix(writing: Writing, short: Seq<u8>, long: Seq<u8>, count: int)
    requires
        0 <= count <= short.len() <= long.len(),
        forall|i: int| 0 <= i < short.len() ==> short[i] == #[trigger] long[i],
    ensures
        writing.all_guarded(short, count) == writing.all_guarded(long, count),
    decreases count,
{
    if count > 0 {
        lemma_guarded_prefix(writing, short, long, count - 1);
        assert(short[count - 1] == long[count - 1]);
    }
}

/// Between the quotes every byte stands for itself, one behind the other, but
/// for the quote, which is doubled or follows the escape byte, as does the escape
/// byte itself.
pub proof fn law_a_quoted_field_guards_its_quotes(
    writing: Writing,
    front: Seq<u8>,
    back: Seq<u8>,
    byte: u8,
    first: bool,
)
    requires
        writing.dialect.escape is DoubleQuote || writing.dialect.escape is Backslash,
        writing.quoting == Quoting::Always,
    ensures
        ({
            let quote = writing.dialect.quote;
            let guard = match writing.dialect.escape {
                Escape::Backslash(escape) => escape,
                _ => quote,
            };
            &&& writing.field(text(Seq::empty()), first) == Some(seq![quote, quote])
            &&& writing.field(text(seq![byte]), first) == Some(
                if byte == quote || byte == guard {
                    seq![quote, guard, byte, quote]
                } else {
                    seq![quote, byte, quote]
                },
            )
            &&& writing.field(text(front + back), first) == Some(
                writing.field(text(front), first)->0.drop_last() + writing.field(
                    text(back),
                    first,
                )->0.skip(1),
            )
        }),
{
    let quote = writing.dialect.quote;
    let nothing = Seq::<u8>::empty();
    let one = seq![byte];
    assert(writing.all_guarded(nothing, 0) =~= nothing);
    assert(seq![quote] + nothing + seq![quote] =~= seq![quote, quote]);
    assert(one.len() == 1 && one[0] == byte);
    assert(writing.all_guarded(one, 1) =~= writing.guarded(byte)) by {
        assert(writing.all_guarded(one, 0) =~= nothing);
    }
    let guard = match writing.dialect.escape {
        Escape::Backslash(escape) => escape,
        _ => quote,
    };
    if byte == quote || byte == guard {
        assert(writing.guarded(byte) =~= seq![guard, byte]);
        assert(seq![quote] + writing.guarded(byte) + seq![quote] =~= seq![
            quote,
            guard,
            byte,
            quote,
        ]);
    } else {
        assert(writing.guarded(byte) =~= seq![byte]);
        assert(seq![quote] + writing.guarded(byte) + seq![quote] =~= seq![quote, byte, quote]);
    }
    lemma_guarded_parts(writing, front, back, back.len() as int);
    let head = writing.all_guarded(front, front.len() as int);
    let rest = writing.all_guarded(back, back.len() as int);
    assert((front + back).len() == front.len() + back.len());
    assert(seq![quote] + (head + rest) + seq![quote] =~= (seq![quote] + head
        + seq![quote]).drop_last() + (seq![quote] + rest + seq![quote]).skip(1));
}

proof fn lemma_fields_prefix(writing: Writing, fields: Seq<Field>, last: Field, count: int)
    requires
        0 <= count <= fields.len(),
    ensures
        writing.fields(fields.push(last), count) == writing.fields(fields, count),
    decreases count,
{
    if count > 0 {
        lemma_fields_prefix(writing, fields, last, count - 1);
        assert(fields.push(last)[count - 1] == fields[count - 1]);
    }
}

/// What stands between two fields: the delimiter, all bytes of it.
pub open spec fn between_fields(writing: Writing) -> Seq<u8> {
    seq![writing.dialect.delimiter] + writing.dialect.delimiter_tail.text()
}

/// What stands behind a record: a line feed, both bytes of a line ending where
/// they are asked for, or the chosen byte, and what belongs to it.
pub open spec fn behind_records(writing: Writing) -> Seq<u8> {
    (match writing.dialect.record_ending {
        RecordEnding::Newline => seq![10u8],
        RecordEnding::CrLf => seq![13u8, 10u8],
        RecordEnding::Byte(byte) => seq![byte],
    }) + writing.dialect.ending_tail.text()
}

/// A record of one field is that field and an ending; one more field puts a
/// delimiter and the field before the ending. A record can be written if and
/// only if each of its fields can.
pub proof fn law_a_record_is_its_fields(writing: Writing, fields: Seq<Field>, last: Field)
    requires
        writing.dialect.valid(),
    ensures
        writing.record(seq![last]) == match writing.field(last, true) {
            Some(bytes) => Some(bytes + behind_records(writing)),
            None => None,
        },
        fields.len() > 0 ==> (writing.record(fields.push(last)) is Some) == (writing.record(
            fields,
        ) is Some && writing.field(last, false) is Some),
        fields.len() > 0 && writing.record(fields.push(last)) is Some ==> {
            let shorter = writing.record(fields)->0;
            let ending = behind_records(writing);
            writing.record(fields.push(last))->0 == shorter.take(shorter.len() - ending.len())
                + between_fields(writing) + writing.field(last, false)->0 + ending
        },
        writing.record(Seq::empty()) == Some(behind_records(writing)),
{
    let one = seq![last];
    let nothing = Seq::<u8>::empty();
    assert(one.len() == 1 && one[0] == last);
    assert(writing.fields(one, 0) == Some(nothing));
    assert(writing.ending_bytes() =~= behind_records(writing));
    assert(writing.delimiter_bytes() =~= between_fields(writing));
    assert(nothing + behind_records(writing) =~= behind_records(writing));
    if fields.len() > 0 {
        let longer = fields.push(last);
        let n = fields.len() as int;
        lemma_fields_prefix(writing, fields, last, n);
        assert(longer[n] == last);
        if writing.record(longer) is Some {
            let front = writing.fields(fields, n)->0;
            let shorter = writing.record(fields)->0;
            let ending = behind_records(writing);
            assert(shorter.take(shorter.len() - ending.len()) =~= front);
        }
    }
}

/// Whether a byte is a decimal digit.
pub open spec fn is_digit(byte: u8) -> bool {
    48 <= byte <= 57
}

/// Whether a byte is a sign, `+` or `-`.
pub open spec fn is_sign(byte: u8) -> bool {
    byte == 43 || byte == 45
}

/// Whether a byte starts an exponent, `E` or `e`.
pub open spec fn starts_exponent(byte: u8) -> bool {
    byte == 69 || byte == 101
}

/// Whether bytes are decimal digits.
pub open spec fn all_digits(bytes: Seq<u8>) -> bool {
    forall|i: int| 0 <= i < bytes.len() ==> is_digit(#[trigger] bytes[i])
}

/// Whether bytes are one sign or nothing.
pub open spec fn maybe_sign(bytes: Seq<u8>) -> bool {
    bytes.len() == 0 || (bytes.len() == 1 && is_sign(bytes[0]))
}

proof fn lemma_digits_go_on(front: Seq<u8>, digits: Seq<u8>)
    requires
        all_digits(digits),
        digits.len() > 0,
    ensures
        Numeral::of(front + digits) == match Numeral::of(front) {
            Numeral::Start | Numeral::Sign | Numeral::Digits => Numeral::Digits,
            Numeral::Point | Numeral::Fraction => Numeral::Fraction,
            Numeral::Exponent | Numeral::ExponentSign | Numeral::ExponentDigits =>
                Numeral::ExponentDigits,
            Numeral::Broken => Numeral::Broken,
        },
    decreases digits.len(),
{
    let bytes = front + digits;
    assert(bytes.drop_last() =~= front + digits.drop_last());
    assert(bytes.last() == digits.last());
    assert(is_digit(digits[digits.len() - 1]));
    if digits.len() > 1 {
        lemma_digits_go_on(front, digits.drop_last());
    } else {
        assert(front + digits.drop_last() =~= front);
    }
}

proof fn lemma_one_more(front: Seq<u8>, byte: u8)
    ensures
        Numeral::of(front.push(byte)) == Numeral::of(front).next(byte),
{
    assert(front.push(byte).drop_last() =~= front);
}

/// A sign or none, digits with a point among them or none, and an exponent or
/// none make a number, as long as there is a digit before the exponent and one
/// in it.
pub proof fn law_a_number_has_a_sign_digits_and_an_exponent(
    sign: Seq<u8>,
    whole: Seq<u8>,
    fraction: Seq<u8>,
    letter: u8,
    exponent_sign: Seq<u8>,
    exponent: Seq<u8>,
)
    requires
        maybe_sign(sign),
        all_digits(whole),
        all_digits(fraction),
        whole.len() + fraction.len() > 0,
        starts_exponent(letter),
        maybe_sign(exponent_sign),
        all_digits(exponent),
        exponent.len() > 0,
    ensures
        whole.len() > 0 ==> Numeral::of(sign + whole).is_complete(),
        whole.len() > 0 ==> Numeral::of(
            sign + whole + seq![letter] + exponent_sign + exponent,
        ).is_complete(),
        Numeral::of(sign + whole + seq![46u8] + fraction).is_complete(),
        Numeral::of(
            sign + whole + seq![46u8] + fraction + seq![letter] + exponent_sign + exponent,
        ).is_complete(),
{
    let nothing = Seq::<u8>::empty();
    assert(Numeral::of(nothing) == Numeral::Start);
    if sign.len() == 0 {
        assert(sign =~= nothing);
    } else {
        assert(sign =~= nothing.push(sign[0]));
        lemma_one_more(nothing, sign[0]);
    }
    let number = sign + whole;
    if whole.len() == 0 {
        assert(number =~= sign);
    } else {
        lemma_digits_go_on(sign, whole);
        lemma_exponent(number, letter, exponent_sign, exponent);
    }
    let pointed = number + seq![46u8];
    assert(pointed =~= number.push(46u8));
    lemma_one_more(number, 46u8);
    let broken = pointed + fraction;
    if fraction.len() == 0 {
        assert(broken =~= pointed);
    } else {
        lemma_digits_go_on(pointed, fraction);
    }
    lemma_exponent(broken, letter, exponent_sign, exponent);
}

proof fn lemma_exponent(front: Seq<u8>, letter: u8, sign: Seq<u8>, digits: Seq<u8>)
    requires
        Numeral::of(front) == Numeral::Digits || Numeral::of(front) == Numeral::Fraction,
        starts_exponent(letter),
        maybe_sign(sign),
        all_digits(digits),
        digits.len() > 0,
    ensures
        Numeral::of(front + seq![letter] + sign + digits) == Numeral::ExponentDigits,
{
    let lettered = front + seq![letter];
    assert(lettered =~= front.push(letter));
    lemma_one_more(front, letter);
    let signed = lettered + sign;
    if sign.len() == 0 {
        assert(signed =~= lettered);
    } else {
        assert(signed =~= lettered.push(sign[0]));
        lemma_one_more(lettered, sign[0]);
    }
    lemma_digits_go_on(signed, digits);
}

/// Whether no byte is a point.
pub open spec fn without_point(bytes: Seq<u8>) -> bool {
    forall|i: int| 0 <= i < bytes.len() ==> #[trigger] bytes[i] != 46
}

/// Whether no byte starts an exponent.
pub open spec fn without_exponent(bytes: Seq<u8>) -> bool {
    forall|i: int| 0 <= i < bytes.len() ==> !starts_exponent(#[trigger] bytes[i])
}

/// Whether some byte is a digit.
pub open spec fn with_digit(bytes: Seq<u8>) -> bool {
    exists|i: int| 0 <= i < bytes.len() && is_digit(#[trigger] bytes[i])
}

/// Whether every byte stands where it may in a number: a sign leads the number
/// or its exponent, a point comes once and not in the exponent, an exponent comes
/// once and behind a digit.
pub open spec fn in_order(bytes: Seq<u8>) -> bool {
    forall|i: int|
        0 <= i < bytes.len() ==> {
            let byte = #[trigger] bytes[i];
            let front = bytes.take(i);
            ||| is_digit(byte)
            ||| is_sign(byte) && (i == 0 || starts_exponent(front.last()))
            ||| byte == 46 && without_point(front) && without_exponent(front)
            ||| starts_exponent(byte) && without_exponent(front) && with_digit(front)
        }
}

proof fn lemma_with_one_more(bytes: Seq<u8>)
    requires
        bytes.len() > 0,
    ensures
        without_point(bytes) == (without_point(bytes.drop_last()) && bytes.last() != 46),
        without_exponent(bytes) == (without_exponent(bytes.drop_last()) && !starts_exponent(
            bytes.last(),
        )),
        with_digit(bytes) == (with_digit(bytes.drop_last()) || is_digit(bytes.last())),
        in_order(bytes) == (in_order(bytes.drop_last()) && {
            let front = bytes.drop_last();
            ||| is_digit(bytes.last())
            ||| is_sign(bytes.last()) && (bytes.len() == 1 || starts_exponent(front.last()))
            ||| bytes.last() == 46 && without_point(front) && without_exponent(front)
            ||| starts_exponent(bytes.last()) && without_exponent(front) && with_digit(front)
        }),
{
    let front = bytes.drop_last();
    let n = front.len() as int;
    assert(bytes[n] == bytes.last());
    assert(forall|i: int| 0 <= i < n ==> front[i] == #[trigger] bytes[i]);
    assert(forall|i: int| 0 <= i < n ==> bytes[i] == #[trigger] front[i]);
    assert(bytes.take(n) =~= front);
    assert forall|i: int| 0 <= i < n implies #[trigger] bytes.take(i) == front.take(i) by {
        assert(bytes.take(i) =~= front.take(i));
    }
    if with_digit(front) {
        let i = choose|i: int| 0 <= i < front.len() && is_digit(#[trigger] front[i]);
        assert(is_digit(bytes[i]));
    }
    if in_order(bytes) {
        assert forall|i: int| 0 <= i < n implies {
            let byte = #[trigger] front[i];
            let lead = front.take(i);
            ||| is_digit(byte)
            ||| is_sign(byte) && (i == 0 || starts_exponent(lead.last()))
            ||| byte == 46 && without_point(lead) && without_exponent(lead)
            ||| starts_exponent(byte) && without_exponent(lead) && with_digit(lead)
        } by {
            assert(bytes[i] == front[i]);
            assert(bytes.take(i) == front.take(i));
        }
        assert(bytes[n] == bytes.last());
    } else {
        let i = choose|i: int|
            0 <= i < bytes.len() && !({
                let byte = #[trigger] bytes[i];
                let lead = bytes.take(i);
                ||| is_digit(byte)
                ||| is_sign(byte) && (i == 0 || starts_exponent(lead.last()))
                ||| byte == 46 && without_point(lead) && without_exponent(lead)
                ||| starts_exponent(byte) && without_exponent(lead) && with_digit(lead)
            });
        if i < n {
            assert(bytes.take(i) == front.take(i));
            assert(front[i] == bytes[i]);
        }
    }
}

proof fn lemma_numeral(bytes: Seq<u8>)
    requires
        Numeral::of(bytes) != Numeral::Broken,
    ensures
        in_order(bytes),
        match Numeral::of(bytes) {
            Numeral::Start => bytes.len() == 0,
            Numeral::Sign => bytes.len() == 1 && is_sign(bytes.last()),
            Numeral::Digits => is_digit(bytes.last()) && without_point(bytes) && without_exponent(
                bytes,
            ),
            Numeral::Point => bytes.last() == 46 && without_exponent(bytes),
            Numeral::Fraction => (is_digit(bytes.last()) || bytes.last() == 46)
                && without_exponent(bytes) && with_digit(bytes),
            Numeral::Exponent => starts_exponent(bytes.last()),
            Numeral::ExponentSign => is_sign(bytes.last()),
            Numeral::ExponentDigits => is_digit(bytes.last()),
            Numeral::Broken => false,
        },
        Numeral::of(bytes) == Numeral::Digits || Numeral::of(bytes) == Numeral::Fraction
            || Numeral::of(bytes) == Numeral::ExponentDigits ==> with_digit(bytes),
        Numeral::of(bytes) == Numeral::Sign || Numeral::of(bytes) == Numeral::Start
            ==> without_point(bytes) && without_exponent(bytes),
        Numeral::of(bytes) == Numeral::Point || Numeral::of(bytes) == Numeral::Sign
            || Numeral::of(bytes) == Numeral::Start || bytes.len() > 0,
    decreases bytes.len(),
{
    if bytes.len() > 0 {
        lemma_numeral(bytes.drop_last());
        lemma_with_one_more(bytes);
    }
}

/// In a number every byte stands where it may, some byte is a digit, and the
/// last one is a digit or the point.
pub proof fn law_only_numbers_are_taken_for_numbers(bytes: Seq<u8>)
    requires
        Numeral::of(bytes).is_complete(),
    ensures
        in_order(bytes),
        with_digit(bytes),
        is_digit(bytes.last()) || bytes.last() == 46,
{
    lemma_numeral(bytes);
}

proof fn lemma_shielded_plain(writing: Writing, bytes: Seq<u8>, count: int, first: bool)
    requires
        0 <= count <= bytes.len(),
        forall|i: int| 0 <= i < bytes.len() ==> !#[trigger] writing.escapes(bytes, i, first),
    ensures
        writing.all_shielded(bytes, count, first) == bytes.take(count),
    decreases count,
{
    if count > 0 {
        lemma_shielded_plain(writing, bytes, count - 1, first);
        assert(!writing.escapes(bytes, count - 1, first));
        assert(bytes.take(count) =~= bytes.take(count - 1) + seq![bytes[count - 1]]);
    } else {
        assert(bytes.take(0) =~= Seq::<u8>::empty());
    }
}

/// Where structural bytes are escaped in place of quoting, a field without any,
/// and without the escape byte, is written as it is.
pub proof fn law_plain_text_is_written_as_it_is(
    writing: Writing,
    bytes: Seq<u8>,
    first: bool,
    escape: u8,
)
    requires
        escape_of(writing.dialect) == Some(escape),
        is_plain(writing, bytes, first),
        !bytes.contains(escape),
    ensures
        writing.field(text(bytes), first) == Some(bytes),
{
    assert(bytes.len() == 0 ==> bytes =~= Seq::<u8>::empty());
    assert forall|i: int| 0 <= i < bytes.len() implies !#[trigger] writing.escapes(
        bytes,
        i,
        first,
    ) by {
        assert(!has_meaning(writing, bytes[i]));
        assert(bytes.contains(bytes[i]));
    }
    lemma_shielded_plain(writing, bytes, bytes.len() as int, first);
    assert(bytes.take(bytes.len() as int) =~= bytes);
}

/// What MySQL writes behind its escape byte for a byte.
pub open spec fn mysql_letter(byte: u8) -> u8 {
    if byte == 0 {
        48
    } else if byte == 8 {
        98
    } else if byte == 9 {
        116
    } else if byte == 10 {
        110
    } else if byte == 13 {
        114
    } else if byte == 26 {
        90
    } else {
        byte
    }
}

/// Where structural bytes are escaped in place of quoting, a byte with a meaning
/// follows the escape byte, or its letter does, where letters stand for bytes; a
/// byte that such a letter would be taken for something else than cannot be
/// written, nor one that would make the mark of a NULL.
pub proof fn law_a_byte_with_a_meaning_is_escaped(writing: Writing, byte: u8, escape: u8)
    requires
        escape_of(writing.dialect) == Some(escape),
        writing.quoting != Quoting::Raw,
        has_meaning(writing, byte) || byte == escape,
    ensures
        ({
            let coded = writing.dialect.escape is Mysql;
            let letter = if coded {
                mysql_letter(byte)
            } else {
                byte
            };
            let mistaken = coded && escaped(writing.dialect, letter) != byte;
            let null = writing.nulls == Nulls::Mysql && escape == 92 && letter == 78;
            writing.field(text(seq![byte]), false) == if mistaken || null {
                None
            } else {
                Some(seq![escape, letter])
            }
        }),
{
    let bytes = seq![byte];
    let letter = writing.code(byte);
    assert(bytes.len() == 1 && bytes[0] == byte);
    assert(writing.escapes(bytes, 0, false));
    assert(writing.all_shielded(bytes, 0, false) =~= Seq::<u8>::empty());
    assert(writing.all_shielded(bytes, 1, false) =~= seq![escape, letter]);
    let written = seq![escape, letter];
    assert(written.len() == 2 && written[0] == escape && written[1] == letter);
    let mark = seq![92u8, 78u8];
    assert(mark.len() == 2 && mark[0] == 92 && mark[1] == 78);
    if escape == 92 && letter == 78 {
        assert(written =~= mark);
    }
}

/// The number of fields that the records of a continued document must have is
/// that of its first record, as its bytes say. This is stated of a first record
/// that is no longer than a field may be.
pub proof fn law_a_continued_document_keeps_its_width(
    document: Seq<u8>,
    format: FormatOptions,
    next: int,
    fields: Seq<Field>,
    result: Result<Option<usize>, Error>,
)
    requires
        format.dialect.valid(),
        !(format.read_bom == ReadBom::Reject && has_bom(document)),
        counts_first(document, format, result),
        ({
            let settings = ParserSettings::of_format(format, Limits::standard());
            let start = settings.record_start(document, settings.document_start(document));
            &&& 0 <= start < document.len()
            &&& is_record(settings.rules(), document, start, next, fields, format.nulls)
            &&& fields.len() <= 65_536
            &&& next - start <= 1_048_576
        }),
    ensures
        result matches Ok(Some(count)) && count == fields.len(),
{
    let settings = ParserSettings::of_format(format, Limits::standard());
    let start = settings.record_start(document, settings.document_start(document));
    law_what_bytes_say_is_read(settings.rules(), document, start, next, fields, format.nulls);
}

/// What an emitter with a sink holds back is less than its buffer is meant for,
/// and no byte is lost: what a faithful sink took and what is held back together
/// grow by the bytes of the record, or stay as they are where it is refused.
pub proof fn law_an_emitter_holds_back_less_than_its_buffer<W: Sink>(
    before: IoEmitter<W>,
    after: IoEmitter<W>,
    fields: Seq<Field>,
    result: Result<(), Error>,
)
    requires
        emits_to(before, after, fields, result),
    ensures
        result is Ok ==> after.spec_pending().len() == 0 || after.spec_pending().len()
            < before.threshold,
        result is Ok && W::faithful() ==> after.total() == before.total()
            + before.core.emitting().emitted(fields),
        result is Err && !after.failed ==> after.spec_pending() == before.spec_pending()
            && after.output == before.output,
{
}

/// After a flush nothing is held back, and a faithful sink has all that was
/// emitted.
pub proof fn law_a_flush_hands_over_everything<W: Sink>(
    before: IoEmitter<W>,
    after: IoEmitter<W>,
    result: Result<(), Error>,
)
    requires
        !before.failed,
        flushed(before, after, result),
    ensures
        result is Ok ==> after.spec_pending() == Seq::<u8>::empty(),
        result is Ok && W::faithful() ==> after.output->0.taken() == before.total(),
        after.core.emitting() == before.core.emitting(),
{
    if result is Ok && W::faithful() {
        assert(after.total() =~= after.output->0.taken());
    }
}

/// What every segment starts with is a byte-order mark, if one is wanted, and the
/// names as a record, if a header is; without a header nothing can be wrong with
/// it.
pub proof fn law_a_preamble_is_a_mark_and_the_names(
    names: Seq<Field>,
    format: FormatOptions,
    options: EmitOptions,
)
    requires
        names.len() <= usize::MAX,
    ensures
        preamble_bytes(names, format, options) is None <==> options.has_headers && (Writing::of(
            format,
        ).record(names) is None || (options.field_count matches FieldCount::Exact(count) && count
            != names.len())),
        preamble_bytes(names, format, options) matches Some(bytes) ==> bytes == (
        if format.write_bom == WriteBom::Emit {
            seq![0xEFu8, 0xBB, 0xBF]
        } else {
            Seq::empty()
        }) + (if options.has_headers {
            Writing::of(format).record(names)->0
        } else {
            Seq::empty()
        }),
{
    let nothing = Seq::<u8>::empty();
    if let Some(bytes) = preamble_bytes(names, format, options) {
        let mark = if format.write_bom == WriteBom::Emit {
            seq![0xEFu8, 0xBB, 0xBF]
        } else {
            nothing
        };
        if options.has_headers {
            let record = Writing::of(format).record(names)->0;
            assert(nothing + record =~= record);
            assert(bytes =~= mark + record);
        } else {
            assert(bytes =~= mark + nothing);
        }
    }
}

/// A document is continued as what it is: an empty one starts with a mark and a
/// header as they are wanted, one that is a mark alone with the header, and one
/// with records goes on with neither.
pub proof fn law_a_mark_and_a_header_start_a_document_only(
    document: Seq<u8>,
    format: FormatOptions,
    options: EmitOptions,
    expected_fields: Option<usize>,
)
    ensures
        ({
            let emitting = appending(document, format, options, expected_fields);
            let bare = document == seq![0xEFu8, 0xBB, 0xBF];
            &&& document.len() == 0 ==> emitting.bom_pending == (format.write_bom
                == WriteBom::Emit) && emitting.header_pending == options.has_headers
            &&& bare ==> !emitting.bom_pending && emitting.header_pending == options.has_headers
            &&& document.len() > 0 && !bare ==> !emitting.bom_pending && !emitting.header_pending
            &&& emitting.expected_fields == expected_fields
            &&& emitting.field_count == options.field_count
            &&& emitting.writing == Writing::of(format)
        }),
{
    let mark = seq![0xEFu8, 0xBB, 0xBF];
    assert(mark.len() == 3);
}

/// What the answer of a sink means: so many bytes more were taken, never more
/// than there were, and none only where it was interrupted; a sink that takes
/// nothing has failed, and any other error is its failure.
pub proof fn law_an_answer_counts_what_was_taken(
    written: usize,
    len: usize,
    answer: Result<usize, IoError>,
    step: Confirmation,
)
    requires
        written < len,
        understood(written, len, answer, step),
    ensures
        step matches Confirmation::Taken(now) ==> written <= now <= len,
        answer matches Ok(count) ==> (0 < count <= len - written ==> step == Confirmation::Taken(
            (written + count) as usize,
        )),
        answer matches Ok(count) ==> (count > len - written ==> step == Confirmation::Taken(len)),
        answer matches Ok(count) ==> (count == 0 ==> step is Failed && step->Failed_0.spec_kind()
            == IoErrorKind::WriteZero),
        answer matches Err(error) ==> (step == Confirmation::Taken(written) <==> error.spec_kind()
            == IoErrorKind::Interrupted),
        answer matches Err(error) ==> (error.spec_kind() != IoErrorKind::Interrupted ==> step
            == Confirmation::Failed(error)),
{
}

/// How many bytes a sink says that it took, by what it answered.
pub open spec fn claimed(answers: Seq<Result<usize, IoError>>) -> int {
    answers.fold_left(
        0int,
        |sum: int, answer: Result<usize, IoError>|
            match answer {
                Ok(count) => sum + count,
                Err(_) => sum,
            },
    )
}

/// A buffer is handed over when the sink has claimed all of it, and not before;
/// until then it has come as far as the sink has claimed.
pub proof fn law_a_buffer_is_handed_over_when_claimed(
    len: int,
    answers: Seq<Result<usize, IoError>>,
)
    requires
        len > 0,
        forall|k: int| 0 <= k < answers.len() ==> #[trigger] handed_over(len, answers.take(k)) is Waiting,
    ensures
        match handed_over(len, answers) {
            Handover::Waiting { written, .. } => written == claimed(answers) && written < len,
            Handover::Complete => claimed(answers) >= len,
            Handover::Failed { written, .. } => written == claimed(answers.drop_last()) && written
                < len,
        },
    decreases answers.len(),
{
    if answers.len() > 0 {
        let front = answers.drop_last();
        assert(front =~= answers.take(answers.len() - 1));
        assert forall|k: int| 0 <= k < front.len() implies #[trigger] handed_over(
            len,
            front.take(k),
        ) is Waiting by {
            assert(front.take(k) =~= answers.take(k));
        }
        law_a_buffer_is_handed_over_when_claimed(len, front);
        assert(handed_over(len, answers.take(answers.len() - 1)) is Waiting);
    }
}

/// A document is its records one behind the other, each as it is written alone.
pub proof fn law_a_document_is_its_records(writing: Writing, rows: Seq<Seq<Field>>, count: int)
    requires
        0 <= count < rows.len(),
    ensures
        writing.document(rows, 0) == Seq::<u8>::empty(),
        writing.document(rows, count + 1) == writing.document(rows, count) + writing.record(
            rows[count],
        )->0,
{
}

/// The records of a document are the values in order, behind the names where
/// there is a header.
pub proof fn law_the_names_stand_first(
    names: Seq<Field>,
    values: Seq<ByteRecord>,
    index: int,
)
    requires
        0 <= index < values.len(),
    ensures
        all_rows(names, values, false).len() == values.len(),
        all_rows(names, values, false)[index] == values[index]@,
        all_rows(names, values, true).len() == values.len() + 1,
        all_rows(names, values, true)[0] == names,
        all_rows(names, values, true)[index + 1] == values[index]@,
{
}

} // verus!
