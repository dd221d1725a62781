//! What holds of formats and settings.

use vstd::prelude::*;

use crate::config::{
    BlankRecords, Dialect, Escape, FieldCount, Limits, Nulls, Quoting, ReadBom, Recovery,
    RecordEnding, Syntax, Tail, Whitespace, WriteBom,
};
use crate::emit::encoding::Writing;
use crate::emit::push_emitter::Emitting;
use crate::index::format::{dialect_bytes, format_bytes, lemma_format_bytes_len, policy_bytes};
use crate::index::index_options::IndexOptions;
use crate::options::{EmitOptions, FormatOptions, FormatTag, ParserSettings};

verus! {

/// Whether a byte is part of what ends records: the chosen byte, or either byte
/// of a line ending.
pub open spec fn ends(dialect: Dialect, byte: u8) -> bool {
    match dialect.record_ending {
        RecordEnding::Byte(ending) => byte == ending,
        _ => byte == 10 || byte == 13,
    }
}

/// The byte that escapes, if one does.
pub open spec fn escapes_with(dialect: Dialect) -> Option<u8> {
    match dialect.escape {
        Escape::DoubleQuote => None,
        Escape::Mysql => Some(92),
        Escape::Backslash(byte) => Some(byte),
        Escape::Unquoted(byte) => Some(byte),
    }
}

/// A dialect is accepted if and only if no two of its bytes can be taken for each
/// other: those that separate, enclose, end, escape and start comments.
pub proof fn law_a_dialect_is_valid_if_its_bytes_differ(dialect: Dialect)
    ensures
        dialect.valid() <==> {
            &&& dialect.delimiter != dialect.quote
            &&& !ends(dialect, dialect.delimiter)
            &&& !ends(dialect, dialect.quote)
            &&& escapes_with(dialect) matches Some(byte) ==> byte != dialect.delimiter && byte
                != dialect.quote && !ends(dialect, byte)
            &&& dialect.comment matches Some(byte) ==> byte != dialect.delimiter && byte
                != dialect.quote && !ends(dialect, byte) && escapes_with(dialect) != Some(byte)
            &&& dialect.delimiter_tail.spec_len() <= 7
            &&& dialect.ending_tail.spec_len() <= 7
        },
{
}

/// A strict reader knows quotes and accepts no deviation; a lenient one accepts
/// those that it lists and no others.
pub proof fn law_only_listed_deviations_are_accepted(rules: Recovery)
    ensures
        Syntax::Strict.quoting_enabled(),
        !Syntax::Strict.permits_unquoted_quotes(),
        !Syntax::Strict.permits_any_backslash_escape(),
        !Syntax::Strict.permits_post_quote_whitespace(),
        Syntax::Compatible(rules).quoting_enabled() == rules.quoting,
        Syntax::Compatible(rules).permits_unquoted_quotes() == rules.unquoted_quotes,
        Syntax::Compatible(rules).permits_any_backslash_escape() == rules.any_backslash_escape,
        Syntax::Compatible(rules).permits_post_quote_whitespace() == rules.post_quote_whitespace,
{
}

/// Choices that were turned into bits are found again, and bits that are known
/// stand for the choices that have them.
pub proof fn law_bits_stand_for_choices(rules: Recovery, trim: Whitespace, bits: u8)
    ensures
        Recovery::from_bits(rules.bits()) == Some(rules),
        Recovery::from_bits(bits) matches Some(found) ==> found.bits() == bits,
        Recovery::from_bits(bits) is Some == (bits < 16),
        Whitespace::from_bits(trim.bits()) == Some(trim),
        Whitespace::from_bits(bits) matches Some(found) ==> found.bits() == bits,
        Whitespace::from_bits(bits) is Some == (bits < 4),
{
}

/// A document of a format is read as the format says; every record is accepted
/// whatever its number of fields.
pub proof fn law_settings_are_those_of_the_format(format: FormatOptions, limits: Limits)
    ensures
        ({
            let settings = ParserSettings::of_format(format, limits);
            let rules = settings.rules();
            &&& rules.dialect == format.dialect
            &&& rules.syntax == format.syntax
            &&& rules.nulls == format.nulls
            &&& rules.limits == limits
            &&& rules.skip_initial_space == format.skip_initial_space
            &&& settings.nulls == format.nulls
            &&& settings.dialect == format.dialect
            &&& settings.limits == limits
            &&& settings.trim == format.trim
            &&& settings.blank_records == format.blank_records
            &&& settings.bom == format.read_bom
            &&& settings.field_count == FieldCount::Flexible
        }),
{
}

/// A record that is reached by seeking is read like one that is reached in order,
/// with the format and the limits of the index; only a byte-order mark, which
/// stands before the records, is not looked for.
pub proof fn law_seeking_reads_like_indexing(options: IndexOptions)
    ensures
        options.settings().rules().dialect == options.format.dialect,
        options.settings().rules().limits == options.limits,
        options.seek_settings().rules() == options.settings().rules(),
        options.seek_settings().nulls == options.settings().nulls,
        options.seek_settings().blank_records == options.settings().blank_records,
        options.seek_settings().bom == ReadBom::Preserve,
        options.settings().bom == options.format.read_bom,
{
}

/// An emitter starts as its format and its options say: a byte-order mark is due
/// if the format writes one, a header if one is asked for, and no record was
/// counted yet.
pub proof fn law_an_emitter_starts_as_asked(format: FormatOptions, options: EmitOptions)
    ensures
        ({
            let emitting = Emitting::starting(format, options);
            &&& emitting.bom_pending == (format.write_bom == WriteBom::Emit)
            &&& emitting.header_pending == options.has_headers
            &&& emitting.field_count == options.field_count
            &&& emitting.expected_fields is None
            &&& emitting.writing.dialect == format.dialect
            &&& emitting.writing.quoting == format.quoting
            &&& emitting.writing.nulls == format.nulls
            &&& Writing::of(format) == emitting.writing
        }),
{
}

/// The bytes of a built-in format: what separates fields, what ends records, how
/// quotes are escaped and what starts comments.
pub open spec fn built_in_bytes(tag: FormatTag) -> (u8, RecordEnding, Escape, Option<u8>) {
    match tag {
        FormatTag::Csv => (44, RecordEnding::Newline, Escape::DoubleQuote, None),
        FormatTag::Tsv => (9, RecordEnding::Newline, Escape::DoubleQuote, None),
        FormatTag::Semicolon => (59, RecordEnding::Newline, Escape::DoubleQuote, None),
        FormatTag::Pipe => (124, RecordEnding::Newline, Escape::DoubleQuote, None),
        FormatTag::BackslashCsv => (44, RecordEnding::Newline, Escape::Backslash(92), None),
        FormatTag::BackslashTsv => (9, RecordEnding::Newline, Escape::Backslash(92), None),
        FormatTag::CommentedCsv => (44, RecordEnding::Newline, Escape::DoubleQuote, Some(35)),
        FormatTag::TrimmedCsv => (44, RecordEnding::Newline, Escape::DoubleQuote, None),
        FormatTag::PythonCsv => (44, RecordEnding::Newline, Escape::DoubleQuote, None),
        FormatTag::PythonEscaped => (44, RecordEnding::Newline, Escape::Unquoted(92), None),
        FormatTag::Rfc4180 => (44, RecordEnding::CrLf, Escape::DoubleQuote, None),
        FormatTag::Excel => (44, RecordEnding::CrLf, Escape::DoubleQuote, None),
        FormatTag::PostgresCopyCsv => (44, RecordEnding::Newline, Escape::DoubleQuote, None),
        FormatTag::Mysql => (9, RecordEnding::Newline, Escape::Mysql, None),
        FormatTag::Custom => (44, RecordEnding::Newline, Escape::DoubleQuote, None),
    }
}

/// A built-in format has the bytes that its name stands for, separators of one
/// byte and double quotes; it is read strictly, a byte-order mark is skipped and
/// none is written. The formats differ in what else they do by their names only.
pub proof fn law_a_built_in_format_is_what_its_name_says(format: FormatOptions)
    requires
        format.genuine(),
        format.tag != FormatTag::Custom,
    ensures
        format.dialect.delimiter == built_in_bytes(format.tag).0,
        format.dialect.quote == 34,
        format.dialect.record_ending == built_in_bytes(format.tag).1,
        format.dialect.escape == built_in_bytes(format.tag).2,
        format.dialect.comment == built_in_bytes(format.tag).3,
        format.dialect.delimiter_tail.text() == Seq::<u8>::empty(),
        format.dialect.ending_tail.text() == Seq::<u8>::empty(),
        format.dialect.valid(),
        format.syntax == Syntax::Strict,
        format.read_bom == ReadBom::Detect,
        format.write_bom == WriteBom::Omit,
        format.trim == (if format.tag == FormatTag::TrimmedCsv {
            Whitespace { leading: true, trailing: true }
        } else {
            Whitespace { leading: false, trailing: false }
        }),
        format.blank_records == (if format.tag == FormatTag::CommentedCsv {
            BlankRecords::Skip
        } else {
            BlankRecords::Preserve
        }),
        format.skip_initial_space == (format.tag == FormatTag::PythonCsv),
        format.nulls == (if format.tag == FormatTag::PostgresCopyCsv {
            Nulls::PostgresCsv
        } else if format.tag == FormatTag::Mysql {
            Nulls::Mysql
        } else {
            Nulls::Disabled
        }),
        format.quoting == (if format.tag == FormatTag::Mysql || format.tag
            == FormatTag::PythonEscaped {
            Quoting::Never
        } else {
            Quoting::Necessary
        }),
{
    assert(format.dialect.delimiter_tail.text() =~= Seq::<u8>::empty());
    assert(format.dialect.ending_tail.text() =~= Seq::<u8>::empty());
}

/// The format that a type stands for is the built-in one with its name.
pub proof fn law_a_named_format_is_built_in(tag: FormatTag)
    ensures
        FormatOptions::named(tag).tag == tag,
        FormatOptions::named(tag).genuine(),
{
    Tail::lemma_of_parts(0, seq![0u8, 0u8, 0u8, 0u8, 0u8, 0u8, 0u8]);
}

/// What follows the first byte of a separator is the bytes that it was made
/// from.
pub proof fn law_a_separator_keeps_its_bytes(bytes: Seq<u8>)
    requires
        bytes.len() <= 7,
    ensures
        Tail::spelling(bytes).text() == bytes,
        Tail::spelling(bytes).spec_len() == bytes.len(),
{
    let stored = Seq::new(
        7,
        |i: int|
            if i < bytes.len() {
                bytes[i]
            } else {
                0u8
            },
    );
    Tail::lemma_of_parts(bytes.len() as u8, stored);
    assert(Tail::spelling(bytes).text() =~= bytes);
}

/// The codes under which a format is stored: where each of its parts stands, and
/// which number stands for which choice.
pub proof fn law_a_format_is_stored_by_its_codes(format: FormatOptions)
    ensures
        ({
            let bytes = format_bytes(format);
            &&& bytes.len() == 33
            &&& bytes[0] == format.dialect.delimiter
            &&& bytes[1] == format.dialect.quote
            &&& bytes[2] == match format.dialect.record_ending {
                RecordEnding::Newline => 0u8,
                RecordEnding::Byte(_) => 1u8,
                RecordEnding::CrLf => 2u8,
            }
            &&& format.dialect.record_ending matches RecordEnding::Byte(byte) ==> bytes[3] == byte
            &&& bytes[4] == match format.dialect.escape {
                Escape::DoubleQuote => 0u8,
                Escape::Backslash(_) => 1u8,
                Escape::Mysql => 2u8,
                Escape::Unquoted(_) => 3u8,
            }
            &&& format.dialect.escape matches Escape::Backslash(byte) ==> bytes[5] == byte
            &&& format.dialect.escape matches Escape::Unquoted(byte) ==> bytes[5] == byte
            &&& bytes[6] == (if format.dialect.comment is Some {
                1u8
            } else {
                0u8
            })
            &&& format.dialect.comment matches Some(byte) ==> bytes[7] == byte
            &&& bytes[8] == (if format.trim.leading {
                1int
            } else {
                0int
            }) + (if format.trim.trailing {
                2int
            } else {
                0int
            })
            &&& bytes[9] == (if format.blank_records == BlankRecords::Skip {
                1u8
            } else {
                0u8
            })
            &&& bytes[10] == match format.read_bom {
                ReadBom::Detect => 0u8,
                ReadBom::Preserve => 1u8,
                ReadBom::Reject => 2u8,
            }
            &&& bytes[11] == (if format.write_bom == WriteBom::Emit {
                1u8
            } else {
                0u8
            })
            &&& bytes[12] == (if format.syntax == Syntax::Strict {
                0u8
            } else {
                1u8
            })
            &&& format.syntax matches Syntax::Compatible(rules) ==> bytes[13] == rules.bits()
            &&& bytes[14] == match format.nulls {
                Nulls::Disabled => 0u8,
                Nulls::PostgresCsv => 1u8,
                Nulls::Mysql => 2u8,
            }
            &&& bytes[15] == match format.quoting {
                Quoting::Necessary => 0u8,
                Quoting::Always => 1u8,
                Quoting::Never => 2u8,
                Quoting::NonNumeric => 3u8,
                Quoting::Raw => 4u8,
            }
            &&& bytes[16] == (if format.skip_initial_space {
                1u8
            } else {
                0u8
            })
            &&& bytes[17] == format.dialect.delimiter_tail.spec_len()
            &&& bytes.subrange(18, 25) == format.dialect.delimiter_tail.spec_bytes()
            &&& bytes[25] == format.dialect.ending_tail.spec_len()
            &&& bytes.subrange(26, 33) == format.dialect.ending_tail.spec_bytes()
        }),
{
    let bytes = format_bytes(format);
    let head = dialect_bytes(format.dialect);
    let policies = policy_bytes(format);
    lemma_format_bytes_len(format);
    assert(head.len() == 8);
    assert(policies.len() == 9);
    assert(forall|i: int| 0 <= i < 8 ==> bytes[i] == head[i]);
    assert(forall|i: int| 8 <= i < 17 ==> bytes[i] == policies[i - 8]);
    assert(bytes.subrange(18, 25) =~= format.dialect.delimiter_tail.spec_bytes());
    assert(bytes.subrange(26, 33) =~= format.dialect.ending_tail.spec_bytes());
}

} // verus!
