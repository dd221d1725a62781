//! Complete formats and the options of parsers and emitters.

use vstd::prelude::*;

use crate::ascii::{BACKSLASH, COMMA, HASH, PIPE, QUOTE, SEMICOLON, TAB};
use crate::config::{
    BlankRecords, Dialect, Escape, FieldCount, Headers, Limits, Nulls, Quoting, ReadBom,
    RecordEnding, Syntax, Tail, Whitespace, WriteBom,
};
use crate::error::{Error, ErrorKind};

verus! {

/// Which built-in format a value is, if it was not changed since.
#[derive(Clone, Copy, Debug, PartialEq, Eq, Structural)]
pub enum FormatTag {
    /// [`FormatOptions::csv`].
    Csv,
    /// [`FormatOptions::tsv`].
    Tsv,
    /// [`FormatOptions::semicolon`].
    Semicolon,
    /// [`FormatOptions::pipe`].
    Pipe,
    /// [`FormatOptions::backslash_csv`].
    BackslashCsv,
    /// [`FormatOptions::backslash_tsv`].
    BackslashTsv,
    /// [`FormatOptions::commented_csv`].
    CommentedCsv,
    /// [`FormatOptions::trimmed_csv`].
    TrimmedCsv,
    /// [`FormatOptions::python_csv`].
    PythonCsv,
    /// [`FormatOptions::python_escaped`].
    PythonEscaped,
    /// [`FormatOptions::rfc4180`].
    Rfc4180,
    /// [`FormatOptions::excel`].
    Excel,
    /// [`FormatOptions::postgres_copy_csv`].
    PostgresCopyCsv,
    /// [`FormatOptions::mysql`].
    Mysql,
    /// None of them, as far as is known.
    Custom,
}

/// A format: how a document is written and read.
///
/// Two formats are equal when they read and write alike; the tag only
/// remembers where a value came from.
#[derive(Clone, Copy, Debug)]
pub struct FormatOptions {
    /// The structural bytes.
    pub dialect: Dialect,
    /// What is trimmed from fields.
    pub trim: Whitespace,
    /// What an empty line is.
    pub blank_records: BlankRecords,
    /// What a reader does with a byte-order mark.
    pub read_bom: ReadBom,
    /// Whether a writer starts with a byte-order mark.
    pub write_bom: WriteBom,
    /// Whether a reader insists on the format.
    pub syntax: Syntax,
    /// How a NULL is told from an empty string.
    pub nulls: Nulls,
    /// Which fields a writer quotes.
    pub quoting: Quoting,
    /// Whether spaces after a delimiter are skipped.
    pub skip_initial_space: bool,
    /// Where this value came from.
    pub tag: FormatTag,
}

impl vstd::std_specs::cmp::PartialEqSpecImpl for FormatOptions {
    open spec fn obeys_eq_spec() -> bool {
        true
    }

    open spec fn eq_spec(&self, other: &FormatOptions) -> bool {
        self.same_format(*other)
    }
}

impl PartialEq for FormatOptions {
    fn eq(&self, other: &FormatOptions) -> (equal: bool) {
        self.dialect == other.dialect && self.trim == other.trim && self.blank_records
            == other.blank_records && self.read_bom == other.read_bom && self.write_bom
            == other.write_bom && self.syntax == other.syntax && self.nulls == other.nulls
            && self.quoting == other.quoting && self.skip_initial_space == other.skip_initial_space
    }
}

impl FormatOptions {
    /// Whether two formats agree in everything but the tag.
    pub open spec fn same_format(self, other: FormatOptions) -> bool {
        FormatOptions { tag: other.tag, ..self } == other
    }

    /// The format of a dialect with every other setting as in CSV.
    pub open spec fn of_dialect(dialect: Dialect, tag: FormatTag) -> FormatOptions {
        FormatOptions {
            dialect,
            trim: Whitespace::none(),
            blank_records: BlankRecords::Preserve,
            read_bom: ReadBom::Detect,
            write_bom: WriteBom::Omit,
            syntax: Syntax::Strict,
            nulls: Nulls::Disabled,
            quoting: Quoting::Necessary,
            skip_initial_space: false,
            tag,
        }
    }

    /// A dialect with the given bytes, no comments and one-byte separators.
    pub open spec fn has_bytes(
        dialect: Dialect,
        delimiter: u8,
        record_ending: RecordEnding,
        escape: Escape,
        comment: Option<u8>,
    ) -> bool {
        &&& dialect.delimiter == delimiter
        &&& dialect.quote == QUOTE
        &&& dialect.record_ending == record_ending
        &&& dialect.escape == escape
        &&& dialect.comment == comment
        &&& dialect.delimiter_tail.spec_len() == 0
        &&& dialect.delimiter_tail.spec_bytes() == seq![0u8, 0u8, 0u8, 0u8, 0u8, 0u8, 0u8]
        &&& dialect.ending_tail == dialect.delimiter_tail
    }

    /// Whether this is the built-in format that its tag names.
    pub open spec fn genuine(self) -> bool {
        match self.tag {
            FormatTag::Csv => {
                &&& FormatOptions::has_bytes(self.dialect, COMMA, RecordEnding::Newline, Escape::DoubleQuote, None)
                &&& self == FormatOptions::of_dialect(self.dialect, FormatTag::Csv)
            },
            FormatTag::Tsv => {
                &&& FormatOptions::has_bytes(self.dialect, TAB, RecordEnding::Newline, Escape::DoubleQuote, None)
                &&& self == FormatOptions::of_dialect(self.dialect, FormatTag::Tsv)
            },
            FormatTag::Semicolon => {
                &&& FormatOptions::has_bytes(self.dialect, SEMICOLON, RecordEnding::Newline, Escape::DoubleQuote, None)
                &&& self == FormatOptions::of_dialect(self.dialect, FormatTag::Semicolon)
            },
            FormatTag::Pipe => {
                &&& FormatOptions::has_bytes(self.dialect, PIPE, RecordEnding::Newline, Escape::DoubleQuote, None)
                &&& self == FormatOptions::of_dialect(self.dialect, FormatTag::Pipe)
            },
            FormatTag::BackslashCsv => {
                &&& FormatOptions::has_bytes(self.dialect, COMMA, RecordEnding::Newline, Escape::Backslash(BACKSLASH), None)
                &&& self == FormatOptions::of_dialect(self.dialect, FormatTag::BackslashCsv)
            },
            FormatTag::BackslashTsv => {
                &&& FormatOptions::has_bytes(self.dialect, TAB, RecordEnding::Newline, Escape::Backslash(BACKSLASH), None)
                &&& self == FormatOptions::of_dialect(self.dialect, FormatTag::BackslashTsv)
            },
            FormatTag::CommentedCsv => {
                &&& FormatOptions::has_bytes(self.dialect, COMMA, RecordEnding::Newline, Escape::DoubleQuote, Some(HASH))
                &&& self == (FormatOptions {
                blank_records: BlankRecords::Skip,
                ..FormatOptions::of_dialect(self.dialect, FormatTag::CommentedCsv)
            })
            },
            FormatTag::TrimmedCsv => {
                &&& FormatOptions::has_bytes(self.dialect, COMMA, RecordEnding::Newline, Escape::DoubleQuote, None)
                &&& self == (FormatOptions {
                trim: Whitespace::all(),
                ..FormatOptions::of_dialect(self.dialect, FormatTag::TrimmedCsv)
            })
            },
            FormatTag::PythonCsv => {
                &&& FormatOptions::has_bytes(self.dialect, COMMA, RecordEnding::Newline, Escape::DoubleQuote, None)
                &&& self == (FormatOptions {
                skip_initial_space: true,
                ..FormatOptions::of_dialect(self.dialect, FormatTag::PythonCsv)
            })
            },
            FormatTag::PythonEscaped => {
                &&& FormatOptions::has_bytes(self.dialect, COMMA, RecordEnding::Newline, Escape::Unquoted(BACKSLASH), None)
                &&& self == (FormatOptions {
                quoting: Quoting::Never,
                ..FormatOptions::of_dialect(self.dialect, FormatTag::PythonEscaped)
            })
            },
            FormatTag::Rfc4180 => {
                &&& FormatOptions::has_bytes(self.dialect, COMMA, RecordEnding::CrLf, Escape::DoubleQuote, None)
                &&& self == FormatOptions::of_dialect(self.dialect, FormatTag::Rfc4180)
            },
            FormatTag::Excel => {
                &&& FormatOptions::has_bytes(self.dialect, COMMA, RecordEnding::CrLf, Escape::DoubleQuote, None)
                &&& self == FormatOptions::of_dialect(self.dialect, FormatTag::Excel)
            },
            FormatTag::PostgresCopyCsv => {
                &&& FormatOptions::has_bytes(self.dialect, COMMA, RecordEnding::Newline, Escape::DoubleQuote, None)
                &&& self == (FormatOptions {
                nulls: Nulls::PostgresCsv,
                ..FormatOptions::of_dialect(self.dialect, FormatTag::PostgresCopyCsv)
            })
            },
            FormatTag::Mysql => {
                &&& FormatOptions::has_bytes(self.dialect, TAB, RecordEnding::Newline, Escape::Mysql, None)
                &&& self == (FormatOptions {
                nulls: Nulls::Mysql,
                quoting: Quoting::Never,
                ..FormatOptions::of_dialect(self.dialect, FormatTag::Mysql)
            })
            },
            FormatTag::Custom => true,
        }
    }

    /// The dialect with the given bytes, and with separators of one byte.
    pub open spec fn plain_dialect(
        delimiter: u8,
        record_ending: RecordEnding,
        escape: Escape,
        comment: Option<u8>,
    ) -> Dialect {
        let tail = Tail::of(0, seq![0u8, 0u8, 0u8, 0u8, 0u8, 0u8, 0u8]);
        Dialect {
            delimiter,
            quote: QUOTE,
            record_ending,
            escape,
            comment,
            delimiter_tail: tail,
            ending_tail: tail,
        }
    }

    /// The built-in format that a tag names; of no built-in, CSV.
    pub open spec fn named(tag: FormatTag) -> FormatOptions {
        let delimiter = match tag {
            FormatTag::Tsv | FormatTag::BackslashTsv | FormatTag::Mysql => TAB,
            FormatTag::Semicolon => SEMICOLON,
            FormatTag::Pipe => PIPE,
            _ => COMMA,
        };
        let record_ending = match tag {
            FormatTag::Rfc4180 | FormatTag::Excel => RecordEnding::CrLf,
            _ => RecordEnding::Newline,
        };
        let escape = match tag {
            FormatTag::BackslashCsv | FormatTag::BackslashTsv => Escape::Backslash(BACKSLASH),
            FormatTag::PythonEscaped => Escape::Unquoted(BACKSLASH),
            FormatTag::Mysql => Escape::Mysql,
            _ => Escape::DoubleQuote,
        };
        let comment = match tag {
            FormatTag::CommentedCsv => Some(HASH),
            _ => None,
        };
        FormatOptions {
            trim: match tag {
                FormatTag::TrimmedCsv => Whitespace::all(),
                _ => Whitespace::none(),
            },
            blank_records: match tag {
                FormatTag::CommentedCsv => BlankRecords::Skip,
                _ => BlankRecords::Preserve,
            },
            quoting: match tag {
                FormatTag::PythonEscaped | FormatTag::Mysql => Quoting::Never,
                _ => Quoting::Necessary,
            },
            nulls: match tag {
                FormatTag::PostgresCopyCsv => Nulls::PostgresCsv,
                FormatTag::Mysql => Nulls::Mysql,
                _ => Nulls::Disabled,
            },
            skip_initial_space: tag is PythonCsv,
            ..FormatOptions::of_dialect(
                FormatOptions::plain_dialect(delimiter, record_ending, escape, comment),
                tag,
            )
        }
    }

    fn built_in(
        delimiter: u8,
        record_ending: RecordEnding,
        escape: Escape,
        comment: Option<u8>,
        tag: FormatTag,
    ) -> (format: FormatOptions)
        ensures
            FormatOptions::has_bytes(format.dialect, delimiter, record_ending, escape, comment),
            format.dialect == FormatOptions::plain_dialect(delimiter, record_ending, escape, comment),
            format == FormatOptions::of_dialect(format.dialect, tag),
    {
        let tail = Tail::empty();
        FormatOptions {
            dialect: Dialect {
                delimiter,
                quote: QUOTE,
                record_ending,
                escape,
                comment,
                delimiter_tail: tail,
                ending_tail: tail,
            },
            trim: Whitespace::none(),
            blank_records: BlankRecords::Preserve,
            read_bom: ReadBom::Detect,
            write_bom: WriteBom::Omit,
            syntax: Syntax::Strict,
            nulls: Nulls::Disabled,
            quoting: Quoting::Necessary,
            skip_initial_space: false,
            tag,
        }
    }

    /// The format of a dialect with every other setting as in CSV.
    pub fn from_dialect(dialect: Dialect) -> (format: FormatOptions)
        ensures
            format == FormatOptions::of_dialect(dialect, FormatTag::Custom),
    {
        FormatOptions {
            dialect,
            trim: Whitespace::none(),
            blank_records: BlankRecords::Preserve,
            read_bom: ReadBom::Detect,
            write_bom: WriteBom::Omit,
            syntax: Syntax::Strict,
            nulls: Nulls::Disabled,
            quoting: Quoting::Necessary,
            skip_initial_space: false,
            tag: FormatTag::Custom,
        }
    }

    /// Comma-separated values.
    pub fn csv() -> (format: FormatOptions)
        ensures
            format.tag == FormatTag::Csv,
            format.genuine(),
            format == FormatOptions::named(FormatTag::Csv),
    {
        FormatOptions::built_in(COMMA, RecordEnding::Newline, Escape::DoubleQuote, None, FormatTag::Csv)
    }

    /// Tab-separated values.
    pub fn tsv() -> (format: FormatOptions)
        ensures
            format.tag == FormatTag::Tsv,
            format.genuine(),
            format == FormatOptions::named(FormatTag::Tsv),
    {
        FormatOptions::built_in(TAB, RecordEnding::Newline, Escape::DoubleQuote, None, FormatTag::Tsv)
    }

    /// Semicolon-separated values.
    pub fn semicolon() -> (format: FormatOptions)
        ensures
            format.tag == FormatTag::Semicolon,
            format.genuine(),
            format == FormatOptions::named(FormatTag::Semicolon),
    {
        FormatOptions::built_in(SEMICOLON, RecordEnding::Newline, Escape::DoubleQuote, None, FormatTag::Semicolon)
    }

    /// Values separated by vertical bars.
    pub fn pipe() -> (format: FormatOptions)
        ensures
            format.tag == FormatTag::Pipe,
            format.genuine(),
            format == FormatOptions::named(FormatTag::Pipe),
    {
        FormatOptions::built_in(PIPE, RecordEnding::Newline, Escape::DoubleQuote, None, FormatTag::Pipe)
    }

    /// CSV whose quotes are escaped by a backslash.
    pub fn backslash_csv() -> (format: FormatOptions)
        ensures
            format.tag == FormatTag::BackslashCsv,
            format.genuine(),
            format == FormatOptions::named(FormatTag::BackslashCsv),
    {
        FormatOptions::built_in(COMMA, RecordEnding::Newline, Escape::Backslash(BACKSLASH), None, FormatTag::BackslashCsv)
    }

    /// TSV whose quotes are escaped by a backslash.
    pub fn backslash_tsv() -> (format: FormatOptions)
        ensures
            format.tag == FormatTag::BackslashTsv,
            format.genuine(),
            format == FormatOptions::named(FormatTag::BackslashTsv),
    {
        FormatOptions::built_in(TAB, RecordEnding::Newline, Escape::Backslash(BACKSLASH), None, FormatTag::BackslashTsv)
    }

    /// CSV with comment lines that start with a number sign, and whose empty lines
    /// are skipped.
    pub fn commented_csv() -> (format: FormatOptions)
        ensures
            format.tag == FormatTag::CommentedCsv,
            format.genuine(),
            format == FormatOptions::named(FormatTag::CommentedCsv),
    {
        let format = FormatOptions::built_in(COMMA, RecordEnding::Newline, Escape::DoubleQuote, Some(HASH), FormatTag::CommentedCsv);
        FormatOptions { blank_records: BlankRecords::Skip, ..format }
    }

    /// CSV whose fields are trimmed.
    pub fn trimmed_csv() -> (format: FormatOptions)
        ensures
            format.tag == FormatTag::TrimmedCsv,
            format.genuine(),
            format == FormatOptions::named(FormatTag::TrimmedCsv),
    {
        let format = FormatOptions::built_in(COMMA, RecordEnding::Newline, Escape::DoubleQuote, None, FormatTag::TrimmedCsv);
        FormatOptions { trim: Whitespace::all(), ..format }
    }

    /// CSV whose spaces right behind delimiters are ignored.
    pub fn python_csv() -> (format: FormatOptions)
        ensures
            format.tag == FormatTag::PythonCsv,
            format.genuine(),
            format == FormatOptions::named(FormatTag::PythonCsv),
    {
        let format = FormatOptions::built_in(COMMA, RecordEnding::Newline, Escape::DoubleQuote, None, FormatTag::PythonCsv);
        FormatOptions { skip_initial_space: true, ..format }
    }

    /// CSV that escapes in place of quoting.
    pub fn python_escaped() -> (format: FormatOptions)
        ensures
            format.tag == FormatTag::PythonEscaped,
            format.genuine(),
            format == FormatOptions::named(FormatTag::PythonEscaped),
    {
        let format = FormatOptions::built_in(COMMA, RecordEnding::Newline, Escape::Unquoted(BACKSLASH), None, FormatTag::PythonEscaped);
        FormatOptions { quoting: Quoting::Never, ..format }
    }

    /// CSV as RFC 4180 has it, with CRLF endings.
    pub fn rfc4180() -> (format: FormatOptions)
        ensures
            format.tag == FormatTag::Rfc4180,
            format.genuine(),
            format == FormatOptions::named(FormatTag::Rfc4180),
    {
        FormatOptions::built_in(COMMA, RecordEnding::CrLf, Escape::DoubleQuote, None, FormatTag::Rfc4180)
    }

    /// CSV as spreadsheets write it, with CRLF endings.
    pub fn excel() -> (format: FormatOptions)
        ensures
            format.tag == FormatTag::Excel,
            format.genuine(),
            format == FormatOptions::named(FormatTag::Excel),
    {
        FormatOptions::built_in(COMMA, RecordEnding::CrLf, Escape::DoubleQuote, None, FormatTag::Excel)
    }

    /// CSV whose empty unquoted fields are NULL.
    pub fn postgres_copy_csv() -> (format: FormatOptions)
        ensures
            format.tag == FormatTag::PostgresCopyCsv,
            format.genuine(),
            format == FormatOptions::named(FormatTag::PostgresCopyCsv),
    {
        let format = FormatOptions::built_in(COMMA, RecordEnding::Newline, Escape::DoubleQuote, None, FormatTag::PostgresCopyCsv);
        FormatOptions { nulls: Nulls::PostgresCsv, ..format }
    }

    /// Tab-separated values with MySQL's escapes and NULL marker.
    pub fn mysql() -> (format: FormatOptions)
        ensures
            format.tag == FormatTag::Mysql,
            format.genuine(),
            format == FormatOptions::named(FormatTag::Mysql),
    {
        let format = FormatOptions::built_in(TAB, RecordEnding::Newline, Escape::Mysql, None, FormatTag::Mysql);
        FormatOptions { nulls: Nulls::Mysql, quoting: Quoting::Never, ..format }
    }

    /// The same format with another delimiter.
    pub fn delimiter(self, delimiter: u8) -> (format: FormatOptions)
        ensures
            format == (FormatOptions {
                dialect: Dialect { delimiter, ..self.dialect },
                tag: FormatTag::Custom,
                ..self
            }),
    {
        FormatOptions { dialect: Dialect { delimiter, ..self.dialect }, tag: FormatTag::Custom, ..self }
    }

    /// The same format with comment lines that start with this byte, or with none.
    pub fn comment(self, comment: Option<u8>) -> (format: FormatOptions)
        ensures
            format == (FormatOptions {
                dialect: Dialect { comment, ..self.dialect },
                tag: FormatTag::Custom,
                ..self
            }),
    {
        FormatOptions { dialect: Dialect { comment, ..self.dialect }, tag: FormatTag::Custom, ..self }
    }

    /// The same format with another quote.
    pub fn quote(self, quote: u8) -> (format: FormatOptions)
        ensures
            format == (FormatOptions {
                dialect: Dialect { quote, ..self.dialect },
                tag: FormatTag::Custom,
                ..self
            }),
    {
        FormatOptions { dialect: Dialect { quote, ..self.dialect }, tag: FormatTag::Custom, ..self }
    }

    /// The same format with another record ending.
    pub fn record_ending(self, record_ending: RecordEnding) -> (format: FormatOptions)
        ensures
            format == (FormatOptions {
                dialect: Dialect { record_ending, ..self.dialect },
                tag: FormatTag::Custom,
                ..self
            }),
    {
        FormatOptions { dialect: Dialect { record_ending, ..self.dialect }, tag: FormatTag::Custom, ..self }
    }

    /// The same format with a delimiter of one to eight bytes.
    pub fn delimiter_sequence(self, bytes: &[u8]) -> (format: FormatOptions)
        requires
            1 <= bytes@.len() <= 8,
        ensures
            format.dialect.delimiter == bytes@[0],
            format.dialect.delimiter_tail == Tail::spelling(bytes@.skip(1)),
            format == (FormatOptions {
                dialect: Dialect {
                    delimiter: format.dialect.delimiter,
                    delimiter_tail: format.dialect.delimiter_tail,
                    ..self.dialect
                },
                tag: FormatTag::Custom,
                ..self
            }),
    {
        let delimiter_tail = Tail::from_slice(bytes, 1);
        FormatOptions {
            dialect: Dialect { delimiter: bytes[0], delimiter_tail, ..self.dialect },
            tag: FormatTag::Custom,
            ..self
        }
    }

    /// The same format with a record ending of one to eight chosen bytes.
    pub fn record_ending_sequence(self, bytes: &[u8]) -> (format: FormatOptions)
        requires
            1 <= bytes@.len() <= 8,
        ensures
            format.dialect.record_ending == RecordEnding::Byte(bytes@[0]),
            format.dialect.ending_tail == Tail::spelling(bytes@.skip(1)),
            format == (FormatOptions {
                dialect: Dialect {
                    record_ending: format.dialect.record_ending,
                    ending_tail: format.dialect.ending_tail,
                    ..self.dialect
                },
                tag: FormatTag::Custom,
                ..self
            }),
    {
        let ending_tail = Tail::from_slice(bytes, 1);
        FormatOptions {
            dialect: Dialect {
                record_ending: RecordEnding::Byte(bytes[0]),
                ending_tail,
                ..self.dialect
            },
            tag: FormatTag::Custom,
            ..self
        }
    }

    /// The same format with another escape.
    pub fn escape(self, escape: Escape) -> (format: FormatOptions)
        ensures
            format == (FormatOptions {
                dialect: Dialect { escape, ..self.dialect },
                tag: FormatTag::Custom,
                ..self
            }),
    {
        FormatOptions { dialect: Dialect { escape, ..self.dialect }, tag: FormatTag::Custom, ..self }
    }

    /// The same format with other trimming.
    pub fn trim(self, trim: Whitespace) -> (format: FormatOptions)
        ensures
            format == (FormatOptions { trim, tag: FormatTag::Custom, ..self }),
    {
        FormatOptions { trim, tag: FormatTag::Custom, ..self }
    }

    /// The same format with another reading of empty lines.
    pub fn blank_records(self, blank_records: BlankRecords) -> (format: FormatOptions)
        ensures
            format == (FormatOptions { blank_records, tag: FormatTag::Custom, ..self }),
    {
        FormatOptions { blank_records, tag: FormatTag::Custom, ..self }
    }

    /// The same format with another treatment of a byte-order mark by readers.
    pub fn read_bom(self, read_bom: ReadBom) -> (format: FormatOptions)
        ensures
            format == (FormatOptions { read_bom, tag: FormatTag::Custom, ..self }),
    {
        FormatOptions { read_bom, tag: FormatTag::Custom, ..self }
    }

    /// The same format with another treatment of a byte-order mark by writers.
    pub fn write_bom(self, write_bom: WriteBom) -> (format: FormatOptions)
        ensures
            format == (FormatOptions { write_bom, tag: FormatTag::Custom, ..self }),
    {
        FormatOptions { write_bom, tag: FormatTag::Custom, ..self }
    }

    /// The same format, read by other rules.
    pub fn syntax(self, syntax: Syntax) -> (format: FormatOptions)
        ensures
            format == (FormatOptions { syntax, tag: FormatTag::Custom, ..self }),
    {
        FormatOptions { syntax, tag: FormatTag::Custom, ..self }
    }

    /// The same format with other NULLs.
    pub fn nulls(self, nulls: Nulls) -> (format: FormatOptions)
        ensures
            format == (FormatOptions { nulls, tag: FormatTag::Custom, ..self }),
    {
        FormatOptions { nulls, tag: FormatTag::Custom, ..self }
    }

    /// The same format with other quoting.
    pub fn quoting(self, quoting: Quoting) -> (format: FormatOptions)
        ensures
            format == (FormatOptions { quoting, tag: FormatTag::Custom, ..self }),
    {
        FormatOptions { quoting, tag: FormatTag::Custom, ..self }
    }

    /// The same format with spaces after a delimiter skipped or kept.
    pub fn skip_initial_space(self, skip_initial_space: bool) -> (format: FormatOptions)
        ensures
            format == (FormatOptions { skip_initial_space, tag: FormatTag::Custom, ..self }),
    {
        FormatOptions { skip_initial_space, tag: FormatTag::Custom, ..self }
    }

    /// Whether a writer starts with a byte-order mark.
    #[verifier::allow_in_spec]
    pub fn emits_bom(self) -> bool
        returns
            self.write_bom == WriteBom::Emit,
    {
        self.write_bom == WriteBom::Emit
    }

    /// Fail when a document in this format has no single reading.
    pub fn validate(self) -> (result: Result<(), Error>)
        ensures
            result is Ok == self.dialect.valid(),
            result matches Err(error) ==> error.misconfigured(),
    {
        match self.dialect.invalidity() {
            Some(reason) => Err(Error::detailed(ErrorKind::Configuration, reason)),
            None => Ok(()),
        }
    }
}

impl Default for FormatOptions {
    fn default() -> (format: FormatOptions)
        ensures
            FormatOptions::has_bytes(format.dialect, COMMA, RecordEnding::Newline, Escape::DoubleQuote, None),
            format == FormatOptions::of_dialect(format.dialect, FormatTag::Csv),
    {
        FormatOptions::csv()
    }
}

/// How an emitter works, apart from the format.
#[derive(Clone, Copy, Debug, PartialEq, Eq, Structural)]
pub struct EmitOptions {
    /// How many fields a record must have.
    pub field_count: FieldCount,
    /// Whether whole-document writers start with a header record.
    pub has_headers: bool,
    /// How many bytes are buffered before the sink sees them.
    pub buffer_capacity: usize,
}

impl EmitOptions {
    /// Any number of fields, a header record, 64 KiB of buffer.
    #[verifier::allow_in_spec]
    pub fn new() -> EmitOptions
        returns
            (EmitOptions { field_count: FieldCount::Flexible, has_headers: true, buffer_capacity: 65_536 }),
    {
        EmitOptions { field_count: FieldCount::Flexible, has_headers: true, buffer_capacity: 65_536 }
    }

    /// The same options with another field-count policy.
    #[verifier::allow_in_spec]
    pub fn field_count(self, field_count: FieldCount) -> EmitOptions
        returns
            (EmitOptions { field_count, ..self }),
    {
        EmitOptions { field_count, ..self }
    }

    /// The same options with or without a header record.
    #[verifier::allow_in_spec]
    pub fn has_headers(self, has_headers: bool) -> EmitOptions
        returns
            (EmitOptions { has_headers, ..self }),
    {
        EmitOptions { has_headers, ..self }
    }

    /// The same options with another buffer size.
    #[verifier::allow_in_spec]
    pub fn buffer_capacity(self, buffer_capacity: usize) -> EmitOptions
        returns
            (EmitOptions { buffer_capacity, ..self }),
    {
        EmitOptions { buffer_capacity, ..self }
    }

    /// Fail when the format is ambiguous or the buffer holds nothing.
    pub fn validate_buffered(self, format: FormatOptions) -> (result: Result<(), Error>)
        ensures
            result is Ok == (format.dialect.valid() && self.buffer_capacity > 0),
            result matches Err(error) ==> error.misconfigured(),
    {
        if self.buffer_capacity == 0 {
            return Err(
                Error::detailed(
                    ErrorKind::Configuration,
                    "buffer capacity must be greater than zero",
                ),
            );
        }
        format.validate()
    }
}

impl Default for EmitOptions {
    fn default() -> (options: EmitOptions)
        ensures
            options == EmitOptions::new(),
    {
        EmitOptions::new()
    }
}

/// Everything a parser is configured with.
#[derive(Clone, Copy, Debug, PartialEq, Eq, Structural)]
pub struct ParserSettings {
    /// The structural bytes.
    pub dialect: Dialect,
    /// Whether the format is insisted on.
    pub syntax: Syntax,
    /// How a NULL is told from an empty string.
    pub nulls: Nulls,
    /// What is trimmed from fields.
    pub trim: Whitespace,
    /// What an empty line is.
    pub blank_records: BlankRecords,
    /// Whether spaces after a delimiter are skipped.
    pub skip_initial_space: bool,
    /// Where the format came from.
    pub format_tag: FormatTag,
    /// The bounds on records and fields.
    pub limits: Limits,
    /// How many fields a record must have.
    pub field_count: FieldCount,
    /// What the first record is.
    pub headers: Headers,
    /// What happens to a byte-order mark.
    pub bom: ReadBom,
    /// Whether specialized parsers are left unused.
    pub force_general_parser: bool,
}

impl ParserSettings {
    /// The settings of a dialect under limits, with everything else as in CSV.
    pub open spec fn of(dialect: Dialect, limits: Limits, headers: Headers) -> ParserSettings {
        ParserSettings {
            dialect,
            syntax: Syntax::Strict,
            nulls: Nulls::Disabled,
            trim: Whitespace::none(),
            blank_records: BlankRecords::Preserve,
            skip_initial_space: false,
            format_tag: FormatTag::Custom,
            limits,
            field_count: FieldCount::Flexible,
            headers,
            bom: ReadBom::Detect,
            force_general_parser: false,
        }
    }

    fn with_headers(dialect: Dialect, limits: Limits, headers: Headers) -> (settings: ParserSettings)
        ensures
            settings == ParserSettings::of(dialect, limits, headers),
    {
        ParserSettings {
            dialect,
            syntax: Syntax::Strict,
            nulls: Nulls::Disabled,
            trim: Whitespace::none(),
            blank_records: BlankRecords::Preserve,
            skip_initial_space: false,
            format_tag: FormatTag::Custom,
            limits,
            field_count: FieldCount::Flexible,
            headers,
            bom: ReadBom::Detect,
            force_general_parser: false,
        }
    }

    /// Settings whose first record is data.
    pub fn unheaded(dialect: Dialect, limits: Limits) -> (settings: ParserSettings)
        ensures
            settings == ParserSettings::of(dialect, limits, Headers::Absent),
    {
        ParserSettings::with_headers(dialect, limits, Headers::Absent)
    }

    /// Settings whose first record holds the column names.
    pub fn headed(dialect: Dialect, limits: Limits) -> (settings: ParserSettings)
        ensures
            settings == ParserSettings::of(dialect, limits, Headers::Present),
    {
        ParserSettings::with_headers(dialect, limits, Headers::Present)
    }

    /// The settings of a format under limits, with data from the first record on.
    pub open spec fn of_format(format: FormatOptions, limits: Limits) -> ParserSettings {
        ParserSettings {
            dialect: format.dialect,
            syntax: format.syntax,
            nulls: format.nulls,
            trim: format.trim,
            blank_records: format.blank_records,
            skip_initial_space: format.skip_initial_space,
            format_tag: format.tag,
            limits,
            field_count: FieldCount::Flexible,
            headers: Headers::Absent,
            bom: format.read_bom,
            force_general_parser: false,
        }
    }

    /// The settings of a format under limits, with data from the first record on.
    pub fn from_format(format: FormatOptions, limits: Limits) -> (settings: ParserSettings)
        ensures
            settings == ParserSettings::of_format(format, limits),
    {
        ParserSettings {
            dialect: format.dialect,
            syntax: format.syntax,
            nulls: format.nulls,
            trim: format.trim,
            blank_records: format.blank_records,
            skip_initial_space: format.skip_initial_space,
            format_tag: format.tag,
            limits,
            field_count: FieldCount::Flexible,
            headers: Headers::Absent,
            bom: format.read_bom,
            force_general_parser: false,
        }
    }
}

} // verus!
