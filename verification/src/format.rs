//! Formats as types, and the built-in format that settings amount to.

use vstd::prelude::*;

use crate::ascii::{COMMA, TAB};
use crate::config::{BlankRecords, Escape, Nulls, RecordEnding, Syntax, Whitespace};
use crate::options::{FormatOptions, FormatTag, ParserSettings};

verus! {

/// A format, or the promise of one.
pub trait CsvFormat {
    /// The format, where the type fixes one.
    fn options() -> (options: Option<FormatOptions>)
        ensures
            options matches Some(format) ==> format.dialect.valid(),
    ;
}

/// Marks the types that may be formats of their own.
pub trait Sealed {

}

/// A format that the type fixes.
pub trait StaticFormat: CsvFormat + Sealed {
    /// The format that the type stands for.
    spec fn spec_format() -> FormatOptions;

    /// The format.
    fn format() -> (format: FormatOptions)
        ensures
            format == Self::spec_format(),
            format.dialect.valid(),
    ;
}

/// A format that is chosen at run time.
#[derive(Debug, Clone, Copy, Default, PartialEq, Eq, Hash, PartialOrd, Ord)]
pub struct Dynamic;

impl CsvFormat for Dynamic {
    fn options() -> (options: Option<FormatOptions>)
        ensures
            options is None,
    {
        None
    }
}

/// Comma-separated values.
#[derive(Debug, Clone, Copy, Default, PartialEq, Eq, Hash, PartialOrd, Ord)]
pub struct Csv;

impl CsvFormat for Csv {
    fn options() -> (options: Option<FormatOptions>)
        ensures
            options matches Some(format) && format.tag == FormatTag::Csv && format.genuine(),
    {
        Some(FormatOptions::csv())
    }
}

impl Sealed for Csv {

}

impl StaticFormat for Csv {
    open spec fn spec_format() -> FormatOptions {
        FormatOptions::named(FormatTag::Csv)
    }

    fn format() -> (format: FormatOptions)
        ensures
            format.tag == FormatTag::Csv,
            format.genuine(),
    {
        FormatOptions::csv()
    }
}

/// Tab-separated values.
#[derive(Debug, Clone, Copy, Default, PartialEq, Eq, Hash, PartialOrd, Ord)]
pub struct Tsv;

impl CsvFormat for Tsv {
    fn options() -> (options: Option<FormatOptions>)
        ensures
            options matches Some(format) && format.tag == FormatTag::Tsv && format.genuine(),
    {
        Some(FormatOptions::tsv())
    }
}

impl Sealed for Tsv {

}

impl StaticFormat for Tsv {
    open spec fn spec_format() -> FormatOptions {
        FormatOptions::named(FormatTag::Tsv)
    }

    fn format() -> (format: FormatOptions)
        ensures
            format.tag == FormatTag::Tsv,
            format.genuine(),
    {
        FormatOptions::tsv()
    }
}

/// Semicolon-separated values.
#[derive(Debug, Clone, Copy, Default, PartialEq, Eq, Hash, PartialOrd, Ord)]
pub struct Semicolon;

impl CsvFormat for Semicolon {
    fn options() -> (options: Option<FormatOptions>)
        ensures
            options matches Some(format) && format.tag == FormatTag::Semicolon && format.genuine(),
    {
        Some(FormatOptions::semicolon())
    }
}

impl Sealed for Semicolon {

}

impl StaticFormat for Semicolon {
    open spec fn spec_format() -> FormatOptions {
        FormatOptions::named(FormatTag::Semicolon)
    }

    fn format() -> (format: FormatOptions)
        ensures
            format.tag == FormatTag::Semicolon,
            format.genuine(),
    {
        FormatOptions::semicolon()
    }
}

/// Values separated by vertical bars.
#[derive(Debug, Clone, Copy, Default, PartialEq, Eq, Hash, PartialOrd, Ord)]
pub struct Pipe;

impl CsvFormat for Pipe {
    fn options() -> (options: Option<FormatOptions>)
        ensures
            options matches Some(format) && format.tag == FormatTag::Pipe && format.genuine(),
    {
        Some(FormatOptions::pipe())
    }
}

impl Sealed for Pipe {

}

impl StaticFormat for Pipe {
    open spec fn spec_format() -> FormatOptions {
        FormatOptions::named(FormatTag::Pipe)
    }

    fn format() -> (format: FormatOptions)
        ensures
            format.tag == FormatTag::Pipe,
            format.genuine(),
    {
        FormatOptions::pipe()
    }
}

/// CSV whose quotes are escaped by a backslash.
#[derive(Debug, Clone, Copy, Default, PartialEq, Eq, Hash, PartialOrd, Ord)]
pub struct BackslashCsv;

impl CsvFormat for BackslashCsv {
    fn options() -> (options: Option<FormatOptions>)
        ensures
            options matches Some(format) && format.tag == FormatTag::BackslashCsv && format.genuine(),
    {
        Some(FormatOptions::backslash_csv())
    }
}

impl Sealed for BackslashCsv {

}

impl StaticFormat for BackslashCsv {
    open spec fn spec_format() -> FormatOptions {
        FormatOptions::named(FormatTag::BackslashCsv)
    }

    fn format() -> (format: FormatOptions)
        ensures
            format.tag == FormatTag::BackslashCsv,
            format.genuine(),
    {
        FormatOptions::backslash_csv()
    }
}

/// TSV whose quotes are escaped by a backslash.
#[derive(Debug, Clone, Copy, Default, PartialEq, Eq, Hash, PartialOrd, Ord)]
pub struct BackslashTsv;

impl CsvFormat for BackslashTsv {
    fn options() -> (options: Option<FormatOptions>)
        ensures
            options matches Some(format) && format.tag == FormatTag::BackslashTsv && format.genuine(),
    {
        Some(FormatOptions::backslash_tsv())
    }
}

impl Sealed for BackslashTsv {

}

impl StaticFormat for BackslashTsv {
    open spec fn spec_format() -> FormatOptions {
        FormatOptions::named(FormatTag::BackslashTsv)
    }

    fn format() -> (format: FormatOptions)
        ensures
            format.tag == FormatTag::BackslashTsv,
            format.genuine(),
    {
        FormatOptions::backslash_tsv()
    }
}

/// CSV with comment lines.
#[derive(Debug, Clone, Copy, Default, PartialEq, Eq, Hash, PartialOrd, Ord)]
pub struct CommentedCsv;

impl CsvFormat for CommentedCsv {
    fn options() -> (options: Option<FormatOptions>)
        ensures
            options matches Some(format) && format.tag == FormatTag::CommentedCsv && format.genuine(),
    {
        Some(FormatOptions::commented_csv())
    }
}

impl Sealed for CommentedCsv {

}

impl StaticFormat for CommentedCsv {
    open spec fn spec_format() -> FormatOptions {
        FormatOptions::named(FormatTag::CommentedCsv)
    }

    fn format() -> (format: FormatOptions)
        ensures
            format.tag == FormatTag::CommentedCsv,
            format.genuine(),
    {
        FormatOptions::commented_csv()
    }
}

/// CSV whose fields are trimmed.
#[derive(Debug, Clone, Copy, Default, PartialEq, Eq, Hash, PartialOrd, Ord)]
pub struct TrimmedCsv;

impl CsvFormat for TrimmedCsv {
    fn options() -> (options: Option<FormatOptions>)
        ensures
            options matches Some(format) && format.tag == FormatTag::TrimmedCsv && format.genuine(),
    {
        Some(FormatOptions::trimmed_csv())
    }
}

impl Sealed for TrimmedCsv {

}

impl StaticFormat for TrimmedCsv {
    open spec fn spec_format() -> FormatOptions {
        FormatOptions::named(FormatTag::TrimmedCsv)
    }

    fn format() -> (format: FormatOptions)
        ensures
            format.tag == FormatTag::TrimmedCsv,
            format.genuine(),
    {
        FormatOptions::trimmed_csv()
    }
}

/// CSV as lenient readers accept it.
#[derive(Debug, Clone, Copy, Default, PartialEq, Eq, Hash, PartialOrd, Ord)]
pub struct PythonCsv;

impl CsvFormat for PythonCsv {
    fn options() -> (options: Option<FormatOptions>)
        ensures
            options matches Some(format) && format.tag == FormatTag::PythonCsv && format.genuine(),
    {
        Some(FormatOptions::python_csv())
    }
}

impl Sealed for PythonCsv {

}

impl StaticFormat for PythonCsv {
    open spec fn spec_format() -> FormatOptions {
        FormatOptions::named(FormatTag::PythonCsv)
    }

    fn format() -> (format: FormatOptions)
        ensures
            format.tag == FormatTag::PythonCsv,
            format.genuine(),
    {
        FormatOptions::python_csv()
    }
}

/// CSV that escapes in place of quoting.
#[derive(Debug, Clone, Copy, Default, PartialEq, Eq, Hash, PartialOrd, Ord)]
pub struct PythonEscaped;

impl CsvFormat for PythonEscaped {
    fn options() -> (options: Option<FormatOptions>)
        ensures
            options matches Some(format) && format.tag == FormatTag::PythonEscaped && format.genuine(),
    {
        Some(FormatOptions::python_escaped())
    }
}

impl Sealed for PythonEscaped {

}

impl StaticFormat for PythonEscaped {
    open spec fn spec_format() -> FormatOptions {
        FormatOptions::named(FormatTag::PythonEscaped)
    }

    fn format() -> (format: FormatOptions)
        ensures
            format.tag == FormatTag::PythonEscaped,
            format.genuine(),
    {
        FormatOptions::python_escaped()
    }
}

/// CSV as RFC 4180 has it.
#[derive(Debug, Clone, Copy, Default, PartialEq, Eq, Hash, PartialOrd, Ord)]
pub struct Rfc4180;

impl CsvFormat for Rfc4180 {
    fn options() -> (options: Option<FormatOptions>)
        ensures
            options matches Some(format) && format.tag == FormatTag::Rfc4180 && format.genuine(),
    {
        Some(FormatOptions::rfc4180())
    }
}

impl Sealed for Rfc4180 {

}

impl StaticFormat for Rfc4180 {
    open spec fn spec_format() -> FormatOptions {
        FormatOptions::named(FormatTag::Rfc4180)
    }

    fn format() -> (format: FormatOptions)
        ensures
            format.tag == FormatTag::Rfc4180,
            format.genuine(),
    {
        FormatOptions::rfc4180()
    }
}

/// CSV as spreadsheets write it.
#[derive(Debug, Clone, Copy, Default, PartialEq, Eq, Hash, PartialOrd, Ord)]
pub struct Excel;

impl CsvFormat for Excel {
    fn options() -> (options: Option<FormatOptions>)
        ensures
            options matches Some(format) && format.tag == FormatTag::Excel && format.genuine(),
    {
        Some(FormatOptions::excel())
    }
}

impl Sealed for Excel {

}

impl StaticFormat for Excel {
    open spec fn spec_format() -> FormatOptions {
        FormatOptions::named(FormatTag::Excel)
    }

    fn format() -> (format: FormatOptions)
        ensures
            format.tag == FormatTag::Excel,
            format.genuine(),
    {
        FormatOptions::excel()
    }
}

/// CSV whose empty unquoted fields are NULL.
#[derive(Debug, Clone, Copy, Default, PartialEq, Eq, Hash, PartialOrd, Ord)]
pub struct PostgresCopyCsv;

impl CsvFormat for PostgresCopyCsv {
    fn options() -> (options: Option<FormatOptions>)
        ensures
            options matches Some(format) && format.tag == FormatTag::PostgresCopyCsv && format.genuine(),
    {
        Some(FormatOptions::postgres_copy_csv())
    }
}

impl Sealed for PostgresCopyCsv {

}

impl StaticFormat for PostgresCopyCsv {
    open spec fn spec_format() -> FormatOptions {
        FormatOptions::named(FormatTag::PostgresCopyCsv)
    }

    fn format() -> (format: FormatOptions)
        ensures
            format.tag == FormatTag::PostgresCopyCsv,
            format.genuine(),
    {
        FormatOptions::postgres_copy_csv()
    }
}

/// Tab-separated values with MySQL's escapes.
#[derive(Debug, Clone, Copy, Default, PartialEq, Eq, Hash, PartialOrd, Ord)]
pub struct Mysql;

impl CsvFormat for Mysql {
    fn options() -> (options: Option<FormatOptions>)
        ensures
            options matches Some(format) && format.tag == FormatTag::Mysql && format.genuine(),
    {
        Some(FormatOptions::mysql())
    }
}

impl Sealed for Mysql {

}

impl StaticFormat for Mysql {
    open spec fn spec_format() -> FormatOptions {
        FormatOptions::named(FormatTag::Mysql)
    }

    fn format() -> (format: FormatOptions)
        ensures
            format.tag == FormatTag::Mysql,
            format.genuine(),
    {
        FormatOptions::mysql()
    }
}

/// Which parser of its own a format has.
#[derive(Clone, Copy, Debug, PartialEq, Eq, Structural)]
pub enum FormatKind {
    /// That of [`Csv`].
    Csv,
    /// That of [`Tsv`].
    Tsv,
    /// None.
    Other,
}

/// Whether settings read like a format.
pub open spec fn reads_like(options: FormatOptions, settings: ParserSettings) -> bool {
    &&& !settings.force_general_parser
    &&& options.dialect == settings.dialect
    &&& options.syntax == settings.syntax
    &&& options.nulls == settings.nulls
    &&& options.trim == settings.trim
    &&& options.blank_records == settings.blank_records
    &&& options.skip_initial_space == settings.skip_initial_space
}

/// Whether settings read like a format.
pub fn agrees(options: FormatOptions, settings: &ParserSettings) -> (yes: bool)
    ensures
        yes == reads_like(options, *settings),
{
    if settings.force_general_parser {
        return false;
    }
    options.dialect == settings.dialect && options.syntax == settings.syntax && options.nulls
        == settings.nulls && options.trim == settings.trim && options.blank_records
        == settings.blank_records && options.skip_initial_space == settings.skip_initial_space
}

/// Whether settings are those of strict double-quoted records with this delimiter.
pub open spec fn strict_with(settings: ParserSettings, delimiter: u8) -> bool {
    &&& !settings.force_general_parser
    &&& FormatOptions::has_bytes(
        settings.dialect,
        delimiter,
        RecordEnding::Newline,
        Escape::DoubleQuote,
        None,
    )
    &&& settings.syntax == Syntax::Strict
    &&& settings.nulls == Nulls::Disabled
    &&& settings.trim == Whitespace::none()
    &&& settings.blank_records == BlankRecords::Preserve
    &&& !settings.skip_initial_space
}

impl FormatKind {
    /// The kind that the settings themselves amount to.
    pub open spec fn compared(settings: ParserSettings) -> FormatKind {
        if strict_with(settings, COMMA) {
            FormatKind::Csv
        } else if strict_with(settings, TAB) {
            FormatKind::Tsv
        } else {
            FormatKind::Other
        }
    }

    /// The kind that a tag names, or else the one that the settings amount to.
    pub open spec fn classified(settings: ParserSettings) -> FormatKind {
        match settings.format_tag {
            FormatTag::Csv => FormatKind::Csv,
            FormatTag::Tsv => FormatKind::Tsv,
            FormatTag::Custom => FormatKind::compared(settings),
            _ => FormatKind::Other,
        }
    }

    /// The kind of some settings, from their tag where they have one.
    pub fn of(settings: &ParserSettings) -> (kind: FormatKind)
        ensures
            kind == FormatKind::classified(*settings),
    {
        match settings.format_tag {
            FormatTag::Csv => FormatKind::Csv,
            FormatTag::Tsv => FormatKind::Tsv,
            FormatTag::Semicolon
            | FormatTag::Pipe
            | FormatTag::BackslashCsv
            | FormatTag::BackslashTsv
            | FormatTag::CommentedCsv
            | FormatTag::TrimmedCsv
            | FormatTag::PythonCsv
            | FormatTag::PythonEscaped
            | FormatTag::Rfc4180
            | FormatTag::Excel
            | FormatTag::PostgresCopyCsv
            | FormatTag::Mysql => FormatKind::Other,
            FormatTag::Custom => FormatKind::by_comparison(settings),
        }
    }

    /// The kind of some settings, from the settings alone.
    pub fn by_comparison(settings: &ParserSettings) -> (kind: FormatKind)
        ensures
            kind == FormatKind::compared(*settings),
    {
        let csv = FormatOptions::csv();
        let tsv = FormatOptions::tsv();
        proof {
            lemma_strict(csv, *settings, COMMA);
            lemma_strict(tsv, *settings, TAB);
        }
        if agrees(csv, settings) {
            FormatKind::Csv
        } else if agrees(tsv, settings) {
            FormatKind::Tsv
        } else {
            FormatKind::Other
        }
    }
}

proof fn lemma_strict(format: FormatOptions, settings: ParserSettings, delimiter: u8)
    requires
        FormatOptions::has_bytes(
            format.dialect,
            delimiter,
            RecordEnding::Newline,
            Escape::DoubleQuote,
            None,
        ),
        format == FormatOptions::of_dialect(format.dialect, format.tag),
    ensures
        reads_like(format, settings) == strict_with(settings, delimiter),
{
    if strict_with(settings, delimiter) {
        format.dialect.delimiter_tail.lemma_parts_determine(settings.dialect.delimiter_tail);
        assert(format.dialect == settings.dialect);
    }
}

/// Settings made from a built-in format: the kind that the tag names is the
/// kind that the settings amount to.
pub proof fn law_the_tag_of_a_built_in_tells_its_kind(format: FormatOptions, settings: ParserSettings)
    requires
        format.genuine(),
        reads_like(format, settings),
        settings.format_tag == format.tag,
    ensures
        FormatKind::classified(settings) == FormatKind::compared(settings),
{
}

/// Two formats that are equal are of the same kind, whatever they were made from.
pub proof fn law_equal_formats_are_of_one_kind(
    a: FormatOptions,
    b: FormatOptions,
    one: ParserSettings,
    other: ParserSettings,
)
    requires
        a.genuine(),
        b.genuine(),
        a.same_format(b),
        reads_like(a, one),
        reads_like(b, other),
        one.format_tag == a.tag,
        other.format_tag == b.tag,
    ensures
        FormatKind::classified(one) == FormatKind::classified(other),
{
    law_the_tag_of_a_built_in_tells_its_kind(a, one);
    law_the_tag_of_a_built_in_tells_its_kind(b, other);
}

} // verus!
