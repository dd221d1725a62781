//! Reading records.

use vstd::prelude::*;

use crate::ascii::{BACKSLASH, COMMA, LF, PIPE, QUOTE, SEMICOLON, TAB};
use crate::config::{Dialect, Escape, FieldCount, Limits, Nulls, ReadBom, RecordEnding, Syntax};
use crate::error::{Error, ErrorKind, Location};
use crate::options::ParserSettings;
use crate::search::{count_newlines, occurrences};
use crate::storage::{Field, RecordStorage};

pub mod checked;
pub mod checked_locality;
pub mod failure_laws;
pub mod grammar;
pub mod laws;
pub mod limit_laws;
pub mod locality;
pub mod owned_parser;
pub mod prefix;
pub mod reading_laws;
pub mod record_parser;
pub mod scanner;
pub mod suffix;

use grammar::{least, Named, Prefix, Rules};
use record_parser::stored;

verus! {

/// The first byte of the UTF-8 byte-order mark.
pub const BOM_FIRST: u8 = 0xEF;

/// The second byte of the UTF-8 byte-order mark.
pub const BOM_SECOND: u8 = 0xBB;

/// The third byte of the UTF-8 byte-order mark.
pub const BOM_THIRD: u8 = 0xBF;

/// The UTF-8 byte-order mark.
pub open spec fn bom() -> Seq<u8> {
    seq![BOM_FIRST, BOM_SECOND, BOM_THIRD]
}

/// Whether a document starts with a byte-order mark.
pub open spec fn has_bom(input: Seq<u8>) -> bool {
    input.len() >= 3 && input[0] == BOM_FIRST && input[1] == BOM_SECOND && input[2] == BOM_THIRD
}

/// Whether a document starts with a byte-order mark.
pub fn starts_with_bom(input: &[u8]) -> (yes: bool)
    ensures
        yes == has_bom(input@),
{
    input.len() >= 3 && input[0] == BOM_FIRST && input[1] == BOM_SECOND && input[2] == BOM_THIRD
}

/// A specialized parser for a part of a default CSV record.
#[derive(Clone, Copy, Debug, PartialEq, Eq, Structural)]
pub enum PrefixParser {
    /// A whole record.
    Record,
    /// The leading quoted fields.
    QuotedPrefix,
    /// The leading unquoted fields and the first quoted one.
    InteriorPrefix,
}

impl PrefixParser {
    /// What this parser reads, after the fields `fields`.
    pub open spec fn reads(self, input: Seq<u8>, fields: Seq<Field>) -> Option<Prefix> {
        let named = record_parser::default_csv(input.len() > Limits::standard().max_field_bytes);
        match self {
            PrefixParser::Record => named.record(Named::window(input), 0, fields),
            PrefixParser::QuotedPrefix => named.quoted_prefix(Named::window(input), 0, fields),
            PrefixParser::InteriorPrefix => named.interior_prefix(Named::window(input), 0, fields),
        }
    }

    /// Read a part of a record.
    pub fn parse(self, input: &[u8], output: &mut RecordStorage) -> (result: Option<(usize, bool)>)
        requires
            old(output).wf(),
            old(output).open_bytes() == Seq::<u8>::empty(),
        ensures
            stored(
                self.reads(input@, old(output).fields()),
                result,
                old(output).fields(),
                *final(output),
            ),
    {
        let check = record_parser::window_needs_field_limit(input);
        match self {
            PrefixParser::Record => {
                record_parser::try_parse_default_quoted_record_structural_windowed(input, output)
            },
            PrefixParser::QuotedPrefix => if check {
                record_parser::try_parse_default_quoted_prefix::<true>(input, output)
            } else {
                record_parser::try_parse_default_quoted_prefix::<false>(input, output)
            },
            PrefixParser::InteriorPrefix => {
                record_parser::try_parse_default_interior_prefix_windowed(input, output)
            },
        }
    }
}

/// A specialized parser for whole records of a newline-terminated dialect.
#[derive(Clone, Copy, Debug, PartialEq, Eq, Structural)]
pub struct RecordParser {
    /// Separates fields.
    pub delimiter: u8,
    /// Whether a backslash escapes quotes.
    pub backslash: bool,
}

impl RecordParser {
    /// What this parser reads, after the fields `fields`.
    pub open spec fn reads(self, input: Seq<u8>, fields: Seq<Field>) -> Option<Prefix> {
        (Named {
            delimiter: self.delimiter,
            backslash: self.backslash,
            check: input.len() > Limits::standard().max_field_bytes,
        }).record(Named::window(input), 0, fields)
    }

    /// Read a whole record.
    pub fn parse(self, input: &[u8], output: &mut RecordStorage) -> (result: Option<usize>)
        requires
            old(output).wf(),
            old(output).open_bytes() == Seq::<u8>::empty(),
        ensures
            stored(
                self.reads(input@, old(output).fields()),
                match result {
                    Some(consumed) => Some((consumed, true)),
                    None => None,
                },
                old(output).fields(),
                *final(output),
            ),
    {
        record_parser::try_parse_named_dialect_record_runtime(
            input,
            output,
            self.delimiter,
            self.backslash,
            record_parser::window_needs_field_limit(input),
        )
    }
}

/// The state of a parser of records.
#[derive(Clone, Copy, Debug, PartialEq, Eq, Structural)]
pub struct Engine {
    /// Where the next record or field starts.
    pub location: usize,
    /// The number of the record that is being read.
    pub record: u64,
    /// The bounds on records and fields.
    pub limits: Limits,
    /// The structural bytes.
    pub dialect: Dialect,
    /// Whether the format is insisted on.
    pub syntax: Syntax,
    /// How a NULL is told from an empty string.
    pub nulls: Nulls,
    /// How many fields a record must have.
    pub field_count: FieldCount,
    /// The number of fields of the first record, once it is known.
    pub expected_fields: Option<usize>,
    /// Whether spaces before a field are skipped.
    pub skip_initial_space: bool,
    /// Whether records are tried without quotes first.
    pub plain_kernel: bool,
    /// For how many more records a quoted field is expected after an unquoted one.
    pub interior_quotes: u8,
    /// Reads whole records.
    pub owned_parser: Option<RecordParser>,
    /// Reads leading quoted fields.
    pub quoted_prefix_parser: Option<PrefixParser>,
    /// Reads the head of a record with a quoted field further on.
    pub interior_prefix_parser: Option<PrefixParser>,
    /// What `interior_prefix_parser` becomes when such a field shows up.
    pub interior_handoff_parser: Option<PrefixParser>,
    /// What `interior_prefix_parser` becomes when a second one shows up.
    pub multi_quote_parser: Option<PrefixParser>,
}

/// The physical line of the byte at `at`, counted from one.
pub open spec fn line_number(input: Seq<u8>, at: int) -> u64 {
    (occurrences(input.take(least(at, input.len() as int)), LF) as u64).saturating_add(1)
}

/// Whether an error says `kind` of the field `number` at `at`.
pub open spec fn reports(
    error: Error,
    record: u64,
    input: Seq<u8>,
    kind: ErrorKind,
    at: int,
    number: int,
) -> bool {
    &&& error.spec_kind() == kind
    &&& error.spec_location().byte == at
    &&& error.spec_location().line == line_number(input, at)
    &&& error.spec_location().record == record
    &&& error.spec_location().field == number
    &&& error.is_plain()
}

impl Engine {
    /// The settings that decide how a record is read.
    pub open spec fn rules(self) -> Rules {
        Rules {
            dialect: self.dialect,
            syntax: self.syntax,
            nulls: self.nulls,
            limits: self.limits,
            skip_initial_space: self.skip_initial_space,
        }
    }

    /// The NULL policy that applies to a record: none to a header.
    pub open spec fn nulls_for(self, header: bool) -> Nulls {
        if header {
            Nulls::Disabled
        } else {
            self.nulls
        }
    }

    /// Whether a format is read by the parsers of this module.
    pub open spec fn supports(dialect: Dialect) -> bool {
        &&& dialect.escape.unquoted_byte() is None
        &&& !(dialect.record_ending is CrLf)
        &&& !dialect.multibyte()
    }

    /// Whether the settings are those that the specialized parsers assume.
    pub open spec fn specialized(settings: ParserSettings) -> bool {
        &&& !settings.force_general_parser
        &&& settings.syntax == Syntax::Strict
        &&& settings.nulls == Nulls::Disabled
        &&& settings.limits == Limits::standard()
        &&& settings.field_count == FieldCount::Flexible
        &&& !settings.skip_initial_space
        &&& settings.dialect.quote == QUOTE
        &&& settings.dialect.record_ending == RecordEnding::Newline
        &&& !settings.dialect.multibyte()
    }

    /// The specialized parser of whole records for some settings.
    pub open spec fn record_parser_for(settings: ParserSettings) -> Option<RecordParser> {
        let delimiter = settings.dialect.delimiter;
        if !Engine::specialized(settings) {
            None
        } else if settings.dialect.escape == Escape::DoubleQuote && (delimiter == COMMA || delimiter
            == TAB || delimiter == SEMICOLON || delimiter == PIPE) {
            Some(RecordParser { delimiter, backslash: false })
        } else if settings.dialect.escape == Escape::Backslash(BACKSLASH) && (delimiter == COMMA
            || delimiter == TAB) {
            Some(RecordParser { delimiter, backslash: true })
        } else {
            None
        }
    }

    fn is_specialized(settings: &ParserSettings) -> (yes: bool)
        ensures
            yes == Engine::specialized(*settings),
    {
        !settings.force_general_parser && settings.syntax == Syntax::Strict && settings.nulls
            == Nulls::Disabled && settings.limits == Limits::standard() && settings.field_count
            == FieldCount::Flexible && !settings.skip_initial_space && settings.dialect.quote
            == QUOTE && settings.dialect.record_ending == RecordEnding::Newline
            && !settings.dialect.has_long_separator()
    }

    fn choose_record_parser(settings: &ParserSettings) -> (parser: Option<RecordParser>)
        ensures
            parser == Engine::record_parser_for(*settings),
    {
        let delimiter: u8 = settings.dialect.delimiter;
        if !Engine::is_specialized(settings) {
            None
        } else if settings.dialect.escape == Escape::DoubleQuote && (delimiter == COMMA || delimiter
            == TAB || delimiter == SEMICOLON || delimiter == PIPE) {
            Some(RecordParser { delimiter, backslash: false })
        } else if settings.dialect.escape == Escape::Backslash(BACKSLASH) && (delimiter == COMMA
            || delimiter == TAB) {
            Some(RecordParser { delimiter, backslash: true })
        } else {
            None
        }
    }

    /// Whether every setting is as in default CSV.
    pub open spec fn is_default_csv(settings: ParserSettings) -> bool {
        Engine::record_parser_for(settings) == Some(
            RecordParser { delimiter: COMMA, backslash: false },
        )
    }

    /// Whether this is the state of a new parser with these settings, wherever
    /// its document starts.
    pub open spec fn built_from(self, settings: ParserSettings) -> bool {
        let default_csv = Engine::is_default_csv(settings);
        &&& self.limits == settings.limits
        &&& self.dialect == settings.dialect
        &&& self.syntax == settings.syntax
        &&& self.nulls == settings.nulls
        &&& self.field_count == settings.field_count
        &&& self.expected_fields is None
        &&& self.skip_initial_space == settings.skip_initial_space
        &&& self.plain_kernel == (Engine::supports(settings.dialect)
            && !settings.skip_initial_space && !settings.force_general_parser)
        &&& self.interior_quotes == 0
        &&& self.owned_parser == Engine::record_parser_for(settings)
        &&& self.quoted_prefix_parser == (if default_csv {
            Some(PrefixParser::QuotedPrefix)
        } else {
            None
        })
        &&& self.interior_prefix_parser == (if default_csv {
            Some(PrefixParser::InteriorPrefix)
        } else {
            None
        })
        &&& self.interior_handoff_parser == self.interior_prefix_parser
        &&& self.multi_quote_parser == (if default_csv {
            Some(PrefixParser::Record)
        } else {
            None
        })
    }

    /// A parser of the records of `input`.
    pub fn from_config(input: &[u8], settings: ParserSettings) -> (engine: Engine)
        ensures
            engine.location == (if settings.bom == ReadBom::Detect && has_bom(input@) {
                3int
            } else {
                0int
            }),
            engine.record == 0,
            engine.built_from(settings),
    {
        let location: usize = if settings.bom == ReadBom::Detect && starts_with_bom(input) {
            3
        } else {
            0
        };
        let owned_parser = Engine::choose_record_parser(&settings);
        let default_csv = match owned_parser {
            Some(parser) => parser.delimiter == COMMA && !parser.backslash,
            None => false,
        };
        let supported = settings.dialect.escape.unquoted_byte().is_none()
            && settings.dialect.record_ending != RecordEnding::CrLf
            && !settings.dialect.has_long_separator();
        let quoted = if default_csv {
            Some(PrefixParser::QuotedPrefix)
        } else {
            None
        };
        let interior = if default_csv {
            Some(PrefixParser::InteriorPrefix)
        } else {
            None
        };
        let multi = if default_csv {
            Some(PrefixParser::Record)
        } else {
            None
        };
        Engine {
            location,
            record: 0,
            limits: settings.limits,
            dialect: settings.dialect,
            syntax: settings.syntax,
            nulls: settings.nulls,
            field_count: settings.field_count,
            expected_fields: None,
            skip_initial_space: settings.skip_initial_space,
            plain_kernel: supported && !settings.skip_initial_space
                && !settings.force_general_parser,
            interior_quotes: 0,
            owned_parser,
            quoted_prefix_parser: quoted,
            interior_prefix_parser: interior,
            interior_handoff_parser: interior,
            multi_quote_parser: multi,
        }
    }

    /// An error about the field `field` at `at`.
    pub fn error_for(&self, input: &[u8], kind: ErrorKind, at: usize, field: usize) -> (error: Error)
        ensures
            reports(error, self.record, input@, kind, at as int, field as int),
    {
        let end: usize = if at < input.len() {
            at
        } else {
            input.len()
        };
        let newlines: u64 = count_newlines(input, 0, end);
        proof {
            assert(input@.subrange(0, end as int) =~= input@.take(end as int));
        }
        Error::new(
            kind,
            Location { byte: at, line: newlines.saturating_add(1), record: self.record, field },
        )
    }
}

} // verus!
