//! Checking encoded records before they are committed.

use vstd::prelude::*;

use crate::ascii::{CR, LF};
use crate::config::{
    BlankRecords, Escape, FieldCount, Limits, Quoting, ReadBom, RecordEnding,
};
use crate::engine::grammar::Scan;
use crate::engine::reports;
use crate::error::{Error, ErrorKind, Location};
use crate::index::format::{ENCODED_VALUE_MULTIPLE_RECORDS, ENCODED_VALUE_NO_RECORD};
use crate::options::{FormatOptions, FormatTag, ParserSettings};
use crate::search::{
    count_newlines, find1_near, find2_near, find3_near, find4_near, first_of,
    lemma_first_of, lemma_occurrences_bounded, occurrences, one, one_of2, one_of3, one_of4,
};
use crate::slice_parser::{lemma_record_start, lemma_record_takes_bytes, Listing, SliceParser};
use crate::storage::RecordStorage;

verus! {

/// How a field ends.
#[derive(Clone, Copy, Debug, PartialEq, Eq, Structural)]
pub enum FieldEnd {
    /// With the delimiter at this position.
    Delimiter(usize),
    /// With the record.
    Record,
}

/// How a quote inside a quoted field is protected.
#[derive(Clone, Copy, Debug, PartialEq, Eq, Structural)]
pub enum FrameEscape {
    /// By another quote.
    Doubled,
    /// By this byte.
    Backslash(u8),
}

/// How structural bytes in fields are protected.
#[derive(Clone, Copy, Debug, PartialEq, Eq, Structural)]
pub enum FastMode {
    /// By quotes round the field.
    Framed(FrameEscape),
    /// Each by this byte.
    Escaped(u8),
}

/// What a scan makes of a record.
pub enum Verdict {
    /// One record, with this many line feeds.
    Accepted(int),
    /// The scan cannot tell.
    Unsure,
    /// A record that breaks a limit, or none.
    Refused(ErrorKind),
}

/// A check of records that looks at bytes alone.
///
/// It accepts what it can account for, and leaves the rest to a parser.
#[derive(Clone, Copy, Debug, PartialEq, Eq, Structural)]
pub struct FastValidator {
    /// Separates fields.
    pub delimiter: u8,
    /// Opens and closes quoted fields.
    pub quote: u8,
    /// The last byte of the record ending.
    pub terminator: u8,
    /// Whether the record ending is a carriage return and a line feed.
    pub crlf: bool,
    /// Whether a carriage return is structural.
    pub newline: bool,
    /// Whether an empty line is no record.
    pub blank_skip: bool,
    /// How structural bytes are protected.
    pub mode: FastMode,
}

/// How many line feeds stand in `content[from..to]`.
pub open spec fn line_feeds(content: Seq<u8>, from: int, to: int) -> int {
    occurrences(content.subrange(from, to), LF) as int
}

impl FastValidator {
    /// Where the quoted field closes whose content goes on at `cursor`.
    pub open spec fn close(self, content: Seq<u8>, cursor: int, escape: FrameEscape) -> Option<int>
        decreases content.len() - cursor,
    {
        let len = content.len() as int;
        match escape {
            FrameEscape::Doubled => {
                let at = first_of(content, cursor, len, one(self.quote));
                if cursor < 0 || cursor > len || at >= len || at < cursor {
                    None
                } else if at + 1 < len && content[at + 1] == self.quote {
                    self.close(content, at + 2, escape)
                } else {
                    Some(at)
                }
            },
            FrameEscape::Backslash(byte) => {
                let at = first_of(content, cursor, len, one_of2(self.quote, byte));
                if cursor < 0 || cursor > len || at >= len || at < cursor {
                    None
                } else if content[at] == byte {
                    if at + 1 >= len {
                        None
                    } else {
                        self.close(content, at + 2, escape)
                    }
                } else {
                    Some(at)
                }
            },
        }
    }

    /// The length, the end and the line feeds of the quoted field at `pos`.
    pub open spec fn quoted(self, content: Seq<u8>, pos: int, escape: FrameEscape) -> Option<
        (int, Option<int>, int),
    > {
        match self.close(content, pos + 1, escape) {
            None => None,
            Some(close) => {
                let feeds = line_feeds(content, pos + 1, close);
                if close + 1 == content.len() {
                    Some((close - pos - 1, None, feeds))
                } else if content[close + 1] == self.delimiter {
                    Some((close - pos - 1, Some(close + 1), feeds))
                } else {
                    None
                }
            },
        }
    }

    /// The bytes an unquoted field cannot hold.
    pub open spec fn plain_stops(self) -> spec_fn(u8) -> bool {
        if self.newline {
            one_of4(self.delimiter, self.quote, self.terminator, CR)
        } else {
            one_of3(self.delimiter, self.quote, self.terminator)
        }
    }

    /// The length, the end and the line feeds of the unquoted field at `pos`.
    pub open spec fn plain(self, content: Seq<u8>, pos: int) -> Option<(int, Option<int>, int)> {
        let len = content.len() as int;
        let at = first_of(content, pos, len, self.plain_stops());
        if at >= len {
            Some((len - pos, None, line_feeds(content, pos, len)))
        } else if content[at] == self.delimiter {
            Some((at - pos, Some(at), line_feeds(content, pos, at)))
        } else {
            None
        }
    }

    /// Where the first byte from `cursor` on stands that is not escaped and ends
    /// a field, or would have to be escaped.
    pub open spec fn escaped_end(self, content: Seq<u8>, cursor: int, escape: u8) -> Option<int>
        decreases content.len() - cursor,
    {
        let len = content.len() as int;
        let at = first_of(
            content,
            cursor,
            len,
            one_of4(self.delimiter, self.terminator, self.quote, escape),
        );
        if cursor < 0 || at >= len || at < cursor {
            Some(len)
        } else if content[at] == escape {
            if at + 1 >= len {
                None
            } else {
                self.escaped_end(content, at + 2, escape)
            }
        } else {
            Some(at)
        }
    }

    /// The length, the end and the line feeds of the escaped field at `pos`.
    pub open spec fn escaped(self, content: Seq<u8>, pos: int, escape: u8) -> Option<
        (int, Option<int>, int),
    > {
        match self.escaped_end(content, pos, escape) {
            None => None,
            Some(at) => if at >= content.len() {
                Some(
                    (
                        content.len() - pos,
                        None,
                        line_feeds(content, pos, content.len() as int),
                    ),
                )
            } else if content[at] == self.delimiter {
                Some((at - pos, Some(at), line_feeds(content, pos, at)))
            } else {
                None
            },
        }
    }

    /// The length, the end and the line feeds of the field at `pos`.
    pub open spec fn field(self, content: Seq<u8>, pos: int) -> Option<(int, Option<int>, int)> {
        match self.mode {
            FastMode::Framed(escape) => if pos < content.len() && content[pos] == self.quote {
                self.quoted(content, pos, escape)
            } else {
                self.plain(content, pos)
            },
            FastMode::Escaped(escape) => self.escaped(content, pos, escape),
        }
    }

    /// What becomes of a record from the field at `pos` on, which follows `count`
    /// others with `feeds` line feeds.
    pub open spec fn verdict(
        self,
        content: Seq<u8>,
        pos: int,
        count: int,
        feeds: int,
        limits: Limits,
    ) -> Verdict
        decreases content.len() - pos,
    {
        if count == limits.max_fields {
            Verdict::Refused(ErrorKind::TooManyFields { limit: limits.max_fields })
        } else {
            match self.field(content, pos) {
                None => Verdict::Unsure,
                Some((len, end, more)) => if len > limits.max_field_bytes {
                    Verdict::Refused(ErrorKind::FieldTooLarge { limit: limits.max_field_bytes })
                } else {
                    match end {
                        None => Verdict::Accepted(feeds + more),
                        Some(at) => if pos <= at < content.len() {
                            self.verdict(content, at + 1, count + 1, feeds + more, limits)
                        } else {
                            Verdict::Unsure
                        },
                    }
                },
            }
        }
    }

    /// How long the record ending is.
    pub open spec fn ending_len(self) -> int {
        if self.crlf {
            2
        } else {
            1
        }
    }

    /// Whether a record ends as it should.
    pub open spec fn terminated(self, record: Seq<u8>) -> bool {
        &&& record.len() >= self.ending_len()
        &&& if self.crlf {
            record[record.len() - 2] == CR && record[record.len() - 1] == LF
        } else {
            record[record.len() - 1] == self.terminator
        }
    }

    /// What becomes of a record.
    pub open spec fn judge(self, record: Seq<u8>, limits: Limits) -> Verdict {
        let content = record.take(record.len() - self.ending_len());
        let feeds = if self.crlf || self.terminator == LF {
            1int
        } else {
            0int
        };
        if !self.terminated(record) {
            Verdict::Unsure
        } else if content.len() == 0 {
            if self.blank_skip {
                Verdict::Refused(ErrorKind::Encode)
            } else if limits.max_fields == 0 {
                Verdict::Refused(ErrorKind::TooManyFields { limit: 0 })
            } else {
                Verdict::Accepted(feeds)
            }
        } else if record.len() > limits.max_record_bytes {
            Verdict::Refused(ErrorKind::RecordTooLarge { limit: limits.max_record_bytes })
        } else {
            self.verdict(content, 0, 0, feeds, limits)
        }
    }

    /// The validator of a format.
    pub open spec fn of(format: FormatOptions) -> FastValidator {
        FastValidator {
            delimiter: format.dialect.delimiter,
            quote: format.dialect.quote,
            terminator: format.dialect.record_ending.byte(),
            crlf: format.dialect.record_ending is CrLf,
            newline: format.dialect.record_ending.is_newline(),
            blank_skip: format.blank_records == BlankRecords::Skip,
            mode: match format.dialect.escape {
                Escape::DoubleQuote => FastMode::Framed(FrameEscape::Doubled),
                Escape::Backslash(escape) => FastMode::Framed(FrameEscape::Backslash(escape)),
                Escape::Mysql => FastMode::Escaped(crate::ascii::BACKSLASH),
                Escape::Unquoted(escape) => FastMode::Escaped(escape),
            },
        }
    }

    /// Whether there is a validator for a format.
    pub open spec fn covers(format: FormatOptions) -> bool {
        &&& format.quoting != Quoting::Raw
        &&& !format.dialect.multibyte()
        &&& !format.skip_initial_space
        &&& format.dialect.escape.unquoted_byte() is None ==> format.syntax.quoting_enabled()
    }

    /// The validator for a format, if there is one.
    pub fn for_format(format: FormatOptions) -> (validator: Option<FastValidator>)
        ensures
            validator is Some == FastValidator::covers(format),
            validator matches Some(validator) ==> validator == FastValidator::of(format),
    {
        if format.quoting == Quoting::Raw || format.dialect.has_long_separator()
            || format.skip_initial_space {
            return None;
        }
        let dialect = format.dialect;
        let mode = if let Some(escape) = dialect.escape.unquoted_byte() {
            FastMode::Escaped(escape)
        } else {
            if !format.syntax.quoting_enabled() {
                return None;
            }
            let escape = match dialect.escape {
                Escape::Backslash(escape) => FrameEscape::Backslash(escape),
                _ => FrameEscape::Doubled,
            };
            FastMode::Framed(escape)
        };
        Some(
            FastValidator {
                delimiter: dialect.delimiter,
                quote: dialect.quote,
                terminator: dialect.record_ending.byte(),
                crlf: dialect.record_ending == RecordEnding::CrLf,
                newline: dialect.record_ending.is_newline(),
                blank_skip: format.blank_records == BlankRecords::Skip,
                mode,
            },
        )
    }

    /// The length, the end and the line feeds of the quoted field at `pos`.
    pub fn scan_quoted_field(self, content: &[u8], pos: usize, escape: FrameEscape) -> (found: Option<
        (usize, FieldEnd, u64),
    >)
        requires
            pos < content@.len(),
        ensures
            found_as(found, self.quoted(content@, pos as int, escape)),
    {
        assert(content@.len() == content.len());
        let len: usize = content.len();
        let mut cursor: usize = pos + 1;
        let close: usize;
        loop
            invariant
                pos < cursor <= len == content.len(),
                self.close(content@, pos + 1, escape) == self.close(
                    content@,
                    cursor as int,
                    escape,
                ),
            ensures
                pos < close < len,
                self.close(content@, pos + 1, escape) == Some(close as int),
            decreases len - cursor,
        {
            match escape {
                FrameEscape::Doubled => {
                    let at: usize = find1_near(self.quote, content, cursor, len);
                    if at >= len {
                        return None;
                    }
                    if at + 1 < len && content[at + 1] == self.quote {
                        cursor = at + 2;
                    } else {
                        close = at;
                        break;
                    }
                },
                FrameEscape::Backslash(byte) => {
                    let at: usize = find2_near(self.quote, byte, content, cursor, len);
                    if at >= len {
                        return None;
                    }
                    if content[at] == byte {
                        if at + 1 >= len {
                            return None;
                        }
                        cursor = at + 2;
                    } else {
                        close = at;
                        break;
                    }
                },
            }
        }
        let newlines: u64 = count_newlines(content, pos + 1, close);
        let field_bytes: usize = close - pos - 1;
        let after: usize = close + 1;
        if after == len {
            Some((field_bytes, FieldEnd::Record, newlines))
        } else if content[after] == self.delimiter {
            Some((field_bytes, FieldEnd::Delimiter(after), newlines))
        } else {
            None
        }
    }

    /// The length, the end and the line feeds of the unquoted field at `pos`.
    pub fn scan_unquoted_field(self, content: &[u8], pos: usize) -> (found: Option<
        (usize, FieldEnd, u64),
    >)
        requires
            pos <= content@.len(),
        ensures
            found_as(found, self.plain(content@, pos as int)),
    {
        assert(content@.len() == content.len());
        let len: usize = content.len();
        let at: usize = if self.newline {
            find4_near(self.delimiter, self.quote, self.terminator, CR, content, pos, len)
        } else {
            find3_near(self.delimiter, self.quote, self.terminator, content, pos, len)
        };
        if at >= len {
            return Some((len - pos, FieldEnd::Record, count_newlines(content, pos, len)));
        }
        if content[at] == self.delimiter {
            Some((at - pos, FieldEnd::Delimiter(at), count_newlines(content, pos, at)))
        } else {
            None
        }
    }

    /// The length, the end and the line feeds of the escaped field at `pos`.
    pub fn scan_escaped_field(self, content: &[u8], pos: usize, escape: u8) -> (found: Option<
        (usize, FieldEnd, u64),
    >)
        requires
            pos <= content@.len(),
        ensures
            found_as(found, self.escaped(content@, pos as int, escape)),
    {
        assert(content@.len() == content.len());
        let len: usize = content.len();
        let mut cursor: usize = pos;
        loop
            invariant
                pos <= cursor <= len == content.len(),
                self.escaped_end(content@, pos as int, escape) == self.escaped_end(
                    content@,
                    cursor as int,
                    escape,
                ),
            decreases len - cursor,
        {
            let at: usize = find4_near(
                self.delimiter,
                self.terminator,
                self.quote,
                escape,
                content,
                cursor,
                len,
            );
            if at >= len {
                return Some((len - pos, FieldEnd::Record, count_newlines(content, pos, len)));
            }
            if content[at] == escape {
                if at + 1 >= len {
                    return None;
                }
                cursor = at + 2;
            } else if content[at] == self.delimiter {
                return Some(
                    (at - pos, FieldEnd::Delimiter(at), count_newlines(content, pos, at)),
                );
            } else {
                return None;
            }
        }
    }

    /// The length, the end and the line feeds of the field at `pos`.
    pub fn scan_field(self, content: &[u8], pos: usize) -> (found: Option<(usize, FieldEnd, u64)>)
        requires
            pos <= content@.len(),
        ensures
            found_as(found, self.field(content@, pos as int)),
    {
        match self.mode {
            FastMode::Framed(escape) => if pos < content.len() && content[pos] == self.quote {
                self.scan_quoted_field(content, pos, escape)
            } else {
                self.scan_unquoted_field(content, pos)
            },
            FastMode::Escaped(escape) => self.scan_escaped_field(content, pos, escape),
        }
    }

    /// Check a record.
    ///
    /// Answers the number of its line feeds, or nothing if a parser has to tell.
    pub fn validate(self, record: &[u8], limits: Limits) -> (result: Result<Option<u64>, Error>)
        ensures
            match self.judge(record@, limits) {
                Verdict::Accepted(feeds) => result matches Ok(Some(newlines)) && newlines == feeds,
                Verdict::Unsure => result == Ok::<Option<u64>, Error>(None),
                Verdict::Refused(kind) => result matches Err(error) && error.spec_kind() == kind
                    && error.spec_location() == Location::unknown() && (kind == ErrorKind::Encode
                    ==> error.says(kind, ENCODED_VALUE_NO_RECORD@)),
            },
    {
        assert(record@.len() == record.len());
        let ending: usize = if self.crlf {
            2
        } else {
            1
        };
        if record.len() < ending {
            return Ok(None);
        }
        let len: usize = record.len() - ending;
        let matches = if self.crlf {
            record[len] == CR && record[len + 1] == LF
        } else {
            record[len] == self.terminator
        };
        if !matches {
            return Ok(None);
        }
        let mut newlines: u64 = if self.crlf || self.terminator == LF {
            1
        } else {
            0
        };
        if len == 0 {
            if self.blank_skip {
                return Err(Error::detailed(ErrorKind::Encode, ENCODED_VALUE_NO_RECORD));
            }
            if limits.max_fields == 0 {
                return Err(
                    Error::new(ErrorKind::TooManyFields { limit: 0 }, Location::unknown()),
                );
            }
            return Ok(Some(newlines));
        }
        if record.len() > limits.max_record_bytes {
            return Err(
                Error::new(
                    ErrorKind::RecordTooLarge { limit: limits.max_record_bytes },
                    Location::unknown(),
                ),
            );
        }
        let content = &record[0..len];
        assert(content@ =~= record@.take(len as int));
        let ghost first = newlines as int;
        let mut field_count: usize = 0;
        let mut pos: usize = 0;
        loop
            invariant
                pos <= len == content@.len() < usize::MAX,
                len < record@.len(),
                field_count <= pos,
                newlines <= 1 + pos,
                self.judge(record@, limits) == self.verdict(
                    content@,
                    pos as int,
                    field_count as int,
                    newlines as int,
                    limits,
                ),
            decreases len - pos,
        {
            if field_count == limits.max_fields {
                return Err(
                    Error::new(
                        ErrorKind::TooManyFields { limit: limits.max_fields },
                        Location::unknown(),
                    ),
                );
            }
            let (field_bytes, end, field_newlines) = match self.scan_field(content, pos) {
                Some(found) => found,
                None => {
                    return Ok(None);
                },
            };
            proof {
                lemma_feeds_bounded(self, content@, pos as int);
            }
            newlines = newlines + field_newlines;
            if field_bytes > limits.max_field_bytes {
                return Err(
                    Error::new(
                        ErrorKind::FieldTooLarge { limit: limits.max_field_bytes },
                        Location::unknown(),
                    ),
                );
            }
            match end {
                FieldEnd::Record => {
                    return Ok(Some(newlines));
                },
                FieldEnd::Delimiter(at) => {
                    field_count = field_count + 1;
                    pos = at + 1;
                },
            }
        }
    }
}

/// Whether a scan found what it should.
pub open spec fn found_as(
    found: Option<(usize, FieldEnd, u64)>,
    expected: Option<(int, Option<int>, int)>,
) -> bool {
    match expected {
        None => found is None,
        Some((len, end, feeds)) => {
            &&& found matches Some((bytes, field_end, newlines))
            &&& bytes == len
            &&& newlines == feeds
            &&& match end {
                None => field_end == FieldEnd::Record,
                Some(at) => field_end matches FieldEnd::Delimiter(position) && position == at,
            }
        },
    }
}

/// Where a closing quote is found.
pub proof fn lemma_close_bounds(
    validator: FastValidator,
    content: Seq<u8>,
    cursor: int,
    escape: FrameEscape,
)
    requires
        0 <= cursor <= content.len(),
    ensures
        validator.close(content, cursor, escape) matches Some(close) ==> cursor <= close
            < content.len() && content[close] == validator.quote,
    decreases content.len() - cursor,
{
    let len = content.len() as int;
    match escape {
        FrameEscape::Doubled => {
            lemma_first_of(content, cursor, len, one(validator.quote));
            let at = first_of(content, cursor, len, one(validator.quote));
            if at + 1 < len && content[at + 1] == validator.quote {
                lemma_close_bounds(validator, content, at + 2, escape);
            }
        },
        FrameEscape::Backslash(byte) => {
            lemma_first_of(content, cursor, len, one_of2(validator.quote, byte));
            let at = first_of(content, cursor, len, one_of2(validator.quote, byte));
            if at + 1 < len && content[at] == byte {
                lemma_close_bounds(validator, content, at + 2, escape);
            }
        },
    }
}

/// Where an escaped field ends.
pub proof fn lemma_escaped_bounds(validator: FastValidator, content: Seq<u8>, cursor: int, escape: u8)
    requires
        0 <= cursor <= content.len(),
    ensures
        validator.escaped_end(content, cursor, escape) matches Some(at) ==> cursor <= at
            <= content.len(),
    decreases content.len() - cursor,
{
    let len = content.len() as int;
    let stops = one_of4(validator.delimiter, validator.terminator, validator.quote, escape);
    lemma_first_of(content, cursor, len, stops);
    let at = first_of(content, cursor, len, stops);
    if at + 1 < len && content[at] == escape {
        lemma_escaped_bounds(validator, content, at + 2, escape);
    }
}

/// A field has no more line feeds than bytes, and ends inside the content.
pub proof fn lemma_feeds_bounded(validator: FastValidator, content: Seq<u8>, pos: int)
    requires
        0 <= pos <= content.len(),
    ensures
        validator.field(content, pos) matches Some((len, end, feeds)) ==> {
            &&& 0 <= feeds <= len <= content.len() - pos
            &&& end matches Some(at) ==> pos <= at < content.len() && pos + feeds <= at
        },
{
    let len = content.len() as int;
    match validator.mode {
        FastMode::Framed(escape) => {
            if pos < len && content[pos] == validator.quote {
                lemma_close_bounds(validator, content, pos + 1, escape);
                if let Some(close) = validator.close(content, pos + 1, escape) {
                    lemma_occurrences_bounded(content.subrange(pos + 1, close), LF);
                }
            } else {
                lemma_first_of(content, pos, len, validator.plain_stops());
                let at = first_of(content, pos, len, validator.plain_stops());
                lemma_occurrences_bounded(content.subrange(pos, at), LF);
            }
        },
        FastMode::Escaped(escape) => {
            lemma_escaped_bounds(validator, content, pos, escape);
            if let Some(at) = validator.escaped_end(content, pos, escape) {
                lemma_occurrences_bounded(content.subrange(pos, at), LF);
            }
        },
    }
}

/// A check of records by parsing them.
#[derive(Clone, Copy, Debug)]
pub struct RecordValidator {
    settings: ParserSettings,
}

/// Whether a document holds exactly one record.
pub open spec fn one_record(listing: Listing) -> bool {
    listing matches Listing::Complete(starts) && starts.len() == 1
}

/// Whether a check of a document that must hold one record has the right result.
pub open spec fn checked_as(
    listing: Listing,
    document: Seq<u8>,
    result: Result<(), Error>,
) -> bool {
    let multiple = result matches Err(error) && error.says(
        ErrorKind::Encode,
        ENCODED_VALUE_MULTIPLE_RECORDS@,
    );
    match listing {
        Listing::Complete(starts) => if starts.len() == 0 {
            result matches Err(error) && error.says(
                ErrorKind::Encode,
                ENCODED_VALUE_NO_RECORD@,
            )
        } else if starts.len() == 1 {
            result is Ok
        } else {
            multiple
        },
        Listing::Broken { starts, kind, at, number } => if starts.len() <= 1 {
            result matches Err(error) && reports(
                error,
                starts.len() as u64,
                document,
                kind,
                at,
                number,
            )
        } else {
            multiple
        },
    }
}

/// More records are listed, not fewer.
proof fn lemma_listing_grows(settings: ParserSettings, input: Seq<u8>, at: int, starts: Seq<int>)
    requires
        0 <= at <= input.len(),
    ensures
        match settings.listing(input, at, starts) {
            Listing::Complete(all) => all.len() >= starts.len(),
            Listing::Broken { starts: all, .. } => all.len() >= starts.len(),
        },
    decreases input.len() - at,
{
    lemma_record_start(settings, input, at);
    let start = settings.record_start(input, at);
    if start < input.len() {
        lemma_record_takes_bytes(settings.rules(), input, start, settings.nulls);
        if let Scan::Done { next, .. } = settings.rules().read_record(
            input,
            start,
            settings.nulls,
        ) {
            lemma_listing_grows(settings, input, next, starts.push(start));
        }
    }
}

impl RecordValidator {
    /// How records are read.
    pub closed spec fn spec_settings(&self) -> ParserSettings {
        self.settings
    }

    /// Whether records can be read.
    pub open spec fn wf(&self) -> bool {
        let settings = self.spec_settings();
        &&& settings.dialect.valid()
        &&& settings.bom == ReadBom::Preserve
        &&& settings.field_count == FieldCount::Flexible
    }

    /// How records are read.
    pub fn settings(&self) -> (settings: ParserSettings)
        ensures
            settings == self.spec_settings(),
    {
        self.settings
    }

    /// A validator for the records of a format.
    pub fn new(format: FormatOptions, limits: Limits) -> (result: Result<RecordValidator, Error>)
        ensures
            result is Ok == format.dialect.valid(),
            result matches Ok(validator) ==> validator.wf() && validator.spec_settings()
                == (ParserSettings {
                bom: ReadBom::Preserve,
                format_tag: FormatTag::Custom,
                ..ParserSettings::of_format(format, limits)
            }),
            result matches Err(error) ==> error.misconfigured(),
    {
        let settings = ParserSettings::from_format(format.read_bom(ReadBom::Preserve), limits);
        let nothing: Vec<u8> = Vec::new();
        match SliceParser::with_settings(nothing.as_slice(), settings) {
            Ok(_) => Ok(RecordValidator { settings }),
            Err(error) => Err(error),
        }
    }

    /// Fail unless `record` is exactly one record.
    pub fn validate(&self, record: &[u8]) -> (result: Result<(), Error>)
        requires
            self.wf(),
        ensures
            checked_as(self.spec_settings().records(record@), record@, result),
    {
        let settings = self.settings;
        let mut parser = match SliceParser::with_settings(record, settings) {
            Ok(parser) => parser,
            Err(error) => {
                return Err(error);
            },
        };
        let mut scratch = RecordStorage::new();
        assert(record@.len() == record.len());
        proof {
            lemma_record_start(settings, record@, 0);
        }
        let first: usize = match parser.next_start(&mut scratch) {
            Err(error) => {
                return Err(error);
            },
            Ok(None) => {
                return Err(Error::detailed(ErrorKind::Encode, ENCODED_VALUE_NO_RECORD));
            },
            Ok(Some(start)) => start,
        };
        let ghost one = Seq::<int>::empty().push(first as int);
        let ghost at = parser.state().location as int;
        proof {
            lemma_record_takes_bytes(settings.rules(), record@, first as int, settings.nulls);
            assert(settings.records(record@) == settings.listing(record@, at, one));
            lemma_record_start(settings, record@, at);
        }
        match parser.next_start(&mut scratch) {
            Err(error) => Err(error),
            Ok(None) => Ok(()),
            Ok(Some(second)) => {
                proof {
                    lemma_record_takes_bytes(
                        settings.rules(),
                        record@,
                        second as int,
                        settings.nulls,
                    );
                    lemma_listing_grows(
                        settings,
                        record@,
                        parser.state().location as int,
                        one.push(second as int),
                    );
                }
                Err(Error::detailed(ErrorKind::Encode, ENCODED_VALUE_MULTIPLE_RECORDS))
            },
        }
    }
}

} // verus!
