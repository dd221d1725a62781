//! What a record is: the reading of bytes as fields, as a mathematical function.

use vstd::prelude::*;

use crate::ascii::{CR, LF, QUOTE, SPACE, TAB};
use crate::config::{Dialect, Escape, Limits, Nulls, RecordEnding, Syntax};
use crate::error::ErrorKind;
use crate::search::{first_of, one, one_of2, one_of3, run_end};
use crate::storage::{empties, text, unquoted, Field};

verus! {

/// The settings that decide how a record is read.
pub struct Rules {
    /// The structural bytes.
    pub dialect: Dialect,
    /// Whether the format is insisted on.
    pub syntax: Syntax,
    /// How a NULL is told from an empty string.
    pub nulls: Nulls,
    /// The bounds on records and fields.
    pub limits: Limits,
    /// Whether spaces before a field are skipped.
    pub skip_initial_space: bool,
}

/// The outcome of reading a record, or a part of one.
#[verifier::ext_equal]
pub enum Scan {
    /// The record ended; the next one starts at `next`.
    Done {
        /// The fields read so far.
        fields: Seq<Field>,
        /// Where the next record starts.
        next: int,
    },
    /// Reading stopped at the field that starts at `at`.
    Paused {
        /// The fields read so far.
        fields: Seq<Field>,
        /// Where the next field starts.
        at: int,
    },
    /// The bytes are no record.
    Failed {
        /// What is wrong.
        kind: ErrorKind,
        /// Where it is wrong.
        at: int,
        /// The number of the field that is wrong.
        number: int,
    },
}

/// The outcome of reading one field.
#[verifier::ext_equal]
pub enum Step {
    /// A field.
    Read {
        /// The field.
        field: Field,
        /// Where reading goes on.
        next: int,
        /// Whether the record ended with this field.
        last: bool,
    },
    /// The bytes are no field.
    Broken {
        /// What is wrong.
        kind: ErrorKind,
        /// Where it is wrong.
        at: int,
        /// The number of the field that is wrong.
        number: int,
    },
}

/// The outcome of reading a quoted field up to its closing quote.
#[verifier::ext_equal]
pub enum Body {
    /// The content, and the position after the closing quote.
    Closed {
        /// The decoded content.
        bytes: Seq<u8>,
        /// The position after the closing quote.
        after: int,
    },
    /// The bytes are no quoted field.
    Broken {
        /// What is wrong.
        kind: ErrorKind,
        /// Where it is wrong.
        at: int,
    },
}

/// The smaller of two numbers.
pub open spec fn least(a: int, b: int) -> int {
    if a <= b {
        a
    } else {
        b
    }
}

impl Dialect {
    /// Whether a delimiter stands at `at`: its first byte, and its tail behind it.
    pub open spec fn delimits(self, input: Seq<u8>, at: int) -> bool {
        &&& 0 <= at < input.len()
        &&& input[at] == self.delimiter
        &&& self.delimiter_tail.stands_at(input, at + 1)
    }

    /// How long a delimiter is.
    pub open spec fn delimiter_len(self) -> int {
        1 + self.delimiter_tail.text().len() as int
    }

    /// Whether a record ending stands at `at`, from its last single byte on: that
    /// byte, and its tail behind it.
    pub open spec fn breaks(self, input: Seq<u8>, at: int) -> bool {
        &&& 0 <= at < input.len()
        &&& input[at] == self.record_ending.byte()
        &&& self.ending_tail.stands_at(input, at + 1)
    }

    /// Whether a carriage return and a record ending stand at `at`.
    pub open spec fn breaks_crlf(self, input: Seq<u8>, at: int) -> bool {
        &&& self.record_ending.is_newline()
        &&& 0 <= at < input.len()
        &&& input[at] == CR
        &&& at + 1 < input.len()
        &&& self.breaks(input, at + 1)
    }

    /// How long the record ending at `at` is; zero when there is none.
    pub open spec fn break_len(self, input: Seq<u8>, at: int) -> int {
        if !(self.record_ending is CrLf) && self.breaks(input, at) {
            1 + self.ending_tail.text().len() as int
        } else if self.breaks_crlf(input, at) {
            2 + self.ending_tail.text().len() as int
        } else {
            0
        }
    }

    /// Where the line that `at` is on ends, its ending counted.
    pub open spec fn line_end(self, input: Seq<u8>, at: int) -> int
        decreases input.len() - at,
    {
        if at < 0 || at >= input.len() {
            at
        } else if self.breaks(input, at) {
            at + 1 + self.ending_tail.text().len()
        } else {
            self.line_end(input, at + 1)
        }
    }

    /// A line takes at least one byte, and ends inside the input.
    pub proof fn lemma_line_end(self, input: Seq<u8>, at: int)
        requires
            0 <= at <= input.len(),
        ensures
            at <= self.line_end(input, at) <= input.len(),
            at < input.len() ==> at < self.line_end(input, at),
        decreases input.len() - at,
    {
        if at < input.len() && !self.breaks(input, at) {
            self.lemma_line_end(input, at + 1);
        }
    }

    /// Where the line that `at` is on ends, its ending counted.
    pub fn after_line(self, input: &[u8], at: usize) -> (end: usize)
        requires
            at < input.len(),
        ensures
            end == self.line_end(input@, at as int),
            at < end <= input.len(),
    {
        let mut cursor: usize = at;
        proof {
            self.lemma_line_end(input@, at as int);
        }
        while cursor < input.len()
            invariant
                at <= cursor <= input.len(),
                at < self.line_end(input@, at as int) <= input.len(),
                self.line_end(input@, at as int) == self.line_end(input@, cursor as int),
            decreases input.len() - cursor,
        {
            if self.is_break_at(input, cursor) {
                return cursor + 1 + self.ending_tail.size();
            }
            cursor += 1;
        }
        cursor
    }

    /// Whether a delimiter stands at `at`.
    pub fn is_delimiter_at(self, input: &[u8], at: usize) -> (yes: bool)
        requires
            at < input.len(),
        ensures
            yes == self.delimits(input@, at as int),
    {
        input[at] == self.delimiter && self.delimiter_tail.is_at(input, at + 1)
    }

    /// Whether a record ending stands at `at`, from its last single byte on.
    pub fn is_break_at(self, input: &[u8], at: usize) -> (yes: bool)
        requires
            at < input.len(),
        ensures
            yes == self.breaks(input@, at as int),
    {
        input[at] == self.record_ending.byte() && self.ending_tail.is_at(input, at + 1)
    }

    /// Whether a carriage return and a record ending stand at `at`.
    pub fn is_crlf_at(self, input: &[u8], at: usize) -> (yes: bool)
        requires
            at < input.len(),
        ensures
            yes == self.breaks_crlf(input@, at as int),
    {
        self.record_ending.is_newline() && input[at] == CR && at + 1 < input.len()
            && self.is_break_at(input, at + 1)
    }

    /// How long the record ending at `at` is; zero when there is none.
    pub fn ending_at(self, input: &[u8], at: usize) -> (len: usize)
        requires
            at < input.len(),
        ensures
            len == self.break_len(input@, at as int),
            at + len <= input.len(),
    {
        if self.record_ending != RecordEnding::CrLf && self.is_break_at(input, at) {
            1 + self.ending_tail.size()
        } else if self.is_crlf_at(input, at) {
            2 + self.ending_tail.size()
        } else {
            0
        }
    }
}

impl Rules {
    /// The byte that ends records.
    pub open spec fn terminator(self) -> u8 {
        self.dialect.record_ending.byte()
    }

    /// One past the last byte that is looked at in a record that starts at `start`.
    pub open spec fn record_window(self, input: Seq<u8>, start: int) -> int {
        least(input.len() as int, start + self.limits.max_record_bytes + 1)
    }

    /// One past the last byte that is looked at in a field that starts at `at`.
    pub open spec fn field_window(self, input: Seq<u8>, start: int, at: int) -> int {
        least(self.record_window(input, start), at + self.limits.max_field_bytes + 1)
    }

    /// Why a window that ended before the field did is an error, if it is one.
    pub open spec fn window_failure(self, start: int, at: int, end: int) -> Option<ErrorKind> {
        if end - at > self.limits.max_field_bytes {
            Some(ErrorKind::FieldTooLarge { limit: self.limits.max_field_bytes })
        } else if end - start > self.limits.max_record_bytes {
            Some(ErrorKind::RecordTooLarge { limit: self.limits.max_record_bytes })
        } else {
            None
        }
    }

    /// Why a field of `len` bytes cannot follow `count` others, if it cannot.
    pub open spec fn push_failure(self, count: int, len: int) -> Option<ErrorKind> {
        if count == self.limits.max_fields {
            Some(ErrorKind::TooManyFields { limit: self.limits.max_fields })
        } else if len > self.limits.max_field_bytes {
            Some(ErrorKind::FieldTooLarge { limit: self.limits.max_field_bytes })
        } else {
            None
        }
    }

    /// Why the unquoted field `bytes` cannot follow `count` others, if it cannot.
    pub open spec fn unquoted_failure(self, nulls: Nulls, count: int, bytes: Seq<u8>) -> Option<
        ErrorKind,
    > {
        if crate::storage::raw_null(nulls, bytes) {
            self.push_failure(count, 0)
        } else {
            self.push_failure(count, bytes.len() as int)
        }
    }

    /// The bytes an unquoted field cannot hold.
    pub open spec fn unquoted_stops(self) -> spec_fn(u8) -> bool {
        if self.syntax.quoting_enabled() && !self.syntax.permits_unquoted_quotes() {
            one_of3(self.dialect.delimiter, self.dialect.quote, self.terminator())
        } else {
            one_of2(self.dialect.delimiter, self.terminator())
        }
    }

    /// Where the content of an unquoted field ends that a byte at `at` ends:
    /// the carriage return of a CRLF ending is no content.
    pub open spec fn unquoted_end(self, input: Seq<u8>, from: int, at: int) -> int {
        if input[at] == self.terminator() && self.dialect.record_ending == RecordEnding::Newline
            && at > from && input[at - 1] == CR {
            at - 1
        } else {
            at
        }
    }

    /// Read the unquoted field at `p`, which follows `count` fields of a record
    /// that starts at `start`.
    pub open spec fn unquoted_step(
        self,
        input: Seq<u8>,
        start: int,
        p: int,
        count: int,
        nulls: Nulls,
    ) -> Step {
        let end = self.field_window(input, start, p);
        let at = first_of(input, p, end, self.unquoted_stops());
        if at == end {
            let bytes = input.subrange(p, end);
            match self.window_failure(start, p, end) {
                Some(kind) => Step::Broken { kind, at: end, number: count },
                None => match self.unquoted_failure(nulls, count, bytes) {
                    Some(kind) => Step::Broken { kind, at: end, number: count },
                    None => Step::Read { field: unquoted(nulls, bytes), next: end, last: true },
                },
            }
        } else if input[at] == self.dialect.quote {
            Step::Broken { kind: ErrorKind::UnexpectedQuote, at, number: count }
        } else {
            let bytes = input.subrange(p, self.unquoted_end(input, p, at));
            match self.unquoted_failure(nulls, count, bytes) {
                Some(kind) => Step::Broken { kind, at, number: count },
                None => if at + 1 - start > self.limits.max_record_bytes {
                    Step::Broken {
                        kind: ErrorKind::RecordTooLarge { limit: self.limits.max_record_bytes },
                        at: at + 1,
                        number: count + 1,
                    }
                } else {
                    Step::Read {
                        field: unquoted(nulls, bytes),
                        next: at + 1,
                        last: input[at] == self.terminator(),
                    }
                },
            }
        }
    }

    /// The bytes that matter inside a quoted field.
    pub open spec fn quoted_stops(self) -> spec_fn(u8) -> bool {
        match self.dialect.escape {
            Escape::Backslash(escape) => one_of2(self.dialect.quote, escape),
            _ => one(self.dialect.quote),
        }
    }

    /// What ends a quoted field whose window ended first.
    pub open spec fn unclosed(self, start: int, content: int, end: int) -> Body {
        Body::Broken {
            kind: match self.window_failure(start, content, end) {
                Some(kind) => kind,
                None => ErrorKind::UnterminatedQuotedField,
            },
            at: end,
        }
    }

    /// Read a quoted field whose content starts at `content`, from `cursor` on,
    /// after the content `decoded`.
    pub open spec fn quoted_body(
        self,
        input: Seq<u8>,
        start: int,
        content: int,
        cursor: int,
        decoded: Seq<u8>,
    ) -> Body
        decreases input.len() - cursor,
    {
        let end = self.field_window(input, start, content);
        let at = first_of(input, cursor, end, self.quoted_stops());
        if cursor < 0 || cursor >= end || at >= end || at < cursor {
            self.unclosed(start, content, end)
        } else {
            let segment = decoded + input.subrange(cursor, at);
            match self.dialect.escape {
                Escape::Backslash(escape) => if input[at] == escape {
                    if at + 1 >= input.len() {
                        Body::Broken { kind: ErrorKind::InvalidEscape(escape), at }
                    } else if input[at + 1] != self.dialect.quote && input[at + 1] != escape
                        && !self.syntax.permits_any_backslash_escape() {
                        Body::Broken { kind: ErrorKind::InvalidEscape(input[at + 1]), at: at + 1 }
                    } else {
                        self.quoted_body(input, start, content, at + 2, segment.push(input[at + 1]))
                    }
                } else {
                    Body::Closed { bytes: segment, after: at + 1 }
                },
                _ => if at + 1 < input.len() && input[at + 1] == self.dialect.quote {
                    self.quoted_body(
                        input,
                        start,
                        content,
                        at + 2,
                        segment.push(self.dialect.quote),
                    )
                } else {
                    Body::Closed { bytes: segment, after: at + 1 }
                },
            }
        }
    }

    /// Whether `byte` may stand between a closing quote and what follows it.
    pub open spec fn is_padding(self, byte: u8) -> bool {
        &&& self.syntax.permits_post_quote_whitespace()
        &&& byte == SPACE || byte == TAB
        &&& byte != self.dialect.delimiter
        &&& byte != self.terminator()
    }

    /// Where the padding after a closing quote ends.
    pub open spec fn skip_padding(self, input: Seq<u8>, after: int) -> int
        decreases input.len() - after,
    {
        if 0 <= after < input.len() && self.is_padding(input[after]) {
            self.skip_padding(input, after + 1)
        } else {
            after
        }
    }

    /// Where a record ends that ends at `next`, after `count` fields.
    pub open spec fn record_end(self, start: int, next: int, count: int, field: Field) -> Step {
        if next - start > self.limits.max_record_bytes {
            Step::Broken {
                kind: ErrorKind::RecordTooLarge { limit: self.limits.max_record_bytes },
                at: next,
                number: count,
            }
        } else {
            Step::Read { field, next, last: true }
        }
    }

    /// What follows the closing quote of a quoted field, the last of `count`.
    pub open spec fn finish_quoted(
        self,
        input: Seq<u8>,
        start: int,
        after: int,
        count: int,
        field: Field,
    ) -> Step {
        let a = self.skip_padding(input, after);
        if a >= input.len() {
            self.record_end(start, a, count, field)
        } else if input[a] == self.dialect.delimiter {
            Step::Read { field, next: a + 1, last: false }
        } else if input[a] == self.terminator() {
            self.record_end(start, a + 1, count, field)
        } else if self.dialect.record_ending == RecordEnding::Newline && input[a] == CR && a + 1
            < input.len() && input[a + 1] == LF {
            self.record_end(start, a + 2, count, field)
        } else {
            Step::Broken { kind: ErrorKind::UnexpectedByteAfterQuote(input[a]), at: a, number: count }
        }
    }

    /// Read the quoted field whose opening quote is at `p`.
    pub open spec fn quoted_step(self, input: Seq<u8>, start: int, p: int, count: int) -> Step {
        if count == self.limits.max_fields {
            Step::Broken {
                kind: ErrorKind::TooManyFields { limit: self.limits.max_fields },
                at: p,
                number: count,
            }
        } else {
            match self.quoted_body(input, start, p + 1, p + 1, Seq::empty()) {
                Body::Broken { kind, at } => Step::Broken { kind, at, number: count },
                Body::Closed { bytes, after } => self.finish_quoted(
                    input,
                    start,
                    after,
                    count + 1,
                    text(bytes),
                ),
            }
        }
    }

    /// Where the spaces before a field end.
    pub open spec fn skip_spaces(self, input: Seq<u8>, start: int, p: int) -> int
        decreases input.len() - p,
    {
        if self.skip_initial_space && 0 <= p < self.record_window(input, start) && input[p]
            == SPACE {
            self.skip_spaces(input, start, p + 1)
        } else {
            p
        }
    }

    /// Whether the field at `p` is a quoted one.
    pub open spec fn opens_quoted(self, input: Seq<u8>, p: int) -> bool {
        p < input.len() && input[p] == self.dialect.quote && self.syntax.quoting_enabled()
    }

    /// Read the field at `p`, which has no spaces before it.
    pub open spec fn field_step(
        self,
        input: Seq<u8>,
        start: int,
        p: int,
        count: int,
        nulls: Nulls,
    ) -> Step {
        if self.opens_quoted(input, p) {
            self.quoted_step(input, start, p, count)
        } else {
            self.unquoted_step(input, start, p, count, nulls)
        }
    }

    /// Read fields from `p` on until the record ends, after the fields `fields`.
    ///
    /// This is the reading that every specialized parser agrees with.
    pub open spec fn read_fields(
        self,
        input: Seq<u8>,
        start: int,
        p: int,
        fields: Seq<Field>,
        nulls: Nulls,
    ) -> Scan
        decreases input.len() - p,
    {
        let q = self.skip_spaces(input, start, p);
        if self.skip_initial_space && q - start > self.limits.max_record_bytes {
            Scan::Failed {
                kind: ErrorKind::RecordTooLarge { limit: self.limits.max_record_bytes },
                at: q,
                number: 0,
            }
        } else {
            match self.field_step(input, start, q, fields.len() as int, nulls) {
                Step::Broken { kind, at, number } => Scan::Failed { kind, at, number },
                Step::Read { field, next, last } => if last {
                    Scan::Done { fields: fields.push(field), next }
                } else if p < next <= input.len() {
                    self.read_fields(input, start, next, fields.push(field), nulls)
                } else {
                    Scan::Paused { fields: fields.push(field), at: next }
                },
            }
        }
    }

    /// The bytes the plain reading stops at.
    pub open spec fn plain_stops(self) -> spec_fn(u8) -> bool {
        self.unquoted_stops()
    }

    /// Where the plain reading of a field that starts at `p` stops before `end`.
    ///
    /// A leading quote is a stop even where a later one is not.
    pub open spec fn plain_stop(self, input: Seq<u8>, p: int, end: int) -> int {
        if p < end && self.opens_quoted(input, p) {
            p
        } else {
            first_of(input, p, end, self.plain_stops())
        }
    }

    /// Read unquoted fields from `p` on until the record ends or a field opens
    /// with a quote, taking runs of delimiters together.
    pub open spec fn read_plain(
        self,
        input: Seq<u8>,
        start: int,
        p: int,
        fields: Seq<Field>,
    ) -> Scan
        decreases input.len() - p,
    {
        let end = self.record_window(input, start);
        let count = fields.len() as int;
        let at = self.plain_stop(input, p, end);
        if p < 0 || p > end || at >= end {
            if end < input.len() {
                Scan::Failed {
                    kind: ErrorKind::RecordTooLarge { limit: self.limits.max_record_bytes },
                    at: end,
                    number: count,
                }
            } else {
                match self.push_failure(count, end - p) {
                    Some(kind) => Scan::Failed { kind, at: end, number: count },
                    None => if end - start > self.limits.max_record_bytes {
                        Scan::Failed {
                            kind: ErrorKind::RecordTooLarge { limit: self.limits.max_record_bytes },
                            at: end,
                            number: count + 1,
                        }
                    } else {
                        Scan::Done { fields: fields.push(text(input.subrange(p, end))), next: end }
                    },
                }
            }
        } else if at < p {
            Scan::Paused { fields, at: p }
        } else if input[at] == self.dialect.delimiter {
            if at == p {
                let after = run_end(input, at, self.dialect.delimiter);
                let available = self.limits.max_fields - count;
                if after - at > available {
                    Scan::Failed {
                        kind: ErrorKind::TooManyFields { limit: self.limits.max_fields },
                        at: at + (if available > 0 { available } else { 0 }),
                        number: self.limits.max_fields as int,
                    }
                } else if p < after <= input.len() {
                    self.read_plain(
                        input,
                        start,
                        after,
                        fields + empties((after - at) as nat),
                    )
                } else {
                    Scan::Paused { fields, at: p }
                }
            } else {
                match self.push_failure(count, at - p) {
                    Some(kind) => Scan::Failed { kind, at, number: count },
                    None => self.read_plain(
                        input,
                        start,
                        at + 1,
                        fields.push(text(input.subrange(p, at))),
                    ),
                }
            }
        } else if self.syntax.quoting_enabled() && input[at] == self.dialect.quote && (at == p
            || !self.syntax.permits_unquoted_quotes()) {
            if at == p {
                Scan::Paused { fields, at }
            } else {
                Scan::Failed { kind: ErrorKind::UnexpectedQuote, at, number: count }
            }
        } else {
            let field_end = self.unquoted_end(input, p, at);
            match self.push_failure(count, field_end - p) {
                Some(kind) => Scan::Failed { kind, at, number: count },
                None => if at + 1 - start > self.limits.max_record_bytes {
                    Scan::Failed {
                        kind: ErrorKind::RecordTooLarge { limit: self.limits.max_record_bytes },
                        at: at + 1,
                        number: count + 1,
                    }
                } else {
                    Scan::Done {
                        fields: fields.push(text(input.subrange(p, field_end))),
                        next: at + 1,
                    }
                },
            }
        }
    }
}

/// The outcome of a specialized parser: fields, where it stopped, and whether
/// the record ended there.
#[verifier::ext_equal]
pub struct Prefix {
    /// The fields read so far.
    pub fields: Seq<Field>,
    /// Where reading stopped.
    pub at: int,
    /// Whether the record ended.
    pub finished: bool,
}

/// The bytes that separate and protect fields in a newline-terminated dialect
/// with double quotes, and whether raw field lengths are checked.
pub struct Named {
    /// Separates fields.
    pub delimiter: u8,
    /// Whether a backslash escapes quotes.
    pub backslash: bool,
    /// Whether the standard field limit is applied.
    pub check: bool,
}

impl Named {
    /// The part of the input a specialized parser looks at.
    pub open spec fn window(input: Seq<u8>) -> Seq<u8> {
        input.take(least(input.len() as int, Limits::standard().max_record_bytes as int))
    }

    /// The bytes that matter inside a quoted field.
    pub open spec fn quoted_stops(self) -> spec_fn(u8) -> bool {
        if self.backslash {
            one_of2(QUOTE, crate::ascii::BACKSLASH)
        } else {
            one(QUOTE)
        }
    }

    /// Whether a field of `len` raw bytes is refused.
    pub open spec fn too_long(self, len: int) -> bool {
        self.check && len > Limits::standard().max_field_bytes
    }

    /// Read a quoted field whose content starts at `content`, from `cursor` on.
    pub open spec fn quoted_body(
        self,
        input: Seq<u8>,
        content: int,
        cursor: int,
        decoded: Seq<u8>,
    ) -> Option<(Seq<u8>, int)>
        decreases input.len() - cursor,
    {
        let at = first_of(input, cursor, input.len() as int, self.quoted_stops());
        if cursor < 0 || cursor > input.len() || at >= input.len() || at < cursor
            || self.too_long(at - content) {
            None
        } else {
            let segment = decoded + input.subrange(cursor, at);
            if self.backslash && input[at] == crate::ascii::BACKSLASH {
                if at + 1 >= input.len() || (input[at + 1] != QUOTE && input[at + 1]
                    != crate::ascii::BACKSLASH) || self.too_long(at + 2 - content) {
                    None
                } else {
                    self.quoted_body(input, content, at + 2, segment.push(input[at + 1]))
                }
            } else if !self.backslash && at + 1 < input.len() && input[at + 1] == QUOTE {
                if self.too_long(at + 2 - content) {
                    None
                } else {
                    self.quoted_body(input, content, at + 2, segment.push(QUOTE))
                }
            } else {
                Some((segment, at + 1))
            }
        }
    }

    /// Read the quoted field whose opening quote is at `p`.
    pub open spec fn quoted_field(self, input: Seq<u8>, p: int) -> Option<(Field, int, bool)> {
        match self.quoted_body(input, p + 1, p + 1, Seq::empty()) {
            None => None,
            Some((bytes, after)) => if after >= input.len() {
                None
            } else if input[after] == self.delimiter {
                Some((text(bytes), after + 1, false))
            } else if input[after] == LF {
                Some((text(bytes), after + 1, true))
            } else if input[after] == CR && after + 1 < input.len() && input[after + 1] == LF {
                Some((text(bytes), after + 2, true))
            } else {
                None
            },
        }
    }

    /// Read the unquoted field at `p`.
    pub open spec fn plain_field(self, input: Seq<u8>, p: int) -> Option<(Field, int, bool)> {
        let at = first_of(input, p, input.len() as int, one_of3(self.delimiter, QUOTE, LF));
        if at >= input.len() || input[at] == QUOTE {
            None
        } else {
            let end = if input[at] == LF && at > p && input[at - 1] == CR {
                at - 1
            } else {
                at
            };
            if self.too_long(end - p) {
                None
            } else {
                Some((text(input.subrange(p, end)), at + 1, input[at] == LF))
            }
        }
    }

    /// Read the field at `p`.
    pub open spec fn field(self, input: Seq<u8>, p: int) -> Option<(Field, int, bool)> {
        if p >= input.len() {
            None
        } else if input[p] == QUOTE {
            self.quoted_field(input, p)
        } else {
            self.plain_field(input, p)
        }
    }

    /// Whether no field may follow `fields`.
    pub open spec fn full(fields: Seq<Field>) -> bool {
        fields.len() == Limits::standard().max_fields
    }

    /// Read a whole record from `p` on.
    pub open spec fn record(self, input: Seq<u8>, p: int, fields: Seq<Field>) -> Option<Prefix>
        decreases input.len() - p,
    {
        match self.field(input, p) {
            None => None,
            Some((field, next, last)) => if Named::full(fields) {
                None
            } else if last {
                Some(Prefix { fields: fields.push(field), at: next, finished: true })
            } else if p < next <= input.len() {
                self.record(input, next, fields.push(field))
            } else {
                None
            },
        }
    }

    /// Read quoted fields from `p` on, up to the first that is not quoted.
    pub open spec fn quoted_prefix(self, input: Seq<u8>, p: int, fields: Seq<Field>) -> Option<
        Prefix,
    >
        decreases input.len() - p,
    {
        if p >= input.len() || input[p] != QUOTE {
            Some(Prefix { fields, at: p, finished: false })
        } else {
            match self.quoted_field(input, p) {
                None => None,
                Some((field, next, last)) => if Named::full(fields) {
                    None
                } else if last {
                    Some(Prefix { fields: fields.push(field), at: next, finished: true })
                } else if p < next <= input.len() {
                    self.quoted_prefix(input, next, fields.push(field))
                } else {
                    None
                },
            }
        }
    }

    /// Read unquoted fields from `p` on, and the first quoted one.
    pub open spec fn interior_prefix(self, input: Seq<u8>, p: int, fields: Seq<Field>) -> Option<
        Prefix,
    >
        decreases input.len() - p,
    {
        match self.field(input, p) {
            None => None,
            Some((field, next, last)) => if Named::full(fields) {
                None
            } else if last || input[p] == QUOTE {
                Some(Prefix { fields: fields.push(field), at: next, finished: last })
            } else if p < next <= input.len() {
                self.interior_prefix(input, next, fields.push(field))
            } else {
                None
            },
        }
    }
}

} // verus!
