//! Reading records of dialects that end records with CRLF only, that escape in
//! place of quoting, or whose separators have more than one byte.

use vstd::prelude::*;

use crate::ascii::{CR, LF};
use crate::config::{Escape, Nulls, RecordEnding};
use crate::engine::grammar::{Body, Rules, Scan, Step};
use crate::engine::owned_parser::{
    lemma_keeps_on, lemma_keeps_push, lemma_quoted_body_bounds, lemma_skip_padding, scanned, stands, step_standing,
    stepped, Owned, Standing,
};
use crate::engine::record_parser::keeps;
use crate::engine::{reports, Engine};
use crate::error::{Error, ErrorKind};
use crate::storage::{null_field, raw_field_is_null, raw_null, text, Field, RecordStorage};

verus! {

/// The byte that `escaped` stands for after MySQL's escape byte.
pub open spec fn mysql_unescaped(escaped: u8) -> u8 {
    if escaped == 48 {
        0
    } else if escaped == 98 {
        8
    } else if escaped == 110 {
        10
    } else if escaped == 114 {
        13
    } else if escaped == 116 {
        9
    } else if escaped == 90 {
        26
    } else {
        escaped
    }
}

/// The byte that `escaped` stands for after MySQL's escape byte.
pub fn unescape_mysql(escaped: u8) -> (byte: u8)
    ensures
        byte == mysql_unescaped(escaped),
{
    if escaped == 48 {
        0
    } else if escaped == 98 {
        8
    } else if escaped == 110 {
        10
    } else if escaped == 114 {
        13
    } else if escaped == 116 {
        9
    } else if escaped == 90 {
        26
    } else {
        escaped
    }
}

/// What the byte at a position of unquoted text is.
pub enum Mark {
    /// Content.
    Content,
    /// The first of two bytes that stand for one.
    Escape,
    /// The end of the field.
    Delimiter,
    /// The end of the record.
    Ending,
    /// The end of the record, with a carriage return before it.
    CrLf,
    /// A byte that cannot stand here.
    Broken(ErrorKind),
}

impl Rules {
    /// What the byte at `at` of unquoted text is.
    pub open spec fn mark(self, input: Seq<u8>, at: int) -> Mark {
        let byte = input[at];
        if self.dialect.delimits(input, at) {
            Mark::Delimiter
        } else if self.dialect.escape.unquoted_byte() == Some(byte) {
            if at + 1 < input.len() {
                Mark::Escape
            } else {
                Mark::Broken(ErrorKind::InvalidEscape(byte))
            }
        } else if byte == self.dialect.quote && self.syntax.quoting_enabled()
            && !self.syntax.permits_unquoted_quotes() {
            Mark::Broken(ErrorKind::UnexpectedQuote)
        } else if self.dialect.breaks_crlf(input, at) {
            Mark::CrLf
        } else if self.dialect.record_ending is CrLf && (byte == CR || byte == LF) {
            Mark::Broken(ErrorKind::InvalidRecordEnding(byte))
        } else if self.dialect.breaks(input, at) {
            Mark::Ending
        } else {
            Mark::Content
        }
    }

    /// The byte that `escaped` stands for after the escape byte.
    pub open spec fn unescaped(self, escaped: u8) -> u8 {
        if self.dialect.escape is Mysql {
            mysql_unescaped(escaped)
        } else {
            escaped
        }
    }

    /// Read unquoted text that starts at `from`, from `cursor` on, after the
    /// content `decoded`.
    pub open spec fn text_body(
        self,
        input: Seq<u8>,
        start: int,
        from: int,
        cursor: int,
        decoded: Seq<u8>,
    ) -> Body
        decreases input.len() - cursor,
    {
        let end = self.field_window(input, start, from);
        if cursor < 0 || cursor >= end {
            match self.window_failure(start, from, end) {
                Some(kind) => Body::Broken { kind, at: end },
                None => Body::Closed { bytes: decoded, after: cursor },
            }
        } else {
            match self.mark(input, cursor) {
                Mark::Content => self.text_body(
                    input,
                    start,
                    from,
                    cursor + 1,
                    decoded.push(input[cursor]),
                ),
                Mark::Escape => self.text_body(
                    input,
                    start,
                    from,
                    cursor + 2,
                    decoded.push(self.unescaped(input[cursor + 1])),
                ),
                Mark::Broken(kind) => Body::Broken { kind, at: cursor },
                _ => Body::Closed { bytes: decoded, after: cursor },
            }
        }
    }

    /// Where reading goes on after a field that ends at `at`, and whether the
    /// record ended there.
    pub open spec fn after_text(self, input: Seq<u8>, at: int) -> (int, bool) {
        if at >= input.len() {
            (at, true)
        } else {
            match self.mark(input, at) {
                Mark::Delimiter => (at + self.dialect.delimiter_len(), false),
                Mark::CrLf => (at + 2 + self.dialect.ending_tail.text().len(), true),
                _ => (at + 1 + self.dialect.ending_tail.text().len(), true),
            }
        }
    }

    /// Read the unquoted field at `p`.
    pub open spec fn text_step(
        self,
        input: Seq<u8>,
        start: int,
        p: int,
        count: int,
        nulls: Nulls,
    ) -> Step {
        match self.text_body(input, start, p, p, Seq::empty()) {
            Body::Broken { kind, at } => Step::Broken { kind, at, number: count },
            Body::Closed { bytes, after } => {
                let (next, last) = self.after_text(input, after);
                let field = if raw_null(nulls, input.subrange(p, after)) {
                    null_field()
                } else {
                    text(bytes)
                };
                if count == self.limits.max_fields {
                    Step::Broken {
                        kind: ErrorKind::TooManyFields { limit: self.limits.max_fields },
                        at: after,
                        number: count,
                    }
                } else if next - start > self.limits.max_record_bytes {
                    Step::Broken {
                        kind: ErrorKind::RecordTooLarge { limit: self.limits.max_record_bytes },
                        at: next,
                        number: count + 1,
                    }
                } else {
                    Step::Read { field, next, last }
                }
            },
        }
    }

    /// What follows the closing quote of a quoted field: a whole delimiter, a
    /// whole record ending, or the end of the input.
    pub open spec fn finish_checked(
        self,
        input: Seq<u8>,
        start: int,
        after: int,
        count: int,
        field: Field,
    ) -> Step {
        let a = self.skip_padding(input, after);
        if a >= input.len() {
            self.record_end(start, a, count, field)
        } else if self.dialect.delimits(input, a) {
            Step::Read { field, next: a + self.dialect.delimiter_len(), last: false }
        } else if self.dialect.break_len(input, a) > 0 {
            self.record_end(start, a + self.dialect.break_len(input, a), count, field)
        } else if self.dialect.record_ending is CrLf && (input[a] == CR || input[a] == LF) {
            Step::Broken {
                kind: ErrorKind::InvalidRecordEnding(input[a]),
                at: a,
                number: count,
            }
        } else {
            Step::Broken {
                kind: ErrorKind::UnexpectedByteAfterQuote(input[a]),
                at: a,
                number: count,
            }
        }
    }

    /// Read the field at `p`.
    pub open spec fn checked_step(
        self,
        input: Seq<u8>,
        start: int,
        p: int,
        count: int,
        nulls: Nulls,
    ) -> Step {
        if self.dialect.escape.unquoted_byte() is None && self.opens_quoted(input, p) {
            if count == self.limits.max_fields {
                Step::Broken {
                    kind: ErrorKind::TooManyFields { limit: self.limits.max_fields },
                    at: p,
                    number: count,
                }
            } else {
                match self.quoted_body(input, start, p + 1, p + 1, Seq::empty()) {
                    Body::Broken { kind, at } => Step::Broken { kind, at, number: count },
                    Body::Closed { bytes, after } => self.finish_checked(
                        input,
                        start,
                        after,
                        count + 1,
                        text(bytes),
                    ),
                }
            }
        } else {
            self.text_step(input, start, p, count, nulls)
        }
    }

    /// Read fields from `p` on until the record ends, after the fields `fields`.
    pub open spec fn read_checked(
        self,
        input: Seq<u8>,
        start: int,
        p: int,
        fields: Seq<Field>,
        nulls: Nulls,
    ) -> Scan
        decreases input.len() - p,
    {
        let q = self.skip_spaces(input, start, p);
        if self.skip_initial_space && q - start > self.limits.max_record_bytes {
            Scan::Failed {
                kind: ErrorKind::RecordTooLarge { limit: self.limits.max_record_bytes },
                at: q,
                number: 0,
            }
        } else {
            match self.checked_step(input, start, q, fields.len() as int, nulls) {
                Step::Broken { kind, at, number } => Scan::Failed { kind, at, number },
                Step::Read { field, next, last } => if last {
                    Scan::Done { fields: fields.push(field), next }
                } else if p < next <= input.len() {
                    self.read_checked(input, start, next, fields.push(field), nulls)
                } else {
                    Scan::Paused { fields: fields.push(field), at: next }
                },
            }
        }
    }

    /// The content of the field at `p`, where it is ended.
    pub open spec fn checked_content(
        self,
        input: Seq<u8>,
        start: int,
        p: int,
        nulls: Nulls,
    ) -> Field {
        if self.dialect.escape.unquoted_byte() is None && self.opens_quoted(input, p) {
            self.quoted_content(input, start, p)
        } else {
            match self.text_body(input, start, p, p, Seq::empty()) {
                Body::Closed { bytes, after } => if raw_null(nulls, input.subrange(p, after)) {
                    null_field()
                } else {
                    text(bytes)
                },
                Body::Broken { .. } => null_field(),
            }
        }
    }

    /// How a parser stands that has read the field at `p`, or has failed to.
    pub open spec fn checked_field_standing(
        self,
        input: Seq<u8>,
        start: int,
        p: int,
        fields: Seq<Field>,
        nulls: Nulls,
    ) -> Standing {
        step_standing(
            self.checked_step(input, start, p, fields.len() as int, nulls),
            self.checked_content(input, start, p, nulls),
            p,
            fields,
        )
    }

    /// How a parser stands that has read fields one by one from `p` on, to the end
    /// of the record or to the failure of one of them.
    pub open spec fn checked_standing(
        self,
        input: Seq<u8>,
        start: int,
        p: int,
        fields: Seq<Field>,
        nulls: Nulls,
    ) -> Standing
        decreases input.len() - p,
    {
        let q = self.skip_spaces(input, start, p);
        if self.skip_initial_space && q - start > self.limits.max_record_bytes {
            Standing { fields, location: q }
        } else {
            match self.checked_step(input, start, q, fields.len() as int, nulls) {
                Step::Read { field, next, last } => if !last && p < next <= input.len() {
                    self.checked_standing(input, start, next, fields.push(field), nulls)
                } else {
                    Standing { fields: fields.push(field), location: next }
                },
                _ => self.checked_field_standing(input, start, q, fields, nulls),
            }
        }
    }

    /// Read the record at `start`.
    pub open spec fn read_record(self, input: Seq<u8>, start: int, nulls: Nulls) -> Scan {
        if Engine::supports(self.dialect) {
            self.read_fields(input, start, start, Seq::empty(), nulls)
        } else {
            self.read_checked(input, start, start, Seq::empty(), nulls)
        }
    }
}

/// Unquoted text ends inside the input, not before it was read.
pub proof fn lemma_text_body_bounds(
    rules: Rules,
    input: Seq<u8>,
    start: int,
    from: int,
    cursor: int,
    decoded: Seq<u8>,
)
    requires
        0 <= start <= from <= cursor <= input.len(),
    ensures
        rules.text_body(input, start, from, cursor, decoded) matches Body::Closed { after, .. }
            ==> {
            &&& cursor <= after <= input.len()
            &&& rules.after_text(input, after).0 <= input.len()
            &&& after <= rules.after_text(input, after).0
            &&& !rules.after_text(input, after).1 ==> after < rules.after_text(input, after).0
            &&& after < input.len() ==> after < rules.field_window(input, start, from)
        },
    decreases input.len() - cursor,
{
    let end = rules.field_window(input, start, from);
    if cursor < end {
        match rules.mark(input, cursor) {
            Mark::Content => lemma_text_body_bounds(
                rules,
                input,
                start,
                from,
                cursor + 1,
                decoded.push(input[cursor]),
            ),
            Mark::Escape => lemma_text_body_bounds(
                rules,
                input,
                start,
                from,
                cursor + 2,
                decoded.push(rules.unescaped(input[cursor + 1])),
            ),
            _ => {},
        }
    }
}

/// Unquoted text ends at a mark, or with the input.
pub proof fn lemma_text_ends(
    rules: Rules,
    input: Seq<u8>,
    start: int,
    from: int,
    cursor: int,
    decoded: Seq<u8>,
)
    requires
        0 <= start <= from <= cursor <= input.len(),
    ensures
        rules.text_body(input, start, from, cursor, decoded) matches Body::Closed { after, .. }
            ==> after < input.len() ==> {
            let mark = rules.mark(input, after);
            mark is Delimiter || mark is Ending || mark is CrLf
        },
    decreases input.len() - cursor,
{
    let end = rules.field_window(input, start, from);
    if cursor < end {
        match rules.mark(input, cursor) {
            Mark::Content => lemma_text_ends(
                rules,
                input,
                start,
                from,
                cursor + 1,
                decoded.push(input[cursor]),
            ),
            Mark::Escape => lemma_text_ends(
                rules,
                input,
                start,
                from,
                cursor + 2,
                decoded.push(rules.unescaped(input[cursor + 1])),
            ),
            _ => {},
        }
    }
}

/// A field that does not end its record takes at least its delimiter.
pub proof fn lemma_checked_step_bounds(
    rules: Rules,
    input: Seq<u8>,
    start: int,
    p: int,
    count: int,
    nulls: Nulls,
)
    requires
        0 <= start <= p <= input.len(),
    ensures
        rules.checked_step(input, start, p, count, nulls) matches Step::Read { next, last, .. }
            ==> {
            &&& p <= next <= input.len()
            &&& !last ==> p < next
        },
{
    lemma_text_body_bounds(rules, input, start, p, p, Seq::empty());
    lemma_quoted_body_bounds(rules, input, start, p + 1, p + 1, Seq::empty());
    if let Body::Closed { bytes, after } = rules.quoted_body(
        input,
        start,
        p + 1,
        p + 1,
        Seq::empty(),
    ) {
        lemma_skip_padding(rules, input, after);
    }
}

impl Engine {
    fn mark_at(&self, input: &[u8], at: usize) -> (mark: Mark)
        requires
            at < input.len(),
        ensures
            mark == self.rules().mark(input@, at as int),
    {
        let byte: u8 = input[at];
        let escapes = match self.dialect.escape.unquoted_byte() {
            Some(escape) => escape == byte,
            None => false,
        };
        if self.dialect.is_delimiter_at(input, at) {
            Mark::Delimiter
        } else if escapes {
            if at + 1 < input.len() {
                Mark::Escape
            } else {
                Mark::Broken(ErrorKind::InvalidEscape(byte))
            }
        } else if byte == self.dialect.quote && self.syntax.quoting_enabled()
            && !self.syntax.permits_unquoted_quotes() {
            Mark::Broken(ErrorKind::UnexpectedQuote)
        } else if self.dialect.is_crlf_at(input, at) {
            Mark::CrLf
        } else if self.dialect.record_ending == RecordEnding::CrLf && (byte == CR || byte == LF) {
            Mark::Broken(ErrorKind::InvalidRecordEnding(byte))
        } else if self.dialect.is_break_at(input, at) {
            Mark::Ending
        } else {
            Mark::Content
        }
    }

    /// Read the unquoted field at the current location.
    fn parse_checked_text(
        &mut self,
        input: &[u8],
        output: &mut RecordStorage,
        record_start: usize,
        nulls: Nulls,
    ) -> (result: Result<bool, Error>)
        requires
            record_start <= old(self).location <= input.len(),
            old(output).wf(),
            old(output).open_bytes() == Seq::<u8>::empty(),
        ensures
            *final(self) == old(self).moved(final(self).location),
            stepped(
                old(self).rules().text_step(
                    input@,
                    record_start as int,
                    old(self).location as int,
                    old(output).fields().len() as int,
                    nulls,
                ),
                result,
                old(self).record,
                input@,
                final(self).location,
                old(output).fields(),
                *final(output),
            ),
            result is Err && !(old(self).dialect.escape.unquoted_byte() is None
                && old(self).rules().opens_quoted(input@, old(self).location as int)) ==> stands(
                final(self).location,
                *final(output),
                old(self).rules().checked_field_standing(
                    input@,
                    record_start as int,
                    old(self).location as int,
                    old(output).fields(),
                    nulls,
                ),
            ),
    {
        proof {
            lemma_keeps_push(output.fields());
        }
        let from: usize = self.location;
        let end: usize = self.scan_end(input, record_start, from);
        let ghost rules = self.rules();
        let ghost whole = rules.text_body(
            input@,
            record_start as int,
            from as int,
            from as int,
            Seq::empty(),
        );
        let mut cursor: usize = from;
        let mut crlf = false;
        let mut delimited = false;
        proof {
            lemma_text_body_bounds(
                rules,
                input@,
                record_start as int,
                from as int,
                from as int,
                Seq::empty(),
            );
        }
        loop
            invariant_except_break
                !crlf,
                !delimited,
            invariant
                *self == *old(self),
                rules == self.rules(),
                record_start <= from <= cursor <= input.len(),
                record_start <= end <= input.len(),
                from == self.location,
                end == rules.field_window(input@, record_start as int, from as int),
                output.wf(),
                output.fields() == old(output).fields(),
                keeps(old(output).fields(), old(output).fields()),
                whole == rules.text_body(
                    input@,
                    record_start as int,
                    from as int,
                    from as int,
                    Seq::empty(),
                ),
                whole == rules.text_body(
                    input@,
                    record_start as int,
                    from as int,
                    cursor as int,
                    output.open_bytes(),
                ),
            ensures
                whole == (Body::Closed { bytes: output.open_bytes(), after: cursor as int }),
                cursor >= input.len() ==> !crlf && !delimited,
                cursor < input.len() ==> crlf == (rules.mark(input@, cursor as int) is CrLf)
                    && delimited == (rules.mark(input@, cursor as int) is Delimiter),
            decreases input.len() - cursor,
        {
            if cursor >= end {
                proof {
                    lemma_text_body_bounds(
                        rules,
                        input@,
                        record_start as int,
                        from as int,
                        cursor as int,
                        output.open_bytes(),
                    );
                }
                if let Err(error) = self.check_scan_end_for(
                    input,
                    end,
                    record_start,
                    from,
                    output.len(),
                ) {
                    return Err(error);
                }
                break;
            }
            match self.mark_at(input, cursor) {
                Mark::Content => {
                    output.push_byte(input[cursor]);
                    cursor += 1;
                },
                Mark::Escape => {
                    let escaped: u8 = input[cursor + 1];
                    let byte: u8 = if self.dialect.escape == Escape::Mysql {
                        unescape_mysql(escaped)
                    } else {
                        escaped
                    };
                    output.push_byte(byte);
                    cursor += 2;
                },
                Mark::Broken(kind) => {
                    return Err(self.error_for(input, kind, cursor, output.len()));
                },
                Mark::Delimiter => {
                    delimited = true;
                    break;
                },
                Mark::CrLf => {
                    crlf = true;
                    break;
                },
                Mark::Ending => {
                    break;
                },
            }
        }
        proof {
            lemma_text_body_bounds(
                rules,
                input@,
                record_start as int,
                from as int,
                from as int,
                Seq::empty(),
            );
        }
        let next: usize = if cursor >= input.len() {
            cursor
        } else if delimited {
            cursor + 1 + self.dialect.delimiter_tail.size()
        } else if crlf {
            cursor + 2 + self.dialect.ending_tail.size()
        } else {
            cursor + 1 + self.dialect.ending_tail.size()
        };
        let last = !delimited;
        if output.len() == self.limits.max_fields {
            return Err(
                self.error_for(
                    input,
                    ErrorKind::TooManyFields { limit: self.limits.max_fields },
                    cursor,
                    output.len(),
                ),
            );
        }
        if raw_field_is_null(nulls, input, from, cursor) {
            output.truncate_fields(output.len());
            proof {
                assert(output.fields() =~= old(output).fields());
            }
            output.append_null_field();
        } else {
            output.finish_field();
        }
        self.location = next;
        if let Err(error) = self.check_record_limit_for(
            input,
            record_start,
            next,
            output.len(),
        ) {
            return Err(error);
        }
        Ok(last)
    }

    fn finish_checked_field(
        &mut self,
        input: &[u8],
        field_count: usize,
        record_start: usize,
        after_quote: usize,
    ) -> (result: Result<bool, Error>)
        requires
            record_start <= after_quote <= input.len(),
        ensures
            *final(self) == old(self).moved(final(self).location),
            forall|field: Field|
                match #[trigger] old(self).rules().finish_checked(
                    input@,
                    record_start as int,
                    after_quote as int,
                    field_count as int,
                    field,
                ) {
                    Step::Read { field: same, next, last } => {
                        &&& same == field
                        &&& result matches Ok(done) && done == last
                        &&& final(self).location == next
                        &&& next <= input.len()
                    },
                    Step::Broken { kind, at, number } => {
                        &&& result matches Err(error) && reports(
                            error,
                            old(self).record,
                            input@,
                            kind,
                            at,
                            number,
                        )
                        &&& final(self).location == (if kind is RecordTooLarge {
                            at
                        } else {
                            old(self).location as int
                        })
                    },
                },
    {
        let after: usize = self.skip_compatible_post_quote_whitespace(input, after_quote);
        if after < input.len() {
            if self.dialect.is_delimiter_at(input, after) {
                self.location = after + 1 + self.dialect.delimiter_tail.size();
                return Ok(false);
            }
            let len: usize = self.dialect.ending_at(input, after);
            if len == 0 {
                let next: u8 = input[after];
                let kind = if self.dialect.record_ending == RecordEnding::CrLf && (next == CR
                    || next == LF) {
                    ErrorKind::InvalidRecordEnding(next)
                } else {
                    ErrorKind::UnexpectedByteAfterQuote(next)
                };
                return Err(self.error_for(input, kind, after, field_count));
            }
            self.location = after + len;
        } else {
            self.location = after;
        }
        match self.check_record_limit_for(input, record_start, self.location, field_count) {
            Ok(()) => Ok(true),
            Err(error) => Err(error),
        }
    }

    /// Read the field at the current location.
    fn parse_checked_field(
        &mut self,
        input: &[u8],
        output: &mut RecordStorage,
        record_start: usize,
        nulls: Nulls,
    ) -> (result: Result<bool, Error>)
        requires
            record_start <= old(self).location <= input.len(),
            old(output).wf(),
            old(output).open_bytes() == Seq::<u8>::empty(),
        ensures
            *final(self) == old(self).moved(final(self).location),
            stepped(
                old(self).rules().checked_step(
                    input@,
                    record_start as int,
                    old(self).location as int,
                    old(output).fields().len() as int,
                    nulls,
                ),
                result,
                old(self).record,
                input@,
                final(self).location,
                old(output).fields(),
                *final(output),
            ),
            result is Err ==> stands(
                final(self).location,
                *final(output),
                old(self).rules().checked_field_standing(
                    input@,
                    record_start as int,
                    old(self).location as int,
                    old(output).fields(),
                    nulls,
                ),
            ),
    {
        let quoted = self.dialect.escape.unquoted_byte().is_none() && self.location < input.len()
            && input[self.location] == self.dialect.quote && self.syntax.quoting_enabled();
        if !quoted {
            return self.parse_checked_text(input, output, record_start, nulls);
        }
        proof {
            lemma_keeps_push(output.fields());
        }
        match self.parse_owned_quoted_body(input, output, record_start) {
            Err(error) => Err(error),
            Ok(after) => self.finish_checked_field(input, output.len(), record_start, after),
        }
    }

    /// Read the record at the current location, field by field, by the rules that
    /// hold in every dialect.
    pub fn parse_checked_fields(
        &mut self,
        input: &[u8],
        output: &mut RecordStorage,
        record_start: usize,
        header: bool,
    ) -> (result: Result<(), Error>)
        requires
            record_start <= old(self).location <= input.len(),
            old(output).wf(),
            old(output).open_bytes() == Seq::<u8>::empty(),
        ensures
            keeps(old(output).fields(), final(output).fields()),
            ({
                let scan = old(self).rules().read_checked(
                    input@,
                    record_start as int,
                    old(self).location as int,
                    old(output).fields(),
                    old(self).nulls_for(header),
                );
                let owned = match scan {
                    Scan::Done { fields, next } => old(self).settled(fields, next),
                    _ => Owned { scan, state: *old(self) },
                };
                &&& *final(self) == owned.state.moved(final(self).location)
                &&& !(owned.scan is Paused)
                &&& scanned(
                    owned.scan,
                    match result {
                        Ok(()) => Ok(true),
                        Err(error) => Err(error),
                    },
                    old(self).record,
                    input@,
                    final(self).location,
                    *final(output),
                )
            }),
            result is Err ==> stands(
                final(self).location,
                *final(output),
                old(self).rules().checked_standing(
                    input@,
                    record_start as int,
                    old(self).location as int,
                    old(output).fields(),
                    old(self).nulls_for(header),
                ),
            ),
    {
        let nulls = if header {
            Nulls::Disabled
        } else {
            self.nulls
        };
        let ghost rules = self.rules();
        let ghost whole = rules.read_checked(
            input@,
            record_start as int,
            self.location as int,
            output.fields(),
            nulls,
        );
        proof {
            lemma_keeps_push(output.fields());
        }
        loop
            invariant
                keeps(old(output).fields(), output.fields()),
                *self == old(self).moved(self.location),
                record_start <= self.location <= input.len(),
                rules == old(self).rules(),
                nulls == old(self).nulls_for(header),
                output.wf(),
                output.open_bytes() == Seq::<u8>::empty(),
                whole == rules.read_checked(
                    input@,
                    record_start as int,
                    old(self).location as int,
                    old(output).fields(),
                    nulls,
                ),
                whole == rules.read_checked(
                    input@,
                    record_start as int,
                    self.location as int,
                    output.fields(),
                    nulls,
                ),
                rules.checked_standing(
                    input@,
                    record_start as int,
                    old(self).location as int,
                    old(output).fields(),
                    nulls,
                ) == rules.checked_standing(
                    input@,
                    record_start as int,
                    self.location as int,
                    output.fields(),
                    nulls,
                ),
            decreases input.len() - self.location,
        {
            proof {
                lemma_keeps_on(old(output).fields(), output.fields());
            }
            let ghost count = output.fields().len() as int;
            assert(self.rules() == rules);
            if let Err(error) = self.skip_delimiter_spaces(input, record_start) {
                return Err(error);
            }
            assert(self.rules() == rules);
            proof {
                lemma_checked_step_bounds(
                    rules,
                    input@,
                    record_start as int,
                    self.location as int,
                    count,
                    nulls,
                );
            }
            match self.parse_checked_field(input, output, record_start, nulls) {
                Err(error) => {
                    return Err(error);
                },
                Ok(last) => {
                    if last {
                        return self.validate_field_count(input, output.len());
                    }
                },
            }
        }
    }
}

} // verus!
