//! Reading records into owned storage.
//!
//! A record is first tried by the parser that its predecessors suggest. What
//! that parser cannot settle is read field by field from where it stopped.

use vstd::prelude::*;

use crate::ascii::{CR, LF, SPACE, TAB};
use crate::config::{Escape, FieldCount, Limits, Nulls, RecordEnding};
use crate::engine::grammar::{Body, Named, Rules, Scan, Step};
use crate::engine::record_parser::{
    default_csv, keeps, lemma_interior_prefix_bounds, lemma_quoted_prefix_bounds,
    lemma_record_bounds,
};
use crate::engine::{reports, Engine, PrefixParser};
use crate::error::{Error, ErrorKind};
use crate::search::{find1_near, find2_near, find3_near, first_of, lemma_first_of, lemma_run_end, run_end};
use crate::storage::{
    all_with_nulls, empties, raw_field_is_null, text, unquoted, Field, RecordStorage,
};

verus! {

/// For how many records a prediction is kept.
pub const INTERIOR_QUOTE_RUN: u8 = 16;

/// From how many fields on a record counts as wide.
pub const WIDE_RECORD_FIELDS: usize = 16;

/// Whether the fields of a record this wide are copied byte by byte.
pub fn use_short_owned_fields(field_capacity: usize) -> (short: bool)
    ensures
        short == (field_capacity >= WIDE_RECORD_FIELDS),
{
    field_capacity >= WIDE_RECORD_FIELDS
}

/// The outcome of reading a record, and what was learned for the next one.
#[verifier::ext_equal]
pub struct Owned {
    /// The outcome.
    pub scan: Scan,
    /// The parser state for the next record.
    pub state: Engine,
}

/// Whether a result, a location and an output are those of a scan.
pub open spec fn scanned(
    scan: Scan,
    result: Result<bool, Error>,
    record: u64,
    input: Seq<u8>,
    location: usize,
    output: RecordStorage,
) -> bool {
    &&& output.wf()
    &&& match scan {
        Scan::Done { fields, next } => {
            &&& result matches Ok(done) && done
            &&& output.fields() == fields
            &&& output.open_bytes() == Seq::<u8>::empty()
            &&& location == next
            &&& next <= input.len()
        },
        Scan::Paused { fields, at } => {
            &&& result matches Ok(done) && !done
            &&& output.fields() == fields
            &&& output.open_bytes() == Seq::<u8>::empty()
            &&& location == at
            &&& at <= input.len()
        },
        Scan::Failed { kind, at, number } => {
            &&& result matches Err(error) && reports(error, record, input, kind, at, number)
        },
    }
}

/// Fields are kept by themselves, and when another is added.
pub proof fn lemma_keeps_push(fields: Seq<Field>)
    ensures
        keeps(fields, fields),
        forall|field: Field| keeps(fields, #[trigger] fields.push(field)),
{
    assert(fields.take(fields.len() as int) =~= fields);
    assert forall|field: Field| keeps(fields, #[trigger] fields.push(field)) by {
        assert(fields.push(field).take(fields.len() as int) =~= fields);
    }
}

/// What fields that were kept so far are kept by.
pub proof fn lemma_keeps_on(settled: Seq<Field>, fields: Seq<Field>)
    requires
        keeps(settled, fields),
    ensures
        forall|field: Field| keeps(settled, #[trigger] fields.push(field)),
        forall|count: nat| keeps(settled, fields + #[trigger] empties(count)),
        forall|more: Seq<Field>| #[trigger] keeps(fields, more) ==> keeps(settled, more),
{
    let len = settled.len() as int;
    assert forall|field: Field| keeps(settled, #[trigger] fields.push(field)) by {
        assert(fields.push(field).take(len) =~= fields.take(len));
    }
    assert forall|count: nat| keeps(settled, fields + #[trigger] empties(count)) by {
        assert((fields + empties(count)).take(len) =~= fields.take(len));
    }
    assert forall|more: Seq<Field>| #[trigger] keeps(fields, more) implies keeps(settled, more) by {
        assert(more.take(len) =~= more.take(fields.len() as int).take(len));
    }
}

/// Whether a result, a location and an output are those of one field's step.
///
/// The fields that were there before stay, whatever happens. After an error
/// there are as many as the error says.
pub open spec fn stepped(
    step: Step,
    result: Result<bool, Error>,
    record: u64,
    input: Seq<u8>,
    location: usize,
    before: Seq<Field>,
    output: RecordStorage,
) -> bool {
    &&& output.wf()
    &&& match step {
        Step::Read { field, next, last } => {
            &&& result matches Ok(done) && done == last
            &&& output.fields() == before.push(field)
            &&& output.open_bytes() == Seq::<u8>::empty()
            &&& location == next
            &&& next <= input.len()
        },
        Step::Broken { kind, at, number } => {
            &&& result matches Err(error) && reports(error, record, input, kind, at, number)
            &&& keeps(before, output.fields())
            &&& output.fields().len() == number
        },
    }
}

/// What an output holds, and where its parser is.
#[verifier::ext_equal]
pub struct Standing {
    /// The fields that the output holds.
    pub fields: Seq<Field>,
    /// Where the parser is.
    pub location: int,
}

/// Whether a parser and its output stand so.
///
/// Behind its fields the output may still hold what was read of another one.
pub open spec fn stands(location: usize, output: RecordStorage, standing: Standing) -> bool {
    &&& output.fields() == standing.fields
    &&& location == standing.location
}

/// How a parser stands after a step at `p`, which followed these fields.
///
/// A field that was read before the step failed is held. The parser has gone on
/// only where the record was too long with it.
pub open spec fn step_standing(step: Step, field: Field, p: int, fields: Seq<Field>) -> Standing {
    match step {
        Step::Read { field: read, next, .. } => Standing {
            fields: fields.push(read),
            location: next,
        },
        Step::Broken { kind, at, number } => if number <= fields.len() {
            Standing { fields, location: p }
        } else {
            Standing {
                fields: fields.push(field),
                location: if kind is RecordTooLarge {
                    at
                } else {
                    p
                },
            }
        },
    }
}

impl Rules {
    /// The content of the quoted field at `p`, where it is closed.
    pub open spec fn quoted_content(self, input: Seq<u8>, start: int, p: int) -> Field {
        text(self.quoted_body(input, start, p + 1, p + 1, Seq::empty())->bytes)
    }

    /// The content of the unquoted field at `p`, where it is ended.
    pub open spec fn unquoted_content(
        self,
        input: Seq<u8>,
        start: int,
        p: int,
        nulls: Nulls,
    ) -> Field {
        let end = self.field_window(input, start, p);
        let at = first_of(input, p, end, self.unquoted_stops());
        unquoted(nulls, input.subrange(p, self.unquoted_end(input, p, at)))
    }

    /// How a parser stands that has read the field at `p`, or has failed to.
    pub open spec fn field_standing(
        self,
        input: Seq<u8>,
        start: int,
        p: int,
        fields: Seq<Field>,
        nulls: Nulls,
    ) -> Standing {
        step_standing(
            self.field_step(input, start, p, fields.len() as int, nulls),
            if self.opens_quoted(input, p) {
                self.quoted_content(input, start, p)
            } else {
                self.unquoted_content(input, start, p, nulls)
            },
            p,
            fields,
        )
    }

    /// How a parser stands that has read fields one by one from `p` on, to the end
    /// of the record or to the failure of one of them.
    pub open spec fn fields_standing(
        self,
        input: Seq<u8>,
        start: int,
        p: int,
        fields: Seq<Field>,
        nulls: Nulls,
    ) -> Standing
        decreases input.len() - p,
    {
        let q = self.skip_spaces(input, start, p);
        if self.skip_initial_space && q - start > self.limits.max_record_bytes {
            Standing { fields, location: q }
        } else {
            match self.field_step(input, start, q, fields.len() as int, nulls) {
                Step::Read { field, next, last } => if !last && p < next <= input.len() {
                    self.fields_standing(input, start, next, fields.push(field), nulls)
                } else {
                    Standing { fields: fields.push(field), location: next }
                },
                _ => self.field_standing(input, start, q, fields, nulls),
            }
        }
    }

    /// How a parser that is at `location` stands after a plain reading from `p` on
    /// has failed.
    pub open spec fn plain_standing(
        self,
        input: Seq<u8>,
        start: int,
        p: int,
        fields: Seq<Field>,
        location: int,
    ) -> Standing
        decreases input.len() - p,
    {
        let end = self.record_window(input, start);
        let count = fields.len() as int;
        let at = self.plain_stop(input, p, end);
        let limit = self.limits.max_record_bytes;
        let here = Standing { fields, location };
        if p < 0 || p > end || at >= end {
            if end < input.len() || self.push_failure(count, end - p) is Some {
                here
            } else {
                Standing { fields: fields.push(text(input.subrange(p, end))), location: end }
            }
        } else if at < p {
            here
        } else if input[at] == self.dialect.delimiter {
            if at == p {
                let after = run_end(input, at, self.dialect.delimiter);
                if after - at <= self.limits.max_fields - count && p < after <= input.len() {
                    self.plain_standing(
                        input,
                        start,
                        after,
                        fields + empties((after - at) as nat),
                        location,
                    )
                } else {
                    here
                }
            } else if self.push_failure(count, at - p) is Some {
                here
            } else {
                self.plain_standing(
                    input,
                    start,
                    at + 1,
                    fields.push(text(input.subrange(p, at))),
                    location,
                )
            }
        } else if self.syntax.quoting_enabled() && input[at] == self.dialect.quote && (at == p
            || !self.syntax.permits_unquoted_quotes()) {
            here
        } else {
            let field_end = self.unquoted_end(input, p, at);
            if self.push_failure(count, field_end - p) is Some {
                here
            } else {
                Standing {
                    fields: fields.push(text(input.subrange(p, field_end))),
                    location: at + 1,
                }
            }
        }
    }
}

impl Engine {
    /// How a parser stands that failed to read on from the quoted field at `at`.
    pub open spec fn resume_standing(
        self,
        input: Seq<u8>,
        start: int,
        at: int,
        fields: Seq<Field>,
    ) -> Standing
        decreases input.len() - at,
    {
        match (self.quoted_prefix_parser, self.resume_window(input, start, at)) {
            (Some(parser), Some(window)) => match parser.reads(window, fields) {
                Some(prefix) => match self.rules().read_plain(
                    input,
                    start,
                    at + prefix.at,
                    prefix.fields,
                ) {
                    Scan::Paused { fields: more, at: stop } => if at < stop <= input.len() {
                        self.resume_standing(input, start, stop, more)
                    } else {
                        Standing { fields: more, location: stop }
                    },
                    _ => self.rules().plain_standing(
                        input,
                        start,
                        at + prefix.at,
                        prefix.fields,
                        at + prefix.at,
                    ),
                },
                None => Standing { fields, location: at },
            },
            _ => Standing { fields, location: at },
        }
    }

    /// How a parser stands that failed in a plain reading, which it began at
    /// `location`, or in what follows it.
    pub open spec fn interrupted_standing(
        self,
        input: Seq<u8>,
        start: int,
        plain: Scan,
        failed: Standing,
        header: bool,
        parser: Option<PrefixParser>,
    ) -> Standing {
        match plain {
            Scan::Done { fields, next } => Standing {
                fields: self.nulled(fields, header),
                location: next,
            },
            Scan::Paused { fields, at } => {
                let state = self.expecting(parser);
                state.resume_standing(input, start, at, state.nulled(fields, header))
            },
            _ => failed,
        }
    }

    /// How the parser for records with a quoted field further on stands where it
    /// failed.
    pub open spec fn interior_standing(
        self,
        input: Seq<u8>,
        start: int,
        fields: Seq<Field>,
        header: bool,
    ) -> Standing {
        match self.interior_prefix_parser {
            Some(parser) => match parser.reads(input.skip(start), fields) {
                Some(prefix) => {
                    let at = start + prefix.at;
                    match self.rules().read_plain(input, start, at, prefix.fields) {
                        Scan::Done { fields: more, next } => Standing {
                            fields: self.nulled(more, header),
                            location: next,
                        },
                        Scan::Paused { fields: more, at } => {
                            let state = self.expecting(self.multi_quote_parser);
                            match state.resume(input, start, at, more) {
                                Scan::Done { fields: all, next } => Standing {
                                    fields: state.nulled(all, header),
                                    location: next,
                                },
                                _ => state.resume_standing(input, start, at, more),
                            }
                        },
                        _ => self.rules().plain_standing(input, start, at, prefix.fields, at),
                    }
                },
                None => Standing { fields, location: start },
            },
            None => Standing { fields, location: start },
        }
    }

    /// How the predicted parser stands where it failed.
    pub open spec fn predicted_standing(
        self,
        input: Seq<u8>,
        start: int,
        fields: Seq<Field>,
        header: bool,
    ) -> Standing {
        let rules = self.rules();
        if self.syntax.quoting_enabled() && (input[start] == self.dialect.quote
            || self.interior_quotes != 0) {
            let state = Engine {
                interior_quotes: self.interior_quotes.saturating_sub(1),
                ..self
            };
            if input[start] != self.dialect.quote {
                state.interior_standing(input, start, fields, header)
            } else {
                match state.quoted_prefix_parser {
                    Some(parser) => match parser.reads(input.skip(start), fields) {
                        Some(prefix) => {
                            let at = start + prefix.at;
                            state.interrupted_standing(
                                input,
                                start,
                                rules.read_plain(input, start, at, prefix.fields),
                                rules.plain_standing(input, start, at, prefix.fields, start),
                                header,
                                state.multi_quote_parser,
                            )
                        },
                        None => Standing { fields, location: start },
                    },
                    None => Standing { fields, location: start },
                }
            }
        } else {
            self.interrupted_standing(
                input,
                start,
                rules.read_plain(input, start, start, fields),
                rules.plain_standing(input, start, start, fields, start),
                header,
                self.interior_handoff_parser,
            )
        }
    }

    /// How a parser stands that failed to read the record at `start`.
    pub open spec fn owned_standing(
        self,
        input: Seq<u8>,
        start: int,
        fields: Seq<Field>,
        header: bool,
    ) -> Standing {
        match self.predicted(input, start, fields, header).scan {
            Scan::Paused { fields: some, at } => self.rules().fields_standing(
                input,
                start,
                at,
                some,
                self.nulls_for(header),
            ),
            _ => self.predicted_standing(input, start, fields, header),
        }
    }

    /// This state at another location.
    pub open spec fn moved(self, location: usize) -> Engine {
        Engine { location, ..self }
    }

    /// The fields after the NULL policy was applied to all of them.
    pub open spec fn nulled(self, fields: Seq<Field>, header: bool) -> Seq<Field> {
        if header || self.nulls == Nulls::Disabled {
            fields
        } else {
            all_with_nulls(self.nulls, fields)
        }
    }

    /// The number of fields that a record must have, as far as is known.
    pub open spec fn required_fields(self) -> Option<usize> {
        match self.field_count {
            FieldCount::Flexible => None,
            FieldCount::Exact(count) => Some(count),
            FieldCount::MatchFirst => self.expected_fields,
        }
    }

    /// This state after a record with `actual` fields was accepted.
    pub open spec fn counted(self, actual: usize) -> Engine {
        if self.field_count == FieldCount::MatchFirst && self.expected_fields is None {
            Engine { expected_fields: Some(actual), ..self }
        } else {
            self
        }
    }

    /// A record that was read to its end, after its fields were counted.
    pub open spec fn settled(self, fields: Seq<Field>, next: int) -> Owned {
        let actual = fields.len() as usize;
        match self.required_fields() {
            Some(expected) => if expected != actual {
                Owned {
                    scan: Scan::Failed {
                        kind: ErrorKind::FieldCountMismatch { expected, actual },
                        at: next,
                        number: actual as int,
                    },
                    state: self,
                }
            } else {
                Owned { scan: Scan::Done { fields, next }, state: self.counted(actual) }
            },
            None => Owned { scan: Scan::Done { fields, next }, state: self.counted(actual) },
        }
    }

    /// The part of a record from `at` on that a prefix parser may look at.
    pub open spec fn resume_window(self, input: Seq<u8>, start: int, at: int) -> Option<Seq<u8>> {
        let end = crate::engine::grammar::least(
            input.len() as int,
            start + self.limits.max_record_bytes,
        );
        if at < end {
            Some(input.subrange(at, end))
        } else {
            None
        }
    }

    /// Read on from the quoted field at `at`: quoted fields by the prefix
    /// parser, the rest plainly, in turn.
    pub open spec fn resume(self, input: Seq<u8>, start: int, at: int, fields: Seq<Field>) -> Scan
        decreases input.len() - at,
    {
        match (self.quoted_prefix_parser, self.resume_window(input, start, at)) {
            (Some(parser), Some(window)) => match parser.reads(window, fields) {
                None => Scan::Paused { fields, at },
                Some(prefix) => if prefix.finished {
                    Scan::Done { fields: prefix.fields, next: at + prefix.at }
                } else {
                    match self.rules().read_plain(input, start, at + prefix.at, prefix.fields) {
                        Scan::Paused { fields: more, at: stop } => if at < stop <= input.len() {
                            self.resume(input, start, stop, more)
                        } else {
                            Scan::Paused { fields: more, at: stop }
                        },
                        scan => scan,
                    }
                },
            },
            _ => Scan::Paused { fields, at },
        }
    }

    /// What the parser of whole records makes of the record at `start`.
    pub open spec fn whole(self, input: Seq<u8>, start: int, fields: Seq<Field>) -> Scan {
        match self.owned_parser {
            None => Scan::Paused { fields, at: start },
            Some(parser) => match parser.reads(input.skip(start), fields) {
                Some(prefix) => Scan::Done { fields: prefix.fields, next: start + prefix.at },
                None => Scan::Paused { fields: Seq::empty(), at: start },
            },
        }
    }

    /// This state once a quoted field showed up after an unquoted one.
    pub open spec fn expecting(self, parser: Option<PrefixParser>) -> Engine {
        Engine { interior_quotes: INTERIOR_QUOTE_RUN, interior_prefix_parser: parser, ..self }
    }

    /// What the parser for records with a quoted field further on makes of the
    /// record at `start`.
    pub open spec fn interior(
        self,
        input: Seq<u8>,
        start: int,
        fields: Seq<Field>,
        header: bool,
    ) -> Owned {
        match self.interior_prefix_parser {
            None => Owned { scan: self.whole(input, start, fields), state: self },
            Some(parser) => match parser.reads(input.skip(start), fields) {
                None => Owned {
                    scan: Scan::Paused { fields: Seq::empty(), at: start },
                    state: self,
                },
                Some(prefix) => if prefix.finished {
                    Owned {
                        scan: Scan::Done { fields: prefix.fields, next: start + prefix.at },
                        state: self,
                    }
                } else {
                    match self.rules().read_plain(input, start, start + prefix.at, prefix.fields) {
                        Scan::Done { fields: more, next } => self.settled(
                            self.nulled(more, header),
                            next,
                        ),
                        Scan::Paused { fields: more, at } => {
                            let state = self.expecting(self.multi_quote_parser);
                            match state.resume(input, start, at, more) {
                                Scan::Done { fields: all, next } => state.settled(
                                    state.nulled(all, header),
                                    next,
                                ),
                                Scan::Paused { fields: some, at: stop } => Owned {
                                    scan: Scan::Paused {
                                        fields: state.nulled(some, header),
                                        at: stop,
                                    },
                                    state,
                                },
                                scan => Owned { scan, state },
                            }
                        },
                        scan => Owned { scan, state: self },
                    }
                },
            },
        }
    }

    /// What is made of fields and a quoted field after them, read plainly.
    pub open spec fn interrupted(
        self,
        input: Seq<u8>,
        start: int,
        plain: Scan,
        header: bool,
        parser: Option<PrefixParser>,
    ) -> Owned {
        match plain {
            Scan::Done { fields, next } => self.settled(self.nulled(fields, header), next),
            Scan::Paused { fields, at } => {
                let state = self.expecting(parser);
                Owned {
                    scan: state.resume(input, start, at, state.nulled(fields, header)),
                    state,
                }
            },
            scan => Owned { scan, state: self },
        }
    }

    /// What the predicted parser makes of the record at `start`.
    pub open spec fn predicted(
        self,
        input: Seq<u8>,
        start: int,
        fields: Seq<Field>,
        header: bool,
    ) -> Owned {
        let opens = input[start] == self.dialect.quote;
        if !self.plain_kernel {
            Owned { scan: Scan::Paused { fields, at: start }, state: self }
        } else if self.syntax.quoting_enabled() && (opens || self.interior_quotes != 0) {
            let state = Engine {
                interior_quotes: self.interior_quotes.saturating_sub(1),
                ..self
            };
            if !opens {
                state.interior(input, start, fields, header)
            } else {
                match state.quoted_prefix_parser {
                    None => Owned { scan: state.whole(input, start, fields), state },
                    Some(parser) => match parser.reads(input.skip(start), fields) {
                        None => Owned {
                            scan: Scan::Paused { fields: Seq::empty(), at: start },
                            state,
                        },
                        Some(prefix) => if prefix.finished {
                            Owned {
                                scan: Scan::Done {
                                    fields: prefix.fields,
                                    next: start + prefix.at,
                                },
                                state,
                            }
                        } else {
                            state.interrupted(
                                input,
                                start,
                                state.rules().read_plain(
                                    input,
                                    start,
                                    start + prefix.at,
                                    prefix.fields,
                                ),
                                header,
                                state.multi_quote_parser,
                            )
                        },
                    },
                }
            }
        } else {
            self.interrupted(
                input,
                start,
                self.rules().read_plain(input, start, start, fields),
                header,
                self.interior_handoff_parser,
            )
        }
    }

    /// The record at `start`: what the predicted parser makes of it, and the
    /// field-by-field reading of what that leaves over.
    pub open spec fn owned(
        self,
        input: Seq<u8>,
        start: int,
        fields: Seq<Field>,
        header: bool,
    ) -> Owned {
        let head = self.predicted(input, start, fields, header);
        match head.scan {
            Scan::Paused { fields: some, at } => {
                match self.rules().read_fields(input, start, at, some, self.nulls_for(header)) {
                    Scan::Done { fields: all, next } => head.state.settled(all, next),
                    scan => Owned { scan, state: head.state },
                }
            },
            _ => head,
        }
    }

    fn record_window_end(&self, input: &[u8], record_start: usize) -> (end: usize)
        ensures
            end == self.rules().record_window(input@, record_start as int),
    {
        let bound: usize = record_start.saturating_add(
            self.limits.max_record_bytes.saturating_add(1),
        );
        if input.len() < bound {
            input.len()
        } else {
            bound
        }
    }

    /// One past the last byte that is looked at in a field.
    pub fn scan_end(&self, input: &[u8], record_start: usize, field_start: usize) -> (end: usize)
        ensures
            end == self.rules().field_window(input@, record_start as int, field_start as int),
    {
        let record_end: usize = self.record_window_end(input, record_start);
        let bound: usize = field_start.saturating_add(
            self.limits.max_field_bytes.saturating_add(1),
        );
        if record_end < bound {
            record_end
        } else {
            bound
        }
    }

    /// Fail when a field's window ended because of a limit.
    pub fn check_scan_end_for(
        &self,
        input: &[u8],
        scan_end: usize,
        record_start: usize,
        field_start: usize,
        field: usize,
    ) -> (result: Result<(), Error>)
        requires
            record_start <= scan_end,
        ensures
            match self.rules().window_failure(
                record_start as int,
                field_start as int,
                scan_end as int,
            ) {
                Some(kind) => result matches Err(error) && reports(
                    error,
                    self.record,
                    input@,
                    kind,
                    scan_end as int,
                    field as int,
                ),
                None => result is Ok,
            },
    {
        if scan_end > field_start && scan_end - field_start > self.limits.max_field_bytes {
            return Err(
                self.error_for(
                    input,
                    ErrorKind::FieldTooLarge { limit: self.limits.max_field_bytes },
                    scan_end,
                    field,
                ),
            );
        }
        if scan_end - record_start > self.limits.max_record_bytes {
            return Err(
                self.error_for(
                    input,
                    ErrorKind::RecordTooLarge { limit: self.limits.max_record_bytes },
                    scan_end,
                    field,
                ),
            );
        }
        Ok(())
    }

    /// Fail when a record that ends at `end` is too long.
    pub fn check_record_limit_for(
        &self,
        input: &[u8],
        record_start: usize,
        end: usize,
        field: usize,
    ) -> (result: Result<(), Error>)
        requires
            record_start <= end,
        ensures
            result is Ok == (end - record_start <= self.limits.max_record_bytes),
            result matches Err(error) ==> reports(
                error,
                self.record,
                input@,
                ErrorKind::RecordTooLarge { limit: self.limits.max_record_bytes },
                end as int,
                field as int,
            ),
    {
        if end - record_start > self.limits.max_record_bytes {
            return Err(
                self.error_for(
                    input,
                    ErrorKind::RecordTooLarge { limit: self.limits.max_record_bytes },
                    end,
                    field,
                ),
            );
        }
        Ok(())
    }

    /// Fail when a record has another number of fields than required.
    pub fn validate_field_count(&mut self, input: &[u8], actual: usize) -> (result: Result<(), Error>)
        ensures
            match old(self).required_fields() {
                Some(expected) => if expected != actual {
                    &&& *final(self) == *old(self)
                    &&& result matches Err(error) && reports(
                        error,
                        old(self).record,
                        input@,
                        ErrorKind::FieldCountMismatch { expected, actual },
                        old(self).location as int,
                        actual as int,
                    )
                } else {
                    result is Ok && *final(self) == old(self).counted(actual)
                },
                None => result is Ok && *final(self) == old(self).counted(actual),
            },
    {
        let required = match self.field_count {
            FieldCount::Flexible => None,
            FieldCount::Exact(count) => Some(count),
            FieldCount::MatchFirst => self.expected_fields,
        };
        if let Some(expected) = required {
            if expected != actual {
                return Err(
                    self.error_for(
                        input,
                        ErrorKind::FieldCountMismatch { expected, actual },
                        self.location,
                        actual,
                    ),
                );
            }
        }
        if self.field_count == FieldCount::MatchFirst && self.expected_fields.is_none() {
            self.expected_fields = Some(actual);
        }
        Ok(())
    }

    fn push_refusal(&self, count: usize, len: usize) -> (refusal: Option<ErrorKind>)
        ensures
            refusal == self.rules().push_failure(count as int, len as int),
    {
        if count == self.limits.max_fields {
            Some(ErrorKind::TooManyFields { limit: self.limits.max_fields })
        } else if len > self.limits.max_field_bytes {
            Some(ErrorKind::FieldTooLarge { limit: self.limits.max_field_bytes })
        } else {
            None
        }
    }

    /// Store the field `input[from..to]`, whose end shows at `at`.
    pub fn push_owned_field(
        &self,
        input: &[u8],
        output: &mut RecordStorage,
        from: usize,
        to: usize,
        at: usize,
    ) -> (result: Result<(), Error>)
        requires
            from <= to <= input.len(),
            old(output).wf(),
            old(output).open_bytes() == Seq::<u8>::empty(),
        ensures
            final(output).wf(),
            final(output).open_bytes() == Seq::<u8>::empty(),
            match self.rules().push_failure(old(output).fields().len() as int, to - from) {
                None => result is Ok && final(output).fields() == old(output).fields().push(
                    text(input@.subrange(from as int, to as int)),
                ),
                Some(kind) => {
                    &&& *final(output) == *old(output)
                    &&& result matches Err(error) && reports(
                        error,
                        self.record,
                        input@,
                        kind,
                        at as int,
                        old(output).fields().len() as int,
                    )
                },
            },
    {
        if let Some(kind) = self.push_refusal(output.len(), to - from) {
            return Err(self.error_for(input, kind, at, output.len()));
        }
        output.append_field_range(input, from, to);
        Ok(())
    }

    /// [`Engine::push_owned_field`] for short fields, copied byte by byte.
    pub fn push_owned_short_field(
        &self,
        input: &[u8],
        output: &mut RecordStorage,
        from: usize,
        to: usize,
        at: usize,
    ) -> (result: Result<(), Error>)
        requires
            from <= to <= input.len(),
            old(output).wf(),
            old(output).open_bytes() == Seq::<u8>::empty(),
        ensures
            final(output).wf(),
            final(output).open_bytes() == Seq::<u8>::empty(),
            match self.rules().push_failure(old(output).fields().len() as int, to - from) {
                None => result is Ok && final(output).fields() == old(output).fields().push(
                    text(input@.subrange(from as int, to as int)),
                ),
                Some(kind) => {
                    &&& *final(output) == *old(output)
                    &&& result matches Err(error) && reports(
                        error,
                        self.record,
                        input@,
                        kind,
                        at as int,
                        old(output).fields().len() as int,
                    )
                },
            },
    {
        if let Some(kind) = self.push_refusal(output.len(), to - from) {
            return Err(self.error_for(input, kind, at, output.len()));
        }
        let mut copied: usize = from;
        while copied < to
            invariant
                from <= copied <= to <= input.len(),
                output.wf(),
                output.fields() == old(output).fields(),
                output.open_bytes() =~= input@.subrange(from as int, copied as int),
            decreases to - copied,
        {
            output.push_byte(input[copied]);
            copied += 1;
        }
        output.finish_field();
        Ok(())
    }

    /// Store the field `input[from..to]` in one of two ways.
    pub fn push_structural_owned_field<const SHORT: bool>(
        &self,
        input: &[u8],
        output: &mut RecordStorage,
        from: usize,
        to: usize,
        at: usize,
    ) -> (result: Result<(), Error>)
        requires
            from <= to <= input.len(),
            old(output).wf(),
            old(output).open_bytes() == Seq::<u8>::empty(),
        ensures
            final(output).wf(),
            final(output).open_bytes() == Seq::<u8>::empty(),
            match self.rules().push_failure(old(output).fields().len() as int, to - from) {
                None => result is Ok && final(output).fields() == old(output).fields().push(
                    text(input@.subrange(from as int, to as int)),
                ),
                Some(kind) => {
                    &&& *final(output) == *old(output)
                    &&& result matches Err(error) && reports(
                        error,
                        self.record,
                        input@,
                        kind,
                        at as int,
                        old(output).fields().len() as int,
                    )
                },
            },
    {
        if SHORT {
            self.push_owned_short_field(input, output, from, to, at)
        } else {
            self.push_owned_field(input, output, from, to, at)
        }
    }

    /// Apply the NULL policy to every field of a record that is no header.
    pub fn mark_owned_nulls(&self, output: &mut RecordStorage, header: bool)
        requires
            old(output).wf(),
        ensures
            final(output).wf(),
            final(output).fields() == self.nulled(old(output).fields(), header),
            final(output).open_bytes() == old(output).open_bytes(),
            final(output).spec_null_aware() == (old(output).spec_null_aware() || (!header
                && self.nulls != Nulls::Disabled)),
    {
        if header {
            return;
        }
        if self.nulls != Nulls::Disabled {
            output.mark_null_fields(self.nulls);
        }
    }

    /// Store the unquoted field `input[from..to]` under a NULL policy.
    pub fn push_owned_unquoted(
        &self,
        input: &[u8],
        output: &mut RecordStorage,
        from: usize,
        to: usize,
        at: usize,
        nulls: Nulls,
    ) -> (result: Result<(), Error>)
        requires
            from <= to <= input.len(),
            old(output).wf(),
            old(output).open_bytes() == Seq::<u8>::empty(),
        ensures
            final(output).wf(),
            final(output).open_bytes() == Seq::<u8>::empty(),
            match self.rules().unquoted_failure(
                nulls,
                old(output).fields().len() as int,
                input@.subrange(from as int, to as int),
            ) {
                None => result is Ok && final(output).fields() == old(output).fields().push(
                    unquoted(nulls, input@.subrange(from as int, to as int)),
                ),
                Some(kind) => {
                    &&& *final(output) == *old(output)
                    &&& result matches Err(error) && reports(
                        error,
                        self.record,
                        input@,
                        kind,
                        at as int,
                        old(output).fields().len() as int,
                    )
                },
            },
    {
        if raw_field_is_null(nulls, input, from, to) {
            if let Some(kind) = self.push_refusal(output.len(), 0) {
                return Err(self.error_for(input, kind, at, output.len()));
            }
            output.append_null_field();
            return Ok(());
        }
        self.push_owned_field(input, output, from, to, at)
    }

    fn unquoted_stop(&self, input: &[u8], from: usize, to: usize) -> (at: usize)
        requires
            from <= to <= input.len(),
        ensures
            at == first_of(input@, from as int, to as int, self.rules().unquoted_stops()),
            from <= at <= to,
            at < to ==> self.rules().unquoted_stops()(input@[at as int]),
    {
        proof {
            lemma_first_of(input@, from as int, to as int, self.rules().unquoted_stops());
        }
        if self.syntax.quoting_enabled() && !self.syntax.permits_unquoted_quotes() {
            find3_near(
                self.dialect.delimiter,
                self.dialect.quote,
                self.dialect.record_ending.byte(),
                input,
                from,
                to,
            )
        } else {
            find2_near(
                self.dialect.delimiter,
                self.dialect.record_ending.byte(),
                input,
                from,
                to,
            )
        }
    }

    fn unquoted_field_end(&self, input: &[u8], from: usize, at: usize) -> (end: usize)
        requires
            from <= at < input.len(),
        ensures
            end == self.rules().unquoted_end(input@, from as int, at as int),
            from <= end <= at,
    {
        if input[at] == self.dialect.record_ending.byte() && self.dialect.record_ending
            == RecordEnding::Newline && at > from && input[at - 1] == CR {
            at - 1
        } else {
            at
        }
    }

    /// Read the unquoted field at the current location.
    ///
    /// Answers whether the record ended with it.
    pub fn parse_owned_unquoted_field(
        &mut self,
        input: &[u8],
        output: &mut RecordStorage,
        record_start: usize,
        header: bool,
    ) -> (result: Result<bool, Error>)
        requires
            record_start <= old(self).location <= input.len(),
            old(output).wf(),
            old(output).open_bytes() == Seq::<u8>::empty(),
        ensures
            *final(self) == old(self).moved(final(self).location),
            stepped(
                old(self).rules().unquoted_step(
                    input@,
                    record_start as int,
                    old(self).location as int,
                    old(output).fields().len() as int,
                    old(self).nulls_for(header),
                ),
                result,
                old(self).record,
                input@,
                final(self).location,
                old(output).fields(),
                *final(output),
            ),
            result is Err ==> stands(
                final(self).location,
                *final(output),
                step_standing(
                    old(self).rules().unquoted_step(
                        input@,
                        record_start as int,
                        old(self).location as int,
                        old(output).fields().len() as int,
                        old(self).nulls_for(header),
                    ),
                    old(self).rules().unquoted_content(
                        input@,
                        record_start as int,
                        old(self).location as int,
                        old(self).nulls_for(header),
                    ),
                    old(self).location as int,
                    old(output).fields(),
                ),
            ),
    {
        proof {
            lemma_keeps_push(output.fields());
        }
        let nulls = if header {
            Nulls::Disabled
        } else {
            self.nulls
        };
        let field_start: usize = self.location;
        let scan_end: usize = self.scan_end(input, record_start, field_start);
        let at: usize = if field_start < scan_end {
            self.unquoted_stop(input, field_start, scan_end)
        } else {
            scan_end
        };
        if at == scan_end {
            if let Err(error) = self.check_scan_end_for(
                input,
                scan_end,
                record_start,
                field_start,
                output.len(),
            ) {
                return Err(error);
            }
            if let Err(error) = self.push_owned_unquoted(
                input,
                output,
                field_start,
                scan_end,
                scan_end,
                nulls,
            ) {
                return Err(error);
            }
            self.location = scan_end;
            return Ok(true);
        }
        let byte: u8 = input[at];
        if byte == self.dialect.quote {
            return Err(self.error_for(input, ErrorKind::UnexpectedQuote, at, output.len()));
        }
        let field_end: usize = self.unquoted_field_end(input, field_start, at);
        if let Err(error) = self.push_owned_unquoted(
            input,
            output,
            field_start,
            field_end,
            at,
            nulls,
        ) {
            return Err(error);
        }
        self.location = at + 1;
        if let Err(error) = self.check_record_limit_for(
            input,
            record_start,
            self.location,
            output.len(),
        ) {
            return Err(error);
        }
        Ok(byte == self.dialect.record_ending.byte())
    }

    pub fn skip_compatible_post_quote_whitespace(&self, input: &[u8], after_quote: usize) -> (after:
        usize)
        requires
            after_quote <= input.len(),
        ensures
            after == self.rules().skip_padding(input@, after_quote as int),
            after_quote <= after <= input.len(),
    {
        let mut after: usize = after_quote;
        while after < input.len() && self.syntax.permits_post_quote_whitespace() && (input[after]
            == SPACE || input[after] == TAB) && input[after] != self.dialect.delimiter
            && input[after] != self.dialect.record_ending.byte()
            invariant
                after_quote <= after <= input.len(),
                self.rules().skip_padding(input@, after_quote as int)
                    == self.rules().skip_padding(input@, after as int),
            decreases input.len() - after,
        {
            after += 1;
        }
        after
    }

    /// Read what follows the closing quote of the last of `field_count` fields.
    pub fn finish_owned_quoted_field(
        &mut self,
        input: &[u8],
        field_count: usize,
        record_start: usize,
        after_quote: usize,
    ) -> (result: Result<bool, Error>)
        requires
            record_start <= after_quote <= input.len(),
        ensures
            *final(self) == old(self).moved(final(self).location),
            forall|field: Field|
                match #[trigger] old(self).rules().finish_quoted(
                    input@,
                    record_start as int,
                    after_quote as int,
                    field_count as int,
                    field,
                ) {
                    Step::Read { field: same, next, last } => {
                        &&& same == field
                        &&& result matches Ok(done) && done == last
                        &&& final(self).location == next
                        &&& next <= input.len()
                    },
                    Step::Broken { kind, at, number } => {
                        &&& result matches Err(error) && reports(
                            error,
                            old(self).record,
                            input@,
                            kind,
                            at,
                            number,
                        )
                        &&& final(self).location == (if kind is RecordTooLarge {
                            at
                        } else {
                            old(self).location as int
                        })
                    },
                },
    {
        let after: usize = self.skip_compatible_post_quote_whitespace(input, after_quote);
        if after >= input.len() {
            self.location = after;
            if let Err(error) = self.check_record_limit_for(
                input,
                record_start,
                self.location,
                field_count,
            ) {
                return Err(error);
            }
            return Ok(true);
        }
        let next: u8 = input[after];
        if next == self.dialect.delimiter {
            self.location = after + 1;
            return Ok(false);
        }
        if next == self.dialect.record_ending.byte() {
            self.location = after + 1;
            if let Err(error) = self.check_record_limit_for(
                input,
                record_start,
                self.location,
                field_count,
            ) {
                return Err(error);
            }
            return Ok(true);
        }
        if self.dialect.record_ending == RecordEnding::Newline && next == CR && after + 1
            < input.len() && input[after + 1] == LF {
            self.location = after + 2;
            if let Err(error) = self.check_record_limit_for(
                input,
                record_start,
                self.location,
                field_count,
            ) {
                return Err(error);
            }
            return Ok(true);
        }
        Err(self.error_for(input, ErrorKind::UnexpectedByteAfterQuote(next), after, field_count))
    }

    /// The error of a quoted field whose window ended first.
    fn unclosed_error(
        &self,
        input: &[u8],
        scan_end: usize,
        record_start: usize,
        content_start: usize,
        field: usize,
    ) -> (error: Error)
        requires
            record_start <= scan_end,
        ensures
            match self.rules().unclosed(
                record_start as int,
                content_start as int,
                scan_end as int,
            ) {
                Body::Broken { kind, at } => reports(
                    error,
                    self.record,
                    input@,
                    kind,
                    at,
                    field as int,
                ),
                Body::Closed { .. } => false,
            },
    {
        let kind = if scan_end > content_start && scan_end - content_start
            > self.limits.max_field_bytes {
            ErrorKind::FieldTooLarge { limit: self.limits.max_field_bytes }
        } else if scan_end - record_start > self.limits.max_record_bytes {
            ErrorKind::RecordTooLarge { limit: self.limits.max_record_bytes }
        } else {
            ErrorKind::UnterminatedQuotedField
        };
        self.error_for(input, kind, scan_end, field)
    }

    /// Read the quoted field whose opening quote is at the current location, up
    /// to its closing quote.
    ///
    /// Answers the position after the closing quote.
    pub fn parse_owned_quoted_body(
        &self,
        input: &[u8],
        output: &mut RecordStorage,
        record_start: usize,
    ) -> (result: Result<usize, Error>)
        requires
            record_start <= self.location < input.len(),
            self.dialect.escape.unquoted_byte() is None,
            old(output).wf(),
            old(output).open_bytes() == Seq::<u8>::empty(),
        ensures
            final(output).wf(),
            ({
                let count = old(output).fields().len() as int;
                let p = self.location as int;
                &&& result is Err ==> final(output).fields() == old(output).fields()
                &&& if count == self.limits.max_fields {
                    result matches Err(error) && reports(
                        error,
                        self.record,
                        input@,
                        ErrorKind::TooManyFields { limit: self.limits.max_fields },
                        p,
                        count,
                    )
                } else {
                    match self.rules().quoted_body(
                        input@,
                        record_start as int,
                        p + 1,
                        p + 1,
                        Seq::empty(),
                    ) {
                        Body::Broken { kind, at } => result matches Err(error) && reports(
                            error,
                            self.record,
                            input@,
                            kind,
                            at,
                            count,
                        ),
                        Body::Closed { bytes, after } => {
                            &&& result == Ok::<usize, Error>(after as usize)
                            &&& p < after <= input.len()
                            &&& final(output).fields() == old(output).fields().push(text(bytes))
                            &&& final(output).open_bytes() == Seq::<u8>::empty()
                        },
                    }
                }
            }),
    {
        if output.len() == self.limits.max_fields {
            return Err(
                self.error_for(
                    input,
                    ErrorKind::TooManyFields { limit: self.limits.max_fields },
                    self.location,
                    output.len(),
                ),
            );
        }
        let content_start: usize = self.location + 1;
        let mut cursor: usize = content_start;
        let scan_end: usize = self.scan_end(input, record_start, content_start);
        proof {
            assert(record_start <= scan_end);
        }
        let ghost rules = self.rules();
        let ghost whole = rules.quoted_body(
            input@,
            record_start as int,
            content_start as int,
            content_start as int,
            Seq::empty(),
        );
        loop
            invariant
                rules == self.rules(),
                record_start <= self.location < input@.len(),
                self.dialect.escape.unquoted_byte() is None,
                content_start == self.location + 1,
                content_start <= cursor <= input@.len(),
                record_start <= scan_end <= input@.len(),
                scan_end == rules.field_window(input@, record_start as int, content_start as int),
                output.wf(),
                output.fields() == old(output).fields(),
                output.fields().len() != self.limits.max_fields,
                whole == rules.quoted_body(
                    input@,
                    record_start as int,
                    content_start as int,
                    content_start as int,
                    Seq::empty(),
                ),
                whole == rules.quoted_body(
                    input@,
                    record_start as int,
                    content_start as int,
                    cursor as int,
                    output.open_bytes(),
                ),
            decreases input@.len() - cursor,
        {
            if cursor >= scan_end {
                return Err(
                    self.unclosed_error(input, scan_end, record_start, content_start, output.len()),
                );
            }
            let at: usize = match self.dialect.escape {
                Escape::Backslash(escape) => find2_near(
                    self.dialect.quote,
                    escape,
                    input,
                    cursor,
                    scan_end,
                ),
                _ => find1_near(self.dialect.quote, input, cursor, scan_end),
            };
            proof {
                lemma_first_of(input@, cursor as int, scan_end as int, rules.quoted_stops());
            }
            if at == scan_end {
                return Err(
                    self.unclosed_error(input, scan_end, record_start, content_start, output.len()),
                );
            }
            match self.dialect.escape {
                Escape::Backslash(escape) => {
                    if input[at] == escape {
                        if at + 1 >= input.len() {
                            return Err(
                                self.error_for(
                                    input,
                                    ErrorKind::InvalidEscape(escape),
                                    at,
                                    output.len(),
                                ),
                            );
                        }
                        let escaped: u8 = input[at + 1];
                        if escaped != self.dialect.quote && escaped != escape
                            && !self.syntax.permits_any_backslash_escape() {
                            return Err(
                                self.error_for(
                                    input,
                                    ErrorKind::InvalidEscape(escaped),
                                    at + 1,
                                    output.len(),
                                ),
                            );
                        }
                        output.append_segment(input, cursor, at);
                        output.push_byte(escaped);
                        cursor = at + 2;
                        continue;
                    }
                },
                _ => {
                    if at + 1 < input.len() && input[at + 1] == self.dialect.quote {
                        output.append_segment(input, cursor, at);
                        output.push_byte(self.dialect.quote);
                        cursor = at + 2;
                        continue;
                    }
                },
            }
            output.append_segment(input, cursor, at);
            output.finish_field();
            return Ok(at + 1);
        }
    }
    /// Read the quoted field whose opening quote is at the current location.
    ///
    /// Answers whether the record ended with it.
    pub fn parse_owned_quoted_field(
        &mut self,
        input: &[u8],
        output: &mut RecordStorage,
        record_start: usize,
    ) -> (result: Result<bool, Error>)
        requires
            record_start <= old(self).location < input.len(),
            old(self).dialect.escape.unquoted_byte() is None,
            old(output).wf(),
            old(output).open_bytes() == Seq::<u8>::empty(),
        ensures
            *final(self) == old(self).moved(final(self).location),
            stepped(
                old(self).rules().quoted_step(
                    input@,
                    record_start as int,
                    old(self).location as int,
                    old(output).fields().len() as int,
                ),
                result,
                old(self).record,
                input@,
                final(self).location,
                old(output).fields(),
                *final(output),
            ),
            result is Err ==> stands(
                final(self).location,
                *final(output),
                step_standing(
                    old(self).rules().quoted_step(
                        input@,
                        record_start as int,
                        old(self).location as int,
                        old(output).fields().len() as int,
                    ),
                    old(self).rules().quoted_content(
                        input@,
                        record_start as int,
                        old(self).location as int,
                    ),
                    old(self).location as int,
                    old(output).fields(),
                ),
            ),
    {
        proof {
            lemma_keeps_push(output.fields());
        }
        match self.parse_owned_quoted_body(input, output, record_start) {
            Err(error) => Err(error),
            Ok(after) => self.finish_owned_quoted_field(input, output.len(), record_start, after),
        }
    }
}

impl Engine {
    /// Skip the spaces before a field.
    pub fn skip_delimiter_spaces(&mut self, input: &[u8], record_start: usize) -> (result: Result<
        (),
        Error,
    >)
        requires
            record_start <= old(self).location <= input.len(),
        ensures
            ({
                let at = old(self).rules().skip_spaces(
                    input@,
                    record_start as int,
                    old(self).location as int,
                );
                let limit = old(self).limits.max_record_bytes;
                &&& *final(self) == old(self).moved(at as usize)
                &&& final(self).location == at
                &&& old(self).location <= at <= input.len()
                &&& result is Ok == !(old(self).skip_initial_space && at - record_start > limit)
                &&& result matches Err(error) ==> reports(
                    error,
                    old(self).record,
                    input@,
                    ErrorKind::RecordTooLarge { limit },
                    at,
                    0,
                )
            }),
    {
        if !self.skip_initial_space {
            return Ok(());
        }
        let end: usize = self.record_window_end(input, record_start);
        while self.location < end && input[self.location] == SPACE
            invariant
                *self == old(self).moved(self.location),
                old(self).location <= self.location <= input.len(),
                end == self.rules().record_window(input@, record_start as int),
                self.skip_initial_space,
                self.rules() == old(self).rules(),
                self.rules().skip_spaces(
                    input@,
                    record_start as int,
                    old(self).location as int,
                ) == self.rules().skip_spaces(input@, record_start as int, self.location as int),
            decreases end - self.location,
        {
            self.location = self.location + 1;
        }
        self.check_record_limit_for(input, record_start, self.location, 0)
    }

    /// Read unquoted fields from `resume` on.
    ///
    /// Answers whether the record ended; it did not when a field opens with a
    /// quote, which is then where the location is.
    pub fn try_parse_owned_plain_from_mode<const SHORT: bool>(
        &mut self,
        input: &[u8],
        output: &mut RecordStorage,
        record_start: usize,
        resume: usize,
    ) -> (result: Result<bool, Error>)
        requires
            record_start <= resume <= input.len(),
            old(output).wf(),
            old(output).open_bytes() == Seq::<u8>::empty(),
        ensures
            keeps(old(output).fields(), final(output).fields()),
            result is Ok ==> record_start <= final(self).location,
            *final(self) == old(self).moved(final(self).location),
            scanned(
                old(self).rules().read_plain(
                    input@,
                    record_start as int,
                    resume as int,
                    old(output).fields(),
                ),
                result,
                old(self).record,
                input@,
                final(self).location,
                *final(output),
            ),
            result is Err ==> stands(
                final(self).location,
                *final(output),
                old(self).rules().plain_standing(
                    input@,
                    record_start as int,
                    resume as int,
                    old(output).fields(),
                    old(self).location as int,
                ),
            ),
    {
        let scan_end: usize = self.record_window_end(input, record_start);
        let mut field_start: usize = resume;
        let ghost rules = self.rules();
        let ghost whole = rules.read_plain(
            input@,
            record_start as int,
            resume as int,
            old(output).fields(),
        );
        proof {
            lemma_keeps_push(output.fields());
        }
        loop
            invariant
                keeps(old(output).fields(), output.fields()),
                *self == *old(self),
                rules == self.rules(),
                record_start <= field_start <= input.len(),
                record_start <= scan_end <= input.len(),
                scan_end == rules.record_window(input@, record_start as int),
                output.wf(),
                output.open_bytes() == Seq::<u8>::empty(),
                whole == rules.read_plain(
                    input@,
                    record_start as int,
                    resume as int,
                    old(output).fields(),
                ),
                whole == rules.read_plain(
                    input@,
                    record_start as int,
                    field_start as int,
                    output.fields(),
                ),
                rules.plain_standing(
                    input@,
                    record_start as int,
                    resume as int,
                    old(output).fields(),
                    old(self).location as int,
                ) == rules.plain_standing(
                    input@,
                    record_start as int,
                    field_start as int,
                    output.fields(),
                    old(self).location as int,
                ),
            decreases input.len() - field_start,
        {
            proof {
                lemma_keeps_on(old(output).fields(), output.fields());
            }
            let quoting = self.syntax.quoting_enabled();
            let cursor: usize = if field_start >= scan_end {
                scan_end
            } else if quoting && input[field_start] == self.dialect.quote {
                field_start
            } else {
                self.unquoted_stop(input, field_start, scan_end)
            };
            proof {
                if field_start <= scan_end {
                    lemma_first_of(
                        input@,
                        field_start as int,
                        scan_end as int,
                        rules.plain_stops(),
                    );
                }
                assert(field_start <= scan_end ==> cursor == rules.plain_stop(
                    input@,
                    field_start as int,
                    scan_end as int,
                ));
            }
            if cursor >= scan_end {
                if scan_end < input.len() {
                    return Err(
                        self.error_for(
                            input,
                            ErrorKind::RecordTooLarge { limit: self.limits.max_record_bytes },
                            scan_end,
                            output.len(),
                        ),
                    );
                }
                if let Err(error) = self.push_structural_owned_field::<SHORT>(
                    input,
                    output,
                    field_start,
                    scan_end,
                    scan_end,
                ) {
                    return Err(error);
                }
                self.location = scan_end;
                if let Err(error) = self.check_record_limit_for(
                    input,
                    record_start,
                    self.location,
                    output.len(),
                ) {
                    return Err(error);
                }
                return Ok(true);
            }
            let byte: u8 = input[cursor];
            if byte == self.dialect.delimiter {
                if cursor == field_start {
                    let mut after_run: usize = cursor;
                    while after_run < input.len() && input[after_run] == self.dialect.delimiter
                        invariant
                            cursor <= after_run <= input.len(),
                            run_end(input@, cursor as int, self.dialect.delimiter) == run_end(
                                input@,
                                after_run as int,
                                self.dialect.delimiter,
                            ),
                        decreases input.len() - after_run,
                    {
                        after_run += 1;
                    }
                    proof {
                        lemma_run_end(input@, cursor as int, self.dialect.delimiter);
                        assert(run_end(input@, cursor as int, self.dialect.delimiter) > cursor);
                    }
                    let count: usize = after_run - cursor;
                    let available: usize = self.limits.max_fields.saturating_sub(output.len());
                    if count > available {
                        return Err(
                            self.error_for(
                                input,
                                ErrorKind::TooManyFields { limit: self.limits.max_fields },
                                cursor + available,
                                self.limits.max_fields,
                            ),
                        );
                    }
                    output.append_empty_fields(count);
                    field_start = after_run;
                } else {
                    if let Err(error) = self.push_structural_owned_field::<SHORT>(
                        input,
                        output,
                        field_start,
                        cursor,
                        cursor,
                    ) {
                        return Err(error);
                    }
                    field_start = cursor + 1;
                }
            } else if byte == self.dialect.quote && quoting && (cursor == field_start
                || !self.syntax.permits_unquoted_quotes()) {
                if cursor != field_start {
                    return Err(
                        self.error_for(input, ErrorKind::UnexpectedQuote, cursor, output.len()),
                    );
                }
                self.location = cursor;
                return Ok(false);
            } else {
                let field_end: usize = self.unquoted_field_end(input, field_start, cursor);
                if let Err(error) = self.push_structural_owned_field::<SHORT>(
                    input,
                    output,
                    field_start,
                    field_end,
                    cursor,
                ) {
                    return Err(error);
                }
                self.location = cursor + 1;
                if let Err(error) = self.check_record_limit_for(
                    input,
                    record_start,
                    self.location,
                    output.len(),
                ) {
                    return Err(error);
                }
                return Ok(true);
            }
        }
    }

    /// [`Engine::try_parse_owned_plain_from_mode`] with fields copied at once.
    pub fn try_parse_owned_plain_from(
        &mut self,
        input: &[u8],
        output: &mut RecordStorage,
        record_start: usize,
        resume: usize,
    ) -> (result: Result<bool, Error>)
        requires
            record_start <= resume <= input.len(),
            old(output).wf(),
            old(output).open_bytes() == Seq::<u8>::empty(),
        ensures
            keeps(old(output).fields(), final(output).fields()),
            result is Ok ==> record_start <= final(self).location,
            *final(self) == old(self).moved(final(self).location),
            scanned(
                old(self).rules().read_plain(
                    input@,
                    record_start as int,
                    resume as int,
                    old(output).fields(),
                ),
                result,
                old(self).record,
                input@,
                final(self).location,
                *final(output),
            ),
            result is Err ==> stands(
                final(self).location,
                *final(output),
                old(self).rules().plain_standing(
                    input@,
                    record_start as int,
                    resume as int,
                    old(output).fields(),
                    old(self).location as int,
                ),
            ),
    {
        self.try_parse_owned_plain_from_mode::<false>(input, output, record_start, resume)
    }

    /// Read unquoted fields from the start of a record on.
    pub fn try_parse_owned_plain(
        &mut self,
        input: &[u8],
        output: &mut RecordStorage,
        record_start: usize,
    ) -> (result: Result<bool, Error>)
        requires
            record_start <= input.len(),
            old(output).wf(),
            old(output).open_bytes() == Seq::<u8>::empty(),
        ensures
            keeps(old(output).fields(), final(output).fields()),
            result is Ok ==> record_start <= final(self).location,
            *final(self) == old(self).moved(final(self).location),
            scanned(
                old(self).rules().read_plain(
                    input@,
                    record_start as int,
                    record_start as int,
                    old(output).fields(),
                ),
                result,
                old(self).record,
                input@,
                final(self).location,
                *final(output),
            ),
            result is Err ==> stands(
                final(self).location,
                *final(output),
                old(self).rules().plain_standing(
                    input@,
                    record_start as int,
                    record_start as int,
                    old(output).fields(),
                    old(self).location as int,
                ),
            ),
    {
        if use_short_owned_fields(output.field_capacity()) {
            self.try_parse_owned_plain_from_mode::<true>(
                input,
                output,
                record_start,
                record_start,
            )
        } else {
            self.try_parse_owned_plain_from(input, output, record_start, record_start)
        }
    }
}

impl Engine {
    /// The part of a record from the current location on that a prefix parser
    /// may look at, if there is any.
    pub fn owned_resume_window<'a>(&self, input: &'a [u8], record_start: usize) -> (window: Option<
        &'a [u8],
    >)
        ensures
            window is Some == self.resume_window(
                input@,
                record_start as int,
                self.location as int,
            ) is Some,
            window matches Some(bytes) ==> self.resume_window(
                input@,
                record_start as int,
                self.location as int,
            ) == Some(bytes@),
    {
        let bound: usize = record_start.saturating_add(self.limits.max_record_bytes);
        let end: usize = if input.len() < bound {
            input.len()
        } else {
            bound
        };
        if self.location < end {
            Some(&input[self.location..end])
        } else {
            None
        }
    }

    /// Read on from the quoted field at the current location, by turns with the
    /// prefix parser and plainly.
    ///
    /// Answers whether the record ended. Where it did not, the output holds the
    /// fields before the location, and nothing of a field that was not settled.
    pub fn resume_owned_after_interior_quote(
        &mut self,
        input: &[u8],
        output: &mut RecordStorage,
        record_start: usize,
    ) -> (result: Result<bool, Error>)
        requires
            record_start <= old(self).location,
            old(output).wf(),
            old(output).open_bytes() == Seq::<u8>::empty(),
        ensures
            keeps(old(output).fields(), final(output).fields()),
            result is Ok ==> record_start <= final(self).location,
            *final(self) == old(self).moved(final(self).location),
            old(self).location > input.len() ==> result == Ok::<bool, Error>(false) && *final(self)
                == *old(self) && *final(output) == *old(output),
            old(self).location <= input.len() ==> scanned(
                old(self).resume(
                    input@,
                    record_start as int,
                    old(self).location as int,
                    old(output).fields(),
                ),
                result,
                old(self).record,
                input@,
                final(self).location,
                *final(output),
            ),
            result is Err ==> stands(
                final(self).location,
                *final(output),
                old(self).resume_standing(
                    input@,
                    record_start as int,
                    old(self).location as int,
                    old(output).fields(),
                ),
            ),
    {
        proof {
            lemma_keeps_push(output.fields());
        }
        if self.location > input.len() {
            return Ok(false);
        }
        let parser = match self.quoted_prefix_parser {
            Some(parser) => parser,
            None => {
                return Ok(false);
            },
        };
        let ghost whole = old(self).resume(
            input@,
            record_start as int,
            old(self).location as int,
            old(output).fields(),
        );
        loop
            invariant
                keeps(old(output).fields(), output.fields()),
                *self == old(self).moved(self.location),
                self.quoted_prefix_parser == Some(parser),
                record_start <= self.location <= input.len(),
                output.wf(),
                output.open_bytes() == Seq::<u8>::empty(),
                whole == old(self).resume(
                    input@,
                    record_start as int,
                    old(self).location as int,
                    old(output).fields(),
                ),
                whole == self.resume(
                    input@,
                    record_start as int,
                    self.location as int,
                    output.fields(),
                ),
                old(self).resume_standing(
                    input@,
                    record_start as int,
                    old(self).location as int,
                    old(output).fields(),
                ) == self.resume_standing(
                    input@,
                    record_start as int,
                    self.location as int,
                    output.fields(),
                ),
            decreases input.len() - self.location,
        {
            proof {
                lemma_keeps_on(old(output).fields(), output.fields());
            }
            let ghost engine = *self;
            let window = match self.owned_resume_window(input, record_start) {
                Some(window) => window,
                None => {
                    return Ok(false);
                },
            };
            let quote_start: usize = self.location;
            let settled_fields: usize = output.len();
            let ghost settled = output.fields();
            match parser.parse(window, output) {
                Some((consumed, finished)) => {
                    proof {
                        lemma_reads_bounded(parser, window@, settled);
                        lemma_keeps_on(old(output).fields(), output.fields());
                    }
                    self.location = quote_start + consumed;
                    if finished {
                        return Ok(true);
                    }
                    let ghost read = output.fields();
                    let resume: usize = self.location;
                    match self.try_parse_owned_plain_from(input, output, record_start, resume) {
                        Err(error) => {
                            return Err(error);
                        },
                        Ok(done) => {
                            proof {
                                assert(engine.rules() == self.rules());
                                lemma_plain_bounded(
                                    self.rules(),
                                    input@,
                                    record_start as int,
                                    resume as int,
                                    read,
                                );
                                lemma_resume_agrees(
                                    engine,
                                    *self,
                                    input@,
                                    record_start as int,
                                    self.location as int,
                                    output.fields(),
                                );
                            }
                            if done {
                                return Ok(true);
                            }
                            if self.location <= quote_start {
                                return Ok(false);
                            }
                        },
                    }
                },
                None => {
                    output.truncate_fields(settled_fields);
                    return Ok(false);
                },
            }
        }
    }
}

/// A prefix parser stops inside the bytes it was given.
pub proof fn lemma_reads_bounded(parser: PrefixParser, input: Seq<u8>, fields: Seq<Field>)
    ensures
        parser.reads(input, fields) matches Some(prefix) ==> 0 <= prefix.at <= input.len(),
{
    let named = default_csv(input.len() > Limits::standard().max_field_bytes);
    match parser {
        PrefixParser::Record => lemma_record_bounds(named, Named::window(input), 0, fields),
        PrefixParser::QuotedPrefix => lemma_quoted_prefix_bounds(
            named,
            Named::window(input),
            0,
            fields,
        ),
        PrefixParser::InteriorPrefix => lemma_interior_prefix_bounds(
            named,
            Named::window(input),
            0,
            fields,
        ),
    }
}

/// Plain reading pauses inside the input, not before it started.
pub proof fn lemma_plain_bounded(
    rules: Rules,
    input: Seq<u8>,
    start: int,
    p: int,
    fields: Seq<Field>,
)
    requires
        0 <= p <= input.len(),
    ensures
        rules.read_plain(input, start, p, fields) matches Scan::Paused { at, .. } ==> p <= at
            <= input.len(),
    decreases input.len() - p,
{
    let end = rules.record_window(input, start);
    let at = rules.plain_stop(input, p, end);
    let count = fields.len() as int;
    if p <= end {
        lemma_first_of(input, p, end, rules.plain_stops());
    }
    if p <= end && at < end && input[at] == rules.dialect.delimiter {
        if at == p {
            let after = run_end(input, at, rules.dialect.delimiter);
            lemma_run_end(input, at, rules.dialect.delimiter);
            if p < after {
                lemma_plain_bounded(rules, input, start, after, fields + empties((after - at) as nat));
            }
        } else {
            lemma_plain_bounded(
                rules,
                input,
                start,
                at + 1,
                fields.push(text(input.subrange(p, at))),
            );
        }
    }
}

/// How a parser reads on rests on its rules and its prefix parser alone.
pub proof fn lemma_resume_agrees(
    a: Engine,
    b: Engine,
    input: Seq<u8>,
    start: int,
    at: int,
    fields: Seq<Field>,
)
    requires
        a.rules() == b.rules(),
        a.quoted_prefix_parser == b.quoted_prefix_parser,
    ensures
        a.resume(input, start, at, fields) == b.resume(input, start, at, fields),
        a.resume_standing(input, start, at, fields) == b.resume_standing(input, start, at, fields),
    decreases input.len() - at,
{
    if let (Some(parser), Some(window)) = (
        a.quoted_prefix_parser,
        a.resume_window(input, start, at),
    ) {
        if let Some(prefix) = parser.reads(window, fields) {
            if let Scan::Paused { fields: more, at: stop } = a.rules().read_plain(
                input,
                start,
                at + prefix.at,
                prefix.fields,
            ) {
                if at < stop <= input.len() {
                    lemma_resume_agrees(a, b, input, start, stop, more);
                }
            }
        }
    }
}

/// A quoted field ends inside the input.
pub proof fn lemma_quoted_body_bounds(
    rules: Rules,
    input: Seq<u8>,
    start: int,
    content: int,
    cursor: int,
    decoded: Seq<u8>,
)
    ensures
        rules.quoted_body(input, start, content, cursor, decoded) matches Body::Closed {
            after,
            ..
        } ==> cursor < after <= input.len(),
    decreases input.len() - cursor,
{
    let end = rules.field_window(input, start, content);
    let at = first_of(input, cursor, end, rules.quoted_stops());
    if 0 <= cursor < end {
        lemma_first_of(input, cursor, end, rules.quoted_stops());
        if at < end && at + 1 < input.len() {
            let segment = decoded + input.subrange(cursor, at);
            lemma_quoted_body_bounds(
                rules,
                input,
                start,
                content,
                at + 2,
                segment.push(input[at + 1]),
            );
            lemma_quoted_body_bounds(
                rules,
                input,
                start,
                content,
                at + 2,
                segment.push(rules.dialect.quote),
            );
        }
    }
}

/// Padding is skipped forward, inside the input.
pub proof fn lemma_skip_padding(rules: Rules, input: Seq<u8>, after: int)
    requires
        0 <= after <= input.len(),
    ensures
        after <= rules.skip_padding(input, after) <= input.len(),
    decreases input.len() - after,
{
    if after < input.len() && rules.is_padding(input[after]) {
        lemma_skip_padding(rules, input, after + 1);
    }
}

/// Spaces are skipped forward, inside the input.
pub proof fn lemma_skip_spaces(rules: Rules, input: Seq<u8>, start: int, p: int)
    requires
        0 <= p <= input.len(),
    ensures
        p <= rules.skip_spaces(input, start, p) <= input.len(),
    decreases input.len() - p,
{
    if rules.skip_initial_space && p < rules.record_window(input, start) && input[p] == SPACE {
        lemma_skip_spaces(rules, input, start, p + 1);
    }
}

/// A field that does not end its record takes at least its delimiter.
pub proof fn lemma_field_step_bounds(
    rules: Rules,
    input: Seq<u8>,
    start: int,
    p: int,
    count: int,
    nulls: Nulls,
)
    requires
        0 <= start <= p <= input.len(),
    ensures
        rules.field_step(input, start, p, count, nulls) matches Step::Read { next, last, .. } ==> {
            &&& p <= next <= input.len()
            &&& !last ==> p < next
        },
{
    if rules.opens_quoted(input, p) {
        lemma_quoted_body_bounds(rules, input, start, p + 1, p + 1, Seq::empty());
        if let Body::Closed { bytes, after } = rules.quoted_body(
            input,
            start,
            p + 1,
            p + 1,
            Seq::empty(),
        ) {
            lemma_skip_padding(rules, input, after);
        }
    } else {
        let end = rules.field_window(input, start, p);
        if p <= end {
            lemma_first_of(input, p, end, rules.unquoted_stops());
        }
    }
}

impl Engine {
    /// Read the record at `record_start` with the parser for records with a
    /// quoted field further on.
    ///
    /// Answers whether the record ended; what is left over is read field by
    /// field from the location on.
    pub fn parse_owned_interior_prefix(
        &mut self,
        input: &[u8],
        output: &mut RecordStorage,
        record_start: usize,
        header: bool,
    ) -> (result: Result<bool, Error>)
        requires
            record_start == old(self).location <= input.len(),
            old(output).wf(),
            old(output).open_bytes() == Seq::<u8>::empty(),
        ensures
            result is Ok ==> record_start <= final(self).location,
            ({
                let owned = old(self).interior(
                    input@,
                    record_start as int,
                    old(output).fields(),
                    header,
                );
                &&& *final(self) == owned.state.moved(final(self).location)
                &&& scanned(
                    owned.scan,
                    result,
                    old(self).record,
                    input@,
                    final(self).location,
                    *final(output),
                )
            }),
            result is Err ==> stands(
                final(self).location,
                *final(output),
                old(self).interior_standing(
                    input@,
                    record_start as int,
                    old(output).fields(),
                    header,
                ),
            ),
    {
        let rest = &input[record_start..input.len()];
        proof {
            assert(rest@ =~= input@.skip(record_start as int));
        }
        let parser = match self.interior_prefix_parser {
            Some(parser) => parser,
            None => {
                return self.parse_owned_whole(input, output, record_start);
            },
        };
        let ghost before = output.fields();
        match parser.parse(rest, output) {
            None => {
                output.clear_fields();
                Ok(false)
            },
            Some((consumed, finished)) => {
                proof {
                    lemma_reads_bounded(parser, rest@, before);
                }
                self.location = record_start + consumed;
                if finished {
                    return Ok(true);
                }
                let resume: usize = self.location;
                let ghost read = output.fields();
                let plain = self.try_parse_owned_plain_from(input, output, record_start, resume);
                match plain {
                    Err(error) => Err(error),
                    Ok(true) => {
                        self.mark_owned_nulls(output, header);
                        match self.validate_field_count(input, output.len()) {
                            Ok(()) => Ok(true),
                            Err(error) => Err(error),
                        }
                    },
                    Ok(false) => {
                        proof {
                            lemma_plain_bounded(
                                self.rules(),
                                input@,
                                record_start as int,
                                resume as int,
                                read,
                            );
                            lemma_resume_agrees(
                                old(self).expecting(old(self).multi_quote_parser),
                                self.expecting(self.multi_quote_parser),
                                input@,
                                record_start as int,
                                self.location as int,
                                output.fields(),
                            );
                        }
                        self.interior_quotes = INTERIOR_QUOTE_RUN;
                        self.interior_prefix_parser = self.multi_quote_parser;
                        match self.resume_owned_after_interior_quote(input, output, record_start) {
                            Err(error) => Err(error),
                            Ok(true) => {
                                self.mark_owned_nulls(output, header);
                                match self.validate_field_count(input, output.len()) {
                                    Ok(()) => Ok(true),
                                    Err(error) => Err(error),
                                }
                            },
                            Ok(false) => {
                                self.mark_owned_nulls(output, header);
                                Ok(false)
                            },
                        }
                    },
                }
            },
        }
    }

    fn parse_owned_whole(
        &mut self,
        input: &[u8],
        output: &mut RecordStorage,
        record_start: usize,
    ) -> (result: Result<bool, Error>)
        requires
            record_start == old(self).location <= input.len(),
            old(output).wf(),
            old(output).open_bytes() == Seq::<u8>::empty(),
        ensures
            result is Ok ==> record_start <= final(self).location,
            *final(self) == old(self).moved(final(self).location),
            scanned(
                old(self).whole(input@, record_start as int, old(output).fields()),
                result,
                old(self).record,
                input@,
                final(self).location,
                *final(output),
            ),
    {
        let rest = &input[record_start..input.len()];
        let ghost before = output.fields();
        proof {
            assert(rest@ =~= input@.skip(record_start as int));
        }
        match self.owned_parser {
            None => Ok(false),
            Some(parser) => match parser.parse(rest, output) {
                Some(consumed) => {
                    proof {
                        let named = Named {
                            delimiter: parser.delimiter,
                            backslash: parser.backslash,
                            check: rest@.len() > Limits::standard().max_field_bytes,
                        };
                        lemma_record_bounds(named, Named::window(rest@), 0, before);
                    }
                    self.location = record_start + consumed;
                    Ok(true)
                },
                None => {
                    output.clear_fields();
                    Ok(false)
                },
            },
        }
    }

    /// Go on after a plain reading: settle the record, or read on from the
    /// quoted field that it stopped at.
    fn settle_plain(
        &mut self,
        input: &[u8],
        output: &mut RecordStorage,
        record_start: usize,
        header: bool,
        done: bool,
        parser: Option<PrefixParser>,
    ) -> (result: Result<bool, Error>)
        requires
            record_start <= old(self).location <= input.len(),
            old(output).wf(),
            old(output).open_bytes() == Seq::<u8>::empty(),
        ensures
            result is Ok ==> record_start <= final(self).location,
            ({
                let plain = if done {
                    Scan::Done { fields: old(output).fields(), next: old(self).location as int }
                } else {
                    Scan::Paused { fields: old(output).fields(), at: old(self).location as int }
                };
                let owned = old(self).interrupted(
                    input@,
                    record_start as int,
                    plain,
                    header,
                    parser,
                );
                &&& *final(self) == owned.state.moved(final(self).location)
                &&& scanned(
                    owned.scan,
                    result,
                    old(self).record,
                    input@,
                    final(self).location,
                    *final(output),
                )
            }),
            result is Err ==> stands(
                final(self).location,
                *final(output),
                old(self).interrupted_standing(
                    input@,
                    record_start as int,
                    if done {
                        Scan::Done { fields: old(output).fields(), next: old(self).location as int }
                    } else {
                        Scan::Paused { fields: old(output).fields(), at: old(self).location as int }
                    },
                    Standing { fields: Seq::empty(), location: 0 },
                    header,
                    parser,
                ),
            ),
    {
        self.mark_owned_nulls(output, header);
        if done {
            return match self.validate_field_count(input, output.len()) {
                Ok(()) => Ok(true),
                Err(error) => Err(error),
            };
        }
        self.interior_quotes = INTERIOR_QUOTE_RUN;
        self.interior_prefix_parser = parser;
        self.resume_owned_after_interior_quote(input, output, record_start)
    }

    /// Read the record at `record_start` with the predicted parser.
    #[verifier::rlimit(40)]
    #[verifier::spinoff_prover]
    fn parse_owned_predicted(
        &mut self,
        input: &[u8],
        output: &mut RecordStorage,
        record_start: usize,
        header: bool,
    ) -> (result: Result<bool, Error>)
        requires
            record_start == old(self).location < input.len(),
            old(output).wf(),
            old(output).open_bytes() == Seq::<u8>::empty(),
        ensures
            result is Ok ==> record_start <= final(self).location,
            ({
                let owned = old(self).predicted(
                    input@,
                    record_start as int,
                    old(output).fields(),
                    header,
                );
                &&& *final(self) == owned.state.moved(final(self).location)
                &&& scanned(
                    owned.scan,
                    result,
                    old(self).record,
                    input@,
                    final(self).location,
                    *final(output),
                )
            }),
            result is Err ==> stands(
                final(self).location,
                *final(output),
                old(self).predicted_standing(
                    input@,
                    record_start as int,
                    old(output).fields(),
                    header,
                ),
            ),
    {
        if !self.plain_kernel {
            return Ok(false);
        }
        let opens_quoted = input[record_start] == self.dialect.quote;
        if self.syntax.quoting_enabled() && (opens_quoted || self.interior_quotes != 0) {
            self.interior_quotes = self.interior_quotes.saturating_sub(1);
            if !opens_quoted {
                return self.parse_owned_interior_prefix(input, output, record_start, header);
            }
            let parser = match self.quoted_prefix_parser {
                Some(parser) => parser,
                None => {
                    return self.parse_owned_whole(input, output, record_start);
                },
            };
            let rest = &input[record_start..input.len()];
            let ghost before = output.fields();
            proof {
                assert(rest@ =~= input@.skip(record_start as int));
            }
            match parser.parse(rest, output) {
                None => {
                    output.clear_fields();
                    Ok(false)
                },
                Some((consumed, finished)) => {
                    proof {
                        lemma_reads_bounded(parser, rest@, before);
                    }
                    if finished {
                        self.location = record_start + consumed;
                        return Ok(true);
                    }
                    let resume: usize = record_start + consumed;
                    let multi = self.multi_quote_parser;
                    let ghost read = output.fields();
                    match self.try_parse_owned_plain_from(input, output, record_start, resume) {
                        Err(error) => Err(error),
                        Ok(done) => {
                            proof {
                                old(self).lemma_interrupted_agrees(
                                    *self,
                                    input@,
                                    record_start as int,
                                    output.fields(),
                                    header,
                                    multi,
                                );
                            }
                            self.settle_plain(input, output, record_start, header, done, multi)
                        },
                    }
                },
            }
        } else {
            let handoff = self.interior_handoff_parser;
            let ghost read = output.fields();
            match self.try_parse_owned_plain(input, output, record_start) {
                Err(error) => Err(error),
                Ok(done) => {
                    proof {
                        old(self).lemma_interrupted_agrees(
                            *self,
                            input@,
                            record_start as int,
                            output.fields(),
                            header,
                            handoff,
                        );
                    }
                    self.settle_plain(input, output, record_start, header, done, handoff)
                },
            }
        }
    }

    proof fn lemma_interrupted_agrees(
        self,
        other: Engine,
        input: Seq<u8>,
        start: int,
        fields: Seq<Field>,
        header: bool,
        parser: Option<PrefixParser>,
    )
        requires
            self.rules() == other.rules(),
            self.quoted_prefix_parser == other.quoted_prefix_parser,
        ensures
            self.expecting(parser).resume(
                input,
                start,
                other.location as int,
                self.expecting(parser).nulled(fields, header),
            ) == other.expecting(parser).resume(
                input,
                start,
                other.location as int,
                other.expecting(parser).nulled(fields, header),
            ),
            self.expecting(parser).resume_standing(
                input,
                start,
                other.location as int,
                self.expecting(parser).nulled(fields, header),
            ) == other.expecting(parser).resume_standing(
                input,
                start,
                other.location as int,
                other.expecting(parser).nulled(fields, header),
            ),
    {
        lemma_resume_agrees(
            self.expecting(parser),
            other.expecting(parser),
            input,
            start,
            other.location as int,
            self.expecting(parser).nulled(fields, header),
        );
    }

    /// Read the record at `record_start`.
    pub fn parse_owned_record(
        &mut self,
        input: &[u8],
        output: &mut RecordStorage,
        record_start: usize,
        header: bool,
    ) -> (result: Result<(), Error>)
        requires
            record_start == old(self).location < input.len(),
            old(self).dialect.escape.unquoted_byte() is None,
            old(output).wf(),
            old(output).open_bytes() == Seq::<u8>::empty(),
        ensures
            ({
                let owned = old(self).owned(
                    input@,
                    record_start as int,
                    old(output).fields(),
                    header,
                );
                &&& *final(self) == owned.state.moved(final(self).location)
                &&& !(owned.scan is Paused)
                &&& scanned(
                    owned.scan,
                    match result {
                        Ok(()) => Ok(true),
                        Err(error) => Err(error),
                    },
                    old(self).record,
                    input@,
                    final(self).location,
                    *final(output),
                )
            }),
            result is Err ==> stands(
                final(self).location,
                *final(output),
                old(self).owned_standing(
                    input@,
                    record_start as int,
                    old(output).fields(),
                    header,
                ),
            ),
    {
        self.parse_owned_record_mode(input, output, record_start, header)
    }

    /// Read the record at `record_start`, whose fields are meant to be text.
    pub fn parse_owned_text_record(
        &mut self,
        input: &[u8],
        output: &mut RecordStorage,
        record_start: usize,
        header: bool,
    ) -> (result: Result<(), Error>)
        requires
            record_start == old(self).location < input.len(),
            old(self).dialect.escape.unquoted_byte() is None,
            old(output).wf(),
            old(output).open_bytes() == Seq::<u8>::empty(),
        ensures
            ({
                let owned = old(self).owned(
                    input@,
                    record_start as int,
                    old(output).fields(),
                    header,
                );
                &&& *final(self) == owned.state.moved(final(self).location)
                &&& !(owned.scan is Paused)
                &&& scanned(
                    owned.scan,
                    match result {
                        Ok(()) => Ok(true),
                        Err(error) => Err(error),
                    },
                    old(self).record,
                    input@,
                    final(self).location,
                    *final(output),
                )
            }),
            result is Err ==> stands(
                final(self).location,
                *final(output),
                old(self).owned_standing(
                    input@,
                    record_start as int,
                    old(output).fields(),
                    header,
                ),
            ),
    {
        self.parse_owned_record_mode(input, output, record_start, header)
    }

    /// Read the record at `record_start`: by the parser that its predecessors
    /// suggest, and field by field where that one does not settle it.
    #[verifier::rlimit(60)]
    #[verifier::spinoff_prover]
    fn parse_owned_record_mode(
        &mut self,
        input: &[u8],
        output: &mut RecordStorage,
        record_start: usize,
        header: bool,
    ) -> (result: Result<(), Error>)
        requires
            record_start == old(self).location < input.len(),
            old(self).dialect.escape.unquoted_byte() is None,
            old(output).wf(),
            old(output).open_bytes() == Seq::<u8>::empty(),
        ensures
            ({
                let owned = old(self).owned(
                    input@,
                    record_start as int,
                    old(output).fields(),
                    header,
                );
                &&& *final(self) == owned.state.moved(final(self).location)
                &&& !(owned.scan is Paused)
                &&& scanned(
                    owned.scan,
                    match result {
                        Ok(()) => Ok(true),
                        Err(error) => Err(error),
                    },
                    old(self).record,
                    input@,
                    final(self).location,
                    *final(output),
                )
            }),
            result is Err ==> stands(
                final(self).location,
                *final(output),
                old(self).owned_standing(
                    input@,
                    record_start as int,
                    old(output).fields(),
                    header,
                ),
            ),
    {
        match self.parse_owned_predicted(input, output, record_start, header) {
            Err(error) => Err(error),
            Ok(true) => Ok(()),
            Ok(false) => {
                self.parse_owned_fields(input, output, record_start, header)
            },
        }
    }

    /// Read the fields of a record from the current location on, one by one.
    pub fn parse_owned_fields(
        &mut self,
        input: &[u8],
        output: &mut RecordStorage,
        record_start: usize,
        header: bool,
    ) -> (result: Result<(), Error>)
        requires
            record_start <= old(self).location <= input.len(),
            old(self).dialect.escape.unquoted_byte() is None,
            old(output).wf(),
            old(output).open_bytes() == Seq::<u8>::empty(),
        ensures
            keeps(old(output).fields(), final(output).fields()),
            ({
                let scan = old(self).rules().read_fields(
                    input@,
                    record_start as int,
                    old(self).location as int,
                    old(output).fields(),
                    old(self).nulls_for(header),
                );
                let owned = match scan {
                    Scan::Done { fields, next } => old(self).settled(fields, next),
                    _ => Owned { scan, state: *old(self) },
                };
                &&& *final(self) == owned.state.moved(final(self).location)
                &&& !(owned.scan is Paused)
                &&& scanned(
                    owned.scan,
                    match result {
                        Ok(()) => Ok(true),
                        Err(error) => Err(error),
                    },
                    old(self).record,
                    input@,
                    final(self).location,
                    *final(output),
                )
            }),
            result is Err ==> stands(
                final(self).location,
                *final(output),
                old(self).rules().fields_standing(
                    input@,
                    record_start as int,
                    old(self).location as int,
                    old(output).fields(),
                    old(self).nulls_for(header),
                ),
            ),
    {
        let ghost rules = self.rules();
        let ghost nulls = self.nulls_for(header);
        let ghost whole = rules.read_fields(
            input@,
            record_start as int,
            self.location as int,
            output.fields(),
            nulls,
        );
        proof {
            lemma_keeps_push(output.fields());
        }
        loop
            invariant
                keeps(old(output).fields(), output.fields()),
                *self == old(self).moved(self.location),
                self.dialect.escape.unquoted_byte() is None,
                record_start <= self.location <= input.len(),
                rules == old(self).rules(),
                nulls == old(self).nulls_for(header),
                output.wf(),
                output.open_bytes() == Seq::<u8>::empty(),
                whole == rules.read_fields(
                    input@,
                    record_start as int,
                    old(self).location as int,
                    old(output).fields(),
                    nulls,
                ),
                whole == rules.read_fields(
                    input@,
                    record_start as int,
                    self.location as int,
                    output.fields(),
                    nulls,
                ),
                rules.fields_standing(
                    input@,
                    record_start as int,
                    old(self).location as int,
                    old(output).fields(),
                    nulls,
                ) == rules.fields_standing(
                    input@,
                    record_start as int,
                    self.location as int,
                    output.fields(),
                    nulls,
                ),
            decreases input.len() - self.location,
        {
            proof {
                lemma_keeps_on(old(output).fields(), output.fields());
            }
            let ghost before = self.location;
            let ghost count = output.fields().len() as int;
            assert(self.rules() == rules);
            if let Err(error) = self.skip_delimiter_spaces(input, record_start) {
                return Err(error);
            }
            assert(self.rules() == rules);
            proof {
                lemma_field_step_bounds(
                    rules,
                    input@,
                    record_start as int,
                    self.location as int,
                    count,
                    nulls,
                );
            }
            let quoted = self.location < input.len() && input[self.location] == self.dialect.quote
                && self.syntax.quoting_enabled();
            let step = if quoted {
                self.parse_owned_quoted_field(input, output, record_start)
            } else {
                self.parse_owned_unquoted_field(input, output, record_start, header)
            };
            match step {
                Err(error) => {
                    return Err(error);
                },
                Ok(last) => {
                    if last {
                        return self.validate_field_count(input, output.len());
                    }
                },
            }
        }
    }
}

} // verus!
