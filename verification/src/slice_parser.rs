//! Reading the records of a document held in memory.

use vstd::prelude::*;

use crate::ascii::LF;
use crate::config::{BlankRecords, FieldCount, Nulls, ReadBom, RecordEnding};
use crate::engine::checked::{lemma_checked_step_bounds, lemma_text_body_bounds};
use crate::engine::grammar::{Body, Rules, Scan, Step};
use crate::engine::laws::{
    law_a_configured_parser_is_sound, law_reading_keeps_the_parser_sound, lemma_reading_ends,
};
use crate::engine::owned_parser::{
    lemma_field_step_bounds, lemma_quoted_body_bounds, lemma_skip_padding, lemma_skip_spaces, Owned,
};
use crate::engine::{has_bom, line_number, reports, starts_with_bom, Engine};
use crate::error::{Error, ErrorKind, Location};
use crate::options::ParserSettings;
use crate::search::{
    count_newlines, lemma_first_of, lemma_occurrences_bounded, lemma_occurrences_concat,
    occurrences,
};
use crate::storage::{Field, RecordStorage};

verus! {

impl ParserSettings {
    /// The settings that decide how a record is read.
    pub open spec fn rules(self) -> Rules {
        Rules {
            dialect: self.dialect,
            syntax: self.syntax,
            nulls: self.nulls,
            limits: self.limits,
            skip_initial_space: self.skip_initial_space,
        }
    }

    /// Where the line that `at` is on ends, its ending counted.
    pub open spec fn line_end(self, input: Seq<u8>, at: int) -> int {
        self.dialect.line_end(input, at)
    }

    /// How long the record ending at `at` is; zero when there is none.
    pub open spec fn ending_len(self, input: Seq<u8>, at: int) -> int {
        self.dialect.break_len(input, at)
    }

    /// Where the first record from `at` on starts: comments are no records,
    /// nor are empty lines where they are skipped.
    pub open spec fn record_start(self, input: Seq<u8>, at: int) -> int
        decreases input.len() - at,
        via ParserSettings::record_start_ends
    {
        if at < 0 || at >= input.len() {
            at
        } else if self.dialect.comment == Some(input[at]) {
            self.record_start(input, self.line_end(input, at))
        } else if self.blank_records == BlankRecords::Skip && self.ending_len(input, at) > 0 {
            self.record_start(input, at + self.ending_len(input, at))
        } else {
            at
        }
    }

    #[via_fn]
    proof fn record_start_ends(self, input: Seq<u8>, at: int) {
        if 0 <= at < input.len() {
            self.dialect.lemma_line_end(input, at);
        }
    }

    /// Whether an error says that no document is read with these settings, or
    /// that this one starts with a byte-order mark that is refused.
    pub open spec fn refused_with(self, error: Error) -> bool {
        if self.dialect.valid() {
            error.spec_kind() == ErrorKind::RejectedBom && error.spec_location()
                == Location::start()
        } else {
            error.misconfigured()
        }
    }

    /// Where the first record of a document may start.
    pub open spec fn document_start(self, input: Seq<u8>) -> int {
        if self.bom == ReadBom::Detect && has_bom(input) {
            3
        } else {
            0
        }
    }
}

/// Records start inside the input, not before they are looked for.
pub proof fn lemma_record_start(settings: ParserSettings, input: Seq<u8>, at: int)
    requires
        0 <= at <= input.len(),
    ensures
        at <= settings.record_start(input, at) <= input.len(),
    decreases input.len() - at,
{
    if at < input.len() {
        if settings.dialect.comment == Some(input[at]) {
            settings.dialect.lemma_line_end(input, at);
            lemma_record_start(settings, input, settings.line_end(input, at));
        } else if settings.blank_records == BlankRecords::Skip && settings.ending_len(input, at)
            > 0 {
            lemma_record_start(settings, input, at + settings.ending_len(input, at));
        }
    }
}

/// A parser of the records of a document held in memory.
#[derive(Clone, Copy, Debug)]
pub struct SliceParser<'a> {
    input: &'a [u8],
    settings: ParserSettings,
    engine: Engine,
    origin: usize,
    origin_line: u64,
}

/// The physical line of the byte at `at`, counted from a byte whose line is known.
///
/// A byte before that one is not told from it.
pub open spec fn line_from(input: Seq<u8>, origin: int, line: u64, at: int) -> u64 {
    if at <= origin {
        line
    } else {
        line.saturating_add(occurrences(input.subrange(origin, at), LF) as u64)
    }
}

/// Lines counted from a byte on its true line are true.
pub proof fn lemma_line_from(input: Seq<u8>, origin: int, at: int)
    requires
        0 <= origin <= at <= input.len() <= usize::MAX,
    ensures
        line_from(input, origin, line_number(input, origin), at) == line_number(input, at),
{
    let left = input.take(origin);
    let right = input.subrange(origin, at);
    assert(left + right =~= input.take(at));
    assert(input.subrange(origin, origin) =~= Seq::<u8>::empty());
    lemma_occurrences_concat(left, right, LF);
    lemma_occurrences_bounded(left, LF);
    lemma_occurrences_bounded(right, LF);
    lemma_occurrences_bounded(left + right, LF);
}

impl<'a> SliceParser<'a> {
    /// The document.
    pub closed spec fn document(&self) -> Seq<u8> {
        self.input@
    }

    /// The settings.
    pub closed spec fn spec_settings(&self) -> ParserSettings {
        self.settings
    }

    /// The state of the parser of records.
    pub closed spec fn state(&self) -> Engine {
        self.engine
    }

    /// From which byte on lines are counted, and its line.
    pub closed spec fn spec_origin(&self) -> (usize, u64) {
        (self.origin, self.origin_line)
    }

    /// Where the parser is.
    pub open spec fn spec_location(&self) -> Location {
        Location {
            byte: self.state().location,
            line: line_from(
                self.document(),
                self.spec_origin().0 as int,
                self.spec_origin().1,
                self.state().location as int,
            ),
            record: self.state().record,
            field: 0,
        }
    }

    /// Whether the parser is inside its document and its settings are usable.
    pub open spec fn wf(&self) -> bool {
        &&& self.state().location <= self.document().len()
        &&& self.spec_origin().0 <= self.document().len()
        &&& self.document().len() <= usize::MAX
        &&& self.state().rules() == self.spec_settings().rules()
        &&& self.state().field_count == self.spec_settings().field_count
        &&& self.spec_settings().dialect.valid()
        &&& Engine::supports(self.spec_settings().dialect) ==> self.state().sound()
    }

    /// A parser of `input`.
    ///
    /// Fails when the dialect is ambiguous, and when a byte-order mark is present
    /// and refused.
    pub fn with_settings(input: &'a [u8], settings: ParserSettings) -> (result: Result<
        SliceParser<'a>,
        Error,
    >)
        ensures
            result is Ok == (settings.dialect.valid() && !(
            settings.bom == ReadBom::Reject && has_bom(input@))),
            result matches Ok(parser) ==> {
                &&& parser.wf()
                &&& parser.document() == input@
                &&& parser.spec_settings() == settings
                &&& parser.state().location == settings.document_start(input@)
                &&& parser.state().record == 0
                &&& parser.state().built_from(settings)
                &&& parser.spec_origin() == (0usize, 1u64)
            },
            result matches Err(error) ==> settings.refused_with(error),
    {
        if let Some(reason) = settings.dialect.invalidity() {
            return Err(Error::detailed(ErrorKind::Configuration, reason));
        }
        if settings.bom == ReadBom::Reject && starts_with_bom(input) {
            return Err(Error::new(ErrorKind::RejectedBom, Location::start()));
        }
        let engine = Engine::from_config(input, settings);
        proof {
            if Engine::supports(settings.dialect) {
                law_a_configured_parser_is_sound(settings, engine);
            }
            assert(input@.len() == input.len());
        }
        Ok(SliceParser { input, settings, engine, origin: 0, origin_line: 1 })
    }

    /// Where the parser is.
    pub fn location(&self) -> (location: Location)
        requires
            self.wf(),
        ensures
            location == self.spec_location(),
    {
        let at: usize = self.engine.location;
        let line: u64 = if at <= self.origin {
            self.origin_line
        } else {
            self.origin_line.saturating_add(count_newlines(self.input, self.origin, at))
        };
        Location { byte: at, line, record: self.engine.record, field: 0 }
    }

    /// Continue at another place, which is the start of a record.
    pub fn seek(&mut self, location: Location) -> (result: Result<(), Error>)
        requires
            old(self).wf(),
        ensures
            final(self).wf(),
            final(self).document() == old(self).document(),
            final(self).spec_settings() == old(self).spec_settings(),
            result is Ok == (location.byte <= old(self).document().len()),
            result is Ok ==> final(self).state() == (Engine {
                location: location.byte,
                record: location.record,
                ..old(self).state()
            }) && final(self).spec_origin() == (location.byte, location.line),
            result matches Err(error) ==> *final(self) == *old(self) && error.spec_kind() == ErrorKind::LocationOverflow && error.spec_location()
                == location,
    {
        if location.byte > self.input.len() {
            return Err(Error::new(ErrorKind::LocationOverflow, location));
        }
        self.engine.location = location.byte;
        self.engine.record = location.record;
        self.origin = location.byte;
        self.origin_line = location.line;
        Ok(())
    }

    fn ending_at(&self, at: usize) -> (len: usize)
        requires
            at < self.document().len(),
        ensures
            len == self.spec_settings().ending_len(self.document(), at as int),
    {
        self.settings.dialect.ending_at(self.input, at)
    }

    /// Go to where the next record starts.
    ///
    /// Answers whether there is one.
    pub fn skip_ignored(&mut self) -> (found: bool)
        requires
            old(self).wf(),
        ensures
            final(self).wf(),
            final(self).document() == old(self).document(),
            final(self).spec_settings() == old(self).spec_settings(),
            final(self).spec_origin() == old(self).spec_origin(),
            ({
                let start = old(self).spec_settings().record_start(
                    old(self).document(),
                    old(self).state().location as int,
                );
                &&& final(self).state() == old(self).state().moved(start as usize)
                &&& final(self).state().location == start
                &&& start <= old(self).document().len()
                &&& found == (start < old(self).document().len())
            }),
    {
        let ghost input = self.input@;
        let ghost settings = self.settings;
        proof {
            lemma_record_start(settings, input, self.engine.location as int);
        }
        while self.engine.location < self.input.len()
            invariant_except_break
                self.engine.location <= self.input.len(),
            invariant
                input == old(self).document(),
                settings == old(self).spec_settings(),
                self.input@ == input,
                self.settings == settings,
                self.wf(),
                self.spec_origin() == old(self).spec_origin(),
                self.engine == old(self).state().moved(self.engine.location),
                settings.record_start(input, old(self).state().location as int)
                    == settings.record_start(input, self.engine.location as int),
            ensures
                settings.record_start(input, old(self).state().location as int)
                    == self.engine.location,
            decreases self.input.len() - self.engine.location,
        {
            let at: usize = self.engine.location;
            let byte: u8 = self.input[at];
            let comment = match self.settings.dialect.comment {
                Some(comment) => comment == byte,
                None => false,
            };
            if comment {
                self.engine.location = self.settings.dialect.after_line(self.input, at);
            } else if self.settings.blank_records == BlankRecords::Skip {
                let len: usize = self.ending_at(at);
                if len == 0 {
                    break;
                }
                self.engine.location = at + len;
            } else {
                break;
            }
        }
        self.engine.location < self.input.len()
    }
}

/// A record takes at least one byte.
pub proof fn lemma_record_takes_bytes(rules: Rules, input: Seq<u8>, start: int, nulls: Nulls)
    requires
        0 <= start < input.len(),
    ensures
        !(rules.read_record(input, start, nulls) is Paused),
        rules.read_record(input, start, nulls) matches Scan::Done { next, .. } ==> start < next
            <= input.len(),
{
    let none = Seq::<Field>::empty();
    let q = rules.skip_spaces(input, start, start);
    lemma_skip_spaces(rules, input, start, start);
    if Engine::supports(rules.dialect) {
        lemma_reading_ends(rules, input, start, start, none, nulls);
        lemma_field_step_bounds(rules, input, start, q, 0, nulls);
        lemma_field_takes_bytes(rules, input, start, q, nulls);
        if let Step::Read { field, next, last } = rules.field_step(input, start, q, 0, nulls) {
            if !last {
                lemma_reading_ends(rules, input, start, next, none.push(field), nulls);
            }
        }
    } else {
        lemma_checked_reading_ends(rules, input, start, start, none, nulls);
        lemma_checked_step_bounds(rules, input, start, q, 0, nulls);
        lemma_field_takes_bytes(rules, input, start, q, nulls);
        if let Step::Read { field, next, last } = rules.checked_step(input, start, q, 0, nulls) {
            if !last {
                lemma_checked_reading_ends(rules, input, start, next, none.push(field), nulls);
            }
        }
    }
}

/// The checked reading comes to an end, inside the input.
pub proof fn lemma_checked_reading_ends(
    rules: Rules,
    input: Seq<u8>,
    start: int,
    p: int,
    fields: Seq<Field>,
    nulls: Nulls,
)
    requires
        0 <= start <= p <= input.len(),
    ensures
        !(rules.read_checked(input, start, p, fields, nulls) is Paused),
        rules.read_checked(input, start, p, fields, nulls) matches Scan::Done { next, .. } ==> p
            <= next <= input.len(),
    decreases input.len() - p,
{
    let q = rules.skip_spaces(input, start, p);
    lemma_skip_spaces(rules, input, start, p);
    lemma_checked_step_bounds(rules, input, start, q, fields.len() as int, nulls);
    if let Step::Read { field, next, last } = rules.checked_step(
        input,
        start,
        q,
        fields.len() as int,
        nulls,
    ) {
        if !last {
            lemma_checked_reading_ends(rules, input, start, next, fields.push(field), nulls);
        }
    }
}

proof fn lemma_field_takes_bytes(
    rules: Rules,
    input: Seq<u8>,
    start: int,
    p: int,
    nulls: Nulls,
)
    requires
        0 <= start <= p <= input.len(),
        start < input.len(),
    ensures
        p < input.len() ==> (rules.field_step(input, start, p, 0, nulls) matches Step::Read {
            next,
            ..
        } ==> p < next || start < p),
        p < input.len() ==> (rules.checked_step(input, start, p, 0, nulls) matches Step::Read {
            next,
            ..
        } ==> p < next || start < p),
{
    if p < input.len() && start == p {
        lemma_text_body_bounds(rules, input, start, p, p, Seq::empty());
        lemma_first_of(
            input,
            p,
            rules.field_window(input, start, p),
            rules.unquoted_stops(),
        );
        lemma_quoted_body_bounds(
            rules,
            input,
            start,
            p + 1,
            p + 1,
            Seq::empty(),
        );
        if let Body::Closed { bytes, after } = rules.quoted_body(
            input,
            start,
            p + 1,
            p + 1,
            Seq::empty(),
        ) {
            lemma_skip_padding(rules, input, after);
        }
    }
}

/// What a parser of records makes of the record at its location.
#[verifier::opaque]
pub open spec fn record_at(state: Engine, document: Seq<u8>) -> Owned {
    let start = state.location as int;
    if Engine::supports(state.dialect) {
        state.owned(document, start, Seq::empty(), false)
    } else {
        match state.rules().read_checked(document, start, start, Seq::empty(), state.nulls) {
            Scan::Done { fields, next } => state.settled(fields, next),
            scan => Owned { scan, state },
        }
    }
}

/// The fields that a parser of records has read of the record at its location,
/// where it failed to read it.
#[verifier::opaque]
pub open spec fn fields_read(state: Engine, document: Seq<u8>) -> Seq<Field> {
    let start = state.location as int;
    if Engine::supports(state.dialect) {
        state.owned_standing(document, start, Seq::empty(), false).fields
    } else {
        state.rules().checked_standing(document, start, start, Seq::empty(), state.nulls).fields
    }
}

impl<'a> SliceParser<'a> {
    /// The state of the parser of records at the start of the next record.
    pub open spec fn next_state(&self) -> Engine {
        self.state().moved(
            self.spec_settings().record_start(
                self.document(),
                self.state().location as int,
            ) as usize,
        )
    }

    /// Read the next record into `output`.
    ///
    /// Answers whether there was one. After a failure the parser is where the
    /// record starts, and `output` holds the fields that were read of it.
    pub fn next_record(&mut self, output: &mut RecordStorage) -> (result: Result<bool, Error>)
        requires
            old(self).wf(),
        ensures
            final(self).wf(),
            final(output).wf(),
            final(self).document() == old(self).document(),
            final(self).spec_settings() == old(self).spec_settings(),
            final(self).spec_origin() == old(self).spec_origin(),
            read_next(*old(self), *final(self), *final(output), result),
    {
        output.clear();
        let found = self.skip_ignored();
        if !found {
            return Ok(false);
        }
        let start: usize = self.engine.location;
        let supported = self.settings.dialect.escape.unquoted_byte().is_none()
            && self.settings.dialect.record_ending != RecordEnding::CrLf
            && !self.settings.dialect.has_long_separator();
        proof {
            reveal(record_at);
            reveal(fields_read);
            if supported {
                law_reading_keeps_the_parser_sound(
                    self.engine,
                    self.input@,
                    start as int,
                    Seq::empty(),
                    false,
                );
            }
        }
        let result = if supported {
            self.engine.parse_owned_record(self.input, output, start, false)
        } else {
            self.engine.parse_checked_fields(self.input, output, start, false)
        };
        match result {
            Ok(()) => {
                self.engine.record = self.engine.record.saturating_add(1);
                Ok(true)
            },
            Err(error) => {
                self.engine.location = start;
                Err(error)
            },
        }
    }
}

/// Whether a parser read its next record, or found none, or failed.
pub open spec fn read_next<'a>(
    before: SliceParser<'a>,
    after: SliceParser<'a>,
    output: RecordStorage,
    result: Result<bool, Error>,
) -> bool {
    let here = before.next_state();
    let document = before.document();
    let owned = record_at(here, document);
    if here.location >= document.len() {
        &&& result matches Ok(found) && !found
        &&& after.state() == here
        &&& output.fields() == Seq::<Field>::empty()
    } else {
        match owned.scan {
            Scan::Done { fields, next } => {
                &&& result matches Ok(found) && found
                &&& output.fields() == fields
                &&& after.state() == (Engine {
                    location: next as usize,
                    record: here.record.saturating_add(1),
                    ..owned.state
                })
                &&& 0 <= next <= document.len()
            },
            Scan::Failed { kind, at, number } => {
                &&& result matches Err(error) && reports(
                    error,
                    here.record,
                    document,
                    kind,
                    at,
                    number,
                )
                &&& output.fields() == fields_read(here, document)
                &&& after.state() == owned.state.moved(here.location)
            },
            Scan::Paused { .. } => false,
        }
    }
}

/// A record that was read.
#[verifier::ext_equal]
pub struct Reading {
    /// Where it starts.
    pub start: int,
    /// Where what follows it starts.
    pub next: int,
    /// The physical line that it starts on.
    pub line: u64,
    /// Its number.
    pub number: u64,
    /// Its fields.
    pub fields: Seq<Field>,
}

/// The records that are read one after the other in a state, `count` of them at
/// most; lines are counted from a byte whose line is known.
pub open spec fn readings(
    settings: ParserSettings,
    document: Seq<u8>,
    origin: (usize, u64),
    state: Engine,
    count: nat,
) -> Seq<Reading>
    decreases count,
{
    let here = state.moved(settings.record_start(document, state.location as int) as usize);
    let owned = record_at(here, document);
    if count == 0 || here.location >= document.len() {
        Seq::empty()
    } else {
        match owned.scan {
            Scan::Done { fields, next } => {
                let reading = Reading {
                    start: here.location as int,
                    next,
                    line: line_from(document, origin.0 as int, origin.1, here.location as int),
                    number: here.record,
                    fields,
                };
                let after = Engine {
                    location: next as usize,
                    record: here.record.saturating_add(1),
                    ..owned.state
                };
                seq![reading] + readings(settings, document, origin, after, (count - 1) as nat)
            },
            _ => Seq::empty(),
        }
    }
}

impl<'a> SliceParser<'a> {
    /// The next records that the parser reads, `count` of them at most.
    pub open spec fn readings(&self, count: nat) -> Seq<Reading> {
        readings(self.spec_settings(), self.document(), self.spec_origin(), self.state(), count)
    }
}

/// What a parser reads next is the first of its readings; the others are those
/// that it has then.
pub proof fn law_a_record_read_is_the_next_reading<'a>(
    before: SliceParser<'a>,
    after: SliceParser<'a>,
    output: RecordStorage,
    result: Result<bool, Error>,
    count: nat,
)
    requires
        before.wf(),
        after.document() == before.document(),
        after.spec_settings() == before.spec_settings(),
        after.spec_origin() == before.spec_origin(),
        read_next(before, after, output, result),
    ensures
        result == Ok::<bool, Error>(true) ==> {
            let all = before.readings(count + 1);
            &&& all.len() > 0
            &&& all[0].fields == output.fields()
            &&& all[0].start == before.next_state().location
            &&& all[0].next == after.state().location
            &&& all[0].line == line_from(
                before.document(),
                before.spec_origin().0 as int,
                before.spec_origin().1,
                all[0].start,
            )
            &&& all[0].number == before.state().record
            &&& all.skip(1) == after.readings(count)
        },
        result != Ok::<bool, Error>(true) ==> before.readings(count + 1) == Seq::<Reading>::empty(),
{
    lemma_record_start(before.spec_settings(), before.document(), before.state().location as int);
    if result == Ok::<bool, Error>(true) {
        let all = before.readings(count + 1);
        assert(all.skip(1) =~= after.readings(count));
    }
}

/// The starts of the records of a document, or what is wrong with it.
#[verifier::ext_equal]
pub enum Listing {
    /// Every record starts at one of these.
    Complete(Seq<int>),
    /// The record after these is none.
    Broken {
        /// The starts of the records before.
        starts: Seq<int>,
        /// What is wrong.
        kind: ErrorKind,
        /// Where it is wrong.
        at: int,
        /// The number of the field that is wrong.
        number: int,
    },
}

impl ParserSettings {
    /// List the records from `at` on, after those that start at `starts`.
    pub open spec fn listing(self, input: Seq<u8>, at: int, starts: Seq<int>) -> Listing
        decreases input.len() - at,
        via ParserSettings::listing_ends
    {
        let start = self.record_start(input, at);
        if at < 0 || start >= input.len() {
            Listing::Complete(starts)
        } else {
            match self.rules().read_record(input, start, self.nulls) {
                Scan::Failed { kind, at, number } => Listing::Broken { starts, kind, at, number },
                Scan::Done { next, .. } => self.listing(input, next, starts.push(start)),
                Scan::Paused { .. } => Listing::Complete(starts),
            }
        }
    }

    #[via_fn]
    proof fn listing_ends(self, input: Seq<u8>, at: int, starts: Seq<int>) {
        if 0 <= at <= input.len() {
            lemma_record_start(self, input, at);
            let start = self.record_start(input, at);
            if start < input.len() {
                lemma_record_takes_bytes(self.rules(), input, start, self.nulls);
            }
        }
    }

    /// List the records of a document.
    pub open spec fn records(self, input: Seq<u8>) -> Listing {
        self.listing(input, self.document_start(input), Seq::empty())
    }
}

impl<'a> SliceParser<'a> {
    /// Go past the next record, reading it field by field.
    ///
    /// Answers where it started, if there was one.
    pub fn next_start(&mut self, scratch: &mut RecordStorage) -> (result: Result<
        Option<usize>,
        Error,
    >)
        requires
            old(self).wf(),
            old(self).state().field_count == FieldCount::Flexible,
        ensures
            final(self).wf(),
            final(scratch).wf(),
            final(self).document() == old(self).document(),
            final(self).spec_settings() == old(self).spec_settings(),
            final(self).spec_origin() == old(self).spec_origin(),
            final(self).state().field_count == old(self).state().field_count,
            ({
                let here = old(self).next_state();
                let document = old(self).document();
                if here.location >= document.len() {
                    &&& result == Ok::<Option<usize>, Error>(None)
                    &&& final(self).state() == here
                } else {
                    match here.rules().read_record(document, here.location as int, here.nulls) {
                        Scan::Done { fields, next } => {
                            &&& result == Ok::<Option<usize>, Error>(Some(here.location))
                            &&& final(scratch).fields() == fields
                            &&& final(self).state() == (Engine {
                                location: next as usize,
                                record: here.record.saturating_add(1),
                                ..here
                            })
                            &&& 0 <= next <= document.len()
                        },
                        Scan::Failed { kind, at, number } => {
                            &&& result matches Err(error) && reports(
                                error,
                                here.record,
                                document,
                                kind,
                                at,
                                number,
                            )
                            &&& final(self).state() == here
                        },
                        Scan::Paused { .. } => false,
                    }
                }
            }),
    {
        scratch.clear();
        let found = self.skip_ignored();
        if !found {
            return Ok(None);
        }
        let start: usize = self.engine.location;
        let supported = self.settings.dialect.escape.unquoted_byte().is_none()
            && self.settings.dialect.record_ending != RecordEnding::CrLf
            && !self.settings.dialect.has_long_separator();
        let result = if supported {
            self.engine.parse_owned_fields(self.input, scratch, start, false)
        } else {
            self.engine.parse_checked_fields(self.input, scratch, start, false)
        };
        match result {
            Ok(()) => {
                self.engine.record = self.engine.record.saturating_add(1);
                Ok(Some(start))
            },
            Err(error) => {
                self.engine.location = start;
                Err(error)
            },
        }
    }
}

} // verus!
