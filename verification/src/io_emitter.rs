//! An emitter that hands its output to a sink.

use vstd::prelude::*;

use crate::byte_record::{shrink_vec, ByteRecord};
use crate::config::{Dialect, FieldCount, Limits, Nulls, Quoting, ReadBom, WriteBom};
use crate::emit::encoding::{row, Writing};
use crate::emit::push_emitter::{rows, texts, Emitting, PushEmitter};
use crate::engine::grammar::Scan;
use crate::engine::{bom, has_bom, reports, starts_with_bom};
use crate::error::{Error, ErrorKind, IoError, IoErrorKind, Location};
use crate::field_ends::MAX_FIELD_OFFSET;
use crate::format::StaticFormat;
use crate::into_inner_error::IntoInnerError;
use crate::options::{EmitOptions, FormatOptions, ParserSettings};
use crate::slice_parser::{lemma_record_start, SliceParser};
use crate::storage::{null_field, text, Field, RecordStorage};
use crate::text_record::TextRecord;

verus! {

/// What an emitter says once its sink failed.
pub const EMITTER_FAILED: &'static str = "CSV writer stopped after an earlier I/O error";

/// What an emitter says of a sink that takes nothing.
pub const SINK_ACCEPTED_NOTHING: &'static str = "CSV sink accepted no bytes of the buffered output";

/// A place that takes bytes.
///
/// A sink may refuse, or take less than it was given; an emitter believes what
/// the sink says it took. Only of a sink that is declared faithful or unfailing
/// is more known.
pub trait Sink: Sized {
    /// Whether what this type says it took is what it took.
    open spec fn faithful() -> bool {
        false
    }

    /// Whether this type takes something of whatever it is given.
    open spec fn unfailing() -> bool {
        false
    }

    /// What the sink took so far.
    open spec fn taken(&self) -> Seq<u8> {
        Seq::empty()
    }

    /// What the sink had taken when it was last pushed on.
    open spec fn settled(&self) -> Seq<u8> {
        Seq::empty()
    }

    /// The error that the sink answered last.
    open spec fn failure(&self) -> Option<IoError> {
        None
    }

    /// Whether this type remembers what it answered.
    open spec fn recorded() -> bool {
        false
    }

    /// What the sink answered whenever bytes were handed over.
    open spec fn answers(&self) -> Seq<Result<usize, IoError>> {
        Seq::empty()
    }

    /// Hand bytes over; the sink answers how many it took.
    fn write(&mut self, bytes: &[u8]) -> (result: Result<usize, IoError>)
        ensures
            Self::faithful() ==> match result {
                Ok(count) => count <= bytes@.len() && final(self).taken() == old(self).taken()
                    + bytes@.take(count as int),
                Err(error) => final(self).taken() == old(self).taken() && final(self).failure()
                    == Some(error),
            },
            Self::unfailing() ==> (result matches Ok(count) && (bytes@.len() > 0 ==> count > 0)),
            Self::recorded() ==> final(self).answers() == old(self).answers().push(result),
    ;

    /// Push what was taken to where it belongs.
    fn flush(&mut self) -> (result: Result<(), IoError>)
        ensures
            Self::faithful() ==> final(self).taken() == old(self).taken() && match result {
                Ok(()) => final(self).settled() == final(self).taken(),
                Err(error) => final(self).failure() == Some(error),
            },
            Self::unfailing() ==> result is Ok,
            Self::recorded() ==> final(self).answers() == old(self).answers(),
    ;
}

impl Sink for Vec<u8> {
    open spec fn faithful() -> bool {
        true
    }

    open spec fn unfailing() -> bool {
        true
    }

    open spec fn taken(&self) -> Seq<u8> {
        self@
    }

    open spec fn settled(&self) -> Seq<u8> {
        self@
    }

    fn write(&mut self, bytes: &[u8]) -> (result: Result<usize, IoError>)
        ensures
            result == Ok::<usize, IoError>(bytes@.len() as usize),
            final(self)@ == old(self)@ + bytes@,
    {
        self.extend_from_slice(bytes);
        assert(bytes@.take(bytes@.len() as int) =~= bytes@);
        assert(bytes@.len() == bytes.len());
        Ok(bytes.len())
    }

    fn flush(&mut self) -> (result: Result<(), IoError>)
        ensures
            result is Ok,
            *final(self) == *old(self),
    {
        Ok(())
    }
}

/// A sink whose answers are remembered.
pub struct Recording<W: Sink> {
    /// The sink.
    pub sink: W,
    /// What it answered whenever bytes were handed over.
    pub said: Ghost<Seq<Result<usize, IoError>>>,
}

impl<W: Sink> Recording<W> {
    /// A sink that has answered nothing yet.
    pub fn new(sink: W) -> (recording: Recording<W>)
        ensures
            recording.sink == sink,
            recording.said@ == Seq::<Result<usize, IoError>>::empty(),
    {
        Recording { sink, said: Ghost(Seq::empty()) }
    }
}

impl<W: Sink> Sink for Recording<W> {
    open spec fn faithful() -> bool {
        W::faithful()
    }

    open spec fn unfailing() -> bool {
        W::unfailing()
    }

    open spec fn taken(&self) -> Seq<u8> {
        self.sink.taken()
    }

    open spec fn settled(&self) -> Seq<u8> {
        self.sink.settled()
    }

    open spec fn failure(&self) -> Option<IoError> {
        self.sink.failure()
    }

    open spec fn recorded() -> bool {
        true
    }

    open spec fn answers(&self) -> Seq<Result<usize, IoError>> {
        self.said@
    }

    fn write(&mut self, bytes: &[u8]) -> (result: Result<usize, IoError>) {
        let result = self.sink.write(bytes);
        self.said = Ghost(self.said@.push(result));
        result
    }

    fn flush(&mut self) -> (result: Result<(), IoError>) {
        self.sink.flush()
    }
}

/// How far a buffer has come after a sink was asked.
#[derive(Debug)]
pub enum Confirmation {
    /// So much of it was taken.
    Taken(usize),
    /// The sink failed.
    Failed(IoError),
}

/// Whether an answer of a sink was understood.
pub open spec fn understood(
    written: usize,
    len: usize,
    answer: Result<usize, IoError>,
    step: Confirmation,
) -> bool {
    match answer {
        Ok(count) => if count == 0 {
            step matches Confirmation::Failed(error) && error.spec_kind() == IoErrorKind::WriteZero
                && error.spec_message() == SINK_ACCEPTED_NOTHING@
        } else {
            step matches Confirmation::Taken(now) && now == (if count > len - written {
                len as int
            } else {
                written + count
            })
        },
        Err(error) => if error.spec_kind() == IoErrorKind::Interrupted {
            step == Confirmation::Taken(written)
        } else {
            step == Confirmation::Failed(error)
        },
    }
}

/// What the answer of a sink to the rest of a buffer means.
///
/// An interruption changes nothing. A sink that takes nothing has failed, and
/// one that claims more than it was given is taken to have taken it all.
pub fn confirm(written: usize, len: usize, answer: Result<usize, IoError>) -> (step: Confirmation)
    requires
        written < len,
    ensures
        understood(written, len, answer, step),
{
    match answer {
        Ok(count) => {
            if count == 0 {
                Confirmation::Failed(IoError::new(IoErrorKind::WriteZero, SINK_ACCEPTED_NOTHING))
            } else if count > len - written {
                Confirmation::Taken(len)
            } else {
                Confirmation::Taken(written + count)
            }
        },
        Err(error) => {
            if error.kind() == IoErrorKind::Interrupted {
                Confirmation::Taken(written)
            } else {
                Confirmation::Failed(error)
            }
        },
    }
}

/// Whether an error says that a sink took nothing, or is the one that a faithful
/// sink answered last.
pub open spec fn blamed<W: Sink>(output: W, error: IoError) -> bool {
    ||| error.spec_kind() == IoErrorKind::WriteZero && error.spec_message()
        == SINK_ACCEPTED_NOTHING@
    ||| W::faithful() ==> output.failure() == Some(error)
}

/// Whether an error of an emitter is that of its sink, which it carries.
pub open spec fn sink_error<W: Sink>(emitter: IoEmitter<W>, error: Error) -> bool {
    &&& error.spec_io() matches Some(own) && blamed(emitter.output->0, own) && error.spec_kind()
        == ErrorKind::Io(own.spec_kind())
    &&& error.spec_location() == Location::start()
    &&& error.spec_field_name() is None
    &&& error.spec_detail() is None
}

/// How far a buffer has come by what a sink answered.
pub enum Handover {
    /// So much of it was taken, and so many interruptions are borne yet.
    Waiting {
        /// How much was taken.
        written: int,
        /// How many interruptions are borne.
        patience: int,
    },
    /// All of it was taken.
    Complete,
    /// The sink failed.
    Failed {
        /// How much had been taken.
        written: int,
        /// How it failed.
        kind: IoErrorKind,
    },
}

/// How far a buffer of `len` bytes has come by these answers.
pub open spec fn handed_over(len: int, answers: Seq<Result<usize, IoError>>) -> Handover
    decreases answers.len(),
{
    if answers.len() == 0 {
        if len <= 0 {
            Handover::Complete
        } else {
            Handover::Waiting { written: 0, patience: u64::MAX as int }
        }
    } else {
        match handed_over(len, answers.drop_last()) {
            Handover::Waiting { written, patience } => match answers.last() {
                Ok(count) => if count == 0 {
                    Handover::Failed { written, kind: IoErrorKind::WriteZero }
                } else if written + count >= len {
                    Handover::Complete
                } else {
                    Handover::Waiting { written: written + count, patience }
                },
                Err(error) => if error.spec_kind() != IoErrorKind::Interrupted {
                    Handover::Failed { written, kind: error.spec_kind() }
                } else if patience <= 0 {
                    Handover::Failed { written, kind: IoErrorKind::WriteZero }
                } else {
                    Handover::Waiting { written, patience: patience - 1 }
                },
            },
            ended => ended,
        }
    }
}

/// What a sink answered between two of its states.
pub open spec fn answers_since<W: Sink>(before: W, after: W) -> Seq<Result<usize, IoError>> {
    after.answers().skip(before.answers().len() as int)
}

/// Whether a sink that remembers its answers was asked until a buffer of `len`
/// bytes had come to this, and no longer.
pub open spec fn answered<W: Sink>(before: W, after: W, len: int, outcome: Handover) -> bool {
    let answers = answers_since(before, after);
    &&& before.answers().len() <= after.answers().len()
    &&& after.answers().take(before.answers().len() as int) == before.answers()
    &&& handed_over(len, answers) == outcome
    &&& forall|k: int|
        0 <= k < answers.len() ==> #[trigger] handed_over(len, answers.take(k)) is Waiting
}

/// How a buffer of `len` bytes has come to a result that leaves `left` of them.
pub open spec fn outcome(len: int, left: int, result: Result<(), Error>) -> Handover {
    match result {
        Ok(()) => Handover::Complete,
        Err(error) => Handover::Failed {
            written: len - left,
            kind: error.spec_io()->Some_0.spec_kind(),
        },
    }
}

/// Hand a buffer to a sink until all of it was taken.
///
/// Interruptions are retried. A failure comes with how much had been taken. It
/// is the sink's own, unless the sink took nothing when it was asked.
pub fn write_confirmed<W: Sink>(output: &mut W, buffer: &[u8]) -> (result: Result<
    (),
    (usize, IoError),
>)
    ensures
        buffer@.len() == 0 || W::unfailing() ==> result is Ok,
        buffer@.len() == 0 ==> *final(output) == *old(output),
        result matches Err((written, error)) ==> written < buffer@.len() && blamed(
            *final(output),
            error,
        ) && error.spec_kind() != IoErrorKind::Interrupted,
        W::faithful() ==> final(output).taken() == old(output).taken() + (match result {
            Ok(()) => buffer@,
            Err((written, _)) => buffer@.take(written as int),
        }),
        W::recorded() ==> answered(
            *old(output),
            *final(output),
            buffer@.len() as int,
            match result {
                Ok(()) => Handover::Complete,
                Err((written, error)) => Handover::Failed {
                    written: written as int,
                    kind: error.spec_kind(),
                },
            },
        ),
{
    let ghost mut said = Seq::<Result<usize, IoError>>::empty();
    let mut written: usize = 0;
    let mut patience: u64 = u64::MAX;
    proof {
        assert(buffer@.take(0) =~= Seq::<u8>::empty());
        assert(output.taken() + buffer@.take(0) =~= output.taken());
        assert(output.answers() + said =~= output.answers());
    }
    while written < buffer.len()
        invariant
            written <= buffer.len(),
            W::recorded() ==> {
                &&& output.answers() == old(output).answers() + said
                &&& handed_over(buffer@.len() as int, said) == (if written < buffer.len() {
                    Handover::Waiting { written: written as int, patience: patience as int }
                } else {
                    Handover::Complete
                })
                &&& forall|k: int|
                    0 <= k < said.len() ==> #[trigger] handed_over(
                        buffer@.len() as int,
                        said.take(k),
                    ) is Waiting
            },
            buffer@.len() == 0 ==> *output == *old(output),
            W::faithful() ==> output.taken() == old(output).taken() + buffer@.take(
                written as int,
            ),
        decreases buffer.len() - written, patience,
    {
        let rest = &buffer[written..buffer.len()];
        let ghost before = output.taken();
        let answer = output.write(rest);
        proof {
            if W::faithful() {
                if let Ok(count) = answer {
                    assert(buffer@.take(written as int) + rest@.take(count as int)
                        =~= buffer@.take(written + count));
                }
            }
            let earlier = said;
            said = said.push(answer);
            if W::recorded() {
                assert(said.drop_last() =~= earlier);
                assert(output.answers() =~= old(output).answers() + said);
                assert(output.answers().skip(old(output).answers().len() as int) =~= said);
                assert(output.answers().take(old(output).answers().len() as int)
                    =~= old(output).answers());
                assert forall|k: int| 0 <= k < said.len() implies #[trigger] handed_over(
                    buffer@.len() as int,
                    said.take(k),
                ) is Waiting by {
                    if k < earlier.len() {
                        assert(said.take(k) =~= earlier.take(k));
                    } else {
                        assert(said.take(k) =~= earlier);
                    }
                }
            }
        }
        match confirm(written, buffer.len(), answer) {
            Confirmation::Taken(now) => {
                if now == written {
                    if patience == 0 {
                        return Err(
                            (written, IoError::new(IoErrorKind::WriteZero, SINK_ACCEPTED_NOTHING)),
                        );
                    }
                    patience = patience - 1;
                }
                written = now;
            },
            Confirmation::Failed(error) => {
                return Err((written, error));
            },
        }
    }
    proof {
        assert(buffer@.take(written as int) =~= buffer@);
        assert(output.answers().skip(old(output).answers().len() as int) =~= said || !W::recorded());
        assert(output.answers().take(old(output).answers().len() as int) =~= old(
            output,
        ).answers() || !W::recorded());
    }
    Ok(())
}

/// An emitter that hands its output to a sink.
///
/// Output is collected until there is enough of it to hand over. What the sink
/// has not confirmed yet is pending; it is lost if the emitter is dropped before
/// it was flushed.
#[derive(Debug)]
pub struct IoEmitter<W: Sink> {
    /// Collects records.
    pub core: PushEmitter,
    /// The sink, until it is taken.
    pub output: Option<W>,
    /// How much is collected before it is handed over.
    pub threshold: usize,
    /// How much was handed over last.
    pub previous_drain: usize,
    /// Whether the sink failed.
    pub failed: bool,
}

impl<W: Sink> IoEmitter<W> {
    /// Whether the emitter has its sink.
    pub open spec fn wf(&self) -> bool {
        self.core.wf() && self.output is Some
    }

    /// What was emitted and is not confirmed yet.
    pub open spec fn spec_pending(&self) -> Seq<u8> {
        self.core.output()
    }

    /// What the sink took, and behind it what is pending.
    pub open spec fn total(&self) -> Seq<u8> {
        self.output->0.taken() + self.core.output()
    }

    /// An emitter of a format that the type `F` fixes.
    pub fn new<F: StaticFormat>(output: W, options: EmitOptions) -> (result: Result<
        IoEmitter<W>,
        Error,
    >)
        ensures
            result is Ok == (options.buffer_capacity > 0),
            result matches Ok(emitter) ==> {
                &&& emitter.wf()
                &&& emitter.output == Some(output)
                &&& !emitter.failed
                &&& emitter.threshold == options.buffer_capacity
                &&& emitter.previous_drain == 0
                &&& emitter.spec_pending() == Seq::<u8>::empty()
                &&& emitter.core.emitting() == Emitting::starting(F::spec_format(), options)
            },
            result matches Err(error) ==> error.misconfigured(),
    {
        IoEmitter::with_options(output, F::format(), options)
    }

    /// An emitter of a format.
    pub fn with_options(output: W, format: FormatOptions, options: EmitOptions) -> (result: Result<
        IoEmitter<W>,
        Error,
    >)
        ensures
            result is Ok == (format.dialect.valid() && options.buffer_capacity > 0),
            result matches Ok(emitter) ==> {
                &&& emitter.wf()
                &&& emitter.output == Some(output)
                &&& !emitter.failed
                &&& emitter.threshold == options.buffer_capacity
                &&& emitter.previous_drain == 0
                &&& emitter.spec_pending() == Seq::<u8>::empty()
                &&& emitter.core.emitting() == Emitting::starting(format, options)
            },
            result matches Err(error) ==> error.misconfigured(),
    {
        if let Err(error) = options.validate_buffered(format) {
            return Err(error);
        }
        Ok(
            IoEmitter::from_config(
                output,
                format.dialect,
                format.quoting,
                format.write_bom,
                format.nulls,
                options.field_count,
                options.has_headers,
                options.buffer_capacity,
            ),
        )
    }

    /// An emitter of a dialect.
    pub fn from_config(
        output: W,
        dialect: Dialect,
        quoting: Quoting,
        bom: WriteBom,
        nulls: Nulls,
        field_count: FieldCount,
        has_headers: bool,
        buffer_capacity: usize,
    ) -> (emitter: IoEmitter<W>)
        requires
            dialect.valid(),
        ensures
            emitter.wf(),
            emitter.output == Some(output),
            !emitter.failed,
            emitter.threshold == buffer_capacity,
            emitter.previous_drain == 0,
            emitter.spec_pending() == Seq::<u8>::empty(),
            emitter.core.emitting() == (Emitting {
                writing: Writing { dialect, quoting, nulls },
                bom_pending: bom == WriteBom::Emit,
                field_count,
                expected_fields: None,
                header_pending: has_headers,
            }),
    {
        IoEmitter {
            core: PushEmitter::from_config(
                Vec::with_capacity(buffer_capacity),
                dialect,
                quoting,
                bom,
                nulls,
                field_count,
                has_headers,
            ),
            output: Some(output),
            threshold: buffer_capacity,
            previous_drain: 0,
            failed: false,
        }
    }

    /// Fail when the sink failed before.
    pub fn check_failed(&self) -> (result: Result<(), Error>)
        ensures
            result is Ok == !self.failed,
            result matches Err(error) ==> error.says(ErrorKind::EmitterFailed, EMITTER_FAILED@),
    {
        if self.failed {
            return Err(Error::detailed(ErrorKind::EmitterFailed, EMITTER_FAILED));
        }
        Ok(())
    }

    /// Hand over what was collected.
    pub fn drain(&mut self) -> (result: Result<(), Error>)
        requires
            old(self).wf(),
        ensures
            final(self).wf(),
            drained(*old(self), *final(self), result),
    {
        if self.core.is_empty() {
            assert(self.core.output() =~= Seq::<u8>::empty());
            assert(self.spec_pending() =~= old(self).spec_pending().skip(0));
            return Ok(());
        }
        let mut taken: Option<W> = None;
        std::mem::swap(&mut taken, &mut self.output);
        let mut output = match taken {
            Some(output) => output,
            None => {
                return Ok(());
            },
        };
        let count: usize = self.core.len();
        let floor: usize = if self.threshold > self.previous_drain {
            self.threshold
        } else {
            self.previous_drain
        };
        self.previous_drain = count;
        let result = write_confirmed(&mut output, self.core.buffer());
        let ghost pending = self.core.output();
        self.output = Some(output);
        match result {
            Ok(()) => {
                self.core.clear();
                shrink_vec(self.core.buffer_mut(), floor);
                self.core.reclaim_scratch();
                proof {
                    assert(self.spec_pending() =~= Seq::<u8>::empty());
                    assert(self.spec_pending() =~= pending.skip(pending.len() as int));
                    if W::faithful() {
                        assert(self.total() =~= old(self).total());
                    }
                }
                Ok(())
            },
            Err((written, error)) => {
                self.core.discard(written);
                self.failed = true;
                proof {
                    if W::faithful() {
                        assert(self.total() =~= old(self).total());
                    }
                }
                Err(Error::io(error, Location::start()))
            },
        }
    }

    fn commit(&mut self) -> (result: Result<(), Error>)
        requires
            old(self).wf(),
        ensures
            final(self).wf(),
            committed(*old(self), *final(self), result),
    {
        if self.core.len() >= self.threshold {
            return self.drain();
        }
        Ok(())
    }
}

/// What stays the same whatever happens to the output.
pub open spec fn same_course<W: Sink>(before: IoEmitter<W>, after: IoEmitter<W>) -> bool {
    &&& after.core.emitting() == before.core.emitting()
    &&& after.threshold == before.threshold
}

/// Whether the sink has confirmed what was collected, or has failed and what it
/// did not confirm is still there.
///
/// A faithful sink and what is pending together hold what they held before.
pub open spec fn drained<W: Sink>(
    before: IoEmitter<W>,
    after: IoEmitter<W>,
    result: Result<(), Error>,
) -> bool {
    let pending = before.spec_pending();
    &&& same_course(before, after)
    &&& match result {
        Ok(()) => {
            &&& after.failed == before.failed
            &&& after.spec_pending() == Seq::<u8>::empty()
        },
        Err(error) => {
            &&& after.failed
            &&& sink_error(after, error)
            &&& error.spec_kind() != ErrorKind::Io(IoErrorKind::Interrupted)
            &&& 0 < after.spec_pending().len()
        },
    }
    &&& after.spec_pending().len() <= pending.len()
    &&& after.spec_pending() == pending.skip(pending.len() - after.spec_pending().len())
    &&& W::unfailing() ==> result is Ok
    &&& pending.len() == 0 ==> result is Ok && after == before
    &&& pending.len() > 0 ==> after.previous_drain == pending.len()
    &&& pending.len() > 0 && W::recorded() ==> answered(
        before.output->0,
        after.output->0,
        pending.len() as int,
        outcome(pending.len() as int, after.spec_pending().len() as int, result),
    )
    &&& W::faithful() ==> after.total() == before.total()
}

/// Whether what was collected was handed over if there was enough of it.
pub open spec fn committed<W: Sink>(
    before: IoEmitter<W>,
    after: IoEmitter<W>,
    result: Result<(), Error>,
) -> bool {
    if before.spec_pending().len() >= before.threshold {
        drained(before, after, result)
    } else {
        result is Ok && after == before
    }
}

/// Whether a record was refused, or collected and handed over if there was enough.
///
/// An emitter whose sink failed before refuses everything and changes nothing.
pub open spec fn emits_to<W: Sink>(
    before: IoEmitter<W>,
    after: IoEmitter<W>,
    fields: Seq<Field>,
    result: Result<(), Error>,
) -> bool {
    let emitting = before.core.emitting();
    if before.failed {
        &&& result matches Err(error) && error.says(ErrorKind::EmitterFailed, EMITTER_FAILED@)
        &&& after == before
    } else {
        match emitting.refusal(fields) {
            Some(kind) => {
                &&& result matches Err(error) && error.spec_kind() == kind
                &&& after.spec_pending() == before.spec_pending()
                &&& after.output == before.output
                &&& after.threshold == before.threshold
                &&& after.previous_drain == before.previous_drain
                &&& !after.failed
                &&& after.core.emitting() == emitting
            },
            None => taken_in(
                before,
                after,
                emitting.emitted(fields),
                emitting.after(fields),
                result,
            ),
        }
    }
}

/// Whether bytes were collected and handed over if there was enough.
pub open spec fn taken_in<W: Sink>(
    before: IoEmitter<W>,
    after: IoEmitter<W>,
    bytes: Seq<u8>,
    emitting: Emitting,
    result: Result<(), Error>,
) -> bool {
    let pending = before.spec_pending() + bytes;
    &&& after.core.emitting() == emitting
    &&& after.threshold == before.threshold
    &&& match result {
        Ok(()) => {
            &&& !after.failed
            &&& after.spec_pending() == (if pending.len() >= before.threshold {
                Seq::empty()
            } else {
                pending
            })
        },
        Err(error) => {
            &&& after.failed
            &&& !W::unfailing()
            &&& pending.len() >= before.threshold
            &&& sink_error(after, error)
            &&& error.spec_kind() != ErrorKind::Io(IoErrorKind::Interrupted)
            &&& 0 < after.spec_pending().len() <= pending.len()
            &&& after.spec_pending() == pending.skip(pending.len() - after.spec_pending().len())
        },
    }
    &&& if pending.len() < before.threshold {
        after.output == before.output
    } else {
        W::recorded() ==> answered(
            before.output->0,
            after.output->0,
            pending.len() as int,
            outcome(pending.len() as int, after.spec_pending().len() as int, result),
        )
    }
    &&& W::faithful() ==> after.total() == before.total() + bytes
}

impl<W: Sink> IoEmitter<W> {
    /// Emit a record of fields.
    pub fn emit_record(&mut self, fields: &[&[u8]]) -> (result: Result<(), Error>)
        requires
            old(self).wf(),
        ensures
            final(self).wf(),
            emits_to(*old(self), *final(self), texts(fields@), result),
    {
        if let Err(error) = self.check_failed() {
            return Err(error);
        }
        if let Err(error) = self.core.emit_record(fields) {
            return Err(error);
        }
        let ghost before = *self;
        let result = self.commit();
        proof {
            lemma_committed(
                *old(self),
                before,
                *self,
                old(self).core.emitting().emitted(texts(fields@)),
                result,
            );
        }
        result
    }

    /// Emit a record.
    pub fn emit_byte_record(&mut self, record: &ByteRecord) -> (result: Result<(), Error>)
        requires
            old(self).wf(),
            record.wf(),
        ensures
            final(self).wf(),
            emits_to(*old(self), *final(self), record@, result),
    {
        if let Err(error) = self.check_failed() {
            return Err(error);
        }
        if let Err(error) = self.core.emit_byte_record(record) {
            return Err(error);
        }
        let ghost before = *self;
        let result = self.commit();
        proof {
            lemma_committed(
                *old(self),
                before,
                *self,
                old(self).core.emitting().emitted(record@),
                result,
            );
        }
        result
    }

    /// Emit a record of text.
    pub fn emit_text_record(&mut self, record: &TextRecord) -> (result: Result<(), Error>)
        requires
            old(self).wf(),
            record.wf(),
        ensures
            final(self).wf(),
            emits_to(*old(self), *final(self), record@, result),
    {
        self.emit_byte_record(record.as_byte_record())
    }

    /// Emit a record of fields, some of which may be NULL.
    pub fn emit_nullable_record(&mut self, fields: &[Option<&[u8]>]) -> (result: Result<(), Error>)
        requires
            old(self).wf(),
        ensures
            final(self).wf(),
            emits_to(*old(self), *final(self), row(fields@), result),
    {
        if let Err(error) = self.check_failed() {
            return Err(error);
        }
        if let Err(error) = self.core.emit_nullable_record(fields) {
            return Err(error);
        }
        let ghost before = *self;
        let result = self.commit();
        proof {
            lemma_committed(
                *old(self),
                before,
                *self,
                old(self).core.emitting().emitted(row(fields@)),
                result,
            );
        }
        result
    }

    /// Emit the names of the fields as a record.
    pub fn encode_header(&mut self, names: &ByteRecord) -> (result: Result<(), Error>)
        requires
            old(self).wf(),
            names.wf(),
        ensures
            final(self).wf(),
            emits_to(*old(self), *final(self), names@, result),
    {
        self.emit_byte_record(names)
    }

    /// Emit a value that was turned into a record.
    pub fn encode(&mut self, value: &ByteRecord) -> (result: Result<(), Error>)
        requires
            old(self).wf(),
            value.wf(),
        ensures
            final(self).wf(),
            emits_to(*old(self), *final(self), value@, result),
    {
        self.emit_byte_record(value)
    }

    /// Hand over what was collected, and have the sink push it on.
    pub fn flush(&mut self) -> (result: Result<(), Error>)
        requires
            old(self).wf(),
        ensures
            final(self).wf(),
            flushed(*old(self), *final(self), result),
    {
        if let Err(error) = self.check_failed() {
            return Err(error);
        }
        if let Err(error) = self.drain() {
            return Err(error);
        }
        let mut taken: Option<W> = None;
        std::mem::swap(&mut taken, &mut self.output);
        let mut output = match taken {
            Some(output) => output,
            None => {
                return Ok(());
            },
        };
        let result = output.flush();
        self.output = Some(output);
        match result {
            Ok(()) => Ok(()),
            Err(error) => {
                self.failed = true;
                Err(Error::io(error, Location::start()))
            },
        }
    }

    /// What was emitted and is not confirmed yet.
    pub fn pending(&self) -> (pending: &[u8])
        ensures
            pending@ == self.spec_pending(),
    {
        self.core.buffer()
    }

    /// The sink.
    pub fn get_ref(&self) -> (output: &W)
        requires
            self.wf(),
        ensures
            *output == self.output->0,
    {
        self.output.as_ref().unwrap()
    }

    /// The sink, to be changed.
    pub fn get_mut(&mut self) -> (output: &mut W)
        requires
            old(self).wf(),
        ensures
            *output == old(self).output->0,
            *final(self) == (IoEmitter { output: Some(*final(output)), ..*old(self) }),
    {
        self.output.as_mut().unwrap()
    }

    /// The sink, after everything was handed over.
    pub fn into_inner(self) -> (result: Result<W, IntoInnerError<IoEmitter<W>>>)
        requires
            self.wf(),
        ensures
            self.failed ==> result is Err,
            !self.failed && W::unfailing() ==> result is Ok,
            result matches Ok(output) ==> (W::faithful() ==> output.taken() == self.total()
                && output.settled() == output.taken()),
            result matches Err(error) ==> error.spec_writer().wf() && error.spec_writer().failed,
            result matches Err(error) ==> flushed(self, error.spec_writer(), Err(error.spec_error())),
    {
        let mut emitter = self;
        match emitter.flush() {
            Ok(()) => {
                proof {
                    assert(emitter.spec_pending() =~= Seq::<u8>::empty());
                    assert(emitter.total() =~= emitter.output->0.taken());
                }
                Ok(emitter.take_sink())
            },
            Err(error) => Err(IntoInnerError::new(emitter, error)),
        }
    }

    /// The sink as it is; what is pending is lost.
    pub fn into_inner_unflushed(self) -> (output: W)
        requires
            self.wf(),
        ensures
            output == self.output->0,
    {
        let mut emitter = self;
        emitter.take_sink()
    }

    /// Take the sink out; what is pending is lost.
    pub fn take_sink(&mut self) -> (output: W)
        requires
            old(self).wf(),
        ensures
            output == old(self).output->0,
            final(self).output is None,
            final(self).spec_pending() == Seq::<u8>::empty(),
    {
        self.core.clear();
        let mut taken: Option<W> = None;
        std::mem::swap(&mut taken, &mut self.output);
        taken.unwrap()
    }
}

/// Whether everything was handed over and pushed on, or why not.
pub open spec fn flushed<W: Sink>(
    before: IoEmitter<W>,
    after: IoEmitter<W>,
    result: Result<(), Error>,
) -> bool {
    if before.failed {
        &&& result matches Err(error) && error.says(ErrorKind::EmitterFailed, EMITTER_FAILED@)
        &&& after == before
    } else {
        &&& same_course(before, after)
        &&& match result {
            Ok(()) => {
                &&& !after.failed
                &&& after.spec_pending() == Seq::<u8>::empty()
                &&& W::faithful() ==> after.output->0.settled() == after.output->0.taken()
            },
            Err(error) => after.failed && !W::unfailing() && sink_error(after, error),
        }
        &&& W::faithful() ==> after.total() == before.total()
    }
}

proof fn lemma_committed<W: Sink>(
    start: IoEmitter<W>,
    before: IoEmitter<W>,
    after: IoEmitter<W>,
    bytes: Seq<u8>,
    result: Result<(), Error>,
)
    requires
        !start.failed,
        !before.failed,
        before.output == start.output,
        before.threshold == start.threshold,
        before.spec_pending() == start.spec_pending() + bytes,
        bytes.len() > 0,
        committed(before, after, result),
    ensures
        taken_in(start, after, bytes, before.core.emitting(), result),
{
    assert(before.total() =~= start.total() + bytes);
}

impl<W: Sink> IoEmitter<W> {
    /// Emit a record whose fields have names, after a header record with the
    /// names if none was emitted yet and one is wanted.
    ///
    /// Where one of the two is refused, neither is emitted.
    pub fn serialize(&mut self, names: &ByteRecord, record: &ByteRecord) -> (result: Result<
        (),
        Error,
    >)
        requires
            old(self).wf(),
            names.wf(),
            record.wf(),
        ensures
            final(self).wf(),
            ({
                let before = old(self).core.emitting();
                let headed = Emitting { header_pending: false, ..before.after(names@) };
                if old(self).failed || !before.header_pending {
                    emits_to(*old(self), *final(self), record@, result)
                } else if before.refusal(names@) is Some {
                    emits_to(*old(self), *final(self), names@, result)
                } else {
                    let header = before.emitted(names@);
                    match headed.refusal(record@) {
                        Some(kind) => {
                            &&& result matches Err(error) && error.spec_kind() == kind
                            &&& final(self).spec_pending() == old(self).spec_pending()
                            &&& final(self).output == old(self).output
                            &&& !final(self).failed
                            &&& final(self).core.emitting() == before
                        },
                        None => taken_in(
                            *old(self),
                            *final(self),
                            header + headed.emitted(record@),
                            headed.after(record@),
                            result,
                        ),
                    }
                }
            }),
    {
        if let Err(error) = self.check_failed() {
            return Err(error);
        }
        if let Err(error) = self.core.emit_named_record(names, record) {
            return Err(error);
        }
        let ghost before = *self;
        let result = self.commit();
        proof {
            let emitting = old(self).core.emitting();
            let headed = Emitting { header_pending: false, ..emitting.after(names@) };
            let bytes = if emitting.header_pending {
                emitting.emitted(names@) + headed.emitted(record@)
            } else {
                emitting.emitted(record@)
            };
            assert(before.spec_pending() =~= old(self).spec_pending() + bytes);
            lemma_committed(*old(self), before, *self, bytes, result);
        }
        result
    }
}

/// A record that is built field by field.
///
/// It is built in storage of its emitter, which keeps that storage whether the
/// record is finished or dropped; a record that is dropped is not emitted.
pub struct PendingIoRecord<'writer, W: Sink> {
    /// Where the record goes.
    pub writer: &'writer mut IoEmitter<W>,
}

impl<W: Sink> IoEmitter<W> {
    /// Build a record field by field.
    pub fn begin_record(&mut self) -> (pending: PendingIoRecord<'_, W>)
        requires
            old(self).wf(),
        ensures
            pending.record() == Seq::<Field>::empty(),
            pending.bytes_len() == 0,
            pending.wf(),
            same_state(*pending.writer, *old(self)),
            *final(self) == *final(pending.writer),
    {
        self.core.start_building();
        PendingIoRecord { writer: self }
    }
}

/// Whether two emitters differ in scratch storage at most.
pub open spec fn same_state<W: Sink>(a: IoEmitter<W>, b: IoEmitter<W>) -> bool {
    &&& a.output == b.output
    &&& a.threshold == b.threshold
    &&& a.previous_drain == b.previous_drain
    &&& a.failed == b.failed
    &&& a.spec_pending() == b.spec_pending()
    &&& a.core.emitting() == b.core.emitting()
}

impl<'writer, W: Sink> PendingIoRecord<'writer, W> {
    /// The record so far.
    pub open spec fn record(&self) -> Seq<Field> {
        self.writer.core.spec_built()
    }

    /// How many bytes the record so far holds.
    pub open spec fn bytes_len(&self) -> nat {
        self.writer.core.spec_built_bytes()
    }

    /// Whether the emitter is usable.
    pub open spec fn wf(&self) -> bool {
        self.writer.wf()
    }

    /// Add a field.
    pub fn write_field(&mut self, field: &[u8]) -> (result: Result<(), Error>)
        requires
            old(self).wf(),
            old(self).bytes_len() + field@.len() <= MAX_FIELD_OFFSET,
        ensures
            final(self).wf(),
            result is Ok,
            final(self).record() == old(self).record().push(text(field@)),
            final(self).bytes_len() == old(self).bytes_len() + field@.len(),
            same_state(*final(self).writer, *old(self).writer),
            *final(final(self).writer) == *final(old(self).writer),
    {
        self.writer.core.build_field(field);
        Ok(())
    }

    /// Add a NULL.
    pub fn write_null(&mut self) -> (result: Result<(), Error>)
        requires
            old(self).wf(),
        ensures
            final(self).wf(),
            result is Ok,
            final(self).record() == old(self).record().push(null_field()),
            final(self).bytes_len() == old(self).bytes_len(),
            same_state(*final(self).writer, *old(self).writer),
            *final(final(self).writer) == *final(old(self).writer),
    {
        self.writer.core.build_null();
        Ok(())
    }

    /// How many fields were added.
    pub fn pending_fields(&self) -> (count: usize)
        ensures
            count == self.record().len(),
    {
        self.writer.core.built_fields()
    }

    /// Emit the record.
    pub fn finish(self) -> (result: Result<(), Error>)
        requires
            self.wf(),
        ensures
            final(self.writer).wf(),
            exists|unbuilt: IoEmitter<W>, emitted: IoEmitter<W>|
                same_state(unbuilt, *old(self.writer)) && #[trigger] emits_to(
                    unbuilt,
                    emitted,
                    self.record(),
                    result,
                ) && same_state(*final(self.writer), emitted),
    {
        let ghost fields = self.record();
        let record = self.writer.core.take_built();
        let ghost unbuilt = *self.writer;
        let result = self.writer.emit_byte_record(&record);
        let ghost emitted = *self.writer;
        self.writer.core.return_builder_record(record);
        assert(emits_to(unbuilt, emitted, fields, result));
        result
    }
}

/// What is pending after the first `count` records were emitted, where the sink
/// takes whatever is handed over.
pub open spec fn pending_after(
    emitting: Emitting,
    pending: Seq<u8>,
    threshold: usize,
    records: Seq<Seq<Field>>,
    count: int,
) -> Seq<u8>
    decreases count,
{
    if count <= 0 {
        pending
    } else {
        let collected = pending_after(emitting, pending, threshold, records, count - 1)
            + emitting.after_all(records, count - 1).emitted(records[count - 1]);
        if collected.len() >= threshold {
            Seq::empty()
        } else {
            collected
        }
    }
}

/// Whether values were emitted until one was refused or the sink failed.
pub open spec fn emits_all<W: Sink>(
    before: IoEmitter<W>,
    after: IoEmitter<W>,
    records: Seq<Seq<Field>>,
    done: int,
    result: Result<(), Error>,
) -> bool {
    let emitting = before.core.emitting();
    &&& 0 <= done <= records.len()
    &&& emitting.accepts(records, done)
    &&& after.core.emitting() == emitting.after_all(records, done)
    &&& after.threshold == before.threshold
    &&& !after.failed ==> after.spec_pending() == pending_after(
        emitting,
        before.spec_pending(),
        before.threshold,
        records,
        done,
    )
    &&& W::faithful() ==> after.total() == before.total() + emitting.all_emitted(records, done)
    &&& match result {
        Ok(()) => {
            &&& done == records.len()
            &&& after.failed == before.failed
            &&& records.len() > 0 ==> !before.failed
        },
        Err(error) => if after.failed {
            (error.spec_kind() is Io && !W::unfailing() && sink_error(after, error)) || (error.spec_kind()
                == ErrorKind::EmitterFailed && before.failed && done == 0)
        } else {
            done < records.len() && emitting.after_all(records, done).refusal(records[done])
                == Some(error.spec_kind())
        },
    }
}

/// Whether records were emitted one after the other through these states, and
/// `result` is what came of the last of them: the first failure, or the success
/// of all.
pub open spec fn emits_each<W: Sink>(
    states: Seq<IoEmitter<W>>,
    records: Seq<Seq<Field>>,
    result: Result<(), Error>,
) -> bool {
    let steps = states.len() - 1;
    &&& 0 <= steps <= records.len()
    &&& forall|i: int|
        0 <= i < steps - 1 ==> #[trigger] emits_to(states[i], states[i + 1], records[i], Ok(()))
    &&& steps > 0 ==> emits_to(states[steps - 1], states[steps], records[steps - 1], result)
    &&& match result {
        Ok(()) => steps == records.len(),
        Err(_) => steps > 0,
    }
}

impl<W: Sink> IoEmitter<W> {
    /// Emit values that were turned into records.
    ///
    /// The first failure ends it; what was emitted before stays emitted.
    pub fn encode_all(&mut self, values: &[ByteRecord]) -> (result: Result<(), Error>)
        requires
            old(self).wf(),
            forall|i: int| 0 <= i < values@.len() ==> (#[trigger] values@[i]).wf(),
        ensures
            final(self).wf(),
            exists|done: int|
                #[trigger] emits_all(*old(self), *final(self), rows(values@), done, result),
            exists|states: Seq<IoEmitter<W>>| #[trigger]
                emits_each(states, rows(values@), result) && states.first() == *old(self)
                    && states.last() == *final(self),
    {
        let ghost records = rows(values@);
        let ghost mut states: Seq<IoEmitter<W>> = seq![*self];
        let ghost emitting = self.core.emitting();
        let mut at: usize = 0;
        proof {
            if W::faithful() {
                assert(self.total() =~= old(self).total() + emitting.all_emitted(records, 0));
            }
        }
        while at < values.len()
            invariant
                at <= values.len(),
                self.wf(),
                records == rows(values@),
                emitting == old(self).core.emitting(),
                at == 0 ==> *self == *old(self),
                states.len() == at + 1,
                states.first() == *old(self),
                states.last() == *self,
                forall|i: int|
                    0 <= i < at ==> #[trigger] emits_to(
                        states[i],
                        states[i + 1],
                        records[i],
                        Ok(()),
                    ),
                at > 0 ==> !self.failed && !old(self).failed,
                !old(self).failed ==> !self.failed,
                emitting.accepts(records, at as int),
                self.core.emitting() == emitting.after_all(records, at as int),
                self.threshold == old(self).threshold,
                self.spec_pending() == pending_after(
                    emitting,
                    old(self).spec_pending(),
                    old(self).threshold,
                    records,
                    at as int,
                ),
                W::faithful() ==> self.total() == old(self).total() + emitting.all_emitted(
                    records,
                    at as int,
                ),
                forall|i: int| 0 <= i < values@.len() ==> (#[trigger] values@[i]).wf(),
            decreases values.len() - at,
        {
            let ghost here = *self;
            let result = self.encode(&values[at]);
            proof {
                let fields = records[at as int];
                assert(fields == values@[at as int]@);
                let earlier = states;
                states = states.push(*self);
                assert(emits_to(states[at as int], states[at + 1], fields, result));
                assert forall|i: int| 0 <= i < at implies #[trigger] emits_to(
                    states[i],
                    states[i + 1],
                    records[i],
                    Ok(()),
                ) by {
                    assert(emits_to(earlier[i], earlier[i + 1], records[i], Ok(())));
                }
                if !here.failed && here.core.emitting().refusal(fields) is None {
                    assert(emitting.accepts(records, at + 1)) by {
                        assert forall|i: int| 0 <= i < at + 1 implies (
                        #[trigger] emitting.after_all(records, i)).refusal(records[i]) is None by {}
                    }
                    if W::faithful() {
                        assert(self.total() =~= old(self).total() + emitting.all_emitted(
                            records,
                            at + 1,
                        ));
                    }
                }
            }
            if let Err(error) = result {
                proof {
                    let fields = records[at as int];
                    if !here.failed && here.core.emitting().refusal(fields) is None {
                        assert(emits_all(*old(self), *self, records, at + 1, result));
                    } else {
                        assert(emits_all(*old(self), *self, records, at as int, result));
                    }
                    assert(emits_each(states, records, result));
                }
                return Err(error);
            }
            at += 1;
        }
        assert(emits_all(*old(self), *self, records, at as int, Ok(())));
        proof {
            if at > 0 {
                assert(emits_to(states[at - 1], states[at - 1 + 1], records[at - 1], Ok(())));
            }
            assert(emits_each(states, records, Ok(())));
        }
        Ok(())
    }
}

/// What stands in a document that is to be continued.
#[derive(Clone, Copy, Debug, PartialEq, Eq, Structural)]
pub enum DocumentState {
    /// Nothing.
    Empty,
    /// A byte-order mark.
    BomOnly,
    /// Records, the last of which is terminated.
    HasRecords,
}

/// Whether `bytes` end with `tail`.
pub open spec fn ends_with(bytes: Seq<u8>, tail: Seq<u8>) -> bool {
    tail.len() <= bytes.len() && bytes.skip(bytes.len() - tail.len()) == tail
}

fn has_suffix(bytes: &[u8], tail: &Vec<u8>) -> (yes: bool)
    ensures
        yes == ends_with(bytes@, tail@),
{
    if tail.len() > bytes.len() {
        return false;
    }
    let start: usize = bytes.len() - tail.len();
    let mut at: usize = 0;
    while at < tail.len()
        invariant
            at <= tail.len() <= bytes.len(),
            start == bytes.len() - tail.len(),
            forall|i: int| 0 <= i < at ==> bytes@[start + i] == #[trigger] tail@[i],
        decreases tail.len() - at,
    {
        if bytes[start + at] != tail[at] {
            assert(bytes@.skip(start as int)[at as int] != tail@[at as int]);
            return false;
        }
        at += 1;
    }
    assert(bytes@.skip(start as int) =~= tail@);
    true
}

/// The bytes behind a record.
fn ending_of(dialect: Dialect) -> (ending: Vec<u8>)
    requires
        dialect.valid(),
    ensures
        ending@ == (Writing {
            dialect,
            quoting: Quoting::Necessary,
            nulls: Nulls::Disabled,
        }).ending_bytes(),
{
    let writing = Writing { dialect, quoting: Quoting::Necessary, nulls: Nulls::Disabled };
    let mut ending: Vec<u8> = Vec::new();
    writing.write_ending(&mut ending);
    assert(ending@ =~= writing.ending_bytes());
    ending
}

/// What stands in a document that is to be continued.
///
/// Fails when the last record is not terminated.
pub fn document_state(document: &[u8], dialect: Dialect) -> (result: Result<DocumentState, Error>)
    requires
        dialect.valid(),
    ensures
        ({
            let writing = Writing { dialect, quoting: Quoting::Necessary, nulls: Nulls::Disabled };
            if document@.len() == 0 {
                result == Ok::<DocumentState, Error>(DocumentState::Empty)
            } else if document@ == bom() {
                result == Ok::<DocumentState, Error>(DocumentState::BomOnly)
            } else if ends_with(document@, writing.ending_bytes()) {
                result == Ok::<DocumentState, Error>(DocumentState::HasRecords)
            } else {
                result matches Err(error) && error.spec_kind() == ErrorKind::UnterminatedRecord
                    && error.spec_location() == Location::start()
            }
        }),
{
    if document.len() == 0 {
        return Ok(DocumentState::Empty);
    }
    let marked = document.len() == 3 && starts_with_bom(document);
    proof {
        if marked {
            assert(document@ =~= bom());
        }
    }
    if marked {
        return Ok(DocumentState::BomOnly);
    }
    let ending = ending_of(dialect);
    if has_suffix(document, &ending) {
        Ok(DocumentState::HasRecords)
    } else {
        Err(Error::new(ErrorKind::UnterminatedRecord, Location::start()))
    }
}

/// How many fields the first record of a document has.
pub open spec fn first_width(document: Seq<u8>, settings: ParserSettings) -> Option<
    Result<nat, (ErrorKind, int, int)>,
> {
    let start = settings.record_start(document, settings.document_start(document));
    if start >= document.len() {
        None
    } else {
        match settings.rules().read_record(document, start, settings.nulls) {
            Scan::Done { fields, .. } => Some(Ok(fields.len())),
            Scan::Failed { kind, at, number } => Some(Err((kind, at, number))),
            Scan::Paused { .. } => None,
        }
    }
}

/// How many fields the first record of a document has.
pub fn existing_file_field_count(document: &[u8], format: FormatOptions) -> (result: Result<
    Option<usize>,
    Error,
>)
    requires
        format.dialect.valid(),
    ensures
        counts_first(document@, format, result),
{
    let settings = ParserSettings::from_format(format, Limits::standard());
    let mut parser = match SliceParser::with_settings(document, settings) {
        Ok(parser) => parser,
        Err(error) => {
            return Err(error);
        },
    };
    let mut record = RecordStorage::new();
    proof {
        assert(document@.len() == document.len());
        lemma_record_start(settings, document@, settings.document_start(document@));
    }
    match parser.next_start(&mut record) {
        Ok(Some(_)) => Ok(Some(record.len())),
        Ok(None) => Ok(None),
        Err(error) => Err(error),
    }
}

/// Whether `result` is how many fields the first record of a document has.
pub open spec fn counts_first(
    document: Seq<u8>,
    format: FormatOptions,
    result: Result<Option<usize>, Error>,
) -> bool {
    let settings = ParserSettings::of_format(format, Limits::standard());
    if format.read_bom == ReadBom::Reject && has_bom(document) {
        result matches Err(error) && settings.refused_with(error)
    } else {
        match first_width(document, settings) {
            None => result == Ok::<Option<usize>, Error>(None),
            Some(Ok(width)) => result matches Ok(Some(count)) && count == width,
            Some(Err((kind, at, number))) => result matches Err(error) && reports(
                error,
                0,
                document,
                kind,
                at,
                number,
            ),
        }
    }
}

/// How a document is continued.
#[derive(Clone, Copy, Debug)]
pub struct Resumption {
    /// Whether a byte-order mark goes before the first record.
    pub write_bom: WriteBom,
    /// Whether there are records already.
    pub resuming: bool,
    /// How many fields the first record has, where that counts.
    pub expected_fields: Option<usize>,
}

impl Resumption {
    /// How a document is continued.
    ///
    /// A byte-order mark and a header are written only into a document without
    /// records. Where records must have as many fields as the first one, that
    /// is the first one of the document.
    pub fn of(document: &[u8], format: FormatOptions, options: EmitOptions) -> (result: Result<
        Resumption,
        Error,
    >)
        ensures
            ({
                let writing = Writing {
                    dialect: format.dialect,
                    quoting: Quoting::Necessary,
                    nulls: Nulls::Disabled,
                };
                let fresh = document@.len() == 0;
                let resuming = !fresh && document@ != bom();
                let matching = options.field_count == FieldCount::MatchFirst;
                if !(format.dialect.valid() && options.buffer_capacity > 0) {
                    result matches Err(error) && error.misconfigured()
                } else if resuming && !ends_with(document@, writing.ending_bytes()) {
                    result matches Err(error) && error.spec_kind()
                        == ErrorKind::UnterminatedRecord
                } else {
                    match result {
                        Err(error) => resuming && matching && counts_first(
                            document@,
                            format,
                            Err(error),
                        ),
                        Ok(resumption) => {
                            &&& resumption.resuming == resuming
                            &&& resumption.write_bom == (if fresh {
                                format.write_bom
                            } else {
                                WriteBom::Omit
                            })
                            &&& if resuming && matching {
                                counts_first(document@, format, Ok(resumption.expected_fields))
                            } else {
                                resumption.expected_fields is None
                            }
                        },
                    }
                }
            }),
    {
        if let Err(error) = options.validate_buffered(format) {
            return Err(error);
        }
        let state = match document_state(document, format.dialect) {
            Ok(state) => state,
            Err(error) => {
                return Err(error);
            },
        };
        let write_bom = if state == DocumentState::Empty {
            format.write_bom
        } else {
            WriteBom::Omit
        };
        let resuming = state == DocumentState::HasRecords;
        let expected_fields = if resuming && options.field_count == FieldCount::MatchFirst {
            match existing_file_field_count(document, format) {
                Ok(count) => count,
                Err(error) => {
                    return Err(error);
                },
            }
        } else {
            None
        };
        Ok(Resumption { write_bom, resuming, expected_fields })
    }
}

impl<W: Sink> IoEmitter<W> {
    /// An emitter that continues a document in this way.
    pub fn resumed(
        output: W,
        format: FormatOptions,
        options: EmitOptions,
        resumption: Resumption,
    ) -> (emitter: IoEmitter<W>)
        requires
            format.dialect.valid(),
        ensures
            emitter.wf(),
            emitter.output == Some(output),
            !emitter.failed,
            emitter.threshold == options.buffer_capacity,
            emitter.previous_drain == 0,
            emitter.spec_pending() == Seq::<u8>::empty(),
            emitter.core.emitting() == (Emitting {
                bom_pending: resumption.write_bom == WriteBom::Emit,
                header_pending: options.has_headers && !resumption.resuming,
                expected_fields: resumption.expected_fields,
                ..Emitting::starting(format, options)
            }),
    {
        let mut emitter = IoEmitter::from_config(
            output,
            format.dialect,
            format.quoting,
            resumption.write_bom,
            format.nulls,
            options.field_count,
            options.has_headers && !resumption.resuming,
            options.buffer_capacity,
        );
        emitter.core.set_expected_fields(resumption.expected_fields);
        emitter
    }

    /// An emitter that continues a document.
    ///
    /// A byte-order mark and a header are written only into a document without
    /// records. Where records must have as many fields as the first one, that
    /// is the first one of the document. Answers whether there were records.
    pub fn append_resuming(
        output: W,
        document: &[u8],
        format: FormatOptions,
        options: EmitOptions,
    ) -> (result: Result<(IoEmitter<W>, bool), Error>)
        ensures
            ({
                let writing = Writing {
                    dialect: format.dialect,
                    quoting: Quoting::Necessary,
                    nulls: Nulls::Disabled,
                };
                let fresh = document@.len() == 0;
                let resuming = !fresh && document@ != bom();
                let matching = options.field_count == FieldCount::MatchFirst;
                if !(format.dialect.valid() && options.buffer_capacity > 0) {
                    result matches Err(error) && error.misconfigured()
                } else if resuming && !ends_with(document@, writing.ending_bytes()) {
                    result matches Err(error) && error.spec_kind()
                        == ErrorKind::UnterminatedRecord
                } else {
                    match result {
                        Err(error) => resuming && matching && counts_first(
                            document@,
                            format,
                            Err(error),
                        ),
                        Ok((emitter, resumed)) => {
                            &&& resumed == resuming
                            &&& emitter.wf()
                            &&& emitter.output == Some(output)
                            &&& !emitter.failed
                            &&& emitter.threshold == options.buffer_capacity
                            &&& emitter.spec_pending() == Seq::<u8>::empty()
                            &&& emitter.core.emitting() == (Emitting {
                                bom_pending: fresh && format.write_bom == WriteBom::Emit,
                                header_pending: options.has_headers && !resuming,
                                expected_fields: emitter.core.emitting().expected_fields,
                                ..Emitting::starting(format, options)
                            })
                            &&& if resuming && matching {
                                counts_first(
                                    document@,
                                    format,
                                    Ok(emitter.core.emitting().expected_fields),
                                )
                            } else {
                                emitter.core.emitting().expected_fields is None
                            }
                        },
                    }
                }
            }),
    {
        match Resumption::of(document, format, options) {
            Ok(resumption) => Ok(
                (IoEmitter::resumed(output, format, options, resumption), resumption.resuming),
            ),
            Err(error) => Err(error),
        }
    }
}

} // verus!
