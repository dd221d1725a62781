//! Writing whole documents.

use vstd::prelude::*;

use crate::byte_record::ByteRecord;
use crate::config::{FieldCount, WriteBom};
use crate::emit::encoding::Writing;
use crate::emit::push_emitter::{all_rows, rows, Emitting, PushEmitter};
use crate::engine::{bom, BOM_FIRST, BOM_SECOND, BOM_THIRD};
use crate::error::{Error, ErrorKind};
use crate::into_inner_error::IntoInnerError;
use crate::io_emitter::{
    counts_first, emits_all, ends_with, sink_error, IoEmitter, Resumption, Sink,
};
use crate::options::{EmitOptions, FormatOptions};
use crate::storage::Field;

verus! {

/// What is wrong with a limit of nothing.
pub const SEGMENT_SIZE_ZERO: &'static str = "segment size must be greater than zero";

/// Write a document into memory.
///
/// The names come first if a header is wanted. The first record that cannot be
/// written ends it.
pub fn encode_to_vec(
    names: &ByteRecord,
    values: &[ByteRecord],
    format: FormatOptions,
    options: EmitOptions,
) -> (result: Result<Vec<u8>, Error>)
    requires
        names.wf(),
        forall|i: int| 0 <= i < values@.len() ==> (#[trigger] values@[i]).wf(),
    ensures
        ({
            let records = all_rows(names@, values@, options.has_headers);
            let n = records.len() as int;
            let emitting = Emitting::starting(format, options);
            if !format.dialect.valid() {
                result matches Err(error) && error.misconfigured()
            } else {
                match result {
                    Ok(document) => emitting.accepts(records, n) && document@
                        == emitting.all_emitted(records, n),
                    Err(error) => record_refused(
                        error,
                        emitting,
                        names@,
                        values@,
                        options.has_headers,
                    ),
                }
            }
        }),
{
    let mut emitter = match PushEmitter::with_options(format, options) {
        Ok(emitter) => emitter,
        Err(error) => {
            return Err(error);
        },
    };
    let headed = options.has_headers;
    let ghost records = all_rows(names@, values@, headed);
    let ghost emitting = emitter.emitting();
    if headed {
        if let Err(error) = emitter.emit_byte_record(names) {
            assert(records[0] == names@);
            return Err(error);
        }
    }
    let ghost tail = rows(values@);
    let ghost start = emitter.emitting();
    let ghost header = emitter.output();
    let mut index: usize = 0;
    assert(header + start.all_emitted(tail, 0) =~= header);
    while index < values.len()
        invariant
            index <= values@.len() == tail.len(),
            tail == rows(values@),
            records == all_rows(names@, values@, headed),
            headed == options.has_headers,
            emitting == Emitting::starting(format, options),
            headed ==> start == emitting.after(names@) && header == emitting.emitted(names@)
                && emitting.refusal(names@) is None,
            !headed ==> start == emitting && header == Seq::<u8>::empty(),
            format.dialect.valid(),
            forall|i: int| 0 <= i < values@.len() ==> (#[trigger] values@[i]).wf(),
            emitter.wf(),
            emitter.emitting() == start.after_all(tail, index as int),
            start.accepts(tail, index as int),
            emitter.output() == header + start.all_emitted(tail, index as int),
        decreases values.len() - index,
    {
        assert(tail[index as int] == values@[index as int]@);
        if let Err(error) = emitter.emit_byte_record(&values[index]) {
            proof {
                if headed {
                    lemma_after_first(emitting, names@, tail, index as int);
                    lemma_first_accepted(emitting, names@, tail, index as int);
                    assert(records[index + 1] == tail[index as int]);
                } else {
                    assert(records[index as int] == tail[index as int]);
                }
            }
            return Err(error);
        }
        proof {
            assert(start.accepts(tail, index + 1)) by {
                assert forall|i: int| 0 <= i < index + 1 implies (#[trigger] start.after_all(
                    tail,
                    i,
                )).refusal(tail[i]) is None by {}
            }
            assert(emitter.output() =~= header + start.all_emitted(tail, index + 1));
        }
        index += 1;
    }
    proof {
        if headed {
            lemma_after_first(emitting, names@, tail, index as int);
            lemma_first_accepted(emitting, names@, tail, index as int);
        }
        assert(emitter.output() =~= emitting.all_emitted(records, records.len() as int));
    }
    Ok(emitter.into_inner())
}

/// Write records whose fields have names into memory.
///
/// The names come first if a header is wanted and there are records.
pub fn serialize_to_vec(
    names: &ByteRecord,
    values: &[ByteRecord],
    format: FormatOptions,
    options: EmitOptions,
) -> (result: Result<Vec<u8>, Error>)
    requires
        names.wf(),
        forall|i: int| 0 <= i < values@.len() ==> (#[trigger] values@[i]).wf(),
    ensures
        ({
            let headed = options.has_headers && values@.len() > 0;
            let records = all_rows(names@, values@, headed);
            let n = records.len() as int;
            let emitting = Emitting { header_pending: headed, ..Emitting::starting(format, options) };
            if !format.dialect.valid() {
                result matches Err(error) && error.misconfigured()
            } else {
                match result {
                    Ok(document) => emitting.accepts(records, n) && document@
                        == emitting.all_emitted(records, n),
                    Err(error) => record_refused(error, emitting, names@, values@, headed),
                }
            }
        }),
{
    let has_headers = options.has_headers && values.len() > 0;
    encode_to_vec(names, values, format, EmitOptions { has_headers, ..options })
}

/// Whether a document was handed to a sink, or why not.
///
/// A faithful sink holds what it held before and the document, and was pushed on
/// behind it.
pub open spec fn document_handed<W: Sink>(
    output: W,
    held: Seq<u8>,
    emitting: Emitting,
    names: Seq<Field>,
    values: Seq<ByteRecord>,
    headed: bool,
) -> bool {
    let records = all_rows(names, values, headed);
    let n = records.len() as int;
    &&& emitting.accepts(records, n)
    &&& W::faithful() ==> output.taken() == held + emitting.all_emitted(records, n)
        && output.settled() == output.taken()
}

/// Whether an error is the refusal of the first record that cannot be written.
pub open spec fn record_refused(
    error: Error,
    emitting: Emitting,
    names: Seq<Field>,
    values: Seq<ByteRecord>,
    headed: bool,
) -> bool {
    let records = all_rows(names, values, headed);
    exists|k: int|
        #![trigger records[k]]
        0 <= k < records.len() && emitting.accepts(records, k) && emitting.after_all(
            records,
            k,
        ).refusal(records[k]) == Some(error.spec_kind())
}

/// Whether all records of a document were emitted and pushed on.
pub open spec fn delivered<W: Sink>(
    before: IoEmitter<W>,
    after: IoEmitter<W>,
    records: Seq<Seq<Field>>,
) -> bool {
    let emitting = before.core.emitting();
    let n = records.len() as int;
    &&& emitting.accepts(records, n)
    &&& !after.failed
    &&& after.spec_pending() == Seq::<u8>::empty()
    &&& W::faithful() ==> after.total() == before.total() + emitting.all_emitted(records, n)
        && after.output->0.settled() == after.output->0.taken()
}

/// Whether a document could not be emitted: the record after the first `done` was
/// refused, or the sink failed when those had been taken in.
///
/// `bytes` is what was emitted until then.
pub open spec fn stopped<W: Sink>(
    before: IoEmitter<W>,
    after: IoEmitter<W>,
    records: Seq<Seq<Field>>,
    done: int,
    bytes: Seq<u8>,
    error: Error,
) -> bool {
    let emitting = before.core.emitting();
    &&& 0 <= done <= records.len()
    &&& emitting.accepts(records, done)
    &&& W::faithful() ==> after.total() == before.total() + bytes
    &&& if after.failed {
        error.spec_kind() is Io && !W::unfailing() && sink_error(after, error)
    } else {
        done < records.len() && emitting.after_all(records, done).refusal(records[done]) == Some(
            error.spec_kind(),
        )
    }
}

/// What was emitted of the first `done` records of a document whose names go with
/// the first value: neither without the other.
pub open spec fn emitted_together(
    emitting: Emitting,
    records: Seq<Seq<Field>>,
    headed: bool,
    done: int,
) -> Seq<u8> {
    if headed && done <= 1 {
        Seq::empty()
    } else {
        emitting.all_emitted(records, done)
    }
}

/// Whether a sink was handed a document up to a record that was refused, or up to
/// its failure.
///
/// A faithful sink holds the front of that, and all of it if it cannot fail.
pub open spec fn document_cut<W: Sink>(
    output: W,
    held: Seq<u8>,
    emitting: Emitting,
    records: Seq<Seq<Field>>,
    done: int,
    bytes: Seq<u8>,
    error: Error,
) -> bool {
    let all = held + bytes;
    &&& 0 <= done <= records.len()
    &&& emitting.accepts(records, done)
    &&& W::faithful() ==> {
        &&& output.taken().len() <= all.len()
        &&& output.taken() == all.take(output.taken().len() as int)
        &&& W::unfailing() ==> output.taken() == all
    }
    &&& (error.spec_kind() is Io && !W::unfailing()) || (done < records.len() && emitting.after_all(
        records,
        done,
    ).refusal(records[done]) == Some(error.spec_kind()))
}

/// Whether a document could not be emitted.
pub open spec fn encoding_stopped<W: Sink>(
    before: IoEmitter<W>,
    after: IoEmitter<W>,
    records: Seq<Seq<Field>>,
    error: Error,
) -> bool {
    exists|done: int|
        #[trigger] stopped(
            before,
            after,
            records,
            done,
            before.core.emitting().all_emitted(records, done),
            error,
        )
}

/// Whether a document whose names go with the first value could not be emitted.
pub open spec fn serializing_stopped<W: Sink>(
    before: IoEmitter<W>,
    after: IoEmitter<W>,
    records: Seq<Seq<Field>>,
    headed: bool,
    error: Error,
) -> bool {
    exists|done: int|
        #[trigger] stopped(
            before,
            after,
            records,
            done,
            emitted_together(before.core.emitting(), records, headed, done),
            error,
        )
}

/// Whether a sink was handed a document up to what stopped it.
pub open spec fn document_stopped<W: Sink>(
    output: W,
    held: Seq<u8>,
    emitting: Emitting,
    records: Seq<Seq<Field>>,
    error: Error,
) -> bool {
    exists|done: int|
        #[trigger] document_cut(
            output,
            held,
            emitting,
            records,
            done,
            emitting.all_emitted(records, done),
            error,
        )
}

/// Whether a sink was handed a document whose names go with the first value up to
/// what stopped it.
pub open spec fn serialized_document_stopped<W: Sink>(
    output: W,
    held: Seq<u8>,
    emitting: Emitting,
    records: Seq<Seq<Field>>,
    headed: bool,
    error: Error,
) -> bool {
    exists|done: int|
        #[trigger] document_cut(
            output,
            held,
            emitting,
            records,
            done,
            emitted_together(emitting, records, headed, done),
            error,
        )
}

/// What was stopped stays stopped when the sink is taken.
proof fn lemma_given_up<W: Sink>(
    before: IoEmitter<W>,
    after: IoEmitter<W>,
    output: W,
    records: Seq<Seq<Field>>,
    error: Error,
)
    requires
        encoding_stopped(before, after, records, error),
        rescued(after, output),
    ensures
        document_stopped(output, before.total(), before.core.emitting(), records, error),
{
    let emitting = before.core.emitting();
    let done = choose|done: int|
        #[trigger] stopped(
            before,
            after,
            records,
            done,
            emitting.all_emitted(records, done),
            error,
        );
    assert(document_cut(
        output,
        before.total(),
        emitting,
        records,
        done,
        emitting.all_emitted(records, done),
        error,
    ));
}

proof fn lemma_serialized_given_up<W: Sink>(
    before: IoEmitter<W>,
    after: IoEmitter<W>,
    output: W,
    records: Seq<Seq<Field>>,
    headed: bool,
    error: Error,
)
    requires
        serializing_stopped(before, after, records, headed, error),
        rescued(after, output),
    ensures
        serialized_document_stopped(
            output,
            before.total(),
            before.core.emitting(),
            records,
            headed,
            error,
        ),
{
    let emitting = before.core.emitting();
    let done = choose|done: int|
        #[trigger] stopped(
            before,
            after,
            records,
            done,
            emitted_together(emitting, records, headed, done),
            error,
        );
    assert(document_cut(
        output,
        before.total(),
        emitting,
        records,
        done,
        emitted_together(emitting, records, headed, done),
        error,
    ));
}

/// Emit a document and hand it over.
fn drive<W: Sink>(
    emitter: &mut IoEmitter<W>,
    names: &ByteRecord,
    values: &[ByteRecord],
    write_headers: bool,
) -> (result: Result<(), Error>)
    requires
        old(emitter).wf(),
        !old(emitter).failed,
        names.wf(),
        forall|i: int| 0 <= i < values@.len() ==> (#[trigger] values@[i]).wf(),
    ensures
        final(emitter).wf(),
        ({
            let records = all_rows(names@, values@, write_headers);
            match result {
                Ok(()) => delivered(*old(emitter), *final(emitter), records),
                Err(error) => encoding_stopped(*old(emitter), *final(emitter), records, error),
            }
        }),
{
    let ghost start = *emitter;
    let ghost emitting = emitter.core.emitting();
    let ghost records = all_rows(names@, values@, write_headers);
    if write_headers {
        if let Err(error) = emitter.encode_header(names) {
            proof {
                assert(records[0] == names@);
                assert(emitting.after_all(records, 0) == emitting);
                assert(start.total() + emitting.all_emitted(records, 0) =~= start.total());
                assert(emitting.all_emitted(records, 1) =~= emitting.emitted(names@));
                let done = if emitter.failed {
                    1int
                } else {
                    0int
                };
                assert(stopped(
                    start,
                    *emitter,
                    records,
                    done,
                    emitting.all_emitted(records, done),
                    error,
                ));
            }
            return Err(error);
        }
    }
    let ghost headed = *emitter;
    let result = emitter.encode_all(values);
    let ghost after = *emitter;
    let ghost tail = rows(values@);
    let ghost done = choose|done: int|
        #[trigger] emits_all(headed, after, rows(values@), done, result);
    let ghost all = if write_headers {
        done + 1
    } else {
        done
    };
    proof {
        if write_headers {
            lemma_after_first(emitting, names@, tail, done);
            assert(records =~= seq![names@] + tail);
            lemma_first_accepted(emitting, names@, tail, done);
        }
        if W::faithful() {
            assert(emitter.total() =~= start.total() + emitting.all_emitted(records, all));
        }
    }
    if let Err(error) = result {
        proof {
            if !after.failed {
                assert(records[all] == tail[done]);
            }
            assert(stopped(
                start,
                after,
                records,
                all,
                emitting.all_emitted(records, all),
                error,
            ));
        }
        return Err(error);
    }
    match emitter.flush() {
        Ok(()) => Ok(()),
        Err(error) => {
            assert(stopped(
                start,
                *emitter,
                records,
                all,
                emitting.all_emitted(records, all),
                error,
            ));
            Err(error)
        },
    }
}

/// Emit records whose fields have names, and hand them over.
#[verifier::rlimit(40)]
#[verifier::spinoff_prover]
fn drive_serialized<W: Sink>(
    emitter: &mut IoEmitter<W>,
    names: &ByteRecord,
    values: &[ByteRecord],
) -> (result: Result<(), Error>)
    requires
        old(emitter).wf(),
        !old(emitter).failed,
        names.wf(),
        forall|i: int| 0 <= i < values@.len() ==> (#[trigger] values@[i]).wf(),
    ensures
        final(emitter).wf(),
        ({
            let emitting = old(emitter).core.emitting();
            let headed = emitting.header_pending && values@.len() > 0;
            let records = all_rows(names@, values@, headed);
            match result {
                Ok(()) => delivered(*old(emitter), *final(emitter), records),
                Err(error) => serializing_stopped(
                    *old(emitter),
                    *final(emitter),
                    records,
                    headed,
                    error,
                ),
            }
        }),
{
    let ghost start = *emitter;
    let ghost emitting = emitter.core.emitting();
    let ghost headed = emitting.header_pending && values@.len() > 0;
    let ghost records = all_rows(names@, values@, headed);
    let ghost ahead: int = if headed {
        1
    } else {
        0
    };
    let mut index: usize = 0;
    proof {
        if W::faithful() {
            assert(start.total() + Seq::<u8>::empty() =~= start.total());
        }
        assert(emitting.all_emitted(records, 0) =~= Seq::<u8>::empty());
    }
    while index < values.len()
        invariant
            index <= values@.len(),
            start == *old(emitter),
            !start.failed,
            emitting == start.core.emitting(),
            headed == (emitting.header_pending && values@.len() > 0),
            records == all_rows(names@, values@, headed),
            ahead == (if headed {
                1int
            } else {
                0int
            }),
            names.wf(),
            forall|i: int| 0 <= i < values@.len() ==> (#[trigger] values@[i]).wf(),
            emitter.wf(),
            !emitter.failed,
            index == 0 ==> *emitter == start,
            index > 0 ==> {
                &&& emitter.core.emitting() == (Emitting {
                    header_pending: false,
                    ..emitting.after_all(records, index + ahead)
                })
                &&& emitting.accepts(records, index + ahead)
                &&& W::faithful() ==> emitter.total() == start.total() + emitting.all_emitted(
                    records,
                    index + ahead,
                )
            },
        decreases values.len() - index,
    {
        let ghost here = *emitter;
        let ghost at = index + ahead;
        let result = emitter.serialize(names, &values[index]);
        proof {
            assert(records[at] == values@[index as int]@);
            let before = emitting.after_all(records, at);
            let apart = Emitting { header_pending: false, ..before };
            assert(apart.refusal(records[at]) == before.refusal(records[at]));
            assert(apart.emitted(records[at]) == before.emitted(records[at]));
            if index == 0 && headed {
                assert(records[0] == names@);
                assert(emitting.after_all(records, 0) == emitting);
                assert(emitting.all_emitted(records, 0) =~= Seq::<u8>::empty());
                assert(emitting.all_emitted(records, 1) =~= emitting.emitted(names@));
                if emitting.refusal(names@) is None {
                    lemma_one_more_accepted(emitting, records, 0);
                }
            }
        }
        if let Err(error) = result {
            proof {
                let done = if index == 0 && headed && emitting.refusal(names@) is Some {
                    0int
                } else if emitter.failed {
                    at + 1
                } else {
                    at
                };
                if emitter.failed {
                    lemma_one_more_accepted(emitting, records, at);
                }
                if W::faithful() {
                    assert(emitter.total() =~= start.total() + emitted_together(
                        emitting,
                        records,
                        headed,
                        done,
                    ));
                }
                assert(stopped(
                    start,
                    *emitter,
                    records,
                    done,
                    emitted_together(emitting, records, headed, done),
                    error,
                ));
            }
            return Err(error);
        }
        proof {
            lemma_one_more_accepted(emitting, records, at);
            if W::faithful() {
                assert(emitter.total() =~= start.total() + emitting.all_emitted(records, at + 1));
            }
        }
        index += 1;
    }
    let ghost n = records.len() as int;
    match emitter.flush() {
        Ok(()) => Ok(()),
        Err(error) => {
            assert(stopped(
                start,
                *emitter,
                records,
                n,
                emitted_together(emitting, records, headed, n),
                error,
            ));
            Err(error)
        },
    }
}

proof fn lemma_one_more_accepted(emitting: Emitting, records: Seq<Seq<Field>>, count: int)
    requires
        0 <= count,
        emitting.accepts(records, count),
        emitting.after_all(records, count).refusal(records[count]) is None,
    ensures
        emitting.accepts(records, count + 1),
{
    assert forall|i: int| 0 <= i < count + 1 implies (#[trigger] emitting.after_all(
        records,
        i,
    )).refusal(records[i]) is None by {}
}

/// Whether a sink holds the front of what its emitter had emitted, and all of it
/// if it cannot fail.
spec fn rescued<W: Sink>(emitter: IoEmitter<W>, output: W) -> bool {
    W::faithful() ==> {
        &&& output.taken().len() <= emitter.total().len()
        &&& output.taken() == emitter.total().take(output.taken().len() as int)
        &&& W::unfailing() ==> output.taken() == emitter.total()
    }
}

/// Take the sink of an emitter that was given up, after handing over what it has
/// still collected.
fn give_up<W: Sink>(emitter: IoEmitter<W>) -> (output: W)
    requires
        emitter.wf(),
    ensures
        rescued(emitter, output),
{
    let ghost whole = emitter;
    let mut emitter = emitter;
    let _ = emitter.drain();
    proof {
        if W::faithful() {
            let taken = emitter.output->0.taken();
            assert(emitter.total().take(taken.len() as int) =~= taken);
            if W::unfailing() {
                assert(emitter.total() =~= taken);
            }
        }
    }
    emitter.take_sink()
}

/// Emitting a record and then others is emitting them all.
proof fn lemma_after_first(
    emitting: Emitting,
    first: Seq<Field>,
    rest: Seq<Seq<Field>>,
    count: int,
)
    requires
        0 <= count <= rest.len(),
    ensures
        emitting.after_all(seq![first] + rest, count + 1) == emitting.after(first).after_all(
            rest,
            count,
        ),
        emitting.all_emitted(seq![first] + rest, count + 1) == emitting.emitted(first)
            + emitting.after(first).all_emitted(rest, count),
    decreases count,
{
    let records = seq![first] + rest;
    if count > 0 {
        lemma_after_first(emitting, first, rest, count - 1);
        assert(records[count] == rest[count - 1]);
        assert(emitting.all_emitted(records, count + 1) =~= emitting.emitted(first)
            + emitting.after(first).all_emitted(rest, count));
    } else {
        assert(records[0] == first);
        assert(emitting.after_all(records, 0) == emitting);
        assert(emitting.all_emitted(records, 0) =~= Seq::<u8>::empty());
        assert(emitting.all_emitted(records, 1) =~= emitting.emitted(first)
            + emitting.after(first).all_emitted(rest, 0));
    }
}

proof fn lemma_first_accepted(
    emitting: Emitting,
    first: Seq<Field>,
    rest: Seq<Seq<Field>>,
    count: int,
)
    requires
        0 <= count <= rest.len(),
        emitting.refusal(first) is None,
        emitting.after(first).accepts(rest, count),
    ensures
        emitting.accepts(seq![first] + rest, count + 1),
{
    let records = seq![first] + rest;
    assert forall|i: int| 0 <= i < count + 1 implies (#[trigger] emitting.after_all(
        records,
        i,
    )).refusal(records[i]) is None by {
        if i > 0 {
            lemma_after_first(emitting, first, rest, i - 1);
            assert(emitting.after(first).after_all(rest, i - 1).refusal(rest[i - 1]) is None);
            assert(records[i] == rest[i - 1]);
        } else {
            assert(records[0] == first);
        }
    }
}

/// Write a document to a sink, which is handed back.
///
/// A failure comes with the sink. What came before it was handed over, as far as
/// the sink took it.
pub fn encode_to_writer<W: Sink>(
    output: W,
    names: &ByteRecord,
    values: &[ByteRecord],
    format: FormatOptions,
    options: EmitOptions,
) -> (result: Result<W, IntoInnerError<W>>)
    requires
        names.wf(),
        forall|i: int| 0 <= i < values@.len() ==> (#[trigger] values@[i]).wf(),
    ensures
        ({
            let records = all_rows(names@, values@, options.has_headers);
            let emitting = Emitting::starting(format, options);
            if !(format.dialect.valid() && options.buffer_capacity > 0) {
                result matches Err(failure) && failure.spec_error().misconfigured()
                    && failure.spec_writer() == output
            } else {
                match result {
                    Ok(sink) => document_handed(
                        sink,
                        output.taken(),
                        emitting,
                        names@,
                        values@,
                        options.has_headers,
                    ),
                    Err(failure) => document_stopped(
                        failure.spec_writer(),
                        output.taken(),
                        emitting,
                        records,
                        failure.spec_error(),
                    ),
                }
            }
        }),
{
    let mut emitter = match start(output, format, options) {
        Ok(emitter) => emitter,
        Err(failure) => {
            return Err(failure);
        },
    };
    let ghost before = emitter;
    assert(emitter.total() =~= output.taken());
    let result = drive(&mut emitter, names, values, options.has_headers);
    let ghost after = emitter;
    match result {
        Ok(()) => {
            assert(emitter.total() =~= emitter.output->0.taken());
            Ok(emitter.take_sink())
        },
        Err(error) => {
            let sink = give_up(emitter);
            proof {
                let records = all_rows(names@, values@, options.has_headers);
                lemma_given_up(before, after, sink, records, error);
            }
            Err(IntoInnerError::new(sink, error))
        },
    }
}

/// An emitter for a sink, which is handed back where there is none.
fn start<W: Sink>(output: W, format: FormatOptions, options: EmitOptions) -> (result: Result<
    IoEmitter<W>,
    IntoInnerError<W>,
>)
    ensures
        result is Ok == (format.dialect.valid() && options.buffer_capacity > 0),
        result matches Ok(emitter) ==> {
            &&& emitter.wf()
            &&& emitter.output == Some(output)
            &&& !emitter.failed
            &&& emitter.spec_pending() == Seq::<u8>::empty()
            &&& emitter.core.emitting() == Emitting::starting(format, options)
        },
        result matches Err(failure) ==> failure.spec_error().misconfigured()
            && failure.spec_writer() == output,
{
    if let Err(error) = options.validate_buffered(format) {
        return Err(IntoInnerError::new(output, error));
    }
    Ok(
        IoEmitter::from_config(
            output,
            format.dialect,
            format.quoting,
            format.write_bom,
            format.nulls,
            options.field_count,
            options.has_headers,
            options.buffer_capacity,
        ),
    )
}

/// Write records whose fields have names to a sink, which is handed back.
///
/// The names come first if a header is wanted and there are records; they go with
/// the first record, and neither is written without the other. A failure comes
/// with the sink. What came before it was handed over, as far as the sink took it.
pub fn serialize_to_writer<W: Sink>(
    output: W,
    names: &ByteRecord,
    values: &[ByteRecord],
    format: FormatOptions,
    options: EmitOptions,
) -> (result: Result<W, IntoInnerError<W>>)
    requires
        names.wf(),
        forall|i: int| 0 <= i < values@.len() ==> (#[trigger] values@[i]).wf(),
    ensures
        ({
            let headed = options.has_headers && values@.len() > 0;
            let records = all_rows(names@, values@, headed);
            let emitting = Emitting::starting(format, options);
            if !(format.dialect.valid() && options.buffer_capacity > 0) {
                result matches Err(failure) && failure.spec_error().misconfigured()
                    && failure.spec_writer() == output
            } else {
                match result {
                    Ok(sink) => document_handed(
                        sink,
                        output.taken(),
                        emitting,
                        names@,
                        values@,
                        headed,
                    ),
                    Err(failure) => serialized_document_stopped(
                        failure.spec_writer(),
                        output.taken(),
                        emitting,
                        records,
                        headed,
                        failure.spec_error(),
                    ),
                }
            }
        }),
{
    let mut emitter = match start(output, format, options) {
        Ok(emitter) => emitter,
        Err(failure) => {
            return Err(failure);
        },
    };
    let ghost before = emitter;
    assert(emitter.total() =~= output.taken());
    let result = drive_serialized(&mut emitter, names, values);
    let ghost after = emitter;
    match result {
        Ok(()) => {
            assert(emitter.total() =~= emitter.output->0.taken());
            Ok(emitter.take_sink())
        },
        Err(error) => {
            let sink = give_up(emitter);
            proof {
                let headed = options.has_headers && values@.len() > 0;
                let records = all_rows(names@, values@, headed);
                lemma_serialized_given_up(before, after, sink, records, headed, error);
            }
            Err(IntoInnerError::new(sink, error))
        },
    }
}

/// Whether a document has records that others can be appended to.
pub open spec fn resumes(document: Seq<u8>) -> bool {
    document.len() > 0 && document != bom()
}

/// Whether a document to append to has this number of fields to go by.
pub open spec fn resumes_with(
    document: Seq<u8>,
    format: FormatOptions,
    options: EmitOptions,
    expected_fields: Option<usize>,
) -> bool {
    if resumes(document) && options.field_count == FieldCount::MatchFirst {
        counts_first(document, format, Ok(expected_fields))
    } else {
        expected_fields is None
    }
}

/// What decides about the first record that is appended.
pub open spec fn appending(
    document: Seq<u8>,
    format: FormatOptions,
    options: EmitOptions,
    expected_fields: Option<usize>,
) -> Emitting {
    Emitting {
        bom_pending: document.len() == 0 && format.write_bom == WriteBom::Emit,
        header_pending: options.has_headers && !resumes(document),
        expected_fields,
        ..Emitting::starting(format, options)
    }
}

/// Continue a document: `document` is what the sink holds.
///
/// The names are written only into a document without records. A failure comes
/// with the sink. What came before it was handed over, as far as the sink took it.
pub fn encode_append<W: Sink>(
    output: W,
    document: &[u8],
    names: &ByteRecord,
    values: &[ByteRecord],
    format: FormatOptions,
    options: EmitOptions,
) -> (result: Result<W, IntoInnerError<W>>)
    requires
        names.wf(),
        forall|i: int| 0 <= i < values@.len() ==> (#[trigger] values@[i]).wf(),
    ensures
        ({
            let headed = options.has_headers && !resumes(document@);
            let records = all_rows(names@, values@, headed);
            if !(format.dialect.valid() && options.buffer_capacity > 0) {
                result matches Err(failure) && failure.spec_error().misconfigured()
                    && failure.spec_writer() == output
            } else if resumes(document@) && !ends_with(
                document@,
                Writing::of(format).ending_bytes(),
            ) {
                result matches Err(failure) && failure.spec_error().spec_kind()
                    == ErrorKind::UnterminatedRecord && failure.spec_writer() == output
            } else {
                match result {
                    Ok(sink) => exists|expected: Option<usize>|
                        #[trigger] resumes_with(document@, format, options, expected)
                            && document_handed(
                            sink,
                            output.taken(),
                            appending(document@, format, options, expected),
                            names@,
                            values@,
                            headed,
                        ),
                    Err(failure) => {
                        ||| resumes(document@) && options.field_count == FieldCount::MatchFirst
                            && counts_first(document@, format, Err(failure.spec_error()))
                            && failure.spec_writer() == output
                        ||| exists|expected: Option<usize>|
                            #[trigger] resumes_with(document@, format, options, expected)
                                && document_stopped(
                                failure.spec_writer(),
                                output.taken(),
                                appending(document@, format, options, expected),
                                records,
                                failure.spec_error(),
                            )
                    },
                }
            }
        }),
{
    let resumption = match Resumption::of(document, format, options) {
        Ok(resumption) => resumption,
        Err(error) => {
            return Err(IntoInnerError::new(output, error));
        },
    };
    let mut emitter = IoEmitter::resumed(output, format, options, resumption);
    let ghost before = emitter;
    let ghost expected = emitter.core.emitting().expected_fields;
    proof {
        assert(emitter.total() =~= output.taken());
        assert(resumes_with(document@, format, options, expected));
        assert(emitter.core.emitting() == appending(document@, format, options, expected));
    }
    let result = drive(&mut emitter, names, values, options.has_headers && !resumption.resuming);
    let ghost after = emitter;
    match result {
        Ok(()) => {
            assert(emitter.total() =~= emitter.output->0.taken());
            Ok(emitter.take_sink())
        },
        Err(error) => {
            let sink = give_up(emitter);
            proof {
                let headed = options.has_headers && !resumes(document@);
                let records = all_rows(names@, values@, headed);
                lemma_given_up(before, after, sink, records, error);
            }
            Err(IntoInnerError::new(sink, error))
        },
    }
}

/// How many bytes wait in an emitter.
#[derive(Clone, Copy, Debug, PartialEq, Eq, Structural)]
pub struct BufferedSize(pub u64);

impl BufferedSize {
    /// How many bytes wait in an emitter.
    pub fn from_emitter(emitter: &PushEmitter) -> (size: BufferedSize)
        ensures
            size.0 == emitter.output().len(),
    {
        BufferedSize(emitter.len() as u64)
    }
}

/// How many bytes may wait.
#[derive(Clone, Copy, Debug, PartialEq, Eq, Structural)]
pub struct BufferThreshold(pub u64);

impl BufferThreshold {
    /// How many bytes may wait.
    pub fn from_options(options: &EmitOptions) -> (threshold: BufferThreshold)
        ensures
            threshold.0 == options.buffer_capacity,
    {
        BufferThreshold(options.buffer_capacity as u64)
    }
}

/// How long a segment may be.
#[derive(Clone, Copy, Debug, PartialEq, Eq, Structural)]
pub struct SegmentLimit(pub u64);

impl SegmentLimit {
    /// A limit, which cannot be zero.
    pub fn new(max_bytes: u64) -> (result: Result<SegmentLimit, Error>)
        ensures
            result is Ok == (max_bytes > 0),
            result matches Ok(limit) ==> limit.0 == max_bytes,
            result matches Err(error) ==> error.says(
                ErrorKind::Configuration,
                SEGMENT_SIZE_ZERO@,
            ),
    {
        if max_bytes == 0 {
            Err(Error::detailed(ErrorKind::Configuration, SEGMENT_SIZE_ZERO))
        } else {
            Ok(SegmentLimit(max_bytes))
        }
    }
}

/// How far a segment has come.
#[derive(Clone, Copy, Debug, PartialEq, Eq, Structural)]
pub struct SegmentProgress {
    /// How many bytes of it were handed out.
    pub written: u64,
    /// Whether it has a record.
    pub has_records: bool,
}

impl SegmentProgress {
    /// A segment that has nothing but its preamble.
    pub fn from_preamble(preamble: &[u8]) -> (progress: SegmentProgress)
        ensures
            progress.written == preamble@.len(),
            !progress.has_records,
    {
        SegmentProgress { written: preamble.len() as u64, has_records: false }
    }
}

/// Whether a segment would become too long by what waits.
///
/// A segment without records takes any record.
#[verifier::allow_in_spec]
pub fn segment_would_overflow(
    progress: SegmentProgress,
    buffered: BufferedSize,
    max_bytes: SegmentLimit,
) -> bool
    returns
        (progress.has_records && progress.written.saturating_add(buffered.0) > max_bytes.0),
{
    progress.has_records && progress.written.saturating_add(buffered.0) > max_bytes.0
}

/// Whether so much waits that it should be handed out.
#[verifier::allow_in_spec]
pub fn buffer_ready(buffered: BufferedSize, threshold: BufferThreshold) -> bool
    returns
        (buffered.0 >= threshold.0),
{
    buffered.0 >= threshold.0
}

/// What every segment starts with, if it can be written.
pub open spec fn preamble_bytes(
    names: Seq<Field>,
    format: FormatOptions,
    options: EmitOptions,
) -> Option<Seq<u8>> {
    let mark = if format.write_bom == WriteBom::Emit {
        bom()
    } else {
        Seq::empty()
    };
    let emitting = Emitting { bom_pending: false, ..Emitting::starting(format, options) };
    if !options.has_headers {
        Some(mark)
    } else if emitting.refusal(names) is None {
        Some(mark + emitting.emitted(names))
    } else {
        None
    }
}

/// What every segment starts with: a byte-order mark and the names, as wanted.
pub fn segment_preamble(names: &ByteRecord, format: FormatOptions, options: EmitOptions) -> (result:
    Result<Vec<u8>, Error>)
    requires
        names.wf(),
        format.dialect.valid(),
    ensures
        match preamble_bytes(names@, format, options) {
            Some(bytes) => result matches Ok(preamble) && preamble@ == bytes,
            None => result matches Err(error) && (Emitting {
                bom_pending: false,
                ..Emitting::starting(format, options)
            }).refusal(names@) == Some(error.spec_kind()),
        },
{
    let mut preamble: Vec<u8> = Vec::new();
    if format.emits_bom() {
        preamble.push(BOM_FIRST);
        preamble.push(BOM_SECOND);
        preamble.push(BOM_THIRD);
        assert(preamble@ =~= bom());
    }
    let ghost mark = preamble@;
    if options.has_headers {
        let mut header = match PushEmitter::with_options(
            format.write_bom(WriteBom::Omit),
            options,
        ) {
            Ok(emitter) => emitter,
            Err(error) => {
                return Err(error);
            },
        };
        if let Err(error) = header.emit_byte_record(names) {
            return Err(error);
        }
        preamble.extend_from_slice(header.buffer());
        assert(preamble@ =~= preamble_bytes(names@, format, options)->0);
    }
    assert(preamble@ =~= preamble_bytes(names@, format, options)->0);
    Ok(preamble)
}

/// What to do after a record was taken.
#[derive(Debug)]
pub struct SegmentStep {
    /// The rest of the segment that this record was too long for; a new segment
    /// starts behind it.
    pub finished: Option<Vec<u8>>,
    /// What to add to the segment.
    pub bytes: Vec<u8>,
}

/// Cuts a document into segments.
#[derive(Debug)]
pub struct Segmenter {
    core: PushEmitter,
    preamble_len: u64,
    limit: SegmentLimit,
    threshold: BufferThreshold,
    progress: SegmentProgress,
}

impl Segmenter {
    /// What decides about the next record.
    pub closed spec fn emitting(&self) -> Emitting {
        self.core.emitting()
    }

    /// What waits to be handed out.
    pub closed spec fn held(&self) -> Seq<u8> {
        self.core.output()
    }

    /// How far the segment has come.
    pub closed spec fn spec_progress(&self) -> SegmentProgress {
        self.progress
    }

    /// How long a segment may be.
    pub closed spec fn spec_limit(&self) -> SegmentLimit {
        self.limit
    }

    /// How much may wait.
    pub closed spec fn spec_threshold(&self) -> BufferThreshold {
        self.threshold
    }

    /// How long the preamble is.
    pub closed spec fn spec_preamble_len(&self) -> u64 {
        self.preamble_len
    }

    /// Whether the emitter is usable.
    pub closed spec fn wf(&self) -> bool {
        self.core.wf()
    }

    /// Start the first segment.
    pub fn new(preamble: &[u8], max_bytes: u64, format: FormatOptions, options: EmitOptions) -> (result:
        Result<Segmenter, Error>)
        requires
            format.dialect.valid(),
        ensures
            result is Ok == (max_bytes > 0),
            result matches Ok(segmenter) ==> {
                &&& segmenter.wf()
                &&& segmenter.emitting() == (Emitting {
                    bom_pending: false,
                    ..Emitting::starting(format, options)
                })
                &&& segmenter.held() == Seq::<u8>::empty()
                &&& segmenter.spec_progress() == (SegmentProgress {
                    written: preamble@.len() as u64,
                    has_records: false,
                })
                &&& segmenter.spec_limit().0 == max_bytes
                &&& segmenter.spec_threshold().0 == options.buffer_capacity
                &&& segmenter.spec_preamble_len() == preamble@.len()
            },
            result matches Err(error) ==> error.says(
                ErrorKind::Configuration,
                SEGMENT_SIZE_ZERO@,
            ),
    {
        let limit = match SegmentLimit::new(max_bytes) {
            Ok(limit) => limit,
            Err(error) => {
                return Err(error);
            },
        };
        let core = match PushEmitter::with_options(format.write_bom(WriteBom::Omit), options) {
            Ok(core) => core,
            Err(error) => {
                return Err(error);
            },
        };
        Ok(
            Segmenter {
                core,
                preamble_len: preamble.len() as u64,
                limit,
                threshold: BufferThreshold::from_options(&options),
                progress: SegmentProgress::from_preamble(preamble),
            },
        )
    }

    /// Take a record.
    pub fn push(&mut self, value: &ByteRecord) -> (result: Result<SegmentStep, Error>)
        requires
            old(self).wf(),
            value.wf(),
        ensures
            final(self).wf(),
            final(self).spec_limit() == old(self).spec_limit(),
            final(self).spec_threshold() == old(self).spec_threshold(),
            final(self).spec_preamble_len() == old(self).spec_preamble_len(),
            match old(self).emitting().refusal(value@) {
                Some(kind) => {
                    &&& result matches Err(error) && error.spec_kind() == kind
                    &&& final(self).held() == old(self).held()
                    &&& final(self).emitting() == old(self).emitting()
                    &&& final(self).spec_progress() == old(self).spec_progress()
                },
                None => {
                    &&& result matches Ok(step) && stepped(
                        *old(self),
                        *final(self),
                        old(self).emitting().emitted(value@),
                        step,
                    )
                    &&& final(self).emitting() == old(self).emitting().after(value@)
                },
            },
    {
        let start: usize = self.core.len();
        if let Err(error) = self.core.emit_byte_record(value) {
            return Err(error);
        }
        let ghost record = old(self).emitting().emitted(value@);
        let ghost all = old(self).held() + record;
        let buffered = BufferedSize::from_emitter(&self.core);
        let mut finished: Option<Vec<u8>> = None;
        if segment_would_overflow(self.progress, buffered, self.limit) {
            let mut rest: Vec<u8> = Vec::new();
            let held = &self.core.buffer()[0..start];
            rest.extend_from_slice(held);
            assert(rest@ =~= old(self).held());
            finished = Some(rest);
            self.core.discard(start);
            assert(self.core.output() =~= record);
            self.progress = SegmentProgress { written: self.preamble_len, has_records: false };
        }
        self.progress = SegmentProgress { written: self.progress.written, has_records: true };
        let buffered = BufferedSize::from_emitter(&self.core);
        let mut bytes: Vec<u8> = Vec::new();
        if buffer_ready(buffered, self.threshold) {
            self.progress = SegmentProgress {
                written: self.progress.written.saturating_add(buffered.0),
                has_records: true,
            };
            bytes.extend_from_slice(self.core.buffer());
            assert(bytes@ =~= self.core.output());
            self.core.clear();
        }
        Ok(SegmentStep { finished, bytes })
    }

    /// What is left for the last segment.
    pub fn finish(self) -> (rest: Vec<u8>)
        ensures
            rest@ == self.held(),
    {
        self.core.into_inner()
    }
}

/// Whether a step is the right one after a record with these bytes.
pub open spec fn stepped(
    before: Segmenter,
    after: Segmenter,
    record: Seq<u8>,
    step: SegmentStep,
) -> bool {
    let all = before.held() + record;
    let full = segment_would_overflow(
        before.spec_progress(),
        BufferedSize(all.len() as u64),
        before.spec_limit(),
    );
    let held = if full {
        record
    } else {
        all
    };
    let written = if full {
        before.spec_preamble_len()
    } else {
        before.spec_progress().written
    };
    let ready = held.len() >= before.spec_threshold().0;
    &&& all.len() <= u64::MAX
    &&& full == step.finished is Some
    &&& step.finished matches Some(rest) ==> rest@ == before.held()
    &&& step.bytes@ == (if ready {
        held
    } else {
        Seq::empty()
    })
    &&& after.held() == (if ready {
        Seq::empty()
    } else {
        held
    })
    &&& after.spec_progress() == (SegmentProgress {
        written: if ready {
            written.saturating_add(held.len() as u64)
        } else {
            written
        },
        has_records: true,
    })
}

/// What each of the records of a document without a header becomes.
pub open spec fn written_rows(emitting: Emitting, records: Seq<Seq<Field>>) -> Seq<Seq<u8>> {
    Seq::new(records.len(), |i: int| emitting.after_all(records, i).emitted(records[i]))
}

/// The segments that the first `count` records fill.
///
/// A record goes into the last segment if it fits, or if it is the first one.
/// Otherwise it starts a segment.
pub open spec fn segments(
    preamble: Seq<u8>,
    limit: u64,
    written: Seq<Seq<u8>>,
    count: int,
) -> Seq<Seq<u8>>
    decreases count,
{
    if count <= 0 {
        seq![preamble]
    } else {
        let before = segments(preamble, limit, written, count - 1);
        let record = written[count - 1];
        let longer = before.last() + record;
        if count > 1 && limit < u64::MAX && longer.len() > limit {
            before.push(preamble + record)
        } else {
            before.update(before.len() - 1, longer)
        }
    }
}

/// Pieces put together.
pub open spec fn joined(pieces: Seq<Seq<u8>>, count: int) -> Seq<u8>
    decreases count,
{
    if count <= 0 {
        Seq::empty()
    } else {
        joined(pieces, count - 1) + pieces[count - 1]
    }
}

/// What segments have behind their preambles.
pub open spec fn bodies(parts: Seq<Seq<u8>>, preamble: Seq<u8>) -> Seq<Seq<u8>> {
    Seq::new(parts.len(), |i: int| parts[i].skip(preamble.len() as int))
}

/// A segment that is not too long, or that has a single record or none.
pub open spec fn justified(
    part: Seq<u8>,
    preamble: Seq<u8>,
    limit: u64,
    written: Seq<Seq<u8>>,
) -> bool {
    ||| part.len() <= limit
    ||| limit == u64::MAX
    ||| part == preamble
    ||| exists|k: int|
        #![trigger written[k]]
        0 <= k < written.len() && part == preamble + written[k]
}

proof fn lemma_joined_prefix(first: Seq<Seq<u8>>, second: Seq<Seq<u8>>, count: int)
    requires
        0 <= count <= first.len(),
        count <= second.len(),
        forall|i: int| 0 <= i < count ==> first[i] == second[i],
    ensures
        joined(first, count) == joined(second, count),
    decreases count,
{
    if count > 0 {
        lemma_joined_prefix(first, second, count - 1);
    }
}

/// Whether a segment starts with one of the first `count` records, for which the
/// segment before it had no room.
pub open spec fn overflowed(
    part: Seq<u8>,
    following: Seq<u8>,
    preamble: Seq<u8>,
    limit: u64,
    written: Seq<Seq<u8>>,
    count: int,
) -> bool {
    exists|k: int|
        #![trigger written[k]]
        0 <= k < count && (preamble + written[k]).is_prefix_of(following) && part.len()
            + written[k].len() > limit
}

proof fn lemma_parts_full(
    preamble: Seq<u8>,
    limit: u64,
    written: Seq<Seq<u8>>,
    count: int,
    index: int,
)
    requires
        0 <= count <= written.len(),
        0 <= index < segments(preamble, limit, written, count).len() - 1,
    ensures
        ({
            let parts = segments(preamble, limit, written, count);
            overflowed(parts[index], parts[index + 1], preamble, limit, written, count)
        }),
    decreases count,
{
    let parts = segments(preamble, limit, written, count);
    if count > 0 {
        let before = segments(preamble, limit, written, count - 1);
        let record = written[count - 1];
        let longer = before.last() + record;
        let last = before.len() - 1;
        if count > 1 {
            lemma_first_part(preamble, limit, written, count - 1);
        } else {
            assert(before =~= seq![preamble]);
        }
        if index < last {
            lemma_parts_full(preamble, limit, written, count - 1, index);
            let k = choose|k: int|
                #![trigger written[k]]
                0 <= k < count - 1 && (preamble + written[k]).is_prefix_of(before[index + 1])
                    && before[index].len() + written[k].len() > limit;
            assert(parts[index] == before[index]);
            assert((preamble + written[k]).is_prefix_of(parts[index + 1])) by {
                let start = preamble + written[k];
                assert(before[index + 1].take(start.len() as int) == start);
                assert(parts[index + 1].take(start.len() as int) =~= start);
            }
        } else {
            assert(longer.len() > limit);
            assert(parts[index + 1] == preamble + record);
            assert((preamble + written[count - 1]).take((preamble + record).len() as int)
                =~= preamble + record);
        }
    }
}

proof fn lemma_first_part(
    preamble: Seq<u8>,
    limit: u64,
    written: Seq<Seq<u8>>,
    count: int,
)
    requires
        0 < count <= written.len(),
    ensures
        segments(preamble, limit, written, count).len() > 0,
        (preamble + written[0]).is_prefix_of(segments(preamble, limit, written, count)[0]),
    decreases count,
{
    let parts = segments(preamble, limit, written, count);
    let before = segments(preamble, limit, written, count - 1);
    let start = preamble + written[0];
    if count > 1 {
        lemma_first_part(preamble, limit, written, count - 1);
        assert(before[0].take(start.len() as int) == start);
        assert(parts[0].take(start.len() as int) =~= start);
    } else {
        assert(before =~= seq![preamble]);
        assert(parts[0] =~= start);
        assert(parts[0].take(start.len() as int) =~= start);
    }
}

/// Whether each segment but the first starts with a record for which the segment
/// before it had no room.
pub open spec fn all_overflowed(
    parts: Seq<Seq<u8>>,
    preamble: Seq<u8>,
    limit: u64,
    written: Seq<Seq<u8>>,
    count: int,
) -> bool {
    forall|a: int, b: int|
        0 <= a < parts.len() && 0 <= b < parts.len() && b == a + 1 ==> overflowed(
            #[trigger] parts[a],
            #[trigger] parts[b],
            preamble,
            limit,
            written,
            count,
        )
}

/// Segments hold the records in order, each behind the preamble. None is longer
/// than the limit unless it has no more than one record, and none ends before the
/// next record would be too much for it. Where there are records each holds one.
pub proof fn law_segments_hold_the_records(
    preamble: Seq<u8>,
    limit: u64,
    written: Seq<Seq<u8>>,
    count: int,
)
    requires
        0 <= count <= written.len(),
    ensures
        ({
            let parts = segments(preamble, limit, written, count);
            &&& parts.len() > 0
            &&& joined(bodies(parts, preamble), parts.len() as int) == joined(written, count)
            &&& forall|i: int|
                0 <= i < parts.len() ==> preamble.is_prefix_of(#[trigger] parts[i]) && justified(
                    parts[i],
                    preamble,
                    limit,
                    written,
                )
            &&& all_overflowed(parts, preamble, limit, written, count)
            &&& count > 0 ==> (preamble + written[0]).is_prefix_of(parts[0])
        }),
{
    let parts = segments(preamble, limit, written, count);
    lemma_segments_hold(preamble, limit, written, count);
    assert forall|a: int, b: int|
        0 <= a < parts.len() && 0 <= b < parts.len() && b == a + 1 implies overflowed(
        #[trigger] parts[a],
        #[trigger] parts[b],
        preamble,
        limit,
        written,
        count,
    ) by {
        lemma_parts_full(preamble, limit, written, count, a);
    }
    if count > 0 {
        lemma_first_part(preamble, limit, written, count);
    }
}

proof fn lemma_segments_hold(
    preamble: Seq<u8>,
    limit: u64,
    written: Seq<Seq<u8>>,
    count: int,
)
    requires
        0 <= count <= written.len(),
    ensures
        ({
            let parts = segments(preamble, limit, written, count);
            &&& parts.len() > 0
            &&& joined(bodies(parts, preamble), parts.len() as int) == joined(written, count)
            &&& forall|i: int|
                0 <= i < parts.len() ==> preamble.is_prefix_of(#[trigger] parts[i]) && justified(
                    parts[i],
                    preamble,
                    limit,
                    written,
                )
        }),
    decreases count,
{
    let parts = segments(preamble, limit, written, count);
    if count <= 0 {
        assert(parts =~= seq![preamble]);
        assert(bodies(parts, preamble)[0] =~= Seq::<u8>::empty());
        assert(joined(bodies(parts, preamble), 0) =~= Seq::<u8>::empty());
        assert(joined(bodies(parts, preamble), 1) =~= Seq::<u8>::empty());
    } else {
        lemma_segments_hold(preamble, limit, written, count - 1);
        let before = segments(preamble, limit, written, count - 1);
        let record = written[count - 1];
        let last = before.len() - 1;
        let longer = before.last() + record;
        assert(preamble.is_prefix_of(before[last]));
        if count > 1 && limit < u64::MAX && longer.len() > limit {
            assert(bodies(parts, preamble)[last + 1] =~= record);
            lemma_joined_prefix(bodies(before, preamble), bodies(parts, preamble), last + 1);
            assert(joined(bodies(parts, preamble), last + 2) =~= joined(written, count));
            assert forall|i: int| 0 <= i < parts.len() implies preamble.is_prefix_of(
                #[trigger] parts[i],
            ) && justified(parts[i], preamble, limit, written) by {
                if i <= last {
                    assert(parts[i] == before[i]);
                } else {
                    assert(parts[i].take(preamble.len() as int) =~= preamble);
                    assert(parts[i] == preamble + written[count - 1]);
                }
            }
        } else {
            assert(bodies(parts, preamble)[last] =~= bodies(before, preamble)[last] + record);
            lemma_joined_prefix(bodies(before, preamble), bodies(parts, preamble), last);
            assert(joined(bodies(parts, preamble), last + 1) =~= joined(written, count));
            assert forall|i: int| 0 <= i < parts.len() implies preamble.is_prefix_of(
                #[trigger] parts[i],
            ) && justified(parts[i], preamble, limit, written) by {
                if i < last {
                    assert(parts[i] == before[i]);
                } else {
                    assert(parts[i].take(preamble.len() as int) =~= before[last].take(
                        preamble.len() as int,
                    ));
                    if count == 1 {
                        assert(before[last] == preamble);
                        assert(parts[i] == preamble + written[0]);
                    }
                }
            }
        }
    }
}

/// Write a document as segments.
///
/// Each starts with the byte-order mark and the names, as wanted, and is as
/// long as the limit lets it be.
pub fn encode_to_segments(
    names: &ByteRecord,
    values: &[ByteRecord],
    max_bytes: u64,
    format: FormatOptions,
    options: EmitOptions,
) -> (result: Result<Vec<Vec<u8>>, Error>)
    requires
        names.wf(),
        forall|i: int| 0 <= i < values@.len() ==> (#[trigger] values@[i]).wf(),
    ensures
        ({
            let emitting = Emitting { bom_pending: false, ..Emitting::starting(format, options) };
            let records = rows(values@);
            let preamble = preamble_bytes(names@, format, options);
            if !(format.dialect.valid() && options.buffer_capacity > 0 && max_bytes > 0) {
                result matches Err(error) && error.misconfigured()
            } else if preamble is None {
                result matches Err(error) && emitting.refusal(names@) == Some(error.spec_kind())
            } else {
                match result {
                    Ok(parts) => emitting.accepts(records, records.len() as int)
                        && views(parts@) == segments(
                        preamble->0,
                        max_bytes,
                        written_rows(emitting, records),
                        records.len() as int,
                    ),
                    Err(error) => record_refused(error, emitting, names@, values@, false),
                }
            }
        }),
{
    if let Err(error) = options.validate_buffered(format) {
        return Err(error);
    }
    if let Err(error) = SegmentLimit::new(max_bytes) {
        return Err(error);
    }
    let preamble = match segment_preamble(names, format, options) {
        Ok(preamble) => preamble,
        Err(error) => {
            return Err(error);
        },
    };
    let mut segmenter = match Segmenter::new(&preamble, max_bytes, format, options) {
        Ok(segmenter) => segmenter,
        Err(error) => {
            return Err(error);
        },
    };
    let ghost emitting = segmenter.emitting();
    let ghost records = rows(values@);
    let ghost written = written_rows(emitting, records);
    let mut parts: Vec<Vec<u8>> = Vec::new();
    let mut part: Vec<u8> = Vec::new();
    part.extend_from_slice(&preamble);
    assert(part@ =~= preamble@);
    assert(preamble@.len() == preamble.len());
    let mut index: usize = 0;
    proof {
        assert(part@ + segmenter.held() =~= preamble@);
        assert(views(parts@).push(part@ + segmenter.held()) =~= seq![preamble@]);
    }
    while index < values.len()
        invariant
            index <= values@.len() == records.len(),
            records == rows(values@),
            written == written_rows(emitting, records),
            emitting == (Emitting { bom_pending: false, ..Emitting::starting(format, options) }),
            format.dialect.valid(),
            options.buffer_capacity > 0,
            max_bytes > 0,
            preamble_bytes(names@, format, options) == Some(preamble@),
            preamble@.len() <= usize::MAX,
            names.wf(),
            forall|i: int| 0 <= i < values@.len() ==> (#[trigger] values@[i]).wf(),
            segmenter.wf(),
            segmenter.emitting() == emitting.after_all(records, index as int),
            segmenter.spec_limit().0 == max_bytes,
            segmenter.spec_threshold().0 == options.buffer_capacity,
            segmenter.spec_preamble_len() == preamble@.len(),
            segmenter.spec_progress().has_records == (index > 0),
            segmenter.spec_progress().written == part@.len(),
            emitting.accepts(records, index as int),
            segments(preamble@, max_bytes, written, index as int) == views(parts@).push(
                part@ + segmenter.held(),
            ),
        decreases values.len() - index,
    {
        let ghost before = segmenter;
        let ghost part_before = part@;
        let ghost parts_before = parts@;
        let step = match segmenter.push(&values[index]) {
            Ok(step) => step,
            Err(error) => {
                assert(all_rows(names@, values@, false)[index as int] == values@[index as int]@);
                return Err(error);
            },
        };
        let ghost record = written[index as int];
        assert(record == before.emitting().emitted(values@[index as int]@));
        proof {
            assert(emitting.accepts(records, index + 1)) by {
                assert forall|i: int| 0 <= i < index + 1 implies (#[trigger] emitting.after_all(
                    records,
                    i,
                )).refusal(records[i]) is None by {}
            }
            assert(segments(preamble@, max_bytes, written, index as int).last() == part_before
                + before.held());
            assert(part_before + (before.held() + record) =~= part_before + before.held()
                + record);
        }
        if let Some(rest) = &step.finished {
            part.extend_from_slice(rest);
            assert(part@ =~= part_before + before.held());
            parts.push(part);
            part = Vec::new();
            part.extend_from_slice(&preamble);
            assert(part@ =~= preamble@);
        }
        let ghost opened = part@;
        part.extend_from_slice(&step.bytes);
        proof {
            assert(part@ =~= opened + step.bytes@);
            assert(part@.len() == part.len());
            if step.finished is Some {
                assert(part@ + segmenter.held() =~= preamble@ + record);
                assert(views(parts@) =~= views(parts_before).push(part_before + before.held()));
            } else {
                assert(part@ + segmenter.held() =~= part_before + before.held() + record);
                assert(parts@ == parts_before);
            }
            assert(segments(preamble@, max_bytes, written, index + 1) =~= views(parts@).push(
                part@ + segmenter.held(),
            ));
        }
        index += 1;
    }
    let rest = segmenter.finish();
    let ghost part_before = part@;
    part.extend_from_slice(&rest);
    assert(part@ =~= part_before + rest@);
    let ghost parts_before = parts@;
    parts.push(part);
    assert(views(parts@) =~= views(parts_before).push(part_before + rest@));
    Ok(parts)
}

/// Vectors as values.
pub open spec fn views(parts: Seq<Vec<u8>>) -> Seq<Seq<u8>> {
    Seq::new(parts.len(), |i: int| parts[i]@)
}

} // verus!
