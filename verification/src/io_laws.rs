//! Which ways of emitting come to the same.

use vstd::prelude::*;

use crate::error::{Error, IoError};
use crate::io_emitter::{
    answers_since, emits_all, emits_each, emits_to, handed_over, pending_after, same_state,
    taken_in, IoEmitter, Sink,
};
use crate::storage::Field;

verus! {

/// Whether two emitters are in the same state, and their sinks hold the same.
pub open spec fn alike<A: Sink, B: Sink>(a: IoEmitter<A>, b: IoEmitter<B>) -> bool {
    &&& a.core.emitting() == b.core.emitting()
    &&& a.threshold == b.threshold
    &&& a.failed == b.failed
    &&& a.spec_pending() == b.spec_pending()
    &&& a.output->0.taken() == b.output->0.taken()
}

proof fn lemma_taken<A: Sink, B: Sink>(a: IoEmitter<A>, b: IoEmitter<B>)
    requires
        a.total() == b.total(),
        a.spec_pending() == b.spec_pending(),
    ensures
        a.output->0.taken() == b.output->0.taken(),
{
    let x = a.output->0.taken();
    let y = b.output->0.taken();
    assert(a.total().take(x.len() as int) =~= x);
    assert(b.total().take(y.len() as int) =~= y);
}

/// Whether two emitters have come to the same: what decides on the next record is
/// the same, and so are the bytes that were taken and are pending.
pub open spec fn level<A: Sink, B: Sink>(a: IoEmitter<A>, b: IoEmitter<B>) -> bool {
    &&& a.core.emitting() == b.core.emitting()
    &&& a.total() == b.total()
}

/// Whether an error is not one of the sink.
pub open spec fn own_refusal(result: Result<(), Error>) -> bool {
    result matches Err(error) && !(error.spec_kind() is Io)
}

/// Whether both succeeded, or both failed for the same reason.
pub open spec fn same_result(a: Result<(), Error>, b: Result<(), Error>) -> bool {
    match (a, b) {
        (Ok(()), Ok(())) => true,
        (Err(a), Err(b)) => a.spec_kind() == b.spec_kind(),
        _ => false,
    }
}

/// Whether two sinks answered the same: that they took so much, or why not.
pub open spec fn same_answer(a: Result<usize, IoError>, b: Result<usize, IoError>) -> bool {
    match (a, b) {
        (Ok(a), Ok(b)) => a == b,
        (Err(a), Err(b)) => a.spec_kind() == b.spec_kind(),
        _ => false,
    }
}

/// Whether answers are the same as far as both go.
pub open spec fn agree(
    xs: Seq<Result<usize, IoError>>,
    ys: Seq<Result<usize, IoError>>,
) -> bool {
    forall|i: int| 0 <= i < xs.len() && i < ys.len() ==> #[trigger] same_answer(xs[i], ys[i])
}

/// Whether the sinks of two emitters answered alike, as often as both were asked.
pub open spec fn answer_alike<A: Sink, B: Sink>(
    a: IoEmitter<A>,
    a_after: IoEmitter<A>,
    b: IoEmitter<B>,
    b_after: IoEmitter<B>,
) -> bool {
    &&& A::recorded()
    &&& B::recorded()
    &&& agree(
        answers_since(a.output->0, a_after.output->0),
        answers_since(b.output->0, b_after.output->0),
    )
}

/// How often the sink of an emitter was asked.
pub open spec fn asked<W: Sink>(before: IoEmitter<W>, after: IoEmitter<W>) -> int {
    after.output->0.answers().len() - before.output->0.answers().len()
}

proof fn lemma_handed_alike(
    len: int,
    xs: Seq<Result<usize, IoError>>,
    ys: Seq<Result<usize, IoError>>,
)
    requires
        xs.len() == ys.len(),
        agree(xs, ys),
    ensures
        handed_over(len, xs) == handed_over(len, ys),
    decreases xs.len(),
{
    if xs.len() > 0 {
        let n = xs.len() - 1;
        assert forall|i: int| 0 <= i < n implies #[trigger] same_answer(
            xs.drop_last()[i],
            ys.drop_last()[i],
        ) by {
            assert(same_answer(xs[i], ys[i]));
        }
        lemma_handed_alike(len, xs.drop_last(), ys.drop_last());
        assert(same_answer(xs[n], ys[n]));
    }
}

/// Sinks that answer alike are asked equally often, and a buffer comes equally far.
proof fn lemma_answered_alike(
    len: int,
    xs: Seq<Result<usize, IoError>>,
    ys: Seq<Result<usize, IoError>>,
)
    requires
        xs.len() <= ys.len(),
        agree(xs, ys),
        !(handed_over(len, xs) is Waiting),
        forall|k: int| 0 <= k < ys.len() ==> #[trigger] handed_over(len, ys.take(k)) is Waiting,
    ensures
        xs.len() == ys.len(),
        handed_over(len, xs) == handed_over(len, ys),
{
    let n = xs.len() as int;
    let front = ys.take(n);
    assert forall|i: int| 0 <= i < n implies #[trigger] same_answer(xs[i], front[i]) by {
        assert(same_answer(xs[i], ys[i]));
    }
    lemma_handed_alike(len, xs, front);
    if xs.len() < ys.len() {
        assert(handed_over(len, ys.take(n)) is Waiting);
    } else {
        assert(front =~= ys);
    }
}

proof fn lemma_agree_turned(xs: Seq<Result<usize, IoError>>, ys: Seq<Result<usize, IoError>>)
    requires
        agree(xs, ys),
    ensures
        agree(ys, xs),
{
    assert forall|i: int| 0 <= i < ys.len() && i < xs.len() implies #[trigger] same_answer(
        ys[i],
        xs[i],
    ) by {
        assert(same_answer(xs[i], ys[i]));
    }
}

/// Bytes are taken in alike by emitters whose sinks answer alike.
proof fn lemma_taken_in_alike<A: Sink, B: Sink>(
    a: IoEmitter<A>,
    a_after: IoEmitter<A>,
    a_result: Result<(), Error>,
    b: IoEmitter<B>,
    b_after: IoEmitter<B>,
    b_result: Result<(), Error>,
    bytes: Seq<u8>,
)
    requires
        A::faithful(),
        B::faithful(),
        alike(a, b),
        answer_alike(a, a_after, b, b_after),
        a_after.core.emitting() == b_after.core.emitting(),
        taken_in(a, a_after, bytes, a_after.core.emitting(), a_result),
        taken_in(b, b_after, bytes, b_after.core.emitting(), b_result),
    ensures
        alike(a_after, b_after),
        same_result(a_result, b_result),
        asked(a, a_after) == asked(b, b_after),
{
    let pending = a.spec_pending() + bytes;
    let len = pending.len() as int;
    if len >= a.threshold {
        let xs = answers_since(a.output->0, a_after.output->0);
        let ys = answers_since(b.output->0, b_after.output->0);
        if xs.len() <= ys.len() {
            lemma_answered_alike(len, xs, ys);
        } else {
            lemma_agree_turned(xs, ys);
            lemma_answered_alike(len, ys, xs);
        }
        assert(handed_over(len, xs) == handed_over(len, ys));
    }
    assert(a_after.spec_pending() == b_after.spec_pending());
    lemma_taken(a_after, b_after);
}

/// A record is emitted alike however it is handed to an emitter: as fields, as a
/// record of bytes or of text, or as a value.
///
/// Two emitters that were level before are level after it, whatever their sinks
/// answer, and refuse the same records for the same reasons. Where their sinks
/// answer alike, or none fails, emitters that were in the same state have the same
/// result and are in the same state again.
pub proof fn law_records_are_emitted_alike<A: Sink, B: Sink>(
    first: IoEmitter<A>,
    second: IoEmitter<B>,
    first_after: IoEmitter<A>,
    second_after: IoEmitter<B>,
    fields: Seq<Field>,
    first_result: Result<(), Error>,
    second_result: Result<(), Error>,
)
    requires
        A::faithful(),
        B::faithful(),
        level(first, second),
        first.failed == second.failed,
        emits_to(first, first_after, fields, first_result),
        emits_to(second, second_after, fields, second_result),
    ensures
        level(first_after, second_after),
        own_refusal(first_result) == own_refusal(second_result),
        own_refusal(first_result) ==> same_result(first_result, second_result),
        A::unfailing() && B::unfailing() ==> same_result(first_result, second_result),
        A::unfailing() && B::unfailing() && alike(first, second) ==> alike(
            first_after,
            second_after,
        ),
        alike(first, second) && answer_alike(first, first_after, second, second_after) ==> {
            &&& same_result(first_result, second_result)
            &&& alike(first_after, second_after)
            &&& asked(first, first_after) == asked(second, second_after)
        },
{
    let emitting = first.core.emitting();
    if alike(first, second) {
        if A::unfailing() && B::unfailing() {
            lemma_taken(first_after, second_after);
        }
        if answer_alike(first, first_after, second, second_after) && !first.failed
            && emitting.refusal(fields) is None {
            lemma_taken_in_alike(
                first,
                first_after,
                first_result,
                second,
                second_after,
                second_result,
                emitting.emitted(fields),
            );
        }
    }
}

/// A record that was built field by field is emitted like one that is handed over
/// at once, on the same terms.
pub proof fn law_a_built_record_is_emitted_alike<A: Sink, B: Sink>(
    first: IoEmitter<A>,
    second: IoEmitter<B>,
    unbuilt: IoEmitter<B>,
    first_after: IoEmitter<A>,
    emitted: IoEmitter<B>,
    built: IoEmitter<B>,
    fields: Seq<Field>,
    first_result: Result<(), Error>,
    second_result: Result<(), Error>,
)
    requires
        A::faithful(),
        B::faithful(),
        level(first, second),
        first.failed == second.failed,
        emits_to(first, first_after, fields, first_result),
        same_state(unbuilt, second),
        emits_to(unbuilt, emitted, fields, second_result),
        same_state(built, emitted),
    ensures
        level(first_after, built),
        own_refusal(first_result) == own_refusal(second_result),
        own_refusal(first_result) ==> same_result(first_result, second_result),
        A::unfailing() && B::unfailing() ==> same_result(first_result, second_result),
        A::unfailing() && B::unfailing() && alike(first, second) ==> alike(first_after, built),
        alike(first, second) && answer_alike(first, first_after, second, built) ==> {
            &&& same_result(first_result, second_result)
            &&& alike(first_after, built)
            &&& asked(first, first_after) == asked(second, built)
        },
{
    assert(unbuilt.total() == second.total());
    law_records_are_emitted_alike(
        first,
        unbuilt,
        first_after,
        emitted,
        fields,
        first_result,
        second_result,
    );
    assert(built.total() == emitted.total());
}

/// What a step adds to the answers of a sink stays where it is.
proof fn lemma_answers_kept<W: Sink>(
    before: IoEmitter<W>,
    after: IoEmitter<W>,
    fields: Seq<Field>,
    result: Result<(), Error>,
)
    requires
        W::recorded(),
        emits_to(before, after, fields, result),
    ensures
        before.output->0.answers().len() <= after.output->0.answers().len(),
        after.output->0.answers().take(before.output->0.answers().len() as int)
            == before.output->0.answers(),
{
    let answers = before.output->0.answers();
    assert(answers.take(answers.len() as int) =~= answers);
}

/// The answers in an earlier state are the first of those in a later one.
proof fn lemma_answers_grow<W: Sink>(
    states: Seq<IoEmitter<W>>,
    records: Seq<Seq<Field>>,
    result: Result<(), Error>,
    i: int,
    j: int,
)
    requires
        W::recorded(),
        emits_each(states, records, result),
        0 <= i <= j < states.len(),
    ensures
        ({
            let earlier = states[i].output->0.answers();
            let later = states[j].output->0.answers();
            &&& earlier.len() <= later.len()
            &&& later.take(earlier.len() as int) == earlier
        }),
    decreases j - i,
{
    let earlier = states[i].output->0.answers();
    if i < j {
        lemma_answers_grow(states, records, result, i, j - 1);
        let middle = states[j - 1].output->0.answers();
        let later = states[j].output->0.answers();
        let steps = states.len() - 1;
        if j < steps {
            assert(emits_to(states[j - 1], states[j - 1 + 1], records[j - 1], Ok(())));
            lemma_answers_kept(states[j - 1], states[j], records[j - 1], Ok(()));
        } else {
            lemma_answers_kept(states[j - 1], states[j], records[j - 1], result);
        }
        assert(later.take(earlier.len() as int) =~= middle.take(earlier.len() as int)) by {
            assert(later.take(middle.len() as int).take(earlier.len() as int) =~= later.take(
                earlier.len() as int,
            ));
        }
    } else {
        assert(earlier.take(earlier.len() as int) =~= earlier);
    }
}

/// What a step of a run came to.
spec fn step_result(steps: int, result: Result<(), Error>, i: int) -> Result<(), Error> {
    if i == steps - 1 {
        result
    } else {
        Ok(())
    }
}

proof fn lemma_step<W: Sink>(
    states: Seq<IoEmitter<W>>,
    records: Seq<Seq<Field>>,
    result: Result<(), Error>,
    i: int,
)
    requires
        emits_each(states, records, result),
        0 <= i < states.len() - 1,
    ensures
        emits_to(states[i], states[i + 1], records[i], step_result(states.len() - 1, result, i)),
{
    if i < states.len() - 2 {
        assert(emits_to(states[i], states[i + 1], records[i], Ok(())));
    }
}

/// Two runs whose sinks answer alike go alike as far as both go.
#[verifier::rlimit(40)]
#[verifier::spinoff_prover]
proof fn lemma_runs_alike<A: Sink, B: Sink>(
    firsts: Seq<IoEmitter<A>>,
    seconds: Seq<IoEmitter<B>>,
    records: Seq<Seq<Field>>,
    first_result: Result<(), Error>,
    second_result: Result<(), Error>,
    done: int,
)
    requires
        A::faithful(),
        B::faithful(),
        emits_each(firsts, records, first_result),
        emits_each(seconds, records, second_result),
        alike(firsts.first(), seconds.first()),
        answer_alike(firsts.first(), firsts.last(), seconds.first(), seconds.last()),
        0 <= done < firsts.len(),
        done < seconds.len(),
    ensures
        alike(firsts[done], seconds[done]),
        asked(firsts[0], firsts[done]) == asked(seconds[0], seconds[done]),
        done > 0 ==> same_result(
            step_result(firsts.len() - 1, first_result, done - 1),
            step_result(seconds.len() - 1, second_result, done - 1),
        ),
    decreases done,
{
    if done > 0 {
        let i = done - 1;
        lemma_runs_alike(firsts, seconds, records, first_result, second_result, i);
        lemma_step(firsts, records, first_result, i);
        lemma_step(seconds, records, second_result, i);
        lemma_slice_agrees(firsts, seconds, records, first_result, second_result, i);
        let a = firsts[i];
        let b = seconds[i];
        assert(a.total() == b.total());
        law_records_are_emitted_alike(
            a,
            b,
            firsts[done],
            seconds[done],
            records[i],
            step_result(firsts.len() - 1, first_result, i),
            step_result(seconds.len() - 1, second_result, i),
        );
    }
}

/// Sinks that answer alike all along answer alike in every step.
proof fn lemma_slice_agrees<A: Sink, B: Sink>(
    firsts: Seq<IoEmitter<A>>,
    seconds: Seq<IoEmitter<B>>,
    records: Seq<Seq<Field>>,
    first_result: Result<(), Error>,
    second_result: Result<(), Error>,
    i: int,
)
    requires
        emits_each(firsts, records, first_result),
        emits_each(seconds, records, second_result),
        answer_alike(firsts.first(), firsts.last(), seconds.first(), seconds.last()),
        asked(firsts[0], firsts[i]) == asked(seconds[0], seconds[i]),
        0 <= i < firsts.len() - 1,
        i < seconds.len() - 1,
    ensures
        answer_alike(firsts[i], firsts[i + 1], seconds[i], seconds[i + 1]),
{
    let m = firsts.len() - 1;
    let n = seconds.len() - 1;
    lemma_answers_grow(firsts, records, first_result, 0, i);
    lemma_answers_grow(firsts, records, first_result, i, i + 1);
    lemma_answers_grow(firsts, records, first_result, i + 1, m);
    lemma_answers_grow(seconds, records, second_result, 0, i);
    lemma_answers_grow(seconds, records, second_result, i, i + 1);
    lemma_answers_grow(seconds, records, second_result, i + 1, n);
    let xs = answers_since(firsts[0].output->0, firsts[m].output->0);
    let ys = answers_since(seconds[0].output->0, seconds[n].output->0);
    let here = answers_since(firsts[i].output->0, firsts[i + 1].output->0);
    let there = answers_since(seconds[i].output->0, seconds[i + 1].output->0);
    let before = asked(firsts[0], firsts[i]);
    assert forall|k: int| 0 <= k < here.len() && k < there.len() implies #[trigger] same_answer(
        here[k],
        there[k],
    ) by {
        let x = firsts[i].output->0.answers().len() + k;
        let y = seconds[i].output->0.answers().len() + k;
        let x_next = firsts[i + 1].output->0.answers();
        let y_next = seconds[i + 1].output->0.answers();
        assert(firsts[m].output->0.answers().take(x_next.len() as int)[x as int]
            == x_next[x as int]);
        assert(seconds[n].output->0.answers().take(y_next.len() as int)[y as int]
            == y_next[y as int]);
        assert(xs[before + k] == here[k]);
        assert(ys[before + k] == there[k]);
        assert(same_answer(xs[before + k], ys[before + k]));
    }
}

/// Encoding all of some values is encoding them one by one and stopping at the
/// first that fails: emitters that were in the same state, and whose sinks answer
/// alike, have the same result and are in the same state again.
pub proof fn law_encoding_all_is_encoding_until_one_fails<A: Sink, B: Sink>(
    firsts: Seq<IoEmitter<A>>,
    seconds: Seq<IoEmitter<B>>,
    records: Seq<Seq<Field>>,
    first_result: Result<(), Error>,
    second_result: Result<(), Error>,
)
    requires
        A::faithful(),
        B::faithful(),
        emits_each(firsts, records, first_result),
        emits_each(seconds, records, second_result),
        alike(firsts.first(), seconds.first()),
        answer_alike(firsts.first(), firsts.last(), seconds.first(), seconds.last()),
    ensures
        same_result(first_result, second_result),
        firsts.len() == seconds.len(),
        alike(firsts.last(), seconds.last()),
{
    let m = firsts.len() - 1;
    let n = seconds.len() - 1;
    let both = if m < n {
        m
    } else {
        n
    };
    lemma_runs_alike(firsts, seconds, records, first_result, second_result, both);
}

/// Whether records were emitted one by one, through these states.
pub open spec fn one_by_one<W: Sink>(
    states: Seq<IoEmitter<W>>,
    records: Seq<Seq<Field>>,
    count: int,
) -> bool {
    &&& 0 <= count <= records.len()
    &&& states.len() == count + 1
    &&& forall|i: int|
        0 <= i < count ==> #[trigger] emits_to(states[i], states[i + 1], records[i], Ok(()))
}

proof fn lemma_one_by_one<W: Sink>(
    states: Seq<IoEmitter<W>>,
    records: Seq<Seq<Field>>,
    count: int,
    done: int,
)
    requires
        W::faithful(),
        !states[0].failed,
        one_by_one(states, records, count),
        0 <= done <= count,
    ensures
        ({
            let emitting = states[0].core.emitting();
            let here = states[done];
            &&& !here.failed
            &&& emitting.accepts(records, done)
            &&& here.core.emitting() == emitting.after_all(records, done)
            &&& here.threshold == states[0].threshold
            &&& here.spec_pending() == pending_after(
                emitting,
                states[0].spec_pending(),
                states[0].threshold,
                records,
                done,
            )
            &&& here.total() == states[0].total() + emitting.all_emitted(records, done)
        }),
    decreases done,
{
    let emitting = states[0].core.emitting();
    if done > 0 {
        lemma_one_by_one(states, records, count, done - 1);
        assert(emits_to(states[done - 1], states[done - 1 + 1], records[done - 1], Ok(())));
        assert(emitting.accepts(records, done)) by {
            assert forall|i: int| 0 <= i < done implies (#[trigger] emitting.after_all(
                records,
                i,
            )).refusal(records[i]) is None by {}
        }
        assert(states[done].total() =~= states[0].total() + emitting.all_emitted(records, done));
    } else {
        assert(states[0].total() =~= states[0].total() + emitting.all_emitted(records, 0));
    }
}

/// Whatever the sink, encoding all of some values is encoding them one by one: as
/// long as each is taken in and up to the first that is not. What is taken and
/// pending at the end are the records that were taken in, in order.
pub proof fn law_encoding_stops_at_the_first_failure<W: Sink>(
    states: Seq<IoEmitter<W>>,
    records: Seq<Seq<Field>>,
    result: Result<(), Error>,
)
    requires
        W::faithful(),
        emits_each(states, records, result),
        !states.first().failed,
    ensures
        ({
            let emitting = states.first().core.emitting();
            let steps = states.len() - 1;
            let done = if own_refusal(result) {
                steps - 1
            } else {
                steps
            };
            &&& emitting.accepts(records, done)
            &&& states.last().core.emitting() == emitting.after_all(records, done)
            &&& states.last().total() == states.first().total() + emitting.all_emitted(
                records,
                done,
            )
            &&& own_refusal(result) ==> emitting.after_all(records, done).refusal(records[done])
                == Some(result->Err_0.spec_kind())
        }),
{
    let steps = states.len() - 1;
    let emitting = states.first().core.emitting();
    if steps > 0 {
        let before = states.take(steps as int);
        assert forall|i: int| 0 <= i < steps - 1 implies #[trigger] emits_to(
            before[i],
            before[i + 1],
            records[i],
            Ok(()),
        ) by {
            assert(emits_to(states[i], states[i + 1], records[i], Ok(())));
        }
        lemma_one_by_one(before, records, steps - 1, steps - 1);
        let here = states[steps - 1];
        assert(emits_to(here, states[steps as int], records[steps - 1], result));
        if !own_refusal(result) {
            assert(emitting.accepts(records, steps as int)) by {
                assert forall|i: int| 0 <= i < steps implies (#[trigger] emitting.after_all(
                    records,
                    i,
                )).refusal(records[i]) is None by {}
            }
            assert(states.last().total() =~= states.first().total() + emitting.all_emitted(
                records,
                steps as int,
            ));
        }
    } else {
        assert(states.first().total() =~= states.first().total() + emitting.all_emitted(
            records,
            0,
        ));
    }
}

/// Encoding all of some values is encoding them one by one up to the first that
/// is refused.
pub proof fn law_encoding_all_is_encoding_each<W: Sink>(
    states: Seq<IoEmitter<W>>,
    after: IoEmitter<W>,
    records: Seq<Seq<Field>>,
    count: int,
    done: int,
    result: Result<(), Error>,
)
    requires
        W::faithful(),
        W::unfailing(),
        one_by_one(states, records, count),
        !states[0].failed,
        count < records.len() ==> states[count].core.emitting().refusal(records[count]) is Some,
        emits_all(states[0], after, records, done, result),
    ensures
        done == count,
        result is Ok == (count == records.len()),
        result matches Err(error) ==> states[count].core.emitting().refusal(records[count])
            == Some(error.spec_kind()),
        alike(states[count], after),
{
    let emitting = states[0].core.emitting();
    lemma_one_by_one(states, records, count, count);
    if done > count {
        assert(emitting.after_all(records, count).refusal(records[count]) is None);
    } else if done < count {
        assert(emitting.after_all(records, done).refusal(records[done]) is None);
    }
    lemma_taken(states[count], after);
}

} // verus!
