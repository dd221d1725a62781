//! What holds of the records that a parser reads.

use vstd::prelude::*;

use crate::config::{FieldCount, Nulls};
use crate::engine::failure_laws::{
    is_at_fault, law_a_refusal_names_what_is_wrong, law_every_path_names_what_is_wrong,
};
use crate::engine::grammar::Scan;
use crate::engine::laws::{law_every_path_reads_alike, refused_length};
use crate::engine::limit_laws::law_every_path_keeps_to_the_limits;
use crate::engine::reading_laws::{
    is_record, law_a_record_is_what_its_bytes_say, law_a_record_is_within_its_limits,
    law_what_bytes_say_is_read,
};
use crate::engine::{line_number, Engine};
use crate::error::{Error, ErrorKind};
use crate::slice_parser::{lemma_record_start, read_next, record_at, SliceParser};
use crate::storage::{Field, RecordStorage};

verus! {

/// Whether a parser has read something of its document and is still a parser of
/// it.
pub open spec fn went_on<'a>(
    before: SliceParser<'a>,
    after: SliceParser<'a>,
    output: RecordStorage,
    result: Result<bool, Error>,
) -> bool {
    &&& before.wf()
    &&& after.wf()
    &&& after.document() == before.document()
    &&& after.spec_settings() == before.spec_settings()
    &&& read_next(before, after, output, result)
}

/// Whether the next number of fields is fixed to this one: it is asked for, or
/// it is that of a record that was read.
pub open spec fn must_have(state: Engine, count: usize) -> bool {
    ||| state.field_count == FieldCount::Exact(count)
    ||| state.field_count == FieldCount::MatchFirst && state.expected_fields == Some(count)
}

proof fn lemma_rules_read(state: Engine, document: Seq<u8>)
    requires
        Engine::supports(state.dialect) ==> state.sound(),
        state.location < document.len(),
    ensures
        ({
            let start = state.location as int;
            let general = state.rules().read_record(document, start, state.nulls);
            let scan = record_at(state, document).scan;
            match general {
                Scan::Done { fields, next } => scan == state.settled(fields, next).scan,
                _ => scan is Done ==> refused_length(general),
            }
        }),
{
    reveal(record_at);
    if Engine::supports(state.dialect) {
        law_every_path_reads_alike(state, document, state.location as int, false);
    }
}

/// A record that a parser yields is what the bytes of the document say, from the
/// first byte of the record to the one where the parser is then. The one
/// exception is a record with a field that is refused for its length when its
/// carriage return is counted.
pub proof fn law_a_parser_yields_what_bytes_say<'a>(
    before: SliceParser<'a>,
    after: SliceParser<'a>,
    output: RecordStorage,
    result: Result<bool, Error>,
)
    requires
        went_on(before, after, output, result),
        result == Ok::<bool, Error>(true),
    ensures
        ({
            let rules = before.spec_settings().rules();
            let start = before.next_state().location as int;
            let nulls = before.spec_settings().nulls;
            refused_length(rules.read_record(before.document(), start, nulls)) || is_record(
                rules,
                before.document(),
                start,
                after.state().location as int,
                output.fields(),
                nulls,
            )
        }),
{
    let here = before.next_state();
    let document = before.document();
    lemma_record_start(before.spec_settings(), document, before.state().location as int);
    assert(here.rules() == before.state().rules());
    lemma_rules_read(here, document);
    law_a_record_is_what_its_bytes_say(here.rules(), document, here.location as int, here.nulls);
}

/// What the bytes of a document say is yielded: where a record stands next, no
/// longer than a field may be and with a number of fields that is accepted, the
/// parser yields its fields and is behind it then; with another number of fields
/// than it must have, the record is refused with both numbers.
pub proof fn law_a_parser_yields_what_stands_next<'a>(
    before: SliceParser<'a>,
    after: SliceParser<'a>,
    output: RecordStorage,
    result: Result<bool, Error>,
    next: int,
    fields: Seq<Field>,
    count: usize,
)
    requires
        went_on(before, after, output, result),
        before.next_state().location < before.document().len(),
        is_record(
            before.spec_settings().rules(),
            before.document(),
            before.next_state().location as int,
            next,
            fields,
            before.spec_settings().nulls,
        ),
        fields.len() <= before.spec_settings().limits.max_fields,
        next - before.next_state().location <= before.spec_settings().limits.max_field_bytes,
        next - before.next_state().location <= before.spec_settings().limits.max_record_bytes,
    ensures
        !(exists|other: usize| #[trigger] must_have(before.state(), other) && other
            != fields.len()) ==> {
            &&& result == Ok::<bool, Error>(true)
            &&& output.fields() == fields
            &&& after.state().location == next
        },
        must_have(before.state(), count) && count != fields.len() ==> {
            result matches Err(error) && error.spec_kind() == (ErrorKind::FieldCountMismatch {
                expected: count,
                actual: fields.len() as usize,
            })
        },
{
    let here = before.next_state();
    let document = before.document();
    lemma_record_start(before.spec_settings(), document, before.state().location as int);
    assert(here.rules() == before.state().rules());
    lemma_rules_read(here, document);
    law_what_bytes_say_is_read(
        here.rules(),
        document,
        here.location as int,
        next,
        fields,
        here.nulls,
    );
    assert(fields.len() <= usize::MAX);
    if here.required_fields() is Some && here.required_fields()->0 != fields.len() {
        assert(must_have(before.state(), here.required_fields()->0));
    }
}

proof fn lemma_counted(state: Engine, document: Seq<u8>)
    requires
        Engine::supports(state.dialect) ==> state.sound(),
        state.location < document.len(),
        state.field_count != FieldCount::Flexible,
    ensures
        record_at(state, document).scan matches Scan::Done { fields, .. } ==> {
            &&& state.required_fields() matches Some(count) ==> count == fields.len() as usize
            &&& record_at(state, document).state.field_count == state.field_count
            &&& record_at(state, document).state.expected_fields == if state.field_count
                == FieldCount::MatchFirst && state.expected_fields is None {
                Some(fields.len() as usize)
            } else {
                state.expected_fields
            }
        },
{
    reveal(record_at);
}

/// The records that a parser yields have one number of fields where one is asked
/// for: the exact number, or that of the first record, which every later one
/// must have.
pub proof fn law_records_have_one_width<'a>(
    start: SliceParser<'a>,
    between: SliceParser<'a>,
    end: SliceParser<'a>,
    first: RecordStorage,
    second: RecordStorage,
)
    requires
        went_on(start, between, first, Ok(true)),
        went_on(between, end, second, Ok(true)),
        first.fields().len() <= usize::MAX,
        second.fields().len() <= usize::MAX,
    ensures
        start.state().field_count matches FieldCount::Exact(count) ==> first.fields().len() == count
            && second.fields().len() == count,
        start.state().field_count == FieldCount::MatchFirst ==> first.fields().len()
            == second.fields().len(),
        start.state().field_count == FieldCount::MatchFirst ==> (
        start.state().expected_fields matches Some(count) ==> first.fields().len() == count),
{
    let document = start.document();
    let here = start.next_state();
    let there = between.next_state();
    lemma_record_start(start.spec_settings(), document, start.state().location as int);
    lemma_record_start(start.spec_settings(), document, between.state().location as int);
    assert(here.rules() == start.state().rules());
    assert(there.rules() == between.state().rules());
    if start.state().field_count != FieldCount::Flexible {
        lemma_counted(here, document);
        lemma_counted(there, document);
    }
}

/// A record that a parser yields keeps to the limits, by whichever path it was
/// read.
pub proof fn law_a_parser_keeps_to_its_limits<'a>(
    before: SliceParser<'a>,
    after: SliceParser<'a>,
    output: RecordStorage,
    result: Result<bool, Error>,
)
    requires
        went_on(before, after, output, result),
        result == Ok::<bool, Error>(true),
    ensures
        output.fields().len() <= before.spec_settings().limits.max_fields,
        after.state().location - before.next_state().location
            <= before.spec_settings().limits.max_record_bytes,
        forall|i: int|
            0 <= i < output.fields().len() ==> (#[trigger] output.fields()[i]).bytes.len()
                <= before.spec_settings().limits.max_field_bytes,
{
    let here = before.next_state();
    let document = before.document();
    let start = here.location as int;
    lemma_record_start(before.spec_settings(), document, before.state().location as int);
    assert(here.rules() == before.state().rules());
    reveal(record_at);
    if Engine::supports(here.dialect) {
        law_every_path_keeps_to_the_limits(here, document, start, false);
    } else {
        law_a_record_is_within_its_limits(here.rules(), document, start, here.nulls);
    }
}

/// A failure of a parser tells where it is: the number of the record, the byte
/// and the line of what is wrong, which stands there, and it yields nothing that
/// it has not read; the parser is then where the record starts.
pub proof fn law_a_failure_points_at_what_is_wrong<'a>(
    before: SliceParser<'a>,
    after: SliceParser<'a>,
    output: RecordStorage,
    result: Result<bool, Error>,
)
    requires
        went_on(before, after, output, result),
        result is Err,
    ensures
        ({
            let error = result->Err_0;
            let at = error.spec_location().byte as int;
            &&& error.spec_location().record == before.state().record
            &&& error.spec_location().line == line_number(before.document(), at)
            &&& error.spec_kind() is FieldCountMismatch || is_at_fault(
                before.spec_settings().rules(),
                before.document(),
                before.next_state().location as int,
                error.spec_kind(),
                at,
            )
            &&& after.state().location == before.next_state().location
        }),
{
    let here = before.next_state();
    let document = before.document();
    let start = here.location as int;
    lemma_record_start(before.spec_settings(), document, before.state().location as int);
    assert(here.rules() == before.state().rules());
    reveal(record_at);
    if Engine::supports(here.dialect) {
        law_every_path_names_what_is_wrong(here, document, start, false);
    } else {
        law_a_refusal_names_what_is_wrong(here.rules(), document, start, here.nulls);
    }
}

/// A parser looks for the next record from where it is, behind comments and empty
/// lines that are skipped, and changes nothing else on the way; it says that there
/// is none if and only if the document is over there. Records are numbered in
/// order.
pub proof fn law_a_parser_goes_on_in_order<'a>(
    before: SliceParser<'a>,
    after: SliceParser<'a>,
    output: RecordStorage,
    result: Result<bool, Error>,
)
    requires
        went_on(before, after, output, result),
        before.document().len() <= usize::MAX,
    ensures
        before.next_state().location == before.spec_settings().record_start(
            before.document(),
            before.state().location as int,
        ),
        before.next_state().record == before.state().record,
        before.next_state().expected_fields == before.state().expected_fields,
        result == Ok::<bool, Error>(false) <==> before.spec_settings().record_start(
            before.document(),
            before.state().location as int,
        ) >= before.document().len(),
        result == Ok::<bool, Error>(false) ==> output.fields() == Seq::<Field>::empty(),
        result == Ok::<bool, Error>(true) && before.state().record < u64::MAX
            ==> after.state().record == before.state().record + 1,
{
    lemma_record_start(
        before.spec_settings(),
        before.document(),
        before.state().location as int,
    );
}

/// The fields of a header are names: none of them is a NULL, whatever stands for
/// one in the records. Every path reads a header as the bytes say it without
/// NULLs.
pub proof fn law_a_header_has_no_nulls(engine: Engine, input: Seq<u8>, start: int)
    requires
        engine.sound(),
        Engine::supports(engine.dialect),
        engine.field_count == FieldCount::Flexible,
        0 <= start < input.len(),
        engine.rules().read_record(input, start, Nulls::Disabled) is Done,
    ensures
        engine.owned(input, start, Seq::empty(), true).scan == engine.rules().read_record(
            input,
            start,
            Nulls::Disabled,
        ),
        engine.nulls_for(false) == engine.nulls,
{
    law_every_path_reads_alike(engine, input, start, true);
}

} // verus!
