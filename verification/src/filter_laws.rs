//! What holds of predicates on the records of a document.

use vstd::prelude::*;

use crate::config::Nulls;
use crate::engine::grammar::Rules;
use crate::engine::reading_laws::{
    encloses, escape_of, guard_of, is_cut, is_cut_up, is_quoted, is_record, is_spelled,
    lemma_cuts_from, lemma_cuts_grow, may_be_guarded, parts, says,
};
use crate::filter::{law_equality_is_the_narrowest, MatchKind, Predicate};
use crate::search::stands_at;
use crate::storage::Field;

verus! {

/// Whether a literal can be searched for in the bytes of a document: it is not
/// empty, and every byte of it stands for itself there, quoted or not.
pub open spec fn is_searchable(rules: Rules, literal: Seq<u8>) -> bool {
    &&& literal.len() > 0
    &&& !literal.contains(rules.dialect.quote)
    &&& !literal.contains(guard_of(rules.dialect))
    &&& escape_of(rules.dialect) is None
    &&& !rules.syntax.permits_any_backslash_escape()
}

proof fn lemma_enclosed_start(
    rules: Rules,
    input: Seq<u8>,
    from: int,
    to: int,
    bytes: Seq<u8>,
    count: int,
)
    requires
        0 <= from <= to <= input.len(),
        encloses(rules, input, from, to, bytes),
        !rules.syntax.permits_any_backslash_escape(),
        0 <= count <= bytes.len(),
        forall|i: int|
            0 <= i < count ==> #[trigger] bytes[i] != rules.dialect.quote && bytes[i] != guard_of(
                rules.dialect,
            ),
    ensures
        from + count <= to,
        input.subrange(from, from + count) == bytes.take(count),
    decreases count,
{
    if count > 0 {
        assert(from < to);
        assert(bytes[0] != rules.dialect.quote && bytes[0] != guard_of(rules.dialect));
        if input[from] == guard_of(rules.dialect) {
            assert(may_be_guarded(rules, input[from + 1]));
        }
        let rest = bytes.skip(1);
        assert forall|i: int| 0 <= i < count - 1 implies #[trigger] rest[i] != rules.dialect.quote
            && rest[i] != guard_of(rules.dialect) by {
            assert(rest[i] == bytes[i + 1]);
        }
        lemma_enclosed_start(rules, input, from + 1, to, rest, count - 1);
        assert(input.subrange(from, from + count) =~= seq![input[from]] + input.subrange(
            from + 1,
            from + count,
        ));
        assert(bytes.take(count) =~= seq![bytes[0]] + rest.take(count - 1));
    } else {
        assert(input.subrange(from, from) =~= bytes.take(0));
    }
}

proof fn lemma_enclosed_literal(
    rules: Rules,
    input: Seq<u8>,
    from: int,
    to: int,
    bytes: Seq<u8>,
    literal: Seq<u8>,
    at: int,
) -> (found: int)
    requires
        0 <= from <= to <= input.len(),
        encloses(rules, input, from, to, bytes),
        is_searchable(rules, literal),
        stands_at(bytes, literal, at),
    ensures
        from <= found,
        found + literal.len() <= to,
        input.subrange(found, found + literal.len()) == literal,
    decreases to - from,
{
    let n = literal.len() as int;
    if at == 0 {
        assert forall|i: int| 0 <= i < n implies #[trigger] bytes[i] != rules.dialect.quote
            && bytes[i] != guard_of(rules.dialect) by {
            assert(bytes.subrange(0, n)[i] == literal[i]);
            assert(literal.contains(literal[i]));
        }
        lemma_enclosed_start(rules, input, from, to, bytes, n);
        assert(bytes.take(n) =~= bytes.subrange(0, n));
        from
    } else {
        let rest = bytes.skip(1);
        assert(from < to);
        assert(rest.subrange(at - 1, at - 1 + n) =~= bytes.subrange(at, at + n));
        if input[from] == guard_of(rules.dialect) {
            lemma_enclosed_literal(rules, input, from + 2, to, rest, literal, at - 1)
        } else {
            lemma_enclosed_literal(rules, input, from + 1, to, rest, literal, at - 1)
        }
    }
}

proof fn lemma_said(rules: Rules, input: Seq<u8>, from: int, to: int, bytes: Seq<u8>)
    requires
        0 <= from <= to <= input.len(),
        escape_of(rules.dialect) is None,
        says(rules, input, from, to, bytes),
    ensures
        bytes == input.subrange(from, to),
    decreases to - from,
{
    if from < to {
        lemma_said(rules, input, from + 1, to, bytes.skip(1));
        assert(bytes =~= seq![bytes[0]] + bytes.skip(1));
        assert(input.subrange(from, to) =~= seq![input[from]] + input.subrange(from + 1, to));
    } else {
        assert(bytes =~= input.subrange(from, to));
    }
}

proof fn lemma_spelled_literal(
    rules: Rules,
    input: Seq<u8>,
    at: int,
    close: int,
    end: int,
    field: Field,
    nulls: Nulls,
    literal: Seq<u8>,
) -> (found: int)
    requires
        0 <= at <= end <= input.len(),
        is_searchable(rules, literal),
        is_spelled(rules, input, at, close, end, field, nulls),
        MatchKind::Contains.admits(field.bytes, literal),
    ensures
        at <= found,
        found + literal.len() <= end,
        input.subrange(found, found + literal.len()) == literal,
{
    let n = literal.len() as int;
    let k = choose|k: int| #[trigger] stands_at(field.bytes, literal, k);
    if is_quoted(rules, input, at) {
        lemma_enclosed_literal(rules, input, at + 1, close, field.bytes, literal, k)
    } else {
        lemma_said(rules, input, at, end, field.bytes);
        assert(input.subrange(at + k, at + k + n) =~= field.bytes.subrange(k, k + n));
        at + k
    }
}

proof fn lemma_field_stands(
    rules: Rules,
    input: Seq<u8>,
    start: int,
    next: int,
    fields: Seq<Field>,
    nulls: Nulls,
    index: int,
) -> (part: (int, int, int))
    requires
        is_record(rules, input, start, next, fields, nulls),
        0 <= index < fields.len(),
    ensures
        0 <= start <= part.0 <= part.2 <= next <= input.len(),
        is_spelled(rules, input, part.0, part.1, part.2, fields[index], nulls),
{
    let cuts = choose|cuts: Seq<int>| #[trigger]
        is_cut_up(rules, input, start, next, cuts, fields, nulls);
    let last = index == fields.len() - 1;
    assert(is_cut(rules, input, cuts, fields, nulls, index));
    let (at, close, end) = choose|at: int, close: int, end: int| #[trigger]
        parts(
            rules,
            input,
            cuts[index],
            at,
            close,
            end,
            cuts[index + 1],
            fields[index],
            nulls,
            last,
        );
    lemma_cuts_grow(rules, input, next, cuts, fields, nulls, index + 1);
    lemma_cuts_from(rules, input, start, next, cuts, fields, nulls, index);
    lemma_cuts_inside(rules, input, start, next, cuts, fields, nulls);
    (at, close, end)
}

proof fn lemma_stands_inside(input: Seq<u8>, start: int, next: int, literal: Seq<u8>, at: int)
    requires
        0 <= start <= at,
        at + literal.len() <= next <= input.len(),
        input.subrange(at, at + literal.len()) == literal,
    ensures
        MatchKind::Contains.admits(input.subrange(start, next), literal),
{
    let record = input.subrange(start, next);
    let n = literal.len() as int;
    assert(record.subrange(at - start, at - start + n) =~= input.subrange(at, at + n));
    assert(stands_at(record, literal, at - start));
}

proof fn lemma_admitted(kind: MatchKind, field: Seq<u8>, literal: Seq<u8>)
    requires
        kind.admits(field, literal),
    ensures
        MatchKind::Contains.admits(field, literal),
{
    law_equality_is_the_narrowest(field, literal);
}

/// A literal that can be searched for in the bytes of a document stands in those
/// of every record with a field that contains it, begins or ends with it, or is
/// it: a record without the literal in its bytes can be passed over unread.
pub proof fn law_a_record_without_the_literal_fails(
    rules: Rules,
    input: Seq<u8>,
    start: int,
    next: int,
    fields: Seq<Field>,
    nulls: Nulls,
    index: int,
    kind: MatchKind,
    literal: Seq<u8>,
)
    requires
        is_searchable(rules, literal),
        is_record(rules, input, start, next, fields, nulls),
        0 <= index < fields.len(),
        kind.admits(fields[index].bytes, literal),
    ensures
        MatchKind::Contains.admits(input.subrange(start, next), literal),
{
    let field = fields[index];
    lemma_admitted(kind, field.bytes, literal);
    let (at, close, end) = lemma_field_stands(rules, input, start, next, fields, nulls, index);
    let found = lemma_spelled_literal(rules, input, at, close, end, field, nulls, literal);
    lemma_stands_inside(input, start, next, literal, found);
}

proof fn lemma_cuts_inside(
    rules: Rules,
    input: Seq<u8>,
    start: int,
    to: int,
    cuts: Seq<int>,
    fields: Seq<Field>,
    nulls: Nulls,
)
    requires
        is_cut_up(rules, input, start, to, cuts, fields, nulls),
    ensures
        0 <= start <= to <= input.len(),
{
    assert(is_cut(rules, input, cuts, fields, nulls, 0));
    assert(is_cut(rules, input, cuts, fields, nulls, fields.len() - 1));
    lemma_cuts_from(rules, input, start, to, cuts, fields, nulls, fields.len() - 1);
}

/// A field that is not there passes only where nothing is asked for: it equals
/// and contains the empty literal, and it neither begins nor ends with any.
pub proof fn law_a_missing_field_passes_for_nothing_only(predicate: Predicate)
    ensures
        predicate.passes(None) ==> predicate.spec_literal().len() == 0 && predicate.passes(
            Some(Seq::empty()),
        ),
        predicate.passes(None) <==> predicate.spec_literal().len() == 0 && (predicate.spec_kind()
            == MatchKind::Equals || predicate.spec_kind() == MatchKind::Contains),
{
    let nothing = Seq::<u8>::empty();
    if predicate.spec_literal().len() == 0 {
        assert(predicate.spec_literal() =~= nothing);
        law_equality_is_the_narrowest(nothing, nothing);
    }
}

} // verus!
