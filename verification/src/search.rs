//! Searching and counting bytes.

use vstd::prelude::*;

use crate::ascii::LF;

verus! {

/// The byte `a`.
pub open spec fn one(a: u8) -> spec_fn(u8) -> bool {
    |byte: u8| byte == a
}

/// The bytes `a` and `b`.
pub open spec fn one_of2(a: u8, b: u8) -> spec_fn(u8) -> bool {
    |byte: u8| byte == a || byte == b
}

/// The bytes `a`, `b` and `c`.
pub open spec fn one_of3(a: u8, b: u8, c: u8) -> spec_fn(u8) -> bool {
    |byte: u8| byte == a || byte == b || byte == c
}

/// The bytes `a`, `b`, `c` and `d`.
pub open spec fn one_of4(a: u8, b: u8, c: u8, d: u8) -> spec_fn(u8) -> bool {
    |byte: u8| byte == a || byte == b || byte == c || byte == d
}

/// The first position in `from..to` whose byte is in `stop`, or `to`.
pub open spec fn first_of(bytes: Seq<u8>, from: int, to: int, stop: spec_fn(u8) -> bool) -> int
    decreases to - from,
{
    if from >= to {
        to
    } else if stop(bytes[from]) {
        from
    } else {
        first_of(bytes, from + 1, to, stop)
    }
}

/// What [`first_of`] finds is a stop, and nothing before it is.
pub proof fn lemma_first_of(bytes: Seq<u8>, from: int, to: int, stop: spec_fn(u8) -> bool)
    requires
        from <= to,
    ensures
        from <= first_of(bytes, from, to, stop) <= to,
        first_of(bytes, from, to, stop) < to ==> stop(
            bytes[first_of(bytes, from, to, stop)],
        ),
        forall|i: int|
            from <= i < first_of(bytes, from, to, stop) ==> !stop(#[trigger] bytes[i]),
    decreases to - from,
{
    if from < to && !stop(bytes[from]) {
        lemma_first_of(bytes, from + 1, to, stop);
    }
}

/// A stop with no stop before it is what [`first_of`] finds.
pub proof fn lemma_first_of_is(
    bytes: Seq<u8>,
    from: int,
    to: int,
    stop: spec_fn(u8) -> bool,
    at: int,
)
    requires
        from <= at <= to,
        at < to ==> stop(bytes[at]),
        forall|i: int| from <= i < at ==> !stop(#[trigger] bytes[i]),
    ensures
        first_of(bytes, from, to, stop) == at,
    decreases to - from,
{
    if from < at {
        lemma_first_of_is(bytes, from + 1, to, stop, at);
    }
}

/// Find `a` in `from..to`.
pub fn find1_near(a: u8, bytes: &[u8], from: usize, to: usize) -> (at: usize)
    requires
        from <= to <= bytes.len(),
    ensures
        at == first_of(bytes@, from as int, to as int, one(a)),
        from <= at <= to,
{
    let mut at: usize = from;
    while at < to && bytes[at] != a
        invariant
            from <= at <= to <= bytes.len(),
            forall|i: int| from <= i < at ==> bytes@[i] != a,
        decreases to - at,
    {
        at += 1;
    }
    proof {
        lemma_first_of_is(bytes@, from as int, to as int, one(a), at as int);
    }
    at
}

/// Find `a` or `b` in `from..to`.
pub fn find2_near(a: u8, b: u8, bytes: &[u8], from: usize, to: usize) -> (at: usize)
    requires
        from <= to <= bytes.len(),
    ensures
        at == first_of(bytes@, from as int, to as int, one_of2(a, b)),
        from <= at <= to,
{
    let mut at: usize = from;
    while at < to && bytes[at] != a && bytes[at] != b
        invariant
            from <= at <= to <= bytes.len(),
            forall|i: int| from <= i < at ==> bytes@[i] != a && bytes@[i] != b,
        decreases to - at,
    {
        at += 1;
    }
    proof {
        lemma_first_of_is(bytes@, from as int, to as int, one_of2(a, b), at as int);
    }
    at
}

/// Find `a`, `b` or `c` in `from..to`.
pub fn find3_near(a: u8, b: u8, c: u8, bytes: &[u8], from: usize, to: usize) -> (at: usize)
    requires
        from <= to <= bytes.len(),
    ensures
        at == first_of(bytes@, from as int, to as int, one_of3(a, b, c)),
        from <= at <= to,
{
    let mut at: usize = from;
    while at < to && bytes[at] != a && bytes[at] != b && bytes[at] != c
        invariant
            from <= at <= to <= bytes.len(),
            forall|i: int| from <= i < at ==> bytes@[i] != a && bytes@[i] != b && bytes@[i] != c,
        decreases to - at,
    {
        at += 1;
    }
    proof {
        lemma_first_of_is(bytes@, from as int, to as int, one_of3(a, b, c), at as int);
    }
    at
}

/// Find `a`, `b`, `c` or `d` in `from..to`.
pub fn find4_near(a: u8, b: u8, c: u8, d: u8, bytes: &[u8], from: usize, to: usize) -> (at: usize)
    requires
        from <= to <= bytes.len(),
    ensures
        at == first_of(bytes@, from as int, to as int, one_of4(a, b, c, d)),
        from <= at <= to,
{
    let mut at: usize = from;
    while at < to && bytes[at] != a && bytes[at] != b && bytes[at] != c && bytes[at] != d
        invariant
            from <= at <= to <= bytes.len(),
            forall|i: int|
                from <= i < at ==> bytes@[i] != a && bytes@[i] != b && bytes@[i] != c && bytes@[i]
                    != d,
        decreases to - at,
    {
        at += 1;
    }
    proof {
        lemma_first_of_is(bytes@, from as int, to as int, one_of4(a, b, c, d), at as int);
    }
    at
}

/// The first position from `from` on whose byte is not `byte`.
pub open spec fn run_end(bytes: Seq<u8>, from: int, byte: u8) -> int
    decreases bytes.len() - from,
{
    if 0 <= from < bytes.len() && bytes[from] == byte {
        run_end(bytes, from + 1, byte)
    } else {
        from
    }
}

/// A run holds nothing but its byte and ends before another one.
pub proof fn lemma_run_end(bytes: Seq<u8>, from: int, byte: u8)
    requires
        0 <= from <= bytes.len(),
    ensures
        from <= run_end(bytes, from, byte) <= bytes.len(),
        forall|i: int| from <= i < run_end(bytes, from, byte) ==> #[trigger] bytes[i] == byte,
        run_end(bytes, from, byte) < bytes.len() ==> bytes[run_end(bytes, from, byte)] != byte,
    decreases bytes.len() - from,
{
    if from < bytes.len() && bytes[from] == byte {
        lemma_run_end(bytes, from + 1, byte);
    }
}

/// How often `byte` occurs.
pub open spec fn occurrences(bytes: Seq<u8>, byte: u8) -> nat
    decreases bytes.len(),
{
    if bytes.len() == 0 {
        0
    } else {
        occurrences(bytes.drop_last(), byte) + (if bytes.last() == byte { 1nat } else { 0nat })
    }
}

/// A byte does not occur more often than there are bytes.
pub proof fn lemma_occurrences_bounded(bytes: Seq<u8>, byte: u8)
    ensures
        occurrences(bytes, byte) <= bytes.len(),
    decreases bytes.len(),
{
    if bytes.len() > 0 {
        lemma_occurrences_bounded(bytes.drop_last(), byte);
    }
}

/// Occurrences add up over a concatenation.
pub proof fn lemma_occurrences_concat(left: Seq<u8>, right: Seq<u8>, byte: u8)
    ensures
        occurrences(left + right, byte) == occurrences(left, byte) + occurrences(right, byte),
    decreases right.len(),
{
    if right.len() == 0 {
        assert(left + right =~= left);
    } else {
        assert((left + right).drop_last() =~= left + right.drop_last());
        lemma_occurrences_concat(left, right.drop_last(), byte);
    }
}

/// How many line feeds stand in `from..to`.
pub fn count_newlines(bytes: &[u8], from: usize, to: usize) -> (count: u64)
    requires
        from <= to <= bytes.len(),
    ensures
        count == occurrences(bytes@.subrange(from as int, to as int), LF),
{
    let mut count: u64 = 0;
    let mut at: usize = from;
    while at < to
        invariant
            from <= at <= to <= bytes.len(),
            count == occurrences(bytes@.subrange(from as int, at as int), LF),
            count <= at - from,
        decreases to - at,
    {
        proof {
            let longer = bytes@.subrange(from as int, at + 1);
            assert(longer.drop_last() =~= bytes@.subrange(from as int, at as int));
        }
        if bytes[at] == LF {
            count += 1;
        }
        at += 1;
    }
    count
}

/// Whether `needle` stands in `haystack` at `at`.
pub open spec fn stands_at(haystack: Seq<u8>, needle: Seq<u8>, at: int) -> bool {
    0 <= at && at + needle.len() <= haystack.len() && haystack.subrange(at, at + needle.len())
        == needle
}

/// Whether `needle` stands in `haystack` at `at`.
pub fn is_at(haystack: &[u8], needle: &[u8], at: usize) -> (yes: bool)
    requires
        at <= haystack.len(),
    ensures
        yes == stands_at(haystack@, needle@, at as int),
{
    if needle.len() > haystack.len() - at {
        return false;
    }
    let mut i: usize = 0;
    while i < needle.len()
        invariant
            i <= needle.len() <= haystack.len() - at,
            forall|j: int| 0 <= j < i ==> haystack@[at + j] == needle@[j],
        decreases needle.len() - i,
    {
        if haystack[at + i] != needle[i] {
            assert(haystack@.subrange(at as int, at + needle@.len())[i as int] != needle@[i as int]);
            return false;
        }
        i += 1;
    }
    assert(haystack@.subrange(at as int, at + needle@.len()) =~= needle@);
    true
}

/// Where `needle` first stands in `haystack`.
pub fn find_literal(needle: &[u8], haystack: &[u8]) -> (found: Option<usize>)
    ensures
        match found {
            Some(at) => stands_at(haystack@, needle@, at as int) && forall|i: int|
                0 <= i < at ==> !#[trigger] stands_at(haystack@, needle@, i),
            None => forall|i: int| !#[trigger] stands_at(haystack@, needle@, i),
        },
{
    if needle.len() > haystack.len() {
        return None;
    }
    let last: usize = haystack.len() - needle.len();
    let mut at: usize = 0;
    loop
        invariant
            at <= last == haystack@.len() - needle@.len(),
            forall|i: int| 0 <= i < at ==> !#[trigger] stands_at(haystack@, needle@, i),
        decreases last - at,
    {
        if is_at(haystack, needle, at) {
            return Some(at);
        }
        if at == last {
            return None;
        }
        at += 1;
    }
}

} // verus!
