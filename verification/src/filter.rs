//! Column predicates for filtering records while reading.

use vstd::prelude::*;

use crate::ascii::{CR, LF};
use crate::search::{find_literal, is_at, stands_at};

verus! {

/// How a field is compared with a literal.
#[derive(Clone, Copy, Debug, PartialEq, Eq, Structural)]
pub enum MatchKind {
    /// The field is the literal.
    Equals,
    /// The field contains the literal.
    Contains,
    /// The field begins with the literal.
    StartsWith,
    /// The field ends with the literal.
    EndsWith,
}

/// The column that a predicate is about.
#[derive(Clone, Debug, PartialEq, Eq)]
pub enum Column {
    /// A field number, counted from zero.
    Index(usize),
    /// A name in the header.
    Name(String),
}

impl Column {
    /// The name, if the column has one.
    pub open spec fn spec_name(&self) -> Option<Seq<char>> {
        match self {
            Column::Index(_) => None,
            Column::Name(name) => Some(name@),
        }
    }

    /// The column with a name.
    pub fn borrowed(name: &str) -> (column: Column)
        ensures
            column.spec_name() == Some(name@),
    {
        Column::Name(name.to_owned())
    }

    /// The name, if the column has one.
    pub fn name(&self) -> (name: Option<&str>)
        ensures
            name is Some == self.spec_name() is Some,
            name matches Some(text) ==> self.spec_name() == Some(text@),
    {
        match self {
            Column::Index(_) => None,
            Column::Name(name) => Some(name.as_str()),
        }
    }
}

impl vstd::std_specs::convert::FromSpecImpl<usize> for Column {
    open spec fn obeys_from_spec() -> bool {
        true
    }

    open spec fn from_spec(index: usize) -> Column {
        Column::Index(index)
    }
}

impl From<usize> for Column {
    fn from(index: usize) -> (column: Column) {
        Column::Index(index)
    }
}

impl vstd::std_specs::convert::FromSpecImpl<String> for Column {
    open spec fn obeys_from_spec() -> bool {
        true
    }

    open spec fn from_spec(name: String) -> Column {
        Column::Name(name)
    }
}

impl From<String> for Column {
    fn from(name: String) -> (column: Column) {
        Column::Name(name)
    }
}

impl<'a> vstd::std_specs::convert::FromSpecImpl<&'a str> for Column {
    open spec fn obeys_from_spec() -> bool {
        false
    }

    open spec fn from_spec(name: &'a str) -> Column {
        arbitrary()
    }
}

impl<'a> From<&'a str> for Column {
    fn from(name: &'a str) -> (column: Column)
        ensures
            column.spec_name() == Some(name@),
    {
        Column::borrowed(name)
    }
}

/// A set of byte values, one bit each.
#[derive(Clone, Copy, Debug, PartialEq, Eq)]
pub struct ByteSet {
    words: [u64; 4],
}

impl ByteSet {
    /// Whether a byte is in the set.
    pub closed spec fn has(&self, byte: u8) -> bool {
        self.words@[(byte >> 6) as int] & (1u64 << (byte & 63)) != 0
    }

    /// The set with nothing in it.
    pub fn empty() -> (set: ByteSet)
        ensures
            forall|byte: u8| !#[trigger] set.has(byte),
    {
        let set = ByteSet { words: [0, 0, 0, 0] };
        proof {
            assert forall|byte: u8| !#[trigger] set.has(byte) by {
                assert(byte >> 6 < 4) by (bit_vector);
                assert(0u64 & (1u64 << (byte & 63)) == 0) by (bit_vector);
            }
        }
        set
    }

    /// Put a byte into the set.
    pub fn insert(&mut self, byte: u8)
        ensures
            forall|other: u8|
                #[trigger] final(self).has(other) == (old(self).has(other) || other == byte),
    {
        let word: u8 = byte >> 6;
        let bit: u8 = byte & 63;
        proof {
            assert(byte >> 6 < 4) by (bit_vector);
            assert(byte & 63 < 64) by (bit_vector);
        }
        let before: u64 = self.words[word as usize];
        self.words[word as usize] = before | (1u64 << bit);
        proof {
            assert forall|other: u8|
                #[trigger] self.has(other) == (old(self).has(other) || other == byte) by {
                let at: u8 = other & 63;
                assert(other >> 6 < 4) by (bit_vector);
                assert(other & 63 < 64) by (bit_vector);
                assert((before | (1u64 << bit)) & (1u64 << at) != 0 <==> (before & (1u64 << at) != 0
                    || at == bit)) by (bit_vector)
                    requires
                        at < 64,
                        bit < 64,
                ;
                assert(other >> 6 == byte >> 6 && other & 63 == byte & 63 ==> other == byte)
                    by (bit_vector);
            }
        }
    }

    /// Whether a byte is in the set.
    pub fn contains(self, byte: u8) -> (yes: bool)
        ensures
            yes == self.has(byte),
    {
        proof {
            assert(byte >> 6 < 4) by (bit_vector);
            assert(byte & 63 < 64) by (bit_vector);
        }
        self.words[(byte >> 6) as usize] & (1u64 << (byte & 63)) != 0
    }
}

/// Whether one sequence begins with another.
pub open spec fn begins_with(bytes: Seq<u8>, literal: Seq<u8>) -> bool {
    stands_at(bytes, literal, 0)
}

/// Whether one sequence ends with another.
pub open spec fn finishes_with(bytes: Seq<u8>, literal: Seq<u8>) -> bool {
    stands_at(bytes, literal, bytes.len() - literal.len())
}

impl MatchKind {
    /// Whether a field passes.
    pub open spec fn admits(self, field: Seq<u8>, literal: Seq<u8>) -> bool {
        match self {
            MatchKind::Equals => field == literal,
            MatchKind::Contains => exists|at: int| #[trigger] stands_at(field, literal, at),
            MatchKind::StartsWith => begins_with(field, literal),
            MatchKind::EndsWith => finishes_with(field, literal),
        }
    }
}

/// A comparison of one column with a literal, byte by byte.
#[derive(Clone, Debug, PartialEq, Eq)]
pub struct Predicate {
    column: Column,
    kind: MatchKind,
    literal: Vec<u8>,
    literal_bytes: ByteSet,
}

impl Predicate {
    /// The column.
    pub closed spec fn spec_column(&self) -> Column {
        self.column
    }

    /// How the field is compared.
    pub closed spec fn spec_kind(&self) -> MatchKind {
        self.kind
    }

    /// The literal.
    pub closed spec fn spec_literal(&self) -> Seq<u8> {
        self.literal@
    }

    /// Whether the set of bytes is that of the literal.
    pub closed spec fn wf(&self) -> bool {
        forall|byte: u8| #[trigger] self.literal_bytes.has(byte) == self.literal@.contains(byte)
    }

    /// Whether a field passes; `None` is a field that is not there.
    pub open spec fn passes(&self, field: Option<Seq<u8>>) -> bool {
        match field {
            Some(bytes) => self.spec_kind().admits(bytes, self.spec_literal()),
            None => self.spec_literal().len() == 0 && (self.spec_kind() is Equals
                || self.spec_kind() is Contains),
        }
    }

    /// Match records whose column is the literal.
    pub fn equals(column: Column, literal: &[u8]) -> (predicate: Predicate)
        ensures
            predicate.wf(),
            predicate.spec_column() == column,
            predicate.spec_kind() == MatchKind::Equals,
            predicate.spec_literal() == literal@,
            forall|field: Seq<u8>| #[trigger]
                predicate.passes(Some(field)) == (field == literal@),
    {
        proof {
            assert forall|field: Seq<u8>| MatchKind::Equals.admits(field, literal@) == (field == literal@) by {
                law_a_kind_compares_bytes(field, literal@);
            }
        }
        Predicate::new(column, MatchKind::Equals, literal)
    }

    /// Match records whose column contains the literal.
    pub fn contains(column: Column, literal: &[u8]) -> (predicate: Predicate)
        ensures
            predicate.wf(),
            predicate.spec_column() == column,
            predicate.spec_kind() == MatchKind::Contains,
            predicate.spec_literal() == literal@,
            forall|field: Seq<u8>| #[trigger]
                predicate.passes(Some(field)) == (holds(field, literal@)),
    {
        proof {
            assert forall|field: Seq<u8>| MatchKind::Contains.admits(field, literal@) == (holds(field, literal@)) by {
                law_a_kind_compares_bytes(field, literal@);
            }
        }
        Predicate::new(column, MatchKind::Contains, literal)
    }

    /// Match records whose column starts with the literal.
    pub fn starts_with(column: Column, literal: &[u8]) -> (predicate: Predicate)
        ensures
            predicate.wf(),
            predicate.spec_column() == column,
            predicate.spec_kind() == MatchKind::StartsWith,
            predicate.spec_literal() == literal@,
            forall|field: Seq<u8>| #[trigger]
                predicate.passes(Some(field)) == (literal@.is_prefix_of(field)),
    {
        proof {
            assert forall|field: Seq<u8>| MatchKind::StartsWith.admits(field, literal@) == (literal@.is_prefix_of(field)) by {
                law_a_kind_compares_bytes(field, literal@);
            }
        }
        Predicate::new(column, MatchKind::StartsWith, literal)
    }

    /// Match records whose column ends with the literal.
    pub fn ends_with(column: Column, literal: &[u8]) -> (predicate: Predicate)
        ensures
            predicate.wf(),
            predicate.spec_column() == column,
            predicate.spec_kind() == MatchKind::EndsWith,
            predicate.spec_literal() == literal@,
            forall|field: Seq<u8>| #[trigger]
                predicate.passes(Some(field)) == (literal@.is_suffix_of(field)),
    {
        proof {
            assert forall|field: Seq<u8>| MatchKind::EndsWith.admits(field, literal@) == (literal@.is_suffix_of(field)) by {
                law_a_kind_compares_bytes(field, literal@);
            }
        }
        Predicate::new(column, MatchKind::EndsWith, literal)
    }

    fn new(column: Column, kind: MatchKind, literal: &[u8]) -> (predicate: Predicate)
        ensures
            predicate.wf(),
            predicate.spec_column() == column,
            predicate.spec_kind() == kind,
            predicate.spec_literal() == literal@,
    {
        let mut literal_bytes = ByteSet::empty();
        let mut bytes: Vec<u8> = Vec::new();
        let mut at: usize = 0;
        while at < literal.len()
            invariant
                at <= literal.len(),
                bytes@ == literal@.take(at as int),
                forall|byte: u8| #[trigger] literal_bytes.has(byte) == bytes@.contains(byte),
            decreases literal.len() - at,
        {
            let byte: u8 = literal[at];
            let ghost before = bytes@;
            literal_bytes.insert(byte);
            bytes.push(byte);
            proof {
                assert(bytes@ =~= literal@.take(at + 1));
                assert forall|other: u8|
                    #[trigger] literal_bytes.has(other) == bytes@.contains(other) by {
                    if before.contains(other) {
                        let i = choose|i: int| 0 <= i < before.len() && before[i] == other;
                        assert(bytes@[i] == other);
                    }
                    if other == byte {
                        assert(bytes@[at as int] == other);
                    }
                }
            }
            at += 1;
        }
        assert(bytes@ =~= literal@);
        Predicate { column, kind, literal: bytes, literal_bytes }
    }

    /// The column.
    pub fn column(&self) -> (column: &Column)
        ensures
            *column == self.spec_column(),
    {
        &self.column
    }

    /// How the field is compared.
    pub fn kind(&self) -> (kind: MatchKind)
        ensures
            kind == self.spec_kind(),
    {
        self.kind
    }

    /// The literal.
    pub fn literal(&self) -> (literal: &[u8])
        ensures
            literal@ == self.spec_literal(),
    {
        self.literal.as_slice()
    }

    /// Whether a field passes.
    ///
    /// A field that is not there passes no test but those against an empty
    /// literal that ask for equality or containment.
    pub fn matches_field(&self, field: Option<&[u8]>) -> (yes: bool)
        ensures
            field matches Some(bytes) ==> yes == self.passes(Some(bytes@)),
            field is None ==> yes == self.passes(None),
            yes == match field {
                Some(bytes) => self.spec_kind().admits(bytes@, self.spec_literal()),
                None => self.spec_literal().len() == 0 && (self.spec_kind() is Equals
                    || self.spec_kind() is Contains),
            },
    {
        let field = match field {
            Some(field) => field,
            None => {
                return self.literal.len() == 0 && (self.kind == MatchKind::Equals || self.kind
                    == MatchKind::Contains);
            },
        };
        let literal = self.literal.as_slice();
        match self.kind {
            MatchKind::Equals => {
                let same = field.len() == literal.len() && is_at(field, literal, 0);
                assert(field@.len() == literal@.len() ==> field@.subrange(
                    0,
                    literal@.len() as int,
                ) =~= field@);
                same
            },
            MatchKind::Contains => find_literal(literal, field).is_some(),
            MatchKind::StartsWith => is_at(field, literal, 0),
            MatchKind::EndsWith => literal.len() <= field.len() && is_at(
                field,
                literal,
                field.len() - literal.len(),
            ),
        }
    }

    /// Whether the literal can be searched for in undecoded input.
    ///
    /// An empty literal stands everywhere, and one with a byte that has a
    /// meaning in the format, or that ends a line, may be spelled otherwise.
    pub fn is_skippable(&self, structural: &[u8]) -> (yes: bool)
        requires
            self.wf(),
        ensures
            yes == (self.spec_literal().len() > 0 && !self.spec_literal().contains(CR)
                && !self.spec_literal().contains(LF) && forall|i: int|
                0 <= i < structural@.len() ==> !self.spec_literal().contains(
                    #[trigger] structural@[i],
                )),
    {
        if self.literal.len() == 0 || self.literal_bytes.contains(CR)
            || self.literal_bytes.contains(LF) {
            return false;
        }
        let mut at: usize = 0;
        while at < structural.len()
            invariant
                at <= structural.len(),
                self.wf(),
                forall|i: int| 0 <= i < at ==> !self.literal@.contains(#[trigger] structural@[i]),
            decreases structural.len() - at,
        {
            if self.literal_bytes.contains(structural[at]) {
                return false;
            }
            at += 1;
        }
        true
    }
}

/// Whether a sequence is some bytes, then the literal, then some bytes.
pub open spec fn holds(bytes: Seq<u8>, literal: Seq<u8>) -> bool {
    exists|before: Seq<u8>, after: Seq<u8>| bytes == #[trigger] (before + literal + after)
}

/// A predicate compares bytes: the field is the literal, it is the literal and
/// a rest, a rest and the literal, or the literal with something on either side.
pub proof fn law_a_kind_compares_bytes(field: Seq<u8>, literal: Seq<u8>)
    ensures
        MatchKind::Equals.admits(field, literal) == (field == literal),
        MatchKind::StartsWith.admits(field, literal) == literal.is_prefix_of(field),
        MatchKind::EndsWith.admits(field, literal) == literal.is_suffix_of(field),
        MatchKind::Contains.admits(field, literal) == holds(field, literal),
{
    let n = literal.len() as int;
    if MatchKind::Contains.admits(field, literal) {
        let at = choose|at: int| #[trigger] stands_at(field, literal, at);
        assert(field =~= field.take(at) + literal + field.skip(at + n));
    }
    if holds(field, literal) {
        let (before, after) = choose|before: Seq<u8>, after: Seq<u8>|
            field == #[trigger] (before + literal + after);
        assert(field.subrange(before.len() as int, before.len() + n) =~= literal);
        assert(stands_at(field, literal, before.len() as int));
    }
}

/// Whatever stands around a literal, a field that begins with it passes
/// `starts with`, one that ends with it `ends with`, and one that has it
/// anywhere `contains`, an empty rest not excepted.
pub proof fn law_a_literal_is_found_beside_anything(
    before: Seq<u8>,
    literal: Seq<u8>,
    after: Seq<u8>,
)
    ensures
        MatchKind::StartsWith.admits(literal + after, literal),
        MatchKind::EndsWith.admits(before + literal, literal),
        MatchKind::Contains.admits(before + literal + after, literal),
        MatchKind::Equals.admits(literal, literal),
{
    assert((literal + after).subrange(0, literal.len() as int) =~= literal);
    assert((before + literal).subrange(before.len() as int, (before + literal).len() as int)
        =~= literal);
    law_a_kind_compares_bytes(before + literal + after, literal);
}

/// What equals the literal starts and ends with it, and what starts or ends
/// with the literal contains it; only the literal itself is of its length and
/// passes any of them.
pub proof fn law_equality_is_the_narrowest(field: Seq<u8>, literal: Seq<u8>)
    ensures
        MatchKind::Equals.admits(field, literal) ==> MatchKind::StartsWith.admits(field, literal)
            && MatchKind::EndsWith.admits(field, literal),
        MatchKind::StartsWith.admits(field, literal) || MatchKind::EndsWith.admits(field, literal)
            ==> MatchKind::Contains.admits(field, literal),
        MatchKind::Contains.admits(field, literal) && field.len() <= literal.len()
            ==> MatchKind::Equals.admits(field, literal),
{
    assert(literal.subrange(0, literal.len() as int) =~= literal);
    if MatchKind::Contains.admits(field, literal) && field.len() <= literal.len() {
        let at = choose|at: int| #[trigger] stands_at(field, literal, at);
        assert(at == 0);
        assert(field.subrange(0, literal.len() as int) =~= field);
    }
}

/// A field longer at either end still passes what it passed: `starts with` and
/// `contains` do not look at what follows, `ends with` and `contains` not at what
/// leads.
pub proof fn law_a_longer_field_still_passes(
    before: Seq<u8>,
    field: Seq<u8>,
    after: Seq<u8>,
    literal: Seq<u8>,
)
    ensures
        MatchKind::StartsWith.admits(field, literal) ==> MatchKind::StartsWith.admits(
            field + after,
            literal,
        ),
        MatchKind::EndsWith.admits(field, literal) ==> MatchKind::EndsWith.admits(
            before + field,
            literal,
        ),
        MatchKind::Contains.admits(field, literal) ==> MatchKind::Contains.admits(
            before + field + after,
            literal,
        ),
{
    let n = literal.len() as int;
    if MatchKind::StartsWith.admits(field, literal) {
        assert((field + after).subrange(0, n) =~= field.subrange(0, n));
    }
    if MatchKind::EndsWith.admits(field, literal) {
        let from = field.len() - n;
        let whole = before + field;
        assert(whole.subrange(whole.len() - n, whole.len() as int) =~= field.subrange(
            from,
            field.len() as int,
        ));
    }
    if MatchKind::Contains.admits(field, literal) {
        let at = choose|at: int| #[trigger] stands_at(field, literal, at);
        let whole = before + field + after;
        assert(whole.subrange(before.len() + at, before.len() + at + n) =~= field.subrange(
            at,
            at + n,
        ));
        assert(stands_at(whole, literal, before.len() + at));
    }
}

} // verus!
