//! Scanning for structural bytes, and finding the columns that a target names.

use vstd::prelude::*;
use vstd::string::StringSliceAdditionalSpecFns;

use crate::byte_record::ByteRecord;
use crate::error::{Error, ErrorKind};
use crate::index::hash::{xxh3, xxh3_128};
use crate::search::{find3_near, first_of, is_at, one_of3};
use crate::storage::Field;

verus! {

/// Steps through the structural bytes of an input.
pub struct StructuralScanner<'input> {
    input: &'input [u8],
    delimiter: u8,
    quote: u8,
    record_ending: u8,
    position: usize,
}

impl<'input> StructuralScanner<'input> {
    /// The input.
    pub closed spec fn spec_input(&self) -> Seq<u8> {
        self.input@
    }

    /// The bytes to stop at.
    pub closed spec fn stops(&self) -> spec_fn(u8) -> bool {
        one_of3(self.delimiter, self.quote, self.record_ending)
    }

    /// Where the scan is.
    pub closed spec fn spec_position(&self) -> int {
        self.position as int
    }

    /// Scan from `position` on.
    pub fn resume(
        input: &'input [u8],
        delimiter: u8,
        quote: u8,
        record_ending: u8,
        position: usize,
    ) -> (scanner: StructuralScanner<'input>)
        ensures
            scanner.spec_input() == input@,
            scanner.stops() == one_of3(delimiter, quote, record_ending),
            scanner.spec_position() == position,
    {
        StructuralScanner { input, delimiter, quote, record_ending, position }
    }

    /// The next structural byte and where it is.
    pub fn next_match(&mut self) -> (found: Option<(usize, u8)>)
        ensures
            final(self).spec_input() == old(self).spec_input(),
            final(self).stops() == old(self).stops(),
            ({
                let input = old(self).spec_input();
                let from = old(self).spec_position();
                let at = first_of(input, from, input.len() as int, old(self).stops());
                if at < input.len() {
                    found matches Some((position, byte)) && position == at && byte == input[at]
                        && final(self).spec_position() == at + 1
                } else {
                    found is None && final(self).spec_position() == from
                }
            }),
    {
        if self.position >= self.input.len() {
            return None;
        }
        let at: usize = find3_near(
            self.delimiter,
            self.quote,
            self.record_ending,
            self.input,
            self.position,
            self.input.len(),
        );
        if at == self.input.len() {
            return None;
        }
        self.position = at + 1;
        Some((at, self.input[at]))
    }
}

/// Where the fields of a target come from.
#[derive(Clone, Debug, PartialEq, Eq)]
pub enum TypedMapping {
    /// Each from the column with its own number, and there are no others.
    Identity,
    /// Each from the column at its place in the list.
    Mapped(Vec<usize>),
}

/// Whether a list names every column in order.
pub open spec fn is_identity(mapping: Seq<usize>, header_len: int) -> bool {
    mapping.len() == header_len && forall|i: int|
        0 <= i < mapping.len() ==> #[trigger] mapping[i] == i
}

/// A list of columns as a mapping.
pub fn typed_mapping_from(source_mapping: Vec<usize>, header_len: usize) -> (mapping: TypedMapping)
    ensures
        mapping == (if is_identity(source_mapping@, header_len as int) {
            TypedMapping::Identity
        } else {
            TypedMapping::Mapped(source_mapping)
        }),
{
    if source_mapping.len() != header_len {
        return TypedMapping::Mapped(source_mapping);
    }
    let mut target: usize = 0;
    while target < source_mapping.len()
        invariant
            target <= source_mapping@.len() == header_len,
            forall|i: int| 0 <= i < target ==> #[trigger] source_mapping@[i] == i,
        decreases source_mapping.len() - target,
    {
        if source_mapping[target] != target {
            return TypedMapping::Mapped(source_mapping);
        }
        target += 1;
    }
    TypedMapping::Identity
}

/// From how many comparisons on a lookup is worth building.
pub const WIDE_MAPPING_COMPARISONS: usize = 4096;

/// Whether so many names and headers are compared that a lookup is worth
/// building.
pub fn wide_mapping(names: usize, headers: usize) -> (wide: bool)
    ensures
        wide == (names * headers >= WIDE_MAPPING_COMPARISONS),
{
    match names.checked_mul(headers) {
        Some(comparisons) => comparisons >= WIDE_MAPPING_COMPARISONS,
        None => true,
    }
}

/// Whether a header is one that a target field goes by: its name or an alias.
pub open spec fn goes_by(header: Seq<u8>, name: &str, aliases: Seq<&str>) -> bool {
    header == name.spec_bytes() || exists|k: int|
        0 <= k < aliases.len() && header == (#[trigger] aliases[k]).spec_bytes()
}

/// The aliases of target field `index`.
pub open spec fn aliases_of<'a>(aliases: Seq<&'a [&'a str]>, index: int) -> Seq<&'a str> {
    if 0 <= index < aliases.len() {
        aliases[index]@
    } else {
        Seq::empty()
    }
}

/// Whether a column is the only one that a target field goes by.
pub open spec fn only_column(
    header: Seq<Field>,
    name: &str,
    aliases: Seq<&str>,
    column: int,
) -> bool {
    0 <= column < header.len() && goes_by(header[column].bytes, name, aliases) && forall|other: int|
        0 <= other < header.len() && goes_by((#[trigger] header[other]).bytes, name, aliases)
            ==> other == column
}

/// Whether no column, or more than one, is what a target field goes by.
pub open spec fn no_column(header: Seq<Field>, name: &str, aliases: Seq<&str>) -> bool {
    forall|column: int| !only_column(header, name, aliases, column)
}

/// Whether the columns of a target were found, or why not.
pub open spec fn resolved(
    header: Seq<Field>,
    names: Seq<&str>,
    aliases: Seq<&[&str]>,
    result: Result<Vec<usize>, Error>,
) -> bool {
    match result {
        Ok(mapping) => mapping@.len() == names.len() && forall|i: int|
            0 <= i < names.len() ==> only_column(
                header,
                names[i],
                aliases_of(aliases, i),
                #[trigger] mapping@[i] as int,
            ),
        Err(error) => error.spec_kind() == ErrorKind::Decode && exists|i: int|
            0 <= i < names.len() && #[trigger] no_column(
                header,
                names[i],
                aliases_of(aliases, i),
            ),
    }
}

/// However the columns of a target are found, the result is the same.
pub proof fn law_resolutions_agree(
    header: Seq<Field>,
    names: Seq<&str>,
    aliases: Seq<&[&str]>,
    first: Result<Vec<usize>, Error>,
    second: Result<Vec<usize>, Error>,
)
    requires
        resolved(header, names, aliases, first),
        resolved(header, names, aliases, second),
    ensures
        first is Ok == second is Ok,
        first is Ok ==> first->Ok_0@ == second->Ok_0@,
        first is Err ==> first->Err_0.spec_kind() == second->Err_0.spec_kind(),
{
    if first is Ok && second is Ok {
        let a = first->Ok_0@;
        let b = second->Ok_0@;
        assert forall|i: int| 0 <= i < a.len() implies a[i] == b[i] by {
            let found = b[i] as int;
            assert(only_column(header, names[i], aliases_of(aliases, i), a[i] as int));
            assert(only_column(header, names[i], aliases_of(aliases, i), found));
            assert(goes_by(header[found].bytes, names[i], aliases_of(aliases, i)));
        }
        assert(a =~= b);
    } else if first is Ok && second is Err {
        let i = choose|i: int|
            0 <= i < names.len() && #[trigger] no_column(
                header,
                names[i],
                aliases_of(aliases, i),
            );
        let column = first->Ok_0@[i] as int;
        assert(only_column(header, names[i], aliases_of(aliases, i), column));
    } else if first is Err && second is Ok {
        let i = choose|i: int|
            0 <= i < names.len() && #[trigger] no_column(
                header,
                names[i],
                aliases_of(aliases, i),
            );
        let column = second->Ok_0@[i] as int;
        assert(only_column(header, names[i], aliases_of(aliases, i), column));
    }
}

/// A target field is read from the column that has its name or one of its
/// aliases; where another column has its name too, nothing is found.
pub proof fn law_a_column_is_found_by_name_or_alias(
    header: Seq<Field>,
    names: Seq<&str>,
    aliases: Seq<&[&str]>,
    result: Result<Vec<usize>, Error>,
    index: int,
    column: int,
    other: int,
)
    requires
        resolved(header, names, aliases, result),
        0 <= index < names.len(),
        0 <= column < header.len(),
        header[column].bytes == names[index].spec_bytes() || exists|k: int|
            0 <= index < aliases.len() && 0 <= k < aliases[index]@.len() && header[column].bytes
                == (#[trigger] aliases[index]@[k]).spec_bytes(),
    ensures
        result is Ok ==> result->Ok_0@.len() == names.len() && result->Ok_0@[index] == column,
        0 <= other < header.len() && other != column && header[other].bytes
            == names[index].spec_bytes() ==> result is Err,
        result matches Err(error) ==> error.spec_kind() == ErrorKind::Decode,
{
    let own = aliases_of(aliases, index);
    assert(goes_by(header[column].bytes, names[index], own)) by {
        if header[column].bytes != names[index].spec_bytes() {
            let k = choose|k: int|
                0 <= index < aliases.len() && 0 <= k < aliases[index]@.len()
                    && header[column].bytes == (#[trigger] aliases[index]@[k]).spec_bytes();
            assert(header[column].bytes == own[k].spec_bytes());
        }
    }
    if let Ok(mapping) = result {
        assert(only_column(header, names[index], own, mapping@[index] as int));
        if 0 <= other < header.len() && header[other].bytes == names[index].spec_bytes() {
            assert(goes_by(header[other].bytes, names[index], own));
        }
    }
}

fn same_bytes(left: &[u8], right: &[u8]) -> (same: bool)
    ensures
        same == (left@ == right@),
{
    let same = left.len() == right.len() && is_at(left, right, 0);
    assert(left@.len() == right@.len() ==> left@.subrange(0, right@.len() as int) =~= left@);
    same
}

fn is_called(header: &[u8], name: &str, aliases: &[&str]) -> (yes: bool)
    ensures
        yes == goes_by(header@, name, aliases@),
{
    if same_bytes(header, name.as_bytes()) {
        return true;
    }
    let mut k: usize = 0;
    while k < aliases.len()
        invariant
            k <= aliases.len(),
            header@ != name.spec_bytes(),
            forall|j: int| 0 <= j < k ==> header@ != (#[trigger] aliases@[j]).spec_bytes(),
        decreases aliases.len() - k,
    {
        if same_bytes(header, aliases[k].as_bytes()) {
            assert(header@ == aliases@[k as int].spec_bytes());
            return true;
        }
        k += 1;
    }
    false
}

/// Why the columns of a target were not found.
pub const UNRESOLVED_FIELD: &'static str = "a field of the target does not name exactly one column";

fn unresolved() -> (error: Error)
    ensures
        error.spec_kind() == ErrorKind::Decode,
{
    Error::detailed(ErrorKind::Decode, UNRESOLVED_FIELD)
}

/// Whether the columns below `count` that a target field goes by are `found`.
pub open spec fn found_below(
    header: Seq<Field>,
    name: &str,
    aliases: Seq<&str>,
    count: int,
    found: Option<usize>,
) -> bool {
    match found {
        Some(column) => column < count && goes_by(header[column as int].bytes, name, aliases)
            && forall|other: int|
            0 <= other < count && goes_by((#[trigger] header[other]).bytes, name, aliases) ==> other
                == column,
        None => forall|other: int|
            0 <= other < count ==> !goes_by((#[trigger] header[other]).bytes, name, aliases),
    }
}

/// Find the one column that a target field goes by, header by header.
fn scan_for(record: &ByteRecord, name: &str, aliases: &[&str]) -> (found: Option<usize>)
    requires
        record.wf(),
    ensures
        match found {
            Some(column) => only_column(record@, name, aliases@, column as int),
            None => no_column(record@, name, aliases@),
        },
{
    let mut found: Option<usize> = None;
    let mut column: usize = 0;
    while column < record.len()
        invariant
            column <= record@.len(),
            record.wf(),
            found_below(record@, name, aliases@, column as int, found),
        decreases record@.len() - column,
    {
        if let Some(header) = record.get(column) {
            if is_called(header, name, aliases) {
                if let Some(earlier) = found {
                    proof {
                        assert forall|other: int| !only_column(record@, name, aliases@, other) by {
                            assert(goes_by(record@[earlier as int].bytes, name, aliases@));
                            assert(goes_by(record@[column as int].bytes, name, aliases@));
                        }
                    }
                    return None;
                }
                found = Some(column);
            }
        }
        column += 1;
    }
    found
}

/// Find the columns of a target, comparing every name with every header.
pub fn resolve_decode_mapping(record: &ByteRecord, names: &[&str], aliases: &[&[&str]]) -> (result:
    Result<Vec<usize>, Error>)
    requires
        record.wf(),
    ensures
        resolved(record@, names@, aliases@, result),
{
    let mut mapping: Vec<usize> = Vec::new();
    let mut index: usize = 0;
    let none: Vec<&str> = Vec::new();
    while index < names.len()
        invariant
            index <= names.len(),
            record.wf(),
            none@ == Seq::<&str>::empty(),
            mapping@.len() == index,
            forall|i: int|
                0 <= i < index ==> only_column(
                    record@,
                    names@[i],
                    aliases_of(aliases@, i),
                    #[trigger] mapping@[i] as int,
                ),
        decreases names.len() - index,
    {
        let others: &[&str] = if index < aliases.len() {
            aliases[index]
        } else {
            none.as_slice()
        };
        assert(others@ == aliases_of(aliases@, index as int));
        match scan_for(record, names[index], others) {
            Some(column) => mapping.push(column),
            None => {
                assert(no_column(
                    record@,
                    names@[index as int],
                    aliases_of(aliases@, index as int),
                ));
                return Err(unresolved());
            },
        }
        index += 1;
    }
    Ok(mapping)
}

/// The columns of a header by name.
///
/// Columns whose names have the same hash, up to a multiple of the number of
/// groups, stand in one group.
#[derive(Debug)]
pub struct HeaderLookup {
    groups: Vec<Vec<usize>>,
}

/// The group of a name.
pub open spec fn group_of(name: Seq<u8>, groups: int) -> int {
    xxh3(name) as int % groups
}

impl HeaderLookup {
    /// Whether each column stands in its group, and nothing else does.
    pub closed spec fn covers(&self, header: Seq<Field>) -> bool {
        &&& self.groups@.len() > 0
        &&& forall|column: int|
            #![trigger header[column]]
            0 <= column < header.len() ==> self.groups@[group_of(
                header[column].bytes,
                self.groups@.len() as int,
            )]@.contains(column as usize)
        &&& forall|group: int, k: int|
            0 <= group < self.groups@.len() && 0 <= k < self.groups@[group]@.len() ==> (
            #[trigger] self.groups@[group]@[k]) < header.len()
    }

    /// A lookup of nothing.
    pub fn new() -> (lookup: HeaderLookup)
        ensures
            lookup.covers(Seq::<Field>::empty()),
    {
        let mut groups: Vec<Vec<usize>> = Vec::new();
        groups.push(Vec::new());
        HeaderLookup { groups }
    }

    /// Look up the columns of another header from now on.
    pub fn rebuild(&mut self, record: &ByteRecord)
        requires
            record.wf(),
        ensures
            final(self).covers(record@),
    {
        let size: usize = if record.len() == 0 {
            1
        } else {
            record.len()
        };
        let mut groups: Vec<Vec<usize>> = Vec::new();
        while groups.len() < size
            invariant
                groups@.len() <= size,
                forall|g: int| 0 <= g < groups@.len() ==> (#[trigger] groups@[g])@.len() == 0,
            decreases size - groups.len(),
        {
            groups.push(Vec::new());
        }
        let mut column: usize = 0;
        while column < record.len()
            invariant
                column <= record@.len(),
                record.wf(),
                groups@.len() == size,
                size > 0,
                forall|c: int|
                    #![trigger record@[c]]
                    0 <= c < column ==> groups@[group_of(
                        record@[c].bytes,
                        size as int,
                    )]@.contains(c as usize),
                forall|g: int, k: int|
                    0 <= g < groups@.len() && 0 <= k < groups@[g]@.len() ==> (
                    #[trigger] groups@[g]@[k]) < column,
            decreases record@.len() - column,
        {
            if let Some(header) = record.get(column) {
                let group: usize = (xxh3_128(header) % (size as u128)) as usize;
                let ghost before = groups@;
                let mut members: Vec<usize> = Vec::new();
                std::mem::swap(&mut members, &mut groups[group]);
                members.push(column);
                groups[group] = members;
                proof {
                    let old_members = before[group as int]@;
                    let new_members = old_members.push(column);
                    assert(groups@ =~= before.update(group as int, groups@[group as int]));
                    assert(groups@[group as int]@ == new_members);
                    assert forall|c: int|
                        #![trigger record@[c]]
                        0 <= c < column + 1 implies groups@[group_of(
                        record@[c].bytes,
                        size as int,
                    )]@.contains(c as usize) by {
                        let g = group_of(record@[c].bytes, size as int);
                        if c == column {
                            assert(new_members[old_members.len() as int] == column);
                        } else if g == group {
                            let k = choose|k: int|
                                0 <= k < old_members.len() && old_members[k] == c as usize;
                            assert(new_members[k] == c as usize);
                        }
                    }
                    assert forall|g: int, k: int|
                        0 <= g < groups@.len() && 0 <= k < groups@[g]@.len() implies (
                    #[trigger] groups@[g]@[k]) < column + 1 by {
                        if g == group && k < old_members.len() {
                            assert(before[g]@[k] < column);
                        } else if g != group {
                            assert(before[g]@[k] < column);
                        }
                    }
                }
            }
            column += 1;
        }
        self.groups = groups;
    }
}

/// Whether a column was looked at for a name: it is the one found, or is called
/// otherwise.
pub open spec fn settled(
    header: Seq<Field>,
    name: Seq<u8>,
    found: Option<usize>,
    column: int,
) -> bool {
    header[column].bytes == name ==> (found matches Some(at) && at == column)
}

/// Whether two columns are in question: the second has the name, and the first
/// has it too or was found before.
pub open spec fn clash(
    header: Seq<Field>,
    name: Seq<u8>,
    found: Option<usize>,
    first: int,
    second: int,
) -> bool {
    &&& 0 <= first < header.len()
    &&& 0 <= second < header.len()
    &&& first != second
    &&& header[second].bytes == name
    &&& header[first].bytes == name || (found matches Some(at) && at == first)
}

impl HeaderLookup {
    /// Find the columns with a name that are not `found`.
    ///
    /// Fails if there are others besides the one found.
    fn look_up(&self, record: &ByteRecord, name: &[u8], found: Option<usize>) -> (result: Result<
        Option<usize>,
        (),
    >)
        requires
            record.wf(),
            self.covers(record@),
            found matches Some(column) ==> column < record@.len(),
        ensures
            match result {
                Ok(now) => {
                    &&& found is Some ==> now == found
                    &&& found is None ==> (now matches Some(column) ==> column < record@.len()
                        && record@[column as int].bytes == name@)
                    &&& forall|column: int|
                        0 <= column < record@.len() ==> settled(
                            record@,
                            name@,
                            now,
                            column,
                        ) || #[trigger] record@[column].bytes != name@
                },
                Err(()) => exists|first: int, second: int|
                    clash(record@, name@, found, first, second),
            },
    {
        let columns: usize = record.len();
        let group: usize = (xxh3_128(name) % (self.groups.len() as u128)) as usize;
        let members = &self.groups[group];
        let mut now: Option<usize> = found;
        let mut k: usize = 0;
        while k < members.len()
            invariant
                k <= members@.len(),
                record.wf(),
                self.covers(record@),
                columns == record@.len(),
                group < self.groups@.len(),
                group == group_of(name@, self.groups@.len() as int),
                members@ == self.groups@[group as int]@,
                found matches Some(column) ==> column < record@.len() && now == found,
                now matches Some(column) ==> column < record@.len(),
                found is None ==> (now matches Some(column) ==> record@[column as int].bytes
                    == name@),
                forall|j: int|
                    0 <= j < k ==> settled(record@, name@, now, #[trigger] members@[j] as int),
            decreases members.len() - k,
        {
            let column: usize = members[k];
            assert(self.groups@[group as int]@[k as int] < record@.len());
            if let Some(header) = record.get(column) {
                if same_bytes(header, name) {
                    match now {
                        Some(earlier) => {
                            if earlier != column {
                                assert(clash(
                                    record@,
                                    name@,
                                    found,
                                    earlier as int,
                                    column as int,
                                ));
                                return Err(());
                            }
                        },
                        None => {
                            now = Some(column);
                        },
                    }
                }
            }
            k += 1;
        }
        proof {
            assert forall|column: int| 0 <= column < record@.len() implies settled(
                record@,
                name@,
                now,
                column,
            ) || #[trigger] record@[column].bytes != name@ by {
                if record@[column].bytes == name@ {
                    assert(members@.contains(column as usize));
                    let j = choose|j: int|
                        0 <= j < members@.len() && members@[j] == column as usize;
                    assert(settled(record@, name@, now, members@[j] as int));
                }
            }
        }
        Ok(now)
    }

    /// Find the one column that a target field goes by.
    fn find(&self, record: &ByteRecord, name: &str, aliases: &[&str]) -> (found: Option<usize>)
        requires
            record.wf(),
            self.covers(record@),
        ensures
            match found {
                Some(column) => only_column(record@, name, aliases@, column as int),
                None => no_column(record@, name, aliases@),
            },
    {
        let mut found: Option<usize> = match self.look_up(record, name.as_bytes(), None) {
            Ok(found) => found,
            Err(()) => {
                return None;
            },
        };
        let mut k: usize = 0;
        while k < aliases.len()
            invariant
                k <= aliases@.len(),
                record.wf(),
                self.covers(record@),
                found matches Some(column) ==> column < record@.len() && goes_by(
                    record@[column as int].bytes,
                    name,
                    aliases@,
                ),
                forall|column: int|
                    0 <= column < record@.len() && (#[trigger] record@[column]).bytes
                        == name.spec_bytes() ==> (found matches Some(at) && at == column),
                forall|column: int, j: int|
                    0 <= column < record@.len() && 0 <= j < k && (#[trigger] record@[column]).bytes
                        == (#[trigger] aliases@[j]).spec_bytes() ==> (found matches Some(at) && at
                        == column),
            decreases aliases.len() - k,
        {
            let ghost before = found;
            let alias = aliases[k].as_bytes();
            assert(alias@ == aliases@[k as int].spec_bytes());
            found =
            match self.look_up(record, alias, found) {
                Ok(now) => now,
                Err(()) => {
                    proof {
                        let (first, second) = choose|first: int, second: int|
                            clash(record@, alias@, before, first, second);
                        assert(goes_by(record@[second].bytes, name, aliases@));
                        assert(goes_by(record@[first].bytes, name, aliases@));
                        assert forall|column: int| !only_column(
                            record@,
                            name,
                            aliases@,
                            column,
                        ) by {}
                    }
                    return None;
                },
            };
            k += 1;
        }
        proof {
            match found {
                Some(column) => {
                    assert(only_column(record@, name, aliases@, column as int));
                },
                None => {
                    assert forall|column: int| !only_column(record@, name, aliases@, column) by {
                        if 0 <= column < record@.len() {
                            assert(!goes_by(record@[column].bytes, name, aliases@));
                        }
                    }
                },
            }
        }
        found
    }
}

/// Find the columns of a target by a lookup of the header.
pub fn resolve_decode_mapping_indexed(
    record: &ByteRecord,
    lookup: &HeaderLookup,
    names: &[&str],
    aliases: &[&[&str]],
) -> (result: Result<Vec<usize>, Error>)
    requires
        record.wf(),
        lookup.covers(record@),
    ensures
        resolved(record@, names@, aliases@, result),
{
    let mut mapping: Vec<usize> = Vec::new();
    let mut index: usize = 0;
    let none: Vec<&str> = Vec::new();
    while index < names.len()
        invariant
            index <= names.len(),
            record.wf(),
            lookup.covers(record@),
            none@ == Seq::<&str>::empty(),
            mapping@.len() == index,
            forall|i: int|
                0 <= i < index ==> only_column(
                    record@,
                    names@[i],
                    aliases_of(aliases@, i),
                    #[trigger] mapping@[i] as int,
                ),
        decreases names.len() - index,
    {
        let others: &[&str] = if index < aliases.len() {
            aliases[index]
        } else {
            none.as_slice()
        };
        assert(others@ == aliases_of(aliases@, index as int));
        match lookup.find(record, names[index], others) {
            Some(column) => mapping.push(column),
            None => {
                assert(no_column(
                    record@,
                    names@[index as int],
                    aliases_of(aliases@, index as int),
                ));
                return Err(unresolved());
            },
        }
        index += 1;
    }
    Ok(mapping)
}

/// Find the columns of a target, by a lookup where that is worth it.
pub fn resolve_typed_mapping(
    record: &ByteRecord,
    lookup: &mut HeaderLookup,
    names: &[&str],
    aliases: &[&[&str]],
) -> (result: Result<TypedMapping, Error>)
    requires
        record.wf(),
    ensures
        match result {
            Ok(TypedMapping::Identity) => exists|mapping: Vec<usize>|
                #[trigger] resolved(record@, names@, aliases@, Ok(mapping)) && is_identity(
                    mapping@,
                    record@.len() as int,
                ),
            Ok(TypedMapping::Mapped(mapping)) => resolved(record@, names@, aliases@, Ok(mapping))
                && !is_identity(mapping@, record@.len() as int),
            Err(error) => resolved(record@, names@, aliases@, Err(error)),
        },
{
    let found = if wide_mapping(names.len(), record.len()) {
        lookup.rebuild(record);
        resolve_decode_mapping_indexed(record, lookup, names, aliases)
    } else {
        resolve_decode_mapping(record, names, aliases)
    };
    match found {
        Ok(mapping) => {
            assert(resolved(record@, names@, aliases@, Ok(mapping)));
            Ok(typed_mapping_from(mapping, record.len()))
        },
        Err(error) => Err(error),
    }
}

} // verus!
