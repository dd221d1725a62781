//! Field ends with the NULL mark packed in.
//!
//! Records store where each field ends; a field starts where its predecessor
//! ended. Whether a field is NULL is told by the top bit of its end.

use vstd::prelude::*;

verus! {

/// The largest offset an end can hold.
pub const MAX_FIELD_OFFSET: usize = usize::MAX / 2;

/// The largest offset an end can hold.
#[verifier::allow_in_spec]
pub fn max_field_offset() -> usize
    returns
        MAX_FIELD_OFFSET,
{
    MAX_FIELD_OFFSET
}

/// The offset in an end.
#[verifier::allow_in_spec]
pub fn end_offset(raw: usize) -> usize
    returns
        (if raw > MAX_FIELD_OFFSET {
            (raw - MAX_FIELD_OFFSET - 1) as usize
        } else {
            raw
        }),
{
    if raw > MAX_FIELD_OFFSET {
        raw - MAX_FIELD_OFFSET - 1
    } else {
        raw
    }
}

/// Whether an end is that of a NULL.
#[verifier::allow_in_spec]
pub fn end_is_null(raw: usize) -> bool
    returns
        raw > MAX_FIELD_OFFSET,
{
    raw > MAX_FIELD_OFFSET
}

/// An end from its parts.
pub fn encode_end(offset: usize, is_null: bool) -> (raw: usize)
    requires
        offset <= MAX_FIELD_OFFSET,
    ensures
        end_offset(raw) == offset,
        end_is_null(raw) == is_null,
{
    if is_null {
        offset + MAX_FIELD_OFFSET + 1
    } else {
        offset
    }
}

/// An end is determined by its offset and its mark.
pub proof fn law_an_end_is_its_parts(a: usize, b: usize)
    requires
        end_offset(a) == end_offset(b),
        end_is_null(a) == end_is_null(b),
    ensures
        a == b,
{
}

/// Whether each field of a record is NULL, one after the other.
#[derive(Clone, Debug)]
pub struct EndpointNullFlags<'record> {
    ends: &'record [usize],
    at: usize,
}

impl<'record> EndpointNullFlags<'record> {
    /// The ends of the fields.
    pub closed spec fn ends(&self) -> Seq<usize> {
        self.ends@
    }

    /// How many flags were taken.
    pub closed spec fn taken(&self) -> int {
        self.at as int
    }

    /// Whether no more flags were taken than there are fields.
    pub open spec fn wf(&self) -> bool {
        self.taken() <= self.ends().len()
    }

    /// The flags of the fields with these ends.
    pub fn new(ends: &'record [usize]) -> (flags: EndpointNullFlags<'record>)
        ensures
            flags.wf(),
            flags.ends() == ends@,
            flags.taken() == 0,
    {
        EndpointNullFlags { ends, at: 0 }
    }

    /// The next flag.
    pub fn next(&mut self) -> (flag: Option<bool>)
        requires
            old(self).wf(),
        ensures
            final(self).wf(),
            final(self).ends() == old(self).ends(),
            if old(self).taken() < old(self).ends().len() {
                &&& flag == Some(end_is_null(old(self).ends()[old(self).taken()]))
                &&& final(self).taken() == old(self).taken() + 1
            } else {
                flag is None && final(self).taken() == old(self).taken()
            },
    {
        if self.at < self.ends.len() {
            let flag = end_is_null(self.ends[self.at]);
            self.at = self.at + 1;
            Some(flag)
        } else {
            None
        }
    }

    /// How many flags are left.
    pub fn len(&self) -> (len: usize)
        requires
            self.wf(),
        ensures
            len == self.ends().len() - self.taken(),
    {
        self.ends.len() - self.at
    }

    /// How many flags are left, as both bounds.
    pub fn size_hint(&self) -> (hint: (usize, Option<usize>))
        requires
            self.wf(),
        ensures
            hint.0 == self.ends().len() - self.taken(),
            hint.1 == Some(hint.0),
    {
        let left: usize = self.len();
        (left, Some(left))
    }

    /// How many flags are left.
    pub fn count(self) -> (count: usize)
        requires
            self.wf(),
        ensures
            count == self.ends().len() - self.taken(),
    {
        self.len()
    }
}

} // verus!
