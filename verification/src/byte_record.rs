//! Records of bytes.

use vstd::prelude::*;

use crate::field_ends::{
    encode_end, end_is_null, end_offset, EndpointNullFlags, MAX_FIELD_OFFSET,
};
use crate::storage::{null_field, text, Field};

verus! {

/// How many elements a vector can hold before it allocates.
///
/// `Vec::capacity` answers that many; it never answers less than what the
/// vector holds.
#[verifier::external_body]
pub(crate) fn vec_capacity(bytes: &Vec<u8>) -> (capacity: usize)
    ensures
        capacity >= bytes@.len(),
{
    bytes.capacity()
}

/// Give allocated memory back, down to `floor`.
///
/// `Vec::shrink_to` changes what is allocated and not what the vector holds.
#[verifier::external_body]
pub(crate) fn shrink_vec<T>(items: &mut Vec<T>, floor: usize)
    ensures
        final(items)@ == old(items)@,
{
    items.shrink_to(floor);
}

spec fn offset_before(ends: Seq<usize>, index: int) -> int {
    if index <= 0 {
        0
    } else {
        end_offset(ends[index - 1]) as int
    }
}

/// A record of fields that are bytes or NULL.
#[derive(Debug)]
pub struct ByteRecord {
    bytes: Vec<u8>,
    ends: Vec<usize>,
    room: usize,
}

impl View for ByteRecord {
    type V = Seq<Field>;

    closed spec fn view(&self) -> Seq<Field> {
        Seq::new(
            self.ends@.len(),
            |i: int|
                if end_is_null(self.ends@[i]) {
                    null_field()
                } else {
                    text(
                        self.bytes@.subrange(
                            offset_before(self.ends@, i),
                            end_offset(self.ends@[i]) as int,
                        ),
                    )
                },
        )
    }
}

impl ByteRecord {
    /// Whether the ends stand in order, the last of them at the end of the bytes.
    pub closed spec fn wf(&self) -> bool {
        &&& forall|i: int|
            0 <= i < self.ends@.len() ==> 0 <= #[trigger] offset_before(self.ends@, i)
                <= end_offset(self.ends@[i]) <= self.bytes@.len()
        &&& offset_before(self.ends@, self.ends@.len() as int) == self.bytes@.len()
        &&& self.bytes@.len() <= MAX_FIELD_OFFSET
        &&& self.bytes@.len() <= self.room
    }

    /// How many bytes the fields take together.
    pub closed spec fn spec_bytes_len(&self) -> nat {
        self.bytes@.len()
    }

    /// How many bytes the record was given room for, or has held at once.
    ///
    /// Removing fields keeps the room, so that the record can be filled again.
    pub closed spec fn spec_room(&self) -> nat {
        self.room as nat
    }

    /// A NULL has no bytes.
    pub proof fn lemma_nulls_are_empty(&self, index: int)
        requires
            0 <= index < self@.len(),
        ensures
            self@[index] == (if self@[index].null {
                null_field()
            } else {
                text(self@[index].bytes)
            }),
    {
    }

    /// An empty record.
    pub fn new() -> (record: ByteRecord)
        ensures
            record.wf(),
            record@ == Seq::<Field>::empty(),
            record.spec_bytes_len() == 0,
            record.spec_room() == 0,
    {
        let record = ByteRecord { bytes: Vec::new(), ends: Vec::new(), room: 0 };
        assert(record@ =~= Seq::<Field>::empty());
        record
    }

    /// An empty record with room for some fields and bytes.
    pub fn with_capacity(fields: usize, bytes: usize) -> (record: ByteRecord)
        ensures
            record.wf(),
            record@ == Seq::<Field>::empty(),
            record.spec_bytes_len() == 0,
            record.spec_room() == bytes,
    {
        let record = ByteRecord {
            bytes: Vec::with_capacity(bytes),
            ends: Vec::with_capacity(fields),
            room: bytes,
        };
        assert(record@ =~= Seq::<Field>::empty());
        record
    }

    /// How many fields the record has.
    pub fn len(&self) -> (len: usize)
        ensures
            len == self@.len(),
    {
        self.ends.len()
    }

    /// Whether the record has no fields.
    pub fn is_empty(&self) -> (empty: bool)
        ensures
            empty == (self@.len() == 0),
    {
        self.ends.len() == 0
    }

    /// How many bytes the fields take together.
    pub fn bytes_len(&self) -> (len: usize)
        ensures
            len == self.spec_bytes_len(),
    {
        self.bytes.len()
    }

    /// How many bytes the fields can take before the record allocates.
    pub fn byte_capacity(&self) -> (capacity: usize)
        ensures
            capacity >= self.spec_bytes_len(),
            capacity >= self.spec_room(),
    {
        let capacity: usize = vec_capacity(&self.bytes);
        if capacity < self.room {
            self.room
        } else {
            capacity
        }
    }

    fn finish_field(&mut self, null: bool)
        requires
            old(self).bytes@.len() <= MAX_FIELD_OFFSET,
            old(self).bytes@.len() <= old(self).room,
            forall|i: int|
                0 <= i < old(self).ends@.len() ==> 0 <= #[trigger] offset_before(
                    old(self).ends@,
                    i,
                ) <= end_offset(old(self).ends@[i]) <= old(self).bytes@.len(),
            offset_before(old(self).ends@, old(self).ends@.len() as int) <= old(self).bytes@.len(),
            null ==> offset_before(old(self).ends@, old(self).ends@.len() as int) == old(
                self,
            ).bytes@.len(),
        ensures
            final(self).wf(),
            final(self).bytes@ == old(self).bytes@,
            final(self).room == old(self).room,
            final(self)@ == old(self)@.push(
                if null {
                    null_field()
                } else {
                    text(
                        old(self).bytes@.subrange(
                            offset_before(old(self).ends@, old(self).ends@.len() as int),
                            old(self).bytes@.len() as int,
                        ),
                    )
                },
            ),
    {
        let ghost before = *self;
        let end: usize = encode_end(self.bytes.len(), null);
        self.ends.push(end);
        proof {
            let n = before.ends@.len() as int;
            assert forall|i: int| 0 <= i < self.ends@.len() implies 0 <= #[trigger] offset_before(
                self.ends@,
                i,
            ) <= end_offset(self.ends@[i]) <= self.bytes@.len() by {
                assert(offset_before(self.ends@, i) == offset_before(before.ends@, i));
            }
            assert forall|i: int| 0 <= i < n implies #[trigger] self@[i] == before@[i] by {
                assert(offset_before(self.ends@, i) == offset_before(before.ends@, i));
            }
            assert(self@ =~= before@.push(self@[n]));
        }
    }

    /// Add a field.
    pub fn push_field(&mut self, field: &[u8])
        requires
            old(self).wf(),
            old(self).spec_bytes_len() + field@.len() <= MAX_FIELD_OFFSET,
        ensures
            final(self).wf(),
            final(self)@ == old(self)@.push(text(field@)),
            final(self).spec_bytes_len() == old(self).spec_bytes_len() + field@.len(),
            final(self).spec_room() == (if old(self).spec_room() < final(self).spec_bytes_len() {
                final(self).spec_bytes_len()
            } else {
                old(self).spec_room()
            }),
    {
        let ghost before = *self;
        self.bytes.extend_from_slice(field);
        if self.room < self.bytes.len() {
            self.room = self.bytes.len();
        }
        proof {
            let n = before.ends@.len() as int;
            assert(self.bytes@.subrange(
                offset_before(before.ends@, n),
                self.bytes@.len() as int,
            ) =~= field@);
            assert forall|i: int| 0 <= i < n implies #[trigger] self@[i] == before@[i] by {
                assert(0 <= offset_before(before.ends@, i) <= end_offset(before.ends@[i])
                    <= before.bytes@.len());
                assert(self.bytes@.subrange(
                    offset_before(before.ends@, i),
                    end_offset(before.ends@[i]) as int,
                ) =~= before.bytes@.subrange(
                    offset_before(before.ends@, i),
                    end_offset(before.ends@[i]) as int,
                ));
            }
            assert(self@ =~= before@);
        }
        self.finish_field(false);
    }

    /// Add a NULL.
    pub fn push_null(&mut self)
        requires
            old(self).wf(),
        ensures
            final(self).wf(),
            final(self)@ == old(self)@.push(null_field()),
            final(self).spec_bytes_len() == old(self).spec_bytes_len(),
            final(self).spec_room() == old(self).spec_room(),
    {
        self.finish_field(true);
    }

    /// Field `index`; a NULL has no bytes.
    pub fn get(&self, index: usize) -> (field: Option<&[u8]>)
        requires
            self.wf(),
        ensures
            field is Some == (index < self@.len()),
            field matches Some(bytes) ==> bytes@ == self@[index as int].bytes,
    {
        if index >= self.ends.len() {
            return None;
        }
        let start: usize = if index == 0 {
            0
        } else {
            end_offset(self.ends[index - 1])
        };
        assert(offset_before(self.ends@, index as int) == start);
        if end_is_null(self.ends[index]) {
            let none: &[u8] = &self.bytes[0..0];
            assert(none@ =~= Seq::<u8>::empty());
            return Some(none);
        }
        Some(&self.bytes[start..end_offset(self.ends[index])])
    }

    /// Whether field `index` is NULL.
    pub fn is_null(&self, index: usize) -> (null: bool)
        ensures
            null == (index < self@.len() && self@[index as int].null),
    {
        index < self.ends.len() && end_is_null(self.ends[index])
    }

    /// Whether each field is NULL.
    pub fn null_flags(&self) -> (flags: EndpointNullFlags<'_>)
        ensures
            flags.wf(),
            flags.taken() == 0,
            flags.ends().len() == self@.len(),
            forall|i: int|
                0 <= i < self@.len() ==> end_is_null(#[trigger] flags.ends()[i]) == self@[i].null,
    {
        EndpointNullFlags::new(self.ends.as_slice())
    }

    /// Remove all fields.
    pub fn clear(&mut self)
        ensures
            final(self).wf(),
            final(self)@ == Seq::<Field>::empty(),
            final(self).spec_bytes_len() == 0,
            final(self).spec_room() == old(self).spec_room(),
    {
        self.bytes.clear();
        self.ends.clear();
        assert(self@ =~= Seq::<Field>::empty());
    }
}

impl Clone for ByteRecord {
    fn clone(&self) -> (record: ByteRecord)
        ensures
            record@ == self@,
            record.spec_bytes_len() == self.spec_bytes_len(),
            record.spec_room() == self.spec_bytes_len(),
            self.wf() ==> record.wf(),
    {
        let mut bytes: Vec<u8> = Vec::with_capacity(self.bytes.len());
        bytes.extend_from_slice(self.bytes.as_slice());
        let mut ends: Vec<usize> = Vec::with_capacity(self.ends.len());
        ends.extend_from_slice(self.ends.as_slice());
        assert(bytes@ =~= self.bytes@);
        assert(ends@ =~= self.ends@);
        let record = ByteRecord { bytes, ends, room: self.bytes.len() };
        assert(record@ =~= self@);
        record
    }
}

impl Default for ByteRecord {
    fn default() -> (record: ByteRecord)
        ensures
            record.wf(),
            record@ == Seq::<Field>::empty(),
    {
        ByteRecord::new()
    }
}

} // verus!
