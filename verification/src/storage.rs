//! Storage for the fields of one record.

use vstd::prelude::*;

use crate::ascii::{BACKSLASH, UPPER_N};
use crate::config::Nulls;

verus! {

/// A field as a value: its bytes, and whether it is NULL.
#[verifier::ext_equal]
pub struct Field {
    /// The decoded content.
    pub bytes: Seq<u8>,
    /// Whether the field is NULL.
    pub null: bool,
}

/// A field that is not NULL.
pub open spec fn text(bytes: Seq<u8>) -> Field {
    Field { bytes, null: false }
}

/// The NULL field.
pub open spec fn null_field() -> Field {
    Field { bytes: Seq::empty(), null: true }
}

/// Whether an unquoted field with these bytes is NULL under a policy.
pub open spec fn raw_null(nulls: Nulls, bytes: Seq<u8>) -> bool {
    match nulls {
        Nulls::Disabled => false,
        Nulls::PostgresCsv => bytes.len() == 0,
        Nulls::Mysql => bytes == seq![BACKSLASH, UPPER_N],
    }
}

/// An unquoted field with these bytes under a NULL policy.
pub open spec fn unquoted(nulls: Nulls, bytes: Seq<u8>) -> Field {
    if raw_null(nulls, bytes) {
        null_field()
    } else {
        text(bytes)
    }
}

/// A field after a NULL policy was applied to it.
pub open spec fn with_nulls(nulls: Nulls, field: Field) -> Field {
    if raw_null(nulls, field.bytes) {
        null_field()
    } else {
        field
    }
}

/// Fields after a NULL policy was applied to each.
pub open spec fn all_with_nulls(nulls: Nulls, fields: Seq<Field>) -> Seq<Field> {
    Seq::new(fields.len(), |i: int| with_nulls(nulls, fields[i]))
}

/// Whether the unquoted field `bytes[from..to]` is NULL under a policy.
pub fn raw_field_is_null(nulls: Nulls, bytes: &[u8], from: usize, to: usize) -> (null: bool)
    requires
        from <= to <= bytes.len(),
    ensures
        null == raw_null(nulls, bytes@.subrange(from as int, to as int)),
{
    match nulls {
        Nulls::Disabled => false,
        Nulls::PostgresCsv => from == to,
        Nulls::Mysql => {
            let null = to - from == 2 && bytes[from] == BACKSLASH && bytes[from + 1] == UPPER_N;
            proof {
                let field = bytes@.subrange(from as int, to as int);
                if null {
                    assert(field =~= seq![BACKSLASH, UPPER_N]);
                } else if field == seq![BACKSLASH, UPPER_N] {
                    assert(field[0] == BACKSLASH && field[1] == UPPER_N);
                }
            }
            null
        },
    }
}

/// `count` empty fields.
pub open spec fn empties(count: nat) -> Seq<Field> {
    Seq::new(count, |i: int| text(Seq::empty()))
}

/// Where a field ends in the shared bytes, and whether it is NULL.
#[derive(Clone, Copy, Debug, PartialEq, Eq, Structural)]
pub struct FieldEnd {
    /// Offset one past the last byte of the field.
    pub offset: usize,
    /// Whether the field is NULL.
    pub null: bool,
}

spec fn start_in(ends: Seq<FieldEnd>, index: int) -> int {
    if index <= 0 {
        0
    } else {
        ends[index - 1].offset as int
    }
}

/// The fields of one record, and the beginning of the next field.
#[derive(Debug)]
pub struct RecordStorage {
    bytes: Vec<u8>,
    ends: Vec<FieldEnd>,
    null_aware: bool,
    reserved: usize,
}

impl RecordStorage {
    /// Whether the ends stand in order inside the bytes.
    pub closed spec fn wf(self) -> bool {
        &&& forall|i: int|
            0 <= i < self.ends@.len() ==> #[trigger] start_in(self.ends@, i) <= self.ends@[i].offset
                <= self.bytes@.len()
        &&& forall|i: int, j: int|
            0 <= i <= j < self.ends@.len() ==> self.ends@[i].offset <= self.ends@[j].offset
    }

    /// The finished fields.
    pub closed spec fn fields(self) -> Seq<Field> {
        Seq::new(
            self.ends@.len(),
            |i: int|
                if self.ends@[i].null {
                    null_field()
                } else {
                    text(self.bytes@.subrange(start_in(self.ends@, i), self.ends@[i].offset as int))
                },
        )
    }

    /// The bytes of the field that is not finished yet.
    pub closed spec fn open_bytes(self) -> Seq<u8> {
        self.bytes@.subrange(start_in(self.ends@, self.ends@.len() as int), self.bytes@.len() as int)
    }

    /// Whether a NULL policy was ever applied.
    pub closed spec fn spec_null_aware(self) -> bool {
        self.null_aware
    }

    /// How many bytes are stored.
    pub closed spec fn spec_bytes_len(self) -> nat {
        self.bytes@.len()
    }

    /// How many fields there was room for from the start.
    pub closed spec fn spec_reserved(self) -> usize {
        self.reserved
    }

    /// No fields.
    pub fn new() -> (storage: RecordStorage)
        ensures
            storage.wf(),
            storage.fields() == Seq::<Field>::empty(),
            storage.open_bytes() == Seq::<u8>::empty(),
            storage.spec_bytes_len() == 0,
            !storage.spec_null_aware(),
            storage.spec_reserved() == 0,
    {
        let storage = RecordStorage { bytes: Vec::new(), ends: Vec::new(), null_aware: false, reserved: 0 };
        assert(storage.fields() =~= Seq::<Field>::empty());
        assert(storage.open_bytes() =~= Seq::<u8>::empty());
        storage
    }

    /// No fields, with room for some.
    pub fn with_capacity(fields: usize, bytes: usize) -> (storage: RecordStorage)
        ensures
            storage.wf(),
            storage.fields() == Seq::<Field>::empty(),
            storage.open_bytes() == Seq::<u8>::empty(),
            storage.spec_bytes_len() == 0,
            !storage.spec_null_aware(),
            storage.spec_reserved() == fields,
    {
        let storage = RecordStorage {
            bytes: Vec::with_capacity(bytes),
            ends: Vec::with_capacity(fields),
            null_aware: false,
            reserved: fields,
        };
        assert(storage.fields() =~= Seq::<Field>::empty());
        assert(storage.open_bytes() =~= Seq::<u8>::empty());
        storage
    }

    /// How many fields are finished.
    pub fn len(&self) -> (len: usize)
        ensures
            len == self.fields().len(),
    {
        self.ends.len()
    }

    /// Whether no field is finished.
    pub fn is_empty(&self) -> (empty: bool)
        ensures
            empty == (self.fields().len() == 0),
    {
        self.ends.len() == 0
    }

    /// How many bytes are stored.
    pub fn bytes_len(&self) -> (len: usize)
        ensures
            len == self.spec_bytes_len(),
    {
        self.bytes.len()
    }

    /// How many fields there was room for from the start, or are stored.
    pub fn field_capacity(&self) -> (capacity: usize)
        ensures
            capacity == (if self.spec_reserved() < self.fields().len() {
                self.fields().len()
            } else {
                self.spec_reserved() as nat
            }),
    {
        if self.reserved < self.ends.len() {
            self.ends.len()
        } else {
            self.reserved
        }
    }

    /// Whether a NULL policy was ever applied.
    pub fn null_aware(&self) -> (aware: bool)
        ensures
            aware == self.spec_null_aware(),
    {
        self.null_aware
    }

    /// The bytes of field `index`.
    pub fn get(&self, index: usize) -> (field: Option<&[u8]>)
        requires
            self.wf(),
        ensures
            field is Some == (index < self.fields().len()),
            field matches Some(bytes) ==> bytes@ == self.fields()[index as int].bytes,
    {
        if index >= self.ends.len() {
            return None;
        }
        assert(start_in(self.ends@, index as int) <= self.ends@[index as int].offset);
        let start: usize = if index == 0 { 0 } else { self.ends[index - 1].offset };
        let end: usize = self.ends[index].offset;
        let all = self.bytes.as_slice();
        if self.ends[index].null {
            Some(&all[start..start])
        } else {
            Some(&all[start..end])
        }
    }

    /// Whether field `index` is NULL.
    pub fn is_null(&self, index: usize) -> (null: Option<bool>)
        ensures
            null == (if index < self.fields().len() {
                Some(self.fields()[index as int].null)
            } else {
                None
            }),
    {
        if index < self.ends.len() {
            Some(self.ends[index].null)
        } else {
            None
        }
    }

    /// Copies of all fields.
    pub fn to_vecs(&self) -> (fields: Vec<Vec<u8>>)
        requires
            self.wf(),
        ensures
            fields@.len() == self.fields().len(),
            forall|i: int|
                0 <= i < fields@.len() ==> (#[trigger] fields@[i])@ == self.fields()[i].bytes,
    {
        let mut fields: Vec<Vec<u8>> = Vec::new();
        let mut index: usize = 0;
        while index < self.ends.len()
            invariant
                self.wf(),
                index <= self.ends@.len(),
                self.ends@.len() == self.fields().len(),
                fields@.len() == index,
                forall|i: int|
                    0 <= i < index ==> (#[trigger] fields@[i])@ == self.fields()[i].bytes,
            decreases self.ends@.len() - index,
        {
            let mut copy: Vec<u8> = Vec::new();
            if let Some(bytes) = self.get(index) {
                copy.extend_from_slice(bytes);
                assert(copy@ =~= bytes@);
            }
            fields.push(copy);
            index += 1;
        }
        fields
    }

    proof fn lemma_grown(self, before: RecordStorage)
        requires
            before.wf(),
            self.ends@ == before.ends@,
            self.bytes@.len() >= before.bytes@.len(),
            self.bytes@.take(before.bytes@.len() as int) == before.bytes@,
        ensures
            self.wf(),
            self.fields() == before.fields(),
            self.open_bytes() == before.open_bytes() + self.bytes@.skip(
                before.bytes@.len() as int,
            ),
    {
        assert(before.bytes@.len() >= start_in(before.ends@, before.ends@.len() as int)) by {
            let n = before.ends@.len() as int;
            if n > 0 {
                assert(start_in(before.ends@, n - 1) <= before.ends@[n - 1].offset);
            }
        }
        assert forall|i: int| 0 <= i < self.ends@.len() implies #[trigger] start_in(self.ends@, i)
            <= self.ends@[i].offset <= self.bytes@.len() by {
            assert(start_in(before.ends@, i) <= before.ends@[i].offset);
        }
        assert forall|i: int| 0 <= i < self.ends@.len() implies self.fields()[i]
            =~= before.fields()[i] by {
            assert(start_in(before.ends@, i) <= before.ends@[i].offset);
            let longer = self.bytes@.subrange(start_in(self.ends@, i), self.ends@[i].offset as int);
            let shorter = before.bytes@.subrange(start_in(before.ends@, i), before.ends@[i].offset as int);
            assert forall|k: int| 0 <= k < shorter.len() implies longer[k] == shorter[k] by {
                let at = start_in(before.ends@, i) + k;
                assert(self.bytes@.take(before.bytes@.len() as int)[at] == before.bytes@[at]);
            }
            assert(longer =~= shorter);
        }
        assert(self.fields() =~= before.fields());
        let extra = self.bytes@.skip(before.bytes@.len() as int);
        let start = start_in(before.ends@, before.ends@.len() as int);
        assert(start_in(self.ends@, self.ends@.len() as int) == start);
        assert forall|k: int| 0 <= k < self.open_bytes().len() implies self.open_bytes()[k] == (
        before.open_bytes() + extra)[k] by {
            let at = start + k;
            if at < before.bytes@.len() {
                assert(self.bytes@.take(before.bytes@.len() as int)[at] == before.bytes@[at]);
            }
        }
        assert(self.open_bytes() =~= before.open_bytes() + extra);
    }

    /// Add a byte to the open field.
    pub fn push_byte(&mut self, byte: u8)
        requires
            old(self).wf(),
        ensures
            final(self).wf(),
            final(self).fields() == old(self).fields(),
            final(self).open_bytes() == old(self).open_bytes().push(byte),
            final(self).spec_null_aware() == old(self).spec_null_aware(),
            final(self).spec_reserved() == old(self).spec_reserved(),
    {
        let ghost before = *self;
        self.bytes.push(byte);
        proof {
            assert(self.bytes@.take(before.bytes@.len() as int) =~= before.bytes@);
            self.lemma_grown(before);
            assert(self.bytes@.skip(before.bytes@.len() as int) =~= seq![byte]);
        }
    }

    /// Add `bytes[from..to]` to the open field.
    pub fn append_segment(&mut self, bytes: &[u8], from: usize, to: usize)
        requires
            old(self).wf(),
            from <= to <= bytes.len(),
        ensures
            final(self).wf(),
            final(self).fields() == old(self).fields(),
            final(self).open_bytes() == old(self).open_bytes() + bytes@.subrange(
                from as int,
                to as int,
            ),
            final(self).spec_null_aware() == old(self).spec_null_aware(),
            final(self).spec_reserved() == old(self).spec_reserved(),
    {
        let ghost before = *self;
        let segment = &bytes[from..to];
        self.bytes.extend_from_slice(segment);
        proof {
            assert(self.bytes@.take(before.bytes@.len() as int) =~= before.bytes@);
            self.lemma_grown(before);
            assert(self.bytes@.skip(before.bytes@.len() as int) =~= bytes@.subrange(
                from as int,
                to as int,
            ));
        }
    }

    fn close_field(&mut self, null: bool)
        requires
            old(self).wf(),
        ensures
            final(self).wf(),
            final(self).fields() == old(self).fields().push(
                if null {
                    null_field()
                } else {
                    text(old(self).open_bytes())
                },
            ),
            final(self).open_bytes() == Seq::<u8>::empty(),
            final(self).spec_null_aware() == old(self).spec_null_aware(),
            final(self).spec_reserved() == old(self).spec_reserved(),
    {
        let ghost before = *self;
        self.ends.push(FieldEnd { offset: self.bytes.len(), null });
        proof {
            let n = before.ends@.len() as int;
            if n > 0 {
                assert(start_in(before.ends@, n - 1) <= before.ends@[n - 1].offset);
            }
            assert forall|i: int| 0 <= i < self.ends@.len() implies #[trigger] start_in(self.ends@, i)
                <= self.ends@[i].offset <= self.bytes@.len() by {
                if i < n {
                    assert(start_in(before.ends@, i) <= before.ends@[i].offset);
                }
            }
            assert forall|i: int, j: int| 0 <= i <= j < self.ends@.len() implies self.ends@[i].offset
                <= self.ends@[j].offset by {
                if j == n && i < n {
                    assert(start_in(before.ends@, i) <= before.ends@[i].offset);
                }
            }
            assert forall|i: int| 0 <= i < n implies self.fields()[i] =~= before.fields()[i] by {
                assert(start_in(self.ends@, i) == start_in(before.ends@, i));
            }
            assert(start_in(self.ends@, n) == start_in(before.ends@, n));
            assert(self.fields() =~= before.fields().push(
                if null {
                    null_field()
                } else {
                    text(before.open_bytes())
                },
            ));
            assert(self.open_bytes() =~= Seq::<u8>::empty());
        }
    }

    /// End the open field.
    pub fn finish_field(&mut self)
        requires
            old(self).wf(),
        ensures
            final(self).wf(),
            final(self).fields() == old(self).fields().push(text(old(self).open_bytes())),
            final(self).open_bytes() == Seq::<u8>::empty(),
            final(self).spec_null_aware() == old(self).spec_null_aware(),
            final(self).spec_reserved() == old(self).spec_reserved(),
    {
        self.close_field(false);
    }

    /// Add the field `bytes[from..to]`.
    pub fn append_field_range(&mut self, bytes: &[u8], from: usize, to: usize)
        requires
            old(self).wf(),
            from <= to <= bytes.len(),
            old(self).open_bytes() == Seq::<u8>::empty(),
        ensures
            final(self).wf(),
            final(self).fields() == old(self).fields().push(
                text(bytes@.subrange(from as int, to as int)),
            ),
            final(self).open_bytes() == Seq::<u8>::empty(),
            final(self).spec_null_aware() == old(self).spec_null_aware(),
            final(self).spec_reserved() == old(self).spec_reserved(),
    {
        self.append_segment(bytes, from, to);
        proof {
            assert(self.open_bytes() =~= bytes@.subrange(from as int, to as int));
        }
        self.close_field(false);
    }

    /// Add a field.
    pub fn append_field(&mut self, bytes: &[u8])
        requires
            old(self).wf(),
            old(self).open_bytes() == Seq::<u8>::empty(),
        ensures
            final(self).wf(),
            final(self).fields() == old(self).fields().push(text(bytes@)),
            final(self).open_bytes() == Seq::<u8>::empty(),
            final(self).spec_null_aware() == old(self).spec_null_aware(),
            final(self).spec_reserved() == old(self).spec_reserved(),
    {
        self.append_field_range(bytes, 0, bytes.len());
        proof {
            assert(bytes@.subrange(0, bytes@.len() as int) =~= bytes@);
        }
    }

    /// Add a NULL.
    pub fn append_null_field(&mut self)
        requires
            old(self).wf(),
            old(self).open_bytes() == Seq::<u8>::empty(),
        ensures
            final(self).wf(),
            final(self).fields() == old(self).fields().push(null_field()),
            final(self).open_bytes() == Seq::<u8>::empty(),
            final(self).spec_null_aware(),
            final(self).spec_reserved() == old(self).spec_reserved(),
    {
        self.close_field(true);
        self.null_aware = true;
    }

    /// Add `count` empty fields.
    pub fn append_empty_fields(&mut self, count: usize)
        requires
            old(self).wf(),
            old(self).open_bytes() == Seq::<u8>::empty(),
        ensures
            final(self).wf(),
            final(self).fields() == old(self).fields() + empties(count as nat),
            final(self).open_bytes() == Seq::<u8>::empty(),
            final(self).spec_null_aware() == old(self).spec_null_aware(),
            final(self).spec_reserved() == old(self).spec_reserved(),
    {
        let mut added: usize = 0;
        while added < count
            invariant
                added <= count,
                self.wf(),
                self.open_bytes() == Seq::<u8>::empty(),
                self.fields() =~= old(self).fields() + empties(added as nat),
                self.spec_null_aware() == old(self).spec_null_aware(),
                self.spec_reserved() == old(self).spec_reserved(),
            decreases count - added,
        {
            self.close_field(false);
            added += 1;
        }
    }

    /// Forget everything.
    pub fn clear(&mut self)
        ensures
            final(self).wf(),
            final(self).fields() == Seq::<Field>::empty(),
            final(self).open_bytes() == Seq::<u8>::empty(),
            final(self).spec_bytes_len() == 0,
            !final(self).spec_null_aware(),
            final(self).spec_reserved() == old(self).spec_reserved(),
    {
        self.bytes.clear();
        self.ends.clear();
        self.null_aware = false;
        proof {
            assert(self.fields() =~= Seq::<Field>::empty());
            assert(self.open_bytes() =~= Seq::<u8>::empty());
        }
    }

    /// Forget all fields and the open one.
    pub fn clear_fields(&mut self)
        ensures
            final(self).wf(),
            final(self).fields() == Seq::<Field>::empty(),
            final(self).open_bytes() == Seq::<u8>::empty(),
            final(self).spec_bytes_len() == 0,
            final(self).spec_null_aware() == old(self).spec_null_aware(),
            final(self).spec_reserved() == old(self).spec_reserved(),
    {
        self.bytes.clear();
        self.ends.clear();
        proof {
            assert(self.fields() =~= Seq::<Field>::empty());
            assert(self.open_bytes() =~= Seq::<u8>::empty());
        }
    }

    /// Keep the first `fields` fields and forget the open one.
    pub fn truncate_fields(&mut self, fields: usize)
        requires
            old(self).wf(),
            fields <= old(self).fields().len(),
        ensures
            final(self).wf(),
            final(self).fields() == old(self).fields().take(fields as int),
            final(self).open_bytes() == Seq::<u8>::empty(),
            final(self).spec_null_aware() == old(self).spec_null_aware(),
            final(self).spec_reserved() == old(self).spec_reserved(),
    {
        let ghost before = *self;
        self.ends.truncate(fields);
        let len: usize = if fields == 0 { 0 } else { self.ends[fields - 1].offset };
        proof {
            if fields > 0 {
                assert(start_in(before.ends@, fields - 1) <= before.ends@[fields - 1].offset);
            }
        }
        self.bytes.truncate(len);
        proof {
            assert(self.ends@ =~= before.ends@.take(fields as int));
            assert(self.bytes@ =~= before.bytes@.take(len as int));
            assert forall|i: int| 0 <= i < self.ends@.len() implies #[trigger] start_in(self.ends@, i)
                <= self.ends@[i].offset <= self.bytes@.len() by {
                assert(start_in(before.ends@, i) <= before.ends@[i].offset);
                assert(before.ends@[i].offset <= before.ends@[fields - 1].offset);
            }
            assert forall|i: int| 0 <= i < self.ends@.len() implies self.fields()[i]
                =~= before.fields()[i] by {
                assert(start_in(self.ends@, i) == start_in(before.ends@, i));
                assert(start_in(before.ends@, i) <= before.ends@[i].offset);
                assert(before.ends@[i].offset <= before.ends@[fields - 1].offset);
                assert(self.bytes@.subrange(start_in(self.ends@, i), self.ends@[i].offset as int)
                    =~= before.bytes@.subrange(start_in(before.ends@, i), before.ends@[i].offset as int));
            }
            assert(self.fields() =~= before.fields().take(fields as int));
            assert(self.open_bytes() =~= Seq::<u8>::empty());
        }
    }

    fn set_null(&mut self, index: usize)
        requires
            old(self).wf(),
            index < old(self).fields().len(),
        ensures
            final(self).wf(),
            final(self).fields() == old(self).fields().update(index as int, null_field()),
            final(self).open_bytes() == old(self).open_bytes(),
            final(self).spec_null_aware() == old(self).spec_null_aware(),
            final(self).spec_reserved() == old(self).spec_reserved(),
    {
        let ghost before = *self;
        let offset: usize = self.ends[index].offset;
        self.ends.set(index, FieldEnd { offset, null: true });
        proof {
            assert forall|i: int| 0 <= i <= self.ends@.len() implies #[trigger] start_in(self.ends@, i)
                == start_in(before.ends@, i) by {}
            assert forall|i: int| 0 <= i < self.ends@.len() implies #[trigger] start_in(self.ends@, i)
                <= self.ends@[i].offset <= self.bytes@.len() by {
                assert(start_in(before.ends@, i) <= before.ends@[i].offset);
            }
            assert(self.fields() =~= before.fields().update(index as int, null_field()));
            assert(self.open_bytes() =~= before.open_bytes());
        }
    }

    /// Apply a NULL policy to every field.
    pub fn mark_null_fields(&mut self, nulls: Nulls)
        requires
            old(self).wf(),
        ensures
            final(self).wf(),
            final(self).fields() == all_with_nulls(nulls, old(self).fields()),
            final(self).open_bytes() == old(self).open_bytes(),
            final(self).spec_null_aware(),
            final(self).spec_reserved() == old(self).spec_reserved(),
    {
        let mut index: usize = 0;
        let count: usize = self.ends.len();
        proof {
            assert(self.fields() =~= all_with_nulls(nulls, old(self).fields().take(0)) + old(
                self,
            ).fields().skip(0));
        }
        while index < count
            invariant
                self.wf(),
                index <= count == old(self).fields().len() == self.fields().len(),
                self.fields() =~= all_with_nulls(nulls, old(self).fields().take(index as int)) + old(
                    self,
                ).fields().skip(index as int),
                self.open_bytes() == old(self).open_bytes(),
                self.spec_reserved() == old(self).spec_reserved(),
            decreases count - index,
        {
            let mut null = false;
            if let Some(bytes) = self.get(index) {
                null = raw_field_is_null(nulls, bytes, 0, bytes.len());
                proof {
                    assert(bytes@.subrange(0, bytes@.len() as int) =~= bytes@);
                    assert(null == raw_null(nulls, old(self).fields()[index as int].bytes));
                }
            }
            if null {
                self.set_null(index);
            }
            index += 1;
        }
        self.null_aware = true;
        proof {
            assert(old(self).fields().take(count as int) =~= old(self).fields());
            assert(old(self).fields().skip(count as int) =~= Seq::<Field>::empty());
        }
    }
}

} // verus!
