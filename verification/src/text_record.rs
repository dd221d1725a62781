//! Records of text.

use vstd::prelude::*;
use vstd::string::StringSliceAdditionalSpecFns;

use crate::byte_record::ByteRecord;
use crate::field_ends::MAX_FIELD_OFFSET;
use crate::storage::{null_field, text, Field};

verus! {

/// A record of fields that are text or NULL.
#[derive(Clone, Debug)]
pub struct TextRecord {
    record: ByteRecord,
}

impl View for TextRecord {
    type V = Seq<Field>;

    closed spec fn view(&self) -> Seq<Field> {
        self.record@
    }
}

impl TextRecord {
    /// Whether the record is well formed.
    pub closed spec fn wf(&self) -> bool {
        self.record.wf()
    }

    /// How many bytes the fields take together.
    pub closed spec fn spec_bytes_len(&self) -> nat {
        self.record.spec_bytes_len()
    }

    /// An empty record.
    pub fn new() -> (record: TextRecord)
        ensures
            record.wf(),
            record@ == Seq::<Field>::empty(),
            record.spec_bytes_len() == 0,
    {
        TextRecord { record: ByteRecord::new() }
    }

    /// How many fields the record has.
    pub fn len(&self) -> (len: usize)
        ensures
            len == self@.len(),
    {
        self.record.len()
    }

    /// Add a field.
    pub fn push_field(&mut self, field: &str)
        requires
            old(self).wf(),
            old(self).spec_bytes_len() + field.spec_bytes().len() <= MAX_FIELD_OFFSET,
        ensures
            final(self).wf(),
            final(self)@ == old(self)@.push(text(field.spec_bytes())),
            final(self).spec_bytes_len() == old(self).spec_bytes_len() + field.spec_bytes().len(),
    {
        self.record.push_field(field.as_bytes());
    }

    /// Add a NULL.
    pub fn push_null(&mut self)
        requires
            old(self).wf(),
        ensures
            final(self).wf(),
            final(self)@ == old(self)@.push(null_field()),
            final(self).spec_bytes_len() == old(self).spec_bytes_len(),
    {
        self.record.push_null();
    }

    /// The record as bytes.
    pub fn as_byte_record(&self) -> (record: &ByteRecord)
        ensures
            record@ == self@,
            self.wf() ==> record.wf(),
    {
        &self.record
    }
}

} // verus!
