//! An emitter that collects records in memory.

use vstd::prelude::*;

use crate::byte_record::ByteRecord;
use crate::config::{Dialect, FieldCount, Nulls, Quoting, WriteBom};
use crate::emit::encoding::{cell, row, Writing, UNWRITABLE_FIELD};
use crate::engine::{bom, BOM_FIRST, BOM_SECOND, BOM_THIRD};
use crate::error::{Error, ErrorKind, Location};
use crate::field_ends::MAX_FIELD_OFFSET;
use crate::options::{EmitOptions, FormatOptions};
use crate::storage::{null_field, text, Field};
use crate::text_record::TextRecord;

verus! {

/// From how many bytes on the storage of a finished record is given back.
pub const MAX_SCRATCH_BYTES: usize = 16_384;

/// An emitter that collects records in memory.
#[derive(Debug)]
pub struct PushEmitter {
    buffer: Vec<u8>,
    writing: Writing,
    bom_pending: bool,
    field_count: FieldCount,
    expected_fields: Option<usize>,
    header_pending: bool,
    builder: ByteRecord,
}

/// The part of an emitter that decides what the next record becomes.
pub struct Emitting {
    /// How fields are written.
    pub writing: Writing,
    /// Whether a byte-order mark goes before the next record.
    pub bom_pending: bool,
    /// How many fields a record must have.
    pub field_count: FieldCount,
    /// How many fields the first record had.
    pub expected_fields: Option<usize>,
    /// Whether a header goes before the next serialized record.
    pub header_pending: bool,
}

impl Emitting {
    /// How many fields the next record must have, if that is fixed.
    pub open spec fn wanted(self) -> Option<usize> {
        match self.field_count {
            FieldCount::Exact(count) => Some(count),
            FieldCount::MatchFirst => self.expected_fields,
            FieldCount::Flexible => None,
        }
    }

    /// Why a record cannot be emitted, if it cannot.
    pub open spec fn refusal(self, fields: Seq<Field>) -> Option<ErrorKind> {
        match self.wanted() {
            Some(expected) => if expected != fields.len() {
                Some(ErrorKind::FieldCountMismatch { expected, actual: fields.len() as usize })
            } else if self.writing.record(fields) is None {
                Some(ErrorKind::Encode)
            } else {
                None
            },
            None => if self.writing.record(fields) is None {
                Some(ErrorKind::Encode)
            } else {
                None
            },
        }
    }

    /// What a record becomes.
    pub open spec fn emitted(self, fields: Seq<Field>) -> Seq<u8> {
        (if self.bom_pending {
            bom()
        } else {
            Seq::empty()
        }) + self.writing.record(fields)->0
    }

    /// What decides after a record was emitted.
    pub open spec fn after(self, fields: Seq<Field>) -> Emitting {
        Emitting {
            bom_pending: false,
            expected_fields: if self.field_count == FieldCount::MatchFirst
                && self.expected_fields is None {
                Some(fields.len() as usize)
            } else {
                self.expected_fields
            },
            ..self
        }
    }

    /// What decides at the start of a document.
    pub open spec fn starting(format: FormatOptions, options: EmitOptions) -> Emitting {
        Emitting {
            writing: Writing::of(format),
            bom_pending: format.write_bom == WriteBom::Emit,
            field_count: options.field_count,
            expected_fields: None,
            header_pending: options.has_headers,
        }
    }

    /// Whether a refusal is reported as such.
    pub open spec fn refused(self, fields: Seq<Field>, error: Error) -> bool {
        self.refusal(fields) == Some(error.spec_kind())
    }
}

impl Emitting {
    /// What decides after the first `count` records were emitted.
    pub open spec fn after_all(self, rows: Seq<Seq<Field>>, count: int) -> Emitting
        decreases count,
    {
        if count <= 0 {
            self
        } else {
            self.after_all(rows, count - 1).after(rows[count - 1])
        }
    }

    /// Whether the first `count` records can be emitted one after the other.
    pub open spec fn accepts(self, rows: Seq<Seq<Field>>, count: int) -> bool {
        forall|i: int|
            0 <= i < count ==> (#[trigger] self.after_all(rows, i)).refusal(rows[i]) is None
    }

    /// What the first `count` records become.
    pub open spec fn all_emitted(self, rows: Seq<Seq<Field>>, count: int) -> Seq<u8>
        decreases count,
    {
        if count <= 0 {
            Seq::empty()
        } else {
            self.all_emitted(rows, count - 1) + self.after_all(rows, count - 1).emitted(
                rows[count - 1],
            )
        }
    }
}

/// Records as values.
pub open spec fn rows(records: Seq<ByteRecord>) -> Seq<Seq<Field>> {
    Seq::new(records.len(), |i: int| records[i]@)
}

/// The records of a document: the names, if a header is wanted, and the values.
pub open spec fn all_rows(names: Seq<Field>, values: Seq<ByteRecord>, headed: bool) -> Seq<
    Seq<Field>,
> {
    if headed {
        seq![names] + rows(values)
    } else {
        rows(values)
    }
}

/// Record `index` of a document.
pub fn row_at<'a>(
    names: &'a ByteRecord,
    values: &'a [ByteRecord],
    headed: bool,
    index: usize,
) -> (row: &'a ByteRecord)
    requires
        index < all_rows(names@, values@, headed).len(),
    ensures
        row@ == all_rows(names@, values@, headed)[index as int],
        names.wf() && (forall|i: int| 0 <= i < values@.len() ==> (#[trigger] values@[i]).wf())
            ==> row.wf(),
{
    if headed {
        if index == 0 {
            names
        } else {
            &values[index - 1]
        }
    } else {
        &values[index]
    }
}

/// What is emitted is a byte-order mark, if one is wanted, and the records one
/// behind the other.
pub proof fn law_output_is_a_mark_and_the_records(
    emitting: Emitting,
    rows: Seq<Seq<Field>>,
    count: int,
)
    requires
        0 <= count,
    ensures
        emitting.all_emitted(rows, count) == (if emitting.bom_pending && count > 0 {
            bom()
        } else {
            Seq::empty()
        }) + emitting.writing.document(rows, count),
        emitting.after_all(rows, count).writing == emitting.writing,
        emitting.after_all(rows, count).bom_pending == (emitting.bom_pending && count == 0),
    decreases count,
{
    if count > 0 {
        law_output_is_a_mark_and_the_records(emitting, rows, count - 1);
    }
    assert(emitting.all_emitted(rows, count) =~= (if emitting.bom_pending && count > 0 {
        bom()
    } else {
        Seq::empty()
    }) + emitting.writing.document(rows, count));
}

impl PushEmitter {
    /// What was emitted and not taken away yet.
    pub closed spec fn output(&self) -> Seq<u8> {
        self.buffer@
    }

    /// What decides about the next record.
    pub closed spec fn emitting(&self) -> Emitting {
        Emitting {
            writing: self.writing,
            bom_pending: self.bom_pending,
            field_count: self.field_count,
            expected_fields: self.expected_fields,
            header_pending: self.header_pending,
        }
    }

    /// How many bytes the record that the next one is built in has room for.
    pub closed spec fn spec_scratch(&self) -> nat {
        self.builder.spec_room()
    }

    /// The record that is being built.
    pub closed spec fn spec_built(&self) -> Seq<Field> {
        self.builder@
    }

    /// How many bytes the record that is being built holds.
    pub closed spec fn spec_built_bytes(&self) -> nat {
        self.builder.spec_bytes_len()
    }

    /// Whether the emitter is usable.
    pub closed spec fn wf(&self) -> bool {
        self.writing.dialect.valid() && self.builder.wf()
    }

    /// An emitter of a format.
    pub fn with_options(format: FormatOptions, options: EmitOptions) -> (result: Result<
        PushEmitter,
        Error,
    >)
        ensures
            result is Ok == format.dialect.valid(),
            result matches Ok(emitter) ==> {
                &&& emitter.wf()
                &&& emitter.output() == Seq::<u8>::empty()
                &&& emitter.emitting() == Emitting::starting(format, options)
                &&& emitter.spec_scratch() == 0
            },
            result matches Err(error) ==> error.misconfigured(),
    {
        if let Err(error) = format.validate() {
            return Err(error);
        }
        Ok(
            PushEmitter::from_config(
                Vec::new(),
                format.dialect,
                format.quoting,
                format.write_bom,
                format.nulls,
                options.field_count,
                options.has_headers,
            ),
        )
    }

    /// An emitter that adds to a buffer.
    pub fn from_config(
        buffer: Vec<u8>,
        dialect: Dialect,
        quoting: Quoting,
        bom: WriteBom,
        nulls: Nulls,
        field_count: FieldCount,
        has_headers: bool,
    ) -> (emitter: PushEmitter)
        requires
            dialect.valid(),
        ensures
            emitter.wf(),
            emitter.output() == buffer@,
            emitter.emitting() == (Emitting {
                writing: Writing { dialect, quoting, nulls },
                bom_pending: bom == WriteBom::Emit,
                field_count,
                expected_fields: None,
                header_pending: has_headers,
            }),
            emitter.spec_scratch() == 0,
    {
        PushEmitter {
            buffer,
            writing: Writing { dialect, quoting, nulls },
            bom_pending: bom == WriteBom::Emit,
            field_count,
            expected_fields: None,
            header_pending: has_headers,
            builder: ByteRecord::new(),
        }
    }

    /// Ask for as many fields as an earlier record had.
    pub fn set_expected_fields(&mut self, expected_fields: Option<usize>)
        requires
            old(self).wf(),
        ensures
            final(self).wf(),
            final(self).output() == old(self).output(),
            final(self).emitting() == (Emitting { expected_fields, ..old(self).emitting() }),
            final(self).spec_scratch() == old(self).spec_scratch(),
    {
        self.expected_fields = expected_fields;
    }

    fn emit_cells(&mut self, fields: &[Option<&[u8]>]) -> (result: Result<(), Error>)
        requires
            old(self).wf(),
        ensures
            final(self).wf(),
            ({
                let cells = row(fields@);
                let before = old(self).emitting();
                match before.refusal(cells) {
                    Some(kind) => {
                        &&& result matches Err(error) && error.spec_kind() == kind
                        &&& final(self).output() == old(self).output()
                        &&& final(self).emitting() == before
                    },
                    None => {
                        &&& result is Ok
                        &&& final(self).output() == old(self).output() + before.emitted(cells)
                        &&& final(self).emitting() == before.after(cells)
                    },
                }
            }),
            final(self).spec_scratch() == old(self).spec_scratch(),
    {
        let count: usize = fields.len();
        let wanted = match self.field_count {
            FieldCount::Exact(expected) => Some(expected),
            FieldCount::MatchFirst => self.expected_fields,
            FieldCount::Flexible => None,
        };
        if let Some(expected) = wanted {
            if expected != count {
                return Err(
                    Error::new(
                        ErrorKind::FieldCountMismatch { expected, actual: count },
                        Location::unknown(),
                    ),
                );
            }
        }
        let start: usize = self.buffer.len();
        let ghost before = self.buffer@;
        if self.bom_pending {
            self.buffer.push(BOM_FIRST);
            self.buffer.push(BOM_SECOND);
            self.buffer.push(BOM_THIRD);
            assert(self.buffer@ =~= before + bom());
        }
        let ghost marked = self.buffer@;
        if !self.writing.write_record(&mut self.buffer, fields) {
            self.buffer.truncate(start);
            assert(self.buffer@ =~= before);
            return Err(Error::detailed(ErrorKind::Encode, UNWRITABLE_FIELD));
        }
        proof {
            let cells = row(fields@);
            assert(self.buffer@ =~= before + old(self).emitting().emitted(cells));
        }
        self.bom_pending = false;
        if self.field_count == FieldCount::MatchFirst && self.expected_fields.is_none() {
            self.expected_fields = Some(count);
        }
        Ok(())
    }

    /// Emit a record of fields.
    pub fn emit_record(&mut self, fields: &[&[u8]]) -> (result: Result<(), Error>)
        requires
            old(self).wf(),
        ensures
            final(self).wf(),
            emits(*old(self), *final(self), texts(fields@), result),
            final(self).spec_scratch() == old(self).spec_scratch(),
    {
        let mut cells: Vec<Option<&[u8]>> = Vec::new();
        let mut at: usize = 0;
        while at < fields.len()
            invariant
                at <= fields.len(),
                cells@.len() == at,
                forall|i: int| 0 <= i < at ==> cells@[i] == Some(#[trigger] fields@[i]),
            decreases fields.len() - at,
        {
            cells.push(Some(fields[at]));
            at += 1;
        }
        assert(row(cells@) =~= texts(fields@)) by {
            assert forall|i: int| 0 <= i < fields@.len() implies row(cells@)[i] == texts(
                fields@,
            )[i] by {
                assert(cells@[i] == Some(fields@[i]));
            }
        }
        self.emit_cells(cells.as_slice())
    }

    /// Emit a record of fields, some of which may be NULL.
    pub fn emit_nullable_record(&mut self, fields: &[Option<&[u8]>]) -> (result: Result<(), Error>)
        requires
            old(self).wf(),
        ensures
            final(self).wf(),
            emits(*old(self), *final(self), row(fields@), result),
            final(self).spec_scratch() == old(self).spec_scratch(),
    {
        self.emit_cells(fields)
    }

    /// Emit a record.
    pub fn emit_byte_record(&mut self, record: &ByteRecord) -> (result: Result<(), Error>)
        requires
            old(self).wf(),
            record.wf(),
        ensures
            final(self).wf(),
            emits(*old(self), *final(self), record@, result),
            final(self).spec_scratch() == old(self).spec_scratch(),
    {
        let mut cells: Vec<Option<&[u8]>> = Vec::new();
        let mut at: usize = 0;
        while at < record.len()
            invariant
                at <= record@.len(),
                record.wf(),
                cells@.len() == at,
                forall|i: int| 0 <= i < at ==> cell(#[trigger] cells@[i]) == record@[i],
            decreases record@.len() - at,
        {
            proof {
                record.lemma_nulls_are_empty(at as int);
            }
            if record.is_null(at) {
                cells.push(None);
            } else {
                cells.push(record.get(at));
            }
            at += 1;
        }
        assert(row(cells@) =~= record@) by {
            assert forall|i: int| 0 <= i < record@.len() implies row(cells@)[i] == record@[i] by {
                assert(cell(cells@[i]) == record@[i]);
            }
        }
        self.emit_cells(cells.as_slice())
    }

    /// Emit a record of text.
    pub fn emit_text_record(&mut self, record: &TextRecord) -> (result: Result<(), Error>)
        requires
            old(self).wf(),
            record.wf(),
        ensures
            final(self).wf(),
            emits(*old(self), *final(self), record@, result),
            final(self).spec_scratch() == old(self).spec_scratch(),
    {
        self.emit_byte_record(record.as_byte_record())
    }

    /// Emit a record whose fields have names, after a header record with the
    /// names if none was emitted yet and one is wanted.
    ///
    /// Where one of the two is refused, neither is emitted.
    pub fn emit_named_record(&mut self, names: &ByteRecord, record: &ByteRecord) -> (result: Result<
        (),
        Error,
    >)
        requires
            old(self).wf(),
            names.wf(),
            record.wf(),
        ensures
            final(self).wf(),
            ({
                let before = old(self).emitting();
                let headed = Emitting { header_pending: false, ..before.after(names@) };
                if !before.header_pending {
                    emits(*old(self), *final(self), record@, result)
                } else if before.refusal(names@) is Some {
                    &&& result matches Err(error) && before.refused(names@, error)
                    &&& final(self).output() == old(self).output()
                    &&& final(self).emitting() == before
                } else {
                    let header = old(self).output() + before.emitted(names@);
                    match headed.refusal(record@) {
                        Some(kind) => {
                            &&& result matches Err(error) && error.spec_kind() == kind
                            &&& final(self).output() == old(self).output()
                            &&& final(self).emitting() == before
                        },
                        None => {
                            &&& result is Ok
                            &&& final(self).output() == header + headed.emitted(record@)
                            &&& final(self).emitting() == headed.after(record@)
                        },
                    }
                }
            }),
            emits_named(*old(self), *final(self), names@, record@, result),
            final(self).spec_scratch() == old(self).spec_scratch(),
    {
        if !self.header_pending {
            return self.emit_byte_record(record);
        }
        let start: usize = self.buffer.len();
        let bom_pending = self.bom_pending;
        let expected_fields = self.expected_fields;
        if let Err(error) = self.emit_byte_record(names) {
            return Err(error);
        }
        self.header_pending = false;
        if let Err(error) = self.emit_byte_record(record) {
            self.buffer.truncate(start);
            self.bom_pending = bom_pending;
            self.expected_fields = expected_fields;
            self.header_pending = true;
            assert(self.buffer@ =~= old(self).output());
            return Err(error);
        }
        Ok(())
    }

    /// How many fields the first record had, where that decides.
    pub fn expected_fields(&self) -> (expected_fields: Option<usize>)
        ensures
            expected_fields == self.emitting().expected_fields,
    {
        self.expected_fields
    }

    /// Take back what was emitted from `start` on.
    pub fn withdraw(&mut self, start: usize, expected_fields: Option<usize>)
        requires
            old(self).wf(),
            start <= old(self).output().len(),
        ensures
            final(self).wf(),
            final(self).output() == old(self).output().take(start as int),
            final(self).emitting() == (Emitting { expected_fields, ..old(self).emitting() }),
    {
        self.buffer.truncate(start);
        self.expected_fields = expected_fields;
        assert(self.buffer@ =~= old(self).output().take(start as int));
    }

    /// What was emitted and not taken away yet.
    pub fn buffer(&self) -> (buffer: &[u8])
        ensures
            buffer@ == self.output(),
    {
        self.buffer.as_slice()
    }

    /// What was emitted and not taken away yet.
    pub fn as_vec(&self) -> (buffer: &Vec<u8>)
        ensures
            buffer@ == self.output(),
    {
        &self.buffer
    }

    /// What was emitted and not taken away yet, to be changed.
    pub fn buffer_mut(&mut self) -> (buffer: &mut Vec<u8>)
        ensures
            buffer@ == old(self).output(),
            final(self).output() == final(buffer)@,
            final(self).emitting() == old(self).emitting(),
            final(self).wf() == old(self).wf(),
            final(self).spec_scratch() == old(self).spec_scratch(),
    {
        &mut self.buffer
    }

    /// How many bytes were emitted and not taken away yet.
    pub fn len(&self) -> (len: usize)
        ensures
            len == self.output().len(),
    {
        self.buffer.len()
    }

    /// Whether nothing was emitted that was not taken away.
    pub fn is_empty(&self) -> (empty: bool)
        ensures
            empty == (self.output().len() == 0),
    {
        self.buffer.len() == 0
    }

    /// Forget what was emitted.
    pub fn clear(&mut self)
        requires
            old(self).wf(),
        ensures
            final(self).wf(),
            final(self).output() == Seq::<u8>::empty(),
            final(self).emitting() == old(self).emitting(),
            final(self).spec_scratch() == old(self).spec_scratch(),
    {
        self.buffer.clear();
    }

    /// Forget the first `count` bytes of what was emitted.
    pub fn discard(&mut self, count: usize)
        requires
            old(self).wf(),
            count <= old(self).output().len(),
        ensures
            final(self).wf(),
            final(self).output() == old(self).output().skip(count as int),
            final(self).emitting() == old(self).emitting(),
            final(self).spec_scratch() == old(self).spec_scratch(),
    {
        let rest = self.buffer.split_off(count);
        self.buffer = rest;
        assert(self.buffer@ =~= old(self).output().skip(count as int));
    }

    /// The whole output.
    pub fn into_inner(self) -> (buffer: Vec<u8>)
        ensures
            buffer@ == self.output(),
    {
        self.buffer
    }

    /// An empty record to build the next one in.
    ///
    /// It has the room of the record that was built before it.
    pub fn take_builder_record(&mut self) -> (record: ByteRecord)
        requires
            old(self).wf(),
        ensures
            final(self).wf(),
            final(self).output() == old(self).output(),
            final(self).emitting() == old(self).emitting(),
            record.wf(),
            record@ == Seq::<Field>::empty(),
            record.spec_bytes_len() == 0,
            record.spec_room() == old(self).spec_scratch(),
            final(self).spec_scratch() == 0,
    {
        let mut record = ByteRecord::new();
        std::mem::swap(&mut record, &mut self.builder);
        record.clear();
        record
    }

    /// Start to build a record, in the storage of the one that was built before.
    pub fn start_building(&mut self)
        requires
            old(self).wf(),
        ensures
            final(self).wf(),
            final(self).output() == old(self).output(),
            final(self).emitting() == old(self).emitting(),
            final(self).spec_scratch() == old(self).spec_scratch(),
            final(self).spec_built() == Seq::<Field>::empty(),
            final(self).spec_built_bytes() == 0,
    {
        self.builder.clear();
    }

    /// Add a field to the record that is being built.
    pub fn build_field(&mut self, field: &[u8])
        requires
            old(self).wf(),
            old(self).spec_built_bytes() + field@.len() <= MAX_FIELD_OFFSET,
        ensures
            final(self).wf(),
            final(self).output() == old(self).output(),
            final(self).emitting() == old(self).emitting(),
            final(self).spec_built() == old(self).spec_built().push(text(field@)),
            final(self).spec_built_bytes() == old(self).spec_built_bytes() + field@.len(),
    {
        self.builder.push_field(field);
    }

    /// Add a NULL to the record that is being built.
    pub fn build_null(&mut self)
        requires
            old(self).wf(),
        ensures
            final(self).wf(),
            final(self).output() == old(self).output(),
            final(self).emitting() == old(self).emitting(),
            final(self).spec_built() == old(self).spec_built().push(null_field()),
            final(self).spec_built_bytes() == old(self).spec_built_bytes(),
    {
        self.builder.push_null();
    }

    /// How many fields the record that is being built has.
    pub fn built_fields(&self) -> (count: usize)
        ensures
            count == self.spec_built().len(),
    {
        self.builder.len()
    }

    /// The record that was built.
    pub fn take_built(&mut self) -> (record: ByteRecord)
        requires
            old(self).wf(),
        ensures
            final(self).wf(),
            final(self).output() == old(self).output(),
            final(self).emitting() == old(self).emitting(),
            record.wf(),
            record@ == old(self).spec_built(),
    {
        let mut record = ByteRecord::new();
        std::mem::swap(&mut record, &mut self.builder);
        record
    }

    /// Take back a record that was built, for its storage.
    pub fn return_builder_record(&mut self, record: ByteRecord)
        requires
            old(self).wf(),
            record.wf(),
        ensures
            final(self).wf(),
            final(self).output() == old(self).output(),
            final(self).emitting() == old(self).emitting(),
            final(self).spec_scratch() == record.spec_room(),
    {
        self.builder = record;
        self.builder.clear();
    }

    /// Give back the storage of records that were unusually long.
    ///
    /// It is given back whole, and surely where there is room for more than
    /// [`MAX_SCRATCH_BYTES`]; with less room it depends on how much was allocated.
    pub fn reclaim_scratch(&mut self)
        requires
            old(self).wf(),
        ensures
            final(self).wf(),
            final(self).output() == old(self).output(),
            final(self).emitting() == old(self).emitting(),
            final(self).spec_scratch() == old(self).spec_scratch() || final(self).spec_scratch() == 0,
            final(self).spec_scratch() <= MAX_SCRATCH_BYTES,
    {
        if self.builder.byte_capacity() > MAX_SCRATCH_BYTES {
            self.builder = ByteRecord::new();
        }
    }
}

/// Whether a record whose fields have names was emitted, the names before it
/// where a header is due, or refused and nothing changed.
pub open spec fn emits_named(
    before: PushEmitter,
    after: PushEmitter,
    names: Seq<Field>,
    fields: Seq<Field>,
    result: Result<(), Error>,
) -> bool {
    let start = before.emitting();
    let headed = Emitting { header_pending: false, ..start.after(names) };
    if !start.header_pending {
        emits(before, after, fields, result)
    } else {
        match (start.refusal(names), headed.refusal(fields)) {
            (None, None) => {
                &&& result is Ok
                &&& after.output() == before.output() + start.emitted(names) + headed.emitted(
                    fields,
                )
                &&& after.emitting() == headed.after(fields)
            },
            (Some(kind), _) => {
                &&& result matches Err(error) && error.spec_kind() == kind
                &&& after.output() == before.output()
                &&& after.emitting() == start
            },
            (None, Some(kind)) => {
                &&& result matches Err(error) && error.spec_kind() == kind
                &&& after.output() == before.output()
                &&& after.emitting() == start
            },
        }
    }
}

/// Fields that are not NULL.
pub open spec fn texts(fields: Seq<&[u8]>) -> Seq<Field> {
    Seq::new(fields.len(), |i: int| text(fields[i]@))
}

/// Whether a record was emitted, or refused and nothing changed.
pub open spec fn emits(
    before: PushEmitter,
    after: PushEmitter,
    fields: Seq<Field>,
    result: Result<(), Error>,
) -> bool {
    match before.emitting().refusal(fields) {
        Some(kind) => {
            &&& result matches Err(error) && error.spec_kind() == kind
            &&& after.output() == before.output()
            &&& after.emitting() == before.emitting()
        },
        None => {
            &&& result is Ok
            &&& after.output() == before.output() + before.emitting().emitted(fields)
            &&& after.emitting() == before.emitting().after(fields)
        },
    }
}

} // verus!
