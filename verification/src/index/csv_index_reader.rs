//! An index read entry by entry from its byte form.

use vstd::prelude::*;

use crate::config::Limits;
use crate::error::{Error, ErrorKind, Location};
use crate::index::csv_index::{
    checksum_fault, decode_layout, layout_fault, lemma_stored_entry, lemma_stored_parts,
    parser_at_location, read_entry, seeks_to, stored_entry, verify_checksums, Table,
};
use crate::index::format::{
    bounds_fault, check_first_entry, checked, entry_location, faulty, header_of,
    law_a_written_header_is_read_back, malformed, record_out_of_range, IndexHeader,
};
use crate::index::hash::{xxh3, xxh3_128};
use crate::index::index_options::IndexOptions;
use crate::options::FormatOptions;
use crate::slice_parser::SliceParser;

verus! {

/// A reader of an index that holds its byte form and decodes entries on demand.
#[derive(Debug)]
pub struct CsvIndexReader {
    index: Vec<u8>,
    header: IndexHeader,
}

impl CsvIndexReader {
    /// The byte form of the index.
    pub closed spec fn bytes(&self) -> Seq<u8> {
        self.index@
    }

    /// What the header says.
    pub closed spec fn spec_header(&self) -> IndexHeader {
        self.header
    }

    /// Whether the header is that of the bytes, which have the length it says.
    pub open spec fn wf(&self) -> bool {
        &&& layout_fault(self.bytes()) is None
        &&& self.spec_header() == header_of(self.bytes().take(101))
        &&& self.spec_header().format.dialect.valid()
        &&& self.bytes().len() <= usize::MAX
    }

    /// Entry `record`, if there is one.
    pub open spec fn spec_entry(&self, record: int) -> (u64, u64) {
        stored_entry(self.bytes(), record)
    }

    /// What is wrong with entry `record`.
    pub open spec fn fault(&self, record: int) -> Option<&'static str> {
        bounds_fault(
            self.spec_entry(record).0,
            self.spec_entry(record).1,
            self.spec_header().source_len,
        )
    }

    /// A reader of the index with this byte form.
    ///
    /// Only the header and the length are checked.
    pub fn new(index: Vec<u8>) -> (result: Result<CsvIndexReader, Error>)
        ensures
            match layout_fault(index@) {
                Some(fault) => result matches Err(error) && faulty(error, fault),
                None => result matches Ok(reader) && reader.wf() && reader.bytes() == index@,
            },
    {
        match decode_layout(index.as_slice()) {
            Ok(header) => {
                assert(index@.len() == index.len());
                Ok(CsvIndexReader { index, header })
            },
            Err(error) => Err(error),
        }
    }

    /// How many records are indexed.
    pub fn len(&self) -> (len: u64)
        ensures
            len == self.spec_header().count,
    {
        self.header.count
    }

    /// Whether no record is indexed.
    pub fn is_empty(&self) -> (empty: bool)
        ensures
            empty == (self.spec_header().count == 0),
    {
        self.header.count == 0
    }

    /// The format that the source was read with.
    pub fn format(&self) -> (format: FormatOptions)
        ensures
            format == self.spec_header().format,
    {
        self.header.format
    }

    /// The limits that the source was read under.
    pub fn limits(&self) -> (limits: Limits)
        ensures
            limits == self.spec_header().limits,
    {
        self.header.limits
    }

    /// The length of the source.
    pub fn source_len(&self) -> (len: u64)
        ensures
            len == self.spec_header().source_len,
    {
        self.header.source_len
    }

    fn entry(&self, record: usize) -> (result: Result<Option<(u64, u64)>, Error>)
        requires
            self.wf(),
        ensures
            if record >= self.spec_header().count {
                result == Ok::<Option<(u64, u64)>, Error>(None)
            } else {
                match self.fault(record as int) {
                    Some(detail) => result matches Err(error) && malformed(error, detail),
                    None => result == Ok::<Option<(u64, u64)>, Error>(
                        Some(self.spec_entry(record as int)),
                    ),
                }
            },
    {
        if record as u64 >= self.header.count {
            return Ok(None);
        }
        let (offset, line) = read_entry(self.index.as_slice(), record);
        match check_first_entry(offset, line, self.header.source_len) {
            Ok(()) => Ok(Some((offset, line))),
            Err(error) => Err(error),
        }
    }

    /// Where record `record` starts.
    pub fn record_offset(&self, record: usize) -> (result: Result<Option<u64>, Error>)
        requires
            self.wf(),
        ensures
            if record >= self.spec_header().count {
                result == Ok::<Option<u64>, Error>(None)
            } else {
                match self.fault(record as int) {
                    Some(detail) => result matches Err(error) && malformed(error, detail),
                    None => result == Ok::<Option<u64>, Error>(
                        Some(self.spec_entry(record as int).0),
                    ),
                }
            },
    {
        match self.entry(record) {
            Ok(Some((offset, _))) => Ok(Some(offset)),
            Ok(None) => Ok(None),
            Err(error) => Err(error),
        }
    }

    /// The physical line that record `record` starts on.
    pub fn record_line(&self, record: usize) -> (result: Result<Option<u64>, Error>)
        requires
            self.wf(),
        ensures
            if record >= self.spec_header().count {
                result == Ok::<Option<u64>, Error>(None)
            } else {
                match self.fault(record as int) {
                    Some(detail) => result matches Err(error) && malformed(error, detail),
                    None => result == Ok::<Option<u64>, Error>(
                        Some(self.spec_entry(record as int).1),
                    ),
                }
            },
    {
        match self.entry(record) {
            Ok(Some((_, line))) => Ok(Some(line)),
            Ok(None) => Ok(None),
            Err(error) => Err(error),
        }
    }

    /// Where record `record` starts, as a location in the source.
    pub fn location(&self, record: usize) -> (result: Result<Location, Error>)
        requires
            self.wf(),
        ensures
            if record >= self.spec_header().count {
                result matches Err(error) && error.spec_kind() == (ErrorKind::RecordOutOfRange {
                    record,
                }) && error.spec_location() == Location::start()
            } else {
                match self.fault(record as int) {
                    Some(detail) => result matches Err(error) && malformed(error, detail),
                    None => result == Ok::<Location, Error>(
                        (Location {
                            byte: self.spec_entry(record as int).0 as usize,
                            line: self.spec_entry(record as int).1,
                            record: record as u64,
                            field: 0,
                        }),
                    ) && self.spec_entry(record as int).0 < self.spec_header().source_len,
                }
            },
    {
        match self.entry(record) {
            Ok(Some((offset, line))) => entry_location(
                offset,
                line,
                self.header.source_len,
                record,
            ),
            Ok(None) => Err(record_out_of_range(record)),
            Err(error) => Err(error),
        }
    }

    /// Fail when `source` is not what the index was built from.
    pub fn validate_reader(&self, source: &[u8]) -> (result: Result<(), Error>)
        ensures
            result is Ok == (self.spec_header().source_len == source@.len()
                && self.spec_header().source_hash == xxh3(source@)),
            result matches Err(error) ==> error.spec_kind() == ErrorKind::SourceMismatch
                && error.spec_location() == Location::start(),
    {
        if source.len() as u64 != self.header.source_len || xxh3_128(source)
            != self.header.source_hash {
            return Err(Error::new(ErrorKind::SourceMismatch, Location::start()));
        }
        Ok(())
    }

    /// Fail when a checksum of the index is wrong.
    pub fn verify(&self) -> (result: Result<(), Error>)
        requires
            self.wf(),
        ensures
            checked(result, checksum_fault(self.bytes())),
    {
        verify_checksums(self.index.as_slice(), self.header.version, self.header.count as usize)
    }

    /// A parser of `source` that is at record `record`.
    ///
    /// The length of the source is checked, its content is not.
    pub fn parser_at_reader<'source>(&self, source: &'source [u8], record: usize) -> (result: Result<
        SliceParser<'source>,
        Error,
    >)
        requires
            self.wf(),
        ensures
            if record >= self.spec_header().count {
                result matches Err(error) && error.spec_kind() == (ErrorKind::RecordOutOfRange {
                    record,
                }) && error.spec_location() == Location::start()
            } else {
                match self.fault(record as int) {
                    Some(detail) => result matches Err(error) && malformed(error, detail),
                    None => seeks_to(
                        source@,
                        self.spec_header().source_len,
                        (IndexOptions {
                            format: self.spec_header().format,
                            limits: self.spec_header().limits,
                        }),
                        (Location {
                            byte: self.spec_entry(record as int).0 as usize,
                            line: self.spec_entry(record as int).1,
                            record: record as u64,
                            field: 0,
                        }),
                        result,
                    ),
                }
            },
    {
        let location = match self.location(record) {
            Ok(location) => location,
            Err(error) => {
                return Err(error);
            },
        };
        parser_at_location(
            source,
            self.header.source_len,
            IndexOptions { format: self.header.format, limits: self.header.limits },
            location,
        )
    }

    /// The byte form of the index.
    pub fn into_inner(self) -> (index: Vec<u8>)
        ensures
            index@ == self.bytes(),
    {
        self.index
    }
}

/// An entry read on demand is the entry that was stored.
pub proof fn law_entries_are_read_on_demand(table: Table, reader: CsvIndexReader, record: int)
    requires
        table.valid(),
        reader.wf(),
        reader.bytes() == table.bytes(),
    ensures
        reader.spec_header().count == table.offsets.len(),
        reader.spec_header().source_len == table.source_len,
        reader.spec_header().source_hash == table.source_hash,
        checksum_fault(reader.bytes()) is None,
        0 <= record < table.offsets.len() ==> {
            &&& reader.spec_entry(record) == (table.offsets[record], table.lines[record])
            &&& reader.fault(record) is None
        },
{
    law_a_written_header_is_read_back(
        table.source_len,
        table.source_hash,
        table.format,
        table.limits,
        table.offsets.len() as u64,
    );
    lemma_stored_parts(table);
    if 0 <= record < table.offsets.len() {
        lemma_stored_entry(table, record);
        assert(table.sound_at(record));
    }
}

} // verus!
