//! An index that stays where it is stored.
//!
//! Only the header is held. What else is needed is fetched, and handed in.

use vstd::bytes::{u128_from_le_bytes, u64_from_le_bytes};
use vstd::prelude::*;

use crate::config::Limits;
use crate::error::{Error, ErrorKind, IoError, IoErrorKind, Location};
use crate::index::csv_index::{
    checksum_fault, decode_shape, layout_fault, shape_fault, stored_checksum, stored_entry,
};
use crate::index::format::{
    bounds_fault, check_first_entry, checked, entry_location, faulty, header_of, malformed,
    number_at, record_out_of_range, trailer_bytes, IndexHeader, CHECKSUM_BYTES,
    FIXED_HEADER_BYTES, INDEX_CHECKSUM_MISMATCH, INDEX_ENTRIES_CHECKSUM_MISMATCH,
    INDEX_HEADER_CHECKSUM_MISMATCH, INDEX_TRUNCATED,
};
use crate::index::hash::{xxh3, xxh3_128};
use crate::options::FormatOptions;

verus! {

/// The header of an index whose entries are elsewhere.
#[derive(Clone, Copy, Debug)]
pub struct RemoteIndex {
    header: IndexHeader,
    header_hash: u128,
}

impl RemoteIndex {
    /// What the header says.
    pub closed spec fn spec_header(self) -> IndexHeader {
        self.header
    }

    /// The hash of the bytes of the header.
    pub closed spec fn spec_header_hash(self) -> u128 {
        self.header_hash
    }

    /// Whether positions in the index can be counted.
    pub open spec fn wf(self) -> bool {
        self.spec_header().count * 16 + 101 + trailer_bytes(self.spec_header().version) <= u64::MAX
    }

    /// Whether this is the header of these stored bytes.
    pub open spec fn heads(self, bytes: Seq<u8>) -> bool {
        &&& layout_fault(bytes) is None
        &&& self.spec_header() == header_of(bytes.take(101))
        &&& self.spec_header_hash() == xxh3(bytes.take(101))
    }

    /// The index of which the header and the length are known.
    pub fn new(head: &[u8], len: u64) -> (result: Result<RemoteIndex, Error>)
        requires
            head@.len() == 101,
        ensures
            match shape_fault(head@, len as int) {
                Some(fault) => result matches Err(error) && faulty(error, fault),
                None => {
                    &&& result matches Ok(index) && index.wf() && index.spec_header() == header_of(
                        head@,
                    ) && index.spec_header_hash() == xxh3(head@)
                },
            },
    {
        match decode_shape(head, len) {
            Ok(header) => Ok(RemoteIndex { header, header_hash: xxh3_128(head) }),
            Err(error) => Err(error),
        }
    }

    /// How many records are indexed.
    pub fn len(&self) -> (len: u64)
        ensures
            len == self.spec_header().count,
    {
        self.header.count
    }

    /// The format that the source was read with.
    pub fn format(&self) -> (format: FormatOptions)
        ensures
            format == self.spec_header().format,
    {
        self.header.format
    }

    /// The limits that the source was read under.
    pub fn limits(&self) -> (limits: Limits)
        ensures
            limits == self.spec_header().limits,
    {
        self.header.limits
    }

    /// The length and the hash of the source.
    pub fn source(&self) -> (identity: (u64, u128))
        ensures
            identity == (self.spec_header().source_len, self.spec_header().source_hash),
    {
        (self.header.source_len, self.header.source_hash)
    }

    /// Where the sixteen bytes of entry `record` are stored.
    pub fn position(&self, record: usize) -> (result: Result<u64, Error>)
        requires
            self.wf(),
        ensures
            if record >= self.spec_header().count {
                result matches Err(error) && error.spec_kind() == (ErrorKind::RecordOutOfRange {
                    record,
                }) && error.spec_location() == Location::start()
            } else {
                result == Ok::<u64, Error>((101 + 16 * record) as u64)
            },
    {
        if record as u64 >= self.header.count {
            return Err(record_out_of_range(record));
        }
        Ok(FIXED_HEADER_BYTES as u64 + record as u64 * 16)
    }

    /// Where record `record` starts, from the bytes of its entry.
    pub fn location(&self, record: usize, encoded: &[u8]) -> (result: Result<Location, Error>)
        requires
            encoded@.len() == 16,
        ensures
            ({
                let offset = number_at(encoded@, 0);
                let line = number_at(encoded@, 8);
                match bounds_fault(offset, line, self.spec_header().source_len) {
                    Some(detail) => result matches Err(error) && malformed(error, detail),
                    None => result == Ok::<Location, Error>(
                        (Location { byte: offset as usize, line, record: record as u64, field: 0 }),
                    ),
                }
            }),
    {
        let offset: u64 = u64_from_le_bytes(&encoded[0..8]);
        let line: u64 = u64_from_le_bytes(&encoded[8..16]);
        if let Err(error) = check_first_entry(offset, line, self.header.source_len) {
            return Err(error);
        }
        entry_location(offset, line, self.header.source_len, record)
    }

    /// The range of stored bytes that the first checksum is the hash of: the
    /// entries, and before version nine the header too.
    pub fn hashed_range(&self) -> (range: (u64, u64))
        requires
            self.wf(),
        ensures
            range.0 == (if self.spec_header().version < 9 {
                0int
            } else {
                101
            }),
            range.1 == 101 + 16 * self.spec_header().count,
    {
        let end: u64 = FIXED_HEADER_BYTES as u64 + self.header.count * 16;
        if self.header.version < 9 {
            (0, end)
        } else {
            (FIXED_HEADER_BYTES as u64, end)
        }
    }

    /// How many bytes of checksums stand behind the entries.
    pub fn trailer_len(&self) -> (len: usize)
        ensures
            len == trailer_bytes(self.spec_header().version),
    {
        trailer_bytes(self.header.version)
    }

    /// What is wrong with checksums, if the range that they are of has this hash.
    pub open spec fn mismatch(self, hash: u128, trailer: Seq<u8>) -> Option<&'static str> {
        if self.spec_header().version < 9 {
            if hash != stored_checksum(trailer, 0) {
                Some(INDEX_CHECKSUM_MISMATCH)
            } else {
                None
            }
        } else if hash != stored_checksum(trailer, 0) {
            Some(INDEX_ENTRIES_CHECKSUM_MISMATCH)
        } else if self.spec_header_hash() != stored_checksum(trailer, 16) {
            Some(INDEX_HEADER_CHECKSUM_MISMATCH)
        } else {
            None
        }
    }

    /// Fail when a checksum is wrong, given the hash of the range that the first
    /// one is of.
    pub fn verify(&self, hash: u128, trailer: &[u8]) -> (result: Result<(), Error>)
        requires
            trailer@.len() == trailer_bytes(self.spec_header().version),
        ensures
            checked(result, self.mismatch(hash, trailer@)),
    {
        let stored: u128 = u128_from_le_bytes(&trailer[0..CHECKSUM_BYTES]);
        if self.header.version < 9 {
            if hash != stored {
                return Err(Error::detailed(ErrorKind::InvalidIndex, INDEX_CHECKSUM_MISMATCH));
            }
            return Ok(());
        }
        if hash != stored {
            return Err(Error::detailed(ErrorKind::InvalidIndex, INDEX_ENTRIES_CHECKSUM_MISMATCH));
        }
        let stored_header: u128 = u128_from_le_bytes(
            &trailer[CHECKSUM_BYTES..CHECKSUM_BYTES + CHECKSUM_BYTES],
        );
        if self.header_hash != stored_header {
            return Err(Error::detailed(ErrorKind::InvalidIndex, INDEX_HEADER_CHECKSUM_MISMATCH));
        }
        Ok(())
    }
}

/// Why stored bytes could not be fetched: an index that ends early is malformed.
pub fn fetch_failure(failure: IoError) -> (error: Error)
    ensures
        failure.spec_kind() == IoErrorKind::UnexpectedEof ==> malformed(error, INDEX_TRUNCATED),
        failure.spec_kind() != IoErrorKind::UnexpectedEof ==> error.spec_kind() == ErrorKind::Io(
            failure.spec_kind(),
        ) && error.spec_location() == Location::start(),
{
    if failure.kind() == IoErrorKind::UnexpectedEof {
        Error::detailed(ErrorKind::InvalidIndex, INDEX_TRUNCATED)
    } else {
        Error::io(failure, Location::start())
    }
}

/// An index that stays where it is stored is the index that is stored there: its
/// entries are found where it looks for them, and its checksums are those of
/// all of its bytes.
pub proof fn law_a_remote_index_is_the_stored_one(index: RemoteIndex, bytes: Seq<u8>, record: int)
    requires
        index.heads(bytes),
    ensures
        index.wf(),
        0 <= record < index.spec_header().count ==> {
            let encoded = bytes.subrange(101 + 16 * record, 117 + 16 * record);
            stored_entry(bytes, record) == (number_at(encoded, 0), number_at(encoded, 8))
        },
        ({
            let end = 101 + 16 * index.spec_header().count as int;
            let start = if index.spec_header().version < 9 {
                0int
            } else {
                101
            };
            index.mismatch(xxh3(bytes.subrange(start, end)), bytes.skip(end)) == checksum_fault(
                bytes,
            )
        }),
{
    let end = 101 + 16 * index.spec_header().count as int;
    if 0 <= record < index.spec_header().count {
        let encoded = bytes.subrange(101 + 16 * record, 117 + 16 * record);
        assert(encoded.subrange(0, 8) =~= bytes.subrange(101 + 16 * record, 109 + 16 * record));
        assert(encoded.subrange(8, 16) =~= bytes.subrange(109 + 16 * record, 117 + 16 * record));
    }
    assert(bytes.subrange(0, end) =~= bytes.take(end));
    assert(bytes.skip(end).subrange(0, 16) =~= bytes.subrange(end, end + 16));
    if index.spec_header().version >= 9 {
        assert(bytes.skip(end).subrange(16, 32) =~= bytes.subrange(end + 16, end + 32));
    }
}

} // verus!
