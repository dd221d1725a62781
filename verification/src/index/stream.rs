//! Hashing bytes as they pass.

use vstd::prelude::*;
use xxhash_rust::xxh3::Xxh3;

use crate::error::{Error, ErrorKind, IoError, IoErrorKind, Location};
use crate::index::format::{
    INDEX_TRUNCATED, OUTPUT_LENGTH_OVERFLOW, READ_OVERRAN_BUFFER, SOURCE_LENGTH_OVERFLOW,
    WRITE_OVERRAN_BUFFER,
};
use crate::index::hash::xxh3;

verus! {

/// A hasher of the `xxhash_rust` crate that takes its input in pieces.
#[verifier::external_type_specification]
#[verifier::external_body]
pub struct ExXxh3(Xxh3);

/// What a hasher was given so far.
pub uninterp spec fn fed(hasher: Xxh3) -> Seq<u8>;

/// `Xxh3::new` makes a hasher that was given nothing.
#[verifier::external_body]
fn new_hasher() -> (hasher: Xxh3)
    ensures
        fed(hasher) == Seq::<u8>::empty(),
{
    Xxh3::new()
}

/// `Xxh3::update` gives a hasher more input. It counts the input in 64 bits.
#[verifier::external_body]
fn feed(hasher: &mut Xxh3, bytes: &[u8])
    requires
        fed(*old(hasher)).len() + bytes@.len() <= u64::MAX,
    ensures
        fed(*final(hasher)) == fed(*old(hasher)) + bytes@,
{
    hasher.update(bytes);
}

/// `Xxh3::digest128` answers the hash that all of the input has when it is
/// hashed at once.
#[verifier::external_body]
fn digest(hasher: &Xxh3) -> (hash: u128)
    ensures
        hash == xxh3(fed(*hasher)),
{
    hasher.digest128()
}

/// The length and the hash of bytes that pass.
pub struct StreamHash {
    hasher: Xxh3,
    len: u64,
}

/// What to do after a read.
#[derive(Debug)]
pub enum PayloadStep {
    /// Read on.
    Again,
    /// All of it was read.
    Complete,
    /// The reading failed.
    Failed(Error),
}

impl StreamHash {
    /// The bytes that have passed.
    pub closed spec fn passed(&self) -> Seq<u8> {
        fed(self.hasher)
    }

    /// Whether the bytes were counted.
    pub closed spec fn wf(&self) -> bool {
        fed(self.hasher).len() == self.len
    }

    /// Nothing has passed yet.
    pub fn new() -> (stream: StreamHash)
        ensures
            stream.wf(),
            stream.passed() == Seq::<u8>::empty(),
    {
        StreamHash { hasher: new_hasher(), len: 0 }
    }

    /// How many bytes have passed.
    pub fn len(&self) -> (len: u64)
        requires
            self.wf(),
        ensures
            len == self.passed().len(),
    {
        self.len
    }

    /// The hash of the bytes that have passed.
    pub fn hash(&self) -> (hash: u128)
        ensures
            hash == xxh3(self.passed()),
    {
        digest(&self.hasher)
    }

    /// Fail when what has passed is not the source with this length and hash.
    pub fn validate_identity(&self, source_len: u64, source_hash: u128) -> (result: Result<
        (),
        Error,
    >)
        requires
            self.wf(),
        ensures
            result is Ok == (self.passed().len() == source_len && xxh3(self.passed())
                == source_hash),
            result matches Err(error) ==> error.spec_kind() == ErrorKind::SourceMismatch
                && error.spec_location() == Location::start(),
    {
        if self.len != source_len || self.hash() != source_hash {
            return Err(Error::new(ErrorKind::SourceMismatch, Location::start()));
        }
        Ok(())
    }

    fn absorb(&mut self, buffer: &[u8], count: usize, overran: &str, overflow: &str) -> (result:
        Result<(), IoError>)
        requires
            old(self).wf(),
        ensures
            final(self).wf(),
            absorbed(*old(self), *final(self), buffer@, count, overran, overflow, result),
    {
        if count > buffer.len() {
            return Err(IoError::new(IoErrorKind::InvalidData, overran));
        }
        match self.len.checked_add(count as u64) {
            None => Err(IoError::new(IoErrorKind::InvalidData, overflow)),
            Some(len) => {
                let accepted = &buffer[0..count];
                feed(&mut self.hasher, accepted);
                self.len = len;
                assert(buffer@.subrange(0, count as int) =~= buffer@.take(count as int));
                Ok(())
            },
        }
    }

    /// Take in what a reader says that it put into a buffer.
    pub fn absorb_read(&mut self, buffer: &[u8], read: usize) -> (result: Result<(), IoError>)
        requires
            old(self).wf(),
        ensures
            final(self).wf(),
            absorbed(
                *old(self),
                *final(self),
                buffer@,
                read,
                READ_OVERRAN_BUFFER,
                SOURCE_LENGTH_OVERFLOW,
                result,
            ),
    {
        self.absorb(buffer, read, READ_OVERRAN_BUFFER, SOURCE_LENGTH_OVERFLOW)
    }

    /// Take in what a writer says that it took of a buffer.
    pub fn absorb_written(&mut self, buffer: &[u8], written: usize) -> (result: Result<
        (),
        IoError,
    >)
        requires
            old(self).wf(),
        ensures
            final(self).wf(),
            absorbed(
                *old(self),
                *final(self),
                buffer@,
                written,
                WRITE_OVERRAN_BUFFER,
                OUTPUT_LENGTH_OVERFLOW,
                result,
            ),
    {
        self.absorb(buffer, written, WRITE_OVERRAN_BUFFER, OUTPUT_LENGTH_OVERFLOW)
    }

    /// How many bytes to read next of a payload of this length.
    pub fn wanted(&self, payload: u64, capacity: usize) -> (count: usize)
        requires
            self.wf(),
        ensures
            count == (if self.passed().len() >= payload {
                0
            } else if payload - self.passed().len() < capacity {
                payload - self.passed().len()
            } else {
                capacity as int
            }),
    {
        if self.len >= payload {
            0
        } else if payload - self.len < capacity as u64 {
            (payload - self.len) as usize
        } else {
            capacity
        }
    }

    /// Go on with a payload of this length after a read into a buffer.
    ///
    /// A read that was interrupted is repeated. One that brought nothing ends
    /// the payload, which must have come by then.
    pub fn payload_step(
        &mut self,
        payload: u64,
        buffer: &[u8],
        outcome: Result<usize, IoError>,
    ) -> (step: PayloadStep)
        requires
            old(self).wf(),
        ensures
            final(self).wf(),
            match outcome {
                Err(failure) => {
                    &&& final(self).passed() == old(self).passed()
                    &&& if failure.spec_kind() == IoErrorKind::Interrupted {
                        step is Again
                    } else {
                        step matches PayloadStep::Failed(error) && error.spec_kind()
                            == ErrorKind::Io(failure.spec_kind()) && error.spec_location()
                            == Location::start()
                    }
                },
                Ok(read) => if read == 0 {
                    &&& final(self).passed() == old(self).passed()
                    &&& if old(self).passed().len() == payload {
                        step is Complete
                    } else {
                        step matches PayloadStep::Failed(error) && error.says(
                            ErrorKind::InvalidIndex,
                            INDEX_TRUNCATED@,
                        )
                    }
                } else if read > buffer@.len() || old(self).passed().len() + read > u64::MAX {
                    &&& final(self).passed() == old(self).passed()
                    &&& step matches PayloadStep::Failed(error) && error.spec_kind()
                        == ErrorKind::Io(IoErrorKind::InvalidData)
                } else {
                    &&& final(self).passed() == old(self).passed() + buffer@.take(read as int)
                    &&& step is Again
                },
            },
    {
        match outcome {
            Err(failure) => {
                if failure.kind() == IoErrorKind::Interrupted {
                    PayloadStep::Again
                } else {
                    PayloadStep::Failed(Error::io(failure, Location::start()))
                }
            },
            Ok(read) => {
                if read == 0 {
                    if self.len == payload {
                        return PayloadStep::Complete;
                    }
                    return PayloadStep::Failed(
                        Error::detailed(ErrorKind::InvalidIndex, INDEX_TRUNCATED),
                    );
                }
                match self.absorb_read(buffer, read) {
                    Ok(()) => PayloadStep::Again,
                    Err(failure) => PayloadStep::Failed(Error::io(failure, Location::start())),
                }
            },
        }
    }
}

/// Whether the first `count` bytes of a buffer passed, or why not.
pub open spec fn absorbed(
    before: StreamHash,
    after: StreamHash,
    buffer: Seq<u8>,
    count: usize,
    overran: &str,
    overflow: &str,
    result: Result<(), IoError>,
) -> bool {
    if count > buffer.len() {
        &&& result matches Err(error) && error.spec_kind() == IoErrorKind::InvalidData
            && error.spec_message() == overran@
        &&& after.passed() == before.passed()
    } else if before.passed().len() + count > u64::MAX {
        &&& result matches Err(error) && error.spec_kind() == IoErrorKind::InvalidData
            && error.spec_message() == overflow@
        &&& after.passed() == before.passed()
    } else {
        &&& result is Ok
        &&& after.passed() == before.passed() + buffer.take(count as int)
    }
}

} // verus!
