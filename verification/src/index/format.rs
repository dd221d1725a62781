//! The byte form of an index.
//!
//! A header of fixed length, one entry of sixteen bytes for each record, and
//! checksums. Numbers are little-endian.

use vstd::bytes::{
    lemma_auto_spec_u128_to_from_le_bytes, lemma_auto_spec_u32_to_from_le_bytes,
    lemma_auto_spec_u64_to_from_le_bytes, spec_u128_from_le_bytes, spec_u128_to_le_bytes,
    spec_u32_from_le_bytes, spec_u32_to_le_bytes, spec_u64_from_le_bytes, spec_u64_to_le_bytes,
    u128_from_le_bytes, u128_to_le_bytes, u32_from_le_bytes, u32_to_le_bytes, u64_from_le_bytes,
    u64_to_le_bytes,
};
use vstd::prelude::*;

use crate::config::{
    BlankRecords, Dialect, Escape, Limits, Nulls, Quoting, ReadBom, RecordEnding, Recovery, Syntax,
    Tail, Whitespace, WriteBom,
};
use crate::error::{Error, ErrorKind, Location};
use crate::options::{FormatOptions, FormatTag};

verus! {

/// The current version of the byte form.
pub const VERSION: u32 = 9;

/// The oldest version that can be read.
pub const MIN_VERSION: u32 = 8;

/// The length of a hash.
pub const HASH_BYTES: usize = 16;

/// The length of an encoded format.
pub const FORMAT_BYTES: usize = 33;

/// The length of a header.
pub const FIXED_HEADER_BYTES: usize = 101;

/// The length of a checksum.
pub const CHECKSUM_BYTES: usize = 16;

/// An index is longer than a file can be.
pub const INDEX_LENGTH_OVERFLOW: &'static str = "index length overflows u64";

/// An entry points past the source.
pub const RECORD_OFFSET_EXCEEDS_SOURCE: &'static str = "record offset exceeds source";

/// An entry points before its predecessor.
pub const RECORD_OFFSETS_NOT_INCREASING: &'static str = "record offsets are not strictly increasing";

/// An entry's line is zero or before its predecessor's.
pub const RECORD_LINES_INVALID: &'static str = "record lines are not valid and nondecreasing";

/// An index ends early.
pub const INDEX_TRUNCATED: &'static str = "index is truncated";

/// An index does not start as one.
pub const INDEX_MAGIC_MISMATCH: &'static str = "index magic does not match";

/// An index has another version.
pub const UNSUPPORTED_INDEX_VERSION: &'static str = "unsupported index version";

/// A reader claims too much.
pub const READ_OVERRAN_BUFFER: &'static str = "Read implementation returned more bytes than the buffer holds";

/// A source is too long.
pub const SOURCE_LENGTH_OVERFLOW: &'static str = "source length exceeds u64";

/// The record limit is not for this machine.
pub const RECORD_LIMIT_NOT_USIZE: &'static str = "record limit does not fit usize";

/// The field limit is not for this machine.
pub const FIELD_LIMIT_NOT_USIZE: &'static str = "field limit does not fit usize";

/// The field-count limit is not for this machine.
pub const FIELD_COUNT_LIMIT_NOT_USIZE: &'static str = "field-count limit does not fit usize";

/// A position is too large.
pub const INDEX_CURSOR_OVERFLOW: &'static str = "index cursor overflow";

/// An index is longer or shorter than its header says.
pub const LOCATION_TABLE_LENGTH_MISMATCH: &'static str = "location table length does not match";

/// The checksum of an old index is wrong.
pub const INDEX_CHECKSUM_MISMATCH: &'static str = "index checksum does not match";

/// The checksum of the entries is wrong.
pub const INDEX_ENTRIES_CHECKSUM_MISMATCH: &'static str = "index entries checksum does not match";

/// The checksum of the header is wrong.
pub const INDEX_HEADER_CHECKSUM_MISMATCH: &'static str = "index header checksum does not match";

/// There are too many entries for this machine.
pub const RECORD_COUNT_NOT_USIZE: &'static str = "record count does not fit usize";

/// There are too many records.
pub const TOO_MANY_RECORDS: &'static str = "too many records";

/// A format has no parallel reading.
pub const PARALLEL_FORMAT_UNSUPPORTED: &'static str = "this format cannot be indexed in parallel";

/// A record is not read back.
pub const ENCODED_VALUE_NO_RECORD: &'static str = "encoded value does not produce a parser-visible record";

/// A record is read back as several.
pub const ENCODED_VALUE_MULTIPLE_RECORDS: &'static str = "encoded value produces more than one parser-visible record";

/// A writer claims too much.
pub const WRITE_OVERRAN_BUFFER: &'static str = "Write implementation reported more bytes than the buffer holds";

/// An output is too long.
pub const OUTPUT_LENGTH_OVERFLOW: &'static str = "output length exceeds u64";

/// The bytes every index starts with.
pub open spec fn magic() -> Seq<u8> {
    seq![66u8, 67u8, 83u8, 86u8, 73u8, 68u8, 88u8, 50u8]
}

fn push_magic(output: &mut Vec<u8>)
    ensures
        final(output)@ == old(output)@ + magic(),
{
    output.push(66);
    output.push(67);
    output.push(83);
    output.push(86);
    output.push(73);
    output.push(68);
    output.push(88);
    output.push(50);
    assert(output@ =~= old(output)@ + magic());
}

fn is_magic(bytes: &[u8]) -> (yes: bool)
    requires
        bytes@.len() == 8,
    ensures
        yes == (bytes@ == magic()),
{
    let yes = bytes[0] == 66 && bytes[1] == 67 && bytes[2] == 83 && bytes[3] == 86 && bytes[4] == 73
        && bytes[5] == 68 && bytes[6] == 88 && bytes[7] == 50;
    proof {
        if yes {
            assert(bytes@ =~= magic());
        } else if bytes@ == magic() {
            assert(bytes@[0] == 66 && bytes@[1] == 67 && bytes@[2] == 83 && bytes@[3] == 86
                && bytes@[4] == 73 && bytes@[5] == 68 && bytes@[6] == 88 && bytes@[7] == 50);
        }
    }
    yes
}

/// How many bytes of checksums follow the entries.
#[verifier::allow_in_spec]
pub fn trailer_bytes(version: u32) -> usize
    returns
        (if version < 9 {
            16usize
        } else {
            32usize
        }),
{
    if version < 9 {
        CHECKSUM_BYTES
    } else {
        2 * CHECKSUM_BYTES
    }
}

/// The error of a request for a record that is not in the index.
pub fn record_out_of_range(record: usize) -> (error: Error)
    ensures
        error.spec_kind() == (ErrorKind::RecordOutOfRange { record }),
        error.spec_location() == Location::start(),
        error.is_plain(),
{
    Error::new(ErrorKind::RecordOutOfRange { record }, Location::start())
}

/// Whether an error says that an index is malformed, and why.
pub open spec fn malformed(error: Error, detail: &str) -> bool {
    error.says(ErrorKind::InvalidIndex, detail@)
}

fn malformed_index(detail: &str) -> (error: Error)
    ensures
        malformed(error, detail),
{
    Error::detailed(ErrorKind::InvalidIndex, detail)
}

/// A length as it is stored.
#[verifier::allow_in_spec]
pub fn widen(value: usize) -> u64
    returns
        value as u64,
{
    value as u64
}

/// A stored number as a length on this machine.
pub fn narrow(value: u64, what: &str) -> (result: Result<usize, Error>)
    ensures
        result is Ok == (value <= usize::MAX),
        result matches Ok(narrowed) ==> narrowed == value,
        result matches Err(error) ==> malformed(error, what),
{
    if value <= usize::MAX as u64 {
        Ok(value as usize)
    } else {
        Err(malformed_index(what))
    }
}

/// Where an entry points.
pub fn entry_location(offset: u64, line: u64, source_len: u64, record: usize) -> (result: Result<
    Location,
    Error,
>)
    ensures
        result is Ok == (offset < source_len),
        result matches Ok(location) ==> location == (Location {
            byte: offset as usize,
            line,
            record: record as u64,
            field: 0,
        }),
        result matches Err(error) ==> malformed(error, RECORD_OFFSET_EXCEEDS_SOURCE),
{
    if offset >= source_len {
        return Err(malformed_index(RECORD_OFFSET_EXCEEDS_SOURCE));
    }
    Ok(Location { byte: offset as usize, line, record: record as u64, field: 0 })
}

/// What is wrong with an entry by itself, if anything is.
pub open spec fn bounds_fault(offset: u64, line: u64, source_len: u64) -> Option<&'static str> {
    if offset >= source_len {
        Some(RECORD_OFFSET_EXCEEDS_SOURCE)
    } else if line == 0 {
        Some(RECORD_LINES_INVALID)
    } else {
        None
    }
}

/// What is wrong with an entry after another, if anything is.
pub open spec fn entry_fault(
    offset: u64,
    line: u64,
    source_len: u64,
    previous: Option<(u64, u64)>,
) -> Option<&'static str> {
    match bounds_fault(offset, line, source_len) {
        Some(fault) => Some(fault),
        None => match previous {
            Some((previous_offset, previous_line)) => if offset <= previous_offset {
                Some(RECORD_OFFSETS_NOT_INCREASING)
            } else if line < previous_line {
                Some(RECORD_LINES_INVALID)
            } else {
                None
            },
            None => None,
        },
    }
}

/// Whether a check passed, or failed with the fault.
pub open spec fn checked(result: Result<(), Error>, fault: Option<&'static str>) -> bool {
    match fault {
        None => result is Ok,
        Some(detail) => result matches Err(error) && malformed(error, detail),
    }
}

/// Fail when an entry is wrong by itself.
pub fn check_first_entry(offset: u64, line: u64, source_len: u64) -> (result: Result<(), Error>)
    ensures
        checked(result, bounds_fault(offset, line, source_len)),
{
    if offset >= source_len {
        return Err(malformed_index(RECORD_OFFSET_EXCEEDS_SOURCE));
    }
    if line == 0 {
        return Err(malformed_index(RECORD_LINES_INVALID));
    }
    Ok(())
}

/// Fail when an entry is wrong, or does not follow its predecessor.
pub fn check_entry(offset: u64, line: u64, source_len: u64, previous: Option<(u64, u64)>) -> (result:
    Result<(), Error>)
    ensures
        checked(result, entry_fault(offset, line, source_len, previous)),
{
    if let Err(error) = check_first_entry(offset, line, source_len) {
        return Err(error);
    }
    if let Some((previous_offset, previous_line)) = previous {
        if offset <= previous_offset {
            return Err(malformed_index(RECORD_OFFSETS_NOT_INCREASING));
        }
        if line < previous_line {
            return Err(malformed_index(RECORD_LINES_INVALID));
        }
    }
    Ok(())
}

/// The length of the header and `count` entries.
pub fn payload_len(count: u64) -> (result: Result<u64, Error>)
    ensures
        result is Ok == (count * 16 + 101 <= u64::MAX),
        result matches Ok(len) ==> len == count * 16 + 101,
        result matches Err(error) ==> malformed(error, INDEX_LENGTH_OVERFLOW),
{
    match count.checked_mul(16) {
        None => Err(malformed_index(INDEX_LENGTH_OVERFLOW)),
        Some(bytes) => match bytes.checked_add(FIXED_HEADER_BYTES as u64) {
            None => Err(malformed_index(INDEX_LENGTH_OVERFLOW)),
            Some(len) => Ok(len),
        },
    }
}

/// The bytes of a record ending.
pub open spec fn ending_bytes(ending: RecordEnding) -> Seq<u8> {
    match ending {
        RecordEnding::Newline => seq![0u8, 0u8],
        RecordEnding::Byte(byte) => seq![1u8, byte],
        RecordEnding::CrLf => seq![2u8, 0u8],
    }
}

/// The bytes of an escape.
pub open spec fn escape_bytes(escape: Escape) -> Seq<u8> {
    match escape {
        Escape::DoubleQuote => seq![0u8, 0u8],
        Escape::Backslash(byte) => seq![1u8, byte],
        Escape::Mysql => seq![2u8, 0u8],
        Escape::Unquoted(byte) => seq![3u8, byte],
    }
}

/// The bytes of a comment marker.
pub open spec fn comment_bytes(comment: Option<u8>) -> Seq<u8> {
    match comment {
        None => seq![0u8, 0u8],
        Some(byte) => seq![1u8, byte],
    }
}

/// The bytes of a syntax mode.
pub open spec fn syntax_bytes(syntax: Syntax) -> Seq<u8> {
    match syntax {
        Syntax::Strict => seq![0u8, 0u8],
        Syntax::Compatible(rules) => seq![1u8, rules.bits()],
    }
}

/// The bytes of a separator's tail.
pub open spec fn tail_bytes(tail: Tail) -> Seq<u8> {
    seq![tail.spec_len()] + tail.spec_bytes()
}

/// The code of a blank-record policy.
#[verifier::allow_in_spec]
pub fn blank_code(blank: BlankRecords) -> u8
    returns
        (match blank {
            BlankRecords::Preserve => 0u8,
            BlankRecords::Skip => 1u8,
        }),
{
    match blank {
        BlankRecords::Preserve => 0,
        BlankRecords::Skip => 1,
    }
}

/// The code of a reader's byte-order mark policy.
#[verifier::allow_in_spec]
pub fn read_bom_code(bom: ReadBom) -> u8
    returns
        (match bom {
            ReadBom::Detect => 0u8,
            ReadBom::Preserve => 1u8,
            ReadBom::Reject => 2u8,
        }),
{
    match bom {
        ReadBom::Detect => 0,
        ReadBom::Preserve => 1,
        ReadBom::Reject => 2,
    }
}

/// The code of a writer's byte-order mark policy.
#[verifier::allow_in_spec]
pub fn write_bom_code(bom: WriteBom) -> u8
    returns
        (match bom {
            WriteBom::Omit => 0u8,
            WriteBom::Emit => 1u8,
        }),
{
    match bom {
        WriteBom::Omit => 0,
        WriteBom::Emit => 1,
    }
}

/// The code of a NULL policy.
#[verifier::allow_in_spec]
pub fn nulls_code(nulls: Nulls) -> u8
    returns
        (match nulls {
            Nulls::Disabled => 0u8,
            Nulls::PostgresCsv => 1u8,
            Nulls::Mysql => 2u8,
        }),
{
    match nulls {
        Nulls::Disabled => 0,
        Nulls::PostgresCsv => 1,
        Nulls::Mysql => 2,
    }
}

/// The code of a quoting policy.
#[verifier::allow_in_spec]
pub fn quoting_code(quoting: Quoting) -> u8
    returns
        (match quoting {
            Quoting::Necessary => 0u8,
            Quoting::Always => 1u8,
            Quoting::Never => 2u8,
            Quoting::NonNumeric => 3u8,
            Quoting::Raw => 4u8,
        }),
{
    match quoting {
        Quoting::Necessary => 0,
        Quoting::Always => 1,
        Quoting::Never => 2,
        Quoting::NonNumeric => 3,
        Quoting::Raw => 4,
    }
}

/// The code of a choice.
#[verifier::allow_in_spec]
pub fn flag_code(flag: bool) -> u8
    returns
        (if flag {
            1u8
        } else {
            0u8
        }),
{
    if flag {
        1
    } else {
        0
    }
}

/// The bytes of the structural bytes of a dialect.
pub open spec fn dialect_bytes(dialect: Dialect) -> Seq<u8> {
    seq![dialect.delimiter, dialect.quote] + ending_bytes(dialect.record_ending) + escape_bytes(
        dialect.escape,
    ) + comment_bytes(dialect.comment)
}

/// The bytes of the policies of a format.
pub open spec fn policy_bytes(format: FormatOptions) -> Seq<u8> {
    seq![
        format.trim.bits(),
        blank_code(format.blank_records),
        read_bom_code(format.read_bom),
        write_bom_code(format.write_bom),
    ] + syntax_bytes(format.syntax) + seq![
        nulls_code(format.nulls),
        quoting_code(format.quoting),
        flag_code(format.skip_initial_space),
    ]
}

/// The bytes of a format.
pub open spec fn format_bytes(format: FormatOptions) -> Seq<u8> {
    dialect_bytes(format.dialect) + policy_bytes(format) + tail_bytes(
        format.dialect.delimiter_tail,
    ) + tail_bytes(format.dialect.ending_tail)
}

fn push_pair(output: &mut Vec<u8>, first: u8, second: u8)
    ensures
        final(output)@ == old(output)@ + seq![first, second],
{
    output.push(first);
    output.push(second);
    assert(output@ =~= old(output)@ + seq![first, second]);
}

fn push_all(output: &mut Vec<u8>, bytes: &[u8])
    ensures
        final(output)@ == old(output)@ + bytes@,
{
    output.extend_from_slice(bytes);
    assert(output@ =~= old(output)@ + bytes@);
}

fn push_tail(output: &mut Vec<u8>, tail: Tail)
    ensures
        final(output)@ == old(output)@ + tail_bytes(tail),
{
    let (len, bytes) = tail.parts();
    output.push(len);
    push_all(output, bytes.as_slice());
    assert(output@ =~= old(output)@ + tail_bytes(tail));
}

fn encode_dialect(output: &mut Vec<u8>, dialect: Dialect)
    ensures
        final(output)@ == old(output)@ + dialect_bytes(dialect),
{
    push_pair(output, dialect.delimiter, dialect.quote);
    match dialect.record_ending {
        RecordEnding::Newline => push_pair(output, 0, 0),
        RecordEnding::Byte(byte) => push_pair(output, 1, byte),
        RecordEnding::CrLf => push_pair(output, 2, 0),
    }
    match dialect.escape {
        Escape::DoubleQuote => push_pair(output, 0, 0),
        Escape::Backslash(byte) => push_pair(output, 1, byte),
        Escape::Mysql => push_pair(output, 2, 0),
        Escape::Unquoted(byte) => push_pair(output, 3, byte),
    }
    match dialect.comment {
        None => push_pair(output, 0, 0),
        Some(byte) => push_pair(output, 1, byte),
    }
    proof {
        assert(output@ =~= old(output)@ + dialect_bytes(dialect));
    }
}

fn push_policies(
    output: &mut Vec<u8>,
    reading: (u8, u8, u8, u8),
    syntax: (u8, u8),
    writing: (u8, u8, u8),
)
    ensures
        final(output)@ == old(output)@ + (seq![reading.0, reading.1, reading.2, reading.3] + seq![
            syntax.0,
            syntax.1,
        ] + seq![writing.0, writing.1, writing.2]),
{
    push_pair(output, reading.0, reading.1);
    push_pair(output, reading.2, reading.3);
    push_pair(output, syntax.0, syntax.1);
    push_pair(output, writing.0, writing.1);
    output.push(writing.2);
    assert(output@ =~= old(output)@ + (seq![reading.0, reading.1, reading.2, reading.3] + seq![
        syntax.0,
        syntax.1,
    ] + seq![writing.0, writing.1, writing.2]));
}

fn encode_policies(output: &mut Vec<u8>, format: FormatOptions)
    ensures
        final(output)@ == old(output)@ + policy_bytes(format),
{
    let reading = (
        format.trim.bits(),
        blank_code(format.blank_records),
        read_bom_code(format.read_bom),
        write_bom_code(format.write_bom),
    );
    let syntax = match format.syntax {
        Syntax::Strict => (0u8, 0u8),
        Syntax::Compatible(rules) => (1u8, rules.bits()),
    };
    let writing = (
        nulls_code(format.nulls),
        quoting_code(format.quoting),
        flag_code(format.skip_initial_space),
    );
    push_policies(output, reading, syntax, writing);
}

/// Write a format.
pub fn encode_format(output: &mut Vec<u8>, format: FormatOptions)
    ensures
        final(output)@ == old(output)@ + format_bytes(format),
        format_bytes(format).len() == FORMAT_BYTES,
{
    encode_dialect(output, format.dialect);
    encode_policies(output, format);
    push_tail(output, format.dialect.delimiter_tail);
    push_tail(output, format.dialect.ending_tail);
    proof {
        lemma_format_bytes_len(format);
        assert(output@ =~= old(output)@ + format_bytes(format));
    }
}

/// An encoded format has a fixed length.
pub proof fn lemma_format_bytes_len(format: FormatOptions)
    ensures
        format_bytes(format).len() == FORMAT_BYTES,
        format.dialect.delimiter_tail.spec_bytes().len() == 7,
        format.dialect.ending_tail.spec_bytes().len() == 7,
{
    format.dialect.delimiter_tail.lemma_bytes_len();
    format.dialect.ending_tail.lemma_bytes_len();
}

/// The record ending that two bytes stand for.
pub open spec fn ending_of(code: u8, byte: u8) -> Option<RecordEnding> {
    if code == 0 {
        Some(RecordEnding::Newline)
    } else if code == 1 {
        Some(RecordEnding::Byte(byte))
    } else if code == 2 {
        Some(RecordEnding::CrLf)
    } else {
        None
    }
}

/// The escape that two bytes stand for.
pub open spec fn escape_of(code: u8, byte: u8) -> Option<Escape> {
    if code == 0 {
        Some(Escape::DoubleQuote)
    } else if code == 1 {
        Some(Escape::Backslash(byte))
    } else if code == 2 {
        Some(Escape::Mysql)
    } else if code == 3 {
        Some(Escape::Unquoted(byte))
    } else {
        None
    }
}

/// The comment marker that two bytes stand for.
pub open spec fn comment_of(code: u8, byte: u8) -> Option<Option<u8>> {
    if code == 0 {
        Some(None)
    } else if code == 1 {
        Some(Some(byte))
    } else {
        None
    }
}

/// The blank-record policy that a code stands for.
pub open spec fn blank_of(code: u8) -> Option<BlankRecords> {
    if code == 0 {
        Some(BlankRecords::Preserve)
    } else if code == 1 {
        Some(BlankRecords::Skip)
    } else {
        None
    }
}

/// The reader's byte-order mark policy that a code stands for.
pub open spec fn read_bom_of(code: u8) -> Option<ReadBom> {
    if code == 0 {
        Some(ReadBom::Detect)
    } else if code == 1 {
        Some(ReadBom::Preserve)
    } else if code == 2 {
        Some(ReadBom::Reject)
    } else {
        None
    }
}

/// The writer's byte-order mark policy that a code stands for.
pub open spec fn write_bom_of(code: u8) -> Option<WriteBom> {
    if code == 0 {
        Some(WriteBom::Omit)
    } else if code == 1 {
        Some(WriteBom::Emit)
    } else {
        None
    }
}

/// The NULL policy that a code stands for.
pub open spec fn nulls_of(code: u8) -> Option<Nulls> {
    if code == 0 {
        Some(Nulls::Disabled)
    } else if code == 1 {
        Some(Nulls::PostgresCsv)
    } else if code == 2 {
        Some(Nulls::Mysql)
    } else {
        None
    }
}

/// The quoting policy that a code stands for.
pub open spec fn quoting_of(code: u8) -> Option<Quoting> {
    if code == 0 {
        Some(Quoting::Necessary)
    } else if code == 1 {
        Some(Quoting::Always)
    } else if code == 2 {
        Some(Quoting::Never)
    } else if code == 3 {
        Some(Quoting::NonNumeric)
    } else if code == 4 {
        Some(Quoting::Raw)
    } else {
        None
    }
}

/// The syntax mode that two bytes stand for.
pub open spec fn syntax_of(code: u8, rules: u8) -> Option<Syntax> {
    if code == 0 {
        Some(Syntax::Strict)
    } else if code == 1 {
        match Recovery::from_bits(rules) {
            Some(recovery) => Some(Syntax::Compatible(recovery)),
            None => None,
        }
    } else {
        None
    }
}

/// Why stored bytes are refused.
pub enum Fault {
    /// They are malformed, in the way that the sentence says.
    Malformed(&'static str),
    /// They describe a dialect that has no single reading.
    Ambiguous,
}

/// Whether an error is that of a fault.
pub open spec fn faulty(error: Error, fault: Fault) -> bool {
    match fault {
        Fault::Malformed(detail) => malformed(error, detail),
        Fault::Ambiguous => error.spec_kind() == ErrorKind::Configuration,
    }
}

/// The dialect that stored bytes stand for, once they are known to be right.
pub open spec fn dialect_of(bytes: Seq<u8>) -> Dialect {
    Dialect {
        delimiter: bytes[0],
        quote: bytes[1],
        record_ending: ending_of(bytes[2], bytes[3])->0,
        escape: escape_of(bytes[4], bytes[5])->0,
        comment: comment_of(bytes[6], bytes[7])->0,
        delimiter_tail: Tail::of(bytes[17], bytes.subrange(18, 25)),
        ending_tail: Tail::of(bytes[25], bytes.subrange(26, 33)),
    }
}

/// What is wrong with the stored bytes of a dialect, its tails apart.
pub open spec fn dialect_fault(bytes: Seq<u8>) -> Option<Fault> {
    if ending_of(bytes[2], bytes[3]) is None {
        Some(Fault::Malformed("unknown record_ending encoding"))
    } else if escape_of(bytes[4], bytes[5]) is None {
        Some(Fault::Malformed("unknown escape encoding"))
    } else if comment_of(bytes[6], bytes[7]) is None {
        Some(Fault::Malformed("unknown comment encoding"))
    } else if !dialect_of(bytes).separators_distinct() || !dialect_of(bytes).comment_distinct() {
        Some(Fault::Ambiguous)
    } else {
        None
    }
}

/// What is wrong with the stored bytes of a format's policies.
pub open spec fn policy_fault(bytes: Seq<u8>) -> Option<Fault> {
    if Whitespace::from_bits(bytes[8]) is None {
        Some(Fault::Malformed("unknown trim encoding"))
    } else if blank_of(bytes[9]) is None {
        Some(Fault::Malformed("unknown blank-record encoding"))
    } else if read_bom_of(bytes[10]) is None {
        Some(Fault::Malformed("unknown read BOM encoding"))
    } else if write_bom_of(bytes[11]) is None {
        Some(Fault::Malformed("unknown write BOM encoding"))
    } else if bytes[12] == 1 && Recovery::from_bits(bytes[13]) is None {
        Some(Fault::Malformed("unknown recovery rule encoding"))
    } else if syntax_of(bytes[12], bytes[13]) is None {
        Some(Fault::Malformed("unknown syntax mode encoding"))
    } else if nulls_of(bytes[14]) is None {
        Some(Fault::Malformed("unknown NULL policy encoding"))
    } else if quoting_of(bytes[15]) is None {
        Some(Fault::Malformed("unknown quote policy encoding"))
    } else if bytes[16] > 1 {
        Some(Fault::Malformed("unknown initial-space encoding"))
    } else {
        None
    }
}

/// What is wrong with the stored bytes of a format.
pub open spec fn format_fault(bytes: Seq<u8>) -> Option<Fault> {
    match dialect_fault(bytes) {
        Some(fault) => Some(fault),
        None => match policy_fault(bytes) {
            Some(fault) => Some(fault),
            None => if bytes[17] > Tail::MAX || bytes[25] > Tail::MAX {
                Some(Fault::Ambiguous)
            } else {
                None
            },
        },
    }
}

/// The format that stored bytes stand for, once they are known to be right.
pub open spec fn format_of(bytes: Seq<u8>) -> FormatOptions {
    FormatOptions {
        dialect: dialect_of(bytes),
        trim: Whitespace::from_bits(bytes[8])->0,
        blank_records: blank_of(bytes[9])->0,
        read_bom: read_bom_of(bytes[10])->0,
        write_bom: write_bom_of(bytes[11])->0,
        syntax: syntax_of(bytes[12], bytes[13])->0,
        nulls: nulls_of(bytes[14])->0,
        quoting: quoting_of(bytes[15])->0,
        skip_initial_space: bytes[16] == 1,
        tag: FormatTag::Custom,
    }
}

fn decode_dialect(bytes: &[u8]) -> (result: Result<Dialect, Error>)
    requires
        bytes@.len() == FORMAT_BYTES,
    ensures
        match dialect_fault(bytes@) {
            Some(fault) => result matches Err(error) && faulty(error, fault),
            None => {
                &&& result matches Ok(dialect) && dialect == (Dialect {
                    delimiter_tail: dialect.delimiter_tail,
                    ending_tail: dialect.ending_tail,
                    ..dialect_of(bytes@)
                }) && dialect.valid()
            },
        },
{
    let record_ending = if bytes[2] == 0 {
        RecordEnding::Newline
    } else if bytes[2] == 1 {
        RecordEnding::Byte(bytes[3])
    } else if bytes[2] == 2 {
        RecordEnding::CrLf
    } else {
        return Err(malformed_index("unknown record_ending encoding"));
    };
    let escape = if bytes[4] == 0 {
        Escape::DoubleQuote
    } else if bytes[4] == 1 {
        Escape::Backslash(bytes[5])
    } else if bytes[4] == 2 {
        Escape::Mysql
    } else if bytes[4] == 3 {
        Escape::Unquoted(bytes[5])
    } else {
        return Err(malformed_index("unknown escape encoding"));
    };
    if bytes[6] > 1 {
        return Err(malformed_index("unknown comment encoding"));
    }
    match Dialect::new(bytes[0], bytes[1], record_ending, escape) {
        Err(error) => Err(error),
        Ok(dialect) => if bytes[6] == 0 {
            Ok(dialect)
        } else {
            dialect.with_comment(bytes[7])
        },
    }
}

fn decode_tail(bytes: &[u8], at: usize) -> (tail: Tail)
    requires
        at + 8 <= bytes@.len(),
        at + 8 <= usize::MAX,
    ensures
        tail == Tail::of(bytes@[at as int], bytes@.subrange(at + 1, at + 8)),
        tail.spec_len() == bytes@[at as int],
{
    let stored = [
        bytes[at + 1],
        bytes[at + 2],
        bytes[at + 3],
        bytes[at + 4],
        bytes[at + 5],
        bytes[at + 6],
        bytes[at + 7],
    ];
    assert(stored@ =~= bytes@.subrange(at + 1, at + 8));
    Tail::from_parts(bytes[at], stored)
}

/// The format without its dialect that stored bytes stand for.
fn decode_policies(bytes: &[u8], dialect: Dialect) -> (result: Result<FormatOptions, Error>)
    requires
        bytes@.len() == FORMAT_BYTES,
    ensures
        match policy_fault(bytes@) {
            Some(fault) => result matches Err(error) && faulty(error, fault),
            None => result matches Ok(format) && format == (FormatOptions {
                dialect,
                ..format_of(bytes@)
            }),
        },
{
    let trim = match Whitespace::from_bits(bytes[8]) {
        Some(trim) => trim,
        None => {
            return Err(malformed_index("unknown trim encoding"));
        },
    };
    let blank_records = if bytes[9] == 0 {
        BlankRecords::Preserve
    } else if bytes[9] == 1 {
        BlankRecords::Skip
    } else {
        return Err(malformed_index("unknown blank-record encoding"));
    };
    let read_bom = if bytes[10] == 0 {
        ReadBom::Detect
    } else if bytes[10] == 1 {
        ReadBom::Preserve
    } else if bytes[10] == 2 {
        ReadBom::Reject
    } else {
        return Err(malformed_index("unknown read BOM encoding"));
    };
    let write_bom = if bytes[11] == 0 {
        WriteBom::Omit
    } else if bytes[11] == 1 {
        WriteBom::Emit
    } else {
        return Err(malformed_index("unknown write BOM encoding"));
    };
    let syntax = if bytes[12] == 0 {
        Syntax::Strict
    } else if bytes[12] == 1 {
        match Recovery::from_bits(bytes[13]) {
            Some(rules) => Syntax::Compatible(rules),
            None => {
                return Err(malformed_index("unknown recovery rule encoding"));
            },
        }
    } else {
        return Err(malformed_index("unknown syntax mode encoding"));
    };
    let nulls = if bytes[14] == 0 {
        Nulls::Disabled
    } else if bytes[14] == 1 {
        Nulls::PostgresCsv
    } else if bytes[14] == 2 {
        Nulls::Mysql
    } else {
        return Err(malformed_index("unknown NULL policy encoding"));
    };
    let quoting = if bytes[15] == 0 {
        Quoting::Necessary
    } else if bytes[15] == 1 {
        Quoting::Always
    } else if bytes[15] == 2 {
        Quoting::Never
    } else if bytes[15] == 3 {
        Quoting::NonNumeric
    } else if bytes[15] == 4 {
        Quoting::Raw
    } else {
        return Err(malformed_index("unknown quote policy encoding"));
    };
    if bytes[16] > 1 {
        return Err(malformed_index("unknown initial-space encoding"));
    }
    let skip_initial_space = bytes[16] == 1;
    Ok(
        FormatOptions {
            dialect,
            trim,
            blank_records,
            read_bom,
            write_bom,
            syntax,
            nulls,
            quoting,
            skip_initial_space,
            tag: FormatTag::Custom,
        },
    )
}

/// Read a format.
pub fn decode_format(bytes: &[u8]) -> (result: Result<FormatOptions, Error>)
    requires
        bytes@.len() == FORMAT_BYTES,
    ensures
        match format_fault(bytes@) {
            Some(fault) => result matches Err(error) && faulty(error, fault),
            None => result == Ok::<FormatOptions, Error>(format_of(bytes@)) && format_of(
                bytes@,
            ).dialect.valid(),
        },
{
    let dialect = match decode_dialect(bytes) {
        Ok(dialect) => dialect,
        Err(error) => {
            return Err(error);
        },
    };
    let format = match decode_policies(bytes, dialect) {
        Ok(format) => format,
        Err(error) => {
            return Err(error);
        },
    };
    match dialect.with_tails(decode_tail(bytes, 17), decode_tail(bytes, 25)) {
        Ok(dialect) => Ok(FormatOptions { dialect, ..format }),
        Err(error) => Err(error),
    }
}

/// A position in stored bytes.
pub struct Cursor<'bytes> {
    bytes: &'bytes [u8],
    location: usize,
}

impl<'bytes> Cursor<'bytes> {
    /// The stored bytes.
    pub closed spec fn all(self) -> Seq<u8> {
        self.bytes@
    }

    /// The position.
    pub closed spec fn position(self) -> int {
        self.location as int
    }

    /// Whether a read of `len` bytes did what it should.
    pub open spec fn took(self, len: int, after: Cursor<'bytes>) -> bool {
        &&& after.all() == self.all()
        &&& after.position() == (if self.position() + len <= self.all().len() {
            self.position() + len
        } else {
            self.position()
        })
    }

    /// The start of stored bytes.
    pub fn new(bytes: &'bytes [u8]) -> (cursor: Cursor<'bytes>)
        ensures
            cursor.all() == bytes@,
            cursor.position() == 0,
    {
        Cursor { bytes, location: 0 }
    }

    /// Read `len` bytes.
    pub fn take(&mut self, len: usize) -> (result: Result<&'bytes [u8], Error>)
        ensures
            old(self).took(len as int, *final(self)),
            result is Ok == (old(self).position() + len <= old(self).all().len()),
            result matches Ok(bytes) ==> bytes@ == old(self).all().subrange(
                old(self).position(),
                old(self).position() + len,
            ),
            result matches Err(error) ==> malformed(
                error,
                if old(self).position() + len > usize::MAX {
                    INDEX_CURSOR_OVERFLOW
                } else {
                    INDEX_TRUNCATED
                },
            ),
    {
        let start: usize = self.location;
        match start.checked_add(len) {
            None => {
                assert(self.bytes@.len() == self.bytes.len());
                Err(malformed_index(INDEX_CURSOR_OVERFLOW))
            },
            Some(end) => {
                if end > self.bytes.len() {
                    return Err(malformed_index(INDEX_TRUNCATED));
                }
                let bytes = self.bytes;
                self.location = end;
                Ok(&bytes[start..end])
            },
        }
    }

    /// Read one byte.
    pub fn byte(&mut self) -> (result: Result<u8, Error>)
        ensures
            old(self).took(1, *final(self)),
            result is Ok == (old(self).position() + 1 <= old(self).all().len()),
            result matches Ok(byte) ==> byte == old(self).all()[old(self).position()],
            result matches Err(error) ==> error.spec_kind() == ErrorKind::InvalidIndex,
    {
        match self.take(1) {
            Ok(bytes) => Ok(bytes[0]),
            Err(error) => Err(error),
        }
    }

    /// Read a number of four bytes.
    pub fn u32(&mut self) -> (result: Result<u32, Error>)
        ensures
            old(self).took(4, *final(self)),
            result is Ok == (old(self).position() + 4 <= old(self).all().len()),
            result matches Ok(number) ==> number == spec_u32_from_le_bytes(
                old(self).all().subrange(old(self).position(), old(self).position() + 4),
            ),
            result matches Err(error) ==> error.spec_kind() == ErrorKind::InvalidIndex,
    {
        match self.take(4) {
            Ok(bytes) => Ok(u32_from_le_bytes(bytes)),
            Err(error) => Err(error),
        }
    }

    /// Read a number of eight bytes.
    pub fn u64(&mut self) -> (result: Result<u64, Error>)
        ensures
            old(self).took(8, *final(self)),
            result is Ok == (old(self).position() + 8 <= old(self).all().len()),
            result matches Ok(number) ==> number == spec_u64_from_le_bytes(
                old(self).all().subrange(old(self).position(), old(self).position() + 8),
            ),
            result matches Err(error) ==> error.spec_kind() == ErrorKind::InvalidIndex,
    {
        match self.take(8) {
            Ok(bytes) => Ok(u64_from_le_bytes(bytes)),
            Err(error) => Err(error),
        }
    }

    /// Read a hash.
    pub fn array_16(&mut self) -> (result: Result<u128, Error>)
        ensures
            old(self).took(16, *final(self)),
            result is Ok == (old(self).position() + 16 <= old(self).all().len()),
            result matches Ok(number) ==> number == spec_u128_from_le_bytes(
                old(self).all().subrange(old(self).position(), old(self).position() + 16),
            ),
            result matches Err(error) ==> error.spec_kind() == ErrorKind::InvalidIndex,
    {
        match self.take(HASH_BYTES) {
            Ok(bytes) => Ok(u128_from_le_bytes(bytes)),
            Err(error) => Err(error),
        }
    }
}

/// What the header of an index says.
#[derive(Clone, Copy, Debug)]
pub struct IndexHeader {
    /// The version of the byte form.
    pub version: u32,
    /// The length of the source.
    pub source_len: u64,
    /// The hash of the source.
    pub source_hash: u128,
    /// The format of the source.
    pub format: FormatOptions,
    /// The limits that the source was read under.
    pub limits: Limits,
    /// The number of records.
    pub count: u64,
}

/// The bytes of a header of the current version.
pub open spec fn header_bytes(
    source_len: u64,
    source_hash: u128,
    format: FormatOptions,
    limits: Limits,
    count: u64,
) -> Seq<u8> {
    (magic() + spec_u32_to_le_bytes(VERSION) + spec_u64_to_le_bytes(source_len)
        + spec_u128_to_le_bytes(source_hash)) + format_bytes(format) + (spec_u64_to_le_bytes(
        limits.max_record_bytes as u64,
    ) + spec_u64_to_le_bytes(limits.max_field_bytes as u64) + spec_u64_to_le_bytes(
        limits.max_fields as u64,
    ) + spec_u64_to_le_bytes(count))
}

/// Write a header of the current version.
pub fn encode_header(
    source_len: u64,
    source_hash: u128,
    format: FormatOptions,
    limits: Limits,
    count: u64,
) -> (output: Vec<u8>)
    ensures
        output@ == header_bytes(source_len, source_hash, format, limits, count),
        output@.len() == FIXED_HEADER_BYTES,
{
    let mut output: Vec<u8> = Vec::with_capacity(FIXED_HEADER_BYTES);
    push_magic(&mut output);
    push_all(&mut output, u32_to_le_bytes(VERSION).as_slice());
    push_all(&mut output, u64_to_le_bytes(source_len).as_slice());
    push_all(&mut output, u128_to_le_bytes(source_hash).as_slice());
    let ghost first = output@;
    encode_format(&mut output, format);
    let mut sizes: Vec<u8> = Vec::new();
    push_all(&mut sizes, u64_to_le_bytes(limits.max_record_bytes as u64).as_slice());
    push_all(&mut sizes, u64_to_le_bytes(limits.max_field_bytes as u64).as_slice());
    push_all(&mut sizes, u64_to_le_bytes(limits.max_fields as u64).as_slice());
    push_all(&mut sizes, u64_to_le_bytes(count).as_slice());
    push_all(&mut output, sizes.as_slice());
    proof {
        lemma_auto_spec_u32_to_from_le_bytes();
        lemma_auto_spec_u64_to_from_le_bytes();
        lemma_auto_spec_u128_to_from_le_bytes();
        assert(first =~= magic() + spec_u32_to_le_bytes(VERSION) + spec_u64_to_le_bytes(source_len)
            + spec_u128_to_le_bytes(source_hash));
        assert(sizes@ =~= spec_u64_to_le_bytes(limits.max_record_bytes as u64)
            + spec_u64_to_le_bytes(limits.max_field_bytes as u64) + spec_u64_to_le_bytes(
            limits.max_fields as u64,
        ) + spec_u64_to_le_bytes(count));
    }
    output
}

/// The number that eight stored bytes stand for.
pub open spec fn number_at(bytes: Seq<u8>, at: int) -> u64 {
    spec_u64_from_le_bytes(bytes.subrange(at, at + 8))
}

/// The version in a header.
pub open spec fn version_in(bytes: Seq<u8>) -> u32 {
    spec_u32_from_le_bytes(bytes.subrange(8, 12))
}

/// What is wrong with a stored header.
pub open spec fn header_fault(bytes: Seq<u8>) -> Option<Fault> {
    if bytes.subrange(0, 8) != magic() {
        Some(Fault::Malformed(INDEX_MAGIC_MISMATCH))
    } else if version_in(bytes) < MIN_VERSION || version_in(bytes) > VERSION {
        Some(Fault::Malformed(UNSUPPORTED_INDEX_VERSION))
    } else {
        match format_fault(bytes.subrange(36, 69)) {
            Some(fault) => Some(fault),
            None => if number_at(bytes, 69) > usize::MAX {
                Some(Fault::Malformed(RECORD_LIMIT_NOT_USIZE))
            } else if number_at(bytes, 77) > usize::MAX {
                Some(Fault::Malformed(FIELD_LIMIT_NOT_USIZE))
            } else if number_at(bytes, 85) > usize::MAX {
                Some(Fault::Malformed(FIELD_COUNT_LIMIT_NOT_USIZE))
            } else {
                None
            },
        }
    }
}

/// The header that stored bytes stand for, once they are known to be right.
pub open spec fn header_of(bytes: Seq<u8>) -> IndexHeader {
    IndexHeader {
        version: version_in(bytes),
        source_len: number_at(bytes, 12),
        source_hash: spec_u128_from_le_bytes(bytes.subrange(20, 36)),
        format: format_of(bytes.subrange(36, 69)),
        limits: Limits {
            max_record_bytes: number_at(bytes, 69) as usize,
            max_field_bytes: number_at(bytes, 77) as usize,
            max_fields: number_at(bytes, 85) as usize,
        },
        count: number_at(bytes, 93),
    }
}

fn decode_limits(cursor: &mut Cursor<'_>) -> (result: Result<Limits, Error>)
    requires
        old(cursor).position() == 69,
        old(cursor).all().len() == FIXED_HEADER_BYTES,
    ensures
        final(cursor).all() == old(cursor).all(),
        result is Ok ==> final(cursor).position() == 93,
        ({
            let bytes = old(cursor).all();
            if number_at(bytes, 69) > usize::MAX {
                result matches Err(error) && malformed(error, RECORD_LIMIT_NOT_USIZE)
            } else if number_at(bytes, 77) > usize::MAX {
                result matches Err(error) && malformed(error, FIELD_LIMIT_NOT_USIZE)
            } else if number_at(bytes, 85) > usize::MAX {
                result matches Err(error) && malformed(error, FIELD_COUNT_LIMIT_NOT_USIZE)
            } else {
                result == Ok::<Limits, Error>(header_of(bytes).limits)
            }
        }),
{
    let record = match cursor.u64() {
        Ok(number) => narrow(number, RECORD_LIMIT_NOT_USIZE),
        Err(error) => Err(error),
    };
    let max_record_bytes: usize = match record {
        Ok(limit) => limit,
        Err(error) => {
            return Err(error);
        },
    };
    let field = match cursor.u64() {
        Ok(number) => narrow(number, FIELD_LIMIT_NOT_USIZE),
        Err(error) => Err(error),
    };
    let max_field_bytes: usize = match field {
        Ok(limit) => limit,
        Err(error) => {
            return Err(error);
        },
    };
    let fields = match cursor.u64() {
        Ok(number) => narrow(number, FIELD_COUNT_LIMIT_NOT_USIZE),
        Err(error) => Err(error),
    };
    match fields {
        Ok(max_fields) => Ok(Limits::new(max_record_bytes, max_field_bytes, max_fields)),
        Err(error) => Err(error),
    }
}

/// Read a header.
pub fn decode_header(header: &[u8]) -> (result: Result<IndexHeader, Error>)
    requires
        header@.len() == FIXED_HEADER_BYTES,
    ensures
        match header_fault(header@) {
            Some(fault) => result matches Err(error) && faulty(error, fault),
            None => result == Ok::<IndexHeader, Error>(header_of(header@)) && header_of(
                header@,
            ).format.dialect.valid(),
        },
{
    let mut cursor = Cursor::new(header);
    match cursor.take(8) {
        Ok(bytes) => {
            if !is_magic(bytes) {
                return Err(malformed_index(INDEX_MAGIC_MISMATCH));
            }
        },
        Err(error) => {
            return Err(error);
        },
    }
    let version: u32 = match cursor.u32() {
        Ok(version) => version,
        Err(error) => {
            return Err(error);
        },
    };
    if version < MIN_VERSION || version > VERSION {
        return Err(malformed_index(UNSUPPORTED_INDEX_VERSION));
    }
    let source_len: u64 = match cursor.u64() {
        Ok(len) => len,
        Err(error) => {
            return Err(error);
        },
    };
    let source_hash: u128 = match cursor.array_16() {
        Ok(hash) => hash,
        Err(error) => {
            return Err(error);
        },
    };
    let format = match cursor.take(FORMAT_BYTES) {
        Ok(bytes) => decode_format(bytes),
        Err(error) => Err(error),
    };
    let format = match format {
        Ok(format) => format,
        Err(error) => {
            return Err(error);
        },
    };
    let limits = match decode_limits(&mut cursor) {
        Ok(limits) => limits,
        Err(error) => {
            return Err(error);
        },
    };
    match cursor.u64() {
        Ok(count) => Ok(
            IndexHeader { version, source_len, source_hash, format, limits, count },
        ),
        Err(error) => Err(error),
    }
}

proof fn lemma_recovery_bits(rules: Recovery)
    ensures
        Recovery::from_bits(rules.bits()) == Some(rules),
{
}

/// A format that was written is read back; only where it came from is forgotten.
pub proof fn law_a_written_format_is_read_back(format: FormatOptions)
    requires
        format.dialect.valid(),
    ensures
        format_fault(format_bytes(format)) is None,
        format_of(format_bytes(format)) == (FormatOptions { tag: FormatTag::Custom, ..format }),
{
    let bytes = format_bytes(format);
    let dialect = format.dialect;
    let head = dialect_bytes(dialect);
    let policies = policy_bytes(format);
    lemma_format_bytes_len(format);
    assert(head.len() == 8);
    assert(policies.len() == 9);
    assert(forall|i: int| 0 <= i < 8 ==> bytes[i] == head[i]);
    assert(forall|i: int| 8 <= i < 17 ==> bytes[i] == policies[i - 8]);
    assert(head[0] == dialect.delimiter && head[1] == dialect.quote);
    assert(head[2] == ending_bytes(dialect.record_ending)[0]);
    assert(head[3] == ending_bytes(dialect.record_ending)[1]);
    assert(head[4] == escape_bytes(dialect.escape)[0]);
    assert(head[5] == escape_bytes(dialect.escape)[1]);
    assert(head[6] == comment_bytes(dialect.comment)[0]);
    assert(head[7] == comment_bytes(dialect.comment)[1]);
    assert(bytes[8] == format.trim.bits());
    assert(bytes[9] == blank_code(format.blank_records));
    assert(bytes[10] == read_bom_code(format.read_bom));
    assert(bytes[11] == write_bom_code(format.write_bom));
    assert(bytes[12] == syntax_bytes(format.syntax)[0]);
    assert(bytes[13] == syntax_bytes(format.syntax)[1]);
    assert(bytes[14] == nulls_code(format.nulls));
    assert(bytes[15] == quoting_code(format.quoting));
    assert(bytes[16] == flag_code(format.skip_initial_space));
    assert(bytes[17] == dialect.delimiter_tail.spec_len());
    assert(bytes.subrange(18, 25) =~= dialect.delimiter_tail.spec_bytes());
    assert(bytes[25] == dialect.ending_tail.spec_len());
    assert(bytes.subrange(26, 33) =~= dialect.ending_tail.spec_bytes());
    Tail::lemma_of_parts(bytes[17], bytes.subrange(18, 25));
    Tail::lemma_of_parts(bytes[25], bytes.subrange(26, 33));
    Tail::of(bytes[17], bytes.subrange(18, 25)).lemma_parts_determine(dialect.delimiter_tail);
    Tail::of(bytes[25], bytes.subrange(26, 33)).lemma_parts_determine(dialect.ending_tail);
    if let Syntax::Compatible(rules) = format.syntax {
        lemma_recovery_bits(rules);
    }
    assert(dialect_of(bytes) == dialect);
    assert(Whitespace::from_bits(format.trim.bits()) == Some(format.trim));
    assert(syntax_of(bytes[12], bytes[13]) == Some(format.syntax));
}

/// A header that was written is read back.
pub proof fn law_a_written_header_is_read_back(
    source_len: u64,
    source_hash: u128,
    format: FormatOptions,
    limits: Limits,
    count: u64,
)
    requires
        format.dialect.valid(),
    ensures
        header_bytes(source_len, source_hash, format, limits, count).len() == FIXED_HEADER_BYTES,
        header_fault(header_bytes(source_len, source_hash, format, limits, count)) is None,
        header_of(header_bytes(source_len, source_hash, format, limits, count)) == (IndexHeader {
            version: VERSION,
            source_len,
            source_hash,
            format: FormatOptions { tag: FormatTag::Custom, ..format },
            limits,
            count,
        }),
{
    lemma_auto_spec_u32_to_from_le_bytes();
    lemma_auto_spec_u64_to_from_le_bytes();
    lemma_auto_spec_u128_to_from_le_bytes();
    law_a_written_format_is_read_back(format);
    lemma_format_bytes_len(format);
    let bytes = header_bytes(source_len, source_hash, format, limits, count);
    assert(bytes.subrange(0, 8) =~= magic());
    assert(bytes.subrange(8, 12) =~= spec_u32_to_le_bytes(VERSION));
    assert(bytes.subrange(12, 20) =~= spec_u64_to_le_bytes(source_len));
    assert(bytes.subrange(20, 36) =~= spec_u128_to_le_bytes(source_hash));
    assert(bytes.subrange(36, 69) =~= format_bytes(format));
    assert(bytes.subrange(69, 77) =~= spec_u64_to_le_bytes(limits.max_record_bytes as u64));
    assert(bytes.subrange(77, 85) =~= spec_u64_to_le_bytes(limits.max_field_bytes as u64));
    assert(bytes.subrange(85, 93) =~= spec_u64_to_le_bytes(limits.max_fields as u64));
    assert(bytes.subrange(93, 101) =~= spec_u64_to_le_bytes(count));
}

} // verus!
