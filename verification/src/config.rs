//! Formats, limits and options.

use vstd::prelude::*;

use crate::ascii::{BACKSLASH, COMMA, CR, LF, QUOTE};
use crate::error::{Error, ErrorKind};

verus! {

/// Bounds on what a parser accepts.
#[derive(Clone, Copy, Debug, PartialEq, Eq, Structural)]
pub struct Limits {
    /// Longest record in bytes, its terminator counted.
    pub max_record_bytes: usize,
    /// Longest field in raw bytes, the enclosing quotes not counted.
    pub max_field_bytes: usize,
    /// Most fields in a record.
    pub max_fields: usize,
}

impl Limits {
    /// Limits from their three values.
    #[verifier::allow_in_spec]
    pub fn new(max_record_bytes: usize, max_field_bytes: usize, max_fields: usize) -> Limits
        returns
            (Limits { max_record_bytes, max_field_bytes, max_fields }),
    {
        Limits { max_record_bytes, max_field_bytes, max_fields }
    }

    /// The limits that apply unless others are given.
    #[verifier::allow_in_spec]
    pub fn standard() -> Limits
        returns
            (Limits {
                max_record_bytes: 16_777_216,
                max_field_bytes: 1_048_576,
                max_fields: 65_536,
            }),
    {
        Limits { max_record_bytes: 16_777_216, max_field_bytes: 1_048_576, max_fields: 65_536 }
    }
}

impl Default for Limits {
    fn default() -> (limits: Limits)
        ensures
            limits == Limits::standard(),
    {
        Limits::standard()
    }
}

/// What ends a record.
#[derive(Clone, Copy, Debug, PartialEq, Eq, Structural)]
pub enum RecordEnding {
    /// A line feed, or a carriage return and a line feed.
    Newline,
    /// One chosen byte.
    Byte(u8),
    /// A carriage return and a line feed, and nothing else.
    CrLf,
}

impl RecordEnding {
    /// The last byte of the ending.
    #[verifier::allow_in_spec]
    pub fn byte(self) -> u8
        returns
            (match self {
                RecordEnding::Newline => LF,
                RecordEnding::Byte(byte) => byte,
                RecordEnding::CrLf => LF,
            }),
    {
        match self {
            RecordEnding::Newline => LF,
            RecordEnding::Byte(byte) => byte,
            RecordEnding::CrLf => LF,
        }
    }

    /// Whether `byte` is one of the bytes of this ending.
    pub open spec fn contains(self, byte: u8) -> bool {
        byte == self.byte() || (self.is_newline() && byte == CR)
    }

    /// Whether a carriage return is structural next to this ending.
    #[verifier::allow_in_spec]
    pub fn is_newline(self) -> bool
        returns
            !(self is Byte),
    {
        match self {
            RecordEnding::Byte(_) => false,
            _ => true,
        }
    }
}

/// How a structural byte is written inside a field.
#[derive(Clone, Copy, Debug, PartialEq, Eq, Structural)]
pub enum Escape {
    /// A quote inside a quoted field is written twice.
    DoubleQuote,
    /// A quote inside a quoted field follows this byte.
    Backslash(u8),
    /// MySQL's letter-coded escapes, in fields that are never quoted.
    Mysql,
    /// This byte precedes every structural byte, in fields that are never quoted.
    Unquoted(u8),
}

impl Escape {
    /// The escape byte of a format that never quotes.
    #[verifier::allow_in_spec]
    pub fn unquoted_byte(self) -> Option<u8>
        returns
            (match self {
                Escape::Mysql => Some(BACKSLASH),
                Escape::Unquoted(byte) => Some(byte),
                _ => None,
            }),
    {
        match self {
            Escape::Mysql => Some(BACKSLASH),
            Escape::Unquoted(byte) => Some(byte),
            _ => None,
        }
    }

    /// The escape byte, where there is one.
    #[verifier::allow_in_spec]
    pub fn byte(self) -> Option<u8>
        returns
            (match self {
                Escape::DoubleQuote => None,
                Escape::Backslash(byte) => Some(byte),
                Escape::Mysql => Some(BACKSLASH),
                Escape::Unquoted(byte) => Some(byte),
            }),
    {
        match self {
            Escape::DoubleQuote => None,
            Escape::Backslash(byte) => Some(byte),
            Escape::Mysql => Some(BACKSLASH),
            Escape::Unquoted(byte) => Some(byte),
        }
    }
}

/// How a NULL is told from an empty string.
#[derive(Clone, Copy, Debug, PartialEq, Eq, Structural)]
pub enum Nulls {
    /// There are no NULLs.
    Disabled,
    /// An unquoted empty field is NULL.
    PostgresCsv,
    /// The unquoted field `\N` is NULL.
    Mysql,
}

/// The deviations a lenient reader accepts.
#[derive(Clone, Copy, Debug, PartialEq, Eq, Structural)]
pub struct Recovery {
    /// A leading quote opens a quoted field.
    pub quoting: bool,
    /// A quote may stand inside an unquoted field.
    pub unquoted_quotes: bool,
    /// Any byte may follow the escape byte.
    pub any_backslash_escape: bool,
    /// Spaces and tabs may follow a closing quote.
    pub post_quote_whitespace: bool,
}

impl Recovery {
    /// No deviation, and no quote syntax either.
    #[verifier::allow_in_spec]
    pub fn none() -> Recovery
        returns
            (Recovery {
                quoting: false,
                unquoted_quotes: false,
                any_backslash_escape: false,
                post_quote_whitespace: false,
            }),
    {
        Recovery {
            quoting: false,
            unquoted_quotes: false,
            any_backslash_escape: false,
            post_quote_whitespace: false,
        }
    }

    /// Every deviation.
    #[verifier::allow_in_spec]
    pub fn permissive() -> Recovery
        returns
            (Recovery {
                quoting: true,
                unquoted_quotes: true,
                any_backslash_escape: true,
                post_quote_whitespace: true,
            }),
    {
        Recovery {
            quoting: true,
            unquoted_quotes: true,
            any_backslash_escape: true,
            post_quote_whitespace: true,
        }
    }

    /// The same rules with quote syntax switched on or off.
    #[verifier::allow_in_spec]
    pub fn quoting(self, enabled: bool) -> Recovery
        returns
            (Recovery { quoting: enabled, ..self }),
    {
        Recovery { quoting: enabled, ..self }
    }

    /// The same rules with quotes in unquoted fields allowed or not.
    #[verifier::allow_in_spec]
    pub fn unquoted_quotes(self, allowed: bool) -> Recovery
        returns
            (Recovery { unquoted_quotes: allowed, ..self }),
    {
        Recovery { unquoted_quotes: allowed, ..self }
    }

    /// The rules as a byte, one bit for each.
    #[verifier::allow_in_spec]
    pub fn bits(self) -> u8
        returns
            ((if self.quoting { 1u8 } else { 0u8 }) + (if self.unquoted_quotes { 2u8 } else { 0u8 })
                + (if self.any_backslash_escape { 4u8 } else { 0u8 })
                + (if self.post_quote_whitespace { 8u8 } else { 0u8 })) as u8,
    {
        let quoting: u8 = if self.quoting { 1 } else { 0 };
        let unquoted: u8 = if self.unquoted_quotes { 2 } else { 0 };
        let escape: u8 = if self.any_backslash_escape { 4 } else { 0 };
        let whitespace: u8 = if self.post_quote_whitespace { 8 } else { 0 };
        quoting + unquoted + escape + whitespace
    }

    /// The rules that a byte stands for; `None` when it has an unknown bit.
    #[verifier::allow_in_spec]
    pub fn from_bits(bits: u8) -> Option<Recovery>
        returns
            (if bits < 16 {
                Some(
                    Recovery {
                        quoting: bits % 2 == 1,
                        unquoted_quotes: bits / 2 % 2 == 1,
                        any_backslash_escape: bits / 4 % 2 == 1,
                        post_quote_whitespace: bits / 8 % 2 == 1,
                    },
                )
            } else {
                None
            }),
    {
        if bits < 16 {
            Some(
                Recovery {
                    quoting: bits % 2 == 1,
                    unquoted_quotes: bits / 2 % 2 == 1,
                    any_backslash_escape: bits / 4 % 2 == 1,
                    post_quote_whitespace: bits / 8 % 2 == 1,
                },
            )
        } else {
            None
        }
    }
}

/// Whether a reader insists on the format.
#[derive(Clone, Copy, Debug, PartialEq, Eq, Structural)]
pub enum Syntax {
    /// Every deviation is an error.
    Strict,
    /// The listed deviations are accepted.
    Compatible(Recovery),
}

impl Syntax {
    /// Whether a leading quote opens a quoted field.
    #[verifier::allow_in_spec]
    pub fn quoting_enabled(self) -> bool
        returns
            (match self {
                Syntax::Strict => true,
                Syntax::Compatible(rules) => rules.quoting,
            }),
    {
        match self {
            Syntax::Strict => true,
            Syntax::Compatible(rules) => rules.quoting,
        }
    }

    /// Whether a quote may stand inside an unquoted field.
    #[verifier::allow_in_spec]
    pub fn permits_unquoted_quotes(self) -> bool
        returns
            (match self {
                Syntax::Strict => false,
                Syntax::Compatible(rules) => rules.unquoted_quotes,
            }),
    {
        match self {
            Syntax::Strict => false,
            Syntax::Compatible(rules) => rules.unquoted_quotes,
        }
    }

    /// Whether any byte may follow the escape byte.
    #[verifier::allow_in_spec]
    pub fn permits_any_backslash_escape(self) -> bool
        returns
            (match self {
                Syntax::Strict => false,
                Syntax::Compatible(rules) => rules.any_backslash_escape,
            }),
    {
        match self {
            Syntax::Strict => false,
            Syntax::Compatible(rules) => rules.any_backslash_escape,
        }
    }

    /// Whether spaces and tabs may follow a closing quote.
    #[verifier::allow_in_spec]
    pub fn permits_post_quote_whitespace(self) -> bool
        returns
            (match self {
                Syntax::Strict => false,
                Syntax::Compatible(rules) => rules.post_quote_whitespace,
            }),
    {
        match self {
            Syntax::Strict => false,
            Syntax::Compatible(rules) => rules.post_quote_whitespace,
        }
    }
}

/// Which ends of a field are trimmed.
#[derive(Clone, Copy, Debug, PartialEq, Eq, Structural)]
pub struct Whitespace {
    /// Spaces and tabs before the content.
    pub leading: bool,
    /// Spaces and tabs after the content.
    pub trailing: bool,
}

impl Whitespace {
    /// Nothing is trimmed.
    #[verifier::allow_in_spec]
    pub fn none() -> Whitespace
        returns
            (Whitespace { leading: false, trailing: false }),
    {
        Whitespace { leading: false, trailing: false }
    }

    /// Both ends are trimmed.
    #[verifier::allow_in_spec]
    pub fn all() -> Whitespace
        returns
            (Whitespace { leading: true, trailing: true }),
    {
        Whitespace { leading: true, trailing: true }
    }

    /// The choice as a byte, one bit for each end.
    #[verifier::allow_in_spec]
    pub fn bits(self) -> u8
        returns
            ((if self.leading { 1u8 } else { 0u8 }) + (if self.trailing { 2u8 } else { 0u8 })) as u8,
    {
        let leading: u8 = if self.leading { 1 } else { 0 };
        let trailing: u8 = if self.trailing { 2 } else { 0 };
        leading + trailing
    }

    /// The choice that a byte stands for; `None` when it has an unknown bit.
    #[verifier::allow_in_spec]
    pub fn from_bits(bits: u8) -> Option<Whitespace>
        returns
            (if bits < 4 {
                Some(Whitespace { leading: bits % 2 == 1, trailing: bits / 2 % 2 == 1 })
            } else {
                None
            }),
    {
        if bits < 4 {
            Some(Whitespace { leading: bits % 2 == 1, trailing: bits / 2 % 2 == 1 })
        } else {
            None
        }
    }
}

/// What an empty line is.
#[derive(Clone, Copy, Debug, PartialEq, Eq, Structural)]
pub enum BlankRecords {
    /// A record with one empty field.
    Preserve,
    /// Nothing.
    Skip,
}

/// What a reader does with a leading byte-order mark.
#[derive(Clone, Copy, Debug, PartialEq, Eq, Structural)]
pub enum ReadBom {
    /// Skips it.
    Detect,
    /// Keeps it as data.
    Preserve,
    /// Fails.
    Reject,
}

/// Whether a writer starts with a byte-order mark.
#[derive(Clone, Copy, Debug, PartialEq, Eq, Structural)]
pub enum WriteBom {
    /// It does not.
    Omit,
    /// It does.
    Emit,
}

/// Which fields a writer quotes.
#[derive(Clone, Copy, Debug, PartialEq, Eq, Structural)]
pub enum Quoting {
    /// Those that would be misread otherwise.
    Necessary,
    /// All.
    Always,
    /// None; a field that would be misread is an error.
    Never,
    /// Those that are not numbers.
    NonNumeric,
    /// None, and nothing is checked.
    Raw,
}

/// How many fields a record must have.
#[derive(Clone, Copy, Debug, PartialEq, Eq, Structural)]
pub enum FieldCount {
    /// Any number.
    Flexible,
    /// As many as the first record.
    MatchFirst,
    /// This number.
    Exact(usize),
}

/// What the first record of a document is.
#[derive(Clone, Copy, Debug, PartialEq, Eq, Structural)]
pub enum Headers {
    /// Data.
    Absent,
    /// Column names.
    Present,
}

/// The bytes of a separator after its first.
#[derive(Clone, Copy, Debug, PartialEq, Eq, Structural)]
pub struct Tail {
    len: u8,
    b0: u8,
    b1: u8,
    b2: u8,
    b3: u8,
    b4: u8,
    b5: u8,
    b6: u8,
}

impl Tail {
    /// The longest tail.
    pub const MAX: u8 = 7;

    /// The declared length of this tail.
    pub closed spec fn spec_len(self) -> u8 {
        self.len
    }

    /// The seven stored bytes of this tail.
    pub closed spec fn spec_bytes(self) -> Seq<u8> {
        seq![self.b0, self.b1, self.b2, self.b3, self.b4, self.b5, self.b6]
    }

    /// The bytes of this tail; a tail holds no more than it can store.
    pub open spec fn text(self) -> Seq<u8> {
        if self.spec_len() <= Tail::MAX {
            self.spec_bytes().take(self.spec_len() as int)
        } else {
            self.spec_bytes()
        }
    }

    /// Whether this tail stands in `input` at `at`.
    pub open spec fn stands_at(self, input: Seq<u8>, at: int) -> bool {
        &&& 0 <= at
        &&& at + self.text().len() <= input.len()
        &&& forall|i: int| 0 <= i < self.text().len() ==> input[at + i] == #[trigger] self.text()[i]
    }

    /// How many bytes this tail has.
    pub fn size(self) -> (size: usize)
        ensures
            size == self.text().len(),
            size <= 7,
    {
        if self.len <= Tail::MAX {
            self.len as usize
        } else {
            7
        }
    }

    /// Whether this tail stands in `input` at `at`.
    pub fn is_at(self, input: &[u8], at: usize) -> (yes: bool)
        requires
            at <= input.len(),
        ensures
            yes == self.stands_at(input@, at as int),
    {
        let size: usize = self.size();
        if size > input.len() - at {
            return false;
        }
        let all = [self.b0, self.b1, self.b2, self.b3, self.b4, self.b5, self.b6];
        let mut index: usize = 0;
        while index < size
            invariant
                index <= size <= 7,
                size == self.text().len(),
                at + size <= input.len(),
                all@ =~= self.spec_bytes(),
                forall|i: int|
                    0 <= i < index ==> input@[at + i] == #[trigger] self.text()[i],
            decreases size - index,
        {
            assert(all@[index as int] == self.text()[index as int]);
            if input[at + index] != all[index] {
                assert(input@[at + index as int] != self.text()[index as int]);
                return false;
            }
            index += 1;
        }
        true
    }

    /// The tail with a declared length and seven stored bytes.
    pub closed spec fn of(len: u8, bytes: Seq<u8>) -> Tail {
        Tail {
            len,
            b0: bytes[0],
            b1: bytes[1],
            b2: bytes[2],
            b3: bytes[3],
            b4: bytes[4],
            b5: bytes[5],
            b6: bytes[6],
        }
    }

    /// A tail has the parts it is made of, and no others.
    pub proof fn lemma_of_parts(len: u8, bytes: Seq<u8>)
        requires
            bytes.len() == 7,
        ensures
            Tail::of(len, bytes).spec_len() == len,
            Tail::of(len, bytes).spec_bytes() == bytes,
    {
        assert(Tail::of(len, bytes).spec_bytes() =~= bytes);
    }

    /// No bytes.
    pub fn empty() -> (tail: Tail)
        ensures
            tail.spec_len() == 0,
            tail.spec_bytes() == seq![0u8, 0u8, 0u8, 0u8, 0u8, 0u8, 0u8],
            tail == Tail::of(0, seq![0u8, 0u8, 0u8, 0u8, 0u8, 0u8, 0u8]),
    {
        Tail { len: 0, b0: 0, b1: 0, b2: 0, b3: 0, b4: 0, b5: 0, b6: 0 }
    }

    /// A tail from its declared length and its stored bytes.
    pub fn from_parts(len: u8, bytes: [u8; 7]) -> (tail: Tail)
        ensures
            tail.spec_len() == len,
            tail.spec_bytes() == bytes@,
            tail == Tail::of(len, bytes@),
    {
        let tail = Tail {
            len,
            b0: bytes[0],
            b1: bytes[1],
            b2: bytes[2],
            b3: bytes[3],
            b4: bytes[4],
            b5: bytes[5],
            b6: bytes[6],
        };
        assert(tail.spec_bytes() =~= bytes@);
        tail
    }

    /// The tail with these bytes, of which there are at most seven.
    pub open spec fn spelling(bytes: Seq<u8>) -> Tail {
        Tail::of(
            bytes.len() as u8,
            Seq::new(
                7,
                |i: int|
                    if i < bytes.len() {
                        bytes[i]
                    } else {
                        0u8
                    },
            ),
        )
    }

    /// The tail with the bytes from `from` on.
    pub fn from_slice(bytes: &[u8], from: usize) -> (tail: Tail)
        requires
            from <= bytes@.len() <= from + 7,
        ensures
            tail == Tail::spelling(bytes@.skip(from as int)),
    {
        assert(bytes@.len() == bytes.len());
        let len: usize = bytes.len() - from;
        let mut stored = [0u8; 7];
        let mut index: usize = 0;
        while index < len
            invariant
                index <= len <= 7,
                from + len == bytes@.len() == bytes.len(),
                forall|i: int| 0 <= i < index ==> stored@[i] == bytes@[from + i],
                forall|i: int| index <= i < 7 ==> stored@[i] == 0,
            decreases len - index,
        {
            stored[index] = bytes[from + index];
            index += 1;
        }
        let tail = Tail::from_parts(len as u8, stored);
        assert(stored@ =~= Seq::new(
            7,
            |i: int|
                if i < bytes@.skip(from as int).len() {
                    bytes@.skip(from as int)[i]
                } else {
                    0u8
                },
        ));
        tail
    }

    /// The declared length and the stored bytes.
    pub fn parts(self) -> (parts: (u8, [u8; 7]))
        ensures
            parts.0 == self.spec_len(),
            parts.1@ == self.spec_bytes(),
    {
        let bytes = [self.b0, self.b1, self.b2, self.b3, self.b4, self.b5, self.b6];
        assert(bytes@ =~= self.spec_bytes());
        (self.len, bytes)
    }

    /// The bytes of this tail.
    pub fn to_vec(self) -> (bytes: Vec<u8>)
        requires
            self.spec_len() <= Tail::MAX,
        ensures
            bytes@ == self.spec_bytes().take(self.spec_len() as int),
    {
        let all = [self.b0, self.b1, self.b2, self.b3, self.b4, self.b5, self.b6];
        let mut bytes: Vec<u8> = Vec::new();
        let mut index: usize = 0;
        while index < self.len as usize
            invariant
                index <= self.len <= 7,
                all@ =~= self.spec_bytes(),
                bytes@ =~= self.spec_bytes().take(index as int),
            decreases self.len - index,
        {
            bytes.push(all[index]);
            index += 1;
        }
        bytes
    }

    /// A tail stores seven bytes, however long it is.
    pub proof fn lemma_bytes_len(self)
        ensures
            self.spec_bytes().len() == 7,
    {
    }

    /// Two tails with the same parts are the same tail.
    pub proof fn lemma_parts_determine(self, other: Tail)
        requires
            self.spec_len() == other.spec_len(),
            self.spec_bytes() == other.spec_bytes(),
        ensures
            self == other,
    {
        assert(forall|i: int| 0 <= i < 7 ==> self.spec_bytes()[i] == other.spec_bytes()[i]);
        assert(self.spec_bytes()[0] == self.b0 && other.spec_bytes()[0] == other.b0);
        assert(self.spec_bytes()[1] == self.b1 && other.spec_bytes()[1] == other.b1);
        assert(self.spec_bytes()[2] == self.b2 && other.spec_bytes()[2] == other.b2);
        assert(self.spec_bytes()[3] == self.b3 && other.spec_bytes()[3] == other.b3);
        assert(self.spec_bytes()[4] == self.b4 && other.spec_bytes()[4] == other.b4);
        assert(self.spec_bytes()[5] == self.b5 && other.spec_bytes()[5] == other.b5);
        assert(self.spec_bytes()[6] == self.b6 && other.spec_bytes()[6] == other.b6);
    }
}

/// The bytes that structure a document.
#[derive(Clone, Copy, Debug, PartialEq, Eq, Structural)]
pub struct Dialect {
    /// Separates fields.
    pub delimiter: u8,
    /// Encloses fields.
    pub quote: u8,
    /// Ends records.
    pub record_ending: RecordEnding,
    /// Protects structural bytes inside fields.
    pub escape: Escape,
    /// Starts a line that is skipped.
    pub comment: Option<u8>,
    /// What follows the delimiter byte.
    pub delimiter_tail: Tail,
    /// What follows the record-ending byte.
    pub ending_tail: Tail,
}

impl Dialect {
    /// Whether `byte` is part of the record ending.
    pub open spec fn ends_records(self, byte: u8) -> bool {
        self.record_ending.contains(byte)
    }

    /// Whether a delimiter, a quote, an ending and an escape can be told apart.
    pub open spec fn distinct(
        delimiter: u8,
        quote: u8,
        record_ending: RecordEnding,
        escape: Escape,
    ) -> bool {
        &&& delimiter != quote
        &&& !record_ending.contains(delimiter)
        &&& !record_ending.contains(quote)
        &&& escape.byte() matches Some(byte) ==> byte != delimiter && byte != quote
            && !record_ending.contains(byte)
    }

    /// Whether the delimiter, quote, ending and escape can be told apart.
    pub open spec fn separators_distinct(self) -> bool {
        Dialect::distinct(self.delimiter, self.quote, self.record_ending, self.escape)
    }

    /// Whether the comment byte can be told from every other one.
    pub open spec fn comment_distinct(self) -> bool {
        self.comment matches Some(byte) ==> byte != self.delimiter && byte != self.quote
            && !self.ends_records(byte) && self.escape.byte() != Some(byte)
    }

    /// Whether a document in this dialect has one reading.
    pub open spec fn valid(self) -> bool {
        &&& self.separators_distinct()
        &&& self.comment_distinct()
        &&& self.delimiter_tail.spec_len() <= Tail::MAX
        &&& self.ending_tail.spec_len() <= Tail::MAX
    }

    fn is_ending(self, byte: u8) -> (yes: bool)
        ensures
            yes == self.ends_records(byte),
    {
        byte == self.record_ending.byte() || (self.record_ending.is_newline() && byte == CR)
    }

    /// What is wrong with this dialect, if anything is.
    pub fn invalidity(self) -> (reason: Option<&'static str>)
        ensures
            reason is None == self.valid(),
    {
        if self.delimiter == self.quote {
            return Some("delimiter and quote must differ");
        }
        if self.is_ending(self.delimiter) {
            return Some("delimiter must differ from the record ending");
        }
        if self.is_ending(self.quote) {
            return Some("quote must differ from the record ending");
        }
        if let Some(escape) = self.escape.byte() {
            if escape == self.delimiter || escape == self.quote || self.is_ending(escape) {
                return Some("escape must differ from the delimiter, quote and record ending");
            }
        }
        if let Some(comment) = self.comment {
            if comment == self.delimiter || comment == self.quote || self.is_ending(comment) {
                return Some("comment must differ from the delimiter, quote and record ending");
            }
            if let Some(escape) = self.escape.byte() {
                if comment == escape {
                    return Some("comment must differ from the escape");
                }
            }
        }
        if self.delimiter_tail.len > Tail::MAX || self.ending_tail.len > Tail::MAX {
            return Some("separator is too long");
        }
        None
    }

    fn check(self) -> (result: Result<Dialect, Error>)
        ensures
            result is Ok == self.valid(),
            result matches Ok(dialect) ==> dialect == self,
            result matches Err(error) ==> error.misconfigured(),
    {
        match self.invalidity() {
            Some(reason) => Err(Error::detailed(ErrorKind::Configuration, reason)),
            None => Ok(self),
        }
    }

    /// A dialect without comments and with one-byte separators.
    pub fn new(delimiter: u8, quote: u8, record_ending: RecordEnding, escape: Escape) -> (result:
        Result<Dialect, Error>)
        ensures
            result matches Ok(dialect) ==> {
                &&& dialect.valid()
                &&& dialect.delimiter == delimiter
                &&& dialect.quote == quote
                &&& dialect.record_ending == record_ending
                &&& dialect.escape == escape
                &&& dialect.comment is None
                &&& !dialect.multibyte()
                &&& dialect.delimiter_tail.spec_bytes() == seq![0u8, 0u8, 0u8, 0u8, 0u8, 0u8, 0u8]
                &&& dialect.ending_tail == dialect.delimiter_tail
            },
            result is Ok == Dialect::distinct(delimiter, quote, record_ending, escape),
            result matches Err(error) ==> error.misconfigured(),
    {
        let tail = Tail::empty();
        let dialect = Dialect {
            delimiter,
            quote,
            record_ending,
            escape,
            comment: None,
            delimiter_tail: tail,
            ending_tail: tail,
        };
        assert(dialect.separators_distinct() == dialect.valid());
        dialect.check()
    }

    /// The same dialect with comment lines that start with `comment`.
    pub fn with_comment(self, comment: u8) -> (result: Result<Dialect, Error>)
        requires
            self.valid(),
        ensures
            result is Ok == (Dialect { comment: Some(comment), ..self }).comment_distinct(),
            result matches Ok(dialect) ==> dialect == (Dialect { comment: Some(comment), ..self })
                && dialect.valid(),
            result matches Err(error) ==> error.misconfigured(),
    {
        let dialect = Dialect { comment: Some(comment), ..self };
        assert(dialect.separators_distinct() == self.separators_distinct());
        dialect.check()
    }

    /// The same dialect with longer separators.
    pub fn with_tails(self, delimiter_tail: Tail, ending_tail: Tail) -> (result: Result<
        Dialect,
        Error,
    >)
        requires
            self.valid(),
        ensures
            result is Ok == (delimiter_tail.spec_len() <= Tail::MAX && ending_tail.spec_len()
                <= Tail::MAX),
            result matches Ok(dialect) ==> dialect == (Dialect {
                delimiter_tail,
                ending_tail,
                ..self
            }) && dialect.valid(),
            result matches Err(error) ==> error.misconfigured(),
    {
        let dialect = Dialect { delimiter_tail, ending_tail, ..self };
        assert(dialect.separators_distinct() == self.separators_distinct());
        assert(dialect.comment_distinct() == self.comment_distinct());
        dialect.check()
    }

    /// Whether a separator has more than one byte.
    pub open spec fn multibyte(self) -> bool {
        self.delimiter_tail.spec_len() != 0 || self.ending_tail.spec_len() != 0
    }

    /// Whether a separator has more than one byte.
    pub fn has_long_separator(self) -> (yes: bool)
        ensures
            yes == self.multibyte(),
    {
        self.delimiter_tail.len != 0 || self.ending_tail.len != 0
    }

    /// The comma-separated dialect.
    pub open spec fn is_standard(self) -> bool {
        &&& self.delimiter == COMMA
        &&& self.quote == QUOTE
        &&& self.record_ending == RecordEnding::Newline
        &&& self.escape == Escape::DoubleQuote
        &&& self.comment is None
        &&& !self.multibyte()
    }
}

impl Default for Dialect {
    fn default() -> (dialect: Dialect)
        ensures
            dialect.is_standard(),
            dialect.valid(),
            dialect.delimiter_tail.spec_bytes() == seq![0u8, 0u8, 0u8, 0u8, 0u8, 0u8, 0u8],
            dialect.ending_tail == dialect.delimiter_tail,
    {
        let tail = Tail::empty();
        Dialect {
            delimiter: COMMA,
            quote: QUOTE,
            record_ending: RecordEnding::Newline,
            escape: Escape::DoubleQuote,
            comment: None,
            delimiter_tail: tail,
            ending_tail: tail,
        }
    }
}

} // verus!
