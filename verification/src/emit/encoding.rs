//! The bytes that stand for fields and records.

use vstd::prelude::*;

use crate::ascii::{BACKSLASH, CR, UPPER_N};
use crate::config::{Dialect, Escape, Nulls, Quoting, RecordEnding};
use crate::engine::checked::mysql_unescaped;
use crate::options::FormatOptions;
use crate::storage::{null_field, raw_field_is_null, raw_null, text, Field};

verus! {

/// How fields are written.
#[derive(Clone, Copy, Debug, PartialEq, Eq, Structural)]
pub struct Writing {
    /// The structural bytes.
    pub dialect: Dialect,
    /// Which fields are quoted.
    pub quoting: Quoting,
    /// How a NULL is told from an empty string.
    pub nulls: Nulls,
}

/// A field that cannot be written.
pub const UNWRITABLE_FIELD: &'static str = "field cannot be written in this format";

/// Where a number may go on.
#[derive(Clone, Copy, Debug, PartialEq, Eq, Structural)]
pub enum Numeral {
    /// Nothing was read.
    Start,
    /// A sign was read.
    Sign,
    /// Digits were read.
    Digits,
    /// A point was read, with no digit before it.
    Point,
    /// A point was read, with a digit before it or behind it.
    Fraction,
    /// The letter of an exponent was read.
    Exponent,
    /// The sign of an exponent was read.
    ExponentSign,
    /// Digits of an exponent were read.
    ExponentDigits,
    /// What was read starts no number.
    Broken,
}

impl Numeral {
    /// What one more byte makes of it.
    #[verifier::allow_in_spec]
    pub fn next(self, byte: u8) -> Numeral
        returns
            ({
                let digit = 48 <= byte && byte <= 57;
                let sign = byte == 43 || byte == 45;
                let point = byte == 46;
                let exponent = byte == 69 || byte == 101;
                match self {
                    Numeral::Start => if digit {
                        Numeral::Digits
                    } else if sign {
                        Numeral::Sign
                    } else if point {
                        Numeral::Point
                    } else {
                        Numeral::Broken
                    },
                    Numeral::Sign => if digit {
                        Numeral::Digits
                    } else if point {
                        Numeral::Point
                    } else {
                        Numeral::Broken
                    },
                    Numeral::Digits => if digit {
                        Numeral::Digits
                    } else if point {
                        Numeral::Fraction
                    } else if exponent {
                        Numeral::Exponent
                    } else {
                        Numeral::Broken
                    },
                    Numeral::Point => if digit {
                        Numeral::Fraction
                    } else {
                        Numeral::Broken
                    },
                    Numeral::Fraction => if digit {
                        Numeral::Fraction
                    } else if exponent {
                        Numeral::Exponent
                    } else {
                        Numeral::Broken
                    },
                    Numeral::Exponent => if digit {
                        Numeral::ExponentDigits
                    } else if sign {
                        Numeral::ExponentSign
                    } else {
                        Numeral::Broken
                    },
                    Numeral::ExponentSign => if digit {
                        Numeral::ExponentDigits
                    } else {
                        Numeral::Broken
                    },
                    Numeral::ExponentDigits => if digit {
                        Numeral::ExponentDigits
                    } else {
                        Numeral::Broken
                    },
                    Numeral::Broken => Numeral::Broken,
                }
            }),
    {
        let digit = 48 <= byte && byte <= 57;
        let sign = byte == 43 || byte == 45;
        let point = byte == 46;
        let exponent = byte == 69 || byte == 101;
        match self {
            Numeral::Start => if digit {
                Numeral::Digits
            } else if sign {
                Numeral::Sign
            } else if point {
                Numeral::Point
            } else {
                Numeral::Broken
            },
            Numeral::Sign => if digit {
                Numeral::Digits
            } else if point {
                Numeral::Point
            } else {
                Numeral::Broken
            },
            Numeral::Digits => if digit {
                Numeral::Digits
            } else if point {
                Numeral::Fraction
            } else if exponent {
                Numeral::Exponent
            } else {
                Numeral::Broken
            },
            Numeral::Point => if digit {
                Numeral::Fraction
            } else {
                Numeral::Broken
            },
            Numeral::Fraction => if digit {
                Numeral::Fraction
            } else if exponent {
                Numeral::Exponent
            } else {
                Numeral::Broken
            },
            Numeral::Exponent => if digit {
                Numeral::ExponentDigits
            } else if sign {
                Numeral::ExponentSign
            } else {
                Numeral::Broken
            },
            Numeral::ExponentSign => if digit {
                Numeral::ExponentDigits
            } else {
                Numeral::Broken
            },
            Numeral::ExponentDigits => if digit {
                Numeral::ExponentDigits
            } else {
                Numeral::Broken
            },
            Numeral::Broken => Numeral::Broken,
        }
    }

    /// Whether a number may end here.
    #[verifier::allow_in_spec]
    pub fn is_complete(self) -> bool
        returns
            (self == Numeral::Digits || self == Numeral::Fraction || self
                == Numeral::ExponentDigits),
    {
        self == Numeral::Digits || self == Numeral::Fraction || self == Numeral::ExponentDigits
    }

    /// What bytes are as the start of a number.
    pub open spec fn of(bytes: Seq<u8>) -> Numeral
        decreases bytes.len(),
    {
        if bytes.len() == 0 {
            Numeral::Start
        } else {
            Numeral::of(bytes.drop_last()).next(bytes.last())
        }
    }
}

/// Whether bytes are a decimal number.
pub fn is_number(bytes: &[u8]) -> (number: bool)
    ensures
        number == Numeral::of(bytes@).is_complete(),
{
    let mut numeral = Numeral::Start;
    let mut at: usize = 0;
    while at < bytes.len()
        invariant
            at <= bytes.len(),
            numeral == Numeral::of(bytes@.take(at as int)),
        decreases bytes.len() - at,
    {
        assert(bytes@.take(at + 1).drop_last() =~= bytes@.take(at as int));
        numeral = numeral.next(bytes[at]);
        at += 1;
    }
    assert(bytes@.take(at as int) =~= bytes@);
    numeral.is_complete()
}

/// The byte that stands for `byte` after MySQL's escape byte.
#[verifier::allow_in_spec]
pub fn mysql_code(byte: u8) -> u8
    returns
        (if byte == 0 {
            48
        } else if byte == 8 {
            98
        } else if byte == 10 {
            110
        } else if byte == 13 {
            114
        } else if byte == 9 {
            116
        } else if byte == 26 {
            90
        } else {
            byte
        }),
{
    if byte == 0 {
        48
    } else if byte == 8 {
        98
    } else if byte == 10 {
        110
    } else if byte == 13 {
        114
    } else if byte == 9 {
        116
    } else if byte == 26 {
        90
    } else {
        byte
    }
}

impl Writing {
    /// How the fields of a format are written.
    #[verifier::allow_in_spec]
    pub fn of(format: FormatOptions) -> Writing
        returns
            (Writing { dialect: format.dialect, quoting: format.quoting, nulls: format.nulls }),
    {
        Writing { dialect: format.dialect, quoting: format.quoting, nulls: format.nulls }
    }

    /// The bytes between two fields.
    pub open spec fn delimiter_bytes(self) -> Seq<u8> {
        seq![self.dialect.delimiter] + self.dialect.delimiter_tail.spec_bytes().take(
            self.dialect.delimiter_tail.spec_len() as int,
        )
    }

    /// The bytes behind a record.
    pub open spec fn ending_bytes(self) -> Seq<u8> {
        (if self.dialect.record_ending is CrLf {
            seq![CR]
        } else {
            Seq::empty()
        }) + seq![self.dialect.record_ending.byte()] + self.dialect.ending_tail.spec_bytes().take(
            self.dialect.ending_tail.spec_len() as int,
        )
    }

    /// Whether a byte would be taken for something else than content.
    #[verifier::allow_in_spec]
    pub fn is_structural(self, byte: u8) -> bool
        returns
            (byte == self.dialect.delimiter || byte == self.dialect.quote || byte
                == self.dialect.record_ending.byte() || (self.dialect.record_ending.is_newline()
                && byte == CR)),
    {
        byte == self.dialect.delimiter || byte == self.dialect.quote || byte
            == self.dialect.record_ending.byte() || (self.dialect.record_ending.is_newline()
            && byte == CR)
    }

    /// Whether the first field of a record would be taken for a comment.
    pub open spec fn like_a_comment(self, bytes: Seq<u8>, first: bool) -> bool {
        first && bytes.len() > 0 && self.dialect.comment == Some(bytes[0])
    }

    /// Whether a field would be misread if its bytes were written as they are.
    pub open spec fn exposed(self, bytes: Seq<u8>, first: bool) -> bool {
        ||| exists|i: int| 0 <= i < bytes.len() && #[trigger] self.is_structural(bytes[i])
        ||| self.like_a_comment(bytes, first)
        ||| raw_null(self.nulls, bytes)
    }

    /// Whether a field is quoted, where fields are quoted at all.
    pub open spec fn quotes(self, bytes: Seq<u8>, first: bool) -> bool {
        match self.quoting {
            Quoting::Always => true,
            Quoting::NonNumeric => self.exposed(bytes, first) || !Numeral::of(bytes).is_complete(),
            _ => self.exposed(bytes, first),
        }
    }

    /// What a byte is written as between quotes.
    pub open spec fn guarded(self, byte: u8) -> Seq<u8> {
        match self.dialect.escape {
            Escape::Backslash(escape) => if byte == self.dialect.quote || byte == escape {
                seq![escape, byte]
            } else {
                seq![byte]
            },
            _ => if byte == self.dialect.quote {
                seq![byte, byte]
            } else {
                seq![byte]
            },
        }
    }

    /// What the first `count` bytes are written as between quotes.
    pub open spec fn all_guarded(self, bytes: Seq<u8>, count: int) -> Seq<u8>
        decreases count,
    {
        if count <= 0 {
            Seq::empty()
        } else {
            self.all_guarded(bytes, count - 1) + self.guarded(bytes[count - 1])
        }
    }

    /// The byte that stands for `byte` behind the escape byte.
    #[verifier::allow_in_spec]
    pub fn code(self, byte: u8) -> u8
        returns
            (match self.dialect.escape {
                Escape::Mysql => mysql_code(byte),
                _ => byte,
            }),
    {
        match self.dialect.escape {
            Escape::Mysql => mysql_code(byte),
            _ => byte,
        }
    }

    /// Whether the byte at `index` is escaped, where fields are not quoted.
    pub open spec fn escapes(self, bytes: Seq<u8>, index: int, first: bool) -> bool {
        ||| self.is_structural(bytes[index])
        ||| self.dialect.escape.unquoted_byte() == Some(bytes[index])
        ||| index == 0 && (self.like_a_comment(bytes, first) || raw_null(self.nulls, bytes))
    }

    /// Whether an escaped byte can be told from a letter code.
    pub open spec fn escapable(self, byte: u8) -> bool {
        self.dialect.escape is Mysql ==> mysql_unescaped(mysql_code(byte)) == byte
    }

    /// What the byte at `index` is written as, where fields are not quoted.
    pub open spec fn shielded(self, bytes: Seq<u8>, index: int, first: bool) -> Seq<u8> {
        if self.escapes(bytes, index, first) {
            seq![self.dialect.escape.unquoted_byte()->0, self.code(bytes[index])]
        } else {
            seq![bytes[index]]
        }
    }

    /// What the first `count` bytes are written as, where fields are not quoted.
    pub open spec fn all_shielded(self, bytes: Seq<u8>, count: int, first: bool) -> Seq<u8>
        decreases count,
    {
        if count <= 0 {
            Seq::empty()
        } else {
            self.all_shielded(bytes, count - 1, first) + self.shielded(bytes, count - 1, first)
        }
    }

    /// Whether a field can be written where fields are not quoted.
    pub open spec fn shieldable(self, bytes: Seq<u8>, first: bool) -> bool {
        &&& !raw_null(self.nulls, self.all_shielded(bytes, bytes.len() as int, first))
        &&& forall|i: int|
            0 <= i < bytes.len() && #[trigger] self.escapes(bytes, i, first) ==> self.escapable(
                bytes[i],
            )
    }

    /// What a NULL is written as.
    pub open spec fn null_bytes(self) -> Seq<u8> {
        match self.nulls {
            Nulls::Mysql => seq![BACKSLASH, UPPER_N],
            _ => Seq::empty(),
        }
    }

    /// What a field is written as, if it can be written.
    pub open spec fn field(self, field: Field, first: bool) -> Option<Seq<u8>> {
        if field.null {
            Some(self.null_bytes())
        } else if self.quoting == Quoting::Raw {
            Some(field.bytes)
        } else if self.dialect.escape.unquoted_byte() is Some {
            if self.shieldable(field.bytes, first) {
                Some(self.all_shielded(field.bytes, field.bytes.len() as int, first))
            } else {
                None
            }
        } else if !self.quotes(field.bytes, first) {
            Some(field.bytes)
        } else if self.quoting == Quoting::Never {
            None
        } else {
            Some(
                seq![self.dialect.quote] + self.all_guarded(
                    field.bytes,
                    field.bytes.len() as int,
                ) + seq![self.dialect.quote],
            )
        }
    }

    /// What the first `count` fields of a record are written as.
    pub open spec fn fields(self, fields: Seq<Field>, count: int) -> Option<Seq<u8>>
        decreases count,
    {
        if count <= 0 {
            Some(Seq::empty())
        } else {
            match (self.fields(fields, count - 1), self.field(fields[count - 1], count == 1)) {
                (Some(front), Some(last)) => if count == 1 {
                    Some(last)
                } else {
                    Some(front + self.delimiter_bytes() + last)
                },
                _ => None,
            }
        }
    }

    /// What a record is written as, if it can be written.
    pub open spec fn record(self, fields: Seq<Field>) -> Option<Seq<u8>> {
        match self.fields(fields, fields.len() as int) {
            Some(bytes) => Some(bytes + self.ending_bytes()),
            None => None,
        }
    }
}

/// A field as it is handed to a writer; no bytes are a NULL.
pub open spec fn cell(field: Option<&[u8]>) -> Field {
    match field {
        Some(bytes) => text(bytes@),
        None => null_field(),
    }
}

/// Fields as they are handed to a writer.
pub open spec fn row(fields: Seq<Option<&[u8]>>) -> Seq<Field> {
    Seq::new(fields.len(), |i: int| cell(fields[i]))
}

impl Writing {
    fn looks_like_a_comment(self, bytes: &[u8], first: bool) -> (yes: bool)
        ensures
            yes == self.like_a_comment(bytes@, first),
    {
        if !first || bytes.len() == 0 {
            return false;
        }
        match self.dialect.comment {
            Some(comment) => comment == bytes[0],
            None => false,
        }
    }

    fn reads_as_null(self, bytes: &[u8]) -> (yes: bool)
        ensures
            yes == raw_null(self.nulls, bytes@),
    {
        assert(bytes@.subrange(0, bytes@.len() as int) =~= bytes@);
        raw_field_is_null(self.nulls, bytes, 0, bytes.len())
    }

    fn is_exposed(self, bytes: &[u8], first: bool) -> (yes: bool)
        ensures
            yes == self.exposed(bytes@, first),
    {
        let mut at: usize = 0;
        while at < bytes.len()
            invariant
                at <= bytes.len(),
                forall|i: int| 0 <= i < at ==> !#[trigger] self.is_structural(bytes@[i]),
            decreases bytes.len() - at,
        {
            if self.is_structural(bytes[at]) {
                assert(self.is_structural(bytes@[at as int]));
                return true;
            }
            at += 1;
        }
        self.looks_like_a_comment(bytes, first) || self.reads_as_null(bytes)
    }

    fn is_quoted(self, bytes: &[u8], first: bool) -> (yes: bool)
        ensures
            yes == self.quotes(bytes@, first),
    {
        match self.quoting {
            Quoting::Always => true,
            Quoting::NonNumeric => !is_number(bytes) || self.is_exposed(bytes, first),
            _ => self.is_exposed(bytes, first),
        }
    }

    /// Write a field between quotes.
    fn write_quoted(self, out: &mut Vec<u8>, bytes: &[u8])
        ensures
            final(out)@ == old(out)@ + (seq![self.dialect.quote] + self.all_guarded(
                bytes@,
                bytes@.len() as int,
            ) + seq![self.dialect.quote]),
    {
        let quote: u8 = self.dialect.quote;
        let guard: u8 = match self.dialect.escape {
            Escape::Backslash(escape) => escape,
            _ => quote,
        };
        let ghost before = out@;
        out.push(quote);
        let mut at: usize = 0;
        while at < bytes.len()
            invariant
                at <= bytes.len(),
                quote == self.dialect.quote,
                guard == (match self.dialect.escape {
                    Escape::Backslash(escape) => escape,
                    _ => quote,
                }),
                out@ == before.push(quote) + self.all_guarded(bytes@, at as int),
            decreases bytes.len() - at,
        {
            let byte: u8 = bytes[at];
            let ghost here = out@;
            if byte == quote || byte == guard {
                out.push(guard);
            }
            out.push(byte);
            assert(out@ =~= here + self.guarded(byte));
            at += 1;
            assert(out@ =~= before.push(quote) + self.all_guarded(bytes@, at as int));
        }
        out.push(quote);
        assert(out@ =~= before + (seq![quote] + self.all_guarded(bytes@, bytes@.len() as int)
            + seq![quote]));
    }

    fn can_escape(self, byte: u8) -> (yes: bool)
        ensures
            yes == self.escapable(byte),
    {
        match self.dialect.escape {
            Escape::Mysql => crate::engine::checked::unescape_mysql(mysql_code(byte)) == byte,
            _ => true,
        }
    }

    /// Write a field with its structural bytes escaped.
    fn write_shielded(self, out: &mut Vec<u8>, bytes: &[u8], first: bool, escape: u8) -> (done: bool)
        requires
            self.dialect.escape.unquoted_byte() == Some(escape),
        ensures
            done == self.shieldable(bytes@, first),
            old(out)@ == final(out)@.take(old(out)@.len() as int),
            old(out)@.len() <= final(out)@.len(),
            done ==> final(out)@ == old(out)@ + self.all_shielded(
                bytes@,
                bytes@.len() as int,
                first,
            ),
    {
        let null = self.reads_as_null(bytes);
        let ghost before = out@;
        let start: usize = out.len();
        let comment = self.looks_like_a_comment(bytes, first);
        let mut at: usize = 0;
        assert(before + self.all_shielded(bytes@, 0, first) =~= before);
        while at < bytes.len()
            invariant
                at <= bytes.len(),
                null == raw_null(self.nulls, bytes@),
                comment == self.like_a_comment(bytes@, first),
                self.dialect.escape.unquoted_byte() == Some(escape),
                before == old(out)@,
                out@ == before + self.all_shielded(bytes@, at as int, first),
                forall|i: int|
                    0 <= i < at && #[trigger] self.escapes(bytes@, i, first) ==> self.escapable(
                        bytes@[i],
                    ),
            decreases bytes.len() - at,
        {
            let byte: u8 = bytes[at];
            let ghost here = out@;
            let escapes = self.is_structural(byte) || byte == escape || (at == 0 && (comment
                || null));
            assert(escapes == self.escapes(bytes@, at as int, first));
            if escapes {
                if !self.can_escape(byte) {
                    assert(out@.take(before.len() as int) =~= before);
                    return false;
                }
                out.push(escape);
                out.push(self.code(byte));
            } else {
                out.push(byte);
            }
            assert(out@ =~= here + self.shielded(bytes@, at as int, first));
            at += 1;
            assert(out@ =~= before + self.all_shielded(bytes@, at as int, first));
        }
        proof {
            assert(out@.take(before.len() as int) =~= before);
            assert(out@.subrange(before.len() as int, out@.len() as int) =~= self.all_shielded(
                bytes@,
                bytes@.len() as int,
                first,
            ));
        }
        !raw_field_is_null(self.nulls, out.as_slice(), start, out.len())
    }

    fn write_null(self, out: &mut Vec<u8>)
        ensures
            final(out)@ == old(out)@ + self.null_bytes(),
    {
        if let Nulls::Mysql = self.nulls {
            out.push(BACKSLASH);
            out.push(UPPER_N);
        }
        assert(out@ =~= old(out)@ + self.null_bytes());
    }

    /// Write one field.
    ///
    /// A field that cannot be written may leave some of its bytes behind.
    pub fn write_field(self, out: &mut Vec<u8>, field: Option<&[u8]>, first: bool) -> (done: bool)
        ensures
            done == (self.field(cell(field), first) is Some),
            old(out)@ == final(out)@.take(old(out)@.len() as int),
            old(out)@.len() <= final(out)@.len(),
            done ==> final(out)@ == old(out)@ + self.field(cell(field), first)->0,
    {
        let ghost before = out@;
        assert(before.take(before.len() as int) =~= before);
        let done = match field {
            None => {
                self.write_null(out);
                true
            },
            Some(bytes) => {
                if self.quoting == Quoting::Raw {
                    out.extend_from_slice(bytes);
                    true
                } else if let Some(escape) = self.dialect.escape.unquoted_byte() {
                    self.write_shielded(out, bytes, first, escape)
                } else if !self.is_quoted(bytes, first) {
                    out.extend_from_slice(bytes);
                    true
                } else if self.quoting == Quoting::Never {
                    false
                } else {
                    self.write_quoted(out, bytes);
                    true
                }
            },
        };
        proof {
            if done {
                let written = self.field(cell(field), first)->0;
                assert(out@ =~= before + written);
            }
            assert(out@.take(before.len() as int) =~= before);
        }
        done
    }

    /// Write what stands between two fields.
    pub fn write_delimiter(self, out: &mut Vec<u8>)
        requires
            self.dialect.valid(),
        ensures
            final(out)@ == old(out)@ + self.delimiter_bytes(),
    {
        out.push(self.dialect.delimiter);
        let tail = self.dialect.delimiter_tail.to_vec();
        out.extend_from_slice(tail.as_slice());
        assert(out@ =~= old(out)@ + self.delimiter_bytes());
    }

    /// Write what stands behind a record.
    pub fn write_ending(self, out: &mut Vec<u8>)
        requires
            self.dialect.valid(),
        ensures
            final(out)@ == old(out)@ + self.ending_bytes(),
    {
        if self.dialect.record_ending == RecordEnding::CrLf {
            out.push(CR);
        }
        out.push(self.dialect.record_ending.byte());
        let tail = self.dialect.ending_tail.to_vec();
        out.extend_from_slice(tail.as_slice());
        assert(out@ =~= old(out)@ + self.ending_bytes());
    }

    /// Write a record.
    ///
    /// Answers whether it could be written; nothing is left behind if not.
    pub fn write_record(self, out: &mut Vec<u8>, fields: &[Option<&[u8]>]) -> (done: bool)
        requires
            self.dialect.valid(),
        ensures
            done == (self.record(row(fields@)) is Some),
            final(out)@ == (if done {
                old(out)@ + self.record(row(fields@))->0
            } else {
                old(out)@
            }),
    {
        let ghost before = out@;
        let ghost all = row(fields@);
        let start: usize = out.len();
        let mut at: usize = 0;
        assert(before + Seq::<u8>::empty() =~= before);
        while at < fields.len()
            invariant
                at <= fields.len(),
                self.dialect.valid(),
                all == row(fields@),
                before == old(out)@,
                start == before.len(),
                self.fields(all, at as int) is Some,
                out@ == before + self.fields(all, at as int)->0,
            decreases fields.len() - at,
        {
            let ghost front = self.fields(all, at as int)->0;
            if at > 0 {
                self.write_delimiter(out);
            }
            let ghost here = out@;
            let done = self.write_field(out, fields[at], at == 0);
            proof {
                assert(all[at as int] == cell(fields@[at as int]));
                assert(here =~= if at == 0 {
                    before + front
                } else {
                    before + (front + self.delimiter_bytes())
                });
            }
            if !done {
                assert(self.fields(all, at + 1) is None);
                proof {
                    lemma_unwritable(self, all, at + 1, all.len() as int);
                    assert(out@.take(here.len() as int) == here);
                    assert(out@.take(start as int) =~= here.take(start as int));
                    assert(here.take(start as int) =~= before);
                }
                out.truncate(start);
                return false;
            }
            proof {
                let last = self.field(all[at as int], at == 0)->0;
                if at == 0 {
                    assert(out@ =~= before + last);
                } else {
                    assert(out@ =~= before + (front + self.delimiter_bytes() + last));
                }
            }
            at += 1;
        }
        self.write_ending(out);
        assert(out@ =~= before + (self.fields(all, all.len() as int)->0 + self.ending_bytes()));
        true
    }
}

/// A record with a field that cannot be written cannot be written.
proof fn lemma_unwritable(writing: Writing, fields: Seq<Field>, some: int, all: int)
    requires
        0 < some <= all,
        writing.fields(fields, some) is None,
    ensures
        writing.fields(fields, all) is None,
    decreases all - some,
{
    if some < all {
        lemma_unwritable(writing, fields, some, all - 1);
    }
}

} // verus!
