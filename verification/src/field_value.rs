//! A field of a record as a value.

use vstd::prelude::*;
use vstd::string::StringSliceAdditionalSpecFns;
use vstd::utf8::valid_utf8;

use crate::error::{Error, Location};
use crate::from_bytes::{refuses_utf8, ConversionError, FromBytes};
use crate::utf8::utf8_text;

verus! {

/// Whether an error says that field `index` is not UTF-8.
pub open spec fn field_is_not_utf8(bytes: Seq<u8>, index: usize, error: Error) -> bool {
    &&& refuses_utf8(bytes, error.spec_kind())
    &&& error.spec_location() == (Location { field: index, ..Location::unknown() })
    &&& error.is_plain()
}

/// Field `index` as text. A field that is not there is none.
pub fn get_str<'a>(field: Option<&'a [u8]>, index: usize) -> (result: Result<
    Option<&'a str>,
    Error,
>)
    ensures
        match field {
            None => result matches Ok(text) && text is None,
            Some(bytes) => if valid_utf8(bytes@) {
                result matches Ok(Some(text)) && text.spec_bytes() == bytes@
            } else {
                result matches Err(error) && field_is_not_utf8(bytes@, index, error)
            },
        },
{
    match field {
        None => Ok(None),
        Some(bytes) => match utf8_text(bytes) {
            Ok(text) => Ok(Some(text)),
            Err(error) => Err(Error::utf8(error, index, Location::unknown())),
        },
    }
}

/// Whether field `index` was converted like this.
pub open spec fn converted<T, E: ConversionError>(
    conversion: Result<T, E>,
    index: usize,
    result: Result<Option<T>, Error>,
) -> bool {
    match conversion {
        Ok(value) => result == Ok::<Option<T>, Error>(Some(value)),
        Err(failure) => result matches Err(error) && failure.reported_by(error)
            && error.spec_location() == (Location { field: index, ..Location::unknown() }),
    }
}

fn conversion<T, E: ConversionError>(outcome: Result<T, E>, index: usize) -> (result: Result<
    Option<T>,
    Error,
>)
    ensures
        converted(outcome, index, result),
{
    match outcome {
        Ok(value) => Ok(Some(value)),
        Err(failure) => Err(failure.into_error(Location::unknown(), index)),
    }
}

/// Read field `index`. A field that is not there is none.
pub fn parse<T: FromBytes>(field: Option<&[u8]>, index: usize) -> (result: Result<
    Option<T>,
    Error,
>)
    ensures
        match field {
            None => result == Ok::<Option<T>, Error>(None),
            Some(bytes) => exists|outcome: Result<T, T::Err>|
                #[trigger] T::reads(bytes@, outcome) && converted(outcome, index, result),
        },
{
    match field {
        None => Ok(None),
        Some(bytes) => {
            let outcome = T::from_bytes(bytes);
            let ghost read = outcome;
            let result = conversion(outcome, index);
            assert(T::reads(bytes@, read) && converted(read, index, result));
            result
        },
    }
}

/// Read field `index` with a function on text. A field that is not there is
/// none.
pub fn parse_from_str<T, E: ConversionError, F: Fn(&str) -> Result<T, E>>(
    field: Option<&[u8]>,
    index: usize,
    from_str: F,
) -> (result: Result<Option<T>, Error>)
    requires
        forall|text: &str| call_requires(from_str, (text,)),
    ensures
        match field {
            None => result == Ok::<Option<T>, Error>(None),
            Some(bytes) => if valid_utf8(bytes@) {
                exists|text: &str, outcome: Result<T, E>|
                    text.spec_bytes() == bytes@ && #[trigger] call_ensures(
                        from_str,
                        (text,),
                        outcome,
                    ) && converted(outcome, index, result)
            } else {
                result matches Err(error) && field_is_not_utf8(bytes@, index, error)
            },
        },
{
    match field {
        None => Ok(None),
        Some(bytes) => match utf8_text(bytes) {
            Ok(text) => {
                let outcome = from_str(text);
                let ghost read = outcome;
                let result = conversion(outcome, index);
                assert(call_ensures(from_str, (text,), read) && converted(read, index, result));
                result
            },
            Err(error) => Err(Error::utf8(error, index, Location::unknown())),
        },
    }
}

} // verus!
