//! The error of a writer that could not be taken apart.

use coseva::error::{Error, ErrorKind};
use coseva::into_inner_error::IntoInnerError;

#[test]
fn debug_output_keeps_the_wrapper_and_error_field_labels() {
    let wrapped = IntoInnerError::new(17_u8, Error::detailed(ErrorKind::Decode, "flush failed"));
    let rendered = format!("{wrapped:?}");
    assert!(rendered.starts_with("IntoInnerError {"), "{rendered}");
    assert!(rendered.contains("error: Error"), "{rendered}");
}

#[test]
fn the_writer_and_the_reason_come_back() {
    let wrapped = IntoInnerError::new(17_u8, Error::detailed(ErrorKind::Decode, "flush failed"));
    assert_eq!(wrapped.error().kind(), ErrorKind::Decode);
    assert_eq!(wrapped.into_inner(), 17);

    let wrapped = IntoInnerError::new(17_u8, Error::detailed(ErrorKind::Decode, "flush failed"));
    assert_eq!(wrapped.into_error().message(), "flush failed");
}
