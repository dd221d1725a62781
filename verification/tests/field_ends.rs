//! Field ends that carry a NULL flag.

use coseva::byte_record::ByteRecord;
use coseva::field_ends::{encode_end, end_is_null, end_offset, max_field_offset, MAX_FIELD_OFFSET};

#[test]
fn an_endpoint_within_the_bound_round_trips() {
    let plain = encode_end(8, false);
    assert_eq!(end_offset(plain), 8);
    assert!(!end_is_null(plain));

    let null = encode_end(8, true);
    assert_eq!(end_offset(null), 8);
    assert!(end_is_null(null));
}

#[test]
fn the_largest_representable_offset_is_accepted() {
    assert_eq!(
        end_offset(encode_end(MAX_FIELD_OFFSET, false)),
        MAX_FIELD_OFFSET
    );
    assert!(end_is_null(encode_end(MAX_FIELD_OFFSET, true)));
    assert_eq!(max_field_offset(), MAX_FIELD_OFFSET);
}

#[test]
fn endpoint_null_flags_report_an_exact_size_hint() {
    let mut record = ByteRecord::new();
    record.push_field(b"a");
    record.push_field(b"b");
    record.push_field(b"c");

    let mut flags = record.null_flags();
    assert_eq!(flags.size_hint(), (3, Some(3)));
    assert_eq!(flags.len(), 3);
    assert_eq!(flags.next(), Some(false));
    assert_eq!(flags.size_hint(), (2, Some(2)));
    assert_eq!(flags.count(), 2);
}

#[test]
fn a_record_tells_its_nulls_from_its_empty_fields() {
    let mut record = ByteRecord::with_capacity(3, 8);
    record.push_field(b"");
    record.push_null();
    record.push_field(b"abc");

    assert_eq!(record.len(), 3);
    assert!(!record.is_empty());
    assert_eq!(record.bytes_len(), 3);
    assert!(record.byte_capacity() >= 8);
    assert_eq!(record.get(0), Some(&b""[..]));
    assert_eq!(record.get(1), Some(&b""[..]));
    assert_eq!(record.get(2), Some(&b"abc"[..]));
    assert_eq!(record.get(3), None);
    assert!(!record.is_null(0));
    assert!(record.is_null(1));
    assert!(!record.is_null(2));

    let mut flags = record.null_flags();
    assert_eq!(flags.next(), Some(false));
    assert_eq!(flags.next(), Some(true));
    assert_eq!(flags.next(), Some(false));
    assert_eq!(flags.next(), None);

    record.clear();
    assert!(record.is_empty());
    assert_eq!(record.bytes_len(), 0);
}
