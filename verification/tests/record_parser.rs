//! The fast-path record parsers.

use coseva::config::Limits;
use coseva::engine::record_parser::{
    count_structurals_scalar, structural_input_limit, try_parse_default_interior_prefix,
    try_parse_default_interior_prefix_windowed, try_parse_default_quoted_prefix,
    try_parse_default_quoted_record_structural,
    try_parse_default_quoted_record_structural_appending, try_parse_default_record,
    try_parse_default_record_prefix, try_parse_default_record_windowed,
    try_parse_named_dialect_record, try_parse_named_dialect_record_runtime,
    window_needs_field_limit,
};
use coseva::storage::RecordStorage;

fn filler(byte: u8, len: usize) -> Vec<u8> {
    vec![byte; len]
}

fn block_window(record: &[u8]) -> Vec<u8> {
    let mut input = record.to_vec();
    while input.len() < 64 {
        input.extend_from_slice(b"x,y\n");
    }
    input
}

#[test]
fn default_record_bails_when_a_quoted_field_exceeds_the_byte_limit() {
    let max_field = Limits::standard().max_field_bytes;
    let mut input = Vec::with_capacity(max_field + 2);
    input.push(b'"');
    input.extend(filler(b'x', max_field + 1));
    input.push(b'"');
    let mut output = RecordStorage::new();
    let result = try_parse_default_record::<true>(&input, &mut output);
    assert!(result.is_none(), "an over-long quoted field must bail");
}

#[test]
fn default_record_bails_when_an_unquoted_field_exceeds_the_byte_limit() {
    // A trailing comma is required so the field actually terminates and
    // the byte-limit check is reached, rather than the kernel bailing
    // earlier for lack of any delimiter at all.
    let max_field = Limits::standard().max_field_bytes;
    let mut input = filler(b'x', max_field + 1);
    input.extend_from_slice(b",z");
    let mut output = RecordStorage::new();
    let result = try_parse_default_record::<true>(&input, &mut output);
    assert!(result.is_none(), "an over-long unquoted field must bail");
}

#[test]
fn default_record_accepts_a_field_exactly_at_the_byte_limit() {
    let max_field = Limits::standard().max_field_bytes;
    let mut input = filler(b'x', max_field);
    input.push(b'\n');
    let mut output = RecordStorage::new();

    assert_eq!(
        try_parse_default_record::<true>(&input, &mut output),
        Some(input.len())
    );
    assert_eq!(output.len(), 1);
    assert_eq!(output.get(0).map(<[u8]>::len), Some(max_field));
}

#[test]
fn structural_fallback_clears_stale_output_before_scalar_parse() {
    let field = filler(b'x', 80);
    let mut input = Vec::from(&b"\""[..]);
    input.extend_from_slice(&field);
    input.extend_from_slice(b"\"\n");
    let mut output = RecordStorage::new();
    output.append_field(b"stale");

    assert_eq!(
        try_parse_default_quoted_record_structural::<true>(&input, &mut output),
        Some((input.len(), true))
    );
    assert_eq!(output.len(), 1);
    assert_eq!(output.get(0), Some(field.as_slice()));
}

#[test]
fn default_record_bails_when_a_quoted_last_field_exceeds_the_field_count_limit() {
    let mut input = filler(b',', Limits::standard().max_fields);
    input.extend_from_slice(b"\"z\"");
    let mut output = RecordStorage::new();
    let result = try_parse_default_record::<false>(&input, &mut output);
    assert!(
        result.is_none(),
        "a quoted field past the field-count limit must bail"
    );
}

#[test]
fn default_record_bails_when_an_unquoted_last_field_exceeds_the_field_count_limit() {
    // The trailing newline lets the field actually terminate, so the
    // field-count check inside `finish_default_field` is reached instead
    // of the kernel bailing earlier for lack of a delimiter.
    let mut input = filler(b',', Limits::standard().max_fields);
    input.extend_from_slice(b"z\n");
    let mut output = RecordStorage::new();
    let result = try_parse_default_record::<false>(&input, &mut output);
    assert!(
        result.is_none(),
        "an unquoted field past the field-count limit must bail"
    );
}

#[test]
fn structural_parser_uses_the_exact_input_window() {
    assert_eq!(structural_input_limit(b"abc"), 3);
}

#[test]
fn quoted_structural_record_decodes_separated_quotes_and_embedded_structurals() {
    let record = b"id,\"a,b\",7,\"x\ny\",\"z\"\r\n";
    let input = block_window(record);
    let mut output = RecordStorage::new();
    let parsed = try_parse_default_quoted_record_structural::<true>(&input, &mut output)
        .expect("the quote-aware structural path should parse the record");
    assert!(parsed.1);
    assert_eq!(parsed.0, record.len());
    assert_eq!(
        output.to_vecs(),
        [
            b"id".as_slice(),
            b"a,b".as_slice(),
            b"7".as_slice(),
            b"x\ny".as_slice(),
            b"z".as_slice(),
        ]
    );
}

#[test]
fn quoted_structural_record_decodes_doubled_quotes_from_the_mask() {
    let record = b"id,\"a\"\"b\",7,\"x\",\"y\"\n";
    let input = block_window(record);
    let mut output = RecordStorage::new();
    let parsed = try_parse_default_quoted_record_structural::<true>(&input, &mut output)
        .expect("the scalar fallback should decode doubled quotes");
    assert!(parsed.1);
    assert_eq!(parsed.0, record.len());
    assert_eq!(output.get(1), Some(&b"a\"b"[..]));
}

#[test]
fn quoted_structural_record_decodes_leading_escaped_fields() {
    let record = b"\"Bo\"\"ton\",\"Ma\"\"sachusetts\",4500000,42.3601,-71.0589,true\n";
    let input = block_window(record);
    let mut output = RecordStorage::new();
    let parsed = try_parse_default_quoted_record_structural::<true>(&input, &mut output)
        .expect("the structural parser should decode the escaped record");
    assert_eq!(parsed, (record.len(), true));
    assert_eq!(
        output.to_vecs(),
        [
            b"Bo\"ton".as_slice(),
            b"Ma\"sachusetts".as_slice(),
            b"4500000".as_slice(),
            b"42.3601".as_slice(),
            b"-71.0589".as_slice(),
            b"true".as_slice(),
        ]
    );
}

#[test]
fn quoted_structural_fallback_preserves_existing_prefix() {
    let mut output = RecordStorage::new();
    output.append_field(b"Boston");
    let parsed = try_parse_default_quoted_record_structural_appending::<true>(
        b"\"Massachusetts\",1\n",
        &mut output,
    )
    .expect("the scalar fallback should complete a short quoted tail");
    assert_eq!(parsed, (18, true));
    assert_eq!(
        output.to_vecs(),
        [
            b"Boston".as_slice(),
            b"Massachusetts".as_slice(),
            b"1".as_slice()
        ]
    );
}

#[test]
fn quoted_structural_record_decodes_doubled_quotes_across_the_mask_boundary() {
    let mut record = b"a,\"".to_vec();
    record.extend(filler(b'x', 28));
    record.extend_from_slice(b"\"\"y\",b\n");
    assert_eq!(&record[31..33], b"\"\"");
    let input = block_window(&record);
    let mut output = RecordStorage::new();
    let parsed = try_parse_default_quoted_record_structural::<true>(&input, &mut output)
        .expect("the doubled quote crossing the mask boundary should decode");
    assert_eq!(parsed, (record.len(), true));
    let mut expected = filler(b'x', 28);
    expected.extend_from_slice(b"\"y");
    assert_eq!(output.get(1), Some(expected.as_slice()));
}

#[test]
fn quoted_structural_record_decodes_a_doubled_quote_next_to_the_closing_quote() {
    let record = b"a,\"x\"\"\",b\n";
    let input = block_window(record);
    let mut output = RecordStorage::new();
    let parsed = try_parse_default_quoted_record_structural::<true>(&input, &mut output)
        .expect("an escaped quote immediately before the closing quote should decode");
    assert_eq!(parsed, (record.len(), true));
    assert_eq!(output.get(1), Some(&b"x\""[..]));
}

#[test]
fn quoted_structural_record_handles_each_mask_boundary() {
    for newline in [31, 32, 63] {
        let field = filler(b'x', newline - 6);
        let mut record = b"a,\"".to_vec();
        record.extend_from_slice(&field);
        record.extend_from_slice(b"\",b\n");
        assert_eq!(record.len() - 1, newline);
        let input = block_window(&record);
        let mut output = RecordStorage::new();
        let parsed = try_parse_default_quoted_record_structural::<true>(&input, &mut output)
            .expect("the record should cross the mask boundary");
        assert!(parsed.1);
        assert_eq!(parsed.0, record.len());
        assert_eq!(output.get(1), Some(field.as_slice()));
    }
}

#[test]
fn quoted_structural_record_falls_back_past_two_blocks() {
    let field = filler(b'x', 80);
    let mut record = b"a,\"".to_vec();
    record.extend_from_slice(&field);
    record.extend_from_slice(b"\",b\n");
    let mut output = RecordStorage::new();
    let parsed = try_parse_default_quoted_record_structural::<true>(&record, &mut output)
        .expect("the scalar fallback should parse a long record");
    assert!(parsed.1);
    assert_eq!(parsed.0, record.len());
    assert_eq!(output.get(1), Some(field.as_slice()));
}

#[test]
fn interior_prefix_hands_the_plain_tail_after_a_quoted_field_to_the_kernel() {
    let mut output = RecordStorage::new();
    let parsed = try_parse_default_interior_prefix::<false>(b"a,\"b\",c\n", &mut output)
        .expect("a plain head followed by a quoted field is a valid prefix");
    assert!(!parsed.1, "an unquoted tail remains for the kernel");
    assert_eq!(parsed.0, 6, "the offset points at the plain tail field");
    assert_eq!(output.get(0), Some(&b"a"[..]));
    assert_eq!(output.get(1), Some(&b"b"[..]));
    assert_eq!(
        output.len(),
        2,
        "only the head and the quoted field are read"
    );
}

#[test]
fn interior_prefix_parses_a_fully_plain_record_to_its_end() {
    let mut output = RecordStorage::new();
    let parsed = try_parse_default_interior_prefix::<false>(b"a,b,c\n", &mut output)
        .expect("a record that never quotes is parsed to its end here");
    assert!(parsed.1, "the record ends at the newline");
    assert_eq!(parsed.0, 6);
    assert_eq!(output.get(0), Some(&b"a"[..]));
    assert_eq!(output.get(1), Some(&b"b"[..]));
    assert_eq!(output.get(2), Some(&b"c"[..]));
}

#[test]
fn interior_prefix_ends_on_a_trailing_quoted_field() {
    let mut output = RecordStorage::new();
    let parsed = try_parse_default_interior_prefix::<false>(b"a,\"b\"\n", &mut output)
        .expect("a quoted last field terminates the record");
    assert!(parsed.1, "the quoted field ran to the newline");
    assert_eq!(parsed.0, 6);
    assert_eq!(output.get(1), Some(&b"b"[..]));
}

#[test]
fn interior_prefix_hands_an_adjacent_quoted_field_to_the_kernel() {
    let mut output = RecordStorage::new();
    let parsed = try_parse_default_interior_prefix::<false>(b"a,\"b\",\"c\"\n", &mut output)
        .expect("the first quoted field is a valid prefix");
    assert_eq!(parsed, (6, false));
    assert_eq!(output.get(1), Some(&b"b"[..]));
    assert_eq!(output.len(), 2);
}

#[test]
fn interior_prefix_unescapes_a_doubled_quote_in_the_interior_field() {
    let mut output = RecordStorage::new();
    let parsed = try_parse_default_interior_prefix::<false>(b"a,\"b\"\"c\"\n", &mut output)
        .expect("a doubled quote is a valid escape");
    assert!(parsed.1);
    assert_eq!(parsed.0, 9);
    assert_eq!(output.get(1), Some(&b"b\"c"[..]));
}

#[test]
fn interior_prefix_strips_the_carriage_return_of_a_crlf_plain_field() {
    let mut output = RecordStorage::new();
    let parsed = try_parse_default_interior_prefix::<false>(b"a,b\r\n", &mut output)
        .expect("a CRLF-terminated plain record is parsed here");
    assert!(parsed.1);
    assert_eq!(parsed.0, 5);
    assert_eq!(
        output.get(1),
        Some(&b"b"[..]),
        "the carriage return is dropped"
    );
}

#[test]
fn interior_prefix_handles_a_crlf_ending_after_the_interior_quoted_field() {
    let mut output = RecordStorage::new();
    let parsed = try_parse_default_interior_prefix::<false>(b"a,\"b\"\r\n", &mut output)
        .expect("a quoted last field followed by CRLF terminates the record");
    assert!(parsed.1);
    assert_eq!(parsed.0, 7);
    assert_eq!(output.get(1), Some(&b"b"[..]));
}

#[test]
fn interior_prefix_bails_on_a_stray_byte_after_the_interior_quote() {
    let mut output = RecordStorage::new();
    let result = try_parse_default_interior_prefix::<false>(b"a,\"b\"x\n", &mut output);
    assert!(
        result.is_none(),
        "a byte other than a delimiter or terminator after a quote must bail"
    );
}

#[test]
fn interior_prefix_bails_on_a_quote_inside_the_plain_prefix() {
    let mut output = RecordStorage::new();
    let result = try_parse_default_interior_prefix::<false>(b"a\"b,c\n", &mut output);
    assert!(
        result.is_none(),
        "a quote inside an unquoted prefix field must bail for the general loop"
    );
}

#[test]
fn interior_prefix_bails_when_the_plain_prefix_field_exceeds_the_byte_limit() {
    let max_field = Limits::standard().max_field_bytes;
    let mut input = filler(b'x', max_field + 1);
    input.extend_from_slice(b",\"z\"\n");
    let mut output = RecordStorage::new();
    let result = try_parse_default_interior_prefix::<true>(&input, &mut output);
    assert!(
        result.is_none(),
        "an over-long plain prefix field must bail"
    );
}

#[test]
fn interior_prefix_bails_when_the_interior_quoted_field_exceeds_the_byte_limit() {
    let max_field = Limits::standard().max_field_bytes;
    let mut input = Vec::with_capacity(max_field + 6);
    input.extend_from_slice(b"p,\"");
    input.extend(filler(b'x', max_field + 1));
    input.extend_from_slice(b"\"\n");
    let mut output = RecordStorage::new();
    let result = try_parse_default_interior_prefix::<true>(&input, &mut output);
    assert!(
        result.is_none(),
        "an over-long interior quoted field must bail"
    );
}

#[test]
fn prefix_parsers_accept_fields_exactly_at_the_byte_limit() {
    let max_field = Limits::standard().max_field_bytes;

    let mut quoted = Vec::from(&b"\""[..]);
    quoted.extend(filler(b'x', max_field));
    quoted.extend_from_slice(b"\"\n");
    let mut quoted_output = RecordStorage::new();
    assert_eq!(
        try_parse_default_quoted_prefix::<true>(&quoted, &mut quoted_output),
        Some((quoted.len(), true))
    );
    assert_eq!(quoted_output.get(0).map(<[u8]>::len), Some(max_field));

    let mut interior = Vec::from(&b"p,\""[..]);
    interior.extend(filler(b'x', max_field));
    interior.extend_from_slice(b"\"\n");
    let mut interior_output = RecordStorage::new();
    assert_eq!(
        try_parse_default_interior_prefix::<true>(&interior, &mut interior_output),
        Some((interior.len(), true))
    );
    assert_eq!(interior_output.get(1).map(<[u8]>::len), Some(max_field));
}

#[test]
fn named_dialect_record_ends_a_quoted_field_at_crlf() {
    let mut output = RecordStorage::new();
    let consumed =
        try_parse_named_dialect_record::<b';', false, false>(b"\"a\"\r\n", &mut output)
            .expect("quoted field followed by CRLF is a complete record");
    assert_eq!(consumed, 5);
    assert_eq!(output.get(0), Some(&b"a"[..]));
}

#[test]
fn named_dialect_record_bails_when_a_quoted_field_exceeds_the_byte_limit() {
    let max_field = Limits::standard().max_field_bytes;
    let mut input = Vec::with_capacity(max_field + 2);
    input.push(b'"');
    input.extend(filler(b'x', max_field + 1));
    input.push(b'"');
    let mut output = RecordStorage::new();
    let result = try_parse_named_dialect_record::<b';', false, true>(&input, &mut output);
    assert!(result.is_none(), "an over-long quoted field must bail");
}

#[test]
fn named_dialect_record_bails_when_a_backslash_escape_pushes_a_field_over_the_byte_limit() {
    let max_field = Limits::standard().max_field_bytes;
    let mut input = Vec::with_capacity(max_field + 4);
    input.push(b'"');
    input.extend(filler(b'x', max_field - 1));
    input.extend_from_slice(b"\\\"\"\n");
    let mut output = RecordStorage::new();
    let result = try_parse_named_dialect_record::<b',', true, true>(&input, &mut output);
    assert!(
        result.is_none(),
        "a backslash escape that pushes a field over the byte limit must bail"
    );
}

#[test]
fn named_dialect_record_bails_when_a_doubled_quote_pushes_a_field_over_the_byte_limit() {
    let max_field = Limits::standard().max_field_bytes;
    let mut input = Vec::with_capacity(max_field + 4);
    input.push(b'"');
    input.extend(filler(b'x', max_field - 1));
    input.extend_from_slice(b"\"\"\"\n");
    let mut output = RecordStorage::new();
    let result = try_parse_named_dialect_record::<b';', false, true>(&input, &mut output);
    assert!(
        result.is_none(),
        "a doubled quote that pushes a field over the byte limit must bail"
    );
}

#[test]
fn named_dialect_record_bails_when_an_unquoted_field_exceeds_the_byte_limit() {
    // A trailing delimiter is required so the field actually terminates
    // and the byte-limit check is reached.
    let max_field = Limits::standard().max_field_bytes;
    let mut input = filler(b'x', max_field + 1);
    input.extend_from_slice(b";z");
    let mut output = RecordStorage::new();
    let result = try_parse_named_dialect_record::<b';', false, true>(&input, &mut output);
    assert!(result.is_none(), "an over-long unquoted field must bail");
}

#[test]
fn named_dialect_limit_accounting_is_exact_and_observable() {
    let max_field = Limits::standard().max_field_bytes;

    let mut exact_plain = filler(b'x', max_field);
    exact_plain.push(b'\n');
    let mut output = RecordStorage::new();
    assert_eq!(
        try_parse_named_dialect_record::<b';', false, true>(&exact_plain, &mut output),
        Some(exact_plain.len())
    );
    assert_eq!(output.get(0).map(<[u8]>::len), Some(max_field));

    output.clear();
    assert_eq!(
        try_parse_named_dialect_record::<b';', false, true>(b"\"a\"\n", &mut output),
        Some(4),
        "the parser starts at the opening quote, not one byte into the field"
    );
    assert_eq!(output.get(0), Some(&b"a"[..]));

    let mut doubled_boundary = Vec::from(&b"\""[..]);
    doubled_boundary.extend(filler(b'x', max_field - 2));
    doubled_boundary.extend_from_slice(b"\"\"\"\n");
    output.clear();
    assert_eq!(
        try_parse_named_dialect_record::<b';', false, true>(&doubled_boundary, &mut output,),
        Some(doubled_boundary.len()),
        "a doubled quote may end exactly on the raw-byte limit"
    );

    let mut backslash_boundary = Vec::from(&b"\""[..]);
    backslash_boundary.extend(filler(b'x', max_field - 2));
    backslash_boundary.extend_from_slice(b"\\\"\"\n");
    output.clear();
    assert_eq!(
        try_parse_named_dialect_record::<b';', true, true>(&backslash_boundary, &mut output,),
        Some(backslash_boundary.len()),
        "a backslash escape may end exactly on the raw-byte limit"
    );

    for backslash in [false, true] {
        let mut exact = Vec::from(&b"\""[..]);
        exact.extend(filler(b'x', max_field - 4));
        if backslash {
            exact.extend_from_slice(b"\\\"");
        } else {
            exact.extend_from_slice(b"\"\"");
        }
        exact.extend_from_slice(b"yy\"\n");
        output.clear();
        let parsed = if backslash {
            try_parse_named_dialect_record::<b';', true, true>(&exact, &mut output)
        } else {
            try_parse_named_dialect_record::<b';', false, true>(&exact, &mut output)
        };
        assert_eq!(parsed, Some(exact.len()));

        let mut over = Vec::from(&b"\""[..]);
        over.extend(filler(b'x', max_field - 4));
        if backslash {
            over.extend_from_slice(b"\\\"");
        } else {
            over.extend_from_slice(b"\"\"");
        }
        over.extend_from_slice(b"yyy\"\n");
        output.clear();
        let parsed = if backslash {
            try_parse_named_dialect_record::<b';', true, true>(&over, &mut output)
        } else {
            try_parse_named_dialect_record::<b';', false, true>(&over, &mut output)
        };
        assert!(
            parsed.is_none(),
            "under-counting the two raw escape bytes would accept this field"
        );
    }

    let mut unchecked = Vec::from(&b"\""[..]);
    unchecked.extend(filler(b'x', max_field + 1));
    unchecked.extend_from_slice(b"\"\n");
    output.clear();
    assert_eq!(
        try_parse_named_dialect_record::<b';', false, false>(&unchecked, &mut output),
        Some(unchecked.len()),
        "the unchecked instantiation must not apply the default field limit"
    );
}

#[test]
fn named_dialect_record_bails_when_a_quoted_last_field_exceeds_the_field_count_limit() {
    let mut input = filler(b';', Limits::standard().max_fields);
    input.extend_from_slice(b"\"z\"");
    let mut output = RecordStorage::new();
    let result = try_parse_named_dialect_record::<b';', false, false>(&input, &mut output);
    assert!(
        result.is_none(),
        "a quoted field past the field-count limit must bail"
    );
}

#[test]
fn named_dialect_record_bails_when_an_unquoted_last_field_exceeds_the_field_count_limit() {
    // The trailing newline lets the field actually terminate, so the
    // field-count check inside `finish_default_field` is reached.
    let mut input = filler(b';', Limits::standard().max_fields);
    input.extend_from_slice(b"z\n");
    let mut output = RecordStorage::new();
    let result = try_parse_named_dialect_record::<b';', false, false>(&input, &mut output);
    assert!(
        result.is_none(),
        "an unquoted field past the field-count limit must bail"
    );
}

fn exercise_dialect_parser<
    const DELIM: u8,
    const BACKSLASH: bool,
    const CHECK_LIMIT: bool,
>() {
    let mut out = RecordStorage::new();
    // 1. Quoted field followed by newline
    let q_lf = if BACKSLASH {
        "\"hello\\\"world\"\n".to_string()
    } else {
        "\"hello\"\"world\"\n".to_string()
    };
    out.clear();
    assert!(
        try_parse_named_dialect_record::<DELIM, BACKSLASH, CHECK_LIMIT>(
            q_lf.as_bytes(),
            &mut out
        )
        .is_some()
    );

    // 2. Quoted field followed by CRLF
    let q_crlf = "\"val\"\r\n".to_string();
    out.clear();
    assert!(
        try_parse_named_dialect_record::<DELIM, BACKSLASH, CHECK_LIMIT>(
            q_crlf.as_bytes(),
            &mut out
        )
        .is_some()
    );

    // 3. Quoted field followed by delimiter and unquoted field
    let q_delim = format!("\"head\"{}{}\n", DELIM as char, "tail");
    out.clear();
    assert!(
        try_parse_named_dialect_record::<DELIM, BACKSLASH, CHECK_LIMIT>(
            q_delim.as_bytes(),
            &mut out
        )
        .is_some()
    );

    // 4. Unquoted field with CRLF
    let unq_crlf = "abc\r\n".to_string();
    out.clear();
    assert!(
        try_parse_named_dialect_record::<DELIM, BACKSLASH, CHECK_LIMIT>(
            unq_crlf.as_bytes(),
            &mut out
        )
        .is_some()
    );

    // 5. Unquoted field with LF
    let unq_lf = "abc\n".to_string();
    out.clear();
    assert!(
        try_parse_named_dialect_record::<DELIM, BACKSLASH, CHECK_LIMIT>(
            unq_lf.as_bytes(),
            &mut out
        )
        .is_some()
    );

    // 6. Unquoted field with delimiter
    let unq_delim = format!("abc{}def\n", DELIM as char);
    out.clear();
    assert!(
        try_parse_named_dialect_record::<DELIM, BACKSLASH, CHECK_LIMIT>(
            unq_delim.as_bytes(),
            &mut out
        )
        .is_some()
    );

    // 7. Stray byte after quote
    out.clear();
    assert!(
        try_parse_named_dialect_record::<DELIM, BACKSLASH, CHECK_LIMIT>(
            b"\"a\"x\n",
            &mut out
        )
        .is_none()
    );

    // 8. Stray \r without \n after quote
    out.clear();
    assert!(
        try_parse_named_dialect_record::<DELIM, BACKSLASH, CHECK_LIMIT>(
            b"\"a\"\rx",
            &mut out
        )
        .is_none()
    );

    // 9. EOF after quote
    out.clear();
    assert!(
        try_parse_named_dialect_record::<DELIM, BACKSLASH, CHECK_LIMIT>(b"\"a\"", &mut out)
            .is_none()
    );

    // 10. Unterminated quote
    out.clear();
    assert!(
        try_parse_named_dialect_record::<DELIM, BACKSLASH, CHECK_LIMIT>(
            b"\"unterminated",
            &mut out
        )
        .is_none()
    );

    // 11. Quote inside unquoted field
    out.clear();
    assert!(
        try_parse_named_dialect_record::<DELIM, BACKSLASH, CHECK_LIMIT>(
            b"a\"b\n", &mut out
        )
        .is_none()
    );

    // 12. Empty
    out.clear();
    assert!(
        try_parse_named_dialect_record::<DELIM, BACKSLASH, CHECK_LIMIT>(b"", &mut out)
            .is_none()
    );

    // 13. Unquoted field with no delimiter or newline
    out.clear();
    assert!(
        try_parse_named_dialect_record::<DELIM, BACKSLASH, CHECK_LIMIT>(
            b"no_delim",
            &mut out
        )
        .is_none()
    );

    // 14. Max fields exceeded for quoted and unquoted fields
    let mut max_fields_unq = vec![DELIM; Limits::standard().max_fields];
    max_fields_unq.extend_from_slice(b"z\n");
    out.clear();
    assert!(
        try_parse_named_dialect_record::<DELIM, BACKSLASH, CHECK_LIMIT>(
            &max_fields_unq,
            &mut out
        )
        .is_none()
    );

    let mut max_fields_q = vec![DELIM; Limits::standard().max_fields];
    max_fields_q.extend_from_slice(b"\"z\"\n");
    out.clear();
    assert!(
        try_parse_named_dialect_record::<DELIM, BACKSLASH, CHECK_LIMIT>(
            &max_fields_q,
            &mut out
        )
        .is_none()
    );

    // 15. Backslash specific tests if BACKSLASH is true
    if BACKSLASH {
        out.clear();
        assert!(
            try_parse_named_dialect_record::<DELIM, BACKSLASH, CHECK_LIMIT>(
                b"\"a\\\\b\"\n",
                &mut out
            )
            .is_some()
        );
        out.clear();
        assert!(
            try_parse_named_dialect_record::<DELIM, BACKSLASH, CHECK_LIMIT>(
                b"\"a\\xb\"\n",
                &mut out
            )
            .is_none()
        );
        out.clear();
        assert!(
            try_parse_named_dialect_record::<DELIM, BACKSLASH, CHECK_LIMIT>(
                b"\"a\\", &mut out
            )
            .is_none()
        );
    }

    // 16. Limits
    if CHECK_LIMIT {
        let max_field = Limits::standard().max_field_bytes;
        let mut long_q = vec![b'"'];
        long_q.extend(std::iter::repeat_n(b'x', max_field + 1));
        long_q.push(b'"');
        out.clear();
        assert!(
            try_parse_named_dialect_record::<DELIM, BACKSLASH, CHECK_LIMIT>(
                &long_q, &mut out
            )
            .is_none()
        );

        let mut long_unq = vec![b'x'; max_field + 1];
        long_unq.push(DELIM);
        long_unq.push(b'z');
        out.clear();
        assert!(
            try_parse_named_dialect_record::<DELIM, BACKSLASH, CHECK_LIMIT>(
                &long_unq, &mut out
            )
            .is_none()
        );

        // Escape or doubled quote pushing field over limit
        let mut esc_over = vec![b'"'];
        esc_over.extend(std::iter::repeat_n(b'x', max_field - 1));
        if BACKSLASH {
            esc_over.extend_from_slice(b"\\\"\"\n");
        } else {
            esc_over.extend_from_slice(b"\"\"\"\n");
        }
        out.clear();
        assert!(
            try_parse_named_dialect_record::<DELIM, BACKSLASH, CHECK_LIMIT>(
                &esc_over, &mut out
            )
            .is_none()
        );

        // Segment before escape exceeding remaining limit
        let mut seg_over = vec![b'"'];
        if BACKSLASH {
            seg_over.extend_from_slice(b"\\\\");
        } else {
            seg_over.extend_from_slice(b"\"\"");
        }
        seg_over.extend(std::iter::repeat_n(b'x', max_field));
        seg_over.push(b'"');
        out.clear();
        assert!(
            try_parse_named_dialect_record::<DELIM, BACKSLASH, CHECK_LIMIT>(
                &seg_over, &mut out
            )
            .is_none()
        );
    }
}

#[test]
fn named_dialect_record_all_instantiations() {
    exercise_dialect_parser::<b'\t', false, true>();
    exercise_dialect_parser::<b'\t', false, false>();
    exercise_dialect_parser::<b';', false, true>();
    exercise_dialect_parser::<b';', false, false>();
    exercise_dialect_parser::<b'|', false, true>();
    exercise_dialect_parser::<b'|', false, false>();
    exercise_dialect_parser::<b',', true, true>();
    exercise_dialect_parser::<b',', true, false>();
    exercise_dialect_parser::<b'\t', true, true>();
    exercise_dialect_parser::<b'\t', true, false>();

    let count = count_structurals_scalar(b"a,b\nc,\"d\"\n", b',', b'"', b'\n');
    assert_eq!(count, 6);

    // try_parse_default_quoted_prefix and try_parse_default_record_prefix permutations
    let mut out_qp = RecordStorage::new();
    let res_qp = try_parse_default_quoted_prefix::<true>(b"\"quoted\",plain\n", &mut out_qp);
    assert_eq!(res_qp, Some((9, false)));
    let res_qp_false = try_parse_default_quoted_prefix::<false>(b"\"quoted\"\n", &mut out_qp);
    assert_eq!(res_qp_false, Some((9, true)));

    let mut out_rp = RecordStorage::new();
    let res_rp = try_parse_default_record_prefix::<true>(b"a,b\n", &mut out_rp);
    assert_eq!(res_rp, Some((4, true)));
    let res_rp_false = try_parse_default_record_prefix::<false>(b"a,b\n", &mut out_rp);
    assert_eq!(res_rp_false, Some((4, true)));
    assert!(try_parse_default_record_prefix::<true>(b"\"unterminated", &mut out_rp).is_none());
    assert!(try_parse_default_record_prefix::<false>(b"\"unterminated", &mut out_rp).is_none());

    let mut out_struct = RecordStorage::new();
    let res_struct_false =
        try_parse_default_quoted_record_structural::<false>(b"\"a,b\",c\n", &mut out_struct);
    assert!(res_struct_false.is_some());
    out_struct.clear();
    let res_struct_false_fb =
        try_parse_default_quoted_record_structural::<false>(b"\"unterminated", &mut out_struct);
    assert!(res_struct_false_fb.is_none());
    out_struct.clear();
    let res_struct_true_fb =
        try_parse_default_quoted_record_structural::<true>(b"\"unterminated", &mut out_struct);
    assert!(res_struct_true_fb.is_none());
}

#[test]
fn windowed_parsers_bound_fields_only_where_one_could_be_too_long() {
    let max_field = Limits::standard().max_field_bytes;
    assert!(!window_needs_field_limit(&filler(b'x', max_field)));
    assert!(window_needs_field_limit(&filler(b'x', max_field + 1)));

    let mut output = RecordStorage::new();
    assert_eq!(try_parse_default_record_windowed(b"a,\"b\"\nrest", &mut output), Some(6));
    assert_eq!(output.to_vecs(), [b"a".as_slice(), b"b".as_slice()]);

    let mut long = filler(b'x', max_field + 1);
    long.push(b'\n');
    output.clear();
    assert!(try_parse_default_record_windowed(&long, &mut output).is_none());
    output.clear();
    assert!(try_parse_default_interior_prefix_windowed(&long, &mut output).is_none());
    output.clear();
    assert_eq!(
        try_parse_default_interior_prefix_windowed(b"a,\"b\",c\n", &mut output),
        Some((6, false))
    );
}

#[test]
fn the_runtime_parser_takes_its_delimiter_as_a_value() {
    let mut output = RecordStorage::new();
    assert_eq!(
        try_parse_named_dialect_record_runtime(b"a|\"b|c\"\n", &mut output, b'|', false, false),
        Some(8)
    );
    assert_eq!(output.to_vecs(), [b"a".as_slice(), b"b|c".as_slice()]);
}
