//! Reading records into owned storage.

use coseva::config::{
    Dialect, Escape, FieldCount, Limits, Nulls, Recovery, Syntax,
};
use coseva::engine::owned_parser::{
    use_short_owned_fields, INTERIOR_QUOTE_RUN, WIDE_RECORD_FIELDS,
};
use coseva::engine::{Engine, PrefixParser, RecordParser};
use coseva::error::{Error, ErrorKind};
use coseva::options::{FormatOptions, FormatTag, ParserSettings};
use coseva::storage::RecordStorage;

fn csv_dialect() -> Dialect {
    FormatOptions::csv().dialect
}

fn assert_owned_error(error: Error, kind: ErrorKind, byte: usize, field: usize) {
    assert_eq!(error.kind(), kind);
    assert_eq!(error.location().byte, byte);
    assert_eq!(error.location().field, field);
}

fn fields(output: &RecordStorage) -> Vec<Vec<u8>> {
    output.to_vecs()
}

fn configure_prediction_parsers(engine: &mut Engine) {
    engine.plain_kernel = true;
    engine.owned_parser = Some(RecordParser { delimiter: b',', backslash: false });
    engine.quoted_prefix_parser = Some(PrefixParser::QuotedPrefix);
    engine.interior_prefix_parser = Some(PrefixParser::InteriorPrefix);
    engine.interior_handoff_parser = engine.interior_prefix_parser;
    engine.multi_quote_parser = Some(PrefixParser::Record);
}

#[test]
fn prediction_count_and_parser_selection_are_exact() {
    assert!(!use_short_owned_fields(WIDE_RECORD_FIELDS - 1));
    assert!(use_short_owned_fields(WIDE_RECORD_FIELDS));

    let quoted = b"\"a\"\n";
    let mut countdown = Engine::from_config(
        quoted,
        ParserSettings::unheaded(csv_dialect(), Limits::standard()),
    );
    configure_prediction_parsers(&mut countdown);
    countdown.interior_quotes = 2;
    let mut countdown_output = RecordStorage::new();
    countdown
        .parse_owned_record(quoted, &mut countdown_output, 0, false)
        .expect("valid quoted record");
    assert_eq!(countdown.interior_quotes, 1);
    assert_eq!(countdown.location, quoted.len());

    let interior = b"a,\"b\",c\n";
    let mut predicted = Engine::from_config(
        interior,
        ParserSettings::unheaded(csv_dialect(), Limits::standard()),
    );
    configure_prediction_parsers(&mut predicted);
    predicted.interior_quotes = 2;
    let mut predicted_output = RecordStorage::new();
    predicted
        .parse_owned_record(interior, &mut predicted_output, 0, false)
        .expect("the predicted interior parser completes the record");
    assert_eq!(predicted.interior_quotes, 1);
    assert_eq!(predicted.location, interior.len());
    assert_eq!(
        fields(&predicted_output),
        [b"a".as_slice(), b"b".as_slice(), b"c".as_slice()]
    );

    let mut first_bail = Engine::from_config(
        interior,
        ParserSettings::unheaded(csv_dialect(), Limits::standard()),
    );
    configure_prediction_parsers(&mut first_bail);
    let expected_handoff = first_bail
        .interior_handoff_parser;
    first_bail.interior_prefix_parser = first_bail.multi_quote_parser;
    assert_ne!(
        first_bail
            .interior_prefix_parser,
        expected_handoff
    );
    let mut first_bail_output = RecordStorage::new();
    first_bail
        .parse_owned_record(interior, &mut first_bail_output, 0, false)
        .expect("the first interior quote resumes successfully");
    assert_eq!(first_bail.interior_quotes, INTERIOR_QUOTE_RUN);
    assert_eq!(
        first_bail
            .interior_prefix_parser,
        expected_handoff
    );
    assert_eq!(first_bail.location, interior.len());
}

#[test]
fn repeated_interior_quotes_select_the_multi_quote_parser_and_mark_nulls() {
    let input = b"\"a\",\\N,\"c\",d\n";
    let mut settings = ParserSettings::unheaded(csv_dialect(), Limits::standard());
    settings.nulls = Nulls::Mysql;
    let mut engine = Engine::from_config(input, settings);
    configure_prediction_parsers(&mut engine);
    let expected_multi = engine.multi_quote_parser;
    let initial = engine.interior_prefix_parser;
    assert_ne!(initial, expected_multi);
    let mut output = RecordStorage::new();

    engine
        .parse_owned_record(input, &mut output, 0, false)
        .expect("valid alternating quoted record");

    assert_eq!(engine.location, input.len());
    assert_eq!(engine.interior_quotes, INTERIOR_QUOTE_RUN);
    assert_eq!(
        engine.interior_prefix_parser,
        expected_multi
    );
    assert_eq!(
        fields(&output),
        [
            b"a".as_slice(),
            b"".as_slice(),
            b"c".as_slice(),
            b"d".as_slice(),
        ]
    );
    assert_eq!(output.is_null(0), Some(false));
    assert_eq!(output.is_null(1), Some(true));
    assert_eq!(output.is_null(2), Some(false));

    let leading = b"\"a\",\\N\n";
    let mut leading_settings = ParserSettings::unheaded(csv_dialect(), Limits::standard());
    leading_settings.nulls = Nulls::Mysql;
    let mut leading_engine = Engine::from_config(leading, leading_settings);
    configure_prediction_parsers(&mut leading_engine);
    let mut leading_output = RecordStorage::new();
    leading_engine
        .parse_owned_record(leading, &mut leading_output, 0, false)
        .expect("the plain tail after a quoted head is valid");
    assert_eq!(fields(&leading_output), [b"a".as_slice(), b"".as_slice()]);
    assert_eq!(leading_output.is_null(1), Some(true));

    let interior = b"a,\"b\",\\N\n";
    let mut interior_settings = ParserSettings::unheaded(csv_dialect(), Limits::standard());
    interior_settings.nulls = Nulls::Mysql;
    let mut interior_engine = Engine::from_config(interior, interior_settings);
    configure_prediction_parsers(&mut interior_engine);
    interior_engine.interior_quotes = 1;
    let mut interior_output = RecordStorage::new();
    interior_engine
        .parse_owned_record(interior, &mut interior_output, 0, false)
        .expect("the predicted interior quoted field and plain tail are valid");
    assert_eq!(
        fields(&interior_output),
        [b"a".as_slice(), b"b".as_slice(), b"".as_slice()]
    );
    assert_eq!(interior_output.is_null(2), Some(true));
}

#[test]
fn interior_prefix_field_count_errors_report_the_concrete_actual_count() {
    let input = b"a,\"b\",c\n";
    let mut settings = ParserSettings::unheaded(csv_dialect(), Limits::standard());
    settings.field_count = FieldCount::Exact(2);
    let mut engine = Engine::from_config(input, settings);
    configure_prediction_parsers(&mut engine);
    engine.interior_quotes = 2;
    let mut output = RecordStorage::new();

    let error = engine
        .parse_owned_record(input, &mut output, 0, false)
        .expect_err("three fields violate the exact count of two");
    assert_eq!(
        error.kind(),
        ErrorKind::FieldCountMismatch {
            expected: 2,
            actual: 3,
        }
    );

    let repeated = b"a,\"b\",c,\"d\",e\n";
    let mut repeated_settings = ParserSettings::unheaded(csv_dialect(), Limits::standard());
    repeated_settings.field_count = FieldCount::Exact(4);
    let mut repeated_engine = Engine::from_config(repeated, repeated_settings);
    configure_prediction_parsers(&mut repeated_engine);
    repeated_engine.interior_quotes = 2;
    let mut repeated_output = RecordStorage::new();
    let error = repeated_engine
        .parse_owned_record(repeated, &mut repeated_output, 0, false)
        .expect_err("five fields violate the exact count of four");
    assert_eq!(
        error.kind(),
        ErrorKind::FieldCountMismatch {
            expected: 4,
            actual: 5,
        }
    );
    assert_eq!(repeated_engine.interior_quotes, INTERIOR_QUOTE_RUN);
    assert_eq!(
        repeated_engine
            .interior_prefix_parser,
        repeated_engine
            .multi_quote_parser
    );

    let nullable = b"a,\"b\",\\N,\"d\",e\n";
    let mut nullable_settings = ParserSettings::unheaded(csv_dialect(), Limits::standard());
    nullable_settings.nulls = Nulls::Mysql;
    let mut nullable_engine = Engine::from_config(nullable, nullable_settings);
    configure_prediction_parsers(&mut nullable_engine);
    nullable_engine.interior_quotes = 2;
    let mut nullable_output = RecordStorage::new();
    nullable_engine
        .parse_owned_record(nullable, &mut nullable_output, 0, false)
        .expect("the predicted multi-quote record is valid");
    assert_eq!(nullable_output.is_null(2), Some(true));

    let malformed = b"a,\"b\",\\N,\"bad\"x";
    let mut malformed_settings = ParserSettings::unheaded(csv_dialect(), Limits::standard());
    malformed_settings.nulls = Nulls::Mysql;
    let mut malformed_engine = Engine::from_config(malformed, malformed_settings);
    configure_prediction_parsers(&mut malformed_engine);
    let mut malformed_output = RecordStorage::new();
    assert!(
        !malformed_engine
            .parse_owned_interior_prefix(malformed, &mut malformed_output, 0, false,)
            .expect("malformed input falls back")
    );
    assert_eq!(malformed_output.is_null(2), Some(true));
}

#[test]
fn quoted_resume_window_obeys_both_sides_of_the_record_limit() {
    let exact = b"xx\"a\"\n";
    let mut exact_engine = Engine::from_config(
        exact,
        ParserSettings::unheaded(csv_dialect(), Limits::new(4, 100, 10)),
    );
    configure_prediction_parsers(&mut exact_engine);
    exact_engine.location = 2;
    assert_eq!(
        exact_engine.owned_resume_window(exact, 2),
        Some(&exact[2..6])
    );
    exact_engine.location = 6;
    assert_eq!(exact_engine.owned_resume_window(exact, 2), None);
    exact_engine.location = 7;
    assert_eq!(exact_engine.owned_resume_window(exact, 2), None);
    exact_engine.location = 2;
    let mut exact_output = RecordStorage::new();
    assert!(
        exact_engine
            .resume_owned_after_interior_quote(exact, &mut exact_output, 2,)
            .expect("exact record window")
    );
    assert_eq!(exact_engine.location, exact.len());
    assert_eq!(exact_output.get(0), Some(&b"a"[..]));

    let over = b"xx\"abc\"";
    let mut over_engine = Engine::from_config(
        over,
        ParserSettings::unheaded(csv_dialect(), Limits::new(4, 100, 10)),
    );
    configure_prediction_parsers(&mut over_engine);
    over_engine.location = 2;
    assert_eq!(over_engine.owned_resume_window(over, 2), Some(&over[2..6]));
    let mut over_output = RecordStorage::new();
    assert!(
        !over_engine
            .resume_owned_after_interior_quote(over, &mut over_output, 2)
            .expect("the over-limit closing quote is outside the parser window")
    );
    assert_eq!(over_engine.location, 2);
    assert!(over_output.is_empty());

    let mut call_site = Engine::from_config(
        over,
        ParserSettings::unheaded(csv_dialect(), Limits::new(4, 100, 10)),
    );
    call_site.quoted_prefix_parser = Some(PrefixParser::QuotedPrefix);
    call_site.location = 2;
    assert_eq!(call_site.owned_resume_window(over, 2), Some(&b"\"abc"[..]));
    let mut call_site_output = RecordStorage::new();
    assert!(
        !call_site
            .resume_owned_after_interior_quote(over, &mut call_site_output, 2,)
            .expect("the exact resume window falls back")
    );
}

#[test]
fn every_owned_path_measures_record_limits_from_the_original_start() {
    let unquoted_quote = b"xx\"ab\"\n";
    let mut unquoted_quote_settings =
        ParserSettings::unheaded(csv_dialect(), Limits::new(4, 100, 10));
    unquoted_quote_settings.syntax =
        Syntax::Compatible(Recovery::none().quoting(false));
    let mut unquoted_quote_engine =
        Engine::from_config(unquoted_quote, unquoted_quote_settings);
    unquoted_quote_engine.plain_kernel = false;
    unquoted_quote_engine.location = 2;
    let mut unquoted_quote_output = RecordStorage::new();
    let error = unquoted_quote_engine
        .parse_owned_record(unquoted_quote, &mut unquoted_quote_output, 2, false)
        .expect_err("a literal leading quote cannot move the record origin");
    assert_owned_error(error, ErrorKind::RecordTooLarge { limit: 4 }, 7, 1);

    let leading_repeated = b"xx\"a\",b,\"c\",d\n";
    let mut leading_repeated_engine = Engine::from_config(
        leading_repeated,
        ParserSettings::unheaded(csv_dialect(), Limits::standard()),
    );
    configure_prediction_parsers(&mut leading_repeated_engine);
    leading_repeated_engine.limits = Limits::new(11, 100, 10);
    leading_repeated_engine.location = 2;
    let mut leading_repeated_output = RecordStorage::new();
    let error = leading_repeated_engine
        .parse_owned_record(leading_repeated, &mut leading_repeated_output, 2, false)
        .expect_err("the second quoted field cannot move the record origin");
    assert_owned_error(error, ErrorKind::RecordTooLarge { limit: 11 }, 14, 4);

    let quoted_tail = b"xx\"a\",b\n";
    let mut quoted_tail_engine = Engine::from_config(
        quoted_tail,
        ParserSettings::unheaded(csv_dialect(), Limits::standard()),
    );
    configure_prediction_parsers(&mut quoted_tail_engine);
    quoted_tail_engine.limits = Limits::new(5, 100, 10);
    quoted_tail_engine.location = 2;
    let mut quoted_tail_output = RecordStorage::new();
    let error = quoted_tail_engine
        .parse_owned_record(quoted_tail, &mut quoted_tail_output, 2, false)
        .expect_err("the quoted-head plain tail is six bytes long");
    assert_owned_error(error, ErrorKind::RecordTooLarge { limit: 5 }, 8, 2);

    let interior = b"xxa,\"b\",c\n";
    let mut interior_engine = Engine::from_config(
        interior,
        ParserSettings::unheaded(csv_dialect(), Limits::standard()),
    );
    configure_prediction_parsers(&mut interior_engine);
    interior_engine.limits = Limits::new(7, 100, 10);
    interior_engine.location = 2;
    let mut interior_output = RecordStorage::new();
    let error = interior_engine
        .parse_owned_record(interior, &mut interior_output, 2, false)
        .expect_err("the interior-quote record is eight bytes long");
    assert_owned_error(error, ErrorKind::RecordTooLarge { limit: 7 }, 10, 3);

    let mut predicted_interior = Engine::from_config(
        interior,
        ParserSettings::unheaded(csv_dialect(), Limits::standard()),
    );
    configure_prediction_parsers(&mut predicted_interior);
    predicted_interior.interior_quotes = 1;
    predicted_interior.limits = Limits::new(7, 100, 10);
    predicted_interior.location = 2;
    let mut predicted_interior_output = RecordStorage::new();
    let error = predicted_interior
        .parse_owned_record(interior, &mut predicted_interior_output, 2, false)
        .expect_err("the predicted plain tail cannot move the record origin");
    assert_owned_error(error, ErrorKind::RecordTooLarge { limit: 7 }, 10, 3);

    let repeated_interior = b"xxa,\"b\",c,\"d\",e\n";
    let mut repeated_interior_engine = Engine::from_config(
        repeated_interior,
        ParserSettings::unheaded(csv_dialect(), Limits::standard()),
    );
    configure_prediction_parsers(&mut repeated_interior_engine);
    repeated_interior_engine.interior_quotes = 1;
    repeated_interior_engine.limits = Limits::new(13, 100, 10);
    repeated_interior_engine.location = 2;
    let mut repeated_interior_output = RecordStorage::new();
    let error = repeated_interior_engine
        .parse_owned_record(
            repeated_interior,
            &mut repeated_interior_output,
            2,
            false,
        )
        .expect_err("a resumed second quote cannot move the record origin");
    assert_owned_error(error, ErrorKind::RecordTooLarge { limit: 13 }, 16, 5);

    let mut direct_resume = Engine::from_config(
        quoted_tail,
        ParserSettings::unheaded(csv_dialect(), Limits::standard()),
    );
    configure_prediction_parsers(&mut direct_resume);
    direct_resume.limits = Limits::new(5, 100, 10);
    direct_resume.location = 2;
    let mut direct_resume_output = RecordStorage::new();
    let error = direct_resume
        .resume_owned_after_interior_quote(quoted_tail, &mut direct_resume_output, 2)
        .expect_err("the resumed quoted-head record is six bytes long");
    assert_owned_error(error, ErrorKind::RecordTooLarge { limit: 5 }, 8, 2);

    for (input, quoted) in [(&b"xxabc\n"[..], false), (&b"xx\"a\"\n"[..], true)] {
        let mut general = Engine::from_config(
            input,
            ParserSettings::unheaded(csv_dialect(), Limits::standard()),
        );
        general.plain_kernel = false;
        general.limits = Limits::new(3, 100, 10);
        general.location = 2;
        let mut output = RecordStorage::new();
        let error = general
            .parse_owned_record(input, &mut output, 2, false)
            .expect_err("the general owned path is four bytes long");
        assert_owned_error(error, ErrorKind::RecordTooLarge { limit: 3 }, 6, 1);
        assert_eq!(
            output.get(0),
            Some(if quoted {
                b"a".as_slice()
            } else {
                b"abc".as_slice()
            })
        );
    }

    let spaced = b"xxa,   b\n";
    let mut spaced_settings =
        ParserSettings::unheaded(csv_dialect(), Limits::new(3, 100, 10));
    spaced_settings.skip_initial_space = true;
    let mut spaced_engine = Engine::from_config(spaced, spaced_settings);
    spaced_engine.plain_kernel = false;
    spaced_engine.location = 2;
    let mut spaced_output = RecordStorage::new();
    let error = spaced_engine
        .parse_owned_record(spaced, &mut spaced_output, 2, false)
        .expect_err("delimiter spaces remain measured from the original record start");
    assert_owned_error(error, ErrorKind::RecordTooLarge { limit: 3 }, 6, 0);

    let wide = b"xxa,b\n";
    let mut wide_engine = Engine::from_config(
        wide,
        ParserSettings::unheaded(csv_dialect(), Limits::standard()),
    );
    wide_engine.owned_parser = None;
    wide_engine.limits = Limits::new(3, 100, 10);
    wide_engine.location = 2;
    let mut wide_output = RecordStorage::with_capacity(16, 16);
    let error = wide_engine
        .try_parse_owned_plain(wide, &mut wide_output, 2)
        .expect_err("wide reusable storage still measures from byte two");
    assert_owned_error(error, ErrorKind::RecordTooLarge { limit: 3 }, 6, 2);
}

#[test]
fn failed_quoted_resume_restores_exact_storage_and_location() {
    let input = b"xx\"bad\"x";
    let mut engine = Engine::from_config(
        input,
        ParserSettings::unheaded(csv_dialect(), Limits::standard()),
    );
    configure_prediction_parsers(&mut engine);
    engine.location = 2;
    let mut output = RecordStorage::new();
    output.append_field(b"settled");

    assert!(
        !engine
            .resume_owned_after_interior_quote(input, &mut output, 2)
            .expect("malformed quoted field falls back")
    );
    assert_eq!(engine.location, 2);
    assert_eq!(fields(&output), [b"settled".as_slice()]);
}

#[test]
fn structural_plain_kernel_reports_exact_empty_runs_and_limit_errors() {
    let exact = b"xxa,,,\n";
    let mut exact_engine = Engine::from_config(
        exact,
        ParserSettings::unheaded(csv_dialect(), Limits::new(100, 100, 4)),
    );
    exact_engine.owned_parser = None;
    let mut exact_output = RecordStorage::new();
    assert!(
        exact_engine
            .try_parse_owned_plain_from_mode::<false>(exact, &mut exact_output, 2, 2,)
            .expect("the exact field limit is accepted")
    );
    assert_eq!(
        fields(&exact_output),
        [
            b"a".as_slice(),
            b"".as_slice(),
            b"".as_slice(),
            b"".as_slice(),
        ]
    );
    assert_eq!(exact_engine.location, exact.len());

    let separated = b"xxa,b\n";
    let mut separated_engine = Engine::from_config(
        separated,
        ParserSettings::unheaded(csv_dialect(), Limits::standard()),
    );
    separated_engine.owned_parser = None;
    let mut separated_output = RecordStorage::new();
    assert!(
        separated_engine
            .try_parse_owned_plain_from_mode::<false>(
                separated,
                &mut separated_output,
                2,
                2,
            )
            .expect("a single delimiter separates both exact fields")
    );
    assert_eq!(
        fields(&separated_output),
        [b"a".as_slice(), b"b".as_slice()]
    );

    let mut limited = Engine::from_config(
        exact,
        ParserSettings::unheaded(csv_dialect(), Limits::new(100, 100, 2)),
    );
    limited.owned_parser = None;
    let mut limited_output = RecordStorage::new();
    let error = limited
        .try_parse_owned_plain_from_mode::<false>(exact, &mut limited_output, 2, 2)
        .expect_err("the delimiter run creates one field too many");
    assert_owned_error(error, ErrorKind::TooManyFields { limit: 2 }, 5, 2);

    let equality = b"xxa,,,z\n";
    let mut equality_engine = Engine::from_config(
        equality,
        ParserSettings::unheaded(csv_dialect(), Limits::new(100, 100, 3)),
    );
    equality_engine.owned_parser = None;
    let mut equality_output = RecordStorage::new();
    let error = equality_engine
        .try_parse_owned_plain_from_mode::<false>(equality, &mut equality_output, 2, 2)
        .expect_err("the field after an exactly fitting delimiter run is too many");
    assert_owned_error(error, ErrorKind::TooManyFields { limit: 3 }, 7, 3);

    let terminated = b"xxa,b\n";
    let mut record_limited = Engine::from_config(
        terminated,
        ParserSettings::unheaded(csv_dialect(), Limits::new(3, 100, 10)),
    );
    record_limited.owned_parser = None;
    let mut record_output = RecordStorage::new();
    let error = record_limited
        .try_parse_owned_plain_from_mode::<false>(terminated, &mut record_output, 2, 2)
        .expect_err("the terminator crosses the record limit");
    assert_owned_error(error, ErrorKind::RecordTooLarge { limit: 3 }, 6, 2);

    let eof = b"xxa,b";
    let mut eof_limited = Engine::from_config(
        eof,
        ParserSettings::unheaded(csv_dialect(), Limits::new(2, 100, 10)),
    );
    eof_limited.owned_parser = None;
    let mut eof_output = RecordStorage::new();
    let error = eof_limited
        .try_parse_owned_plain_from_mode::<false>(eof, &mut eof_output, 2, 2)
        .expect_err("EOF crosses the record limit");
    assert_owned_error(error, ErrorKind::RecordTooLarge { limit: 2 }, 5, 2);

    let truncated = b"xxabcdef";
    let mut truncated_engine = Engine::from_config(
        truncated,
        ParserSettings::unheaded(csv_dialect(), Limits::new(3, 100, 10)),
    );
    truncated_engine.owned_parser = None;
    let mut truncated_output = RecordStorage::new();
    let error = truncated_engine
        .try_parse_owned_plain_from_mode::<false>(
            truncated,
            &mut truncated_output,
            2,
            2,
        )
        .expect_err("the scan window ends before the input");
    assert_owned_error(error, ErrorKind::RecordTooLarge { limit: 3 }, 6, 0);
}

#[test]
fn owned_null_and_field_push_helpers_preserve_exact_metadata() {
    let mut none_engine = Engine::from_config(
        b"",
        ParserSettings::unheaded(csv_dialect(), Limits::standard()),
    );
    none_engine.nulls = Nulls::Disabled;
    let mut none_output = RecordStorage::new();
    none_output.append_field(b"");
    none_engine.mark_owned_nulls(&mut none_output, false);
    assert!(!none_output.null_aware());
    assert_eq!(none_output.is_null(0), Some(false));

    none_engine.nulls = Nulls::PostgresCsv;
    let mut header_output = RecordStorage::new();
    header_output.append_field(b"");
    none_engine.mark_owned_nulls(&mut header_output, true);
    assert!(!header_output.null_aware());
    assert_eq!(header_output.is_null(0), Some(false));

    let input = b"\\N";
    let limited = Engine::from_config(
        input,
        ParserSettings::unheaded(csv_dialect(), Limits::new(100, 100, 1)),
    );
    let mut full = RecordStorage::new();
    full.append_field(b"first");
    let error = limited
        .push_owned_unquoted(input, &mut full, 0, 2, 2, Nulls::Mysql)
        .expect_err("the NULL field would exceed the field-count limit");
    assert_owned_error(error, ErrorKind::TooManyFields { limit: 1 }, 2, 1);

    let direct = b"abcd";
    let direct_limited = Engine::from_config(
        direct,
        ParserSettings::unheaded(csv_dialect(), Limits::new(100, 3, 10)),
    );
    let mut direct_output = RecordStorage::new();
    let error = direct_limited
        .push_owned_unquoted(direct, &mut direct_output, 0, 4, 4, Nulls::Disabled)
        .expect_err("the helper reports the supplied field boundary");
    assert_owned_error(error, ErrorKind::FieldTooLarge { limit: 3 }, 4, 0);

    let too_long = b"xxabcd\n";
    let mut unquoted = Engine::from_config(
        too_long,
        ParserSettings::unheaded(csv_dialect(), Limits::new(100, 3, 10)),
    );
    unquoted.location = 2;
    let mut unquoted_output = RecordStorage::new();
    let error = unquoted
        .parse_owned_unquoted_field(too_long, &mut unquoted_output, 2, false)
        .expect_err("four bytes exceed the field limit");
    assert_owned_error(error, ErrorKind::FieldTooLarge { limit: 3 }, 6, 0);

    let scan_bound = b"xxabcde";
    let mut scan_bound_engine = Engine::from_config(
        scan_bound,
        ParserSettings::unheaded(csv_dialect(), Limits::new(100, 3, 10)),
    );
    scan_bound_engine.location = 2;
    let mut scan_bound_output = RecordStorage::new();
    let error = scan_bound_engine
        .parse_owned_unquoted_field(scan_bound, &mut scan_bound_output, 2, false)
        .expect_err("the scan ends exactly one byte past the field limit");
    assert_owned_error(error, ErrorKind::FieldTooLarge { limit: 3 }, 6, 0);

    let null_boundary = b"xx\\N,\n";
    let mut null_boundary_engine = Engine::from_config(
        null_boundary,
        ParserSettings::unheaded(csv_dialect(), Limits::new(100, 100, 0)),
    );
    null_boundary_engine.nulls = Nulls::Mysql;
    null_boundary_engine.location = 2;
    let mut null_boundary_output = RecordStorage::new();
    let error = null_boundary_engine
        .parse_owned_unquoted_field(null_boundary, &mut null_boundary_output, 2, false)
        .expect_err("the NULL field reports its delimiter boundary");
    assert_owned_error(error, ErrorKind::TooManyFields { limit: 0 }, 4, 0);

    let unexpected = b"xxa\"b\n";
    let mut quote_engine = Engine::from_config(
        unexpected,
        ParserSettings::unheaded(csv_dialect(), Limits::standard()),
    );
    quote_engine.location = 2;
    let mut quote_output = RecordStorage::new();
    quote_output.append_field(b"settled");
    let error = quote_engine
        .parse_owned_unquoted_field(unexpected, &mut quote_output, 2, false)
        .expect_err("an interior quote is invalid in strict CSV");
    assert_owned_error(error, ErrorKind::UnexpectedQuote, 3, 1);

    let header = b"\\N\n";
    let mut header_settings = ParserSettings::unheaded(csv_dialect(), Limits::standard());
    header_settings.nulls = Nulls::Mysql;
    let mut header_engine = Engine::from_config(header, header_settings);
    header_engine.plain_kernel = false;
    let mut header_output = RecordStorage::new();
    header_engine
        .parse_owned_record(header, &mut header_output, 0, true)
        .expect("headers never apply the NULL policy");
    assert_eq!(header_output.get(0), Some(&b"\\N"[..]));
    assert_eq!(header_output.is_null(0), Some(false));
}

#[test]
fn quoted_field_errors_and_finishes_report_exact_metadata() {
    let full = b"xx\"a\"\n";
    let mut full_engine = Engine::from_config(
        full,
        ParserSettings::unheaded(csv_dialect(), Limits::new(100, 100, 1)),
    );
    full_engine.location = 2;
    let mut full_output = RecordStorage::new();
    full_output.append_field(b"settled");
    let error = full_engine
        .parse_owned_quoted_field(full, &mut full_output, 2)
        .expect_err("the quoted field exceeds the field-count limit");
    assert_owned_error(error, ErrorKind::TooManyFields { limit: 1 }, 2, 1);

    let input = b"xx\"abc";
    let mut unterminated = Engine::from_config(
        input,
        ParserSettings::unheaded(csv_dialect(), Limits::new(100, 3, 10)),
    );
    unterminated.location = 2;
    let mut output = RecordStorage::new();
    let error = unterminated
        .parse_owned_quoted_field(input, &mut output, 2)
        .expect_err("the closing quote is missing");
    assert_owned_error(error, ErrorKind::UnterminatedQuotedField, 6, 0);

    let escaped_to_edge = b"xx\"a\"\"";
    let mut edge = Engine::from_config(
        escaped_to_edge,
        ParserSettings::unheaded(csv_dialect(), Limits::new(100, 2, 10)),
    );
    edge.location = 2;
    let mut edge_output = RecordStorage::new();
    edge_output.append_field(b"settled");
    let error = edge
        .parse_owned_quoted_field(escaped_to_edge, &mut edge_output, 2)
        .expect_err("the doubled quote crosses the field limit at the scan edge");
    assert_owned_error(error, ErrorKind::FieldTooLarge { limit: 2 }, 6, 1);

    let mut exact_edge = Engine::from_config(
        escaped_to_edge,
        ParserSettings::unheaded(csv_dialect(), Limits::new(100, 3, 10)),
    );
    exact_edge.location = 2;
    let mut exact_edge_output = RecordStorage::new();
    exact_edge_output.append_field(b"settled");
    let error = exact_edge
        .parse_owned_quoted_field(escaped_to_edge, &mut exact_edge_output, 2)
        .expect_err("the exact raw-byte boundary remains an unterminated field");
    assert_owned_error(error, ErrorKind::UnterminatedQuotedField, 6, 1);

    let invalid = b"xx\"a\\x\"\n";
    let dialect = Dialect {
        escape: Escape::Backslash(b'\\'),
        ..csv_dialect()
    };
    let mut invalid_engine =
        Engine::from_config(invalid, ParserSettings::unheaded(dialect, Limits::standard()));
    invalid_engine.location = 2;
    let mut invalid_output = RecordStorage::new();
    invalid_output.append_field(b"settled");
    let error = invalid_engine
        .parse_owned_quoted_field(invalid, &mut invalid_output, 2)
        .expect_err("x is not a compatible backslash escape");
    assert_owned_error(error, ErrorKind::InvalidEscape(b'x'), 5, 1);

    for (input, after_quote, expected_byte) in [
        (&b"xx\"a\""[..], 5, 5),
        (&b"xx\"a\"\n"[..], 5, 6),
        (&b"xx\"a\"\r\n"[..], 5, 7),
    ] {
        let mut engine = Engine::from_config(
            input,
            ParserSettings::unheaded(csv_dialect(), Limits::new(2, 100, 10)),
        );
        let error = engine
            .finish_owned_quoted_field(input, 5, 2, after_quote)
            .expect_err("the finished field crosses the record limit");
        assert_owned_error(
            error,
            ErrorKind::RecordTooLarge { limit: 2 },
            expected_byte,
            5,
        );
    }

    let crlf_boundary = b"xx\"a\"\r\n";
    let mut crlf_boundary_engine = Engine::from_config(
        crlf_boundary,
        ParserSettings::unheaded(csv_dialect(), Limits::new(4, 100, 10)),
    );
    let error = crlf_boundary_engine
        .finish_owned_quoted_field(crlf_boundary, 1, 2, 5)
        .expect_err("the CRLF crosses the record limit by exactly one byte");
    assert_owned_error(error, ErrorKind::RecordTooLarge { limit: 4 }, 7, 1);
}

#[test]
fn structural_field_push_reports_the_supplied_error_offset() {
    let input = b"xxab";
    for short in [false, true] {
        let engine = Engine::from_config(
            input,
            ParserSettings::unheaded(csv_dialect(), Limits::new(100, 1, 10)),
        );
        let mut output = RecordStorage::new();
        output.append_field(b"settled");
        let result = if short {
            engine.push_structural_owned_field::<true>(input, &mut output, 2, 4, 7)
        } else {
            engine.push_structural_owned_field::<false>(input, &mut output, 2, 4, 7)
        };
        let error = result.expect_err("the two-byte field exceeds the limit");
        assert_owned_error(error, ErrorKind::FieldTooLarge { limit: 1 }, 7, 1);
    }
}

#[test]
fn owned_parser_paths_settle_or_refuse_their_records() {
    let input1 = b"a,b,c\n";
    let mut engine = Engine::from_config(
        input1,
        ParserSettings::unheaded(csv_dialect(), Limits::standard()),
    );
    let mut storage = RecordStorage::with_capacity(20, 100);
    assert!(
        engine
            .parse_owned_record(input1, &mut storage, 0, false)
            .is_ok()
    );

    let input2 = b",,,,\n";
    let settings_limit = ParserSettings::unheaded(csv_dialect(), Limits::new(100, 100, 2));
    let mut engine_limit = Engine::from_config(input2, settings_limit);
    let mut storage_limit = RecordStorage::new();
    assert!(
        engine_limit
            .parse_owned_record(input2, &mut storage_limit, 0, false)
            .is_err()
    );

    let input3 = b",\n";
    let mut settings_nulls =
        ParserSettings::unheaded(csv_dialect(), Limits::new(100, 100, 1));
    settings_nulls.nulls = Nulls::PostgresCsv;
    let mut engine_nulls = Engine::from_config(input3, settings_nulls);
    let mut storage_nulls = RecordStorage::new();
    assert!(
        engine_nulls
            .parse_owned_record(input3, &mut storage_nulls, 0, false)
            .is_err()
    );

    let mut storage_q = RecordStorage::new();
    storage_q.append_field(b"f1");
    let settings_q = ParserSettings::unheaded(csv_dialect(), Limits::new(100, 100, 1));
    let mut engine_q = Engine::from_config(b"\"abc\",\n", settings_q);
    engine_q.location = 0;
    assert!(
        engine_q
            .parse_owned_quoted_field(b"\"abc\",\n", &mut storage_q, 0)
            .is_err()
    );

    let input_alt = b"\"foo\",bar,\"baz\"\n";
    let mut engine_alt = Engine::from_config(
        input_alt,
        ParserSettings::unheaded(csv_dialect(), Limits::standard()),
    );
    let mut storage_alt = RecordStorage::new();
    assert!(
        engine_alt
            .parse_owned_record(input_alt, &mut storage_alt, 0, false)
            .is_ok()
    );

    let mut engine_win = Engine::from_config(
        input_alt,
        ParserSettings::unheaded(csv_dialect(), Limits::standard()),
    );
    engine_win.location = 100;
    let mut storage_win = RecordStorage::new();
    assert_eq!(
        engine_win
            .resume_owned_after_interior_quote(input_alt, &mut storage_win, 0)
            .unwrap(),
        false
    );
    assert_eq!(
        engine_win
            .resume_owned_after_interior_quote(
                input_alt,
                &mut storage_win,
                0
            )
            .unwrap(),
        false
    );

    let mut storage_nulls_m = RecordStorage::new();
    storage_nulls_m.append_field(b"\\N");
    storage_nulls_m.append_field(b"regular");
    let mut engine_m = Engine::from_config(
        b"\\N,regular\n",
        ParserSettings::unheaded(csv_dialect(), Limits::standard()),
    );
    engine_m.nulls = Nulls::Mysql;
    engine_m.mark_owned_nulls(&mut storage_nulls_m, false);
    assert_eq!(storage_nulls_m.is_null(0), Some(true));
    assert_eq!(storage_nulls_m.is_null(1), Some(false));

    let mut storage_nulls_limit = RecordStorage::new();
    storage_nulls_limit.append_field(b"f1");
    let engine_m_limit = Engine::from_config(
        b"\\N\n",
        ParserSettings::unheaded(csv_dialect(), Limits::new(100, 100, 1)),
    );
    assert!(
        engine_m_limit
            .push_owned_unquoted(b"\\N\n", &mut storage_nulls_limit, 0, 2, 0, Nulls::Mysql)
            .is_err()
    );

    let mut storage_large = RecordStorage::new();
    let custom_settings = ParserSettings::unheaded(csv_dialect(), Limits::new(100, 2, 10));
    let mut custom_engine = Engine::from_config(b"\"abc\"\n", custom_settings);
    custom_engine.location = 0;
    assert!(
        custom_engine
            .parse_owned_quoted_field(b"\"abc\"\n", &mut storage_large, 0)
            .is_err()
    );

    let custom_dialect = Dialect {
        quote: b'#',
        ..csv_dialect()
    };
    let mut no_prefix_engine = Engine::from_config(
        b"#abc#\n",
        ParserSettings::unheaded(custom_dialect, Limits::standard()),
    );
    let mut no_prefix_storage = RecordStorage::new();
    assert_eq!(
        no_prefix_engine
            .resume_owned_after_interior_quote(b"#abc#\n", &mut no_prefix_storage, 0)
            .unwrap(),
        false
    );

    let mut engine_no_interior = Engine::from_config(
        b"a,\"b\",c\n",
        ParserSettings::unheaded(csv_dialect(), Limits::standard()),
    );
    engine_no_interior.interior_prefix_parser = None;
    let mut storage_no_interior = RecordStorage::new();
    assert!(
        engine_no_interior
            .parse_owned_interior_prefix(
                b"a,\"b\",c\n",
                &mut storage_no_interior,
                0,
                false
            )
            .unwrap()
    );

    let mut engine_none = Engine::from_config(
        b"a,\"b\",c\n",
        ParserSettings::unheaded(custom_dialect, Limits::standard()),
    );
    engine_none.interior_prefix_parser = None;
    let mut storage_none = RecordStorage::new();
    assert_eq!(
        engine_none
            .parse_owned_interior_prefix(b"a,\"b\",c\n", &mut storage_none, 0, false)
            .unwrap(),
        false
    );

    let mut engine_malformed = Engine::from_config(
        b"a,\"b\n",
        ParserSettings::unheaded(csv_dialect(), Limits::standard()),
    );
    let mut storage_malformed = RecordStorage::new();
    assert_eq!(
        engine_malformed
            .parse_owned_interior_prefix(
                b"a,\"b\n",
                &mut storage_malformed,
                0,
                false
            )
            .unwrap(),
        false
    );

    let mut engine_multi_fail = Engine::from_config(
        b"a,\"b\",c,\"d\n",
        ParserSettings::unheaded(csv_dialect(), Limits::standard()),
    );
    let mut storage_multi_fail = RecordStorage::new();
    assert_eq!(
        engine_multi_fail
            .parse_owned_interior_prefix(
                b"a,\"b\",c,\"d\n",
                &mut storage_multi_fail,
                0,
                false
            )
            .unwrap(),
        false
    );

    let mut noq_settings = ParserSettings::unheaded(csv_dialect(), Limits::standard());
    noq_settings.syntax = Syntax::Compatible(Recovery::none().quoting(false));
    noq_settings.format_tag = FormatTag::Custom;
    let mut noq_engine = Engine::from_config(b"\"quoted\"\n", noq_settings.clone());
    let mut noq_storage = RecordStorage::new();
    assert!(
        noq_engine
            .parse_owned_record(b"\"quoted\"\n", &mut noq_storage, 0, false)
            .is_ok()
    );

    let mut eof_storage = RecordStorage::new();
    let mut eof_engine = Engine::from_config(
        b"\"abc\"",
        ParserSettings::unheaded(csv_dialect(), Limits::standard()),
    );
    eof_engine.location = 0;
    assert!(
        eof_engine
            .parse_owned_quoted_field(b"\"abc\"", &mut eof_storage, 0)
            .unwrap()
    );

    let mut crlf_storage = RecordStorage::new();
    let mut crlf_engine = Engine::from_config(
        b"\"abc\"\r\n",
        ParserSettings::unheaded(csv_dialect(), Limits::standard()),
    );
    crlf_engine.location = 0;
    assert!(
        crlf_engine
            .parse_owned_quoted_field(b"\"abc\"\r\n", &mut crlf_storage, 0)
            .unwrap()
    );

    let mut esc_storage = RecordStorage::new();
    let esc_settings = ParserSettings::unheaded(csv_dialect(), Limits::new(100, 3, 10));
    let mut esc_engine = Engine::from_config(b"\"a\"\"b\"\"c\"\n", esc_settings);
    esc_engine.location = 0;
    assert!(
        esc_engine
            .parse_owned_quoted_field(b"\"a\"\"b\"\"c\"\n", &mut esc_storage, 0)
            .is_err()
    );

    let q_head_input = b"\"head\",plain,\"second\",tail\n";
    let mut q_head_engine = Engine::from_config(
        q_head_input,
        ParserSettings::unheaded(csv_dialect(), Limits::standard()),
    );
    let mut q_head_storage = RecordStorage::new();
    assert!(
        q_head_engine
            .parse_owned_record(q_head_input, &mut q_head_storage, 0, false)
            .is_ok()
    );
    let mut q_head_engine_csv = Engine::from_config(
        q_head_input,
        ParserSettings::unheaded(csv_dialect(), Limits::standard()),
    );
    let mut q_head_storage_csv = RecordStorage::new();
    assert!(
        q_head_engine_csv
            .parse_owned_record(
                q_head_input,
                &mut q_head_storage_csv,
                0,
                false
            )
            .is_ok()
    );

    let mut mal_tail_engine = Engine::from_config(
        b"head,\"bad\"x,tail\n",
        ParserSettings::unheaded(csv_dialect(), Limits::standard()),
    );
    mal_tail_engine.location = 5;
    let mut mal_tail_storage = RecordStorage::new();
    assert_eq!(
        mal_tail_engine
            .resume_owned_after_interior_quote(
                b"head,\"bad\"x,tail\n",
                &mut mal_tail_storage,
                0
            )
            .unwrap(),
        false
    );
    assert_eq!(
        mal_tail_engine
            .resume_owned_after_interior_quote(
                b"head,\"bad\"x,tail\n",
                &mut mal_tail_storage,
                0
            )
            .unwrap(),
        false
    );

    let mut q_err_engine = Engine::from_config(
        b"\"head\",plain,\"second\",third,fourth\n",
        ParserSettings::unheaded(csv_dialect(), Limits::standard()),
    );
    q_err_engine.limits = Limits::new(100, 100, 3);
    let mut q_err_storage = RecordStorage::new();
    assert!(
        q_err_engine
            .parse_owned_record(
                b"\"head\",plain,\"second\",third,fourth\n",
                &mut q_err_storage,
                0,
                false
            )
            .is_err()
    );
    let mut q_err_engine_csv = Engine::from_config(
        b"\"head\",plain,\"second\",third,fourth\n",
        ParserSettings::unheaded(csv_dialect(), Limits::standard()),
    );
    q_err_engine_csv.limits = Limits::new(100, 100, 3);
    let mut q_err_storage_csv = RecordStorage::new();
    assert!(
        q_err_engine_csv
            .parse_owned_record(
                b"\"head\",plain,\"second\",third,fourth\n",
                &mut q_err_storage_csv,
                0,
                false
            )
            .is_err()
    );

    let mut engine_without_qprefix = Engine::from_config(
        b"\"bad\"quote\n",
        ParserSettings::unheaded(csv_dialect(), Limits::standard()),
    );
    engine_without_qprefix.quoted_prefix_parser = None;
    let mut storage_without_qprefix = RecordStorage::new();
    assert!(
        engine_without_qprefix
            .parse_owned_record(
                b"\"bad\"quote\n",
                &mut storage_without_qprefix,
                0,
                false
            )
            .is_err()
    );

    let multi_q_input = b"\"first\",plain,\"second\",tail,\"third\",end\n";
    let mut multi_q_engine = Engine::from_config(
        multi_q_input,
        ParserSettings::unheaded(csv_dialect(), Limits::standard()),
    );
    multi_q_engine.location = 14; // Start of "second"
    let mut multi_q_storage = RecordStorage::new();
    multi_q_storage.append_field(b"first");
    multi_q_storage.append_field(b"plain");
    assert!(
        multi_q_engine
            .resume_owned_after_interior_quote(
                multi_q_input,
                &mut multi_q_storage,
                0
            )
            .unwrap()
    );

    let bslash_dialect = Dialect {
        escape: Escape::Backslash(b'\\'),
        ..csv_dialect()
    };
    let mut bslash_engine = Engine::from_config(
        b"\"invalid \\x escape\"\n",
        ParserSettings::unheaded(bslash_dialect, Limits::standard()),
    );
    bslash_engine.location = 0;
    let mut bslash_storage = RecordStorage::new();
    assert!(
        bslash_engine
            .parse_owned_quoted_field(b"\"invalid \\x escape\"\n", &mut bslash_storage, 0)
            .is_err()
    );

    let input_pred_err = b"head,\"interior\",extra,tail\n";
    let mut pred_err_settings = ParserSettings::unheaded(csv_dialect(), Limits::standard());
    pred_err_settings.field_count = FieldCount::Exact(3);
    let mut pred_err_engine = Engine::from_config(input_pred_err, pred_err_settings);
    pred_err_engine.interior_quotes = 16;
    let mut pred_err_storage = RecordStorage::new();
    assert!(
        pred_err_engine
            .parse_owned_record(input_pred_err, &mut pred_err_storage, 0, false)
            .is_err()
    );

    let mut interior_fail_engine = Engine::from_config(
        b"head,\"interior\",plain,\"bad\"quote\n",
        ParserSettings::unheaded(csv_dialect(), Limits::standard()),
    );
    interior_fail_engine.interior_prefix_parser = interior_fail_engine.interior_handoff_parser;
    let mut interior_fail_storage = RecordStorage::new();
    assert_eq!(
        interior_fail_engine
            .parse_owned_interior_prefix(
                b"head,\"interior\",plain,\"bad\"quote\n",
                &mut interior_fail_storage,
                0,
                false
            )
            .unwrap(),
        false
    );

    let mal_interior_input = b"\"head\",plain,\"bad\"x\n";
    let mut mal_interior_engine = Engine::from_config(
        mal_interior_input,
        ParserSettings::unheaded(csv_dialect(), Limits::standard()),
    );
    let mut mal_interior_storage = RecordStorage::new();
    assert!(
        mal_interior_engine
            .parse_owned_record(
                mal_interior_input,
                &mut mal_interior_storage,
                0,
                false
            )
            .is_err()
    );

    let mut csv_sp_owned = Engine::from_config(
        b"\"quoted\",  plain\n",
        ParserSettings::unheaded(csv_dialect(), Limits::standard()),
    );
    csv_sp_owned.skip_initial_space = true;
    let mut sp_storage = RecordStorage::new();
    assert!(
        csv_sp_owned
            .parse_owned_record(
                b"\"quoted\",  plain\n",
                &mut sp_storage,
                0,
                false
            )
            .is_ok()
    );

    let mut csv_fc_owned = Engine::from_config(
        b"\"a\",b\n",
        ParserSettings::unheaded(csv_dialect(), Limits::standard()),
    );
    csv_fc_owned.field_count = FieldCount::Exact(2);
    let mut fc_storage = RecordStorage::new();
    assert!(
        csv_fc_owned
            .parse_owned_record(b"\"a\",b\n", &mut fc_storage, 0, false)
            .is_ok()
    );

    let mut csv_fc_bad = Engine::from_config(
        b"\"a\",b,c\n",
        ParserSettings::unheaded(csv_dialect(), Limits::standard()),
    );
    csv_fc_bad.field_count = FieldCount::Exact(2);
    let mut fc_bad_storage = RecordStorage::new();
    assert!(
        csv_fc_bad
            .parse_owned_record(
                b"\"a\",b,c\n",
                &mut fc_bad_storage,
                0,
                false
            )
            .is_err()
    );

    let mut own_lim_engine = Engine::from_config(
        b"a,b,c\n",
        ParserSettings::unheaded(csv_dialect(), Limits::new(3, 10, 10)),
    );
    let mut lim_storage = RecordStorage::new();
    assert!(
        own_lim_engine
            .parse_owned_record(b"a,b,c\n", &mut lim_storage, 0, false)
            .is_err()
    );

    let mut hdr_engine = Engine::from_config(
        b"col1,col2\n",
        ParserSettings::unheaded(csv_dialect(), Limits::standard()),
    );
    let mut hdr_storage = RecordStorage::new();
    assert!(
        hdr_engine
            .parse_owned_record(b"col1,col2\n", &mut hdr_storage, 0, true)
            .is_ok()
    );

    let mut term_lim_engine = Engine::from_config(
        b"a,b\n",
        ParserSettings::unheaded(csv_dialect(), Limits::new(2, 10, 10)),
    );
    let mut term_lim_storage = RecordStorage::new();
    assert!(
        term_lim_engine
            .try_parse_owned_plain(b"a,b\n", &mut term_lim_storage, 0)
            .is_err()
    );

    let mut eof_lim_engine = Engine::from_config(
        b"a,b",
        ParserSettings::unheaded(csv_dialect(), Limits::new(2, 10, 10)),
    );
    let mut eof_lim_storage = RecordStorage::new();
    assert!(
        eof_lim_engine
            .try_parse_owned_plain(b"a,b", &mut eof_lim_storage, 0)
            .is_err()
    );

    let mut unq_lim_engine = Engine::from_config(
        b"toolongfieldhere\n",
        ParserSettings::unheaded(csv_dialect(), Limits::new(100, 3, 10)),
    );
    unq_lim_engine.syntax = Syntax::Compatible(Recovery::none().quoting(false));
    let mut unq_lim_storage = RecordStorage::new();
    assert!(
        unq_lim_engine
            .parse_owned_unquoted_field(b"toolongfieldhere\n", &mut unq_lim_storage, 0, false)
            .is_err()
    );

    let mut int_fc_engine = Engine::from_config(
        b"head,\"interior\",tail\n",
        ParserSettings::unheaded(csv_dialect(), Limits::standard()),
    );
    int_fc_engine.field_count = FieldCount::Exact(2);
    int_fc_engine.interior_quotes = 16;
    let mut int_fc_storage = RecordStorage::new();
    assert!(
        int_fc_engine
            .parse_owned_record(
                b"head,\"interior\",tail\n",
                &mut int_fc_storage,
                0,
                false
            )
            .is_err()
    );

    let mut int_fc_engine2 = Engine::from_config(
        b"head,\"interior\",tail,\"second\",end\n",
        ParserSettings::unheaded(csv_dialect(), Limits::standard()),
    );
    int_fc_engine2.field_count = FieldCount::Exact(2);
    int_fc_engine2.interior_quotes = 16;
    let mut int_fc_storage2 = RecordStorage::new();
    assert!(
        int_fc_engine2
            .parse_owned_record(
                b"head,\"interior\",tail,\"second\",end\n",
                &mut int_fc_storage2,
                0,
                false
            )
            .is_err()
    );

    let mut eof_unq_engine = Engine::from_config(
        b"toolongfieldwithoutending",
        ParserSettings::unheaded(csv_dialect(), Limits::new(100, 5, 10)),
    );
    eof_unq_engine.syntax = Syntax::Compatible(Recovery::none().quoting(false));
    let mut eof_unq_storage = RecordStorage::new();
    assert!(
        eof_unq_engine
            .parse_owned_unquoted_field(
                b"toolongfieldwithoutending",
                &mut eof_unq_storage,
                0,
                false
            )
            .is_err()
    );

    let mut eof_q_lim = Engine::from_config(
        b"\"toolong\"",
        ParserSettings::unheaded(csv_dialect(), Limits::new(3, 10, 10)),
    );
    eof_q_lim.location = 0;
    let mut eof_q_storage = RecordStorage::new();
    assert!(
        eof_q_lim
            .parse_owned_quoted_field(b"\"toolong\"", &mut eof_q_storage, 0)
            .is_err()
    );

    let mut crlf_q_lim = Engine::from_config(
        b"\"toolong\"\r\n",
        ParserSettings::unheaded(csv_dialect(), Limits::new(3, 10, 10)),
    );
    crlf_q_lim.location = 0;
    let mut crlf_q_storage = RecordStorage::new();
    assert!(
        crlf_q_lim
            .parse_owned_quoted_field(b"\"toolong\"\r\n", &mut crlf_q_storage, 0)
            .is_err()
    );

    let mut unq_field_large_engine = Engine::from_config(
        b"toolong\n",
        ParserSettings::unheaded(csv_dialect(), Limits::new(100, 3, 10)),
    );
    unq_field_large_engine.syntax =
        Syntax::Compatible(Recovery::none().quoting(false));
    let mut unq_field_large_storage = RecordStorage::new();
    assert!(
        unq_field_large_engine
            .parse_owned_record(b"toolong\n", &mut unq_field_large_storage, 0, false)
            .is_err()
    );

    let mut custom_general_eng = Engine::from_config(b"\"q\",unq\n", noq_settings);
    custom_general_eng.syntax = Syntax::Compatible(Recovery::none().quoting(true));
    let mut cg_storage = RecordStorage::new();
    assert!(
        custom_general_eng
            .parse_owned_record(b"\"q\",unq\n", &mut cg_storage, 0, false)
            .is_ok()
    );

    let all_quoted = b"\"a\",\"b\"\n";
    let mut all_q_engine = Engine::from_config(
        all_quoted,
        ParserSettings::unheaded(csv_dialect(), Limits::standard()),
    );
    let mut all_q_storage = RecordStorage::new();
    assert!(
        all_q_engine
            .parse_owned_record(all_quoted, &mut all_q_storage, 0, false)
            .is_ok()
    );

    let mut sis_csv_settings = ParserSettings::unheaded(csv_dialect(), Limits::standard());
    sis_csv_settings.skip_initial_space = true;
    let mut sis_own_csv = Engine::from_config(b" a , b \n", sis_csv_settings);
    let mut sis_own_csv_store = RecordStorage::new();
    assert!(
        sis_own_csv
            .parse_owned_record(
                b" a , b \n",
                &mut sis_own_csv_store,
                0,
                false
            )
            .is_ok()
    );

    let mut sis_tsv_settings = ParserSettings::unheaded(FormatOptions::tsv().dialect, Limits::standard());
    sis_tsv_settings.skip_initial_space = true;
    let mut sis_own_tsv = Engine::from_config(b" a \t b \n", sis_tsv_settings);
    let mut sis_own_tsv_store = RecordStorage::new();
    assert!(
        sis_own_tsv
            .parse_owned_record(
                b" a \t b \n",
                &mut sis_own_tsv_store,
                0,
                false
            )
            .is_ok()
    );

    let mut null_hdr_settings = ParserSettings::unheaded(csv_dialect(), Limits::standard());
    null_hdr_settings.nulls = Nulls::PostgresCsv;
    let mut null_hdr_eng = Engine::from_config(b"col1,col2\n", null_hdr_settings);
    null_hdr_eng.syntax = Syntax::Compatible(Recovery::none().quoting(false));
    let mut null_hdr_store = RecordStorage::new();
    assert!(
        null_hdr_eng
            .parse_owned_record(b"col1,col2\n", &mut null_hdr_store, 0, true)
            .is_ok()
    );

    let mut sis_lim_settings =
        ParserSettings::unheaded(csv_dialect(), Limits::new(3, 100, 10));
    sis_lim_settings.skip_initial_space = true;
    let mut sis_own_lim = Engine::from_config(b"    a\n", sis_lim_settings);
    let mut sis_own_store = RecordStorage::new();
    assert!(
        sis_own_lim
            .parse_owned_record(b"    a\n", &mut sis_own_store, 0, false)
            .is_err()
    );

    let mut noq_lim_settings =
        ParserSettings::unheaded(csv_dialect(), Limits::new(3, 100, 10));
    noq_lim_settings.syntax =
        Syntax::Compatible(Recovery::none().quoting(false));
    let mut noq_own_lim = Engine::from_config(b"\"abcdef\"\n", noq_lim_settings);
    let mut noq_own_store = RecordStorage::new();
    assert!(
        noq_own_lim
            .parse_owned_record(b"\"abcdef\"\n", &mut noq_own_store, 0, false)
            .is_err()
    );

    let mut unq_crlf_lim = Engine::from_config(
        b"ab\r\n",
        ParserSettings::unheaded(csv_dialect(), Limits::new(2, 100, 10)),
    );
    let mut unq_crlf_store = RecordStorage::new();
    assert!(
        unq_crlf_lim
            .parse_owned_record(b"ab\r\n", &mut unq_crlf_store, 0, false)
            .is_err()
    );

    let mut q_eof_own = Engine::from_config(
        b"\"abc\"",
        ParserSettings::unheaded(csv_dialect(), Limits::new(2, 100, 10)),
    );
    let mut q_eof_store = RecordStorage::new();
    assert!(
        q_eof_own
            .parse_owned_record(b"\"abc\"", &mut q_eof_store, 0, false)
            .is_err()
    );

    let mut q_crlf_own = Engine::from_config(
        b"\"abc\"\r\n",
        ParserSettings::unheaded(csv_dialect(), Limits::new(2, 100, 10)),
    );
    let mut q_crlf_store = RecordStorage::new();
    assert!(
        q_crlf_own
            .parse_owned_record(b"\"abc\"\r\n", &mut q_crlf_store, 0, false)
            .is_err()
    );

    let mut gen_delim_lim = Engine::from_config(
        b"toolong,b\n",
        ParserSettings::unheaded(FormatOptions::tsv().dialect, Limits::new(100, 3, 10)),
    );
    let mut gen_delim_store = RecordStorage::new();
    assert!(
        gen_delim_lim
            .parse_owned_record(b"toolong,b\n", &mut gen_delim_store, 0, false)
            .is_err()
    );

    let mut gen_eof_lim = Engine::from_config(
        b"toolong",
        ParserSettings::unheaded(FormatOptions::tsv().dialect, Limits::new(100, 3, 10)),
    );
    let mut gen_eof_store = RecordStorage::new();
    assert!(
        gen_eof_lim
            .parse_owned_record(b"toolong", &mut gen_eof_store, 0, false)
            .is_err()
    );
}

#[test]
fn a_record_of_text_is_read_like_any_other() {
    let inputs: [&[u8]; 5] = [b"a,b\n", b"\"a\",b\n", b"a,\"b\"\"c\"\n", b"a,b\"c\n", b"\"a"];
    for input in inputs {
        let settings = ParserSettings::unheaded(csv_dialect(), Limits::standard());
        let mut bytes = Engine::from_config(input, settings);
        let mut text = Engine::from_config(input, settings);
        let mut from_bytes = RecordStorage::new();
        let mut from_text = RecordStorage::new();
        let left = bytes.parse_owned_record(input, &mut from_bytes, 0, false);
        let right = text.parse_owned_text_record(input, &mut from_text, 0, false);
        match (left, right) {
            (Ok(()), Ok(())) => assert_eq!(fields(&from_bytes), fields(&from_text)),
            (Err(left), Err(right)) => {
                assert_eq!(left.kind(), right.kind());
                assert_eq!(left.location(), right.location());
            }
            (left, right) => panic!("{left:?} differs from {right:?}"),
        }
        assert_eq!(bytes.location, text.location);
    }
}

#[test]
fn a_broken_field_leaves_the_settled_ones() {
    let input = b"a,b\"c\n";
    let mut engine = Engine::from_config(
        input,
        ParserSettings::unheaded(csv_dialect(), Limits::standard()),
    );
    let mut output = RecordStorage::new();
    assert_eq!(engine.parse_owned_unquoted_field(input, &mut output, 0, false).ok(), Some(false));
    let error = engine
        .parse_owned_unquoted_field(input, &mut output, 0, false)
        .expect_err("a stray quote");
    assert_owned_error(error, ErrorKind::UnexpectedQuote, 3, 1);
    assert_eq!(fields(&output), [b"a".to_vec()]);

    let mut engine = Engine::from_config(
        input,
        ParserSettings::unheaded(csv_dialect(), Limits::standard()),
    );
    let mut output = RecordStorage::new();
    let error = engine
        .parse_owned_fields(input, &mut output, 0, false)
        .expect_err("a stray quote");
    assert_owned_error(error, ErrorKind::UnexpectedQuote, 3, 1);
    assert_eq!(fields(&output), [b"a".to_vec()]);

    let mut engine = Engine::from_config(
        input,
        ParserSettings::unheaded(csv_dialect(), Limits::standard()),
    );
    let mut output = RecordStorage::new();
    let error = engine
        .try_parse_owned_plain(input, &mut output, 0)
        .expect_err("a stray quote");
    assert_owned_error(error, ErrorKind::UnexpectedQuote, 3, 1);
    assert_eq!(fields(&output), [b"a".to_vec()]);
}
