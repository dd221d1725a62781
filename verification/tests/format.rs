//! Formats as types, and the built-in format that settings amount to.

use std::collections::HashSet;
use std::mem::size_of;

use coseva::config::{BlankRecords, Escape, Limits, Nulls, Recovery, Syntax, Whitespace};
use coseva::format::{agrees, Csv, CsvFormat, Dynamic, FormatKind, Mysql, StaticFormat, Tsv};
use coseva::options::{FormatOptions, FormatTag, ParserSettings};

fn settings(options: FormatOptions) -> ParserSettings {
    let mut settings = ParserSettings::headed(options.dialect, Limits::standard());
    settings.trim = options.trim;
    settings.blank_records = options.blank_records;
    settings.syntax = options.syntax;
    settings.nulls = options.nulls;
    settings.skip_initial_space = options.skip_initial_space;
    settings.format_tag = options.tag;
    settings
}

fn built_ins() -> [(&'static str, FormatOptions); 14] {
    [
        ("CSV", FormatOptions::csv()),
        ("TSV", FormatOptions::tsv()),
        ("SEMICOLON", FormatOptions::semicolon()),
        ("PIPE", FormatOptions::pipe()),
        ("BACKSLASH_CSV", FormatOptions::backslash_csv()),
        ("BACKSLASH_TSV", FormatOptions::backslash_tsv()),
        ("COMMENTED_CSV", FormatOptions::commented_csv()),
        ("TRIMMED_CSV", FormatOptions::trimmed_csv()),
        ("PYTHON_CSV", FormatOptions::python_csv()),
        ("PYTHON_ESCAPED", FormatOptions::python_escaped()),
        ("RFC4180", FormatOptions::rfc4180()),
        ("EXCEL", FormatOptions::excel()),
        ("POSTGRES_COPY_CSV", FormatOptions::postgres_copy_csv()),
        ("MYSQL", FormatOptions::mysql()),
    ]
}

#[test]
fn the_built_in_shapes_classify_as_themselves() {
    assert_eq!(
        FormatKind::of(&settings(FormatOptions::csv())),
        FormatKind::Csv
    );
    assert_eq!(
        FormatKind::of(&settings(FormatOptions::tsv())),
        FormatKind::Tsv
    );
}

#[test]
fn one_setting_away_from_a_built_in_is_not_that_built_in() {
    let cases = [
        ("delimiter", FormatOptions::csv().delimiter(b'^')),
        ("quote", FormatOptions::csv().quote(b'\'')),
        (
            "escape",
            FormatOptions::csv().escape(Escape::Backslash(b'\\')),
        ),
        ("trim", FormatOptions::csv().trim(Whitespace::all())),
        (
            "blank_records",
            FormatOptions::csv().blank_records(BlankRecords::Skip),
        ),
        (
            "syntax",
            FormatOptions::csv().syntax(Syntax::Compatible(Recovery::permissive())),
        ),
        ("nulls", FormatOptions::csv().nulls(Nulls::Mysql)),
        (
            "skip_initial_space",
            FormatOptions::csv().skip_initial_space(true),
        ),
    ];

    for (field, options) in cases {
        assert_eq!(
            FormatKind::of(&settings(options)),
            FormatKind::Other,
            "settings differing from CSV in {field} were classified as a built-in format, \
             so they would silently run that format's kernel"
        );
    }
}

#[test]
fn one_setting_away_from_tsv_is_not_tsv() {
    for options in [
        FormatOptions::tsv().trim(Whitespace::all()),
        FormatOptions::tsv().nulls(Nulls::Mysql),
        FormatOptions::tsv().quote(b'\''),
    ] {
        assert_eq!(FormatKind::of(&settings(options)), FormatKind::Other);
    }
}

#[test]
fn tsv_retargeted_at_a_comma_is_csv() {
    assert_eq!(
        FormatKind::of(&settings(FormatOptions::tsv().delimiter(b','))),
        FormatKind::Csv
    );
}

#[test]
fn unspecialized_built_ins_fall_back_rather_than_borrowing_a_kernel() {
    for options in [FormatOptions::semicolon(), FormatOptions::pipe()] {
        assert_eq!(FormatKind::of(&settings(options)), FormatKind::Other);
    }
}

#[test]
fn agreement_is_reflexive_for_every_built_in() {
    for options in [
        FormatOptions::csv(),
        FormatOptions::tsv(),
        FormatOptions::semicolon(),
        FormatOptions::pipe(),
    ] {
        assert!(agrees(options, &settings(options)));
    }
}

#[test]
fn every_built_ins_tag_agrees_with_comparing_its_fields() {
    for (name, options) in built_ins() {
        let settings = settings(options);
        assert_ne!(
            settings.format_tag,
            FormatTag::Custom,
            "{name} lost its tag, so it pays for classification it does not need"
        );
        assert_eq!(
            FormatKind::of(&settings),
            FormatKind::by_comparison(&settings),
            "the tag on {name} classifies it differently from its own fields,                  so it would run the wrong kernel"
        );
    }
}

#[test]
fn a_setter_drops_the_tag() {
    for (name, options) in built_ins() {
        assert_eq!(
            options.delimiter(b'~').tag,
            FormatTag::Custom,
            "{name} kept its tag after being retargeted at another delimiter"
        );
    }
}

#[test]
fn the_tag_does_not_affect_equality() {
    for (name, options) in built_ins() {
        let rebuilt = options.delimiter(options.dialect.delimiter);
        assert_eq!(rebuilt.tag, FormatTag::Custom);
        assert_eq!(rebuilt, options, "{name} stopped equalling its own rebuild");
        assert_eq!(
            FormatKind::of(&settings(rebuilt)),
            FormatKind::of(&settings(options)),
            "{name} classified differently once rebuilt, so an equal format                  would parse by a different kernel"
        );
    }
}

#[test]
fn a_declared_marker_derives_the_free_traits() {
    let a = Csv;
    let b = Csv::default();

    assert_eq!(a, b);
    assert!(a <= b);

    let mut seen = HashSet::new();
    assert!(seen.insert(a));
    assert!(!seen.insert(b), "two markers of one type must hash alike");

    assert_eq!(size_of::<Csv>(), 0);
    assert_eq!(Dynamic, Dynamic::default());
}

#[test]
fn force_general_parser_disagrees() {
    let mut s = settings(FormatOptions::csv());
    s.force_general_parser = true;
    assert!(!agrees(FormatOptions::csv(), &s));
}

#[test]
fn a_marker_names_its_format_and_the_dynamic_one_names_none() {
    assert_eq!(Csv::format(), FormatOptions::csv());
    assert_eq!(Csv::options(), Some(FormatOptions::csv()));
    assert_eq!(Tsv::format().tag, FormatTag::Tsv);
    assert_eq!(Mysql::options().map(|format| format.nulls), Some(Nulls::Mysql));
    assert!(Dynamic::options().is_none());
}
