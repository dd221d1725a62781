//! Scanning for structural bytes, and finding the columns that a target names.

use coseva::byte_record::ByteRecord;
use coseva::engine::scanner::{
    resolve_decode_mapping, resolve_decode_mapping_indexed, resolve_typed_mapping,
    typed_mapping_from, wide_mapping, HeaderLookup, StructuralScanner, TypedMapping,
};
use coseva::error::{Error, ErrorKind};

fn headers(names: &[&str]) -> ByteRecord {
    let mut record = ByteRecord::new();
    for name in names {
        record.push_field(name.as_bytes());
    }
    record
}

fn lookup_for(record: &ByteRecord) -> HeaderLookup {
    let mut lookup = HeaderLookup::new();
    lookup.rebuild(record);
    lookup
}

fn texts(names: &[String]) -> Vec<&str> {
    names.iter().map(String::as_str).collect()
}

fn column_names(count: usize) -> Vec<String> {
    (0..count).map(|index| format!("c{index:03}")).collect()
}

fn assert_parity(
    record: &ByteRecord,
    names: &[&str],
    aliases: &[&[&str]],
) -> Result<Vec<usize>, Error> {
    let lookup = lookup_for(record);
    let scanned = resolve_decode_mapping(record, names, aliases);
    let indexed = resolve_decode_mapping_indexed(record, &lookup, names, aliases);
    match (scanned, indexed) {
        (Ok(scan), Ok(index)) => {
            assert_eq!(scan, index, "scan and indexed mappings differ");
            Ok(scan)
        }
        (Err(scan), Err(index)) => {
            assert_eq!(scan.kind(), index.kind(), "scan and indexed error kinds differ");
            Err(scan)
        }
        (scan, index) => panic!("resolvers disagreed: {scan:?} vs {index:?}"),
    }
}

#[test]
fn threshold_keeps_sparse_projections_on_the_scan() {
    assert!(!wide_mapping(2, 100));
    assert!(!wide_mapping(5, 100));
    assert!(!wide_mapping(2, 200));
    assert!(wide_mapping(64, 64));
    assert!(wide_mapping(100, 100));
    assert!(wide_mapping(200, 200));
}

#[test]
fn identity_and_reordered_wide_mappings_match_the_scan() {
    for width in [64_usize, 100, 200] {
        let names = column_names(width);
        let record = headers(&texts(&names));

        assert_eq!(
            assert_parity(&record, &texts(&names), &[]).expect("identity resolves"),
            (0..width).collect::<Vec<_>>(),
        );

        let mut reversed = column_names(width);
        reversed.reverse();
        assert_eq!(
            assert_parity(&record, &texts(&reversed), &[]).expect("reversed resolves"),
            (0..width).rev().collect::<Vec<_>>(),
        );

        let ends = vec!["c000".to_owned(), format!("c{:03}", width - 1)];
        assert_eq!(
            assert_parity(&record, &texts(&ends), &[]).expect("ends resolve"),
            vec![0, width - 1],
        );
    }
}

#[test]
fn missing_and_ambiguous_wide_names_error_like_the_scan() {
    let names = column_names(100);
    let record = headers(&texts(&names));

    let mut with_missing = column_names(100);
    with_missing[10] = "absent".to_owned();
    let error =
        assert_parity(&record, &texts(&with_missing), &[]).expect_err("missing name errors");
    assert_eq!(error.kind(), ErrorKind::Decode);

    let mut dup_names = column_names(100);
    dup_names[50] = "c049".to_owned();
    let dup_record = headers(&texts(&dup_names));
    let error = assert_parity(&dup_record, &texts(&names), &[])
        .expect_err("a duplicate header is ambiguous");
    assert_eq!(error.kind(), ErrorKind::Decode);
}

#[test]
fn aliases_resolve_and_stay_ambiguous_on_both_paths() {
    let mut header_names = column_names(80);
    header_names[7] = "legacy".to_owned();
    let record = headers(&texts(&header_names));

    let mut names = column_names(80);
    names[7] = "modern".to_owned();

    let legacy: [&str; 1] = ["legacy"];
    let mut aliases: Vec<&[&str]> = vec![&[]; 80];
    aliases[7] = &legacy;

    let mapping = assert_parity(&record, &texts(&names), &aliases).expect("alias resolves");
    assert_eq!(mapping[7], 7);

    let mut both = header_names.clone();
    both[7] = "modern".to_owned();
    both.push("legacy".to_owned());
    let both_record = headers(&texts(&both));
    let error = assert_parity(&both_record, &texts(&names), &aliases)
        .expect_err("name and alias both present");
    assert_eq!(error.kind(), ErrorKind::Decode);
}

#[test]
fn a_name_equal_to_its_own_alias_is_not_treated_as_a_second_match() {
    let record = headers(&["only"]);
    let names: &[&str] = &["only"];
    let aliases: &[&[&str]] = &[&["only"]];
    let mapping = assert_parity(&record, names, aliases).expect("self-alias resolves");
    assert_eq!(mapping, vec![0]);
}

#[test]
fn typed_mapping_only_collapses_a_complete_identity() {
    assert_eq!(typed_mapping_from(vec![0, 1, 2], 3), TypedMapping::Identity);
    assert_eq!(
        typed_mapping_from(vec![0, 2, 1], 3),
        TypedMapping::Mapped(vec![0, 2, 1])
    );
    assert_eq!(
        typed_mapping_from(vec![0, 1], 3),
        TypedMapping::Mapped(vec![0, 1])
    );
}

#[test]
fn resumed_scanning_progresses_from_the_requested_offset() {
    let input = b"aa,bb\"cc\ndd,ee\n012345678901234567890123456789,tail";
    let mut scanner = StructuralScanner::resume(input, b',', b'"', b'\n', 5);
    let mut matches = Vec::new();

    while let Some(found) = scanner.next_match() {
        matches.push(found);
    }

    assert_eq!(
        matches,
        vec![(5, b'"'), (8, b'\n'), (11, b','), (14, b'\n'), (45, b',')]
    );
}

#[test]
fn a_typed_mapping_is_found_by_either_path() {
    let mut lookup = HeaderLookup::new();

    let narrow = headers(&["id", "name", "price"]);
    assert_eq!(
        resolve_typed_mapping(&narrow, &mut lookup, &["id", "name", "price"], &[]).ok(),
        Some(TypedMapping::Identity)
    );
    assert_eq!(
        resolve_typed_mapping(&narrow, &mut lookup, &["price", "id"], &[]).ok(),
        Some(TypedMapping::Mapped(vec![2, 0]))
    );
    let error = resolve_typed_mapping(&narrow, &mut lookup, &["weight"], &[])
        .expect_err("no column has this name");
    assert_eq!(error.kind(), ErrorKind::Decode);

    let names = column_names(64);
    let wide = headers(&texts(&names));
    assert_eq!(
        resolve_typed_mapping(&wide, &mut lookup, &texts(&names), &[]).ok(),
        Some(TypedMapping::Identity)
    );
    let mut swapped = column_names(64);
    swapped.swap(0, 63);
    let mut expected: Vec<usize> = (0..64).collect();
    expected.swap(0, 63);
    assert_eq!(
        resolve_typed_mapping(&wide, &mut lookup, &texts(&swapped), &[]).ok(),
        Some(TypedMapping::Mapped(expected))
    );
}

#[test]
fn a_scan_past_the_end_finds_nothing() {
    let mut scanner = StructuralScanner::resume(b"a,b", b',', b'"', b'\n', 9);
    assert_eq!(scanner.next_match(), None);
    let mut scanner = StructuralScanner::resume(b"a,b", b',', b'"', b'\n', 2);
    assert_eq!(scanner.next_match(), None);
    assert_eq!(scanner.next_match(), None);
}
