//! Indexing a source that comes piece by piece.

use coseva::config::{Limits, ReadBom};
use coseva::error::{Error, ErrorKind};
use coseva::index::indexer::Indexer;
use coseva::index::{CsvIndex, IndexOptions};
use coseva::options::FormatOptions;

fn options(format: FormatOptions) -> IndexOptions {
    IndexOptions { format, limits: Limits::standard() }
}

fn in_pieces(source: &[u8], options: IndexOptions, size: usize) -> Result<Vec<u8>, Error> {
    let mut indexer = Indexer::new(options)?;
    let mut entries = Vec::new();
    for piece in source.chunks(size) {
        entries.extend(indexer.push(piece)?);
    }
    let end = indexer.finish()?;
    entries.extend(end.entries);
    let mut bytes = end.header;
    bytes.extend(entries);
    bytes.extend(end.trailer);
    Ok(bytes)
}

fn same_in_pieces(source: &[u8], options: IndexOptions) {
    let whole = CsvIndex::create(source, options).map(|reader| reader.into_inner());
    for size in [1, 2, 3, 5, 17, 4096] {
        match (&whole, in_pieces(source, options, size)) {
            (Ok(expected), Ok(bytes)) => assert_eq!(*expected, bytes, "pieces of {size}"),
            (Err(expected), Err(error)) => {
                assert_eq!(error.kind(), expected.kind(), "pieces of {size}");
                assert_eq!(error.location(), expected.location(), "pieces of {size}");
            }
            (expected, actual) => panic!("{expected:?} but {actual:?} in pieces of {size}"),
        }
    }
}

#[test]
fn a_source_in_pieces_is_indexed_like_the_whole() {
    let plain: &[u8] = b"city,population\nBoston,650706\n\"two\nlines\",\"a\"\"b\"\r\nlast,no ending";
    for source in [plain, b"", b"a", b"a\n", b"\n\n\n", b"\xEF\xBB\xBFa\nb\n", b"\xEF\xBB"] {
        for format in [
            FormatOptions::csv(),
            FormatOptions::tsv(),
            FormatOptions::commented_csv(),
            FormatOptions::python_csv(),
            FormatOptions::mysql(),
            FormatOptions::csv().read_bom(ReadBom::Detect),
            FormatOptions::csv().read_bom(ReadBom::Preserve),
        ] {
            same_in_pieces(source, options(format));
        }
    }
}

#[test]
fn comments_and_blank_lines_may_come_in_pieces() {
    same_in_pieces(
        b"# one\n\n\r\na,b\n#two,\"\n\n\nc,d\n# three",
        options(FormatOptions::commented_csv()),
    );
}

#[test]
fn separators_may_come_in_pieces() {
    same_in_pieces(b"a,b\r\n\"c\r\nd\",e\r\nf\r\n", options(FormatOptions::rfc4180()));
    same_in_pieces(
        b"a||b;--c|d||;-;;--\"e;--\"||f;--",
        options(FormatOptions::csv().delimiter_sequence(b"||").record_ending_sequence(b";--")),
    );
}

#[test]
fn what_is_wrong_is_found_in_pieces_too() {
    let long = [b"a,b\n".as_slice(), &b"x".repeat(100), b"\nc\n"].concat();
    for source in [
        b"a\nb\"c\nd\n".as_slice(),
        b"a\n\"b\"c\nd\n",
        b"a\nb\n\"c,d\ne\n",
        b"\"",
    ] {
        same_in_pieces(source, options(FormatOptions::csv()));
    }
    let mut limited = options(FormatOptions::csv());
    limited.limits.max_record_bytes = 20;
    same_in_pieces(&long, limited);
    let error = in_pieces(&long, limited, 7).expect_err("a long record");
    assert_eq!(error.kind(), ErrorKind::RecordTooLarge { limit: 20 });
    assert_eq!((error.location().record, error.location().line), (1, 2));
}

#[test]
fn entries_come_before_the_source_ends() {
    let mut indexer = Indexer::new(options(FormatOptions::csv())).expect("valid format");
    assert_eq!(indexer.push(b"a,").expect("more"), b"");
    let entries = indexer.push(b"b\nc,d\ne,f").expect("more");
    assert_eq!(entries.len(), 32);
    assert_eq!(entries[..16], [[0; 8], 1u64.to_le_bytes()].concat());
    assert_eq!(entries[16..], [4u64.to_le_bytes(), 2u64.to_le_bytes()].concat());
    let end = indexer.finish().expect("well formed");
    assert_eq!(end.entries, [8u64.to_le_bytes(), 3u64.to_le_bytes()].concat());
}

#[test]
fn what_is_wrong_is_found_before_the_source_ends() {
    let mut indexer = Indexer::new(options(FormatOptions::csv())).expect("valid format");
    let error = indexer.push(b"a\nb\"c,d,e\n").expect_err("a quote inside a field");
    assert_eq!(error.kind(), ErrorKind::UnexpectedQuote);
    assert_eq!((error.location().byte, error.location().line, error.location().record), (3, 2, 1));
    let error = indexer.finish().expect_err("it stays wrong");
    assert_eq!(error.kind(), ErrorKind::UnexpectedQuote);
}

#[test]
fn a_mark_may_be_refused_and_a_format_may_be_unusable() {
    let marked = options(FormatOptions::csv().read_bom(ReadBom::Reject));
    same_in_pieces(b"\xEF\xBB\xBFa\n", marked);
    let error = in_pieces(b"\xEF\xBB\xBFa\n", marked, 2).expect_err("a mark");
    assert_eq!(error.kind(), ErrorKind::RejectedBom);
    let unusable = options(FormatOptions::csv().delimiter(b'\n'));
    let error = in_pieces(b"a", unusable, 1).expect_err("no separator");
    assert_eq!(error.kind(), ErrorKind::Configuration);
}
