//! Cutting a document into pieces and joining what they hold.

use vstd::prelude::*;

use crate::ascii::{LF, SPACE, TAB};
use crate::byte_record::shrink_vec;
use crate::config::{BlankRecords, Dialect, Escape, FieldCount, ReadBom};
use crate::engine::grammar::Rules;
use crate::engine::{has_bom, line_number, reports};
use crate::error::{Error, Location};
use crate::index::csv_index::{
    build_entry_estimate, build_positions_serial, built, position_tables, positions, readable,
};
use crate::index::index_options::IndexOptions;
use crate::index::parallel::{
    cut, divisible, endings, even_ending, law_pieces_read_like_the_whole, lemma_cut_between,
    lemma_cut_broken, lemma_cut_counts, lemma_endings_add, lemma_endings_bounded,
    lemma_quotes_add, lemma_quotes_one, piece_end, pieces, quotes, Boundary,
    INDEX_CHUNKS_PER_THREAD, PARALLEL_INDEX_THRESHOLD_BYTES,
};
use crate::options::{FormatOptions, ParserSettings};
use crate::search::{count_newlines, lemma_occurrences_bounded, lemma_occurrences_concat};
use crate::slice_parser::{lemma_record_start, lemma_record_takes_bytes, Listing, SliceParser};
use crate::storage::RecordStorage;

verus! {

/// A number of workers that is at least one.
#[verifier::allow_in_spec]
pub fn normalized_thread_count(threads: usize) -> usize
    returns
        (if threads < 1 {
            1usize
        } else {
            threads
        }),
{
    if threads < 1 {
        1
    } else {
        threads
    }
}

/// How many workers `chunks` pieces are given to.
#[verifier::allow_in_spec]
pub fn parallel_worker_count(threads: usize, chunks: usize) -> usize
    returns
        normalized_thread_count(if threads < chunks {
            threads
        } else {
            chunks
        }),
{
    normalized_thread_count(if threads < chunks {
        threads
    } else {
        chunks
    })
}

/// Whether a piece that starts at `start` lies behind a failure.
#[verifier::allow_in_spec]
pub fn chunk_is_blocked(start: usize, failure: usize) -> bool
    returns
        start >= failure,
{
    start >= failure
}

/// How many entries to make room for in each of `chunks` pieces.
pub fn chunk_entry_reserve(estimate: usize, chunks: usize) -> (reserve: usize)
    requires
        estimate < usize::MAX,
    ensures
        reserve == estimate as int / (if chunks < 1 {
            1int
        } else {
            chunks as int
        }) + 1,
{
    let parts: usize = normalized_thread_count(chunks);
    proof {
        vstd::arithmetic::div_mod::lemma_div_is_ordered_by_denominator(
            estimate as int,
            1,
            parts as int,
        );
        vstd::arithmetic::div_mod::lemma_div_basics(estimate as int);
    }
    estimate / parts + 1
}

/// Keep the failure that is earliest in the document; of two at the same byte,
/// the one that was kept already.
pub fn keep_earliest_failure(earliest: &mut Option<(usize, Error)>, error: Error)
    ensures
        *final(earliest) == (match *old(earliest) {
            Some((offset, kept)) => if error.spec_location().byte < offset {
                Some((error.spec_location().byte, error))
            } else {
                Some((offset, kept))
            },
            None => Some((error.spec_location().byte, error)),
        }),
{
    let byte: usize = error.location().byte;
    let replace = match earliest {
        Some((offset, _)) => byte < *offset,
        None => true,
    };
    if replace {
        *earliest = Some((byte, error));
    }
}

/// Whether documents of a format can be indexed in pieces.
///
/// A cut is found by counting quotes, so quotes must come in pairs, and every
/// line that is not part of another record must be one.
pub open spec fn supports_pieces(format: FormatOptions) -> bool {
    &&& format.dialect.comment is None
    &&& format.dialect.escape == Escape::DoubleQuote
    &&& !format.dialect.multibyte()
    &&& format.syntax.quoting_enabled()
    &&& !format.syntax.permits_unquoted_quotes()
    &&& format.blank_records != BlankRecords::Skip
}

/// Whether documents of a format can be indexed in pieces.
pub fn parallel_index_supported(format: FormatOptions) -> (supported: bool)
    ensures
        supported == supports_pieces(format),
{
    format.dialect.comment.is_none() && format.dialect.escape == Escape::DoubleQuote
        && !format.dialect.has_long_separator() && format.syntax.quoting_enabled()
        && !format.syntax.permits_unquoted_quotes() && format.blank_records
        != BlankRecords::Skip
}

/// Whether a source of this length is indexed in pieces.
pub fn should_build_parallel(source_len: usize, format: FormatOptions) -> (parallel: bool)
    ensures
        parallel == (source_len >= PARALLEL_INDEX_THRESHOLD_BYTES && supports_pieces(format)),
{
    source_len >= PARALLEL_INDEX_THRESHOLD_BYTES && parallel_index_supported(format)
}

/// How long the pieces of a document are that is cut into `count`.
pub open spec fn piece_size(source: Seq<u8>, start: int, count: usize) -> int {
    (source.len() - start) / (normalized_thread_count(count) as int)
}

/// Whether the piece that starts at `previous` may end at `at`: a record ends
/// there, more follows, and the piece is long enough.
pub open spec fn may_end(
    rules: Rules,
    source: Seq<u8>,
    start: int,
    size: int,
    previous: int,
    at: int,
) -> bool {
    &&& cut(rules, source, start, at)
    &&& at < source.len()
    &&& previous < at
    &&& previous + size <= at
}

/// Whether the piece that starts at `previous` ends at `at`: no sooner may it.
pub open spec fn ends_piece(
    rules: Rules,
    source: Seq<u8>,
    start: int,
    size: int,
    previous: int,
    at: int,
) -> bool {
    &&& may_end(rules, source, start, size, previous, at)
    &&& forall|sooner: int|
        sooner < at ==> !#[trigger] may_end(rules, source, start, size, previous, sooner)
}

/// Whether cut `index` stands where the piece before it ends.
pub open spec fn cut_in_place(
    rules: Rules,
    source: Seq<u8>,
    start: int,
    size: int,
    cuts: Seq<Boundary>,
    index: int,
) -> bool {
    ends_piece(
        rules,
        source,
        start,
        size,
        cuts[index - 1].byte as int,
        cuts[index].byte as int,
    )
}

/// Whether a document is cut into `count` pieces, each as short as it may be, or
/// into fewer where no other cut is left.
pub open spec fn cut_evenly(
    rules: Rules,
    source: Seq<u8>,
    start: int,
    count: usize,
    cuts: Seq<Boundary>,
) -> bool {
    let size = piece_size(source, start, count);
    &&& 1 <= cuts.len() <= normalized_thread_count(count)
    &&& cuts[0].byte == start
    &&& forall|i: int|
        0 < i < cuts.len() ==> #[trigger] cut_in_place(rules, source, start, size, cuts, i)
    &&& cuts.len() < count ==> forall|at: int|
        !#[trigger] may_end(rules, source, start, size, cuts.last().byte as int, at)
}

/// Where to cut a document into at most `count` pieces of about the same length.
pub fn boundaries(source: &[u8], dialect: Dialect, start: Boundary, count: usize) -> (cuts: Vec<
    Boundary,
>)
    requires
        start.byte <= source.len(),
        start.line == line_number(source@, start.byte as int),
        start.record == 0,
    ensures
        cuts@[0] == start,
        forall|rules: Rules|
            rules.dialect == dialect ==> #[trigger] pieces(
                rules,
                source@,
                start.byte as int,
                cuts@,
            ),
        forall|rules: Rules|
            rules.dialect == dialect ==> #[trigger] cut_evenly(
                rules,
                source@,
                start.byte as int,
                count,
                cuts@,
            ),
{
    let ghost rules = Rules {
        dialect,
        syntax: crate::config::Syntax::Strict,
        nulls: crate::config::Nulls::Disabled,
        limits: crate::config::Limits::standard(),
        skip_initial_space: false,
    };
    let ghost from = start.byte as int;
    let quote: u8 = dialect.quote;
    let terminator: u8 = dialect.record_ending.byte();
    let len: usize = source.len();
    let size: usize = (len - start.byte) / normalized_thread_count(count);
    let mut cuts: Vec<Boundary> = Vec::new();
    cuts.push(start);
    let mut even = true;
    let mut at: usize = start.byte;
    let mut line: u64 = start.line;
    let mut record: u64 = 0;
    let mut target: usize = start.byte.saturating_add(size);
    proof {
        lemma_quotes_add(source@, quote, from, from, from);
    }
    while at < len
        invariant
            from == start.byte <= at <= len == source.len(),
            len <= usize::MAX,
            quote == dialect.quote,
            terminator == dialect.record_ending.byte(),
            rules.dialect == dialect,
            even == (quotes(source@, quote, from, at as int) % 2 == 0),
            line == line_number(source@, at as int),
            record == endings(rules, source@, from, at as int),
            record <= at,
            1 <= cuts@.len() <= normalized_thread_count(count),
            cuts@[0] == start,
            cuts@.last().byte <= at,
            size == piece_size(source@, from, count),
            target == cuts@.last().byte.saturating_add(size),
            pieces(rules, source@, from, cuts@),
            forall|i: int|
                0 < i < cuts@.len() ==> #[trigger] cut_in_place(
                    rules,
                    source@,
                    from,
                    size as int,
                    cuts@,
                    i,
                ),
            cuts@.len() < count ==> forall|p: int|
                p <= at ==> !#[trigger] may_end(
                    rules,
                    source@,
                    from,
                    size as int,
                    cuts@.last().byte as int,
                    p,
                ),
        decreases len - at,
    {
        let byte: u8 = source[at];
        let ends = even && byte == terminator;
        proof {
            lemma_quotes_one(source@, quote, at as int);
            lemma_quotes_add(source@, quote, from, at as int, at + 1);
            assert(ends == even_ending(rules, source@, from, at as int));
            lemma_endings_bounded(rules, source@, from, at + 1);
            assert(source@.take(at + 1).drop_last() =~= source@.take(at as int));
            lemma_occurrences_bounded(source@.take(at + 1), LF);
        }
        if byte == quote {
            even = !even;
        }
        if byte == LF {
            line = line.saturating_add(1);
        }
        at += 1;
        if ends {
            record += 1;
            if at >= target && at < len && cuts.len() < count && at > cuts[cuts.len() - 1].byte {
                let ghost before = cuts@;
                cuts.push(Boundary { byte: at, line, record });
                target = at.saturating_add(size);
                proof {
                    assert forall|i: int| 0 < i < cuts@.len() implies #[trigger] cut_in_place(
                        rules,
                        source@,
                        from,
                        size as int,
                        cuts@,
                        i,
                    ) by {
                        if i < before.len() {
                            assert(cut_in_place(rules, source@, from, size as int, before, i));
                        }
                    }
                }
            }
        }
    }
    proof {
        assert forall|other: Rules| other.dialect == dialect implies #[trigger] pieces(
            other,
            source@,
            from,
            cuts@,
        ) by {
            lemma_same_pieces(rules, other, source@, from, cuts@);
        }
        assert forall|other: Rules| other.dialect == dialect implies #[trigger] cut_evenly(
            other,
            source@,
            from,
            count,
            cuts@,
        ) by {
            lemma_cut_alike(rules, other, source@, from, count, cuts@);
        }
    }
    cuts
}

proof fn lemma_same_endings(a: Rules, b: Rules, source: Seq<u8>, from: int, to: int)
    requires
        a.dialect == b.dialect,
    ensures
        endings(a, source, from, to) == endings(b, source, from, to),
    decreases to - from,
{
    if from < to {
        lemma_same_endings(a, b, source, from, to - 1);
    }
}

proof fn lemma_same_pieces(a: Rules, b: Rules, source: Seq<u8>, from: int, cuts: Seq<Boundary>)
    requires
        a.dialect == b.dialect,
        pieces(a, source, from, cuts),
    ensures
        pieces(b, source, from, cuts),
{
    assert forall|i: int| 0 <= i < cuts.len() implies {
        &&& from <= (#[trigger] cuts[i]).byte <= source.len()
        &&& cuts[i].line == line_number(source, cuts[i].byte as int)
        &&& cuts[i].record == endings(b, source, from, cuts[i].byte as int)
    } by {
        lemma_same_endings(a, b, source, from, cuts[i].byte as int);
    }
    assert forall|i: int| 0 < i < cuts.len() implies cut(
        b,
        source,
        from,
        (#[trigger] cuts[i]).byte as int,
    ) by {
        assert(cut(a, source, from, cuts[i].byte as int));
    }
}

proof fn lemma_cut_alike(
    a: Rules,
    b: Rules,
    source: Seq<u8>,
    from: int,
    count: usize,
    cuts: Seq<Boundary>,
)
    requires
        a.dialect == b.dialect,
        cut_evenly(a, source, from, count, cuts),
    ensures
        cut_evenly(b, source, from, count, cuts),
{
    let size = piece_size(source, from, count);
    assert forall|previous: int, at: int| #[trigger]
        may_end(b, source, from, size, previous, at) == may_end(
        a,
        source,
        from,
        size,
        previous,
        at,
    ) by {}
    assert forall|i: int| 0 < i < cuts.len() implies #[trigger] cut_in_place(
        b,
        source,
        from,
        size,
        cuts,
        i,
    ) by {
        assert(cut_in_place(a, source, from, size, cuts, i));
    }
}

/// The positions of the records of one piece.
#[derive(Debug)]
pub struct ChunkPositions {
    /// The number of the piece.
    pub index: usize,
    /// Where each record starts.
    pub offsets: Vec<u64>,
    /// The physical line that each record starts on.
    pub lines: Vec<u64>,
}

/// Index piece `index` of a source, which starts at `start`.
pub fn parse_index_chunk(
    source: &[u8],
    options: IndexOptions,
    chunks: &[Boundary],
    index: usize,
    start: Boundary,
    reserve: usize,
) -> (result: Result<ChunkPositions, Error>)
    requires
        index < chunks@.len(),
        start == chunks@[index as int],
        start.byte <= piece_end(source@, chunks@, index as int) <= source@.len(),
        start.line == line_number(source@, start.byte as int),
        start.record <= start.byte,
        options.format.dialect.valid(),
        !(options.format.read_bom == ReadBom::Reject && has_bom(source@)),
    ensures
        match options.settings().piece(source@, chunks@, index as int) {
            Listing::Complete(starts) => {
                &&& result matches Ok(piece)
                &&& piece.index == index
                &&& positions(source@, starts, piece.offsets@, piece.lines@)
            },
            Listing::Broken { starts, kind, at, number } => result matches Err(error) && reports(
                error,
                (start.record + starts.len()) as u64,
                source@.take(piece_end(source@, chunks@, index as int)),
                kind,
                at,
                number,
            ),
        },
{
    assert(chunks@.len() == chunks.len() && source@.len() == source.len());
    let end: usize = if index + 1 < chunks.len() {
        chunks[index + 1].byte
    } else {
        source.len()
    };
    let piece = &source[0..end];
    assert(piece@ =~= source@.take(end as int));
    let settings = ParserSettings::from_format(options.format, options.limits);
    let mut parser = match SliceParser::with_settings(piece, settings) {
        Ok(parser) => parser,
        Err(error) => {
            return Err(error);
        },
    };
    let location = Location { byte: start.byte, line: start.line, record: start.record, field: 0 };
    if let Err(error) = parser.seek(location) {
        return Err(error);
    }
    let (mut offsets, mut lines) = position_tables(reserve);
    let mut scratch = RecordStorage::new();
    let mut origin: usize = start.byte;
    let mut line: u64 = start.line;
    let ghost mut starts = Seq::<int>::empty();
    loop
        invariant
            parser.wf(),
            end <= source@.len(),
            source@.len() <= usize::MAX,
            piece@ == source@.take(end as int),
            end == piece_end(source@, chunks@, index as int),
            start == chunks@[index as int],
            start.record <= start.byte,
            parser.document() == piece@,
            parser.spec_settings() == settings,
            parser.state().field_count == FieldCount::Flexible,
            settings == options.settings(),
            start.byte <= origin <= parser.state().location <= end,
            line == line_number(source@, origin as int),
            start.record + starts.len() == parser.state().record,
            start.byte + starts.len() <= parser.state().location,
            positions(source@, starts, offsets@, lines@),
            settings.piece(source@, chunks@, index as int) == settings.listing(
                piece@,
                parser.state().location as int,
                starts,
            ),
        decreases end - parser.state().location,
    {
        let ghost before = parser.state();
        proof {
            lemma_record_start(settings, piece@, before.location as int);
        }
        match parser.next_start(&mut scratch) {
            Err(error) => {
                return Err(error);
            },
            Ok(None) => {
                return Ok(ChunkPositions { index, offsets, lines });
            },
            Ok(Some(at)) => {
                proof {
                    lemma_record_takes_bytes(settings.rules(), piece@, at as int, settings.nulls);
                    let skipped = source@.subrange(origin as int, at as int);
                    lemma_occurrences_concat(source@.take(origin as int), skipped, LF);
                    assert(source@.take(origin as int) + skipped =~= source@.take(at as int));
                    lemma_occurrences_bounded(source@.take(at as int), LF);
                    starts = starts.push(at as int);
                }
                line = line.saturating_add(count_newlines(source, origin, at));
                origin = at;
                offsets.push(at as u64);
                lines.push(line);
            },
        }
    }
}

/// Whether cutting finds nothing but records of a format.
///
/// A quote that is also skipped as white space would not be counted, and so
/// would a record ending.
pub fn cuts_are_sound(format: FormatOptions) -> (sound: bool)
    ensures
        sound == (supports_pieces(format) && !(format.syntax.permits_post_quote_whitespace() && (
        format.dialect.quote == SPACE || format.dialect.quote == TAB)) && !(
        format.skip_initial_space && (format.dialect.quote == SPACE
            || format.dialect.record_ending.byte() == SPACE))),
        sound ==> format.dialect.valid() && !format.dialect.multibyte() ==> forall|limits|
            divisible(#[trigger] ParserSettings::of_format(format, limits)),
{
    let quote: u8 = format.dialect.quote;
    let padded = format.syntax.permits_post_quote_whitespace() && (quote == SPACE || quote == TAB);
    let skipped = format.skip_initial_space && (quote == SPACE
        || format.dialect.record_ending.byte() == SPACE);
    parallel_index_supported(format) && !padded && !skipped
}

/// The same lines are counted in a piece as in the whole.
proof fn lemma_lines_in_piece(source: Seq<u8>, end: int, at: int)
    requires
        0 <= at <= end <= source.len(),
    ensures
        line_number(source.take(end), at) == line_number(source, at),
{
    assert(source.take(end).take(at) =~= source.take(at));
}

/// A piece lies inside its source.
proof fn lemma_piece_bounds(
    settings: ParserSettings,
    source: Seq<u8>,
    start: int,
    cuts: Seq<Boundary>,
    index: int,
)
    requires
        0 <= start,
        pieces(settings.rules(), source, start, cuts),
        0 <= index < cuts.len(),
    ensures
        cuts[index].byte <= piece_end(source, cuts, index) <= source.len(),
        cuts[index].record <= cuts[index].byte,
{
    let rules = settings.rules();
    lemma_endings_bounded(rules, source, start, cuts[index].byte as int);
    if index + 1 < cuts.len() {
        assert(cuts[index].byte < cuts[index + 1].byte);
        assert(cut(rules, source, start, cuts[index + 1].byte as int));
    }
}

/// What is known of piece `index` when the pieces before it were complete.
proof fn lemma_piece(
    settings: ParserSettings,
    source: Seq<u8>,
    start: int,
    cuts: Seq<Boundary>,
    index: int,
    starts: Seq<int>,
)
    requires
        divisible(settings),
        0 <= start,
        source.len() <= usize::MAX,
        pieces(settings.rules(), source, start, cuts),
        0 <= index < cuts.len(),
        starts.len() == cuts[index].record,
    ensures
        cuts[index].byte <= piece_end(source, cuts, index) <= source.len(),
        cuts[index].record <= cuts[index].byte,
        settings.piece(source, cuts, index) matches Listing::Complete(more) ==> (index + 1
            < cuts.len() ==> starts.len() + more.len() == cuts[index + 1].record),
        settings.piece(source, cuts, index) matches Listing::Broken { at, .. } ==> line_number(
            source.take(piece_end(source, cuts, index)),
            at,
        ) == line_number(source, at),
{
    let rules = settings.rules();
    let a = cuts[index].byte as int;
    let b = piece_end(source, cuts, index);
    lemma_endings_bounded(rules, source, start, a);
    if index + 1 < cuts.len() {
        assert(cuts[index].byte < cuts[index + 1].byte);
        assert(cut(rules, source, start, cuts[index + 1].byte as int));
        if index > 0 {
            assert(cut(rules, source, start, cuts[index].byte as int));
        }
        lemma_cut_between(rules, source, start, a, b);
        lemma_cut_counts(settings, source, a, b, Seq::empty());
        lemma_endings_add(rules, source, start, a, b);
        if let Listing::Broken { at, .. } = settings.piece(source, cuts, index) {
            law_pieces_read_like_the_whole(settings, source, start, cuts, index, Seq::empty());
            lemma_cut_broken(settings, source, a, b, Seq::empty());
            lemma_lines_in_piece(source, b, at);
        }
    } else {
        assert(source.take(b) =~= source);
    }
}

/// Positions joined are the positions of what was joined.
proof fn lemma_positions_join(
    source: Seq<u8>,
    starts: Seq<int>,
    offsets: Seq<u64>,
    lines: Seq<u64>,
    more_starts: Seq<int>,
    more_offsets: Seq<u64>,
    more_lines: Seq<u64>,
)
    requires
        positions(source, starts, offsets, lines),
        positions(source, more_starts, more_offsets, more_lines),
    ensures
        positions(source, starts + more_starts, offsets + more_offsets, lines + more_lines),
{
    let n = starts.len() as int;
    assert forall|i: int| 0 <= i < (starts + more_starts).len() implies #[trigger] (offsets
        + more_offsets)[i] == (starts + more_starts)[i] && (lines + more_lines)[i] == line_number(
        source,
        (starts + more_starts)[i],
    ) by {
        if i < n {
            assert(offsets[i] == starts[i]);
        } else {
            assert(more_offsets[i - n] == more_starts[i - n]);
        }
    }
}

/// How many pieces a source is cut into for this many threads.
pub open spec fn wanted_pieces(threads: usize) -> usize {
    let wanted = normalized_thread_count(threads) * INDEX_CHUNKS_PER_THREAD;
    if wanted > usize::MAX {
        usize::MAX
    } else {
        wanted as usize
    }
}

/// Where to cut a source into pieces for this many threads.
#[verifier::spinoff_prover]
pub fn index_pieces(source: &[u8], options: IndexOptions, threads: usize) -> (result: Result<
    Vec<Boundary>,
    Error,
>)
    ensures
        result is Ok == readable(source@, options),
        result matches Ok(cuts) ==> pieces(
            options.settings().rules(),
            source@,
            options.settings().document_start(source@),
            cuts@,
        ) && cut_evenly(
            options.settings().rules(),
            source@,
            options.settings().document_start(source@),
            wanted_pieces(threads),
            cuts@,
        ),
        result matches Err(error) ==> options.settings().refused_with(error),
{
    let settings = ParserSettings::from_format(options.format, options.limits);
    let probe = match SliceParser::with_settings(source, settings) {
        Ok(parser) => parser,
        Err(error) => {
            return Err(error);
        },
    };
    assert(source@.len() == source.len());
    let first: usize = probe.location().byte;
    proof {
        lemma_occurrences_bounded(source@.take(first as int), LF);
    }
    let start = Boundary {
        byte: first,
        line: count_newlines(source, 0, first).saturating_add(1),
        record: 0,
    };
    assert(source@.subrange(0, first as int) =~= source@.take(first as int));
    let workers: usize = normalized_thread_count(threads);
    let wanted: usize = match workers.checked_mul(INDEX_CHUNKS_PER_THREAD) {
        Some(wanted) => wanted,
        None => usize::MAX,
    };
    let cuts = boundaries(source, options.format.dialect, start, wanted);
    proof {
        let rules = settings.rules();
        assert(settings == options.settings());
        assert(rules.dialect == options.format.dialect);
        assert(pieces(rules, source@, start.byte as int, cuts@));
        assert(cut_evenly(rules, source@, start.byte as int, wanted, cuts@));
    }
    Ok(cuts)
}

/// Whether a worker answered for piece `index` what it holds.
pub open spec fn answered(
    source: Seq<u8>,
    options: IndexOptions,
    cuts: Seq<Boundary>,
    index: int,
    answer: Result<ChunkPositions, Error>,
) -> bool {
    match options.settings().piece(source, cuts, index) {
        Listing::Complete(starts) => answer matches Ok(piece) && positions(
            source,
            starts,
            piece.offsets@,
            piece.lines@,
        ),
        Listing::Broken { starts, kind, at, number } => answer matches Err(error) && reports(
            error,
            (cuts[index].record + starts.len()) as u64,
            source.take(piece_end(source, cuts, index)),
            kind,
            at,
            number,
        ),
    }
}

/// Join what workers found in the pieces of a source.
///
/// The pieces are independent of each other, and the first broken one says
/// what is wrong with the source. Those behind it may be left out.
#[verifier::rlimit(40)]
#[verifier::spinoff_prover]
pub fn join_pieces(
    source: &[u8],
    options: IndexOptions,
    cuts: &[Boundary],
    answers: Vec<Result<ChunkPositions, Error>>,
    entries: usize,
) -> (result: Result<(Vec<u64>, Vec<u64>), Error>)
    requires
        readable(source@, options),
        divisible(options.settings()),
        pieces(
            options.settings().rules(),
            source@,
            options.settings().document_start(source@),
            cuts@,
        ),
        answers@.len() <= cuts@.len(),
        answers@.len() < cuts@.len() ==> answers@.len() > 0 && answers@.last() is Err,
        forall|i: int|
            0 <= i < answers@.len() ==> #[trigger] answered(
                source@,
                options,
                cuts@,
                i,
                answers@[i],
            ),
    ensures
        built(source@, options, result),
{
    let ghost settings = options.settings();
    let ghost first = settings.document_start(source@);
    let ghost given = answers@;
    assert(source@.len() == source.len() && cuts@.len() == cuts.len());
    let (mut offsets, mut lines) = position_tables(entries);
    let ghost mut starts = Seq::<int>::empty();
    let mut answers = answers;
    let count: usize = answers.len();
    let mut index: usize = 0;
    proof {
        assert(cuts@[0].record == endings(settings.rules(), source@, first, first));
        law_pieces_read_like_the_whole(settings, source@, first, cuts@, 0, Seq::empty());
    }
    while index < count
        invariant
            index <= count <= cuts@.len(),
            answers@.len() == count - index,
            given.len() == count,
            forall|i: int| 0 <= i < answers@.len() ==> #[trigger] answers@[i] == given[index + i],
            count < cuts@.len() ==> count > 0 && given.last() is Err,
            forall|i: int|
                0 <= i < count ==> #[trigger] answered(source@, options, cuts@, i, given[i]),
            source@.len() <= usize::MAX,
            settings == options.settings(),
            first == settings.document_start(source@),
            divisible(settings),
            readable(source@, options),
            pieces(settings.rules(), source@, first, cuts@),
            positions(source@, starts, offsets@, lines@),
            index < cuts@.len() ==> starts.len() == cuts@[index as int].record,
            settings.records(source@) == settings.piece_by_piece(
                source@,
                cuts@,
                index as int,
                starts,
            ),
            index > 0 ==> given[index - 1] is Ok,
        decreases count - index,
    {
        let answer = answers.remove(0);
        proof {
            assert(answer == given[index as int]);
            assert(answered(source@, options, cuts@, index as int, given[index as int]));
            lemma_piece(settings, source@, first, cuts@, index as int, starts);
        }
        match answer {
            Err(error) => {
                return Err(error);
            },
            Ok(piece) => {
                let mut piece = piece;
                proof {
                    if let Listing::Complete(more) = settings.piece(
                        source@,
                        cuts@,
                        index as int,
                    ) {
                        lemma_positions_join(
                            source@,
                            starts,
                            offsets@,
                            lines@,
                            more,
                            piece.offsets@,
                            piece.lines@,
                        );
                        starts = starts + more;
                    }
                }
                offsets.append(&mut piece.offsets);
                lines.append(&mut piece.lines);
            },
        }
        index += 1;
    }
    shrink_vec(&mut offsets, 0);
    shrink_vec(&mut lines, 0);
    Ok((offsets, lines))
}

/// The positions of the records of a source, found piece by piece.
///
/// The pieces are independent of each other; here one follows the other, and
/// the first that is broken ends the work: every later one lies behind the
/// failure.
pub fn build_positions_parallel(source: &[u8], options: IndexOptions, threads: usize) -> (result:
    Result<(Vec<u64>, Vec<u64>), Error>)
    ensures
        built(source@, options, result),
{
    if !cuts_are_sound(options.format) {
        return build_positions_serial(source, options);
    }
    let cuts = match index_pieces(source, options, threads) {
        Ok(cuts) => cuts,
        Err(error) => {
            return Err(error);
        },
    };
    let ghost settings = options.settings();
    let ghost first = settings.document_start(source@);
    assert(divisible(ParserSettings::of_format(options.format, options.limits)));
    assert(source@.len() == source.len());
    let estimate: usize = build_entry_estimate(source, options.format);
    let reserve: usize = chunk_entry_reserve(estimate, cuts.len());
    let mut answers: Vec<Result<ChunkPositions, Error>> = Vec::new();
    let mut index: usize = 0;
    let mut broken = false;
    while index < cuts.len() && !broken
        invariant
            index == answers@.len(),
            index <= cuts@.len(),
            broken ==> index > 0 && answers@.last() is Err,
            source@.len() <= usize::MAX,
            settings == options.settings(),
            first == settings.document_start(source@),
            readable(source@, options),
            pieces(settings.rules(), source@, first, cuts@),
            forall|i: int|
                0 <= i < answers@.len() ==> #[trigger] answered(
                    source@,
                    options,
                    cuts@,
                    i,
                    answers@[i],
                ),
        decreases cuts@.len() - index,
    {
        proof {
            lemma_piece_bounds(settings, source@, first, cuts@, index as int);
        }
        let answer = parse_index_chunk(
            source,
            options,
            cuts.as_slice(),
            index,
            cuts[index],
            reserve,
        );
        broken = answer.is_err();
        let ghost before = answers@;
        answers.push(answer);
        index += 1;
        proof {
            assert forall|i: int| 0 <= i < answers@.len() implies #[trigger] answered(
                source@,
                options,
                cuts@,
                i,
                answers@[i],
            ) by {
                if i < before.len() {
                    assert(answered(source@, options, cuts@, i, before[i]));
                }
            }
        }
    }
    join_pieces(source, options, cuts.as_slice(), answers, estimate)
}

/// The positions of the records of a source, read in pieces where it is long
/// enough and can be cut.
pub fn build_positions(source: &[u8], options: IndexOptions, threads: usize) -> (result: Result<
    (Vec<u64>, Vec<u64>),
    Error,
>)
    ensures
        built(source@, options, result),
{
    if should_build_parallel(source.len(), options.format) {
        return build_positions_parallel(source, options, threads);
    }
    build_positions_serial(source, options)
}

} // verus!
