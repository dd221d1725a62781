//! Indexing a source that comes piece by piece.

use vstd::bytes::{
    lemma_auto_spec_u64_to_from_le_bytes, spec_u128_to_le_bytes, spec_u64_to_le_bytes,
    u128_to_le_bytes,
};
use vstd::prelude::*;

use crate::ascii::LF;
use crate::config::{BlankRecords, FieldCount, ReadBom};
use crate::engine::checked_locality::lemma_same_breaks;
use crate::engine::grammar::Scan;
use crate::engine::prefix::{begins, law_a_firm_outcome_stays};
use crate::engine::suffix::{
    law_a_record_of_a_suffix_reads_alike, lemma_failure_inside, lemma_start_in_suffix,
};
use crate::engine::{line_number, reports, starts_with_bom};
use crate::error::{Error, ErrorKind, IoError, IoErrorKind, Location};
use crate::index::csv_index::{created, entries_bytes, lemma_same_starts, readable, Table};
use crate::index::csv_index_reader::CsvIndexReader;
use crate::index::format::{encode_header, SOURCE_LENGTH_OVERFLOW, TOO_MANY_RECORDS};
use crate::index::generate::{lemma_entries_alike, lemma_one_index, record_entry};
use crate::index::hash::{xxh3, xxh3_128};
use crate::index::index_options::IndexOptions;
use crate::index::stream::StreamHash;
use crate::options::ParserSettings;
use crate::search::{
    count_newlines, lemma_occurrences_bounded, lemma_occurrences_concat, occurrences,
};
use crate::slice_parser::{lemma_record_start, lemma_record_takes_bytes, Listing, SliceParser};
use crate::storage::RecordStorage;

verus! {

/// Whether what comes of the next record from `at` on comes of it whatever
/// follows what is held.
pub open spec fn ready(settings: ParserSettings, held: Seq<u8>, at: int) -> bool {
    let rules = settings.rules();
    let start = settings.record_start(held, at);
    &&& start + rules.margin() <= held.len()
    &&& rules.firm(held, start, rules.read_record(held, start, settings.nulls).extent())
}

/// How far a record ending reaches.
spec fn reach(settings: ParserSettings) -> int {
    2 + settings.dialect.ending_tail.text().len() as int
}

proof fn lemma_break_stays(settings: ParserSettings, held: Seq<u8>, document: Seq<u8>, at: int)
    requires
        begins(document, held),
        0 <= at,
        at + reach(settings) <= held.len(),
    ensures
        settings.dialect.breaks(document, at) == settings.dialect.breaks(held, at),
        settings.ending_len(document, at) == settings.ending_len(held, at),
{
    let n = held.len() as int;
    assert forall|i: int| 0 <= i < 0 + n implies #[trigger] held[i] == document[i - 0 + 0] by {
        assert(document.take(n)[i] == document[i]);
    }
    lemma_same_breaks(settings.rules(), held, 0, document, 0, n, at);
    lemma_same_breaks(settings.rules(), held, 0, document, 0, n, at + 1);
    assert(held[at] == document[at]);
}

proof fn lemma_line_stays(
    settings: ParserSettings,
    held: Seq<u8>,
    document: Seq<u8>,
    at: int,
)
    requires
        begins(document, held),
        0 <= at <= held.len(),
        settings.line_end(held, at) + reach(settings) <= held.len(),
    ensures
        settings.line_end(document, at) == settings.line_end(held, at),
    decreases held.len() - at,
{
    settings.dialect.lemma_line_end(held, at);
    lemma_break_stays(settings, held, document, at);
    if !settings.dialect.breaks(held, at) {
        lemma_line_stays(settings, held, document, at + 1);
    }
}

proof fn lemma_start_stays(
    settings: ParserSettings,
    held: Seq<u8>,
    document: Seq<u8>,
    at: int,
)
    requires
        begins(document, held),
        0 <= at <= held.len(),
        settings.record_start(held, at) + reach(settings) <= held.len(),
    ensures
        settings.record_start(document, at) == settings.record_start(held, at),
    decreases held.len() - at,
{
    lemma_record_start(settings, held, at);
    lemma_break_stays(settings, held, document, at);
    assert(document.take(held.len() as int)[at] == document[at]);
    settings.dialect.lemma_line_end(held, at);
    if settings.dialect.comment == Some(held[at]) {
        lemma_record_start(settings, held, settings.line_end(held, at));
        lemma_line_stays(settings, held, document, at);
        lemma_start_stays(settings, held, document, settings.line_end(held, at));
    } else if settings.blank_records == BlankRecords::Skip && settings.ending_len(held, at) > 0 {
        lemma_record_start(settings, held, at + settings.ending_len(held, at));
        lemma_start_stays(settings, held, document, at + settings.ending_len(held, at));
    }
}

/// What is known of the next record holds of every document that starts with what
/// is held.
pub proof fn law_a_known_record_stays(
    settings: ParserSettings,
    held: Seq<u8>,
    document: Seq<u8>,
    at: int,
)
    requires
        begins(document, held),
        0 <= at <= held.len(),
        ready(settings, held, at),
    ensures
        ({
            let start = settings.record_start(held, at);
            &&& settings.record_start(document, at) == start
            &&& settings.rules().read_record(document, start, settings.nulls)
                == settings.rules().read_record(held, start, settings.nulls)
        }),
{
    let start = settings.record_start(held, at);
    lemma_record_start(settings, held, at);
    law_a_firm_outcome_stays(settings.rules(), held, document, start, settings.nulls);
    lemma_start_stays(settings, held, document, at);
}

/// Whether a document is the source, or, where more of it comes, may become it.
pub open spec fn continues(document: Seq<u8>, source: Seq<u8>, last: bool) -> bool {
    if last {
        document == source
    } else {
        begins(document, source)
    }
}

/// The next record of a source is found in what is held of it.
#[verifier::rlimit(40)]
#[verifier::spinoff_prover]
proof fn lemma_meets(
    settings: ParserSettings,
    source: Seq<u8>,
    last: bool,
    document: Seq<u8>,
    base: int,
    at: int,
)
    requires
        continues(document, source, last),
        0 <= base <= source.len(),
        0 <= at <= source.len() - base,
        last || ready(settings, source.skip(base), at),
    ensures
        ({
            let held = source.skip(base);
            let start = settings.record_start(held, at);
            &&& settings.record_start(document, base + at) == base + start
            &&& settings.rules().read_record(document, base + start, settings.nulls)
                == settings.rules().read_record(held, start, settings.nulls).moved(base)
        }),
{
    let held = source.skip(base);
    let rest = document.skip(base);
    let start = settings.record_start(held, at);
    lemma_record_start(settings, held, at);
    if !last {
        assert(rest.take(held.len() as int) =~= held) by {
            assert forall|i: int| 0 <= i < held.len() implies rest.take(held.len() as int)[i]
                == #[trigger] held[i] by {
                assert(document.take(source.len() as int)[base + i] == document[base + i]);
            }
        }
        law_a_known_record_stays(settings, held, rest, at);
    }
    lemma_start_in_suffix(settings, document, base, at);
    law_a_record_of_a_suffix_reads_alike(settings.rules(), document, base, start, settings.nulls);
}

/// How many entries an index can have whose length is counted in 64 bits.
pub const MAX_ENTRIES: u64 = 0x0FFF_FFFF_FFFF_FFFF;

impl Listing {
    /// The records that were listed.
    pub open spec fn listed(self) -> Seq<int> {
        match self {
            Listing::Complete(starts) => starts,
            Listing::Broken { starts, .. } => starts,
        }
    }
}

proof fn lemma_listing_grows(
    settings: ParserSettings,
    document: Seq<u8>,
    at: int,
    starts: Seq<int>,
)
    requires
        0 <= at <= document.len(),
    ensures
        starts.len() <= settings.listing(document, at, starts).listed().len(),
    decreases document.len() - at,
{
    lemma_record_start(settings, document, at);
    let start = settings.record_start(document, at);
    if start < document.len() {
        lemma_record_takes_bytes(settings.rules(), document, start, settings.nulls);
        if let Scan::Done { next, .. } = settings.rules().read_record(
            document,
            start,
            settings.nulls,
        ) {
            lemma_listing_grows(settings, document, next, starts.push(start));
        }
    }
}

/// The entries of records that start at `starts`.
pub open spec fn entries_of(source: Seq<u8>, starts: Seq<int>) -> Seq<u8> {
    entries_bytes(
        starts.map_values(|start: int| start as u64),
        starts.map_values(|start: int| line_number(source, start)),
        starts.len(),
    )
}

proof fn lemma_entries_grow(source: Seq<u8>, starts: Seq<int>, start: int)
    ensures
        entries_of(source, starts.push(start)) == entries_of(source, starts) + (
        spec_u64_to_le_bytes(start as u64) + spec_u64_to_le_bytes(line_number(source, start))),
{
    let more = starts.push(start);
    lemma_entries_alike(
        starts.map_values(|start: int| start as u64),
        starts.map_values(|start: int| line_number(source, start)),
        more.map_values(|start: int| start as u64),
        more.map_values(|start: int| line_number(source, start)),
        starts.len(),
    );
}

proof fn lemma_entries_stay(source: Seq<u8>, more: Seq<u8>, starts: Seq<int>)
    requires
        forall|i: int| 0 <= i < starts.len() ==> 0 <= #[trigger] starts[i] <= source.len(),
    ensures
        entries_of(source + more, starts) == entries_of(source, starts),
{
    let a = starts.map_values(|start: int| line_number(source, start));
    let b = starts.map_values(|start: int| line_number(source + more, start));
    assert forall|i: int| 0 <= i < starts.len() implies a[i] == #[trigger] b[i] by {
        assert((source + more).take(starts[i]) =~= source.take(starts[i]));
    }
    let offsets = starts.map_values(|start: int| start as u64);
    lemma_entries_alike(offsets, a, offsets, b, starts.len());
}

/// Whether the records that start at `starts` and those from `at` on are the
/// records of the source; where more of it comes, whatever that is.
#[verifier::opaque]
pub open spec fn leads(
    settings: ParserSettings,
    source: Seq<u8>,
    last: bool,
    at: int,
    starts: Seq<int>,
) -> bool {
    forall|document: Seq<u8>| #[trigger]
        continues(document, source, last) ==> settings.records(document) == settings.listing(
            document,
            at,
            starts,
        )
}

proof fn lemma_leads_on(
    settings: ParserSettings,
    source: Seq<u8>,
    last: bool,
    base: int,
    at: int,
    starts: Seq<int>,
)
    requires
        0 <= base <= source.len(),
        0 <= at <= source.len() - base,
        leads(settings, source, last, base + at, starts),
        settings.record_start(source.skip(base), at) < source.len() - base,
        settings.rules().read_record(
            source.skip(base),
            settings.record_start(source.skip(base), at),
            settings.nulls,
        ) is Done,
        last || ready(settings, source.skip(base), at),
    ensures
        ({
            let held = source.skip(base);
            let start = settings.record_start(held, at);
            let next = settings.rules().read_record(held, start, settings.nulls)->Done_next;
            let more = starts.push(base + start);
            &&& leads(settings, source, last, base + next, more)
            &&& forall|document: Seq<u8>| #[trigger]
                continues(document, source, last) ==> more.len() <= settings.records(
                    document,
                ).listed().len()
        }),
{
    reveal(leads);
    let held = source.skip(base);
    let start = settings.record_start(held, at);
    let next = settings.rules().read_record(held, start, settings.nulls)->Done_next;
    let more = starts.push(base + start);
    lemma_record_start(settings, held, at);
    lemma_record_takes_bytes(settings.rules(), held, start, settings.nulls);
    assert forall|document: Seq<u8>| #[trigger]
        continues(document, source, last) implies settings.records(document) == settings.listing(
        document,
        base + next,
        more,
    ) && more.len() <= settings.records(document).listed().len() by {
        lemma_one_more(settings, source, last, document, base, at, starts);
    }
}

/// What the next record adds to a listing.
#[verifier::rlimit(40)]
#[verifier::spinoff_prover]
proof fn lemma_one_more(
    settings: ParserSettings,
    source: Seq<u8>,
    last: bool,
    document: Seq<u8>,
    base: int,
    at: int,
    starts: Seq<int>,
)
    requires
        continues(document, source, last),
        0 <= base <= source.len(),
        0 <= at <= source.len() - base,
        settings.record_start(source.skip(base), at) < source.len() - base,
        settings.rules().read_record(
            source.skip(base),
            settings.record_start(source.skip(base), at),
            settings.nulls,
        ) is Done,
        last || ready(settings, source.skip(base), at),
    ensures
        ({
            let held = source.skip(base);
            let start = settings.record_start(held, at);
            let next = settings.rules().read_record(held, start, settings.nulls)->Done_next;
            let more = starts.push(base + start);
            &&& settings.listing(document, base + at, starts) == settings.listing(
                document,
                base + next,
                more,
            )
            &&& more.len() <= settings.listing(document, base + next, more).listed().len()
        }),
{
    let held = source.skip(base);
    let start = settings.record_start(held, at);
    let next = settings.rules().read_record(held, start, settings.nulls)->Done_next;
    let more = starts.push(base + start);
    lemma_record_start(settings, held, at);
    lemma_record_takes_bytes(settings.rules(), held, start, settings.nulls);
    lemma_meets(settings, source, last, document, base, at);
    assert(settings.rules().read_record(document, base + start, settings.nulls) matches Scan::Done {
        next: far,
        ..
    } && far == base + next);
    lemma_listing_grows(settings, document, base + next, more);
}

/// What holds whatever follows holds where nothing does.
proof fn lemma_leads_at_last(
    settings: ParserSettings,
    source: Seq<u8>,
    at: int,
    starts: Seq<int>,
)
    requires
        leads(settings, source, false, at, starts),
    ensures
        leads(settings, source, true, at, starts),
{
    reveal(leads);
    assert(source.take(source.len() as int) =~= source);
    assert(continues(source, source, false));
}

proof fn lemma_leads_to_the_end(
    settings: ParserSettings,
    source: Seq<u8>,
    base: int,
    at: int,
    starts: Seq<int>,
)
    requires
        0 <= base <= source.len(),
        0 <= at <= source.len() - base,
        leads(settings, source, true, base + at, starts),
        settings.record_start(source.skip(base), at) >= source.len() - base,
    ensures
        settings.records(source) == Listing::Complete(starts),
{
    reveal(leads);
    assert(continues(source, source, true));
    lemma_start_in_suffix(settings, source, base, at);
}

proof fn lemma_leads_nowhere(
    settings: ParserSettings,
    source: Seq<u8>,
    last: bool,
    base: int,
    at: int,
    starts: Seq<int>,
    relocated: Error,
)
    requires
        0 <= base <= source.len() <= u64::MAX,
        0 <= at <= source.len() - base,
        leads(settings, source, last, base + at, starts),
        settings.record_start(source.skip(base), at) < source.len() - base,
        last || ready(settings, source.skip(base), at),
        starts.len() <= MAX_ENTRIES,
        settings.rules().read_record(
            source.skip(base),
            settings.record_start(source.skip(base), at),
            settings.nulls,
        ) matches Scan::Failed { kind, at, number } && 0 <= at <= source.len() - base
            && relocated.spec_kind() == kind && relocated.spec_location().byte == base + at
            && relocated.spec_location().line == line_number(source, base + at)
            && relocated.spec_location().record == starts.len() && relocated.spec_location().field
            == number && relocated.is_plain(),
    ensures
        forall|document: Seq<u8>| #[trigger]
            continues(document, source, last) ==> not_indexed(settings, document, relocated),
{
    reveal(leads);
    let held = source.skip(base);
    lemma_record_start(settings, held, at);
    assert forall|document: Seq<u8>| #[trigger] continues(document, source, last) implies not_indexed(
        settings,
        document,
        relocated,
    ) by {
        lemma_meets(settings, source, last, document, base, at);
        let bad = relocated.spec_location().byte as int;
        if !last {
            assert(document.take(bad) =~= source.take(bad)) by {
                assert forall|i: int| 0 <= i < bad implies document[i] == source[i] by {
                    assert(document.take(source.len() as int)[i] == document[i]);
                }
            }
        }
    }
}

/// The line of a byte of the source that is held.
proof fn lemma_line_behind(source: Seq<u8>, base: int, byte: int)
    requires
        0 <= base,
        0 <= byte,
        base + byte <= source.len() <= u64::MAX,
    ensures
        ({
            let before = occurrences(source.take(base), LF);
            let here = occurrences(source.skip(base).take(byte), LF);
            &&& before + here <= u64::MAX
            &&& line_number(source, base + byte) == ((before + here) as u64).saturating_add(1)
        }),
{
    lemma_newlines(source, base, 0, byte);
    assert(source.skip(base).take(byte) =~= source.skip(base).subrange(0, byte));
}

/// Whether an outcome that is found at `extent`, of a record that starts at
/// `start`, is the outcome whatever follows what is held.
fn is_firm(settings: ParserSettings, held: &[u8], start: usize, extent: usize) -> (yes: bool)
    requires
        start <= held.len(),
        extent <= held.len(),
    ensures
        yes == (start + settings.rules().margin() <= held@.len() && settings.rules().firm(
            held@,
            start as int,
            extent as int,
        )),
{
    let margin: usize = 2 + settings.dialect.delimiter_tail.size()
        + settings.dialect.ending_tail.size();
    let limit: usize = settings.limits.max_record_bytes;
    let behind: usize = held.len() - start;
    if behind < margin || held.len() - extent < margin {
        return false;
    }
    if extent <= start || extent - start <= limit {
        return true;
    }
    !settings.syntax.permits_post_quote_whitespace() && behind > limit && behind - limit > 2
        * margin
}

/// What to do when all of a source has come.
#[derive(Debug)]
pub struct IndexEnd {
    /// What to add to the entries of the index.
    pub entries: Vec<u8>,
    /// What goes before the entries of the index.
    pub header: Vec<u8>,
    /// What goes behind the entries of the index.
    pub trailer: Vec<u8>,
}

/// Indexes a source that comes piece by piece.
///
/// It holds what is not known to be whole yet, and no entries.
pub struct Indexer {
    options: IndexOptions,
    begun: bool,
    held: Vec<u8>,
    base: usize,
    newlines: u64,
    count: u64,
    source: StreamHash,
    entries: StreamHash,
    starts: Ghost<Seq<int>>,
}

impl Indexer {
    /// How the source is read.
    pub closed spec fn spec_options(&self) -> IndexOptions {
        self.options
    }

    /// What has come of the source.
    pub closed spec fn passed(&self) -> Seq<u8> {
        self.source.passed()
    }

    /// What is held of the source.
    pub closed spec fn held(&self) -> Seq<u8> {
        self.held@
    }

    /// The entries of the index that were handed out.
    pub closed spec fn indexed(&self) -> Seq<u8> {
        self.entries.passed()
    }

    /// Where the records start whose entries were handed out.
    pub closed spec fn starts(&self) -> Seq<int> {
        self.starts@
    }

    /// Whether what is held and counted is that of the source.
    spec fn sound(&self) -> bool {
        &&& self.options.format.dialect.valid()
        &&& self.source.wf()
        &&& self.entries.wf()
        &&& self.base <= self.passed().len() <= usize::MAX
        &&& self.held@ == self.passed().skip(self.base as int)
        &&& self.newlines == occurrences(self.passed().take(self.base as int), LF)
        &&& self.count == self.starts@.len()
        &&& self.count <= MAX_ENTRIES
        &&& self.indexed() == entries_of(self.passed(), self.starts@)
        &&& self.indexed().len() == 16 * self.count
        &&& forall|i: int| 0 <= i < self.starts@.len() ==> 0 <= #[trigger] self.starts@[i] < self.base
    }

    /// Whether the indexer is usable.
    pub closed spec fn wf(&self) -> bool {
        &&& self.sound()
        &&& if self.begun {
            &&& self.passed().len() >= 3
            &&& readable(self.passed(), self.options)
            &&& leads(
                self.options.settings(),
                self.passed(),
                false,
                self.base as int,
                self.starts@,
            )
        } else {
            &&& self.base == 0
            &&& self.starts@ == Seq::<int>::empty()
            &&& self.passed().len() >= 3 ==> !readable(self.passed(), self.options)
        }
    }

    /// Nothing of the source has come.
    pub fn new(options: IndexOptions) -> (result: Result<Indexer, Error>)
        ensures
            result is Ok == options.format.dialect.valid(),
            result matches Ok(indexer) ==> {
                &&& indexer.wf()
                &&& indexer.spec_options() == options
                &&& indexer.passed() == Seq::<u8>::empty()
                &&& indexer.indexed() == Seq::<u8>::empty()
            },
            result matches Err(error) ==> error.misconfigured(),
    {
        if let Some(reason) = options.format.dialect.invalidity() {
            return Err(Error::detailed(ErrorKind::Configuration, reason));
        }
        let indexer = Indexer {
            options,
            begun: false,
            held: Vec::new(),
            base: 0,
            newlines: 0,
            count: 0,
            source: StreamHash::new(),
            entries: StreamHash::new(),
            starts: Ghost(Seq::empty()),
        };
        assert(indexer.held@ =~= indexer.passed().skip(0));
        assert(indexer.passed().take(0) =~= Seq::<u8>::empty());
        Ok(indexer)
    }

    /// Go past a byte-order mark.
    fn begin(&mut self) -> (result: Result<(), Error>)
        requires
            old(self).sound(),
            old(self).base == 0,
            old(self).starts@ == Seq::<int>::empty(),
        ensures
            final(self).sound(),
            final(self).options == old(self).options,
            final(self).begun == old(self).begun,
            final(self).source == old(self).source,
            final(self).entries == old(self).entries,
            final(self).starts == old(self).starts,
            ({
                let settings = old(self).options.settings();
                let source = old(self).passed();
                match result {
                    Ok(_) => {
                        &&& readable(source, old(self).options)
                        &&& forall|last: bool|
                            last || source.len() >= 3 ==> #[trigger] leads(
                                settings,
                                source,
                                last,
                                final(self).base as int,
                                Seq::empty(),
                            )
                    },
                    Err(error) => {
                        &&& !readable(source, old(self).options)
                        &&& settings.refused_with(error)
                        &&& *final(self) == *old(self)
                    },
                }
            }),
    {
        let ghost source = self.passed();
        let ghost settings = self.options.settings();
        assert(source.skip(0) =~= source);
        let marked = starts_with_bom(self.held.as_slice());
        if marked && self.options.format.read_bom == ReadBom::Reject {
            return Err(Error::new(ErrorKind::RejectedBom, Location::start()));
        }
        if marked && self.options.format.read_bom == ReadBom::Detect {
            let mut rest: Vec<u8> = Vec::new();
            rest.extend_from_slice(&self.held.as_slice()[3..self.held.len()]);
            self.held = rest;
            self.base = 3;
            proof {
                assert(self.held@ =~= source.skip(3));
                let mark = source.take(3);
                reveal_with_fuel(occurrences, 4);
                assert(source.take(0) =~= Seq::<u8>::empty());
                assert(mark.drop_last().drop_last().drop_last() =~= Seq::<u8>::empty());
            }
        }
        proof {
            reveal(leads);
            assert forall|document: Seq<u8>| #[trigger]
                begins(document, source) && source.len() >= 3 implies settings.records(document)
                == settings.listing(document, self.base as int, Seq::empty()) by {
                let front = document.take(source.len() as int);
                assert(front[0] == document[0]);
                assert(front[1] == document[1]);
                assert(front[2] == document[2]);
            }
        }
        Ok(())
    }

    /// Read the records that are settled, or, where nothing more comes, all that
    /// are left.
    #[verifier::rlimit(60)]
    #[verifier::spinoff_prover]
    fn read_held(&mut self, last: bool) -> (result: Result<Vec<u8>, Error>)
        requires
            old(self).sound(),
            readable(old(self).passed(), old(self).options),
            leads(
                old(self).options.settings(),
                old(self).passed(),
                last,
                old(self).base as int,
                old(self).starts@,
            ),
        ensures
            final(self).sound(),
            final(self).options == old(self).options,
            final(self).begun == old(self).begun,
            final(self).source == old(self).source,
            ({
                let settings = old(self).options.settings();
                let source = old(self).passed();
                match result {
                    Ok(entries) => {
                        &&& final(self).indexed() == old(self).indexed() + entries@
                        &&& if last {
                            settings.records(source) == Listing::Complete(final(self).starts@)
                        } else {
                            &&& leads(
                                settings,
                                source,
                                false,
                                final(self).base as int,
                                final(self).starts@,
                            )
                            &&& !ready(settings, final(self).held@, 0)
                        }
                    },
                    Err(error) => {
                        &&& *final(self) == *old(self)
                        &&& forall|document: Seq<u8>| #[trigger]
                            continues(document, source, last) ==> not_indexed(
                                settings,
                                document,
                                error,
                            )
                    },
                }
            }),
    {
        let settings = ParserSettings::from_format(self.options.format, self.options.limits);
        let reading = ParserSettings { bom: ReadBom::Preserve, ..settings };
        let ghost source = self.passed();
        let ghost held = self.held@;
        let ghost base = self.base as int;
        let held_len: usize = self.held.len();
        let mut parser = match SliceParser::with_settings(self.held.as_slice(), reading) {
            Ok(parser) => parser,
            Err(error) => {
                return Err(error);
            },
        };
        let mut scratch = RecordStorage::new();
        let mut entries: Vec<u8> = Vec::new();
        let mut at: usize = 0;
        let mut origin: usize = 0;
        let mut newlines: u64 = self.newlines;
        let mut count: u64 = self.count;
        let ghost mut starts = self.starts@;
        proof {
            assert(settings == self.options.settings());
            assert(settings.rules() == reading.rules());
            assert(held.len() == held_len);
            assert(entries@ =~= Seq::<u8>::empty());
            assert(self.indexed() + entries@ =~= self.indexed());
        }
        loop
            invariant
                *self == *old(self),
                self.sound(),
                held == self.held@,
                held == source.skip(base),
                base == self.base,
                base + held.len() == source.len(),
                source.len() <= usize::MAX,
                self.newlines == occurrences(source.take(base), LF),
                held_len == held.len(),
                settings == self.options.settings(),
                source == self.passed(),
                reading == (ParserSettings { bom: ReadBom::Preserve, ..settings }),
                settings.rules() == reading.rules(),
                settings.dialect.valid(),
                parser.wf(),
                parser.document() == held,
                parser.spec_settings() == reading,
                parser.state().field_count == FieldCount::Flexible,
                parser.state().location == at,
                origin <= at <= held_len,
                newlines == occurrences(source.take(base + origin), LF),
                count == starts.len(),
                count <= MAX_ENTRIES,
                self.indexed() + entries@ == entries_of(source, starts),
                (self.indexed() + entries@).len() == 16 * count,
                forall|i: int| 0 <= i < starts.len() ==> 0 <= #[trigger] starts[i] < base + at,
                leads(settings, source, last, base + at, starts),
            ensures
                last ==> settings.record_start(held, at as int) >= held.len(),
                !last ==> !ready(settings, held, at as int),
            decreases held_len - at,
        {
            let ghost start_at = settings.record_start(held, at as int);
            let ghost scan = settings.rules().read_record(held, start_at, settings.nulls);
            proof {
                lemma_same_starts(settings, reading, held, at as int);
                lemma_record_start(settings, held, at as int);
                if start_at < held.len() {
                    lemma_record_takes_bytes(settings.rules(), held, start_at, settings.nulls);
                    lemma_failure_inside(settings.rules(), held, start_at, settings.nulls);
                }
            }
            let mut ahead = parser;
            let _ = ahead.skip_ignored();
            let start: usize = ahead.location().byte;
            assert(ahead.next_state().location == start_at) by {
                lemma_start_again(settings, held, at as int);
                lemma_same_starts(settings, reading, held, start_at);
            }
            match ahead.next_start(&mut scratch) {
                Err(error) => {
                    let byte: usize = error.location().byte;
                    if !last && !is_firm(settings, self.held.as_slice(), start, byte) {
                        break;
                    }
                    proof {
                        lemma_line_behind(source, base, byte as int);
                    }
                    let relocated = relocated(
                        self.held.as_slice(),
                        self.base,
                        self.newlines,
                        count,
                        error,
                    );
                    proof {
                        lemma_leads_nowhere(
                            settings,
                            source,
                            last,
                            base,
                            at as int,
                            starts,
                            relocated,
                        );
                    }
                    return Err(relocated);
                },
                Ok(None) => {
                    break;
                },
                Ok(Some(_)) => {
                    let next: usize = ahead.location().byte;
                    if !last && !is_firm(settings, self.held.as_slice(), start, next) {
                        break;
                    }
                    let ghost more = starts.push(base + start);
                    proof {
                        lemma_leads_on(settings, source, last, base, at as int, starts);
                        lemma_newlines(source, base, origin as int, start as int);
                        lemma_entries_grow(source, starts, base + start);
                    }
                    if count >= MAX_ENTRIES {
                        return Err(Error::detailed(ErrorKind::InvalidIndex, TOO_MANY_RECORDS));
                    }
                    newlines = newlines + count_newlines(self.held.as_slice(), origin, start);
                    let ghost before = entries@;
                    match record_entry(
                        &mut entries,
                        (self.base + start) as u64,
                        &mut newlines,
                        0,
                        count,
                    ) {
                        Ok(entered) => {
                            count = entered;
                        },
                        Err(error) => {
                            return Err(error);
                        },
                    }
                    proof {
                        lemma_auto_spec_u64_to_from_le_bytes();
                        starts = more;
                        assert(self.indexed() + entries@ =~= (self.indexed() + before) + (
                        spec_u64_to_le_bytes((base + start) as u64) + spec_u64_to_le_bytes(
                            line_number(source, base + start),
                        )));
                    }
                    at = next;
                    origin = start;
                    parser = ahead;
                },
            }
        }
        proof {
            if last {
                lemma_leads_to_the_end(settings, source, base, at as int, starts);
            }
            lemma_newlines(source, base, origin as int, at as int);
            lemma_ready_behind(settings, held, at as int);
            assert(entries@.take(entries@.len() as int) =~= entries@);
        }
        newlines = newlines + count_newlines(self.held.as_slice(), origin, at);
        let mut rest: Vec<u8> = Vec::new();
        rest.extend_from_slice(&self.held.as_slice()[at..held_len]);
        assert(rest@ =~= held.skip(at as int));
        assert(rest@ =~= source.skip(base + at));
        let _ = self.entries.absorb_written(entries.as_slice(), entries.len());
        self.held = rest;
        self.base = self.base + at;
        self.newlines = newlines;
        self.count = count;
        self.starts = Ghost(starts);
        Ok(entries)
    }

    /// More of the source has come.
    ///
    /// Answers the entries of the records that are whole now. Nothing of a piece
    /// is taken in that makes the source longer than can be counted.
    pub fn push(&mut self, bytes: &[u8]) -> (result: Result<Vec<u8>, Error>)
        requires
            old(self).wf(),
        ensures
            final(self).wf(),
            final(self).spec_options() == old(self).spec_options(),
            pushed(*old(self), *final(self), bytes@, result),
    {
        if bytes.len() > usize::MAX - self.base - self.held.len() {
            return Err(
                Error::io_at_start(IoError::new(IoErrorKind::InvalidData, SOURCE_LENGTH_OVERFLOW)),
            );
        }
        let ghost before = self.passed();
        let ghost settings = self.options.settings();
        let _ = self.source.absorb_read(bytes, bytes.len());
        self.held.extend_from_slice(bytes);
        proof {
            assert(bytes@.take(bytes@.len() as int) =~= bytes@);
            let source = before + bytes@;
            assert(self.held@ =~= source.skip(self.base as int));
            assert(source.take(self.base as int) =~= before.take(self.base as int));
            lemma_entries_stay(before, bytes@, self.starts@);
            if self.begun {
                assert(source[0] == before[0]);
                assert(source[1] == before[1]);
                assert(source[2] == before[2]);
                reveal(leads);
                assert forall|document: Seq<u8>| #[trigger]
                    continues(document, source, false) implies settings.records(document)
                    == settings.listing(document, self.base as int, self.starts@) by {
                    assert(document.take(before.len() as int) =~= source.take(before.len() as int));
                    assert(source.take(before.len() as int) =~= before);
                    assert(continues(document, before, false));
                }
            }
        }
        if !self.begun {
            if self.held.len() < 3 {
                assert(self.indexed() + Seq::<u8>::empty() =~= self.indexed());
                return Ok(Vec::new());
            }
            if let Err(error) = self.begin() {
                return Err(error);
            }
            self.begun = true;
        }
        match self.read_held(false) {
            Ok(entries) => Ok(entries),
            Err(error) => {
                assert forall|document: Seq<u8>| #[trigger]
                    begins(document, self.passed()) implies not_indexed(
                    settings,
                    document,
                    error,
                ) by {
                    assert(continues(document, self.passed(), false));
                }
                Err(error)
            },
        }
    }

    /// All of the source has come.
    pub fn finish(self) -> (result: Result<IndexEnd, Error>)
        requires
            self.wf(),
        ensures
            ended(self, result),
    {
        let ghost whole = self;
        let mut this = self;
        proof {
            if this.begun {
                lemma_leads_at_last(
                    this.options.settings(),
                    this.passed(),
                    this.base as int,
                    this.starts@,
                );
            }
            assert(continues(whole.passed(), whole.passed(), true));
        }
        if !this.begun {
            if let Err(error) = this.begin() {
                return Err(error);
            }
        }
        let entries = match this.read_held(true) {
            Ok(entries) => entries,
            Err(error) => {
                return Err(error);
            },
        };
        let header = encode_header(
            this.source.len(),
            this.source.hash(),
            this.options.format,
            this.options.limits,
            this.count,
        );
        let entries_checksum: u128 = this.entries.hash();
        let header_checksum: u128 = xxh3_128(header.as_slice());
        let mut trailer: Vec<u8> = Vec::new();
        trailer.extend_from_slice(u128_to_le_bytes(entries_checksum).as_slice());
        trailer.extend_from_slice(u128_to_le_bytes(header_checksum).as_slice());
        proof {
            let source = whole.passed();
            let starts = this.starts@;
            let table = table_of(source, whole.options, starts);
            assert(trailer@ =~= spec_u128_to_le_bytes(entries_checksum) + spec_u128_to_le_bytes(
                header_checksum,
            ));
            assert(table.entries() == this.indexed());
            assert(table.header() == header@);
            assert(table.indexes(source, whole.options, starts));
            assert(header@ + (whole.indexed() + entries@) + trailer@ =~= table.bytes());
        }
        Ok(IndexEnd { entries, header, trailer })
    }
}

/// The index of a source whose records start at `starts`.
pub open spec fn table_of(source: Seq<u8>, options: IndexOptions, starts: Seq<int>) -> Table {
    Table {
        source_len: source.len() as u64,
        source_hash: xxh3(source),
        format: options.format,
        limits: options.limits,
        offsets: starts.map_values(|start: int| start as u64),
        lines: starts.map_values(|start: int| line_number(source, start)),
    }
}

/// Whether a piece of the source was taken in, or why it was not.
///
/// What is held then starts with no record of which it is known what comes of it.
/// What is wrong with a piece is wrong whatever follows.
pub open spec fn pushed(
    before: Indexer,
    after: Indexer,
    bytes: Seq<u8>,
    result: Result<Vec<u8>, Error>,
) -> bool {
    let options = before.spec_options();
    let settings = options.settings();
    let source = before.passed() + bytes;
    if source.len() > usize::MAX {
        &&& result matches Err(error) && error.spec_kind() == ErrorKind::Io(
            IoErrorKind::InvalidData,
        ) && error.spec_location() == Location::start() && (error.spec_io() matches Some(io)
            && io.spec_message() == SOURCE_LENGTH_OVERFLOW@)
        &&& after == before
    } else {
        &&& after.passed() == source
        &&& after.held().len() <= source.len()
        &&& after.held() == source.skip(source.len() - after.held().len())
        &&& match result {
            Ok(entries) => {
                &&& readable(source, options)
                &&& after.indexed() == before.indexed() + entries@
                &&& source.len() >= 3 ==> !ready(settings, after.held(), 0)
            },
            Err(error) => {
                &&& after.indexed() == before.indexed()
                &&& if readable(source, options) {
                    forall|document: Seq<u8>| #[trigger]
                        begins(document, source) ==> not_indexed(settings, document, error)
                } else {
                    settings.refused_with(error)
                }
            },
        }
    }
}

/// Whether the entries that were handed out and what comes last are the index of
/// the source, or why there is none.
pub open spec fn ended(indexer: Indexer, result: Result<IndexEnd, Error>) -> bool {
    let options = indexer.spec_options();
    let settings = options.settings();
    let source = indexer.passed();
    if !readable(source, options) {
        result matches Err(error) && settings.refused_with(error)
    } else {
        match result {
            Ok(end) => {
                &&& settings.records(source) matches Listing::Complete(starts)
                &&& starts.len() <= MAX_ENTRIES
                &&& table_of(source, options, starts).indexes(source, options, starts)
                &&& end.header@ + (indexer.indexed() + end.entries@) + end.trailer@ == table_of(
                    source,
                    options,
                    starts,
                ).bytes()
            },
            Err(error) => not_indexed(settings, source, error),
        }
    }
}

proof fn lemma_newlines(source: Seq<u8>, base: int, from: int, to: int)
    requires
        0 <= base,
        0 <= from <= to,
        base + to <= source.len(),
    ensures
        occurrences(source.take(base + to), LF) == occurrences(source.take(base + from), LF)
            + occurrences(source.skip(base).subrange(from, to), LF),
        occurrences(source.take(base + to), LF) <= source.len(),
{
    let piece = source.skip(base).subrange(from, to);
    lemma_occurrences_concat(source.take(base + from), piece, LF);
    assert(source.take(base + from) + piece =~= source.take(base + to));
    lemma_occurrences_bounded(source.take(base + to), LF);
}

/// Where a record starts, it starts.
proof fn lemma_start_again(settings: ParserSettings, held: Seq<u8>, at: int)
    requires
        0 <= at <= held.len(),
    ensures
        settings.record_start(held, settings.record_start(held, at)) == settings.record_start(
            held,
            at,
        ),
    decreases held.len() - at,
{
    if at < held.len() {
        settings.dialect.lemma_line_end(held, at);
        lemma_start_again(settings, held, settings.line_end(held, at));
        if settings.ending_len(held, at) > 0 {
            lemma_start_again(settings, held, at + settings.ending_len(held, at));
        }
    }
}

proof fn lemma_ready_behind(settings: ParserSettings, held: Seq<u8>, at: int)
    requires
        0 <= at <= held.len(),
    ensures
        ready(settings, held.skip(at), 0) ==> ready(settings, held, at),
{
    let rest = held.skip(at);
    let start = settings.record_start(rest, 0);
    lemma_record_start(settings, rest, 0);
    lemma_start_in_suffix(settings, held, at, 0);
    law_a_record_of_a_suffix_reads_alike(settings.rules(), held, at, start, settings.nulls);
}

/// Whether an error says what is wrong with the records of a source, or that they
/// are more than an index can hold.
pub open spec fn not_indexed(
    settings: ParserSettings,
    source: Seq<u8>,
    error: Error,
) -> bool {
    let listing = settings.records(source);
    if listing.listed().len() > MAX_ENTRIES {
        error.says(ErrorKind::InvalidIndex, TOO_MANY_RECORDS@)
    } else {
        listing matches Listing::Broken { starts, kind, at, number } && reports(
            error,
            starts.len() as u64,
            source,
            kind,
            at,
            number,
        )
    }
}

/// The error about a source that a failure to read a part of it stands for.
fn relocated(held: &[u8], base: usize, newlines: u64, count: u64, error: Error) -> (relocated: Error)
    requires
        base + held@.len() <= usize::MAX,
        error.spec_location().byte <= held@.len(),
    ensures
        relocated.spec_kind() == error.spec_kind(),
        relocated.spec_location() == (Location {
            byte: (base + error.spec_location().byte) as usize,
            line: (newlines.saturating_add(
                occurrences(held@.take(error.spec_location().byte as int), LF) as u64,
            )).saturating_add(1),
            record: count,
            field: error.spec_location().field,
        }),
        relocated.is_plain(),
{
    let location = error.location();
    let here: u64 = count_newlines(held, 0, location.byte);
    assert(held@.subrange(0, location.byte as int) =~= held@.take(location.byte as int));
    Error::new(
        error.kind(),
        Location {
            byte: base + location.byte,
            line: newlines.saturating_add(here).saturating_add(1),
            record: count,
            field: location.field,
        },
    )
}

/// A source that comes in pieces is given the index that it is given when it is
/// there at once, byte for byte, or is refused for the same reason.
///
/// A source with more records than an index can hold is left out.
pub proof fn law_a_source_in_pieces_is_indexed_alike(
    indexer: Indexer,
    in_pieces: Result<IndexEnd, Error>,
    at_once: Result<CsvIndexReader, Error>,
)
    requires
        ended(indexer, in_pieces),
        created(indexer.passed(), indexer.spec_options(), at_once),
        indexer.spec_options().settings().records(indexer.passed()).listed().len() <= MAX_ENTRIES,
    ensures
        match (in_pieces, at_once) {
            (Ok(end), Ok(reader)) => reader.bytes() == end.header@ + (indexer.indexed()
                + end.entries@) + end.trailer@,
            (Err(a), Err(b)) => a.spec_kind() == b.spec_kind() && a.spec_location()
                == b.spec_location(),
            _ => false,
        },
{
    let source = indexer.passed();
    let options = indexer.spec_options();
    if let (Ok(end), Ok(reader)) = (in_pieces, at_once) {
        if let Listing::Complete(starts) = options.settings().records(source) {
            let table = choose|table: Table|
                #![trigger table.bytes()]
                table.indexes(source, options, starts) && reader.bytes() == table.bytes();
            lemma_one_index(table, table_of(source, options, starts), source, options, starts);
        }
    }
}

} // verus!
