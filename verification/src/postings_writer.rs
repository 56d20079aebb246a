//! The postings of one field while its segment is being written.

use crate::block_store::{
    blocks_needed, lemma_blocks_needed_at_most, BlockStore, TermChain, MAX_ROOM,
};
use crate::codec::{record_bytes, serialize_postings, SegmentError};
use crate::postings::strictly_increasing;
use crate::dictionary::{
    copy_range, fst_read, payload_at, terms_split, TermDictionaryBuilder, TermInfo,
};
use crate::schema::{FieldEntry, FieldType, TextIndexingOptions};
use crate::term::{
    from_field_text, lemma_lex_asymmetric, lemma_lex_transitive, lex_lt, term_rank, text_term, views,
    Rank,
};
use vstd::prelude::*;

verus! {

/// What is recorded for each pair of a term and a document.
#[derive(Clone, Copy, Debug, PartialEq, Eq, Structural)]
pub enum RecorderKind {
    /// That the pair occurred.
    Nothing,
    /// Also how often.
    TermFrequency,
    /// Also at which positions.
    TFAndPosition,
}

/// The postings of one term: its documents in ascending order of arrival,
/// the frequency of the term in each (where frequencies are recorded), and
/// the positions, document after document (where positions are recorded).
pub struct TermPostings {
    pub term: Seq<u8>,
    pub docs: Seq<u32>,
    pub tfs: Seq<u32>,
    pub positions: Seq<u32>,
}

/// The postings of a term that has not occurred.
pub open spec fn no_postings(term: Seq<u8>) -> TermPostings {
    TermPostings { term, docs: Seq::empty(), tfs: Seq::empty(), positions: Seq::empty() }
}

/// The occurrence opens a posting: the term has none for this document
/// yet.
pub open spec fn opens_posting(e: TermPostings, doc: u32) -> bool {
    e.docs.len() == 0 || e.docs.last() != doc
}

/// One more, as far as 32 bits go.
pub open spec fn succ(x: u32) -> u32 {
    if x < u32::MAX {
        (x + 1) as u32
    } else {
        x
    }
}

/// The postings after one more occurrence of the term, in document `doc`
/// at position `pos`.
pub open spec fn recorded(e: TermPostings, kind: RecorderKind, doc: u32, pos: u32) -> TermPostings {
    TermPostings {
        term: e.term,
        docs: if opens_posting(e, doc) {
            e.docs.push(doc)
        } else {
            e.docs
        },
        tfs: if kind == RecorderKind::Nothing {
            e.tfs
        } else if opens_posting(e, doc) || e.tfs.len() == 0 {
            e.tfs.push(1)
        } else {
            e.tfs.update(e.tfs.len() - 1, succ(e.tfs.last()))
        },
        positions: if kind == RecorderKind::TFAndPosition {
            e.positions.push(pos)
        } else {
            e.positions
        },
    }
}

/// The bytes that one occurrence takes in the term's chain: four for each
/// number that it adds.
pub open spec fn record_cost(kind: RecorderKind, opens: bool) -> int {
    (if opens {
        4int
    } else {
        0int
    }) + (if opens && kind != RecorderKind::Nothing {
        4int
    } else {
        0int
    }) + (if kind == RecorderKind::TFAndPosition {
        4int
    } else {
        0int
    })
}

/// The terms stand in strictly ascending lexicographic order.
pub open spec fn sorted(entries: Seq<TermPostings>) -> bool {
    forall|i: int, j: int| 0 <= i < j < entries.len() ==> lex_lt(entries[i].term, entries[j].term)
}

/// The documents of every term are strictly increasing and below `bound`.
pub open spec fn docs_bounded(entries: Seq<TermPostings>, bound: int) -> bool {
    forall|i: int|
        0 <= i < entries.len() ==> strictly_increasing((#[trigger] entries[i]).docs) && forall|
            k: int,
        |
            0 <= k < entries[i].docs.len() ==> entries[i].docs[k] < bound
}

/// One more occurrence in document `doc` keeps the documents of a term
/// strictly increasing and up to `doc`.
pub proof fn lemma_recorded_bounded(e: TermPostings, kind: RecorderKind, doc: u32, pos: u32)
    requires
        strictly_increasing(e.docs),
        forall|k: int| 0 <= k < e.docs.len() ==> e.docs[k] < doc + 1,
    ensures
        strictly_increasing(recorded(e, kind, doc, pos).docs),
        forall|k: int|
            0 <= k < recorded(e, kind, doc, pos).docs.len() ==> recorded(e, kind, doc, pos).docs[k]
                < doc + 1,
{
    if opens_posting(e, doc) && e.docs.len() > 0 {
        let last = e.docs.len() - 1;
        assert forall|k: int| 0 <= k < e.docs.len() implies e.docs[k] < doc by {
            if k < last {
                assert(e.docs[k] < e.docs[last]);
            }
        }
    }
}

/// Every term has at least one document.
pub open spec fn has_docs(entries: Seq<TermPostings>) -> bool {
    forall|i: int| 0 <= i < entries.len() ==> (#[trigger] entries[i]).docs.len() > 0
}

/// Every term begins with the byte `field`.
pub open spec fn field_terms(entries: Seq<TermPostings>, field: u8) -> bool {
    forall|i: int|
        0 <= i < entries.len() ==> (#[trigger] entries[i]).term.len() > 0 && entries[i].term[0]
            == field
}

/// `info` names the record of `docs` in the postings file `postings`.
#[verifier::opaque]
pub open spec fn points_to(info: TermInfo, postings: Seq<u8>, docs: Seq<u32>) -> bool {
    &&& info.doc_freq == docs.len()
    &&& info.postings_offset + record_bytes(docs).len() <= postings.len()
    &&& postings.subrange(
        info.postings_offset as int,
        info.postings_offset + record_bytes(docs).len(),
    ) == record_bytes(docs)
}

/// The dictionary file `terms` holds `term`, and what it holds for it names
/// the record of `docs` in the postings file `postings`.
pub open spec fn serves(terms: Seq<u8>, postings: Seq<u8>, term: Seq<u8>, docs: Seq<u32>) -> bool {
    &&& terms_split(terms).is_some()
    &&& fst_read(terms.subrange(8, 8 + terms_split(terms).unwrap())).is_some()
    &&& {
        let index = fst_read(terms.subrange(8, 8 + terms_split(terms).unwrap())).unwrap();
        let payloads = terms.subrange(8 + terms_split(terms).unwrap(), terms.len() as int);
        &&& index.contains_key(term)
        &&& index[term] < payloads.len() / 12
        &&& points_to(payload_at(payloads, index[term] as int), postings, docs)
    }
}

/// The records of the entries, one after the other.
pub open spec fn records_of(entries: Seq<TermPostings>) -> Seq<u8>
    decreases entries.len(),
{
    if entries.len() == 0 {
        Seq::empty()
    } else {
        records_of(entries.drop_last()) + record_bytes(entries.last().docs)
    }
}

/// The records of the first `i + 1` entries are those of the first `i`
/// and the record of entry `i`.
pub proof fn lemma_records_step(entries: Seq<TermPostings>, i: int)
    requires
        0 <= i < entries.len(),
    ensures
        records_of(entries.take(i + 1)) == records_of(entries.take(i)) + record_bytes(
            entries[i].docs,
        ),
{
    assert(entries.take(i + 1).drop_last() =~= entries.take(i));
}

/// Everything fits: no list has more documents than a record can count,
/// and the payload table has room for every term behind the `count` that
/// it holds.
pub open spec fn fits(entries: Seq<TermPostings>, count: nat) -> bool {
    &&& forall|i: int| 0 <= i < entries.len() ==> (#[trigger] entries[i]).docs.len() < u32::MAX
    &&& count + entries.len() <= u64::MAX
    &&& 12 * (count + entries.len()) <= usize::MAX
}

/// The dictionary file `terms` holds `term`.
pub open spec fn lists(terms: Seq<u8>, term: Seq<u8>) -> bool {
    &&& terms_split(terms).is_some()
    &&& fst_read(terms.subrange(8, 8 + terms_split(terms).unwrap())).is_some()
    &&& fst_read(terms.subrange(8, 8 + terms_split(terms).unwrap())).unwrap().contains_key(term)
}

/// A record stays where it is when the file grows behind it.
pub proof fn lemma_points_to_extends(
    info: TermInfo,
    postings: Seq<u8>,
    longer: Seq<u8>,
    docs: Seq<u32>,
)
    requires
        points_to(info, postings, docs),
        postings.len() <= longer.len(),
        longer.subrange(0, postings.len() as int) == postings,
    ensures
        points_to(info, longer, docs),
{
    reveal(points_to);
    let from = info.postings_offset as int;
    let to = from + record_bytes(docs).len();
    assert forall|k: int| 0 <= k < to - from implies longer.subrange(from, to)[k] == postings.subrange(
        from,
        to,
    )[k] by {
        assert(longer.subrange(0, postings.len() as int)[from + k] == longer[from + k]);
    }
    assert(longer.subrange(from, to) =~= postings.subrange(from, to));
}

/// A record that is put at the end of the file is named by its length and
/// by the length that the file had.
pub proof fn lemma_points_to_appended(file: Seq<u8>, docs: Seq<u32>)
    requires
        docs.len() <= u32::MAX,
        file.len() <= u64::MAX,
    ensures
        points_to(
            TermInfo { doc_freq: docs.len() as u32, postings_offset: file.len() as u64 },
            file + record_bytes(docs),
            docs,
        ),
{
    reveal(points_to);
    let longer = file + record_bytes(docs);
    assert(longer.subrange(file.len() as int, (file.len() + record_bytes(docs).len()) as int)
        =~= record_bytes(docs));
}

/// `i` is a place of `term` in `entries`.
pub open spec fn holds_at(entries: Seq<TermPostings>, term: Seq<u8>, i: int) -> bool {
    0 <= i < entries.len() && entries[i].term == term
}

/// The entries as a map from each term to its postings.
pub open spec fn to_map(entries: Seq<TermPostings>) -> Map<Seq<u8>, TermPostings> {
    Map::new(
        |t: Seq<u8>| exists|i: int| holds_at(entries, t, i),
        |t: Seq<u8>| entries[choose|i: int| holds_at(entries, t, i)],
    )
}

/// The postings after one more occurrence of `term`.
pub open spec fn subscribed(
    m: Map<Seq<u8>, TermPostings>,
    kind: RecorderKind,
    term: Seq<u8>,
    doc: u32,
    pos: u32,
) -> Map<Seq<u8>, TermPostings> {
    m.insert(
        term,
        recorded(
            if m.contains_key(term) {
                m[term]
            } else {
                no_postings(term)
            },
            kind,
            doc,
            pos,
        ),
    )
}

/// The position `k` places after `start`, as far as 32 bits go.
pub open spec fn position_at(start: u32, k: int) -> u32 {
    if start + k <= u32::MAX {
        (start + k) as u32
    } else {
        u32::MAX
    }
}

/// The postings after the tokens `tokens` of field `field` have occurred
/// one after the other in document `doc`, the first at position `start`.
pub open spec fn subscribed_all(
    m: Map<Seq<u8>, TermPostings>,
    kind: RecorderKind,
    field: u8,
    doc: u32,
    start: u32,
    tokens: Seq<Seq<u8>>,
) -> Map<Seq<u8>, TermPostings>
    decreases tokens.len(),
{
    if tokens.len() == 0 {
        m
    } else {
        subscribed(
            subscribed_all(m, kind, field, doc, start, tokens.drop_last()),
            kind,
            text_term(field, tokens.last()),
            doc,
            position_at(start, tokens.len() - 1),
        )
    }
}

/// A byte that belongs to a token: a letter or digit of ASCII, or a byte
/// of a character beyond ASCII.
pub open spec fn is_token_byte(b: u8) -> bool {
    (0x30 <= b <= 0x39) || (0x41 <= b <= 0x5a) || (0x61 <= b <= 0x7a) || b >= 0x80
}

/// The tokens that have ended in `text`, and the one that is still open at
/// its end.
pub open spec fn scanned(text: Seq<u8>) -> (Seq<Seq<u8>>, Seq<u8>)
    decreases text.len(),
{
    if text.len() == 0 {
        (Seq::empty(), Seq::empty())
    } else {
        let (done, open) = scanned(text.drop_last());
        if is_token_byte(text.last()) {
            (done, open.push(text.last()))
        } else if open.len() > 0 {
            (done.push(open), Seq::empty())
        } else {
            (done, open)
        }
    }
}

/// The tokens of a text: its longest runs of token bytes, in order.
pub open spec fn tokens_of(text: Seq<u8>) -> Seq<Seq<u8>> {
    let (done, open) = scanned(text);
    if open.len() > 0 {
        done.push(open)
    } else {
        done
    }
}

/// Splits a text into its tokens.
pub fn tokenize(text: &Vec<u8>) -> (tokens: Vec<Vec<u8>>)
    ensures
        views(tokens@) == tokens_of(text@),
{
    let mut done: Vec<Vec<u8>> = Vec::new();
    let mut open: Vec<u8> = Vec::new();
    let mut i: usize = 0;
    assert(views(done@) =~= Seq::<Seq<u8>>::empty());
    while i < text.len()
        invariant
            i <= text.len(),
            (views(done@), open@) == scanned(text@.take(i as int)),
        decreases text.len() - i,
    {
        let b = text[i];
        let ghost before = views(done@);
        assert(text@.take(i + 1).drop_last() =~= text@.take(i as int));
        if (0x30 <= b && b <= 0x39) || (0x41 <= b && b <= 0x5a) || (0x61 <= b && b <= 0x7a) || b
            >= 0x80 {
            open.push(b);
            assert(views(done@) == before);
        } else if open.len() > 0 {
            let ghost token = open@;
            done.push(open);
            open = Vec::new();
            assert(views(done@) =~= before.push(token));
        } else {
            assert(views(done@) == before);
        }
        i += 1;
    }
    assert(text@.take(i as int) =~= text@);
    if open.len() > 0 {
        let ghost before = views(done@);
        let ghost token = open@;
        done.push(open);
        assert(views(done@) =~= before.push(token));
    }
    done
}

/// The postings of one term as the writer holds them.
pub struct TermEntry {
    term: Vec<u8>,
    docs: Vec<u32>,
    tfs: Vec<u32>,
    positions: Vec<u32>,
    chain: TermChain,
}

impl TermEntry {
    /// What the entry holds.
    pub closed spec fn model(&self) -> TermPostings {
        TermPostings {
            term: self.term@,
            docs: self.docs@,
            tfs: self.tfs@,
            positions: self.positions@,
        }
    }

    /// The free bytes of the chain's tail stay within their limit.
    pub closed spec fn chain_ok(&self) -> bool {
        self.chain.room() <= MAX_ROOM
    }

    /// The term.
    pub fn term(&self) -> (r: &Vec<u8>)
        ensures
            r@ == self.model().term,
    {
        &self.term
    }

    /// The documents of the term.
    pub fn docs(&self) -> (r: &Vec<u32>)
        ensures
            r@ == self.model().docs,
    {
        &self.docs
    }

    /// The frequencies of the term, one for each document where they are
    /// recorded.
    pub fn tfs(&self) -> (r: &Vec<u32>)
        ensures
            r@ == self.model().tfs,
    {
        &self.tfs
    }

    /// The positions of the term, document after document.
    pub fn positions(&self) -> (r: &Vec<u32>)
        ensures
            r@ == self.model().positions,
    {
        &self.positions
    }

    fn record(&mut self, kind: RecorderKind, doc: u32, pos: u32)
        ensures
            final(self).model() == recorded(old(self).model(), kind, doc, pos),
            final(self).chain == old(self).chain,
    {
        let n = self.docs.len();
        let opens = n == 0 || self.docs[n - 1] != doc;
        if opens {
            self.docs.push(doc);
        }
        match kind {
            RecorderKind::Nothing => {},
            _ => {
                let k = self.tfs.len();
                if opens || k == 0 {
                    self.tfs.push(1);
                } else {
                    let tf = self.tfs[k - 1];
                    let next: u32 = if tf < u32::MAX {
                        tf + 1
                    } else {
                        tf
                    };
                    self.tfs.set(k - 1, next);
                }
            },
        }
        match kind {
            RecorderKind::TFAndPosition => {
                self.positions.push(pos);
            },
            _ => {},
        }
        assert(final(self).model().tfs =~= recorded(old(self).model(), kind, doc, pos).tfs);
    }
}

/// The cost in bytes of one occurrence.
fn cost_of(kind: RecorderKind, opens: bool) -> (n: u32)
    ensures
        n == record_cost(kind, opens),
        n <= 12,
{
    let mut n: u32 = 0;
    if opens {
        n += 4;
        match kind {
            RecorderKind::Nothing => {},
            _ => {
                n += 4;
            },
        }
    }
    match kind {
        RecorderKind::TFAndPosition => {
            n += 4;
        },
        _ => {},
    }
    n
}

/// The accumulator of one field: its terms in ascending order, each with
/// its postings.
pub struct PostingsWriter {
    kind: RecorderKind,
    entries: Vec<TermEntry>,
}

/// The recorder that a field's indexing options call for.
pub open spec fn recorder_for(entry: FieldEntry) -> RecorderKind {
    match entry.field_type {
        FieldType::Str(TextIndexingOptions::TokenizedWithFreq) => RecorderKind::TermFrequency,
        FieldType::Str(TextIndexingOptions::TokenizedWithFreqAndPosition) => {
            RecorderKind::TFAndPosition
        },
        _ => RecorderKind::Nothing,
    }
}

/// The postings writer of a field, with the recorder that its options call
/// for.
pub fn posting_from_field_entry(field_entry: &FieldEntry) -> (w: PostingsWriter)
    ensures
        w.wf(),
        w.kind() == recorder_for(*field_entry),
        w.entries().len() == 0,
        w@ == Map::<Seq<u8>, TermPostings>::empty(),
{
    let w = match field_entry.field_type {
        FieldType::Str(text_options) => {
            match text_options {
                TextIndexingOptions::TokenizedWithFreq => {
                    PostingsWriter::new(RecorderKind::TermFrequency)
                },
                TextIndexingOptions::TokenizedWithFreqAndPosition => {
                    PostingsWriter::new(RecorderKind::TFAndPosition)
                },
                _ => PostingsWriter::new(RecorderKind::Nothing),
            }
        },
        FieldType::U32 { indexed: _ } => PostingsWriter::new(RecorderKind::Nothing),
    };
    w
}

/// In a sorted list a term stands at one place at most.
pub proof fn lemma_sorted_unique(entries: Seq<TermPostings>, i: int, j: int)
    requires
        sorted(entries),
        0 <= i < entries.len(),
        0 <= j < entries.len(),
        entries[i].term == entries[j].term,
    ensures
        i == j,
{
    if i < j {
        lemma_lex_asymmetric(entries[i].term, entries[j].term);
    } else if j < i {
        lemma_lex_asymmetric(entries[j].term, entries[i].term);
    }
}

/// The map of a sorted list holds each entry under its term.
pub proof fn lemma_to_map_at(entries: Seq<TermPostings>, i: int)
    requires
        sorted(entries),
        0 <= i < entries.len(),
    ensures
        to_map(entries).contains_key(entries[i].term),
        to_map(entries)[entries[i].term] == entries[i],
{
    let t = entries[i].term;
    assert(holds_at(entries, t, i));
    let c = choose|c: int| holds_at(entries, t, c);
    lemma_sorted_unique(entries, i, c);
}

impl PostingsWriter {
    /// The recorder.
    pub closed spec fn kind(&self) -> RecorderKind {
        self.kind
    }

    /// The entries, term after term.
    pub closed spec fn entries(&self) -> Seq<TermPostings> {
        Seq::new(self.entries@.len(), |i: int| self.entries@[i].model())
    }

    /// The free bytes in the tail of the chain of `term`: none where the
    /// term has no chain yet.
    pub closed spec fn room_of(&self, term: Seq<u8>) -> nat {
        if exists|i: int| holds_at(self.entries(), term, i) {
            self.entries@[choose|i: int| holds_at(self.entries(), term, i)].chain.room()
        } else {
            0
        }
    }

    /// The blocks that one more occurrence of `term` in document `doc`
    /// takes from an arena of blocks of `size` bytes.
    pub open spec fn blocks_for(&self, term: Seq<u8>, doc: u32, size: int) -> int {
        blocks_needed(
            self.room_of(term) as int,
            record_cost(
                self.kind(),
                opens_posting(
                    if self@.contains_key(term) {
                        self@[term]
                    } else {
                        no_postings(term)
                    },
                    doc,
                ),
            ),
            size,
        )
    }

    /// The chains of all entries are in order.
    pub closed spec fn chains_ok(&self) -> bool {
        forall|i: int| 0 <= i < self.entries@.len() ==> (#[trigger] self.entries@[i]).chain_ok()
    }

    /// The terms stand in strictly ascending order, and each has at least
    /// one document.
    pub open spec fn wf(&self) -> bool {
        sorted(self.entries()) && has_docs(self.entries()) && self.chains_ok()
    }

    /// The postings of each term that has occurred.
    pub open spec fn view(&self) -> Map<Seq<u8>, TermPostings> {
        to_map(self.entries())
    }

    /// A writer without any term.
    pub fn new(kind: RecorderKind) -> (w: PostingsWriter)
        ensures
            w.wf(),
            w.kind() == kind,
            w.entries().len() == 0,
            w@ == Map::<Seq<u8>, TermPostings>::empty(),
    {
        let w = PostingsWriter { kind, entries: Vec::new() };
        assert(w@ =~= Map::<Seq<u8>, TermPostings>::empty());
        w
    }

    /// The recorder.
    pub fn recorder(&self) -> (k: RecorderKind)
        ensures
            k == self.kind(),
    {
        self.kind
    }

    /// The number of terms.
    pub fn num_terms(&self) -> (n: usize)
        ensures
            n == self.entries().len(),
    {
        self.entries.len()
    }

    /// The entry at place `i` in the order of the terms.
    pub fn entry(&self, i: usize) -> (e: &TermEntry)
        requires
            i < self.entries().len(),
        ensures
            e.model() == self.entries()[i as int],
    {
        &self.entries[i]
    }

    /// Records one occurrence of `term` in document `doc_id` at position
    /// `position`. Where the arena runs out of blocks, nothing is recorded.
    pub fn subscribe(
        &mut self,
        block_store: &mut BlockStore,
        doc_id: u32,
        position: u32,
        term: &Vec<u8>,
    ) -> (r: Result<(), SegmentError>)
        requires
            old(self).wf(),
            old(block_store).wf(),
        ensures
            final(self).wf(),
            final(self).kind() == old(self).kind(),
            final(block_store).wf(),
            final(block_store).block_size() == old(block_store).block_size(),
            final(block_store).free().len() <= old(block_store).free().len(),
            forall|field: u8|
                field_terms(old(self).entries(), field) && term@.len() > 0 && term@[0] == field
                    ==> field_terms(final(self).entries(), field),
            docs_bounded(old(self).entries(), doc_id + 1) ==> docs_bounded(
                final(self).entries(),
                doc_id + 1,
            ),
            old(block_store).free().len() >= 12 ==> r.is_ok(),
            final(block_store).free().len() + 12 >= old(block_store).free().len(),
            r.is_ok() <==> old(self).blocks_for(
                term@,
                doc_id,
                old(block_store).block_size() as int,
            ) <= old(block_store).free().len(),
            match r {
                Ok(_) => final(self)@ == subscribed(
                    old(self)@,
                    old(self).kind(),
                    term@,
                    doc_id,
                    position,
                ),
                Err(e) => {
                    &&& e == SegmentError::OutOfBlocks
                    &&& final(self)@ == old(self)@
                    &&& final(block_store).free().len() == 0
                },
            },
    {
        let ghost before = self.entries();
        let kind = self.kind;
        let mut i: usize = 0;
        let mut found = false;
        let mut stop = false;
        while i < self.entries.len() && !stop
            invariant
                i <= self.entries@.len(),
                found ==> stop,
                self.entries() == before,
                *self == *old(self),
                forall|j: int| 0 <= j < i ==> lex_lt(before[j].term, term@),
                found ==> i < before.len() && before[i as int].term == term@,
                stop && !found ==> i < before.len() && lex_lt(term@, before[i as int].term),
            decreases self.entries@.len() - i + (if stop { 0int } else { 1int }),
        {
            match term_rank(&self.entries[i].term, term) {
                Rank::Before => {
                    i += 1;
                },
                Rank::Same => {
                    found = true;
                    stop = true;
                },
                Rank::After => {
                    stop = true;
                },
            }
        }
        if found {
            let n = self.entries[i].docs.len();
            let opens = n == 0 || self.entries[i].docs[n - 1] != doc_id;
            let cost = cost_of(kind, opens);
            proof {
                lemma_blocks_needed_at_most(
                    self.entries@[i as int].chain.room() as int,
                    cost as int,
                    block_store.block_size() as int,
                );
                lemma_to_map_at(before, i as int);
                assert(holds_at(before, term@, i as int));
                let c = choose|c: int| holds_at(before, term@, c);
                lemma_sorted_unique(before, i as int, c);
                assert(old(self).room_of(term@) == self.entries@[i as int].chain.room());
            }
            match block_store.write_bytes(&mut self.entries[i].chain, cost) {
                Ok(_) => {},
                Err(e) => {
                    assert(self.entries() =~= before);
                    return Err(e);
                },
            }
            self.entries[i].record(kind, doc_id, position);
            proof {
                let after = self.entries();
                let e = recorded(before[i as int], kind, doc_id, position);
                assert(after =~= before.update(i as int, e));
                assert(has_docs(after)) by {
                    assert forall|a: int| 0 <= a < after.len() implies (#[trigger] after[a]).docs.len()
                        > 0 by {
                        if a != i {
                            assert(after[a] == before[a]);
                        }
                    }
                }
                if docs_bounded(before, doc_id + 1) {
                    lemma_recorded_bounded(before[i as int], kind, doc_id, position);
                    assert forall|a: int| 0 <= a < after.len() implies strictly_increasing(
                        (#[trigger] after[a]).docs,
                    ) && forall|k: int| 0 <= k < after[a].docs.len() ==> after[a].docs[k] < doc_id + 1 by {
                        if a != i {
                            assert(after[a] == before[a]);
                        }
                    }
                }
                assert forall|field: u8|
                    field_terms(before, field) && term@.len() > 0 && term@[0]
                        == field implies field_terms(after, field) by {
                    assert forall|a: int| 0 <= a < after.len() implies (#[trigger] after[a]).term.len()
                        > 0 && after[a].term[0] == field by {
                        assert(before[a].term == after[a].term);
                    }
                }
                lemma_to_map_at(before, i as int);
                assert(sorted(after)) by {
                    assert forall|a: int, b: int| 0 <= a < b < after.len() implies lex_lt(
                        after[a].term,
                        after[b].term,
                    ) by {
                        assert(lex_lt(before[a].term, before[b].term));
                    }
                }
                lemma_to_map_at(after, i as int);
                let target = subscribed(to_map(before), kind, term@, doc_id, position);
                assert forall|t: Seq<u8>| #[trigger]
                    to_map(after).contains_key(t) == target.contains_key(t) && (
                    target.contains_key(t) ==> to_map(after)[t] == target[t]) by {
                    if t != term@ {
                        if to_map(after).contains_key(t) {
                            let c = choose|c: int| holds_at(after, t, c);
                            assert(holds_at(before, t, c));
                            lemma_to_map_at(before, c);
                            lemma_to_map_at(after, c);
                        }
                        if to_map(before).contains_key(t) {
                            let c = choose|c: int| holds_at(before, t, c);
                            assert(holds_at(after, t, c));
                        }
                    } else {
                        assert(holds_at(after, t, i as int));
                        assert(after[i as int] == e);
                    }
                }
                assert(to_map(after) =~= target);
            }
            Ok(())
        } else {
            let mut fresh = TermEntry {
                term: copy_range(term.as_slice(), 0, term.len()),
                docs: Vec::new(),
                tfs: Vec::new(),
                positions: Vec::new(),
                chain: TermChain::new(),
            };
            assert(fresh.term@ =~= term@);
            assert(fresh.model() == no_postings(term@));
            let cost = cost_of(kind, true);
            proof {
                lemma_blocks_needed_at_most(0, cost as int, block_store.block_size() as int);
                assert(!to_map(before).contains_key(term@)) by {
                    if to_map(before).contains_key(term@) {
                        let c = choose|c: int| holds_at(before, term@, c);
                        if c < i {
                            lemma_lex_asymmetric(before[c].term, term@);
                        } else {
                            if c > i {
                                assert(lex_lt(before[i as int].term, before[c].term));
                                lemma_lex_transitive(term@, before[i as int].term, before[c].term);
                            }
                            lemma_lex_asymmetric(term@, before[c].term);
                        }
                    }
                }
                assert(old(self).room_of(term@) == 0);
            }
            match block_store.write_bytes(&mut fresh.chain, cost) {
                Ok(_) => {},
                Err(e) => {
                    return Err(e);
                },
            }
            fresh.record(kind, doc_id, position);
            let ghost e = fresh.model();
            self.entries.insert(i, fresh);
            proof {
                let after = self.entries();
                assert(after =~= before.insert(i as int, e));
                assert(has_docs(after)) by {
                    assert forall|a: int| 0 <= a < after.len() implies (#[trigger] after[a]).docs.len()
                        > 0 by {
                        if a < i {
                            assert(after[a] == before[a]);
                        } else if a > i {
                            assert(after[a] == before[a - 1]);
                        }
                    }
                }
                if docs_bounded(before, doc_id + 1) {
                    lemma_recorded_bounded(no_postings(term@), kind, doc_id, position);
                    assert forall|a: int| 0 <= a < after.len() implies strictly_increasing(
                        (#[trigger] after[a]).docs,
                    ) && forall|k: int| 0 <= k < after[a].docs.len() ==> after[a].docs[k] < doc_id + 1 by {
                        if a < i {
                            assert(after[a] == before[a]);
                        } else if a > i {
                            assert(after[a] == before[a - 1]);
                        }
                    }
                }
                assert forall|field: u8|
                    field_terms(before, field) && term@.len() > 0 && term@[0]
                        == field implies field_terms(after, field) by {
                    assert forall|a: int| 0 <= a < after.len() implies (#[trigger] after[a]).term.len()
                        > 0 && after[a].term[0] == field by {
                        if a < i {
                            assert(before[a].term == after[a].term);
                        } else if a > i {
                            assert(before[a - 1].term == after[a].term);
                        }
                    }
                }
                assert(sorted(after)) by {
                    assert forall|a: int, b: int| 0 <= a < b < after.len() implies lex_lt(
                        after[a].term,
                        after[b].term,
                    ) by {
                        if b < i {
                            assert(lex_lt(before[a].term, before[b].term));
                        } else if b == i {
                            assert(lex_lt(before[a].term, term@));
                        } else if a == i {
                            if b - 1 > i {
                                assert(lex_lt(before[i as int].term, before[b - 1].term));
                                lemma_lex_transitive(term@, before[i as int].term, before[b - 1].term);
                            }
                        } else if a < i {
                            assert(lex_lt(before[a].term, before[b - 1].term));
                        } else {
                            assert(lex_lt(before[a - 1].term, before[b - 1].term));
                        }
                    }
                }
                lemma_to_map_at(after, i as int);
                let target = subscribed(to_map(before), kind, term@, doc_id, position);
                assert forall|t: Seq<u8>| #[trigger]
                    to_map(after).contains_key(t) == target.contains_key(t) && (
                    target.contains_key(t) ==> to_map(after)[t] == target[t]) by {
                    if t != term@ {
                        if to_map(after).contains_key(t) {
                            let c = choose|c: int| holds_at(after, t, c);
                            let d = if c < i { c } else { c - 1 };
                            assert(holds_at(before, t, d));
                            lemma_to_map_at(before, d);
                            lemma_to_map_at(after, c);
                        }
                        if to_map(before).contains_key(t) {
                            let c = choose|c: int| holds_at(before, t, c);
                            let d = if c < i { c } else { c + 1 };
                            assert(holds_at(after, t, d));
                        }
                    } else {
                        assert(holds_at(after, t, i as int));
                        assert(after[i as int] == e);
                    }
                }
                assert(to_map(after) =~= target);
                assert(self.chains_ok()) by {
                    assert forall|a: int| 0 <= a < self.entries@.len() implies (
                    #[trigger] self.entries@[a]).chain_ok() by {
                        if a < i {
                            assert(self.entries@[a] == old(self).entries@[a]);
                        } else if a > i {
                            assert(self.entries@[a] == old(self).entries@[a - 1]);
                        }
                    }
                }
            }
            Ok(())
        }
    }

    /// Records the tokens of one text value of field `field` in document
    /// `doc_id`, the first at position `start`, and returns their number.
    pub fn index_text(
        &mut self,
        block_store: &mut BlockStore,
        doc_id: u32,
        field: u8,
        start: u32,
        text: &Vec<u8>,
    ) -> (r: Result<usize, SegmentError>)
        requires
            old(self).wf(),
            old(block_store).wf(),
        ensures
            final(self).wf(),
            final(self).kind() == old(self).kind(),
            final(block_store).wf(),
            final(block_store).block_size() == old(block_store).block_size(),
            field_terms(old(self).entries(), field) ==> field_terms(final(self).entries(), field),
            docs_bounded(old(self).entries(), doc_id + 1) ==> docs_bounded(
                final(self).entries(),
                doc_id + 1,
            ),
            old(block_store).free().len() >= 12 * tokens_of(text@).len() ==> r.is_ok(),
            final(block_store).free().len() + 12 * tokens_of(text@).len() >= old(
                block_store,
            ).free().len(),
            match r {
                Ok(n) => n == tokens_of(text@).len() && final(self)@ == subscribed_all(
                    old(self)@,
                    old(self).kind(),
                    field,
                    doc_id,
                    start,
                    tokens_of(text@),
                ),
                Err(e) => e == SegmentError::OutOfBlocks && final(block_store).free().len() == 0,
            },
    {
        let tokens = tokenize(text);
        let ghost all = views(tokens@);
        let mut k: usize = 0;
        while k < tokens.len()
            invariant
                k <= tokens.len(),
                all == views(tokens@),
                self.wf(),
                self.kind() == old(self).kind(),
                block_store.wf(),
                block_store.block_size() == old(block_store).block_size(),
                field_terms(old(self).entries(), field) ==> field_terms(self.entries(), field),
                docs_bounded(old(self).entries(), doc_id + 1) ==> docs_bounded(
                    self.entries(),
                    doc_id + 1,
                ),
                all == tokens_of(text@),
                block_store.free().len() + 12 * k >= old(block_store).free().len(),
                self@ == subscribed_all(
                    old(self)@,
                    old(self).kind(),
                    field,
                    doc_id,
                    start,
                    all.take(k as int),
                ),
            decreases tokens.len() - k,
        {
            let term = from_field_text(field, &tokens[k]);
            let position: u32 = if k <= (u32::MAX - start) as usize {
                start + k as u32
            } else {
                u32::MAX
            };
            proof {
                assert(all.take(k + 1).drop_last() =~= all.take(k as int));
                assert(all.take(k + 1).last() == tokens[k as int]@);
            }
            match self.subscribe(block_store, doc_id, position, &term) {
                Ok(_) => {},
                Err(e) => {
                    return Err(e);
                },
            }
            k += 1;
        }
        assert(all.take(k as int) =~= all);
        Ok(tokens.len())
    }
    /// Writes the postings of every term, in the order of the terms: the
    /// record of its documents goes to the end of `postings`, and the term
    /// goes to the dictionary with the record's place. It succeeds exactly
    /// where the lists and the payload table fit and the dictionary accepts
    /// the first term.
    #[verifier::rlimit(100)]
    #[verifier::spinoff_prover]
    pub fn serialize(&self, dict: &mut TermDictionaryBuilder, postings: &mut Vec<u8>) -> (r: Result<
        (),
        SegmentError,
    >)
        requires
            self.wf(),
            old(dict).wf(),
        ensures
            final(dict).wf(),
            old(postings)@.len() <= final(postings)@.len(),
            final(postings)@.subrange(0, old(postings)@.len() as int) == old(postings)@,
            r.is_ok() <==> fits(self.entries(), old(dict).count()) && (self.entries().len() == 0
                || old(dict).accepts(self.entries()[0].term)),
            match r {
                Ok(_) => {
                    &&& final(dict).count() == old(dict).count() + self.entries().len()
                    &&& final(postings)@ == old(postings)@ + records_of(self.entries())
                    &&& forall|i: int|
                        0 <= i < self.entries().len() ==> final(dict).lookup(
                            (#[trigger] self.entries()[i]).term,
                        ).is_some() && final(dict).lookup(
                            self.entries()[i].term,
                        ).unwrap().postings_offset == old(postings)@.len() + records_of(
                            self.entries().take(i),
                        ).len()
                    &&& forall|t: Seq<u8>| #[trigger]
                        self@.contains_key(t) ==> final(dict).lookup(t).is_some() && points_to(
                            final(dict).lookup(t).unwrap(),
                            final(postings)@,
                            self@[t].docs,
                        )
                    &&& forall|t: Seq<u8>|
                        !self@.contains_key(t) ==> #[trigger] final(dict).lookup(t) == old(
                            dict,
                        ).lookup(t)
                    &&& final(dict).last_key() == (if self.entries().len() > 0 {
                        Some(self.entries().last().term)
                    } else {
                        old(dict).last_key()
                    })
                },
                Err(e) => (e == SegmentError::IoError && !fits(self.entries(), old(dict).count()))
                    || (e == SegmentError::DictionaryOrderViolation && self.entries().len() > 0
                    && !old(dict).accepts(self.entries()[0].term)),
            },
    {
        let ghost ents = self.entries();
        let ghost start = postings@;
        let mut i: usize = 0;
        while i < self.entries.len()
            invariant
                i <= ents.len(),
                ents == self.entries(),
                ents.len() == self.entries@.len(),
                sorted(ents),
                start == old(postings)@,
                dict.wf(),
                dict.count() == old(dict).count() + i,
                postings@ == start + records_of(ents.take(i as int)),
                forall|k: int|
                    0 <= k < i ==> dict.lookup((#[trigger] ents[k]).term).is_some() && dict.lookup(
                        ents[k].term,
                    ).unwrap().postings_offset == start.len() + records_of(ents.take(k)).len(),
                i > 0 ==> old(dict).accepts(ents[0].term),
                forall|k: int| 0 <= k < i ==> (#[trigger] ents[k]).docs.len() < u32::MAX,
                start.len() <= postings@.len(),
                postings@.subrange(0, start.len() as int) == start,
                forall|k: int|
                    0 <= k < i ==> dict.lookup(#[trigger] ents[k].term).is_some() && points_to(
                        dict.lookup(ents[k].term).unwrap(),
                        postings@,
                        ents[k].docs,
                    ),
                forall|t: Seq<u8>|
                    !to_map(ents.take(i as int)).contains_key(t) ==> #[trigger] dict.lookup(t)
                        == old(dict).lookup(t),
                dict.last_key() == (if i > 0 {
                    Some(ents[i - 1].term)
                } else {
                    old(dict).last_key()
                }),
            decreases ents.len() - i,
        {
            let entry = &self.entries[i];
            if entry.docs.len() >= u32::MAX as usize {
                return Err(SegmentError::IoError);
            }
            let info = TermInfo {
                doc_freq: entry.docs.len() as u32,
                postings_offset: postings.len() as u64,
            };
            let ghost dict_before = *dict;
            let ghost file_before = postings@;
            proof {
                assert(entry.term@ == ents[i as int].term);
                assert(entry.docs@ == ents[i as int].docs);
                lemma_records_step(ents, i as int);
                if i > 0 {
                    assert(lex_lt(ents[i - 1].term, ents[i as int].term));
                }
            }
            match dict.insert(&entry.term, info) {
                Ok(_) => {},
                Err(e) => {
                    return Err(e);
                },
            }
            let mut record = serialize_postings(&entry.docs);
            postings.append(&mut record);
            proof {
                let longer = postings@;
                assert(longer =~= start + records_of(ents.take(i + 1)));
                assert forall|k: int| 0 <= k < i + 1 implies dict.lookup(
                    (#[trigger] ents[k]).term,
                ).is_some() && dict.lookup(ents[k].term).unwrap().postings_offset == start.len()
                    + records_of(ents.take(k)).len() by {
                    if k < i {
                        if ents[k].term == ents[i as int].term {
                            lemma_sorted_unique(ents, k, i as int);
                        }
                        assert(dict.lookup(ents[k].term) == dict_before.lookup(ents[k].term));
                    }
                }
                assert(longer.subrange(0, start.len() as int) =~= start) by {
                    assert(file_before.subrange(0, start.len() as int) == start);
                }
                assert(longer.subrange(0, file_before.len() as int) =~= file_before);
                lemma_points_to_appended(file_before, ents[i as int].docs);
                assert forall|k: int| 0 <= k < i + 1 implies dict.lookup(
                    #[trigger] ents[k].term,
                ).is_some() && points_to(
                    dict.lookup(ents[k].term).unwrap(),
                    longer,
                    ents[k].docs,
                ) by {
                    if k < i {
                        if ents[k].term == ents[i as int].term {
                            lemma_sorted_unique(ents, k, i as int);
                        }
                        lemma_points_to_extends(
                            dict_before.lookup(ents[k].term).unwrap(),
                            file_before,
                            longer,
                            ents[k].docs,
                        );
                    }
                }
                assert forall|t: Seq<u8>|
                    !to_map(ents.take(i + 1)).contains_key(t) implies #[trigger] dict.lookup(t)
                    == old(dict).lookup(t) by {
                    if to_map(ents.take(i as int)).contains_key(t) {
                        let c = choose|c: int| holds_at(ents.take(i as int), t, c);
                        assert(holds_at(ents.take(i + 1), t, c));
                    }
                    if t == ents[i as int].term {
                        assert(holds_at(ents.take(i + 1), t, i as int));
                    }
                }
            }
            i += 1;
        }
        proof {
            assert(ents.take(i as int) =~= ents);
            assert forall|t: Seq<u8>| #[trigger] self@.contains_key(t) implies dict.lookup(
                t,
            ).is_some() && points_to(dict.lookup(t).unwrap(), postings@, self@[t].docs) by {
                let c = choose|c: int| holds_at(ents, t, c);
                assert(ents[c].term == t);
            }
        }
        Ok(())
    }
}

} // verus!
