//! The term dictionary: an ordered map from term bytes to a `TermInfo`,
//! kept as a finite-state transducer with a table of fixed-size payloads.

use crate::bytes::{
    be32_bytes, be32_value, be64_bytes, be64_value, lemma_be32_round_trip, lemma_be64_round_trip,
    push_u32, push_u64, read_u32_at, read_u64_at,
};
use crate::codec::SegmentError;
use crate::term::lex_lt;
use vstd::prelude::*;

verus! {

/// What the dictionary stores for a term.
#[derive(Clone, Copy, Debug, PartialEq, Eq, Structural)]
pub struct TermInfo {
    pub doc_freq: u32,
    pub postings_offset: u64,
}

/// The size of one payload.
pub const TERM_INFO_SIZE: usize = 12;

/// The twelve bytes of a payload: the document frequency, then the offset
/// of the posting list, both big-endian.
pub open spec fn term_info_bytes(info: TermInfo) -> Seq<u8> {
    be32_bytes(info.doc_freq) + be64_bytes(info.postings_offset)
}

/// The payload that twelve bytes stand for.
pub open spec fn term_info_value(b: Seq<u8>) -> TermInfo {
    TermInfo {
        doc_freq: be32_value(b.subrange(0, 4)) as u32,
        postings_offset: be64_value(b.subrange(4, 12)) as u64,
    }
}

/// A payload reads back from its bytes.
pub proof fn lemma_term_info_round_trip(info: TermInfo)
    ensures
        term_info_bytes(info).len() == 12,
        term_info_value(term_info_bytes(info)) == info,
{
    lemma_be32_round_trip(info.doc_freq);
    lemma_be64_round_trip(info.postings_offset);
    assert(term_info_bytes(info).subrange(0, 4) =~= be32_bytes(info.doc_freq));
    assert(term_info_bytes(info).subrange(4, 12) =~= be64_bytes(info.postings_offset));
}

impl TermInfo {
    /// Appends the payload's twelve bytes to `out`.
    pub fn write_to(&self, out: &mut Vec<u8>)
        ensures
            final(out)@ == old(out)@ + term_info_bytes(*self),
    {
        push_u32(out, self.doc_freq);
        push_u64(out, self.postings_offset);
        assert(final(out)@ =~= old(out)@ + term_info_bytes(*self));
    }

    /// Reads the payload that stands at `at` in `data`.
    pub fn read_at(data: &[u8], at: usize) -> (info: TermInfo)
        requires
            at + 12 <= data@.len(),
        ensures
            info == term_info_value(data@.subrange(at as int, at + 12)),
    {
        let len: usize = data.len();
        assert(at + 12 <= len);
        let doc_freq = read_u32_at(data, at);
        let postings_offset = read_u64_at(data, at + 4);
        proof {
            let b = data@.subrange(at as int, at + 12);
            assert(b.subrange(0, 4) =~= data@.subrange(at as int, at + 4));
            assert(b.subrange(4, 12) =~= data@.subrange(at + 4, at + 12));
        }
        TermInfo { doc_freq, postings_offset }
    }
}

#[verifier::external_type_specification]
#[verifier::external_body]
#[verifier::reject_recursive_types(D)]
pub struct ExFstMap<D>(fst::Map<D>);

#[verifier::external_type_specification]
#[verifier::external_body]
#[verifier::reject_recursive_types(W)]
pub struct ExFstMapBuilder<W>(fst::MapBuilder<W>);

#[verifier::external_type_specification]
#[verifier::external_body]
pub struct ExFstError(fst::Error);

/// The keys of a transducer, each with its value.
pub uninterp spec fn fst_entries(m: fst::Map<Vec<u8>>) -> Map<Seq<u8>, u64>;

/// The keys that a builder has taken so far, each with its value.
pub uninterp spec fn fst_inserted(b: fst::MapBuilder<Vec<u8>>) -> Map<Seq<u8>, u64>;

/// The key that a builder took last, if it has taken one.
pub uninterp spec fn fst_last_key(b: fst::MapBuilder<Vec<u8>>) -> Option<Seq<u8>>;

/// The bytes that `fst::MapBuilder::into_inner` hands out for a builder in
/// memory that took the given entries.
pub uninterp spec fn fst_image(entries: Map<Seq<u8>, u64>) -> Seq<u8>;

/// The bytes that a transducer was opened on.
pub uninterp spec fn fst_source(m: fst::Map<Vec<u8>>) -> Seq<u8>;

/// The bytes are what a builder handed out for some entries. Lookups and
/// streams are used on such transducers only: on other bytes, even with a
/// right checksum, the outside code may not return.
pub open spec fn fst_built(bytes: Seq<u8>) -> bool {
    exists|entries: Map<Seq<u8>, u64>| bytes == #[trigger] fst_image(entries)
}

/// The entries that `fst::Map::new` finds in a run of bytes, if it accepts
/// them and their checksum is right.
pub uninterp spec fn fst_read(bytes: Seq<u8>) -> Option<Map<Seq<u8>, u64>>;

/// Calls `fst::MapBuilder::memory`. Claimed of it: the builder starts
/// without any key.
#[verifier::external_body]
fn builder_memory() -> (r: fst::MapBuilder<Vec<u8>>)
    ensures
        forall|k: Seq<u8>| !fst_inserted(r).contains_key(k),
        fst_last_key(r).is_none(),
{
    fst::MapBuilder::memory()
}

/// Calls `fst::MapBuilder::insert`. Claimed of it, for a builder in memory:
/// it takes the key if and only if the key comes after the one taken last,
/// and leaves the builder as it was where it refuses.
#[verifier::external_body]
fn builder_insert(b: &mut fst::MapBuilder<Vec<u8>>, key: &Vec<u8>, val: u64) -> (r: Result<
    (),
    fst::Error,
>)
    ensures
        r.is_ok() <==> (fst_last_key(*old(b)).is_none() || lex_lt(
            fst_last_key(*old(b)).unwrap(),
            key@,
        )),
        r.is_ok() ==> fst_inserted(*final(b)) == fst_inserted(*old(b)).insert(key@, val)
            && fst_last_key(*final(b)) == Some(key@),
        r.is_err() ==> fst_inserted(*final(b)) == fst_inserted(*old(b)) && fst_last_key(*final(b))
            == fst_last_key(*old(b)),
{
    b.insert(key, val)
}

/// Calls `fst::MapBuilder::into_inner`. Claimed of it, for a builder in
/// memory: it does not fail, as it only writes to a vector; the bytes
/// depend on the entries taken alone; they carry their checksum and are
/// read by `fst::Map::new` as the entries that the builder took.
#[verifier::external_body]
fn builder_into_inner(b: fst::MapBuilder<Vec<u8>>) -> (r: Result<Vec<u8>, fst::Error>)
    ensures
        r.is_ok(),
        r.unwrap()@ == fst_image(fst_inserted(b)),
        fst_read(r.unwrap()@) == Some(fst_inserted(b)),
{
    b.into_inner()
}

/// Calls `fst::Map::new`, and `verify` on the transducer, which compares
/// its checksum. Claimed of them: whether the bytes are accepted, and the
/// entries found in them, depend on the bytes alone.
#[verifier::external_body]
fn map_new(bytes: Vec<u8>) -> (r: Result<fst::Map<Vec<u8>>, fst::Error>)
    ensures
        match r {
            Ok(m) => fst_read(bytes@) == Some(fst_entries(m)) && fst_source(m) == bytes@,
            Err(_) => fst_read(bytes@).is_none(),
        },
{
    let map = fst::Map::new(bytes)?;
    map.as_fst().verify()?;
    Ok(map)
}

/// Calls `fst::Map::get`. Claimed of it, for a transducer over bytes that
/// a builder handed out: it returns the key's value, and `None` for a key
/// that the transducer does not hold.
#[verifier::external_body]
fn map_get(m: &fst::Map<Vec<u8>>, key: &Vec<u8>) -> (r: Option<u64>)
    requires
        fst_built(fst_source(*m)),
    ensures
        r == (if fst_entries(*m).contains_key(key@) {
            Some(fst_entries(*m)[key@])
        } else {
            None
        }),
{
    m.get(key)
}

/// The keys of the pairs stand in strictly ascending lexicographic order.
pub open spec fn keys_ascend(pairs: Seq<(Vec<u8>, u64)>) -> bool {
    forall|i: int, j: int| 0 <= i < j < pairs.len() ==> lex_lt(pairs[i].0@, pairs[j].0@)
}

/// Every pair is an entry of `entries`, and every entry is among the
/// pairs.
pub open spec fn pairs_are(pairs: Seq<(Vec<u8>, u64)>, entries: Map<Seq<u8>, u64>) -> bool {
    &&& forall|i: int|
        0 <= i < pairs.len() ==> entries.contains_key((#[trigger] pairs[i]).0@)
            && entries[pairs[i].0@] == pairs[i].1
    &&& forall|k: Seq<u8>| #[trigger]
        entries.contains_key(k) ==> exists|i: int| 0 <= i < pairs.len() && pairs[i].0@ == k
}

/// Calls `fst::Map::stream`, and `into_byte_vec` on the stream. Claimed of
/// them, for a transducer over bytes that a builder handed out: the pairs
/// that come out are the transducer's entries, each once, in lexicographic
/// order of the keys.
#[verifier::external_body]
fn map_stream(m: &fst::Map<Vec<u8>>) -> (r: Vec<(Vec<u8>, u64)>)
    requires
        fst_built(fst_source(*m)),
    ensures
        keys_ascend(r@),
        pairs_are(r@, fst_entries(*m)),
{
    m.stream().into_byte_vec()
}

/// The bytes of `data` from `from` up to `to`, copied.
pub fn copy_range(data: &[u8], from: usize, to: usize) -> (out: Vec<u8>)
    requires
        from <= to <= data@.len(),
    ensures
        out@ == data@.subrange(from as int, to as int),
{
    let mut out: Vec<u8> = Vec::new();
    let mut i: usize = from;
    while i < to
        invariant
            from <= i <= to <= data@.len(),
            out@ == data@.subrange(from as int, i as int),
        decreases to - i,
    {
        out.push(data[i]);
        assert(data@.subrange(from as int, i + 1) =~= data@.subrange(from as int, i as int).push(
            data@[i as int],
        ));
        i += 1;
    }
    out
}

/// The length of the transducer that a dictionary file announces, where the
/// file is long enough for it and the rest is a whole number of payloads.
pub open spec fn terms_split(data: Seq<u8>) -> Option<int> {
    if data.len() < 8 {
        None
    } else {
        let n = be64_value(data.subrange(0, 8));
        if n <= data.len() - 8 && (data.len() - 8 - n) % 12 == 0 {
            Some(n)
        } else {
            None
        }
    }
}

/// The file of a dictionary: the transducer's length in eight bytes, the
/// transducer, then the payloads.
pub open spec fn terms_file(fst_bytes: Seq<u8>, payloads: Seq<u8>) -> Seq<u8> {
    be64_bytes(fst_bytes.len() as u64) + fst_bytes + payloads
}

/// The payload that the entry `index` of the table `payloads` holds.
pub open spec fn payload_at(payloads: Seq<u8>, index: int) -> TermInfo {
    term_info_value(payloads.subrange(12 * index, 12 * index + 12))
}

/// `data` is a dictionary file with the payload table `payloads`, whose
/// transducer reads as `index`.
pub open spec fn holds_dictionary(data: Seq<u8>, index: Map<Seq<u8>, u64>, payloads: Seq<u8>) -> bool {
    &&& terms_split(data).is_some()
    &&& fst_read(data.subrange(8, 8 + terms_split(data).unwrap())) == Some(index)
    &&& data.subrange(8 + terms_split(data).unwrap(), data.len() as int) == payloads
}

/// `data` is a dictionary file whose transducer can be read.
pub open spec fn readable_dictionary(data: Seq<u8>) -> bool {
    terms_split(data).is_some() && fst_read(
        data.subrange(8, 8 + terms_split(data).unwrap()),
    ).is_some()
}

/// The transducer of the dictionary file `data`, where the file has one,
/// is what a builder handed out. Nothing in the file shows this: it is
/// the trust that a reader puts in the file's writer.
pub open spec fn written_dictionary(data: Seq<u8>) -> bool {
    terms_split(data).is_some() ==> fst_built(data.subrange(8, 8 + terms_split(data).unwrap()))
}

/// A dictionary that was read from its file.
pub struct TermDictionary {
    index: fst::Map<Vec<u8>>,
    payloads: Vec<u8>,
}

impl TermDictionary {
    /// The place in the payload table that each term points to.
    pub closed spec fn index(&self) -> Map<Seq<u8>, u64> {
        fst_entries(self.index)
    }

    /// The payload table.
    pub closed spec fn payloads(&self) -> Seq<u8> {
        self.payloads@
    }

    /// The transducer stands over bytes that a builder handed out.
    pub closed spec fn built(&self) -> bool {
        fst_built(fst_source(self.index))
    }

    /// The table is a whole number of payloads, and the transducer is one
    /// that a builder made.
    pub open spec fn wf(&self) -> bool {
        self.payloads().len() % 12 == 0 && self.built()
    }

    /// What the dictionary holds for `term`: nothing for a term that is
    /// not in it, an error for one that points outside the table.
    pub open spec fn lookup(&self, term: Seq<u8>) -> Result<Option<TermInfo>, SegmentError> {
        if !self.index().contains_key(term) {
            Ok(None)
        } else if self.index()[term] >= self.payloads().len() / 12 {
            Err(SegmentError::CorruptedSegment)
        } else {
            Ok(Some(payload_at(self.payloads(), self.index()[term] as int)))
        }
    }

    /// Reads a dictionary file. A file that is too short, whose parts do
    /// not add up, or whose transducer is refused, is corrupted.
    pub fn open(data: &[u8]) -> (r: Result<TermDictionary, SegmentError>)
        requires
            written_dictionary(data@),
        ensures
            match r {
                Ok(d) => d.wf() && holds_dictionary(data@, d.index(), d.payloads()),
                Err(e) => e == SegmentError::CorruptedSegment && (terms_split(data@).is_none() || fst_read(
                    data@.subrange(8, 8 + terms_split(data@).unwrap()),
                ).is_none()),
            },
    {
        if data.len() < 8 {
            return Err(SegmentError::CorruptedSegment);
        }
        let n = read_u64_at(data, 0);
        let rest = data.len() - 8;
        if n > rest as u64 {
            return Err(SegmentError::CorruptedSegment);
        }
        let n = n as usize;
        if (rest - n) % 12 != 0 {
            return Err(SegmentError::CorruptedSegment);
        }
        let fst_bytes = copy_range(data, 8, 8 + n);
        let payloads = copy_range(data, 8 + n, data.len());
        match map_new(fst_bytes) {
            Ok(index) => Ok(TermDictionary { index, payloads }),
            Err(_) => Err(SegmentError::CorruptedSegment),
        }
    }

    /// All terms in ascending lexicographic order, each with its payload.
    /// A term that points outside the payload table makes the dictionary
    /// corrupted.
    pub fn stream(&self) -> (r: Result<Vec<(Vec<u8>, TermInfo)>, SegmentError>)
        requires
            self.wf(),
        ensures
            match r {
                Ok(list) => {
                    &&& forall|i: int, j: int|
                        0 <= i < j < list@.len() ==> lex_lt(list@[i].0@, list@[j].0@)
                    &&& forall|i: int|
                        0 <= i < list@.len() ==> self.lookup((#[trigger] list@[i]).0@) == Ok::<
                            Option<TermInfo>,
                            SegmentError,
                        >(Some(list@[i].1))
                    &&& forall|k: Seq<u8>| #[trigger]
                        self.index().contains_key(k) ==> exists|i: int|
                            0 <= i < list@.len() && list@[i].0@ == k
                },
                Err(e) => e == SegmentError::CorruptedSegment && exists|k: Seq<u8>| #[trigger]
                    self.lookup(k).is_err(),
            },
    {
        let pairs = map_stream(&self.index);
        let mut list: Vec<(Vec<u8>, TermInfo)> = Vec::new();
        let mut i: usize = 0;
        while i < pairs.len()
            invariant
                self.wf(),
                i <= pairs@.len(),
                list@.len() == i,
                keys_ascend(pairs@),
                pairs_are(pairs@, self.index()),
                forall|k: int|
                    0 <= k < i ==> (#[trigger] list@[k]).0@ == pairs@[k].0@ && pairs@[k].1
                        < self.payloads().len() / 12 && list@[k].1 == payload_at(
                        self.payloads(),
                        pairs@[k].1 as int,
                    ),
            decreases pairs@.len() - i,
        {
            let at = pairs[i].1;
            assert(self.index().contains_key(pairs@[i as int].0@));
            if at >= (self.payloads.len() / 12) as u64 {
                assert(self.lookup(pairs@[i as int].0@).is_err());
                return Err(SegmentError::CorruptedSegment);
            }
            let key = copy_range(pairs[i].0.as_slice(), 0, pairs[i].0.len());
            assert(key@ =~= pairs@[i as int].0@);
            let info = TermInfo::read_at(self.payloads.as_slice(), (at as usize) * 12);
            list.push((key, info));
            i += 1;
        }
        proof {
            assert forall|a: int, b: int| 0 <= a < b < list@.len() implies lex_lt(
                list@[a].0@,
                list@[b].0@,
            ) by {
                assert(lex_lt(pairs@[a].0@, pairs@[b].0@));
            }
            assert forall|k: Seq<u8>| #[trigger] self.index().contains_key(k) implies exists|i: int|
                0 <= i < list@.len() && list@[i].0@ == k by {
                let c = choose|c: int| 0 <= c < pairs@.len() && pairs@[c].0@ == k;
                assert(list@[c].0@ == k);
            }
        }
        Ok(list)
    }

    /// Looks a term up.
    pub fn get(&self, term: &Vec<u8>) -> (r: Result<Option<TermInfo>, SegmentError>)
        requires
            self.wf(),
        ensures
            r == self.lookup(term@),
    {
        match map_get(&self.index, term) {
            None => Ok(None),
            Some(i) => {
                if i >= (self.payloads.len() / 12) as u64 {
                    Err(SegmentError::CorruptedSegment)
                } else {
                    let at = (i as usize) * 12;
                    Ok(Some(TermInfo::read_at(self.payloads.as_slice(), at)))
                }
            },
        }
    }
}

/// Collects the entries of a dictionary, which have to come in strictly
/// ascending order of their terms.
pub struct TermDictionaryBuilder {
    builder: fst::MapBuilder<Vec<u8>>,
    payloads: Vec<u8>,
    count: u64,
}

impl TermDictionaryBuilder {
    /// The place in the payload table that each term taken points to.
    pub closed spec fn index(&self) -> Map<Seq<u8>, u64> {
        fst_inserted(self.builder)
    }

    /// The term taken last.
    pub closed spec fn last_key(&self) -> Option<Seq<u8>> {
        fst_last_key(self.builder)
    }

    /// The payload table so far.
    pub closed spec fn payloads(&self) -> Seq<u8> {
        self.payloads@
    }

    /// The number of terms taken.
    pub closed spec fn count(&self) -> nat {
        self.count as nat
    }

    /// The table holds one payload for each term taken, and each term
    /// points into it.
    pub open spec fn wf(&self) -> bool {
        &&& self.payloads().len() == 12 * self.count()
        &&& self.payloads().len() <= usize::MAX
        &&& self.count() <= u64::MAX
        &&& forall|t: Seq<u8>| #[trigger]
            self.index().contains_key(t) ==> self.index()[t] < self.count()
    }

    /// The table cannot grow by one more payload.
    pub open spec fn is_full(&self) -> bool {
        self.count() >= u64::MAX || self.payloads().len() + 12 > usize::MAX
    }

    /// `term` may be taken next.
    pub open spec fn accepts(&self, term: Seq<u8>) -> bool {
        self.last_key().is_none() || lex_lt(self.last_key().unwrap(), term)
    }

    /// What the dictionary under construction holds for `term`.
    pub closed spec fn lookup(&self, term: Seq<u8>) -> Option<TermInfo> {
        if self.index().contains_key(term) {
            Some(payload_at(self.payloads(), self.index()[term] as int))
        } else {
            None
        }
    }

    /// What the builder holds for a term is the payload that the term
    /// points to, and that payload lies in the table.
    pub proof fn lemma_lookup(self, term: Seq<u8>)
        requires
            self.wf(),
        ensures
            self.lookup(term).is_some() == self.index().contains_key(term),
            self.index().contains_key(term) ==> self.index()[term] < self.payloads().len() / 12
                && self.lookup(term) == Some(
                payload_at(self.payloads(), self.index()[term] as int),
            ),
    {
    }

    /// A builder without any term.
    pub fn new() -> (r: TermDictionaryBuilder)
        ensures
            r.wf(),
            r.last_key().is_none(),
            r.count() == 0,
            forall|t: Seq<u8>| r.lookup(t).is_none(),
    {
        TermDictionaryBuilder { builder: builder_memory(), payloads: Vec::new(), count: 0 }
    }

    /// Takes one entry. A term that does not come after the one taken last
    /// is refused, and so is any term once the table is full; the builder
    /// then stays as it was.
    pub fn insert(&mut self, term: &Vec<u8>, info: TermInfo) -> (r: Result<(), SegmentError>)
        requires
            old(self).wf(),
        ensures
            final(self).wf(),
            match r {
                Ok(_) => {
                    &&& !old(self).is_full()
                    &&& old(self).accepts(term@)
                    &&& final(self).last_key() == Some(term@)
                    &&& final(self).count() == old(self).count() + 1
                    &&& final(self).lookup(term@) == Some(info)
                    &&& forall|t: Seq<u8>|
                        t != term@ ==> final(self).lookup(t) == old(self).lookup(t)
                },
                Err(e) => {
                    &&& e == (if old(self).is_full() {
                        SegmentError::IoError
                    } else {
                        SegmentError::DictionaryOrderViolation
                    })
                    &&& old(self).is_full() || !old(self).accepts(term@)
                    &&& final(self).last_key() == old(self).last_key()
                    &&& final(self).count() == old(self).count()
                    &&& forall|t: Seq<u8>| final(self).lookup(t) == old(self).lookup(t)
                },
            },
    {
        if self.count == u64::MAX || self.payloads.len() > usize::MAX - 12 {
            return Err(SegmentError::IoError);
        }
        match builder_insert(&mut self.builder, term, self.count) {
            Ok(_) => {
                let ghost before = self.payloads@;
                info.write_to(&mut self.payloads);
                self.count = self.count + 1;
                proof {
                    lemma_term_info_round_trip(info);
                    let after = self.payloads@;
                    let c = old(self).count() as int;
                    assert(after.subrange(12 * c, 12 * c + 12) =~= term_info_bytes(info));
                    assert forall|t: Seq<u8>| t != term@ implies final(self).lookup(t) == old(
                        self,
                    ).lookup(t) by {
                        if old(self).index().contains_key(t) {
                            let i = old(self).index()[t] as int;
                            assert(after.subrange(12 * i, 12 * i + 12) =~= before.subrange(
                                12 * i,
                                12 * i + 12,
                            ));
                        }
                    }
                }
                Ok(())
            },
            Err(_) => Err(SegmentError::DictionaryOrderViolation),
        }
    }

    /// Finishes the dictionary and opens it for reading.
    pub fn into_dictionary(self) -> (r: Result<TermDictionary, SegmentError>)
        requires
            self.wf(),
        ensures
            match r {
                Ok(d) => d.wf() && d.index() == self.index() && d.payloads() == self.payloads(),
                Err(_) => false,
            },
    {
        let file = self.finish();
        TermDictionary::open(file.as_slice())
    }

    /// Finishes the dictionary and hands out its file.
    pub fn finish(self) -> (data: Vec<u8>)
        requires
            self.wf(),
        ensures
            holds_dictionary(data@, self.index(), self.payloads()),
            written_dictionary(data@),
    {
        let payloads = self.payloads;
        match builder_into_inner(self.builder) {
            Ok(fst_bytes) => {
                let mut data: Vec<u8> = Vec::new();
                push_u64(&mut data, fst_bytes.len() as u64);
                let mut i: usize = 0;
                while i < fst_bytes.len()
                    invariant
                        i <= fst_bytes.len(),
                        data@ == be64_bytes(fst_bytes.len() as u64) + fst_bytes@.take(i as int),
                    decreases fst_bytes.len() - i,
                {
                    data.push(fst_bytes[i]);
                    assert(fst_bytes@.take(i + 1) =~= fst_bytes@.take(i as int).push(
                        fst_bytes@[i as int],
                    ));
                    i += 1;
                }
                assert(fst_bytes@.take(i as int) =~= fst_bytes@);
                let ghost head = data@;
                let mut j: usize = 0;
                while j < payloads.len()
                    invariant
                        j <= payloads.len(),
                        data@ == head + payloads@.take(j as int),
                    decreases payloads.len() - j,
                {
                    data.push(payloads[j]);
                    assert(payloads@.take(j + 1) =~= payloads@.take(j as int).push(
                        payloads@[j as int],
                    ));
                    j += 1;
                }
                assert(payloads@.take(j as int) =~= payloads@);
                proof {
                    assert(data@ =~= terms_file(fst_bytes@, payloads@));
                    lemma_terms_file_splits(fst_bytes@, payloads@);
                }
                data
            },
            Err(_) => Vec::new(),
        }
    }
}

/// A dictionary file reads back as what was put into it: the file splits
/// where the transducer ends, and the payload table is the one written.
pub proof fn lemma_terms_file_splits(fst_bytes: Seq<u8>, payloads: Seq<u8>)
    requires
        fst_bytes.len() <= u64::MAX,
        payloads.len() % 12 == 0,
    ensures
        terms_split(terms_file(fst_bytes, payloads)) == Some(fst_bytes.len() as int),
        terms_file(fst_bytes, payloads).subrange(8, 8 + fst_bytes.len() as int) == fst_bytes,
        terms_file(fst_bytes, payloads).subrange(
            8 + fst_bytes.len() as int,
            terms_file(fst_bytes, payloads).len() as int,
        ) == payloads,
{
    let data = terms_file(fst_bytes, payloads);
    lemma_be64_round_trip(fst_bytes.len() as u64);
    assert(data.subrange(0, 8) =~= be64_bytes(fst_bytes.len() as u64));
    assert(data.subrange(8, 8 + fst_bytes.len() as int) =~= fst_bytes);
    assert(data.subrange(8 + fst_bytes.len() as int, data.len() as int) =~= payloads);
}

} // verus!
