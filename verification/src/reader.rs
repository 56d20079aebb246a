//! Reading a segment: term lookup, posting lists, conjunctive search.

use crate::codec::{lemma_record_round_trip, parse_record, record_bytes, SegmentError};
use crate::dictionary::{
    fst_read, holds_dictionary, terms_split, written_dictionary, TermDictionary, TermInfo,
};
use crate::intersection::{all_increasing, behind, IntersectionPostings};
use crate::postings::{lemma_increasing_len, strictly_increasing, SegmentPostings};
use crate::postings_writer::{docs_bounded, holds_at, lists, points_to, serves};
use crate::segment_writer::{write_fits, writers_apart, SegmentWriter};
use crate::schema::Document;
use vstd::prelude::*;
use vstd::slice::slice_subrange;

verus! {

/// The ids of the list are below `max_doc`.
pub open spec fn docs_below(docs: Seq<u32>, max_doc: int) -> bool {
    forall|k: int| 0 <= k < docs.len() ==> docs[k] < max_doc
}

/// The posting list that starts at `offset` in `postings`, in a segment of
/// `max_doc` documents. A place outside the data, a record that cannot be
/// read, a list that is not strictly increasing and an id that is not
/// below `max_doc` are corrupted.
pub open spec fn postings_at(postings: Seq<u8>, offset: int, max_doc: int) -> Result<
    Seq<u32>,
    SegmentError,
> {
    if offset < 0 || offset > postings.len() {
        Err(SegmentError::CorruptedSegment)
    } else {
        match parse_record(postings.skip(offset)) {
            Some(docs) => if strictly_increasing(docs) && docs_below(docs, max_doc) {
                Ok(docs)
            } else {
                Err(SegmentError::CorruptedSegment)
            },
            None => Err(SegmentError::CorruptedSegment),
        }
    }
}

/// An open segment.
pub struct SegmentReader {
    segment_id: u128,
    term_offsets: TermDictionary,
    postings_data: Vec<u8>,
    store: Vec<Document>,
    max_doc: u32,
}

impl SegmentReader {
    /// The segment's id.
    pub closed spec fn segment_id(&self) -> u128 {
        self.segment_id
    }

    /// The dictionary.
    pub closed spec fn dictionary(&self) -> TermDictionary {
        self.term_offsets
    }

    /// The postings file.
    pub closed spec fn postings(&self) -> Seq<u8> {
        self.postings_data@
    }

    /// The stored documents, by document id.
    pub closed spec fn stored(&self) -> Seq<Document> {
        self.store@
    }

    /// The number of documents of the segment.
    pub closed spec fn max_doc(&self) -> u32 {
        self.max_doc
    }

    /// The dictionary is well formed.
    pub open spec fn wf(&self) -> bool {
        self.dictionary().wf()
    }

    /// The documents of one term: none for a term that the dictionary does
    /// not hold.
    pub open spec fn term_docs(&self, term: Seq<u8>) -> Result<Option<Seq<u32>>, SegmentError> {
        match self.dictionary().lookup(term) {
            Err(e) => Err(e),
            Ok(None) => Ok(None),
            Ok(Some(info)) => match postings_at(
                self.postings(),
                info.postings_offset as int,
                self.max_doc() as int,
            ) {
                Ok(docs) => Ok(Some(docs)),
                Err(e) => Err(e),
            },
        }
    }

    /// The posting lists of the terms, taken one after the other up to the
    /// first that fails or is missing: `None` where one is missing.
    pub open spec fn term_lists(&self, terms: Seq<Seq<u8>>) -> Result<
        Option<Seq<Seq<u32>>>,
        SegmentError,
    >
        decreases terms.len(),
    {
        if terms.len() == 0 {
            Ok(Some(Seq::empty()))
        } else {
            match self.term_lists(terms.drop_last()) {
                Err(e) => Err(e),
                Ok(None) => Ok(None),
                Ok(Some(lists)) => match self.term_docs(terms.last()) {
                    Err(e) => Err(e),
                    Ok(None) => Ok(None),
                    Ok(Some(docs)) => Ok(Some(lists.push(docs))),
                },
            }
        }
    }

    /// The segment's id.
    pub fn id(&self) -> (r: u128)
        ensures
            r == self.segment_id(),
    {
        self.segment_id
    }

    /// Opens a segment from the contents of its files.
    pub fn open(
        segment_id: u128,
        terms: &[u8],
        postings: Vec<u8>,
        store: Vec<Document>,
        max_doc: u32,
    ) -> (r: Result<SegmentReader, SegmentError>)
        requires
            written_dictionary(terms@),
        ensures
            match r {
                Ok(reader) => {
                    &&& reader.wf()
                    &&& holds_dictionary(
                        terms@,
                        reader.dictionary().index(),
                        reader.dictionary().payloads(),
                    )
                    &&& reader.segment_id() == segment_id
                    &&& reader.postings() == postings@
                    &&& reader.stored() == store@
                    &&& reader.max_doc() == max_doc
                },
                Err(e) => e == SegmentError::CorruptedSegment && (terms_split(terms@).is_none()
                    || fst_read(terms@.subrange(8, 8 + terms_split(terms@).unwrap())).is_none()),
            },
    {
        match TermDictionary::open(terms) {
            Ok(term_offsets) => Ok(
                SegmentReader { segment_id, term_offsets, postings_data: postings, store, max_doc },
            ),
            Err(e) => Err(e),
        }
    }

    /// Ends the segment that `writer` holds and opens it for reading, with
    /// the given stored documents.
    pub fn open_written(writer: SegmentWriter, segment_id: u128, store: Vec<Document>) -> (r: Result<
        SegmentReader,
        SegmentError,
    >)
        requires
            writers_apart(writer.writers()),
        ensures
            r.is_ok() <==> write_fits(writer.writers()),
            match r {
                Ok(reader) => {
                    &&& reader.wf()
                    &&& reader.segment_id() == segment_id
                    &&& reader.stored() == store@
                    &&& reader.max_doc() == writer.num_docs()
                },
                Err(e) => e == SegmentError::IoError,
            },
    {
        match writer.finalize() {
            Ok(data) => {
                SegmentReader::open(segment_id, data.terms.as_slice(), data.postings, store, data.max_doc)
            },
            Err(e) => Err(e),
        }
    }

    /// The stored document of the given id, if the segment has that many.
    pub fn get_doc(&self, doc_id: u32) -> (r: Option<&Document>)
        ensures
            r == (if doc_id < self.stored().len() {
                Some(&self.stored()[doc_id as int])
            } else {
                None
            }),
    {
        if (doc_id as usize) < self.store.len() {
            Some(&self.store[doc_id as usize])
        } else {
            None
        }
    }

    /// Decodes the posting list that starts at `offset` in the postings
    /// file.
    pub fn read_postings(&self, offset: usize) -> (r: Result<SegmentPostings, SegmentError>)
        ensures
            match r {
                Ok(p) => p.wf() && p.cursor() == 0 && postings_at(
                    self.postings(),
                    offset as int,
                    self.max_doc() as int,
                ) == Ok::<Seq<u32>, SegmentError>(p.docs()),
                Err(e) => postings_at(self.postings(), offset as int, self.max_doc() as int)
                    == Err::<Seq<u32>, SegmentError>(e),
            },
    {
        if offset > self.postings_data.len() {
            return Err(SegmentError::CorruptedSegment);
        }
        let data = slice_subrange(self.postings_data.as_slice(), offset, self.postings_data.len());
        assert(data@ =~= self.postings().skip(offset as int));
        match SegmentPostings::from_data(data) {
            Ok(p) => {
                if !p.is_strictly_increasing() {
                    return Err(SegmentError::CorruptedSegment);
                }
                match p.last_doc() {
                    Some(last) => {
                        if last >= self.max_doc {
                            return Err(SegmentError::CorruptedSegment);
                        }
                        assert forall|k: int| 0 <= k < p.docs().len() implies p.docs()[k]
                            < self.max_doc by {
                            if k < p.docs().len() - 1 {
                                assert(p.docs()[k] < p.docs()[p.docs().len() - 1]);
                            }
                        }
                    },
                    None => {},
                }
                Ok(p)
            },
            Err(e) => Err(e),
        }
    }

    /// Looks a term up in the dictionary.
    pub fn get_term(&self, term: &Vec<u8>) -> (r: Result<Option<TermInfo>, SegmentError>)
        requires
            self.wf(),
        ensures
            r == self.dictionary().lookup(term@),
    {
        self.term_offsets.get(term)
    }

    /// The documents that hold every one of the terms: the intersection of
    /// the terms' posting lists, or of one empty list where a term is
    /// missing.
    pub fn search(&self, terms: &Vec<Vec<u8>>) -> (r: Result<IntersectionPostings, SegmentError>)
        requires
            self.wf(),
        ensures
            match r {
                Ok(it) => it.wf() && match self.term_lists(terms.deep_view()) {
                    Ok(Some(lists)) => it.lists().len() == lists.len() && forall|l: int|
                        0 <= l < lists.len() ==> (#[trigger] it.lists()[l]).docs() == lists[l]
                            && it.lists()[l].cursor() == 0,
                    Ok(None) => it.lists().len() == 1 && it.lists()[0].docs() == Seq::<u32>::empty()
                        && it.lists()[0].cursor() == 0,
                    Err(_) => false,
                },
                Err(e) => self.term_lists(terms.deep_view()) == Err::<
                    Option<Seq<Seq<u32>>>,
                    SegmentError,
                >(e),
            },
    {
        let mut segment_postings: Vec<SegmentPostings> = Vec::new();
        let ghost all = terms.deep_view();
        let mut i: usize = 0;
        while i < terms.len()
            invariant
                self.wf(),
                all == terms.deep_view(),
                i <= terms.len(),
                all_increasing(segment_postings@),
                behind(segment_postings@),
                forall|l: int| 0 <= l < i ==> (#[trigger] segment_postings@[l]).cursor() == 0,
                segment_postings@.len() == i,
                match self.term_lists(all.take(i as int)) {
                    Ok(Some(lists)) => lists.len() == i && forall|l: int|
                        0 <= l < i ==> (#[trigger] segment_postings@[l]).docs() == lists[l]
                            && segment_postings@[l].cursor() == 0,
                    _ => false,
                },
            decreases terms.len() - i,
        {
            proof {
                assert(all.take(i + 1).drop_last() =~= all.take(i as int));
                assert(all.take(i + 1).last() == terms[i as int]@);
                assert(all.take(terms.len() as int) =~= all);
                Self::lemma_term_lists_stop(*self, all, i + 1);
            }
            let found = self.get_term(&terms[i]);
            let opened = match found {
                Err(e) => {
                    return Err(e);
                },
                Ok(None) => {
                    let mut only: Vec<SegmentPostings> = Vec::new();
                    only.push(SegmentPostings::empty());
                    return Ok(IntersectionPostings::from_postings(only));
                },
                Ok(Some(term_info)) => {
                    let len: usize = self.postings_data.len();
                    if term_info.postings_offset > len as u64 {
                        return Err(SegmentError::CorruptedSegment);
                    }
                    self.read_postings(term_info.postings_offset as usize)
                },
            };
            match opened {
                Ok(segment_posting) => {
                    segment_postings.push(segment_posting);
                },
                Err(e) => {
                    return Err(e);
                },
            }
            i += 1;
        }
        assert(all.take(i as int) =~= all);
        Ok(IntersectionPostings::from_postings(segment_postings))
    }

    /// What was written is what is read: a reader over a dictionary file
    /// and a postings file that serve `term` with the strictly increasing
    /// list `docs` finds exactly `docs` for `term`.
    pub proof fn lemma_written_is_read(
        reader: SegmentReader,
        terms: Seq<u8>,
        term: Seq<u8>,
        docs: Seq<u32>,
    )
        requires
            reader.wf(),
            holds_dictionary(terms, reader.dictionary().index(), reader.dictionary().payloads()),
            serves(terms, reader.postings(), term, docs),
            strictly_increasing(docs),
            docs_below(docs, reader.max_doc() as int),
            docs.len() < u32::MAX,
        ensures
            reader.term_docs(term) == Ok::<Option<Seq<u32>>, SegmentError>(Some(docs)),
    {
        reveal(points_to);
        let info = reader.dictionary().lookup(term).unwrap().unwrap();
        let file = reader.postings();
        let from = info.postings_offset as int;
        let to = from + record_bytes(docs).len();
        assert(file.skip(from) =~= file.subrange(from, to) + file.skip(to));
        lemma_record_round_trip(docs, file.skip(to));
    }

    /// A term that the dictionary file does not hold is missing for the
    /// reader that was opened on the file.
    pub proof fn lemma_unwritten_is_missing(reader: SegmentReader, terms: Seq<u8>, term: Seq<u8>)
        requires
            reader.wf(),
            holds_dictionary(terms, reader.dictionary().index(), reader.dictionary().payloads()),
            !lists(terms, term),
        ensures
            reader.term_docs(term) == Ok::<Option<Seq<u32>>, SegmentError>(None),
    {
    }

    /// Writing, then reading: where a writer whose documents are in range
    /// has written the files that a reader was opened on, the reader finds
    /// for every term of every field the documents that the writer holds
    /// for it, and they are strictly increasing and below the number of
    /// documents.
    pub proof fn lemma_round_trip(
        writer: SegmentWriter,
        terms: Seq<u8>,
        reader: SegmentReader,
        f: int,
        term: Seq<u8>,
    )
        requires
            writer.docs_in_range(),
            writer.num_docs() < u32::MAX,
            reader.max_doc() == writer.num_docs(),
            0 <= f < writer.writers().len(),
            writer.writers()[f]@.contains_key(term),
            serves(terms, reader.postings(), term, writer.writers()[f]@[term].docs),
            reader.wf(),
            holds_dictionary(terms, reader.dictionary().index(), reader.dictionary().payloads()),
        ensures
            reader.term_docs(term) == Ok::<Option<Seq<u32>>, SegmentError>(
                Some(writer.writers()[f]@[term].docs),
            ),
            strictly_increasing(writer.writers()[f]@[term].docs),
            writer.writers()[f].wf() ==> writer.writers()[f]@[term].docs.len() > 0,
            forall|k: int|
                0 <= k < writer.writers()[f]@[term].docs.len()
                    ==> writer.writers()[f]@[term].docs[k] < writer.num_docs(),
    {
        let entries = writer.writers()[f].entries();
        let c = choose|c: int| holds_at(entries, term, c);
        assert(docs_bounded(entries, writer.num_docs() as int));
        let docs = entries[c].docs;
        lemma_increasing_len(docs, writer.num_docs() as int);
        Self::lemma_written_is_read(reader, terms, term, docs);
    }

    /// Once the terms up to some place have failed or missed, the terms
    /// after it change nothing.
    pub proof fn lemma_term_lists_stop(reader: SegmentReader, terms: Seq<Seq<u8>>, n: int)
        requires
            0 <= n <= terms.len(),
        ensures
            reader.term_lists(terms.take(n)) is Err ==> reader.term_lists(terms)
                == reader.term_lists(terms.take(n)),
            reader.term_lists(terms.take(n)) == Ok::<Option<Seq<Seq<u32>>>, SegmentError>(None)
                ==> reader.term_lists(terms) == reader.term_lists(terms.take(n)),
        decreases terms.len() - n,
    {
        if n < terms.len() {
            Self::lemma_term_lists_stop(reader, terms, n + 1);
            assert(terms.take(n + 1).drop_last() =~= terms.take(n));
        } else {
            assert(terms.take(n) =~= terms);
        }
    }
}

} // verus!
