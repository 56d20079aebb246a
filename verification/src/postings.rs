//! Posting-list iterators and their intersection.

use crate::bytes::read_u32_at;
use crate::codec::{decode, parse_record, record_words, SegmentError};
use vstd::prelude::*;

verus! {

/// A decoded posting list with a cursor: the ids before the cursor have been
/// handed out, those from it on are still to come.
pub struct SegmentPostings {
    doc_id: usize,
    doc_ids: Vec<u32>,
    exhausted: bool,
}

impl SegmentPostings {
    /// All document ids of the list, in the order in which they come.
    pub closed spec fn docs(&self) -> Seq<u32> {
        self.doc_ids@
    }

    /// How many ids have been handed out.
    pub closed spec fn cursor(&self) -> nat {
        self.doc_id as nat
    }

    /// The end of the list was reached: a call found no id any more.
    pub closed spec fn exhausted(&self) -> bool {
        self.exhausted
    }

    /// The cursor stands inside the list or at its end, and at its end
    /// where the list is exhausted.
    pub open spec fn wf(&self) -> bool {
        self.cursor() <= self.docs().len() && (self.exhausted() ==> self.cursor()
            == self.docs().len())
    }

    /// The list stands on an id: the one that it handed out last.
    pub open spec fn positioned(&self) -> bool {
        !self.exhausted() && self.cursor() > 0
    }

    /// Where a skip starts to look: at the id that the list stands on, or
    /// at the cursor where it stands on none.
    pub open spec fn start(&self) -> int {
        if self.positioned() {
            self.cursor() - 1
        } else {
            self.cursor() as int
        }
    }

    /// The ids still to come.
    pub open spec fn remaining(&self) -> Seq<u32> {
        self.docs().skip(self.cursor() as int)
    }

    /// The list without any document.
    pub fn empty() -> (r: SegmentPostings)
        ensures
            r.wf(),
            r.docs() == Seq::<u32>::empty(),
            r.cursor() == 0,
            !r.exhausted(),
    {
        SegmentPostings { doc_id: 0, doc_ids: Vec::new(), exhausted: false }
    }

    /// The list of the given ids, before the first of them.
    pub fn from_doc_ids(doc_ids: Vec<u32>) -> (r: SegmentPostings)
        ensures
            r.wf(),
            r.docs() == doc_ids@,
            r.cursor() == 0,
            !r.exhausted(),
    {
        SegmentPostings { doc_id: 0, doc_ids, exhausted: false }
    }

    /// Reads the record that `data` starts with. Data that is too short for
    /// its own header or word count, or whose words do not stand for the
    /// announced number of documents, is corrupted.
    pub fn from_data(data: &[u8]) -> (r: Result<SegmentPostings, SegmentError>)
        ensures
            match r {
                Ok(p) => p.wf() && p.cursor() == 0 && !p.exhausted() && parse_record(data@) == Some(
                    p.docs(),
                ),
                Err(e) => e == SegmentError::CorruptedSegment && parse_record(data@).is_none(),
            },
    {
        if data.len() < 8 {
            return Err(SegmentError::CorruptedSegment);
        }
        let doc_freq = read_u32_at(data, 0);
        let data_size = read_u32_at(data, 4) as usize;
        if (data.len() - 8) / 4 < data_size {
            return Err(SegmentError::CorruptedSegment);
        }
        let mut words: Vec<u32> = Vec::new();
        let mut i: usize = 0;
        while i < data_size
            invariant
                i <= data_size,
                8 + 4 * data_size <= data@.len() <= usize::MAX,
                words@ == record_words(data@, i as nat),
            decreases data_size - i,
        {
            let w = read_u32_at(data, 8 + 4 * i);
            words.push(w);
            assert(words@ =~= record_words(data@, (i + 1) as nat));
            i += 1;
        }
        match decode(&words, doc_freq as usize) {
            Some(doc_ids) => Ok(SegmentPostings { doc_id: 0, doc_ids, exhausted: false }),
            None => Err(SegmentError::CorruptedSegment),
        }
    }

    /// Hands out the next id, or `None` at the end of the list.
    pub fn next(&mut self) -> (r: Option<u32>)
        requires
            old(self).wf(),
        ensures
            final(self).wf(),
            final(self).docs() == old(self).docs(),
            old(self).cursor() < old(self).docs().len() ==> r == Some(
                old(self).docs()[old(self).cursor() as int],
            ) && final(self).cursor() == old(self).cursor() + 1,
            old(self).cursor() >= old(self).docs().len() ==> r.is_none() && final(self).cursor()
                == old(self).cursor(),
            final(self).exhausted() == r.is_none(),
    {
        if self.doc_id < self.doc_ids.len() {
            let res = Some(self.doc_ids[self.doc_id]);
            self.doc_id += 1;
            res
        } else {
            self.exhausted = true;
            None
        }
    }

    /// Moves to the first id that is at least `target` and returns it;
    /// `None` where the list ends first. A list that stands on such an id
    /// already stays there and returns it again.
    pub fn skip_next(&mut self, target: u32) -> (r: Option<u32>)
        requires
            old(self).wf(),
        ensures
            final(self).wf(),
            final(self).docs() == old(self).docs(),
            final(self).exhausted() == r.is_none(),
            skip_pos(old(self).docs(), old(self).start(), target) < old(self).docs().len() ==> r
                == Some(old(self).docs()[skip_pos(old(self).docs(), old(self).start(), target)])
                && final(self).cursor() == skip_pos(old(self).docs(), old(self).start(), target) + 1,
            skip_pos(old(self).docs(), old(self).start(), target) >= old(self).docs().len()
                ==> r.is_none() && final(self).cursor() == old(self).docs().len(),
    {
        if !self.exhausted && self.doc_id > 0 {
            let current = self.doc_ids[self.doc_id - 1];
            if current >= target {
                return Some(current);
            }
            assert(skip_pos(self.docs(), self.cursor() - 1, target) == skip_pos(
                self.docs(),
                self.cursor() as int,
                target,
            ));
        }
        loop
            invariant
                self.wf(),
                self.docs() == old(self).docs(),
                skip_pos(self.docs(), self.cursor() as int, target) == skip_pos(
                    old(self).docs(),
                    old(self).start(),
                    target,
                ),
            decreases self.docs().len() - self.cursor(),
        {
            match self.next() {
                Some(val) => {
                    if val >= target {
                        return Some(val);
                    }
                },
                None => {
                    return None;
                },
            }
        }
    }

    /// The last id of the list, if it has one.
    pub fn last_doc(&self) -> (r: Option<u32>)
        ensures
            r == (if self.docs().len() > 0 {
                Some(self.docs().last())
            } else {
                None
            }),
    {
        let n = self.doc_ids.len();
        if n > 0 {
            Some(self.doc_ids[n - 1])
        } else {
            None
        }
    }

    /// Whether every id of the list is larger than the one before it.
    pub fn is_strictly_increasing(&self) -> (r: bool)
        ensures
            r == strictly_increasing(self.docs()),
    {
        let mut i: usize = 1;
        while i < self.doc_ids.len()
            invariant
                1 <= i,
                forall|a: int| 0 < a < i && a < self.doc_ids@.len() ==> self.doc_ids@[a - 1]
                    < #[trigger] self.doc_ids@[a],
            decreases self.doc_ids.len() - i,
        {
            if self.doc_ids[i - 1] >= self.doc_ids[i] {
                return false;
            }
            i += 1;
        }
        proof {
            lemma_adjacent_increasing(self.doc_ids@);
        }
        true
    }
}

/// Every id is larger than all ids before it.
pub open spec fn strictly_increasing(s: Seq<u32>) -> bool {
    forall|i: int, j: int| 0 <= i < j < s.len() ==> s[i] < s[j]
}

/// A list in which each id is larger than its neighbour before it is
/// strictly increasing.
pub proof fn lemma_adjacent_increasing(s: Seq<u32>)
    requires
        forall|a: int| 0 < a < s.len() ==> s[a - 1] < #[trigger] s[a],
    ensures
        strictly_increasing(s),
    decreases s.len(),
{
    if s.len() > 1 {
        let t = s.drop_last();
        assert forall|a: int| 0 < a < t.len() implies t[a - 1] < #[trigger] t[a] by {
            assert(s[a - 1] < s[a]);
        }
        lemma_adjacent_increasing(t);
        assert forall|i: int, j: int| 0 <= i < j < s.len() implies s[i] < s[j] by {
            let m = s.len() - 1;
            assert(s[m - 1] < s[m]);
            if j < m {
                assert(t[i] < t[j]);
            } else if i < m - 1 {
                assert(t[i] < t[m - 1]);
            }
        }
    }
}

/// A strictly increasing list of ids below `bound` holds `bound` ids at
/// most.
pub proof fn lemma_increasing_len(s: Seq<u32>, bound: int)
    requires
        strictly_increasing(s),
        forall|k: int| 0 <= k < s.len() ==> s[k] < bound,
    ensures
        s.len() <= bound || s.len() == 0,
    decreases s.len(),
{
    if s.len() > 0 {
        let t = s.drop_last();
        let last = s.len() - 1;
        assert forall|i: int, j: int| 0 <= i < j < t.len() implies t[i] < t[j] by {
            assert(s[i] < s[j]);
        }
        assert forall|k: int| 0 <= k < t.len() implies t[k] < s[last] by {
            assert(s[k] < s[last]);
        }
        lemma_increasing_len(t, s[last] as int);
    }
}

/// The first place from `from` on where `docs` holds an id that is at least
/// `target`; the length of `docs` where there is none.
pub open spec fn skip_pos(docs: Seq<u32>, from: int, target: u32) -> int
    decreases docs.len() - from,
{
    if from < 0 || from >= docs.len() {
        docs.len() as int
    } else if docs[from] >= target {
        from
    } else {
        skip_pos(docs, from + 1, target)
    }
}

/// What `skip_pos` finds: everything it passed over is below the target,
/// and what it stops at is not.
pub proof fn lemma_skip_pos(docs: Seq<u32>, from: int, target: u32)
    requires
        0 <= from <= docs.len(),
    ensures
        from <= skip_pos(docs, from, target) <= docs.len(),
        forall|j: int| from <= j < skip_pos(docs, from, target) ==> docs[j] < target,
        skip_pos(docs, from, target) < docs.len() ==> docs[skip_pos(docs, from, target)] >= target,
    decreases docs.len() - from,
{
    if from < docs.len() && docs[from] < target {
        lemma_skip_pos(docs, from + 1, target);
    }
}

/// Skipping twice on an increasing list, to targets that do not decrease,
/// gives results that do not decrease: where the first skip from `from`
/// stops at an id and the second, which starts at that id, stops at one
/// too, the second id is not below the first.
pub proof fn lemma_skip_monotone(docs: Seq<u32>, from: int, t1: u32, t2: u32)
    requires
        strictly_increasing(docs),
        0 <= from <= docs.len(),
        t1 <= t2,
        skip_pos(docs, from, t1) < docs.len(),
        skip_pos(docs, skip_pos(docs, from, t1), t2) < docs.len(),
    ensures
        docs[skip_pos(docs, from, t1)] <= docs[skip_pos(docs, skip_pos(docs, from, t1), t2)],
{
    lemma_skip_pos(docs, from, t1);
    lemma_skip_pos(docs, skip_pos(docs, from, t1), t2);
}

} // verus!
