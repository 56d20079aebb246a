//! Leap-frog intersection of posting lists.

use crate::postings::{lemma_skip_pos, skip_pos, strictly_increasing, SegmentPostings};
use vstd::prelude::*;

verus! {

/// `d` is among the ids that `p` has still to hand out.
pub open spec fn pending(p: SegmentPostings, d: u32) -> bool {
    exists|i: int| p.cursor() <= i < p.docs().len() && p.docs()[i] == d
}

/// There is at least one list, and `d` is still to come in every one.
pub open spec fn common(ps: Seq<SegmentPostings>, d: u32) -> bool {
    ps.len() > 0 && forall|l: int| 0 <= l < ps.len() ==> pending(#[trigger] ps[l], d)
}

/// Every list is well formed and strictly increasing.
pub open spec fn all_increasing(ps: Seq<SegmentPostings>) -> bool {
    forall|l: int|
        0 <= l < ps.len() ==> (#[trigger] ps[l]).wf() && strictly_increasing(ps[l].docs())
}

/// `after` holds the lists of `before`, none of them moved back.
pub open spec fn advanced(before: Seq<SegmentPostings>, after: Seq<SegmentPostings>) -> bool {
    &&& after.len() == before.len()
    &&& forall|l: int|
        0 <= l < before.len() ==> (#[trigger] after[l]).docs() == before[l].docs()
            && before[l].cursor() <= after[l].cursor()
}

/// Every list that has handed out an id stands below the next id of the
/// first list.
pub open spec fn behind(ps: Seq<SegmentPostings>) -> bool {
    forall|l: int|
        0 <= l < ps.len() && (#[trigger] ps[l]).cursor() > 0 && ps[0].cursor() < ps[0].docs().len()
            ==> ps[l].docs()[ps[l].cursor() - 1] < ps[0].docs()[ps[0].cursor() as int]
}

/// The ids that all of several posting lists hold, handed out in ascending
/// order.
pub struct IntersectionPostings {
    postings: Vec<SegmentPostings>,
    finished: bool,
}

impl IntersectionPostings {
    /// The lists, each with its cursor.
    pub closed spec fn lists(&self) -> Seq<SegmentPostings> {
        self.postings@
    }

    /// The end was reached: a call found no common id any more.
    pub closed spec fn finished(&self) -> bool {
        self.finished
    }

    /// Every list is well formed and strictly increasing; the lists stand
    /// behind the next id of the first, or nothing common is left.
    pub open spec fn wf(&self) -> bool {
        &&& all_increasing(self.lists())
        &&& if self.finished() {
            forall|e: u32| !common(self.lists(), e)
        } else {
            behind(self.lists())
        }
    }

    /// The intersection of the given lists.
    pub fn from_postings(postings: Vec<SegmentPostings>) -> (r: IntersectionPostings)
        requires
            all_increasing(postings@),
            behind(postings@),
        ensures
            r.wf(),
            r.lists() == postings@,
    {
        IntersectionPostings { postings, finished: false }
    }

    /// Hands out the smallest id that is still to come in every list, and
    /// moves every list behind it; `None` where no such id is left.
    pub fn next(&mut self) -> (r: Option<u32>)
        requires
            old(self).wf(),
        ensures
            final(self).wf(),
            advanced(old(self).lists(), final(self).lists()),
            match r {
                Some(d) => {
                    &&& common(old(self).lists(), d)
                    &&& forall|e: u32| common(old(self).lists(), e) ==> d <= e
                    &&& forall|e: u32|
                        common(final(self).lists(), e) <==> common(old(self).lists(), e) && d < e
                    &&& old(self).lists()[0].cursor() < final(self).lists()[0].cursor()
                },
                None => forall|e: u32|
                    !common(old(self).lists(), e) && !common(final(self).lists(), e),
            },
    {
        let k = self.postings.len();
        let ghost start = self.postings@;
        if k == 0 || self.finished {
            self.finished = true;
            return None;
        }
        let first = self.postings[0].next();
        let mut candidate: u32 = match first {
            Some(c) => c,
            None => {
                assert forall|e: u32| !common(start, e) && !common(self.postings@, e) by {
                    assert(!pending(start[0], e));
                    assert(!pending(self.postings@[0], e));
                }
                self.finished = true;
                return None;
            },
        };
        assert forall|l: int| 0 <= l < k && (#[trigger] start[l]).cursor() > 0 implies start[l].docs()[start[l].cursor()
            - 1] < candidate by {
            assert(start[0].wf());
        }
        let mut owner: usize = 0;
        let mut j: usize = 0;
        while j < k
            invariant
                start == old(self).lists(),
                k == self.postings@.len(),
                k > 0,
                all_increasing(start),
                all_increasing(self.postings@),
                advanced(start, self.postings@),
                owner < k,
                j <= k,
                forall|l: int|
                    0 <= l < k && (l < j || l == owner) ==> start[l].cursor() < (
                    #[trigger] self.postings@[l]).cursor() && self.postings@[l].docs()[self.postings@[l].cursor()
                        - 1] == candidate,
                forall|l: int, i: int|
                    0 <= l < k && !(l < j || l == owner) && start[l].cursor() <= i < (
                    #[trigger] self.postings@[l]).cursor() ==> #[trigger] start[l].docs()[i]
                        < candidate,
                forall|e: u32| common(start, e) ==> candidate <= e,
                forall|l: int|
                    0 <= l < k && (#[trigger] start[l]).cursor() > 0 ==> start[l].docs()[start[l].cursor()
                        - 1] < candidate,
                !self.finished,
            decreases u32::MAX - candidate, k - j,
        {
            if j != owner {
                let ghost before = self.postings@;
                proof {
                    let docs = start[j as int].docs();
                    let from = before[j as int].cursor() as int;
                    assert(before[j as int].wf());
                    assert(before[j as int].docs() == docs);
                    if from > 0 {
                        if from > start[j as int].cursor() {
                            assert(start[j as int].docs()[from - 1] < candidate);
                        }
                        assert(docs[from - 1] < candidate);
                    }
                    assert(skip_pos(docs, before[j as int].start(), candidate) == skip_pos(
                        docs,
                        from,
                        candidate,
                    ));
                }
                let r = self.postings[j].skip_next(candidate);
                proof {
                    let docs = start[j as int].docs();
                    let from = before[j as int].cursor() as int;
                    lemma_skip_pos(docs, from, candidate);
                    assert(self.postings@ =~= before.update(j as int, self.postings@[j as int]));
                    assert(all_increasing(self.postings@)) by {
                        assert forall|l: int| 0 <= l < k implies (
                        #[trigger] self.postings@[l]).wf() && strictly_increasing(
                            self.postings@[l].docs(),
                        ) by {
                            assert(before[l].wf());
                            assert(start[l].wf());
                        }
                    }
                    assert(advanced(start, self.postings@)) by {
                        assert forall|l: int| 0 <= l < k implies (
                        #[trigger] self.postings@[l]).docs() == start[l].docs()
                            && start[l].cursor() <= self.postings@[l].cursor() by {
                            assert(before[l].docs() == start[l].docs());
                        }
                    }
                }
                match r {
                    None => {
                        proof {
                            assert forall|e: u32|
                                !common(start, e) && !common(self.postings@, e) by {
                                if common(start, e) {
                                    assert(pending(start[j as int], e));
                                    let p = choose|p: int|
                                        start[j as int].cursor() <= p < start[j as int].docs().len()
                                            && start[j as int].docs()[p] == e;
                                    assert(before[j as int].docs() == start[j as int].docs());
                                    if p < before[j as int].cursor() {
                                        assert(start[j as int].docs()[p] < candidate);
                                    }
                                }
                                if common(self.postings@, e) {
                                    assert(pending(self.postings@[j as int], e));
                                }
                            }
                        }
                        self.finished = true;
                        return None;
                    },
                    Some(v) => {
                        if v > candidate {
                            proof {
                                let docs = start[j as int].docs();
                                let pos = skip_pos(docs, before[j as int].cursor() as int, candidate);
                                assert forall|e: u32| common(start, e) implies v <= e by {
                                    assert(pending(start[j as int], e));
                                    let p = choose|p: int|
                                        start[j as int].cursor() <= p < docs.len() && docs[p] == e;
                                    if p < before[j as int].cursor() {
                                        assert(docs[p] < candidate);
                                    }
                                    if p < pos {
                                        assert(docs[p] < candidate);
                                    }
                                }
                                assert forall|l: int, i: int|
                                    0 <= l < k && l != j && start[l].cursor() <= i < (
                                    #[trigger] self.postings@[l]).cursor() implies #[trigger] start[l].docs()[i]
                                        < v by {
                                    assert(before[l] == self.postings@[l]);
                                    assert(before[l].docs() == start[l].docs());
                                    if l < j || l == owner {
                                        let c = before[l].cursor() - 1;
                                        assert(start[l].docs()[c] == candidate);
                                        if i < c {
                                            assert(start[l].docs()[i] < start[l].docs()[c]);
                                        }
                                    }
                                }
                            }
                            candidate = v;
                            owner = j;
                            j = 0;
                        } else {
                            j += 1;
                        }
                    },
                }
            } else {
                j += 1;
            }
        }
        proof {
            let fin = self.postings@;
            assert(common(start, candidate)) by {
                assert forall|l: int| 0 <= l < k implies pending(#[trigger] start[l], candidate) by {
                    assert(fin[l].docs() == start[l].docs());
                    assert(fin[l].wf());
                    assert(start[l].docs()[fin[l].cursor() - 1] == candidate);
                }
            }
            assert forall|e: u32| common(fin, e) <==> common(start, e) && candidate < e by {
                if common(fin, e) {
                    assert forall|l: int| 0 <= l < k implies pending(#[trigger] start[l], e) by {
                        assert(pending(fin[l], e));
                        let p = choose|p: int|
                            fin[l].cursor() <= p < fin[l].docs().len() && fin[l].docs()[p] == e;
                        assert(start[l].docs()[p] == e);
                    }
                    assert(pending(fin[0], e));
                    let p = choose|p: int|
                        fin[0].cursor() <= p < fin[0].docs().len() && fin[0].docs()[p] == e;
                    assert(fin[0].docs()[fin[0].cursor() - 1] < fin[0].docs()[p]);
                }
                if common(start, e) && candidate < e {
                    assert forall|l: int| 0 <= l < k implies pending(#[trigger] fin[l], e) by {
                        assert(pending(start[l], e));
                        let p = choose|p: int|
                            start[l].cursor() <= p < start[l].docs().len() && start[l].docs()[p]
                                == e;
                        let c = fin[l].cursor() - 1;
                        assert(fin[l].docs() == start[l].docs());
                        assert(fin[l].docs()[c] == candidate);
                        if p < c {
                            assert(fin[l].docs()[p] < fin[l].docs()[c]);
                        }
                        assert(fin[l].docs()[p] == e);
                    }
                }
            }
            assert(behind(fin)) by {
                assert forall|l: int|
                    0 <= l < fin.len() && (#[trigger] fin[l]).cursor() > 0 && fin[0].cursor()
                        < fin[0].docs().len() implies fin[l].docs()[fin[l].cursor() - 1]
                    < fin[0].docs()[fin[0].cursor() as int] by {
                    assert(fin[l].docs()[fin[l].cursor() - 1] == candidate);
                    assert(fin[0].docs()[fin[0].cursor() - 1] == candidate);
                    assert(fin[0].wf() && strictly_increasing(fin[0].docs()));
                }
            }
        }
        Some(candidate)
    }

    /// Hands out every id that is left, in order.
    pub fn collect(&mut self) -> (out: Vec<u32>)
        requires
            old(self).wf(),
        ensures
            final(self).wf(),
            strictly_increasing(out@),
            forall|e: u32| out@.contains(e) <==> common(old(self).lists(), e),
    {
        let mut out: Vec<u32> = Vec::new();
        let ghost start = self.postings@;
        loop
            invariant
                start == old(self).lists(),
                self.wf(),
                strictly_increasing(out@),
                forall|e: u32, i: int| common(self.lists(), e) && 0 <= i < out@.len() ==> out@[i] < e,
                forall|e: u32| common(start, e) <==> out@.contains(e) || common(self.lists(), e),
            decreases
                    if self.lists().len() > 0 {
                        self.lists()[0].docs().len() - self.lists()[0].cursor()
                    } else {
                        0
                    },
        {
            let ghost before = self.postings@;
            let ghost prev = out@;
            match self.next() {
                Some(d) => {
                    out.push(d);
                    proof {
                        assert(before.len() > 0);
                        assert(self.lists()[0].wf());
                        assert forall|e: u32| common(start, e) <==> out@.contains(e) || common(
                            self.lists(),
                            e,
                        ) by {
                            assert(out@[prev.len() as int] == d);
                            if prev.contains(e) {
                                let i = choose|i: int| 0 <= i < prev.len() && prev[i] == e;
                                assert(out@[i] == e);
                            }
                            if out@.contains(e) && e != d {
                                let i = choose|i: int| 0 <= i < out@.len() && out@[i] == e;
                                assert(prev[i] == e);
                            }
                        }
                    }
                },
                None => {
                    return out;
                },
            }
        }
    }
}

/// The intersection is what a plain search for the ids that every list
/// holds gives, in ascending order: an id comes out if and only if each of
/// the lists holds it, and each comes out once.
pub proof fn lemma_intersection_is_set_intersection(
    ps: Seq<SegmentPostings>,
    out: Seq<u32>,
    e: u32,
)
    requires
        ps.len() > 0,
        forall|l: int| 0 <= l < ps.len() ==> (#[trigger] ps[l]).cursor() == 0,
        forall|d: u32| out.contains(d) <==> common(ps, d),
    ensures
        out.contains(e) <==> forall|l: int| 0 <= l < ps.len() ==> (#[trigger] ps[l]).docs().contains(e),
{
    if out.contains(e) {
        assert forall|l: int| 0 <= l < ps.len() implies (#[trigger] ps[l]).docs().contains(e) by {
            assert(pending(ps[l], e));
        }
    }
    if forall|l: int| 0 <= l < ps.len() ==> (#[trigger] ps[l]).docs().contains(e) {
        assert forall|l: int| 0 <= l < ps.len() implies pending(#[trigger] ps[l], e) by {
            assert(ps[l].docs().contains(e));
            let i = choose|i: int| 0 <= i < ps[l].docs().len() && ps[l].docs()[i] == e;
            assert(ps[l].cursor() <= i);
        }
    }
}

} // verus!
