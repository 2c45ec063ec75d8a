//! An immutable, already-built index segment: a vocabulary with one
//! posting stream per term, a per-document field-norm table, and the
//! field's indexing capabilities.
//!
//! Building segments is a collaborator's concern; a segment enters this
//! library only through the validating constructor, so every scorer can
//! rely on its invariants.

use vstd::prelude::*;

use crate::postings::{
    entries_no_positions, entries_sorted, entries_with_positions, entries_wf, entry_ok, GPosting,
    positions_sorted, PostingEntry, PostingList,
};
use crate::term::{same_term, term_eq, Term};

verus! {

/// One segment's data, as consumed by query execution.
pub struct Segment {
    pub field: u32,
    pub field_name: String,
    pub positions_indexed: bool,
    pub postings: Vec<PostingList>,
    pub norms: Vec<u8>,
}

/// One posting list is acceptable for a segment with the given field,
/// document count, and position-indexing capability.
pub open spec fn list_ok(l: PostingList, field: u32, doc_count: nat, pi: bool) -> bool {
    &&& l.term.field == field
    &&& l.entries@.len() >= 1
    &&& entries_wf(l.entries.deep_view(), doc_count)
    &&& (pi ==> entries_with_positions(l.entries.deep_view()))
    &&& (!pi ==> entries_no_positions(l.entries.deep_view()))
}

/// The well-formedness of a segment's parts: every list acceptable, no two
/// lists for the same term, and document ids representable.
pub open spec fn segment_parts_wf(
    field: u32,
    postings: Seq<PostingList>,
    norms: Seq<u8>,
    pi: bool,
) -> bool {
    &&& norms.len() <= u32::MAX as nat
    &&& forall|i: int| 0 <= i < postings.len() ==> list_ok(#[trigger] postings[i], field, norms.len(), pi)
    &&& forall|i: int, j: int|
        0 <= i < j < postings.len() ==> !same_term(postings[i].term, postings[j].term)
}

impl Segment {
    /// The number of documents in the segment.
    pub open spec fn doc_count(self) -> nat {
        self.norms@.len()
    }

    pub open spec fn wf(self) -> bool {
        segment_parts_wf(self.field, self.postings@, self.norms@, self.positions_indexed)
    }

    /// The term is present in the segment's vocabulary.
    pub open spec fn has_term(self, t: Term) -> bool {
        exists|i: int|
            0 <= i < self.postings@.len() && same_term((#[trigger] self.postings@[i]).term, t)
    }

    /// The index of the term's posting list (meaningful when present).
    pub open spec fn term_index(self, t: Term) -> int {
        choose|i: int|
            0 <= i < self.postings@.len() && same_term((#[trigger] self.postings@[i]).term, t)
    }

    /// The term's posting stream; empty when the term is absent from the
    /// vocabulary (the distinct "no postings" state).
    pub open spec fn postings_of(self, t: Term) -> Seq<GPosting> {
        if self.has_term(t) {
            self.postings@[self.term_index(t)].entries.deep_view()
        } else {
            Seq::empty()
        }
    }

    /// The term's document frequency: in how many documents it occurs.
    pub open spec fn doc_freq(self, t: Term) -> nat {
        self.postings_of(t).len()
    }

    /// Any list whose term equals `t` is the list of `t`.
    pub proof fn lemma_term_index(self, t: Term, i: int)
        requires
            self.wf(),
            0 <= i < self.postings@.len(),
            same_term(self.postings@[i].term, t),
        ensures
            self.has_term(t),
            self.term_index(t) == i,
            self.postings_of(t) == self.postings@[i].entries.deep_view(),
    {
        assert(self.has_term(t));
        let i0 = self.term_index(t);
        if i0 != i {
            assert(same_term(self.postings@[i0].term, self.postings@[i].term));
            if i0 < i {
                assert(!same_term(self.postings@[i0].term, self.postings@[i].term));
            } else {
                assert(!same_term(self.postings@[i].term, self.postings@[i0].term));
            }
        }
    }

    /// A present term's posting stream is well formed and non-empty.
    pub proof fn lemma_postings_of_wf(self, t: Term)
        requires
            self.wf(),
            self.has_term(t),
        ensures
            entries_wf(self.postings_of(t), self.doc_count()),
            self.postings_of(t).len() >= 1,
            self.positions_indexed ==> entries_with_positions(self.postings_of(t)),
            !self.positions_indexed ==> entries_no_positions(self.postings_of(t)),
    {
        let i = self.term_index(t);
        assert(list_ok(self.postings@[i], self.field, self.norms@.len() as nat,
            self.positions_indexed));
        assert(self.postings@[i].entries.deep_view().len() == self.postings@[i].entries@.len());
    }

    /// Look a term up in the segment's vocabulary: the index of its posting
    /// list, or the explicit "absent" signal.
    pub fn lookup(&self, t: &Term) -> (r: Option<usize>)
        requires
            self.wf(),
        ensures
            match r {
                Some(i) => i < self.postings@.len() && same_term(self.postings@[i as int].term, *t)
                    && self.has_term(*t) && self.term_index(*t) == i as int && self.postings_of(*t)
                    == self.postings@[i as int].entries.deep_view(),
                None => !self.has_term(*t),
            },
    {
        let mut i: usize = 0;
        while i < self.postings.len()
            invariant
                self.wf(),
                i <= self.postings@.len(),
                forall|i2: int|
                    0 <= i2 < i ==> !same_term((#[trigger] self.postings@[i2]).term, *t),
            decreases self.postings@.len() - i,
        {
            if term_eq(&self.postings[i].term, t) {
                proof {
                    self.lemma_term_index(*t, i as int);
                }
                return Some(i);
            }
            i += 1;
        }
        None
    }

    /// Validate raw parts into a segment: accepted exactly when the parts
    /// satisfy every segment invariant.
    pub fn new(
        field: u32,
        field_name: String,
        positions_indexed: bool,
        postings: Vec<PostingList>,
        norms: Vec<u8>,
    ) -> (r: Option<Segment>)
        ensures
            match r {
                Some(seg) => seg.wf() && seg.field == field && seg.field_name == field_name
                    && seg.positions_indexed == positions_indexed && seg.postings == postings
                    && seg.norms == norms,
                None => !segment_parts_wf(field, postings@, norms@, positions_indexed),
            },
    {
        if norms.len() > u32::MAX as usize {
            return None;
        }
        let mut i: usize = 0;
        while i < postings.len()
            invariant
                i <= postings@.len(),
                norms@.len() <= u32::MAX as nat,
                forall|i2: int|
                    0 <= i2 < i ==> list_ok(
                        #[trigger] postings@[i2],
                        field,
                        norms@.len() as nat,
                        positions_indexed,
                    ),
                forall|a: int, b: int|
                    0 <= a < b < i ==> !same_term(postings@[a].term, postings@[b].term),
            decreases postings@.len() - i,
        {
            if !check_list(&postings[i], field, norms.len(), positions_indexed) {
                return None;
            }
            let mut j: usize = 0;
            while j < i
                invariant
                    j <= i < postings@.len(),
                    forall|j2: int|
                        0 <= j2 < j ==> !same_term(
                            (#[trigger] postings@[j2]).term,
                            postings@[i as int].term,
                        ),
                    forall|a: int, b: int|
                        0 <= a < b < i ==> !same_term(postings@[a].term, postings@[b].term),
                decreases i - j,
            {
                if term_eq(&postings[j].term, &postings[i].term) {
                    return None;
                }
                j += 1;
            }
            i += 1;
        }
        Some(Segment { field, field_name, positions_indexed, postings, norms })
    }
}

/// Validate one posting list: non-empty, strictly sorted by document id,
/// documents in range, frequencies positive, positions strictly increasing
/// and consistent with the segment's position-indexing capability.
fn check_list(l: &PostingList, field: u32, doc_count: usize, pi: bool) -> (r: bool)
    ensures
        r == list_ok(*l, field, doc_count as nat, pi),
{
    if l.term.field != field {
        return false;
    }
    if l.entries.len() == 0 {
        return false;
    }
    let ghost es = l.entries.deep_view();
    let mut i: usize = 0;
    while i < l.entries.len()
        invariant
            es == l.entries.deep_view(),
            i <= es.len(),
            es.len() == l.entries@.len(),
            forall|i2: int| 0 <= i2 < i ==> entry_ok(#[trigger] es[i2], doc_count as nat),
            forall|i2: int| 0 <= i2 < i && i2 + 1 < es.len() ==> (#[trigger] es[i2]).doc < es[i2 + 1].doc,
            forall|i2: int|
                0 <= i2 < i ==> (pi ==> (#[trigger] es[i2]).positions.len() == es[i2].term_freq)
                    && (!pi ==> es[i2].positions.len() == 0),
        decreases es.len() - i,
    {
        let e = &l.entries[i];
        proof {
            assert(es[i as int] == l.entries@[i as int].deep_view());
        }
        if (e.doc as usize) >= doc_count {
            proof {
                assert(!entry_ok(es[i as int], doc_count as nat));
            }
            return false;
        }
        if e.term_freq < 1 {
            proof {
                assert(!entry_ok(es[i as int], doc_count as nat));
            }
            return false;
        }
        if i + 1 < l.entries.len() && l.entries[i + 1].doc <= e.doc {
            proof {
                assert(es[i as int + 1] == l.entries@[i as int + 1].deep_view());
                if entries_sorted(es) {
                    assert(es[i as int].doc < es[i as int + 1].doc);
                }
            }
            return false;
        }
        if pi {
            if e.positions.len() as u64 != e.term_freq {
                proof {
                    if entries_with_positions(es) {
                        assert(es[i as int].positions.len() == es[i as int].term_freq);
                    }
                }
                return false;
            }
        } else {
            if e.positions.len() != 0 {
                proof {
                    if entries_no_positions(es) {
                        assert(es[i as int].positions.len() == 0);
                    }
                }
                return false;
            }
        }
        let mut q: usize = 1;
        while q < e.positions.len()
            invariant
                e == l.entries@[i as int],
                es == l.entries.deep_view(),
                es[i as int] == l.entries@[i as int].deep_view(),
                i < es.len(),
                1 <= q,
                q <= e.positions@.len() || q == 1,
                forall|q2: int| 1 <= q2 < q ==> e.positions@[q2 - 1] < (#[trigger] e.positions@[q2]),
            decreases e.positions@.len() - q,
        {
            if e.positions[q] <= e.positions[q - 1] {
                proof {
                    if positions_sorted(e.positions@) {
                        assert(e.positions@[q as int - 1] < e.positions@[q as int]);
                    }
                    assert(!entry_ok(es[i as int], doc_count as nat));
                }
                return false;
            }
            q += 1;
        }
        proof {
            assert forall|a: int, b: int|
                0 <= a < b < e.positions@.len() implies e.positions@[a] < e.positions@[b] by {
                lemma_sorted_u32_pair(e.positions@, a, b);
            }
            assert(positions_sorted(e.positions@));
            assert(es[i as int].positions == e.positions@);
            assert(entry_ok(es[i as int], doc_count as nat));
        }
        i += 1;
    }
    proof {
        lemma_sorted_docs_from_adjacent(es);
    }
    true
}

proof fn lemma_sorted_u32_pair(ps: Seq<u32>, a: int, b: int)
    requires
        forall|q: int| 1 <= q < ps.len() ==> ps[q - 1] < (#[trigger] ps[q]),
        0 <= a < b < ps.len(),
    ensures
        ps[a] < ps[b],
    decreases b - a,
{
    if a + 1 < b {
        lemma_sorted_u32_pair(ps, a, b - 1);
    }
}

/// A stream whose adjacent documents increase is strictly sorted.
proof fn lemma_sorted_docs_from_adjacent(es: Seq<GPosting>)
    requires
        forall|i: int| 0 <= i && i + 1 < es.len() ==> (#[trigger] es[i]).doc < es[i + 1].doc,
    ensures
        entries_sorted(es),
{
    assert forall|a: int, b: int| 0 <= a < b < es.len() implies es[a].doc < es[b].doc by {
        lemma_sorted_docs_pair(es, a, b);
    }
}

proof fn lemma_sorted_docs_pair(es: Seq<GPosting>, a: int, b: int)
    requires
        forall|i: int| 0 <= i && i + 1 < es.len() ==> (#[trigger] es[i]).doc < es[i + 1].doc,
        0 <= a < b < es.len(),
    ensures
        es[a].doc < es[b].doc,
    decreases b - a,
{
    if a + 1 < b {
        lemma_sorted_docs_pair(es, a, b - 1);
    }
}

} // verus!
