//! Scoring of phrase matches: synchronizes one posting stream per phrase
//! term to a common document (a leapfrog join) and verifies positional
//! adjacency there.
//!
//! The scorer repeatedly takes the largest current document id across the
//! streams and skips every other stream to it; when all streams land on the
//! same document, the position lists are intersected with per-term offsets
//! to count exact phrase occurrences.  A candidate with no occurrence is
//! skipped silently; any stream reaching its end exhausts the scorer.

use vstd::prelude::*;

use crate::postings::{
    aligned_at, all_at_doc, all_contain, all_streams_wf, below_cursors, contains_pos,
    contains_pos_spec, cursors_bounded, doc_in, entry_ok, GPosting, idx_of, lemma_idx_at,
    lemma_no_doc_between, lemma_streams_view, lists_at_cursors, no_phrase_match_from, no_phrase_match_in,
    phrase_count, phrase_count_upto, phrase_freq_of, phrase_lists, phrase_match, positions_in,
    PostingEntry, seek,
};
use crate::score::{score_spec, score_value, SCORE_SCALE};

verus! {

/// A scorer over the posting streams of a phrase's terms, in phrase order.
pub struct PhraseScorer {
    pub idf: u64,
    pub streams: Vec<Vec<PostingEntry>>,
    pub cursors: Vec<usize>,
    pub norms: Vec<u8>,
    pub started: bool,
    pub done: bool,
    pub cur_freq: u64,
}

impl PhraseScorer {
    /// The mathematical content of the streams, in phrase order.
    pub open spec fn sview(self) -> Seq<Seq<GPosting>> {
        self.streams.deep_view()
    }

    /// The streams are sorted, in range, and few enough for offset and idf
    /// arithmetic.
    pub open spec fn streams_wf(self) -> bool {
        &&& 1 <= self.streams@.len()
        &&& self.streams@.len() * (SCORE_SCALE as int) <= u64::MAX as int
        &&& self.norms@.len() <= u32::MAX as nat
        &&& all_streams_wf(self.streams.deep_view(), self.norms@.len() as nat)
    }

    /// The document the cursor rests on (meaningful when active).
    pub open spec fn cur_doc(self) -> u32 {
        self.streams.deep_view()[0][self.cursors@[0] as int].doc
    }

    /// The phrase frequency in document `d`.
    pub open spec fn freq_at(self, d: u32) -> nat {
        phrase_freq_of(self.streams.deep_view(), d)
    }

    /// A document matches when every stream contains it and at least one
    /// full phrase occurrence exists there.
    pub open spec fn matches(self, d: u32) -> bool {
        phrase_match(self.streams.deep_view(), d)
    }

    /// The score of a matching document: the summed idf of the phrase's
    /// terms scaled by the length-normalized phrase frequency.
    pub open spec fn score_at(self, d: u32) -> int {
        score_spec(self.idf as int, self.freq_at(d) as int, self.norms@[d as int] as int)
    }

    pub open spec fn is_unstarted(self) -> bool {
        !self.started
    }

    pub open spec fn is_active(self) -> bool {
        self.started && !self.done
    }

    pub open spec fn is_exhausted(self) -> bool {
        self.started && self.done
    }

    /// When active, every cursor rests on the current document, the current
    /// document matches, and the cached phrase frequency is exact.
    pub open spec fn active_ok(self) -> bool {
        &&& all_at_doc(
            self.streams.deep_view(),
            self.cursors@,
            self.cur_doc(),
            0,
            self.streams@.len() as int,
        )
        &&& below_cursors(
            self.streams.deep_view(),
            self.cursors@,
            self.cur_doc(),
            0,
            self.streams@.len() as int,
        )
        &&& phrase_match(self.streams.deep_view(), self.cur_doc())
        &&& self.cur_freq as nat == phrase_freq_of(self.streams.deep_view(), self.cur_doc())
    }

    /// Structural well-formedness, in every protocol state.
    pub open spec fn swf(self) -> bool {
        &&& self.streams_wf()
        &&& cursors_bounded(self.streams.deep_view(), self.cursors@)
        &&& (!self.started ==> !self.done && self.cursors@ =~= Seq::new(
            self.cursors@.len(),
            |i: int| 0usize,
        ))
        &&& (self.is_active() ==> self.active_ok())
    }

    /// The least document id that a future advance may still report.
    pub open spec fn threshold(self) -> int {
        if !self.started {
            0
        } else if !self.done {
            self.cur_doc() as int + 1
        } else {
            self.norms@.len() as int
        }
    }

    /// A fresh, unstarted scorer over the given streams.
    pub fn new(streams: Vec<Vec<PostingEntry>>, norms: Vec<u8>, idf: u64) -> (s: PhraseScorer)
        requires
            1 <= streams@.len(),
            streams@.len() * (SCORE_SCALE as int) <= u64::MAX as int,
            norms@.len() <= u32::MAX as nat,
            all_streams_wf(streams.deep_view(), norms@.len() as nat),
        ensures
            s.swf(),
            s.is_unstarted(),
            s.streams == streams,
            s.norms == norms,
            s.idf == idf,
    {
        let k = streams.len();
        let mut cursors: Vec<usize> = Vec::new();
        while cursors.len() < k
            invariant
                cursors@.len() <= k,
                forall|i: int| 0 <= i < cursors@.len() ==> cursors@[i] == 0,
            decreases k - cursors@.len(),
        {
            cursors.push(0);
        }
        proof {
            assert(cursors@ =~= Seq::new(cursors@.len(), |i: int| 0usize));
        }
        PhraseScorer { idf, streams, cursors, norms, started: false, done: false, cur_freq: 0 }
    }

    /// Count the phrase occurrences in the document all cursors rest on, by
    /// walking the first term's positions and probing each other stream's
    /// list at the corresponding offset.
    fn phrase_freq_here(&self) -> (f: u64)
        requires
            self.streams_wf(),
            self.cursors@.len() == self.streams@.len(),
            forall|i: int|
                0 <= i < self.streams@.len() ==> self.cursors@[i] < (
                #[trigger] self.streams.deep_view()[i]).len(),
        ensures
            f as nat == phrase_count(lists_at_cursors(self.streams.deep_view(), self.cursors@)),
    {
        let ghost dv = self.streams.deep_view();
        let ghost cs = self.cursors@;
        let ghost lists = lists_at_cursors(dv, cs);
        proof {
            lemma_streams_view(&self.streams);
            assert(dv[0] == self.streams@[0].deep_view());
            assert(dv[0].len() == self.streams@[0]@.len());
        }
        let k = self.streams.len();
        let first = &self.streams[0][self.cursors[0]].positions;
        proof {
            assert(lists[0] == first@);
        }
        let mut count: u64 = 0;
        let mut j: usize = 0;
        while j < first.len()
            invariant
                self.streams_wf(),
                dv == self.streams.deep_view(),
                cs == self.cursors@,
                lists == lists_at_cursors(dv, cs),
                cs.len() == dv.len(),
                forall|i: int| 0 <= i < dv.len() ==> cs[i] < (#[trigger] dv[i]).len(),
                k == dv.len(),
                first@ == lists[0],
                j <= first@.len(),
                count <= j,
                count as nat == phrase_count_upto(lists, j as int),
            decreases first@.len() - j,
        {
            proof {
                lemma_streams_view(&self.streams);
            }
            let p = first[j];
            let mut ok = true;
            let mut i: usize = 1;
            while i < k
                invariant
                    self.streams_wf(),
                    dv == self.streams.deep_view(),
                    cs == self.cursors@,
                    lists == lists_at_cursors(dv, cs),
                    cs.len() == dv.len(),
                    forall|i2: int| 0 <= i2 < dv.len() ==> cs[i2] < (#[trigger] dv[i2]).len(),
                    k == dv.len(),
                    1 <= i <= k,
                    p == lists[0][j as int],
                    j < lists[0].len(),
                    ok == forall|i2: int|
                        1 <= i2 < i ==> contains_pos_spec(#[trigger] lists[i2], p as int + i2),
                decreases k - i,
            {
                proof {
                    lemma_streams_view(&self.streams);
                    assert(dv[i as int] == self.streams@[i as int].deep_view());
                    assert(dv[i as int].len() == self.streams@[i as int]@.len());
                    assert(i as int * (SCORE_SCALE as int) < k as int * (SCORE_SCALE as int))
                        by (nonlinear_arith)
                        requires
                            0 <= i as int && (i as int) < k as int,
                    ;
                }
                let q: u64 = p as u64 + i as u64;
                let probe = contains_pos(&self.streams[i][self.cursors[i]].positions, q);
                proof {
                    assert(lists[i as int] == dv[i as int][cs[i as int] as int].positions);
                }
                if !probe {
                    ok = false;
                }
                i += 1;
            }
            proof {
                if ok {
                    assert(contains_pos_spec(lists[0], p as int + 0)) by {
                        assert(lists[0][j as int] == p);
                    }
                    assert(aligned_at(lists, p));
                } else {
                    let i2 = choose|i2: int|
                        1 <= i2 < k && !contains_pos_spec(#[trigger] lists[i2], p as int + i2);
                    assert(!aligned_at(lists, p));
                }
                assert(phrase_count_upto(lists, j as int + 1) == phrase_count_upto(
                    lists,
                    j as int,
                ) + (if aligned_at(lists, lists[0][j as int]) {
                    1nat
                } else {
                    0nat
                }));
            }
            if ok {
                count += 1;
            }
            j += 1;
        }
        proof {
            assert(lists[0].len() == first@.len());
        }
        count
    }

    /// Find the first matching document at or above `target`, advancing all
    /// cursors; report exhaustion when some stream runs out first.
    fn advance_from(&mut self, target: u32) -> (found: bool)
        requires
            old(self).streams_wf(),
            cursors_bounded(old(self).streams.deep_view(), old(self).cursors@),
            below_cursors(
                old(self).streams.deep_view(),
                old(self).cursors@,
                target,
                0,
                old(self).streams@.len() as int,
            ),
        ensures
            final(self).swf(),
            final(self).started,
            final(self).streams == old(self).streams,
            final(self).norms == old(self).norms,
            final(self).idf == old(self).idf,
            final(self).cursors@.len() == old(self).cursors@.len(),
            found == final(self).is_active(),
            !found ==> final(self).is_exhausted(),
            found ==> target <= final(self).cur_doc() && final(self).matches(final(self).cur_doc()),
            found ==> no_phrase_match_in(
                old(self).streams.deep_view(),
                target as int,
                final(self).cur_doc() as int,
            ),
            !found ==> no_phrase_match_from(old(self).streams.deep_view(), target as int),
    {
        let ghost dv = old(self).streams.deep_view();
        self.started = true;
        proof {
            lemma_streams_view(&self.streams);
        }
        let k = self.streams.len();
        let mut t: u32 = target;
        loop
            invariant
                self.streams == old(self).streams,
                self.norms == old(self).norms,
                self.idf == old(self).idf,
                self.started,
                self.streams_wf(),
                dv == self.streams.deep_view(),
                k == dv.len(),
                cursors_bounded(dv, self.cursors@),
                self.cursors@.len() == old(self).cursors@.len(),
                below_cursors(dv, self.cursors@, t, 0, k as int),
                target <= t,
                no_phrase_match_in(dv, target as int, t as int),
            decreases u32::MAX as int + 1 - t as int,
        {
            proof {
                lemma_streams_view(&self.streams);
                assert(dv[0] == self.streams@[0].deep_view());
                assert(dv[0].len() == self.streams@[0]@.len());
            }
            let c0 = seek(&self.streams[0], self.cursors[0], t);
            self.cursors[0] = c0;
            if c0 == self.streams[0].len() {
                self.done = true;
                proof {
                    assert forall|e: u32| target as int <= e as int implies !phrase_match(dv, e) by {
                        if t <= e {
                            if phrase_match(dv, e) {
                                assert(doc_in(dv[0], e));
                                let j = idx_of(dv[0], e);
                                assert(dv[0][j].doc < t);
                            }
                        } else {
                            assert(!phrase_match(dv, e));
                        }
                    }
                }
                return false;
            }
            let cand: u32 = self.streams[0][c0].doc;
            proof {
                assert forall|e: u32| t as int <= e as int && (e as int) < cand as int implies !doc_in(
                    dv[0],
                    e,
                ) by {
                    lemma_no_doc_between(dv[0], c0 as int, t, cand, e);
                }
            }
            let mut i: usize = 1;
            let mut bumped = false;
            let mut newt: u32 = cand;
            while i < k && !bumped
                invariant
                    self.streams == old(self).streams,
                    self.norms == old(self).norms,
                    self.idf == old(self).idf,
                    self.started,
                    self.streams_wf(),
                    dv == self.streams.deep_view(),
                    k == dv.len(),
                    cursors_bounded(dv, self.cursors@),
                    self.cursors@.len() == old(self).cursors@.len(),
                    1 <= i <= k,
                    self.cursors@[0] == c0,
                    c0 < dv[0].len(),
                    dv[0][c0 as int].doc == cand,
                    below_cursors(dv, self.cursors@, t, 0, 1),
                    t <= cand,
                    target <= t,
                    no_phrase_match_in(dv, target as int, t as int),
                    forall|e: u32| t as int <= e as int && (e as int) < cand as int ==> !doc_in(dv[0], e),
                    !bumped ==> newt == cand,
                    !bumped ==> all_at_doc(dv, self.cursors@, cand, 1, i as int),
                    !bumped ==> below_cursors(dv, self.cursors@, cand, 1, i as int),
                    !bumped ==> below_cursors(dv, self.cursors@, t, i as int, k as int),
                    bumped ==> cand < newt,
                    bumped ==> forall|e: u32|
                        cand as int <= e as int && (e as int) < newt as int ==> !phrase_match(dv, e),
                    bumped ==> below_cursors(dv, self.cursors@, newt, 0, k as int),
                decreases k - i,
            {
                proof {
                    lemma_streams_view(&self.streams);
                    assert(dv[i as int] == self.streams@[i as int].deep_view());
                    assert(dv[i as int].len() == self.streams@[i as int]@.len());
                }
                let ci = seek(&self.streams[i], self.cursors[i], cand);
                self.cursors[i] = ci;
                if ci == self.streams[i].len() {
                    self.done = true;
                    proof {
                        assert forall|e: u32| target as int <= e as int implies !phrase_match(
                            dv,
                            e,
                        ) by {
                            if cand <= e {
                                if phrase_match(dv, e) {
                                    assert(doc_in(dv[i as int], e));
                                    let j = idx_of(dv[i as int], e);
                                    assert(dv[i as int][j].doc < cand);
                                }
                            } else if t <= e {
                                if phrase_match(dv, e) {
                                    assert(doc_in(dv[0], e));
                                }
                            } else {
                                assert(!phrase_match(dv, e));
                            }
                        }
                    }
                    return false;
                }
                let d = self.streams[i][ci].doc;
                if d > cand {
                    proof {
                        assert forall|e: u32| cand as int <= e as int && (e as int) < d as int implies
                            !phrase_match(dv, e) by {
                            lemma_no_doc_between(dv[i as int], ci as int, cand, d, e);
                            if phrase_match(dv, e) {
                                assert(doc_in(dv[i as int], e));
                            }
                        }
                    }
                    newt = d;
                    bumped = true;
                }
                i += 1;
            }
            if bumped {
                proof {
                    assert forall|e: u32| target as int <= e as int && (e as int) < newt as int implies
                        !phrase_match(dv, e) by {
                        if e < t {
                        } else if e < cand {
                            if phrase_match(dv, e) {
                                assert(doc_in(dv[0], e));
                            }
                        }
                    }
                }
                t = newt;
            } else {
                proof {
                    assert(all_at_doc(dv, self.cursors@, cand, 0, k as int));
                }
                let f = self.phrase_freq_here();
                proof {
                    assert forall|i2: int| 0 <= i2 < k implies positions_in(dv[i2], cand) == dv[i2][self.cursors@[i2] as int].positions by {
                        lemma_idx_at(dv[i2], self.cursors@[i2] as int);
                    }
                    assert(phrase_lists(dv, cand) =~= lists_at_cursors(dv, self.cursors@));
                    assert(f as nat == phrase_freq_of(dv, cand));
                }
                if f >= 1 {
                    self.done = false;
                    self.cur_freq = f;
                    proof {
                        assert(self.cur_doc() == cand);
                        assert forall|i2: int| 0 <= i2 < k implies doc_in(
                            #[trigger] dv[i2],
                            cand,
                        ) by {
                            lemma_idx_at(dv[i2], self.cursors@[i2] as int);
                        }
                        assert(all_contain(dv, cand));
                        assert(phrase_match(dv, cand));
                        assert forall|e: u32| target as int <= e as int && (e as int) < cand as int implies
                            !phrase_match(dv, e) by {
                            if t <= e {
                                if phrase_match(dv, e) {
                                    assert(doc_in(dv[0], e));
                                }
                            }
                        }
                        assert(no_phrase_match_in(dv, target as int, cand as int));
                    }
                    return true;
                }
                proof {
                    assert(!phrase_match(dv, cand));
                    assert(entry_ok(dv[0][c0 as int], self.norms@.len() as nat));
                    assert forall|e: u32| target as int <= e as int && (e as int) < cand as int + 1 implies
                        !phrase_match(dv, e) by {
                        if t <= e && e < cand {
                            if phrase_match(dv, e) {
                                assert(doc_in(dv[0], e));
                            }
                        }
                    }
                }
                t = cand + 1;
            }
        }
    }

    /// Move to the next matching document strictly after the current one
    /// (or to the first, on the first call); report exhaustion when none is
    /// left.  Callable repeatedly after exhaustion.
    pub fn advance(&mut self) -> (found: bool)
        requires
            old(self).swf(),
        ensures
            final(self).swf(),
            final(self).started,
            final(self).streams == old(self).streams,
            final(self).norms == old(self).norms,
            final(self).idf == old(self).idf,
            found == final(self).is_active(),
            !found ==> final(self).is_exhausted(),
            found ==> final(self).matches(final(self).cur_doc()) && old(self).threshold()
                <= final(self).cur_doc() as int,
            found ==> forall|e: u32|
                old(self).threshold() <= e < final(self).cur_doc() ==> !final(self).matches(e),
            !found ==> forall|e: u32|
                old(self).threshold() <= e as int ==> !final(self).matches(e),
    {
        let ghost dv = self.streams.deep_view();
        proof {
            lemma_streams_view(&self.streams);
            assert(dv[0] == self.streams@[0].deep_view());
            assert(dv[0].len() == self.streams@[0]@.len());
        }
        if self.started {
            if self.done {
                proof {
                    assert forall|e: u32| self.threshold() <= e as int implies !phrase_match(
                        dv,
                        e,
                    ) by {
                        if phrase_match(dv, e) {
                            assert(doc_in(dv[0], e));
                            let j = idx_of(dv[0], e);
                            assert(entry_ok(dv[0][j], self.norms@.len() as nat));
                        }
                    }
                }
                return false;
            }
            let cur = self.streams[0][self.cursors[0]].doc;
            proof {
                assert(entry_ok(dv[0][self.cursors@[0] as int], self.norms@.len() as nat));
                assert(below_cursors(dv, self.cursors@, (cur + 1) as u32, 0, self.streams@.len() as int));
            }
            let r = self.advance_from(cur + 1);
            proof {
                if r {
                    assert forall|e: u32|
                        old(self).threshold() <= e < self.cur_doc() implies !self.matches(e) by {
                        assert(!phrase_match(dv, e));
                    }
                } else {
                    assert forall|e: u32| old(self).threshold() <= e as int implies !self.matches(
                        e,
                    ) by {
                        assert(!phrase_match(dv, e));
                    }
                }
            }
            r
        } else {
            let r = self.advance_from(0);
            proof {
                if r {
                    assert forall|e: u32|
                        old(self).threshold() <= e < self.cur_doc() implies !self.matches(e) by {
                        assert(!phrase_match(dv, e));
                    }
                } else {
                    assert forall|e: u32| old(self).threshold() <= e as int implies !self.matches(
                        e,
                    ) by {
                        assert(!phrase_match(dv, e));
                    }
                }
            }
            r
        }
    }

    /// Move to the first matching document at or above `target`; a target
    /// below the current document is a caller error and is excluded.
    pub fn skip_to(&mut self, target: u32) -> (found: bool)
        requires
            old(self).swf(),
            old(self).is_active() ==> old(self).cur_doc() <= target,
        ensures
            final(self).swf(),
            final(self).started,
            final(self).streams == old(self).streams,
            final(self).norms == old(self).norms,
            final(self).idf == old(self).idf,
            found == final(self).is_active(),
            !found ==> final(self).is_exhausted(),
            old(self).is_exhausted() ==> final(self).is_exhausted(),
            found ==> final(self).matches(final(self).cur_doc()) && target <= final(self).cur_doc(),
            found ==> forall|e: u32|
                target <= e < final(self).cur_doc() ==> !final(self).matches(e),
            !found && !old(self).is_exhausted() ==> forall|e: u32|
                target <= e ==> !final(self).matches(e),
    {
        let ghost dv = self.streams.deep_view();
        proof {
            lemma_streams_view(&self.streams);
            assert(dv[0] == self.streams@[0].deep_view());
            assert(dv[0].len() == self.streams@[0]@.len());
        }
        if self.started {
            if self.done {
                return false;
            }
            let cur = self.streams[0][self.cursors[0]].doc;
            if cur == target {
                return true;
            }
            proof {
                assert(below_cursors(dv, self.cursors@, target, 0, self.streams@.len() as int));
            }
            let r = self.advance_from(target);
            proof {
                if r {
                    assert forall|e: u32| target <= e < self.cur_doc() implies !self.matches(e) by {
                        assert(!phrase_match(dv, e));
                    }
                } else {
                    assert forall|e: u32| target <= e implies !self.matches(e) by {
                        assert(!phrase_match(dv, e));
                    }
                }
            }
            r
        } else {
            let r = self.advance_from(target);
            proof {
                if r {
                    assert forall|e: u32| target <= e < self.cur_doc() implies !self.matches(e) by {
                        assert(!phrase_match(dv, e));
                    }
                } else {
                    assert forall|e: u32| target <= e implies !self.matches(e) by {
                        assert(!phrase_match(dv, e));
                    }
                }
            }
            r
        }
    }

    /// The document the cursor rests on.
    pub fn current(&self) -> (d: u32)
        requires
            self.swf(),
            self.is_active(),
        ensures
            d == self.cur_doc(),
    {
        proof {
            lemma_streams_view(&self.streams);
            assert(self.streams.deep_view()[0] == self.streams@[0].deep_view());
            assert(self.streams.deep_view()[0].len() == self.streams@[0]@.len());
        }
        self.streams[0][self.cursors[0]].doc
    }

    /// The score of the current document.
    pub fn score(&self) -> (s: u64)
        requires
            self.swf(),
            self.is_active(),
        ensures
            s as int == self.score_at(self.cur_doc()),
            s <= self.idf,
    {
        proof {
            lemma_streams_view(&self.streams);
            assert(self.streams.deep_view()[0] == self.streams@[0].deep_view());
            assert(self.streams.deep_view()[0].len() == self.streams@[0]@.len());
            assert(entry_ok(
                self.streams.deep_view()[0][self.cursors@[0] as int],
                self.norms@.len() as nat,
            ));
        }
        let d = self.streams[0][self.cursors[0]].doc;
        let norm = self.norms[d as usize];
        score_value(self.idf, self.cur_freq, norm)
    }
}

} // verus!
