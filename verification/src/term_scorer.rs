//! Scoring of single-term matches: walks the term's posting stream and
//! scores each document by idf combined with the length-normalized term
//! frequency.

use vstd::prelude::*;

use crate::postings::{doc_in, entries_wf, entry_ok, freq_in, lemma_idx_at, idx_of, PostingEntry, seek};
use crate::score::score_spec;

verus! {

/// A scorer over one term's posting stream.  The cursor starts before the
/// first posting, moves only forward, and ends in a terminal exhausted
/// state.
pub struct TermScorer {
    pub idf: u64,
    pub entries: Vec<PostingEntry>,
    pub norms: Vec<u8>,
    pub cursor: usize,
    pub started: bool,
}

impl TermScorer {
    /// Structural well-formedness: a sorted, in-range stream and a cursor
    /// within bounds.
    pub open spec fn swf(self) -> bool {
        &&& entries_wf(self.entries.deep_view(), self.norms@.len() as nat)
        &&& self.norms@.len() <= u32::MAX as nat
        &&& self.cursor <= self.entries@.len()
        &&& (!self.started ==> self.cursor == 0)
    }

    /// The cursor has not yet been advanced.
    pub open spec fn is_unstarted(self) -> bool {
        !self.started
    }

    /// The cursor rests on a matching document.
    pub open spec fn is_active(self) -> bool {
        self.started && (self.cursor as int) < self.entries@.len()
    }

    /// The terminal state: no more documents.
    pub open spec fn is_exhausted(self) -> bool {
        self.started && (self.cursor as int) >= self.entries@.len()
    }

    /// The document the cursor rests on (meaningful when active).
    pub open spec fn cur_doc(self) -> u32 {
        self.entries.deep_view()[self.cursor as int].doc
    }

    /// The documents this scorer matches: exactly those of the stream.
    pub open spec fn matches(self, d: u32) -> bool {
        doc_in(self.entries.deep_view(), d)
    }

    /// The score of a matching document.
    pub open spec fn score_at(self, d: u32) -> int {
        score_spec(
            self.idf as int,
            freq_in(self.entries.deep_view(), d) as int,
            self.norms@[d as int] as int,
        )
    }

    /// The least document id that a future advance may still report.
    pub open spec fn threshold(self) -> int {
        if !self.started {
            0
        } else if (self.cursor as int) < self.entries@.len() {
            self.cur_doc() as int + 1
        } else {
            self.norms@.len() as int
        }
    }

    /// No document at or above the threshold of an exhausted scorer matches.
    proof fn lemma_exhausted_no_matches(self, e: u32)
        requires
            self.swf(),
            self.is_exhausted() ==> self.threshold() <= e as int,
            self.is_exhausted(),
        ensures
            !self.matches(e),
    {
        let es = self.entries.deep_view();
        if doc_in(es, e) {
            let j = idx_of(es, e);
            assert(entry_ok(es[j], self.norms@.len() as nat));
        }
    }

    /// Move to the next matching document strictly after the current one
    /// (or to the first document, on the first call); report exhaustion
    /// when none is left.  Callable repeatedly after exhaustion.
    pub fn advance(&mut self) -> (found: bool)
        requires
            old(self).swf(),
        ensures
            final(self).swf(),
            final(self).idf == old(self).idf,
            final(self).entries == old(self).entries,
            final(self).norms == old(self).norms,
            final(self).started,
            found == final(self).is_active(),
            !found ==> final(self).is_exhausted(),
            found ==> final(self).matches(final(self).cur_doc()) && old(self).threshold()
                <= final(self).cur_doc() as int,
            found ==> forall|e: u32|
                old(self).threshold() <= e < final(self).cur_doc() ==> !final(self).matches(e),
            !found ==> forall|e: u32|
                old(self).threshold() <= e as int ==> !final(self).matches(e),
    {
        let ghost es = self.entries.deep_view();
        let ghost t = old(self).threshold();
        if !self.started {
            self.started = true;
        } else if self.cursor < self.entries.len() {
            self.cursor = self.cursor + 1;
        }
        proof {
            if (self.cursor as int) < es.len() {
                lemma_idx_at(es, self.cursor as int);
                assert forall|e: u32| t <= e < self.cur_doc() implies !self.matches(e) by {
                    if doc_in(es, e) {
                        let j = idx_of(es, e);
                        if j < self.cursor as int {
                            assert(es[j].doc < t);
                        } else {
                            assert(es[self.cursor as int].doc <= es[j].doc);
                        }
                    }
                }
            } else {
                assert forall|e: u32| t <= e as int implies !self.matches(e) by {
                    if doc_in(es, e) {
                        let j = idx_of(es, e);
                        if old(self).is_exhausted() {
                            assert(entry_ok(es[j], self.norms@.len() as nat));
                        } else if old(self).is_active() {
                            assert(es[j].doc <= es[old(self).cursor as int].doc);
                        }
                    }
                }
            }
        }
        self.cursor < self.entries.len()
    }

    /// Move to the first matching document at or above `target`; a target
    /// below the current document is a caller error and is excluded.
    pub fn skip_to(&mut self, target: u32) -> (found: bool)
        requires
            old(self).swf(),
            old(self).is_active() ==> old(self).cur_doc() <= target,
        ensures
            final(self).swf(),
            final(self).idf == old(self).idf,
            final(self).entries == old(self).entries,
            final(self).norms == old(self).norms,
            final(self).started,
            found == final(self).is_active(),
            !found ==> final(self).is_exhausted(),
            old(self).is_exhausted() ==> final(self).is_exhausted(),
            found ==> final(self).matches(final(self).cur_doc()) && target <= final(self).cur_doc(),
            found ==> forall|e: u32|
                target <= e < final(self).cur_doc() ==> !final(self).matches(e),
            !found && !old(self).is_exhausted() ==> forall|e: u32|
                target <= e ==> !final(self).matches(e),
    {
        let ghost es = self.entries.deep_view();
        if self.started && self.cursor == self.entries.len() {
            return false;
        }
        self.started = true;
        self.cursor = seek(&self.entries, self.cursor, target);
        proof {
            if (self.cursor as int) < es.len() {
                lemma_idx_at(es, self.cursor as int);
                assert forall|e: u32| target <= e < self.cur_doc() implies !self.matches(e) by {
                    if doc_in(es, e) {
                        let j = idx_of(es, e);
                        if j < self.cursor as int {
                            assert(es[j].doc < target);
                        } else {
                            assert(es[self.cursor as int].doc <= es[j].doc);
                        }
                    }
                }
            } else {
                assert forall|e: u32| target <= e implies !self.matches(e) by {
                    if doc_in(es, e) {
                        let j = idx_of(es, e);
                        assert(es[j].doc < target);
                    }
                }
            }
        }
        self.cursor < self.entries.len()
    }

    /// The document the cursor rests on.
    pub fn current(&self) -> (d: u32)
        requires
            self.swf(),
            self.is_active(),
        ensures
            d == self.cur_doc(),
    {
        self.entries[self.cursor].doc
    }

    /// The score of the current document.
    pub fn score(&self) -> (s: u64)
        requires
            self.swf(),
            self.is_active(),
        ensures
            s as int == self.score_at(self.cur_doc()),
            s <= self.idf,
    {
        proof {
            lemma_idx_at(self.entries.deep_view(), self.cursor as int);
            assert(entry_ok(self.entries.deep_view()[self.cursor as int], self.norms@.len() as nat));
        }
        let e = &self.entries[self.cursor];
        let norm = self.norms[e.doc as usize];
        crate::score::score_value(self.idf, e.term_freq, norm)
    }
}

} // verus!
