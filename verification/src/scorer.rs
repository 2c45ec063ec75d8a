//! The DocSet/Scorer protocol: the pull-based iteration contract every
//! matcher implements, as a closed set of variants.
//!
//! A scorer starts unstarted, becomes active on the first successful
//! advance, and ends in a terminal exhausted state.  `advance` and
//! `skip_to` only ever move forward; `current` and `score` are defined
//! only while active.

use vstd::prelude::*;

use crate::phrase_scorer::PhraseScorer;
use crate::postings::{doc_in, entry_ok, idx_of, lemma_streams_view};
use crate::term_scorer::TermScorer;

verus! {

/// The terminal, zero-cost matcher for queries that provably cannot match.
pub struct EmptyScorer {
    pub started: bool,
}

impl EmptyScorer {
    pub fn new() -> (s: EmptyScorer)
        ensures
            !s.started,
    {
        EmptyScorer { started: false }
    }
}

/// A scorer over one segment: empty, single-term, or phrase.
pub enum Scorer {
    Empty(EmptyScorer),
    Term(TermScorer),
    Phrase(PhraseScorer),
}

impl Scorer {
    /// Structural well-formedness of the underlying matcher.
    pub open spec fn wf(self) -> bool {
        match self {
            Scorer::Empty(_) => true,
            Scorer::Term(t) => t.swf(),
            Scorer::Phrase(p) => p.swf(),
        }
    }

    /// The documents this scorer matches.
    pub open spec fn matches(self, d: u32) -> bool {
        match self {
            Scorer::Empty(_) => false,
            Scorer::Term(t) => t.matches(d),
            Scorer::Phrase(p) => p.matches(d),
        }
    }

    /// The score this scorer assigns to a matching document.
    pub open spec fn score_at(self, d: u32) -> int {
        match self {
            Scorer::Empty(_) => 0,
            Scorer::Term(t) => t.score_at(d),
            Scorer::Phrase(p) => p.score_at(d),
        }
    }

    pub open spec fn is_unstarted(self) -> bool {
        match self {
            Scorer::Empty(e) => !e.started,
            Scorer::Term(t) => t.is_unstarted(),
            Scorer::Phrase(p) => p.is_unstarted(),
        }
    }

    pub open spec fn is_active(self) -> bool {
        match self {
            Scorer::Empty(_) => false,
            Scorer::Term(t) => t.is_active(),
            Scorer::Phrase(p) => p.is_active(),
        }
    }

    pub open spec fn is_exhausted(self) -> bool {
        match self {
            Scorer::Empty(e) => e.started,
            Scorer::Term(t) => t.is_exhausted(),
            Scorer::Phrase(p) => p.is_exhausted(),
        }
    }

    /// The document the cursor rests on (meaningful when active).
    pub open spec fn cur_doc(self) -> u32 {
        match self {
            Scorer::Empty(_) => 0,
            Scorer::Term(t) => t.cur_doc(),
            Scorer::Phrase(p) => p.cur_doc(),
        }
    }

    /// The least document id that a future advance may still report.
    pub open spec fn threshold(self) -> int {
        match self {
            Scorer::Empty(_) => 0,
            Scorer::Term(t) => t.threshold(),
            Scorer::Phrase(p) => p.threshold(),
        }
    }

    /// An exclusive upper bound on every matching document id.
    pub open spec fn doc_bound(self) -> int {
        match self {
            Scorer::Empty(_) => 0,
            Scorer::Term(t) => t.norms@.len() as int,
            Scorer::Phrase(p) => p.norms@.len() as int,
        }
    }

    /// Two scorers walk the same streams with the same weights: they match
    /// and score the same documents.
    pub open spec fn index_eq(a: Scorer, b: Scorer) -> bool {
        match (a, b) {
            (Scorer::Empty(_), Scorer::Empty(_)) => true,
            (Scorer::Term(x), Scorer::Term(y)) => x.entries == y.entries && x.norms == y.norms
                && x.idf == y.idf,
            (Scorer::Phrase(x), Scorer::Phrase(y)) => x.streams == y.streams && x.norms == y.norms
                && x.idf == y.idf,
            _ => false,
        }
    }

    /// Scorers over the same streams agree on matches, scores, and bounds.
    pub proof fn lemma_index_eq(a: Scorer, b: Scorer, d: u32)
        requires
            Scorer::index_eq(a, b),
        ensures
            a.matches(d) == b.matches(d),
            a.score_at(d) == b.score_at(d),
            a.doc_bound() == b.doc_bound(),
    {
    }

    /// Matching documents lie below the document-count bound.
    pub proof fn lemma_matches_bound(self, d: u32)
        requires
            self.wf(),
            self.matches(d),
        ensures
            (d as int) < self.doc_bound(),
    {
        match self {
            Scorer::Empty(_) => {},
            Scorer::Term(t) => {
                let es = t.entries.deep_view();
                let j = idx_of(es, d);
                assert(entry_ok(es[j], t.norms@.len() as nat));
            },
            Scorer::Phrase(p) => {
                lemma_streams_view(&p.streams);
                let dv = p.streams.deep_view();
                assert(doc_in(dv[0], d));
                let j = idx_of(dv[0], d);
                assert(entry_ok(dv[0][j], p.norms@.len() as nat));
            },
        }
    }

    /// An active scorer rests on a matching document.
    pub proof fn lemma_active_matches(self)
        requires
            self.wf(),
            self.is_active(),
        ensures
            self.matches(self.cur_doc()),
            self.threshold() == self.cur_doc() as int + 1,
    {
        match self {
            Scorer::Empty(_) => {},
            Scorer::Term(t) => {
                crate::postings::lemma_idx_at(t.entries.deep_view(), t.cursor as int);
            },
            Scorer::Phrase(p) => {},
        }
    }

    /// Move to the next matching document strictly after the current one
    /// (or to the first, on the first call); report exhaustion when none is
    /// left.  Callable repeatedly after exhaustion.
    pub fn advance(&mut self) -> (found: bool)
        requires
            old(self).wf(),
        ensures
            final(self).wf(),
            Scorer::index_eq(*final(self), *old(self)),
            !final(self).is_unstarted(),
            found == final(self).is_active(),
            !found ==> final(self).is_exhausted(),
            found ==> final(self).matches(final(self).cur_doc()) && old(self).threshold()
                <= final(self).cur_doc() as int,
            found ==> forall|e: u32|
                old(self).threshold() <= e < final(self).cur_doc() ==> !final(self).matches(e),
            !found ==> forall|e: u32|
                old(self).threshold() <= e as int ==> !final(self).matches(e),
    {
        match self {
            Scorer::Empty(e) => {
                e.started = true;
                false
            },
            Scorer::Term(t) => t.advance(),
            Scorer::Phrase(p) => p.advance(),
        }
    }

    /// Move to the first matching document at or above `target`; a target
    /// below the current document is a caller error and is excluded.
    pub fn skip_to(&mut self, target: u32) -> (found: bool)
        requires
            old(self).wf(),
            old(self).is_active() ==> old(self).cur_doc() <= target,
        ensures
            final(self).wf(),
            Scorer::index_eq(*final(self), *old(self)),
            !final(self).is_unstarted(),
            found == final(self).is_active(),
            !found ==> final(self).is_exhausted(),
            old(self).is_exhausted() ==> final(self).is_exhausted(),
            found ==> final(self).matches(final(self).cur_doc()) && target <= final(self).cur_doc(),
            found ==> forall|e: u32|
                target <= e < final(self).cur_doc() ==> !final(self).matches(e),
            !found && !old(self).is_exhausted() ==> forall|e: u32|
                target <= e ==> !final(self).matches(e),
    {
        match self {
            Scorer::Empty(e) => {
                e.started = true;
                false
            },
            Scorer::Term(t) => t.skip_to(target),
            Scorer::Phrase(p) => p.skip_to(target),
        }
    }

    /// The document the cursor rests on.
    pub fn current(&self) -> (d: u32)
        requires
            self.wf(),
            self.is_active(),
        ensures
            d == self.cur_doc(),
    {
        match self {
            Scorer::Empty(_) => 0,
            Scorer::Term(t) => t.current(),
            Scorer::Phrase(p) => p.current(),
        }
    }

    /// The score of the current document.
    pub fn score(&self) -> (s: u64)
        requires
            self.wf(),
            self.is_active(),
        ensures
            s as int == self.score_at(self.cur_doc()),
    {
        match self {
            Scorer::Empty(_) => 0,
            Scorer::Term(t) => t.score(),
            Scorer::Phrase(p) => p.score(),
        }
    }
}

/// Drain a fresh scorer: deliver every matching document exactly once, in
/// ascending order, paired with its score.  This is the contract the
/// collector relies on: one call per matched document, no duplicates, no
/// out-of-order delivery.
pub fn collect_all(scorer: &mut Scorer) -> (out: Vec<(u32, u64)>)
    requires
        old(scorer).wf(),
        old(scorer).is_unstarted(),
    ensures
        final(scorer).wf(),
        forall|a: int, b: int| 0 <= a < b < out@.len() ==> out@[a].0 < out@[b].0,
        forall|j: int|
            0 <= j < out@.len() ==> old(scorer).matches(#[trigger] out@[j].0) && out@[j].1 as int
                == old(scorer).score_at(out@[j].0),
        forall|d: u32|
            #[trigger] old(scorer).matches(d) ==> exists|j: int|
                0 <= j < out@.len() && out@[j].0 == d,
{
    let mut out: Vec<(u32, u64)> = Vec::new();
    let mut found = scorer.advance();
    proof {
        if found {
            assert forall|d: u32|
                old(scorer).matches(d) && (d as int) < (scorer.cur_doc() as int) implies false by {
                Scorer::lemma_index_eq(*scorer, *old(scorer), d);
            }
        } else {
            assert forall|d: u32| old(scorer).matches(d) implies false by {
                Scorer::lemma_index_eq(*scorer, *old(scorer), d);
            }
        }
    }
    while found
        invariant
            scorer.wf(),
            Scorer::index_eq(*scorer, *old(scorer)),
            !scorer.is_unstarted(),
            found == scorer.is_active(),
            !found ==> scorer.is_exhausted(),
            found ==> scorer.matches(scorer.cur_doc()),
            found ==> forall|j: int| 0 <= j < out@.len() ==> (#[trigger] out@[j]).0 < scorer.cur_doc(),
            forall|a: int, b: int| 0 <= a < b < out@.len() ==> out@[a].0 < out@[b].0,
            forall|j: int|
                0 <= j < out@.len() ==> old(scorer).matches(#[trigger] out@[j].0) && out@[j].1 as int
                    == old(scorer).score_at(out@[j].0),
            forall|d: u32|
                #[trigger] old(scorer).matches(d) && (d as int) < (if scorer.is_active() {
                    scorer.cur_doc() as int
                } else {
                    scorer.doc_bound()
                }) ==> exists|j: int| 0 <= j < out@.len() && out@[j].0 == d,
        decreases (if scorer.is_exhausted() {
            0int
        } else {
            scorer.doc_bound() + 1 - scorer.threshold()
        }),
    {
        proof {
            Scorer::lemma_active_matches(*scorer);
            Scorer::lemma_matches_bound(*scorer, scorer.cur_doc());
        }
        let d = scorer.current();
        let s = scorer.score();
        let ghost out_pre = out@;
        out.push((d, s));
        proof {
            Scorer::lemma_index_eq(*scorer, *old(scorer), d);
            assert(out@ == out_pre.push((d, s)));
        }
        found = scorer.advance();
        proof {
            assert forall|d2: u32|
                old(scorer).matches(d2) && (d2 as int) < (if scorer.is_active() {
                    scorer.cur_doc() as int
                } else {
                    scorer.doc_bound()
                }) implies exists|j: int| 0 <= j < out@.len() && out@[j].0 == d2 by {
                Scorer::lemma_index_eq(*scorer, *old(scorer), d2);
                if d2 > d {
                    assert(!scorer.matches(d2));
                    assert(false);
                } else if d2 == d {
                    assert(out@[out@.len() - 1].0 == d2);
                } else {
                    let j0 = choose|j: int| 0 <= j < out_pre.len() && out_pre[j].0 == d2;
                    assert(out@[j0].0 == d2);
                }
            }
        }
    }
    proof {
        assert forall|d: u32| old(scorer).matches(d) implies exists|j: int|
            0 <= j < out@.len() && out@[j].0 == d by {
            Scorer::lemma_index_eq(*scorer, *old(scorer), d);
            Scorer::lemma_matches_bound(*scorer, d);
        }
    }
    out
}

} // verus!
