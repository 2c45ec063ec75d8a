//! Relationships the query core guarantees, stated and proved once, for
//! every segment and every query.

use vstd::prelude::*;

use crate::postings::doc_in;
use crate::query::{
    contains_doc, phrase_results_complete, seg_phrase_freq, seg_phrase_idf, seg_phrase_matches,
};
use crate::score::score_spec;
use crate::segment::Segment;
use crate::term::Term;

verus! {

/// The pinned score of a document that carries the phrase.
pub open spec fn phrase_score_of(seg: Segment, terms: Seq<Term>, d: u32) -> int {
    score_spec(
        seg_phrase_idf(seg, terms),
        seg_phrase_freq(seg, terms, d) as int,
        seg.norms@[d as int] as int,
    )
}

/// A document carrying a phrase lies in every constituent term's document
/// set; and a document carries the phrase exactly when every term's stream
/// contains it and its phrase frequency is positive.
pub proof fn lemma_phrase_within_term_sets(seg: Segment, terms: Seq<Term>, d: u32)
    ensures
        seg_phrase_matches(seg, terms, d) ==> forall|i: int|
            0 <= i < terms.len() ==> doc_in(seg.postings_of(#[trigger] terms[i]), d),
        seg_phrase_matches(seg, terms, d) <==> (terms.len() >= 1 && (forall|i: int|
            0 <= i < terms.len() ==> doc_in(seg.postings_of(#[trigger] terms[i]), d))
            && seg_phrase_freq(seg, terms, d) >= 1),
{
}

/// A phrase containing any term absent from the vocabulary matches no
/// document, regardless of the other terms.
pub proof fn lemma_absent_term_matches_nothing(seg: Segment, terms: Seq<Term>, i: int, d: u32)
    requires
        0 <= i < terms.len(),
        !seg.has_term(terms[i]),
    ensures
        !seg_phrase_matches(seg, terms, d),
{
    if seg_phrase_matches(seg, terms, d) {
        assert(doc_in(seg.postings_of(terms[i]), d));
    }
}

/// Scoring the same phrase query against the same immutable segment twice
/// yields identical document sequences and scores: any two outputs that
/// are strictly ascending, deliver exactly the matching documents, and
/// carry the pinned score per document are equal.
pub proof fn lemma_search_deterministic(
    seg: Segment,
    terms: Seq<Term>,
    out1: Seq<(u32, u64)>,
    out2: Seq<(u32, u64)>,
)
    requires
        forall|a: int, b: int| 0 <= a < b < out1.len() ==> out1[a].0 < out1[b].0,
        forall|a: int, b: int| 0 <= a < b < out2.len() ==> out2[a].0 < out2[b].0,
        forall|j: int|
            0 <= j < out1.len() ==> seg_phrase_matches(seg, terms, (#[trigger] out1[j]).0),
        forall|j: int|
            0 <= j < out2.len() ==> seg_phrase_matches(seg, terms, (#[trigger] out2[j]).0),
        phrase_results_complete(seg, terms, out1),
        phrase_results_complete(seg, terms, out2),
        forall|j: int|
            0 <= j < out1.len() ==> (#[trigger] out1[j]).1 as int == phrase_score_of(
                seg,
                terms,
                out1[j].0,
            ),
        forall|j: int|
            0 <= j < out2.len() ==> (#[trigger] out2[j]).1 as int == phrase_score_of(
                seg,
                terms,
                out2[j].0,
            ),
    ensures
        out1 == out2,
{
    assert forall|d: u32| #[trigger] contains_doc(out1, d) == contains_doc(out2, d) by {
        if contains_doc(out1, d) {
            let j = choose|j: int| 0 <= j < out1.len() && out1[j].0 == d;
            assert(seg_phrase_matches(seg, terms, out1[j].0));
        }
        if contains_doc(out2, d) {
            let j = choose|j: int| 0 <= j < out2.len() && out2[j].0 == d;
            assert(seg_phrase_matches(seg, terms, out2[j].0));
        }
    }
    lemma_ascending_outputs_equal(seg, terms, out1, out2);
}

/// Strictly ascending outputs with the same document membership and
/// document-determined scores are equal.
proof fn lemma_ascending_outputs_equal(
    seg: Segment,
    terms: Seq<Term>,
    out1: Seq<(u32, u64)>,
    out2: Seq<(u32, u64)>,
)
    requires
        forall|a: int, b: int| 0 <= a < b < out1.len() ==> out1[a].0 < out1[b].0,
        forall|a: int, b: int| 0 <= a < b < out2.len() ==> out2[a].0 < out2[b].0,
        forall|d: u32| #[trigger] contains_doc(out1, d) == contains_doc(out2, d),
        forall|j: int|
            0 <= j < out1.len() ==> (#[trigger] out1[j]).1 as int == phrase_score_of(
                seg,
                terms,
                out1[j].0,
            ),
        forall|j: int|
            0 <= j < out2.len() ==> (#[trigger] out2[j]).1 as int == phrase_score_of(
                seg,
                terms,
                out2[j].0,
            ),
    ensures
        out1 == out2,
    decreases out1.len(),
{
    if out1.len() == 0 {
        if out2.len() > 0 {
            assert(contains_doc(out2, out2[0].0));
            assert(contains_doc(out1, out2[0].0));
            let j = choose|j: int| 0 <= j < out1.len() && out1[j].0 == out2[0].0;
            assert(false);
        }
        assert(out1 =~= out2);
    } else {
        if out2.len() == 0 {
            assert(contains_doc(out1, out1[0].0));
            assert(contains_doc(out2, out1[0].0));
            let j = choose|j: int| 0 <= j < out2.len() && out2[j].0 == out1[0].0;
            assert(false);
        }
        let d1 = out1[0].0;
        let d2 = out2[0].0;
        assert(contains_doc(out1, d1));
        assert(contains_doc(out2, d1));
        let j2 = choose|j: int| 0 <= j < out2.len() && out2[j].0 == d1;
        if j2 > 0 {
            assert(out2[0].0 < out2[j2].0);
        }
        assert(contains_doc(out2, d2));
        assert(contains_doc(out1, d2));
        let j1 = choose|j: int| 0 <= j < out1.len() && out1[j].0 == d2;
        if j1 > 0 {
            assert(out1[0].0 < out1[j1].0);
        }
        assert(d1 == d2);
        assert(out1[0].1 == out2[0].1);
        let t1 = out1.subrange(1, out1.len() as int);
        let t2 = out2.subrange(1, out2.len() as int);
        assert forall|d: u32| #[trigger] contains_doc(t1, d) == contains_doc(t2, d) by {
            if contains_doc(t1, d) {
                let j = choose|j: int| 0 <= j < t1.len() && t1[j].0 == d;
                assert(out1[j + 1].0 == d);
                assert(contains_doc(out1, d));
                assert(out1[0].0 < out1[j + 1].0);
                let jb = choose|jb: int| 0 <= jb < out2.len() && out2[jb].0 == d;
                assert(jb > 0);
                assert(t2[jb - 1].0 == d);
                assert(contains_doc(t2, d));
            }
            if contains_doc(t2, d) {
                let j = choose|j: int| 0 <= j < t2.len() && t2[j].0 == d;
                assert(out2[j + 1].0 == d);
                assert(contains_doc(out2, d));
                assert(out2[0].0 < out2[j + 1].0);
                assert(contains_doc(out1, d));
                let jb = choose|jb: int| 0 <= jb < out1.len() && out1[jb].0 == d;
                assert(jb > 0);
                assert(t1[jb - 1].0 == d);
                assert(contains_doc(t1, d));
            }
        }
        assert forall|j: int|
            0 <= j < t1.len() implies (#[trigger] t1[j]).1 as int == phrase_score_of(
            seg,
            terms,
            t1[j].0,
        ) by {
            assert(t1[j] == out1[j + 1]);
        }
        assert forall|j: int|
            0 <= j < t2.len() implies (#[trigger] t2[j]).1 as int == phrase_score_of(
            seg,
            terms,
            t2[j].0,
        ) by {
            assert(t2[j] == out2[j + 1]);
        }
        lemma_ascending_outputs_equal(seg, terms, t1, t2);
        assert forall|j: int| 0 <= j < out1.len() implies out1[j] == out2[j] by {
            if j > 0 {
                assert(t1[j - 1] == t2[j - 1]);
            } else {
                assert(out1[0].0 == out2[0].0 && out1[0].1 == out2[0].1);
            }
        }
        assert(out1 =~= out2);
    }
}

} // verus!
