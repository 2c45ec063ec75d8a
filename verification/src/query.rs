//! Per-query, per-segment weights: they inspect the segment's capabilities
//! and statistics and construct the appropriate scorer, or fail fast.
//!
//! A term with zero document frequency is not an error: it yields the
//! empty scorer, and a phrase with any absent term likewise.  A phrase
//! query over a field indexed without positions is a capability error,
//! detected before any posting stream is touched.

use vstd::prelude::*;

use crate::phrase_scorer::PhraseScorer;
use crate::postings::{
    clone_entries, doc_in, lemma_streams_view, phrase_count, phrase_lists, phrase_match,
    positions_in, all_streams_wf, all_contain,
};
use crate::score::{idf_spec, idf_value, score_spec, SCORE_SCALE};
use crate::scorer::{EmptyScorer, Scorer};
use crate::segment::Segment;
use crate::term::{clone_bytes, Term};
use vstd::string::StringExecFns;

verus! {

/// Why a query cannot be executed against a segment.
#[derive(Debug)]
pub enum SearchError {
    /// A positions-dependent query was applied to a field whose index
    /// configuration does not track positions.
    SchemaError(String),
}

/// The text of the capability error for a field without positions.
pub open spec fn schema_message(name: Seq<char>) -> Seq<char> {
    "Applied phrase query on field \""@ + name + "\", which does not have positions indexed"@
}

impl SearchError {
    pub open spec fn message_spec(self) -> Seq<char> {
        match self {
            SearchError::SchemaError(m) => m@,
        }
    }

    /// The human-readable description of the error.
    pub fn message(&self) -> (m: &String)
        ensures
            m@ == self.message_spec(),
    {
        match self {
            SearchError::SchemaError(m) => m,
        }
    }
}

/// The capability error for a phrase query over `field_name`.
fn schema_error(field_name: &String) -> (e: SearchError)
    ensures
        e.message_spec() == schema_message(field_name@),
{
    let mut m = String::from_str("Applied phrase query on field \"");
    m.append(field_name.as_str());
    m.append("\", which does not have positions indexed");
    SearchError::SchemaError(m)
}

/// The per-segment weight of a single-term query, carrying the term's
/// document frequency from the segment statistics.
pub struct TermWeight {
    pub doc_freq: u32,
    pub term: Term,
}

impl TermWeight {
    /// Build the scorer for one segment: the term's posting stream scored
    /// by idf and length norm, or the empty scorer when the term cannot
    /// match (absent from the vocabulary, or zero document frequency).
    pub fn scorer(&self, seg: &Segment) -> (r: Result<Scorer, SearchError>)
        requires
            seg.wf(),
        ensures
            r is Ok,
            match r {
                Ok(s) => {
                    &&& s.wf()
                    &&& s.is_unstarted()
                    &&& forall|d: u32|
                        #[trigger] s.matches(d) <==> (self.doc_freq >= 1 && doc_in(
                            seg.postings_of(self.term),
                            d,
                        ))
                    &&& forall|d: u32|
                        #[trigger] s.matches(d) ==> s.score_at(d) == score_spec(
                            idf_spec(self.doc_freq as int),
                            crate::postings::freq_in(seg.postings_of(self.term), d) as int,
                            seg.norms@[d as int] as int,
                        )
                },
                Err(_) => false,
            },
    {
        match seg.lookup(&self.term) {
            Some(i) => {
                if self.doc_freq == 0 {
                    Ok(Scorer::Empty(EmptyScorer::new()))
                } else {
                    proof {
                        seg.lemma_postings_of_wf(self.term);
                    }
                    let entries = clone_entries(&seg.postings[i].entries);
                    let norms = clone_bytes(&seg.norms);
                    let idf = idf_value(self.doc_freq as u64);
                    Ok(Scorer::Term(
                        crate::term_scorer::TermScorer {
                            idf,
                            entries,
                            norms,
                            cursor: 0,
                            started: false,
                        },
                    ))
                }
            },
            None => Ok(Scorer::Empty(EmptyScorer::new())),
        }
    }
}

/// The position lists of the phrase's terms in document `d`, in phrase
/// order, over the segment's postings.
pub open spec fn seg_lists(seg: Segment, terms: Seq<Term>, d: u32) -> Seq<Seq<u32>> {
    Seq::new(terms.len(), |i: int| positions_in(seg.postings_of(terms[i]), d))
}

/// The phrase frequency of `terms` in document `d` of the segment.
pub open spec fn seg_phrase_freq(seg: Segment, terms: Seq<Term>, d: u32) -> nat {
    phrase_count(seg_lists(seg, terms, d))
}

/// Document `d` matches the phrase: every term's stream contains it and at
/// least one position starts a full, ordered, adjacent occurrence.
pub open spec fn seg_phrase_matches(seg: Segment, terms: Seq<Term>, d: u32) -> bool {
    &&& terms.len() >= 1
    &&& forall|i: int|
        0 <= i < terms.len() ==> doc_in(seg.postings_of(#[trigger] terms[i]), d)
    &&& seg_phrase_freq(seg, terms, d) >= 1
}

/// The summed idf of the phrase's terms, from segment statistics.
pub open spec fn seg_phrase_idf(seg: Segment, terms: Seq<Term>) -> int
    decreases terms.len(),
{
    if terms.len() == 0 {
        0
    } else {
        seg_phrase_idf(seg, terms.drop_last()) + idf_spec(seg.doc_freq(terms.last()) as int)
    }
}

/// A phrase query: an ordered list of terms; the order encodes the
/// intended phrase and is semantically significant.
pub struct PhraseQuery {
    pub terms: Vec<Term>,
}

impl PhraseQuery {
    pub fn new(terms: Vec<Term>) -> (q: PhraseQuery)
        requires
            terms@.len() >= 1,
        ensures
            q.terms == terms,
    {
        PhraseQuery { terms }
    }

    /// The per-segment weight of this query.
    pub fn weight(self) -> (w: PhraseWeight)
        ensures
            w.terms == self.terms,
    {
        PhraseWeight { terms: self.terms }
    }
}

/// The per-segment weight of a phrase query.
pub struct PhraseWeight {
    pub terms: Vec<Term>,
}

impl PhraseWeight {
    /// Build the scorer for one segment.  Fails with the capability error
    /// exactly when the field lacks position tracking; yields the empty
    /// scorer when any term is absent; otherwise opens every term's stream.
    pub fn scorer(&self, seg: &Segment) -> (r: Result<Scorer, SearchError>)
        requires
            seg.wf(),
            self.terms@.len() >= 1,
            self.terms@.len() * (SCORE_SCALE as int) <= u64::MAX as int,
        ensures
            (r is Err) <==> !seg.positions_indexed,
            match r {
                Err(e) => e.message_spec() == schema_message(seg.field_name@),
                Ok(s) => {
                    &&& s.wf()
                    &&& s.is_unstarted()
                    &&& forall|d: u32|
                        #[trigger] s.matches(d) <==> seg_phrase_matches(*seg, self.terms@, d)
                    &&& forall|d: u32|
                        #[trigger] s.matches(d) ==> s.score_at(d) == score_spec(
                            seg_phrase_idf(*seg, self.terms@),
                            seg_phrase_freq(*seg, self.terms@, d) as int,
                            seg.norms@[d as int] as int,
                        )
                },
            },
    {
        if !seg.positions_indexed {
            return Err(schema_error(&seg.field_name));
        }
        let k = self.terms.len();
        let mut streams: Vec<Vec<crate::postings::PostingEntry>> = Vec::new();
        let mut idf: u64 = 0;
        let mut j: usize = 0;
        while j < k
            invariant
                seg.wf(),
                seg.positions_indexed,
                k == self.terms@.len(),
                1 <= k,
                k as int * (SCORE_SCALE as int) <= u64::MAX as int,
                j <= k,
                streams@.len() == j,
                forall|i: int|
                    0 <= i < j ==> seg.has_term(#[trigger] self.terms@[i])
                        && streams.deep_view()[i] == seg.postings_of(self.terms@[i]),
                idf as int == seg_phrase_idf(*seg, self.terms@.take(j as int)),
                idf as int <= j as int * (SCORE_SCALE as int),
            decreases k - j,
        {
            let ghost pre_seq = streams@;
            let ghost pre_dv = streams.deep_view();
            match seg.lookup(&self.terms[j]) {
                None => {
                    proof {
                        assert forall|d: u32| !seg_phrase_matches(*seg, self.terms@, d) by {
                            if seg_phrase_matches(*seg, self.terms@, d) {
                                assert(doc_in(seg.postings_of(self.terms@[j as int]), d));
                            }
                        }
                    }
                    return Ok(Scorer::Empty(EmptyScorer::new()));
                },
                Some(i) => {
                    proof {
                        seg.lemma_postings_of_wf(self.terms@[j as int]);
                        assert((j as int + 1) * (SCORE_SCALE as int) <= k as int * (
                        SCORE_SCALE as int)) by (nonlinear_arith)
                            requires
                                j as int + 1 <= k as int,
                                0 < SCORE_SCALE,
                        ;
                    }
                    let df = seg.postings[i].entries.len() as u64;
                    let step = idf_value(df);
                    idf = idf + step;
                    streams.push(clone_entries(&seg.postings[i].entries));
                    proof {
                        lemma_streams_view(&streams);
                        assert forall|i2: int|
                            0 <= i2 < j + 1 implies seg.has_term(#[trigger] self.terms@[i2])
                            && streams.deep_view()[i2] == seg.postings_of(
                            self.terms@[i2],
                        ) by {
                            assert(streams@ == pre_seq.push(streams@[j as int]));
                            assert(streams.deep_view()[i2] == streams@[i2].deep_view());
                            if i2 < j {
                                assert(streams@[i2] == pre_seq[i2]);
                                assert(pre_dv[i2] == pre_seq[i2].deep_view());
                                assert(seg.has_term(self.terms@[i2]));
                                assert(pre_dv[i2] == seg.postings_of(self.terms@[i2]));
                            } else {
                                assert(i2 == j);
                                assert(seg.has_term(self.terms@[j as int]));
                                assert(streams@[j as int].deep_view() == seg.postings_of(
                                    self.terms@[j as int],
                                ));
                            }
                        }
                        let tail = self.terms@.take(j as int + 1);
                        assert(tail.drop_last() =~= self.terms@.take(j as int));
                        assert(tail.last() == self.terms@[j as int]);
                        assert(seg.doc_freq(self.terms@[j as int]) == df as nat);
                    }
                    j += 1;
                },
            }
        }
        proof {
            lemma_streams_view(&streams);
            assert(self.terms@.take(k as int) =~= self.terms@);
            assert(all_streams_wf(streams.deep_view(), seg.norms@.len() as nat)) by {
                assert forall|i: int|
                    0 <= i < streams.deep_view().len() implies crate::postings::entries_wf(
                    #[trigger] streams.deep_view()[i],
                    seg.norms@.len() as nat,
                ) by {
                    assert(seg.has_term(self.terms@[i]));
                    seg.lemma_postings_of_wf(self.terms@[i]);
                }
            }
        }
        let norms = clone_bytes(&seg.norms);
        let s = PhraseScorer::new(streams, norms, idf);
        proof {
            let dv = s.streams.deep_view();
            assert forall|d: u32|
                #[trigger] phrase_match(dv, d) == seg_phrase_matches(*seg, self.terms@, d)
                && crate::postings::phrase_freq_of(dv, d) == seg_phrase_freq(
                *seg,
                self.terms@,
                d,
            ) by {
                assert(phrase_lists(dv, d) =~= seg_lists(*seg, self.terms@, d));
                if all_contain(dv, d) {
                    assert forall|i: int|
                        0 <= i < self.terms@.len() implies doc_in(
                        seg.postings_of(#[trigger] self.terms@[i]),
                        d,
                    ) by {
                        assert(doc_in(dv[i], d));
                    }
                }
                if seg_phrase_matches(*seg, self.terms@, d) {
                    assert forall|i: int| 0 <= i < dv.len() implies doc_in(
                        #[trigger] dv[i],
                        d,
                    ) by {
                        assert(doc_in(seg.postings_of(self.terms@[i]), d));
                    }
                }
            }
        }
        Ok(Scorer::Phrase(s))
    }
}

/// Document `d` appears among the delivered results.
pub open spec fn contains_doc(outv: Seq<(u32, u64)>, d: u32) -> bool {
    exists|j: int| 0 <= j < outv.len() && (#[trigger] outv[j]).0 == d
}

/// Every document of the term's posting stream is delivered (when the
/// document frequency is positive).
pub open spec fn term_results_complete(seg: Segment, w: TermWeight, outv: Seq<(u32, u64)>) -> bool {
    forall|d: u32|
        w.doc_freq >= 1 && doc_in(seg.postings_of(w.term), d) ==> #[trigger] contains_doc(outv, d)
}

/// Every document carrying the phrase is delivered.
pub open spec fn phrase_results_complete(
    seg: Segment,
    terms: Seq<Term>,
    outv: Seq<(u32, u64)>,
) -> bool {
    forall|d: u32| #[trigger] seg_phrase_matches(seg, terms, d) ==> contains_doc(outv, d)
}

/// Execute a single-term query against one segment: every matching
/// document in ascending order, each with its score, delivered once.  The
/// matched set is exactly the set of documents in the term's posting
/// stream, provided the weight carries a positive document frequency.
#[verifier::rlimit(60)]
pub fn search_term(seg: &Segment, weight: &TermWeight) -> (r: Result<
    Vec<(u32, u64)>,
    SearchError,
>)
    requires
        seg.wf(),
    ensures
        r is Ok,
        match r {
            Ok(out) => out@.len() > 0 ==> weight.doc_freq >= 1,
            Err(_) => false,
        },
        match r {
            Ok(out) => forall|a: int, b: int|
                0 <= a < b < out@.len() ==> out@[a].0 < out@[b].0,
            Err(_) => false,
        },
        match r {
            Ok(out) => forall|j: int|
                0 <= j < out@.len() ==> doc_in(
                    seg.postings_of(weight.term),
                    (#[trigger] out@[j]).0,
                ) && out@[j].1 as int == score_spec(
                    idf_spec(weight.doc_freq as int),
                    crate::postings::freq_in(seg.postings_of(weight.term), out@[j].0) as int,
                    seg.norms@[out@[j].0 as int] as int,
                ),
            Err(_) => false,
        },
        match r {
            Ok(out) => term_results_complete(*seg, *weight, out@),
            Err(_) => false,
        },
{
    match weight.scorer(seg) {
        Ok(mut s) => {
            let ghost s0 = s;
            let out = crate::scorer::collect_all(&mut s);
            proof {
                if out@.len() > 0 {
                    assert(s0.matches(out@[0].0));
                }
                assert forall|j: int|
                    0 <= j < out@.len() implies doc_in(
                    seg.postings_of(weight.term),
                    (#[trigger] out@[j]).0,
                ) && out@[j].1 as int == score_spec(
                    idf_spec(weight.doc_freq as int),
                    crate::postings::freq_in(seg.postings_of(weight.term), out@[j].0) as int,
                    seg.norms@[out@[j].0 as int] as int,
                ) by {
                    assert(s0.matches(out@[j].0));
                }
                assert forall|d: u32|
                    weight.doc_freq >= 1 && doc_in(seg.postings_of(weight.term), d) implies
                    contains_doc(out@, d) by {
                    assert(s0.matches(d));
                    let j0 = choose|j: int| 0 <= j < out@.len() && out@[j].0 == d;
                    assert(out@[j0].0 == d);
                }
                assert(term_results_complete(*seg, *weight, out@));
            }
            Ok(out)
        },
        Err(e) => Err(e),
    }
}

/// Execute a phrase query against one segment: every document carrying
/// the phrase, in ascending order, each with its score, delivered once;
/// or the capability error exactly when the field lacks positions.
#[verifier::rlimit(60)]
pub fn search_phrase(seg: &Segment, weight: &PhraseWeight) -> (r: Result<
    Vec<(u32, u64)>,
    SearchError,
>)
    requires
        seg.wf(),
        weight.terms@.len() >= 1,
        weight.terms@.len() * (SCORE_SCALE as int) <= u64::MAX as int,
    ensures
        (r is Err) <==> !seg.positions_indexed,
        match r {
            Err(e) => e.message_spec() == schema_message(seg.field_name@),
            Ok(out) => {
                &&& forall|a: int, b: int| 0 <= a < b < out@.len() ==> out@[a].0 < out@[b].0
                &&& forall|j: int|
                    0 <= j < out@.len() ==> seg_phrase_matches(
                        *seg,
                        weight.terms@,
                        (#[trigger] out@[j]).0,
                    ) && out@[j].1 as int == score_spec(
                        seg_phrase_idf(*seg, weight.terms@),
                        seg_phrase_freq(*seg, weight.terms@, out@[j].0) as int,
                        seg.norms@[out@[j].0 as int] as int,
                    )
                &&& phrase_results_complete(*seg, weight.terms@, out@)
            },
        },
{
    match weight.scorer(seg) {
        Ok(mut s) => {
            let ghost s0 = s;
            let out = crate::scorer::collect_all(&mut s);
            proof {
                assert forall|j: int|
                    0 <= j < out@.len() implies seg_phrase_matches(
                    *seg,
                    weight.terms@,
                    (#[trigger] out@[j]).0,
                ) && out@[j].1 as int == score_spec(
                    seg_phrase_idf(*seg, weight.terms@),
                    seg_phrase_freq(*seg, weight.terms@, out@[j].0) as int,
                    seg.norms@[out@[j].0 as int] as int,
                ) by {
                    assert(s0.matches(out@[j].0));
                }
                assert forall|d: u32|
                    #[trigger] seg_phrase_matches(*seg, weight.terms@, d) implies contains_doc(
                    out@,
                    d,
                ) by {
                    assert(s0.matches(d));
                    let j0 = choose|j: int| 0 <= j < out@.len() && out@[j].0 == d;
                    assert(out@[j0].0 == d);
                }
                assert(phrase_results_complete(*seg, weight.terms@, out@));
            }
            Ok(out)
        },
        Err(e) => Err(e),
    }
}

} // verus!
