//! Posting streams: per-term records of which documents contain the term,
//! how often, and at which token positions.

use vstd::prelude::*;

use crate::term::Term;

verus! {

/// One posting: a document, the term's frequency in it, and the positions
/// at which the term occurs (present only when the field is indexed with
/// positions).
pub struct PostingEntry {
    pub doc: u32,
    pub term_freq: u64,
    pub positions: Vec<u32>,
}

/// The mathematical content of a posting entry.
pub struct GPosting {
    pub doc: u32,
    pub term_freq: u64,
    pub positions: Seq<u32>,
}

impl DeepView for PostingEntry {
    type V = GPosting;

    open spec fn deep_view(&self) -> GPosting {
        GPosting { doc: self.doc, term_freq: self.term_freq, positions: self.positions@ }
    }
}

/// A term's postings within one segment.
pub struct PostingList {
    pub term: Term,
    pub entries: Vec<PostingEntry>,
}

/// Positions within a document are strictly increasing.
pub open spec fn positions_sorted(ps: Seq<u32>) -> bool {
    forall|a: int, b: int| 0 <= a < b < ps.len() ==> ps[a] < ps[b]
}

/// Posting entries are strictly ordered by document id: no duplicates.
pub open spec fn entries_sorted(es: Seq<GPosting>) -> bool {
    forall|a: int, b: int| 0 <= a < b < es.len() ==> es[a].doc < es[b].doc
}

/// A single posting entry is well formed with respect to a document count.
pub open spec fn entry_ok(e: GPosting, doc_count: nat) -> bool {
    &&& (e.doc as nat) < doc_count
    &&& e.term_freq >= 1
    &&& positions_sorted(e.positions)
}

/// A posting stream is well formed: sorted, in range, frequencies positive.
pub open spec fn entries_wf(es: Seq<GPosting>, doc_count: nat) -> bool {
    &&& entries_sorted(es)
    &&& forall|i: int| 0 <= i < es.len() ==> entry_ok(#[trigger] es[i], doc_count)
}

/// Every entry of the stream carries one position per occurrence.
pub open spec fn entries_with_positions(es: Seq<GPosting>) -> bool {
    forall|i: int| 0 <= i < es.len() ==> (#[trigger] es[i]).positions.len() == es[i].term_freq
}

/// No entry of the stream carries positions.
pub open spec fn entries_no_positions(es: Seq<GPosting>) -> bool {
    forall|i: int| 0 <= i < es.len() ==> (#[trigger] es[i]).positions.len() == 0
}

/// The stream contains an entry for document `d`.
pub open spec fn doc_in(es: Seq<GPosting>, d: u32) -> bool {
    exists|j: int| 0 <= j < es.len() && (#[trigger] es[j]).doc == d
}

/// The index of the entry for document `d` (meaningful when `doc_in`).
pub open spec fn idx_of(es: Seq<GPosting>, d: u32) -> int {
    choose|j: int| 0 <= j < es.len() && (#[trigger] es[j]).doc == d
}

/// The positions of the term in document `d`; empty when the stream has no
/// entry for `d`.
pub open spec fn positions_in(es: Seq<GPosting>, d: u32) -> Seq<u32> {
    if doc_in(es, d) {
        es[idx_of(es, d)].positions
    } else {
        Seq::empty()
    }
}

/// The term's frequency in document `d`; zero when the stream has no entry.
pub open spec fn freq_in(es: Seq<GPosting>, d: u32) -> u64 {
    if doc_in(es, d) {
        es[idx_of(es, d)].term_freq
    } else {
        0
    }
}

/// In a sorted stream, at most one entry per document.
pub proof fn lemma_sorted_doc_unique(es: Seq<GPosting>, a: int, b: int)
    requires
        entries_sorted(es),
        0 <= a < es.len(),
        0 <= b < es.len(),
        es[a].doc == es[b].doc,
    ensures
        a == b,
{
    if a < b {
        assert(es[a].doc < es[b].doc);
    } else if b < a {
        assert(es[b].doc < es[a].doc);
    }
}

/// In a sorted stream, the entry at index `i` is the entry of its document.
pub proof fn lemma_idx_at(es: Seq<GPosting>, i: int)
    requires
        entries_sorted(es),
        0 <= i < es.len(),
    ensures
        doc_in(es, es[i].doc),
        idx_of(es, es[i].doc) == i,
        positions_in(es, es[i].doc) == es[i].positions,
        freq_in(es, es[i].doc) == es[i].term_freq,
{
    assert(doc_in(es, es[i].doc));
    lemma_sorted_doc_unique(es, idx_of(es, es[i].doc), i);
}

/// A sorted stream whose entries below `c` are all below `lo`, and where the
/// entry at `c` (if any) is at least `hi`, contains no document in `[lo, hi)`.
pub proof fn lemma_no_doc_between(es: Seq<GPosting>, c: int, lo: u32, hi: u32, d: u32)
    requires
        entries_sorted(es),
        0 <= c <= es.len(),
        forall|j: int| 0 <= j < c ==> (#[trigger] es[j]).doc < lo,
        c < es.len() ==> es[c].doc >= hi,
        lo <= d < hi,
    ensures
        !doc_in(es, d),
{
    if doc_in(es, d) {
        let j = idx_of(es, d);
        if j < c {
            assert(es[j].doc < lo);
        } else {
            assert(es[c].doc <= es[j].doc);
        }
    }
}

/// Advance a cursor within a sorted posting stream to the first entry whose
/// document id is at least `target` (the `skip_to` of a posting stream).
pub fn seek(entries: &Vec<PostingEntry>, start: usize, target: u32) -> (r: usize)
    requires
        entries_sorted(entries.deep_view()),
        start <= entries@.len(),
        forall|j: int| 0 <= j < start ==> (#[trigger] entries.deep_view()[j]).doc < target,
    ensures
        start <= r <= entries@.len(),
        forall|j: int| 0 <= j < r ==> (#[trigger] entries.deep_view()[j]).doc < target,
        r < entries@.len() ==> entries.deep_view()[r as int].doc >= target,
{
    let mut r = start;
    while r < entries.len() && entries[r].doc < target
        invariant
            start <= r <= entries@.len(),
            forall|j: int| 0 <= j < r ==> (#[trigger] entries.deep_view()[j]).doc < target,
        decreases entries@.len() - r,
    {
        r += 1;
    }
    r
}

/// Whether a position list contains the (possibly wide) position `q`.
pub open spec fn contains_pos_spec(ps: Seq<u32>, q: int) -> bool {
    exists|j: int| 0 <= j < ps.len() && (#[trigger] ps[j]) as int == q
}

/// Membership test in a position list.
pub fn contains_pos(ps: &Vec<u32>, q: u64) -> (r: bool)
    ensures
        r == contains_pos_spec(ps@, q as int),
{
    let mut j: usize = 0;
    while j < ps.len()
        invariant
            j <= ps@.len(),
            forall|j2: int| 0 <= j2 < j ==> (#[trigger] ps@[j2]) as int != q as int,
        decreases ps@.len() - j,
    {
        if ps[j] as u64 == q {
            return true;
        }
        j += 1;
    }
    false
}

/// A phrase occurrence starts at position `p` when every term of the phrase
/// occurs at `p` plus its offset within the phrase.
pub open spec fn aligned_at(lists: Seq<Seq<u32>>, p: u32) -> bool {
    forall|i: int| 0 <= i < lists.len() ==> contains_pos_spec(#[trigger] lists[i], p as int + i)
}

/// The number of phrase occurrences whose start lies among the first `k`
/// positions of the first term's list.
pub open spec fn phrase_count_upto(lists: Seq<Seq<u32>>, k: int) -> nat
    decreases k,
{
    if k <= 0 {
        0
    } else {
        phrase_count_upto(lists, k - 1) + (if aligned_at(lists, lists[0][k - 1]) {
            1nat
        } else {
            0nat
        })
    }
}

/// The phrase frequency: how many positions start an occurrence of the
/// whole phrase (meaningful when `lists` is non-empty).
pub open spec fn phrase_count(lists: Seq<Seq<u32>>) -> nat {
    phrase_count_upto(lists, lists[0].len() as int)
}

/// An owned copy of a position list.
pub fn copy_positions(v: &Vec<u32>) -> (r: Vec<u32>)
    ensures
        r@ == v@,
{
    let mut r: Vec<u32> = Vec::new();
    let mut i: usize = 0;
    while i < v.len()
        invariant
            i <= v@.len(),
            r@ == v@.take(i as int),
        decreases v@.len() - i,
    {
        r.push(v[i]);
        proof {
            assert(r@ =~= v@.take(i + 1));
        }
        i += 1;
    }
    proof {
        assert(v@.take(v@.len() as int) =~= v@);
    }
    r
}

/// An owned copy of a posting stream, identical in content.
pub fn clone_entries(v: &Vec<PostingEntry>) -> (r: Vec<PostingEntry>)
    ensures
        r.deep_view() == v.deep_view(),
        r@.len() == v@.len(),
{
    let mut r: Vec<PostingEntry> = Vec::new();
    let mut i: usize = 0;
    while i < v.len()
        invariant
            i <= v@.len(),
            r@.len() == i,
            forall|j: int| 0 <= j < i ==> (#[trigger] r.deep_view()[j]) == v.deep_view()[j],
        decreases v@.len() - i,
    {
        let e = &v[i];
        let copy = PostingEntry {
            doc: e.doc,
            term_freq: e.term_freq,
            positions: copy_positions(&e.positions),
        };
        let ghost pre_seq = r@;
        let ghost pre_dv = r.deep_view();
        r.push(copy);
        proof {
            assert forall|j: int|
                0 <= j < i + 1 implies (#[trigger] r.deep_view()[j]) == v.deep_view()[j] by {
                assert(r.deep_view()[j] == r@[j].deep_view());
                assert(v.deep_view()[j] == v@[j].deep_view());
                if j < i {
                    assert(r@[j] == pre_seq[j]);
                    assert(pre_dv[j] == pre_seq[j].deep_view());
                } else {
                    assert(r@[j] == copy);
                    assert(copy.deep_view() == v@[i as int].deep_view());
                }
            }
        }
        i += 1;
    }
    proof {
        assert(r.deep_view() =~= v.deep_view());
    }
    r
}

/// The deep view of a group of posting streams indexes and measures like
/// the streams themselves.
pub proof fn lemma_streams_view(streams: &Vec<Vec<PostingEntry>>)
    ensures
        streams.deep_view().len() == streams@.len(),
        forall|i: int|
            0 <= i < streams@.len() ==> (#[trigger] streams.deep_view()[i])
                == streams@[i].deep_view() && streams.deep_view()[i].len() == streams@[i]@.len(),
{
    assert forall|i: int|
        0 <= i < streams@.len() implies (#[trigger] streams.deep_view()[i])
        == streams@[i].deep_view() && streams.deep_view()[i].len() == streams@[i]@.len() by {
        assert(streams.deep_view()[i] == streams@[i].deep_view());
        assert(streams@[i].deep_view().len() == streams@[i]@.len());
    }
}

/// Every stream of the group is well formed.
pub open spec fn all_streams_wf(ss: Seq<Seq<GPosting>>, doc_count: nat) -> bool {
    forall|i: int| 0 <= i < ss.len() ==> entries_wf(#[trigger] ss[i], doc_count)
}

/// One cursor per stream, each within bounds.
pub open spec fn cursors_bounded(ss: Seq<Seq<GPosting>>, cs: Seq<usize>) -> bool {
    &&& cs.len() == ss.len()
    &&& forall|i: int| 0 <= i < ss.len() ==> cs[i] <= (#[trigger] ss[i]).len()
}

/// In streams `lo..hi`, every entry strictly before the cursor lies below
/// `bound`.
pub open spec fn below_cursors(
    ss: Seq<Seq<GPosting>>,
    cs: Seq<usize>,
    bound: u32,
    lo: int,
    hi: int,
) -> bool {
    forall|i: int, j: int|
        lo <= i < hi && 0 <= j < cs[i] ==> (#[trigger] ss[i][j]).doc < bound
}

/// In streams `lo..hi`, every cursor rests on an entry for document `d`.
pub open spec fn all_at_doc(
    ss: Seq<Seq<GPosting>>,
    cs: Seq<usize>,
    d: u32,
    lo: int,
    hi: int,
) -> bool {
    forall|i: int|
        lo <= i < hi ==> cs[i] < (#[trigger] ss[i]).len() && ss[i][cs[i] as int].doc == d
}

/// Every stream of the group contains document `d`.
pub open spec fn all_contain(ss: Seq<Seq<GPosting>>, d: u32) -> bool {
    forall|i: int| 0 <= i < ss.len() ==> doc_in(#[trigger] ss[i], d)
}

/// The position lists of all streams in document `d`, in phrase order.
pub open spec fn phrase_lists(ss: Seq<Seq<GPosting>>, d: u32) -> Seq<Seq<u32>> {
    Seq::new(ss.len(), |i: int| positions_in(ss[i], d))
}

/// The phrase frequency of the group in document `d`.
pub open spec fn phrase_freq_of(ss: Seq<Seq<GPosting>>, d: u32) -> nat {
    phrase_count(phrase_lists(ss, d))
}

/// Document `d` carries the phrase: every stream contains it and at least
/// one full occurrence exists.
pub open spec fn phrase_match(ss: Seq<Seq<GPosting>>, d: u32) -> bool {
    &&& all_contain(ss, d)
    &&& phrase_freq_of(ss, d) >= 1
}

/// No document in `[lo, hi)` carries the phrase.
pub open spec fn no_phrase_match_in(ss: Seq<Seq<GPosting>>, lo: int, hi: int) -> bool {
    forall|e: u32| lo <= e as int && (e as int) < hi ==> !(#[trigger] phrase_match(ss, e))
}

/// No document at or above `lo` carries the phrase.
pub open spec fn no_phrase_match_from(ss: Seq<Seq<GPosting>>, lo: int) -> bool {
    forall|e: u32| lo <= e as int ==> !(#[trigger] phrase_match(ss, e))
}

/// The positions on which the cursors rest, in phrase order.
pub open spec fn lists_at_cursors(ss: Seq<Seq<GPosting>>, cs: Seq<usize>) -> Seq<Seq<u32>> {
    Seq::new(ss.len(), |i: int| ss[i][cs[i] as int].positions)
}

/// The phrase frequency over a prefix is positive exactly when some start
/// position within that prefix is aligned.
pub proof fn lemma_phrase_count_positive(lists: Seq<Seq<u32>>, k: int)
    requires
        0 <= k <= lists[0].len(),
    ensures
        phrase_count_upto(lists, k) >= 1 <==> exists|j: int|
            0 <= j < k && aligned_at(lists, lists[0][j]),
    decreases k,
{
    if k > 0 {
        lemma_phrase_count_positive(lists, k - 1);
        if aligned_at(lists, lists[0][k - 1]) {
            assert(exists|j: int| 0 <= j < k && aligned_at(lists, lists[0][j]));
        }
    }
}

} // verus!
