use search_core::postings::{PostingEntry, PostingList};
use search_core::query::{search_phrase, PhraseQuery, SearchError};
use search_core::segment::Segment;
use search_core::term::Term;

fn build_segment(docs: &[&str], positions_indexed: bool) -> Segment {
    let mut vocab: Vec<(Vec<u8>, Vec<(u32, Vec<u32>)>)> = Vec::new();
    let mut norms: Vec<u8> = Vec::new();
    for (d, text) in docs.iter().enumerate() {
        let tokens: Vec<&str> = text.split_whitespace().collect();
        norms.push(if tokens.len() < 255 {
            tokens.len() as u8
        } else {
            255
        });
        for (p, tok) in tokens.iter().enumerate() {
            let key = tok.as_bytes().to_vec();
            match vocab.iter_mut().find(|(t, _)| *t == key) {
                None => vocab.push((key, vec![(d as u32, vec![p as u32])])),
                Some((_, postings)) => {
                    if postings.last().unwrap().0 == d as u32 {
                        postings.last_mut().unwrap().1.push(p as u32);
                    } else {
                        postings.push((d as u32, vec![p as u32]));
                    }
                }
            }
        }
    }
    let mut lists: Vec<PostingList> = Vec::new();
    for (text, postings) in vocab {
        let mut entries: Vec<PostingEntry> = Vec::new();
        for (doc, positions) in postings {
            let term_freq = positions.len() as u64;
            entries.push(PostingEntry {
                doc,
                term_freq,
                positions: if positions_indexed { positions } else { Vec::new() },
            });
        }
        lists.push(PostingList { term: Term { field: 0, text }, entries });
    }
    Segment::new(0, "text".to_string(), positions_indexed, lists, norms)
        .expect("segment parts should be well formed")
}

fn phrase_results(seg: &Segment, texts: &[&str]) -> Vec<(u32, u64)> {
    let terms: Vec<Term> = texts
        .iter()
        .map(|t| Term { field: 0, text: t.as_bytes().to_vec() })
        .collect();
    let weight = PhraseQuery::new(terms).weight();
    search_phrase(seg, &weight).expect("search should succeed")
}

fn phrase_docs(seg: &Segment, texts: &[&str]) -> Vec<u32> {
    phrase_results(seg, texts).iter().map(|p| p.0).collect()
}

#[test]
pub fn test_phrase_query() {
    let seg = build_segment(
        &[
            "b b b d c g c",
            "a b b d c g c",
            "a b a b c",
            "c a b a d ga a",
            "a b c",
        ],
        true,
    );
    assert_eq!(phrase_docs(&seg, &["a", "b", "c"]), vec![2, 4]);
    assert_eq!(phrase_docs(&seg, &["a", "b"]), vec![1, 2, 3, 4]);
    assert_eq!(phrase_docs(&seg, &["b", "b"]), vec![0, 1]);
    assert!(phrase_docs(&seg, &["g", "ewrwer"]).is_empty());
    assert!(phrase_docs(&seg, &["g", "a"]).is_empty());
}

#[test]
pub fn test_phrase_query_no_positions() {
    let seg = build_segment(&["a b c"], false);
    let terms = vec![
        Term { field: 0, text: b"a".to_vec() },
        Term { field: 0, text: b"b".to_vec() },
    ];
    let weight = PhraseQuery::new(terms).weight();
    match search_phrase(&seg, &weight) {
        Err(SearchError::SchemaError(msg)) => {
            assert_eq!(
                "Applied phrase query on field \"text\", which does not have positions indexed",
                msg.as_str()
            );
        }
        Ok(_) => panic!("Should have returned an error"),
    }
}

#[test]
pub fn test_phrase_score() {
    let seg = build_segment(&["a b c", "a b c a b"], true);
    let results = phrase_results(&seg, &["a", "b"]);
    let scores: Vec<u64> = results.iter().map(|p| p.1).collect();
    // idf("a") + idf("b") = 500_000 + 500_000; the first document holds one
    // occurrence over three tokens, the second two occurrences over five.
    assert_eq!(scores[0], 1_000_000 * 1 / (1 + 3));
    assert_eq!(scores[1], 1_000_000 * 2 / (2 + 5));
    assert_eq!(scores, vec![250_000, 285_714]);
    assert!(scores[0] < scores[1]);
}

#[test] // motivated by #234
pub fn test_phrase_query_docfreq_order() {
    let seg = build_segment(&["b", "a b", "b a"], true);
    assert_eq!(phrase_docs(&seg, &["a", "b"]), vec![1]);
    assert_eq!(phrase_docs(&seg, &["b", "a"]), vec![2]);
}

#[test]
pub fn test_phrase_order_changes_matches() {
    let seg = build_segment(&["x y", "y x"], true);
    assert_eq!(phrase_docs(&seg, &["x", "y"]), vec![0]);
    assert_eq!(phrase_docs(&seg, &["y", "x"]), vec![1]);
}

#[test]
pub fn test_single_term_phrase() {
    let seg = build_segment(&["a b", "b c", "a a"], true);
    assert_eq!(phrase_docs(&seg, &["a"]), vec![0, 2]);
}

#[test]
pub fn test_phrase_subset_of_term_sets() {
    let seg = build_segment(
        &[
            "b b b d c g c",
            "a b b d c g c",
            "a b a b c",
            "c a b a d ga a",
            "a b c",
        ],
        true,
    );
    let ab = phrase_docs(&seg, &["a", "b"]);
    let a_docs = phrase_docs(&seg, &["a"]);
    let b_docs = phrase_docs(&seg, &["b"]);
    for d in ab {
        assert!(a_docs.contains(&d));
        assert!(b_docs.contains(&d));
    }
}

#[test]
pub fn test_phrase_search_deterministic() {
    let seg = build_segment(&["a b a b c", "c a b", "a b"], true);
    let first = phrase_results(&seg, &["a", "b"]);
    let second = phrase_results(&seg, &["a", "b"]);
    assert_eq!(first, second);
}
