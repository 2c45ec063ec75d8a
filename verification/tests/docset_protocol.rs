use search_core::postings::{PostingEntry, PostingList};
use search_core::query::{PhraseQuery, TermWeight};
use search_core::segment::Segment;
use search_core::term::Term;

fn build_segment(docs: &[&str], positions_indexed: bool) -> Segment {
    let mut vocab: Vec<(Vec<u8>, Vec<(u32, Vec<u32>)>)> = Vec::new();
    let mut norms: Vec<u8> = Vec::new();
    for (d, text) in docs.iter().enumerate() {
        let tokens: Vec<&str> = text.split_whitespace().collect();
        norms.push(if tokens.len() < 255 {
            tokens.len() as u8
        } else {
            255
        });
        for (p, tok) in tokens.iter().enumerate() {
            let key = tok.as_bytes().to_vec();
            match vocab.iter_mut().find(|(t, _)| *t == key) {
                None => vocab.push((key, vec![(d as u32, vec![p as u32])])),
                Some((_, postings)) => {
                    if postings.last().unwrap().0 == d as u32 {
                        postings.last_mut().unwrap().1.push(p as u32);
                    } else {
                        postings.push((d as u32, vec![p as u32]));
                    }
                }
            }
        }
    }
    let mut lists: Vec<PostingList> = Vec::new();
    for (text, postings) in vocab {
        let mut entries: Vec<PostingEntry> = Vec::new();
        for (doc, positions) in postings {
            let term_freq = positions.len() as u64;
            entries.push(PostingEntry {
                doc,
                term_freq,
                positions: if positions_indexed { positions } else { Vec::new() },
            });
        }
        lists.push(PostingList { term: Term { field: 0, text }, entries });
    }
    Segment::new(0, "text".to_string(), positions_indexed, lists, norms)
        .expect("segment parts should be well formed")
}

#[test]
fn test_advance_walks_ascending() {
    let seg = build_segment(&["a", "b", "a", "b", "a"], true);
    let weight = TermWeight { doc_freq: 3, term: Term { field: 0, text: b"a".to_vec() } };
    let mut scorer = weight.scorer(&seg).expect("term scorers always build");
    assert!(scorer.advance());
    assert_eq!(scorer.current(), 0);
    assert!(scorer.score() > 0);
    assert!(scorer.advance());
    assert_eq!(scorer.current(), 2);
    assert!(scorer.advance());
    assert_eq!(scorer.current(), 4);
    assert!(!scorer.advance());
    // exhaustion is terminal and idempotent
    assert!(!scorer.advance());
    assert!(!scorer.advance());
}

#[test]
fn test_skip_to_first_at_or_above_target() {
    let seg = build_segment(&["a", "b", "a", "b", "a", "b", "a"], true);
    let weight = TermWeight { doc_freq: 4, term: Term { field: 0, text: b"a".to_vec() } };
    let mut scorer = weight.scorer(&seg).expect("term scorers always build");
    assert!(scorer.skip_to(3));
    assert_eq!(scorer.current(), 4);
    // a target equal to the current document keeps the cursor
    assert!(scorer.skip_to(4));
    assert_eq!(scorer.current(), 4);
    assert!(scorer.skip_to(5));
    assert_eq!(scorer.current(), 6);
    assert!(!scorer.skip_to(7));
    assert!(!scorer.skip_to(9));
}

#[test]
fn test_phrase_scorer_protocol() {
    let seg = build_segment(&["a b", "b a", "a b", "c", "a b"], true);
    let weight = PhraseQuery::new(vec![
        Term { field: 0, text: b"a".to_vec() },
        Term { field: 0, text: b"b".to_vec() },
    ])
    .weight();
    let mut scorer = weight.scorer(&seg).expect("positions are indexed");
    assert!(scorer.advance());
    assert_eq!(scorer.current(), 0);
    assert!(scorer.skip_to(1));
    assert_eq!(scorer.current(), 2);
    assert!(scorer.skip_to(3));
    assert_eq!(scorer.current(), 4);
    assert!(!scorer.advance());
    assert!(!scorer.advance());
}

#[test]
fn test_empty_scorer_reports_exhaustion() {
    let seg = build_segment(&["a b"], true);
    let weight = TermWeight { doc_freq: 0, term: Term { field: 0, text: b"zzz".to_vec() } };
    let mut scorer = weight.scorer(&seg).expect("term scorers always build");
    assert!(!scorer.advance());
    assert!(!scorer.advance());
    assert!(!scorer.skip_to(0));
}
