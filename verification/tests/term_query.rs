use search_core::postings::{PostingEntry, PostingList};
use search_core::query::{search_term, TermWeight};
use search_core::segment::Segment;
use search_core::term::Term;

fn build_segment(docs: &[&str], positions_indexed: bool) -> Segment {
    let mut vocab: Vec<(Vec<u8>, Vec<(u32, Vec<u32>)>)> = Vec::new();
    let mut norms: Vec<u8> = Vec::new();
    for (d, text) in docs.iter().enumerate() {
        let tokens: Vec<&str> = text.split_whitespace().collect();
        norms.push(if tokens.len() < 255 {
            tokens.len() as u8
        } else {
            255
        });
        for (p, tok) in tokens.iter().enumerate() {
            let key = tok.as_bytes().to_vec();
            match vocab.iter_mut().find(|(t, _)| *t == key) {
                None => vocab.push((key, vec![(d as u32, vec![p as u32])])),
                Some((_, postings)) => {
                    if postings.last().unwrap().0 == d as u32 {
                        postings.last_mut().unwrap().1.push(p as u32);
                    } else {
                        postings.push((d as u32, vec![p as u32]));
                    }
                }
            }
        }
    }
    let mut lists: Vec<PostingList> = Vec::new();
    for (text, postings) in vocab {
        let mut entries: Vec<PostingEntry> = Vec::new();
        for (doc, positions) in postings {
            let term_freq = positions.len() as u64;
            entries.push(PostingEntry {
                doc,
                term_freq,
                positions: if positions_indexed { positions } else { Vec::new() },
            });
        }
        lists.push(PostingList { term: Term { field: 0, text }, entries });
    }
    Segment::new(0, "text".to_string(), positions_indexed, lists, norms)
        .expect("segment parts should be well formed")
}

fn term_results(seg: &Segment, text: &str, doc_freq: u32) -> Vec<(u32, u64)> {
    let weight = TermWeight {
        doc_freq,
        term: Term { field: 0, text: text.as_bytes().to_vec() },
    };
    search_term(seg, &weight).expect("search should succeed")
}

#[test]
fn test_term_query_matches_posting_stream() {
    let seg = build_segment(&["a b", "b c", "c d a", "e"], true);
    let docs: Vec<u32> = term_results(&seg, "a", 2).iter().map(|p| p.0).collect();
    assert_eq!(docs, vec![0, 2]);
    let docs: Vec<u32> = term_results(&seg, "c", 2).iter().map(|p| p.0).collect();
    assert_eq!(docs, vec![1, 2]);
}

#[test]
fn test_term_query_absent_term() {
    let seg = build_segment(&["a b", "b c"], true);
    assert!(term_results(&seg, "zzz", 0).is_empty());
}

#[test]
fn test_term_query_zero_doc_freq() {
    let seg = build_segment(&["a b", "b c"], true);
    assert!(term_results(&seg, "a", 0).is_empty());
}

#[test]
fn test_term_query_score() {
    // One document "a a b": term frequency 2 over three tokens, document
    // frequency 1, so idf is the full scale and the score is
    // 1_000_000 * 2 / (2 + 3).
    let seg = build_segment(&["a a b"], true);
    let results = term_results(&seg, "a", 1);
    assert_eq!(results, vec![(0, 400_000)]);
}

#[test]
fn test_term_query_score_shrinks_with_length() {
    let seg = build_segment(&["a b", "a b c d e f g"], true);
    let results = term_results(&seg, "a", 2);
    assert_eq!(results.len(), 2);
    assert!(results[0].1 > results[1].1);
}

#[test]
fn test_term_query_without_positions() {
    // Term queries need no positions: a freq-only segment works.
    let seg = build_segment(&["a b", "b c", "a"], false);
    let docs: Vec<u32> = term_results(&seg, "a", 2).iter().map(|p| p.0).collect();
    assert_eq!(docs, vec![0, 2]);
}

#[test]
fn test_term_query_empty_segment() {
    let seg = build_segment(&[], true);
    assert!(term_results(&seg, "a", 0).is_empty());
}

#[test]
fn test_term_query_norm_saturation() {
    // A 300-token document saturates its one-byte length norm at 255.
    let many = vec!["w"; 300].join(" ");
    let seg = build_segment(&[many.as_str()], true);
    let results = term_results(&seg, "w", 1);
    assert_eq!(results, vec![(0, 1_000_000u64 * 300 / (300 + 255))]);
}
