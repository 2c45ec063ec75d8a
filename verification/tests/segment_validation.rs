use search_core::postings::{PostingEntry, PostingList};
use search_core::segment::Segment;
use search_core::term::Term;

fn term(text: &str) -> Term {
    Term { field: 0, text: text.as_bytes().to_vec() }
}

fn entry(doc: u32, positions: &[u32]) -> PostingEntry {
    PostingEntry {
        doc,
        term_freq: positions.len() as u64,
        positions: positions.to_vec(),
    }
}

#[test]
fn test_accepts_well_formed_parts() {
    let lists = vec![PostingList {
        term: term("a"),
        entries: vec![entry(0, &[0, 2]), entry(3, &[1])],
    }];
    assert!(Segment::new(0, "text".to_string(), true, lists, vec![3, 1, 1, 2]).is_some());
}

#[test]
fn test_rejects_unsorted_documents() {
    let lists = vec![PostingList {
        term: term("a"),
        entries: vec![entry(3, &[1]), entry(0, &[0])],
    }];
    assert!(Segment::new(0, "text".to_string(), true, lists, vec![3, 1, 1, 2]).is_none());
}

#[test]
fn test_rejects_duplicate_documents() {
    let lists = vec![PostingList {
        term: term("a"),
        entries: vec![entry(1, &[0]), entry(1, &[2])],
    }];
    assert!(Segment::new(0, "text".to_string(), true, lists, vec![3, 3]).is_none());
}

#[test]
fn test_rejects_document_out_of_range() {
    let lists = vec![PostingList { term: term("a"), entries: vec![entry(5, &[0])] }];
    assert!(Segment::new(0, "text".to_string(), true, lists, vec![2, 2]).is_none());
}

#[test]
fn test_rejects_zero_frequency() {
    let lists = vec![PostingList {
        term: term("a"),
        entries: vec![PostingEntry { doc: 0, term_freq: 0, positions: Vec::new() }],
    }];
    assert!(Segment::new(0, "text".to_string(), true, lists, vec![1]).is_none());
}

#[test]
fn test_rejects_unsorted_positions() {
    let lists = vec![PostingList {
        term: term("a"),
        entries: vec![entry(0, &[2, 1])],
    }];
    assert!(Segment::new(0, "text".to_string(), true, lists, vec![3]).is_none());
}

#[test]
fn test_rejects_position_count_mismatch() {
    let lists = vec![PostingList {
        term: term("a"),
        entries: vec![PostingEntry { doc: 0, term_freq: 2, positions: vec![1] }],
    }];
    assert!(Segment::new(0, "text".to_string(), true, lists, vec![3]).is_none());
}

#[test]
fn test_rejects_positions_without_capability() {
    let lists = vec![PostingList {
        term: term("a"),
        entries: vec![entry(0, &[1])],
    }];
    assert!(Segment::new(0, "text".to_string(), false, lists, vec![3]).is_none());
}

#[test]
fn test_rejects_duplicate_terms() {
    let lists = vec![
        PostingList { term: term("a"), entries: vec![entry(0, &[0])] },
        PostingList { term: term("a"), entries: vec![entry(1, &[0])] },
    ];
    assert!(Segment::new(0, "text".to_string(), true, lists, vec![1, 1]).is_none());
}

#[test]
fn test_rejects_empty_posting_list() {
    let lists = vec![PostingList { term: term("a"), entries: Vec::new() }];
    assert!(Segment::new(0, "text".to_string(), true, lists, vec![1]).is_none());
}
