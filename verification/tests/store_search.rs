use aiterm::chunk::Chunk;
use aiterm::store::{RagStore, StoreError};

fn mk_chunk(source: &str, text: &str) -> Chunk {
    Chunk { source: source.to_string(), text: text.to_string() }
}

fn snippet(source: &str, text: &str) -> String {
    format!("---\nSource: {}\n```\n{}\n```\n", source, text)
}

fn three_chunk_store() -> RagStore {
    let chunks = vec![mk_chunk("a", "alpha"), mk_chunk("b", "beta"), mk_chunk("c", "gamma")];
    let embeddings: Vec<Vec<i64>> = vec![vec![10, 0], vec![0, 10], vec![7, 7]];
    RagStore::new(chunks, embeddings).unwrap()
}

#[test]
fn build_rejects_length_mismatch() {
    let r = RagStore::new(vec![mk_chunk("a", "x")], vec![]);
    assert_eq!(r.err().unwrap(), StoreError::LengthMismatch);
}

#[test]
fn build_rejects_dimension_mismatch() {
    let r = RagStore::new(
        vec![mk_chunk("a", "x"), mk_chunk("b", "y")],
        vec![vec![1, 2], vec![1, 2, 3]],
    );
    assert_eq!(r.err().unwrap(), StoreError::DimensionMismatch);
}

#[test]
fn build_rejects_oversized_component() {
    let r = RagStore::new(vec![mk_chunk("a", "x")], vec![vec![2000000]]);
    assert_eq!(r.err().unwrap(), StoreError::ComponentOutOfRange);
}

#[test]
fn search_ranks_by_similarity() {
    let store = three_chunk_store();
    let query: Vec<i64> = vec![10, 0];
    let got = store.search(&query, 2);
    assert_eq!(got, vec![snippet("a", "alpha"), snippet("c", "gamma")]);
}

#[test]
fn search_returns_all_when_top_k_exceeds_size() {
    let store = three_chunk_store();
    let query: Vec<i64> = vec![10, 0];
    let got = store.search(&query, 10);
    assert_eq!(got.len(), 3);
    assert_eq!(got[0], snippet("a", "alpha"));
    assert_eq!(got[1], snippet("c", "gamma"));
    assert_eq!(got[2], snippet("b", "beta"));
}

#[test]
fn empty_store_returns_empty_result() {
    let store = RagStore::new(vec![], vec![]).unwrap();
    let query: Vec<i64> = vec![1, 2, 3];
    assert_eq!(store.search(&query, 5).len(), 0);
}

#[test]
fn equal_scores_keep_insertion_order() {
    let chunks = vec![mk_chunk("first", "one"), mk_chunk("second", "two")];
    let embeddings: Vec<Vec<i64>> = vec![vec![5, 0], vec![5, 0]];
    let store = RagStore::new(chunks, embeddings).unwrap();
    let got = store.search(&vec![3, 0], 2);
    assert_eq!(got, vec![snippet("first", "one"), snippet("second", "two")]);
}
