use textchain::document::Document;
use textchain::embeddings::{CharFrequencyEmbedding, Embeddings, similarity_le};
use textchain::ids::{id_to_string, parse_id};
use textchain::vectorstores::{InMemoryVectorStore, VectorStoreError};

fn store_with_provider() -> InMemoryVectorStore<CharFrequencyEmbedding> {
    InMemoryVectorStore {
        embeddings: Some(CharFrequencyEmbedding),
        documents: Vec::new(),
        next_id: 0,
    }
}

#[test]
fn empty_store_search_returns_empty() {
    let store = store_with_provider();
    let result = store.similarity_search("anything", None).unwrap();
    assert_eq!(result.len(), 0);
}

#[test]
fn unconfigured_store_reports_not_configured() {
    let mut store = InMemoryVectorStore::<CharFrequencyEmbedding>::new();
    let add = store.add_document(vec![Document::new("a", 0)]);
    assert!(matches!(add, Err(VectorStoreError::NotConfigured)));
    let search = store.similarity_search("a", None);
    assert!(matches!(search, Err(VectorStoreError::NotConfigured)));
}

#[test]
fn ingestion_returns_fresh_ids() {
    let mut store = store_with_provider();
    let ids = store
        .add_document(vec![Document::new("first", 0), Document::new("second", 1)])
        .unwrap();
    assert_eq!(ids, vec!["0", "1"]);
    let more = store.add_document(vec![Document::new("third", 2)]).unwrap();
    assert_eq!(more, vec!["2"]);
    assert_eq!(store.documents.len(), 3);
}

#[test]
fn round_trip_self_similarity() {
    let mut store = store_with_provider();
    store.add_document(vec![Document::new("hello world", 0)]).unwrap();
    let result = store.similarity_search("hello world", Some(1)).unwrap();
    assert_eq!(result.len(), 1);
    assert_eq!(result[0].page_content, "hello world");
}

#[test]
fn round_trip_picks_exact_match_among_others() {
    let mut store = store_with_provider();
    store
        .add_document(vec![
            Document::new("totally different text", 0),
            Document::new("apple banana", 1),
            Document::new("apple banana cherry date", 2),
        ])
        .unwrap();
    let result = store.similarity_search("apple banana", Some(1)).unwrap();
    assert_eq!(result.len(), 1);
    assert_eq!(result[0].page_content, "apple banana");
}

#[test]
fn search_truncates_to_k() {
    let mut store = store_with_provider();
    store
        .add_document(vec![
            Document::new("one", 0),
            Document::new("two", 1),
            Document::new("three", 2),
        ])
        .unwrap();
    assert_eq!(store.similarity_search("one", Some(2)).unwrap().len(), 2);
    assert_eq!(store.similarity_search("one", Some(10)).unwrap().len(), 3);
    assert_eq!(store.similarity_search("one", None).unwrap().len(), 3);
}

#[test]
fn search_results_sorted_by_similarity() {
    let mut store = store_with_provider();
    store
        .add_document(vec![
            Document::new("zzzz qqqq", 0),
            Document::new("apple pie", 1),
            Document::new("apple", 2),
            Document::new("mnop", 3),
        ])
        .unwrap();
    let query = CharFrequencyEmbedding::embed_text("apple");
    let results = store.similarity_search("apple", Some(4)).unwrap();
    assert_eq!(results.len(), 4);
    for w in results.windows(2) {
        let earlier = &w[0].metadata.as_ref().unwrap().0;
        let later = &w[1].metadata.as_ref().unwrap().0;
        assert!(similarity_le(&query, later, earlier));
    }
    assert_eq!(results[0].page_content, "apple");
}

#[test]
fn degenerate_vector_ranks_last() {
    let mut store = store_with_provider();
    store
        .add_document(vec![Document::new("", 0), Document::new("xyz", 1)])
        .unwrap();
    let results = store.similarity_search("xyz", Some(2)).unwrap();
    assert_eq!(results.len(), 2);
    assert_eq!(results[0].page_content, "xyz");
    assert_eq!(results[1].page_content, "");
}

#[test]
fn delete_unknown_id_returns_false() {
    let mut store = store_with_provider();
    store.add_document(vec![Document::new("keep", 0)]).unwrap();
    assert_eq!(store.delete_document(vec!["999".to_string()]).unwrap(), false);
    assert_eq!(store.documents.len(), 1);
}

#[test]
fn delete_known_id_removes_entry() {
    let mut store = store_with_provider();
    let ids = store
        .add_document(vec![Document::new("gone", 0), Document::new("kept", 1)])
        .unwrap();
    assert_eq!(store.delete_document(vec![ids[0].clone()]).unwrap(), true);
    let results = store.similarity_search("gone", Some(10)).unwrap();
    assert_eq!(results.len(), 1);
    for d in &results {
        assert_ne!(d.page_content, "gone");
    }
}

#[test]
fn delete_skips_malformed_ids() {
    let mut store = store_with_provider();
    let ids = store
        .add_document(vec![Document::new("a", 0), Document::new("b", 1)])
        .unwrap();
    let removed = store
        .delete_document(vec!["not-an-id".to_string(), ids[1].clone()])
        .unwrap();
    assert_eq!(removed, true);
    assert_eq!(store.documents.len(), 1);
}

#[test]
fn from_document_commits_all_or_nothing() {
    let store = InMemoryVectorStore::from_document(
        vec![Document::new("a", 0), Document::new("b", 1)],
        CharFrequencyEmbedding,
    )
    .unwrap();
    assert_eq!(store.documents.len(), 2);
    let retriever = store.as_retriever();
    assert_eq!(retriever.vectorstore.documents.len(), 2);
    assert_eq!(retriever.vectorstore.next_id, store.next_id);
    assert_eq!(
        retriever.vectorstore.documents[0].1.page_content,
        store.documents[0].1.page_content
    );
    assert!(retriever.vectorstore.embeddings.is_some());
}

#[test]
fn embedding_is_deterministic() {
    let a = CharFrequencyEmbedding::embed_text("same text");
    let b = CharFrequencyEmbedding::embed_text("same text");
    assert_eq!(a.components, b.components);
    let provider = CharFrequencyEmbedding;
    let q = provider.embed_query("same text").unwrap();
    assert_eq!(q.components, a.components);
}

#[test]
fn id_strings_round_trip() {
    assert_eq!(id_to_string(0), "0");
    assert_eq!(id_to_string(42), "42");
    assert_eq!(id_to_string(18446744073709551615), "18446744073709551615");
    assert_eq!(parse_id("0"), Some(0));
    assert_eq!(parse_id("18446744073709551615"), Some(18446744073709551615));
    assert_eq!(parse_id("18446744073709551616"), None);
    assert_eq!(parse_id(""), None);
    assert_eq!(parse_id("12x"), None);
}
