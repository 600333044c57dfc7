use textchain::document::{Document, EmptyMetadata};
use textchain::text_splitter::{RecursiveCharacterTextSplitter, TextSplitter};

fn splitter(chunk_size: usize, chunk_overlap: usize, seps: &[&str]) -> RecursiveCharacterTextSplitter {
    let separators: Vec<String> = seps.iter().map(|s| s.to_string()).collect();
    RecursiveCharacterTextSplitter::new(chunk_size, chunk_overlap, Some(separators))
}

#[test]
fn paragraph_example() {
    let sp = splitter(6, 0, &["\n\n", " ", ""]);
    let chunks = sp.split_text("aaaa\n\nbbbb\n\ncccc");
    assert_eq!(chunks, vec!["aaaa", "bbbb", "cccc"]);
}

#[test]
fn paragraph_example_covers_text() {
    let sp = splitter(6, 0, &["\n\n", " ", ""]);
    let chunks = sp.split_text("aaaa\n\nbbbb\n\ncccc");
    let concat: String = chunks.concat();
    assert_eq!(concat, "aaaabbbbcccc");
}

#[test]
fn minimal_document_single_chunk() {
    let sp = RecursiveCharacterTextSplitter::new(100, 10, None);
    assert_eq!(sp.split_text("hello world"), vec!["hello world"]);
}

#[test]
fn minimal_document_is_trimmed() {
    let sp = RecursiveCharacterTextSplitter::new(100, 10, None);
    assert_eq!(sp.split_text("  hello world \n"), vec!["hello world"]);
}

#[test]
fn whitespace_only_gives_no_chunks() {
    let sp = RecursiveCharacterTextSplitter::new(100, 10, None);
    assert_eq!(sp.split_text("   \n\n  "), Vec::<String>::new());
}

#[test]
fn empty_text_gives_no_chunks() {
    let sp = RecursiveCharacterTextSplitter::new(50, 5, None);
    assert_eq!(sp.split_text(""), Vec::<String>::new());
}

#[test]
fn overlap_repeats_window_tail() {
    let sp = splitter(3, 1, &[" ", ""]);
    let chunks = sp.split_text("a b c d");
    assert_eq!(chunks, vec!["a b", "b c", "c d"]);
}

#[test]
fn no_overlap_flushes_whole_window() {
    let sp = splitter(4, 0, &["", " "]);
    // The empty separator comes first, so the text splits per character.
    let chunks = sp.split_text("aaaaaaa");
    assert_eq!(chunks, vec!["aaaa", "aaa"]);
}

#[test]
fn oversized_piece_recursively_split() {
    let sp = splitter(4, 0, &[" ", ""]);
    let chunks = sp.split_text("abcdefgh ij");
    assert_eq!(chunks, vec!["abcd", "efgh", "ij"]);
    for c in &chunks {
        assert!(c.chars().count() <= 4);
    }
}

#[test]
fn character_fallback_respects_bound() {
    let sp = splitter(5, 2, &[""]);
    let chunks = sp.split_text("abcdefghijklmno");
    for c in &chunks {
        assert!(c.chars().count() <= 5);
    }
}

#[test]
fn merge_splits_joins_with_separator() {
    let sp = splitter(10, 0, &[" ", ""]);
    let merged = sp.merge_splits(vec!["a".to_string(), "b".to_string()], " ");
    assert_eq!(merged, vec!["a b"]);
}

#[test]
fn split_document_propagates_metadata() {
    let sp = splitter(6, 0, &["\n\n", " ", ""]);
    let mut doc = Document::new("aaaa\n\nbbbb", 0);
    doc.metadata = Some(EmptyMetadata);
    let chunks = sp.split_document(vec![doc, Document::new("cccc", 1)]);
    assert_eq!(chunks.len(), 3);
    assert_eq!(chunks[0].page_content, "aaaa");
    assert_eq!(chunks[1].page_content, "bbbb");
    assert_eq!(chunks[2].page_content, "cccc");
    assert!(chunks[0].metadata.is_some());
    assert!(chunks[1].metadata.is_some());
    assert!(chunks[2].metadata.is_none());
    // Each chunk's index is its order within its source document.
    assert_eq!(chunks[0].lookup_index, 0);
    assert_eq!(chunks[1].lookup_index, 1);
    assert_eq!(chunks[2].lookup_index, 0);
}

#[test]
fn create_documents_flattens_in_order() {
    let sp = splitter(4, 0, &[" ", ""]);
    let docs = sp.create_documents(
        vec!["a b".to_string(), "c d".to_string()],
        vec![None, Some(EmptyMetadata)],
    );
    let contents: Vec<&str> = docs.iter().map(|d| d.page_content.as_str()).collect();
    assert_eq!(contents, vec!["a b", "c d"]);
    assert!(docs[0].metadata.is_none());
    assert!(docs[1].metadata.is_some());
    assert_eq!(docs[0].lookup_index, 0);
    assert_eq!(docs[1].lookup_index, 0);
}

#[test]
fn create_documents_ignores_surplus_metadata() {
    let sp = splitter(10, 0, &[" ", ""]);
    let docs = sp.create_documents(
        vec!["one".to_string()],
        vec![Some(EmptyMetadata), Some(EmptyMetadata), None],
    );
    assert_eq!(docs.len(), 1);
    assert_eq!(docs[0].page_content, "one");
    assert!(docs[0].metadata.is_some());
}

#[test]
fn join_docs_drops_all_whitespace() {
    let sp = RecursiveCharacterTextSplitter::new(100, 10, None);
    assert_eq!(sp.join_docs(vec![" ".to_string(), " ".to_string()], " "), None);
    assert_eq!(
        sp.join_docs(vec!["a".to_string(), "b".to_string()], "-"),
        Some("a-b".to_string())
    );
}

#[test]
fn default_configuration() {
    let sp = RecursiveCharacterTextSplitter::default();
    assert_eq!(sp.chunk_size, 4000);
    assert_eq!(sp.chunk_overlap, 200);
    assert_eq!(sp.separators, vec!["\n\n", "\n", " ", ""]);
}

#[test]
fn separator_counted_toward_chunk_size() {
    // The running total is the joined length, separators included, so the
    // pieces are not merged when the join would exceed the bound.
    let sp = splitter(7, 0, &["\n\n", ""]);
    let chunks = sp.split_text("aaa\n\nbbb");
    assert_eq!(chunks, vec!["aaa", "bbb"]);
}

#[test]
fn separator_counted_in_window() {
    let sp = splitter(10, 0, &[" ", ""]);
    let chunks = sp.split_text("aa bb cc dd");
    assert_eq!(chunks, vec!["aa bb cc", "dd"]);
    for c in &chunks {
        assert!(c.chars().count() <= 10);
    }
}
