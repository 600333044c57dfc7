use textchain::document::Document;
use textchain::embeddings::CharFrequencyEmbedding;
use textchain::message::{
    AIMessage, BaseMessage, ChatMessage, HumanMessage, Message, get_buffer_string,
};
use textchain::text_splitter::{RecursiveCharacterTextSplitter, TextSplitter};
use textchain::vectorstores::InMemoryVectorStore;

fn base(content: &str) -> BaseMessage {
    BaseMessage { content: content.to_string(), additional_kwargs: None }
}

#[test]
fn buffer_string_joins_tagged_lines() {
    let messages = vec![
        Message::Human(HumanMessage { base: base("Hi, how are you?"), example: false }),
        Message::AI(AIMessage { base: base("Good, how are you?"), example: false }),
    ];
    assert_eq!(
        get_buffer_string(messages),
        "Human: Hi, how are you?\nAI: Good, how are you?"
    );
}

#[test]
fn chat_message_uses_its_role() {
    let m = Message::Chat(ChatMessage { base: base("hello"), role: "Narrator".to_string() });
    assert_eq!(m.to_buffer_line(), "Narrator: hello");
}

#[test]
fn split_then_ingest_then_search() {
    let sp = RecursiveCharacterTextSplitter::new(
        20,
        0,
        Some(vec!["\n\n".to_string(), " ".to_string(), "".to_string()]),
    );
    let chunks = sp.split_document(vec![Document::new(
        "rust is fast\n\npython is easy\n\nverus proves code",
        0,
    )]);
    assert_eq!(chunks.len(), 3);
    let mut store = InMemoryVectorStore {
        embeddings: Some(CharFrequencyEmbedding),
        documents: Vec::new(),
        next_id: 0,
    };
    let ids = store.add_document(chunks).unwrap();
    assert_eq!(ids.len(), 3);
    let top = store.similarity_search("rust is fast", Some(1)).unwrap();
    assert_eq!(top.len(), 1);
    assert_eq!(top[0].page_content, "rust is fast");
}
