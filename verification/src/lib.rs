//! Document retrieval core: a recursive, separator-driven text splitter and
//! an exact in-memory vector store over quantized embedding vectors.

pub mod document;
pub mod document_loaders;
pub mod embeddings;
pub mod ids;
pub mod message;
pub mod output;
pub mod prompt;
pub mod retriever;
pub mod text;
pub mod text_splitter;
pub mod vectorstores;
