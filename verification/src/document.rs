//! The document value that the splitter produces and the vector store holds.

use vstd::prelude::*;

verus! {

/// Metadata for documents that carry none.
#[derive(Clone, Copy, PartialEq, Eq, Structural, Debug)]
pub struct EmptyMetadata;

/// A piece of text with traceability information.
///
/// `page_content` is never mutated after creation; `lookup_index` records the
/// position of this piece within the source it was produced from.
#[derive(Clone, Debug)]
pub struct Document<M> {
    pub page_content: String,
    pub lookup_str: String,
    pub lookup_index: usize,
    pub metadata: Option<M>,
}

impl<M> Document<M> {
    pub fn new(page_content: &str, lookup_index: usize) -> (r: Self)
        ensures
            r.page_content@ == page_content@,
            r.lookup_str@ == Seq::<char>::empty(),
            r.lookup_index == lookup_index,
            r.metadata is None,
    {
        Document {
            page_content: String::from_str(page_content),
            lookup_str: String::new(),
            lookup_index,
            metadata: None,
        }
    }
}

} // verus!
