//! The document-retrieval capability: something that takes string queries
//! and returns the most relevant documents from some source.

use vstd::prelude::*;

verus! {

/// Marker for document retrieval systems.
pub trait BaseRetriever {

}

} // verus!
