//! An exact, in-memory vector store: documents keyed by fresh identifiers,
//! similarity queries answered by ranking every stored vector against the
//! query.

use vstd::prelude::*;
use vstd::assert_multisets_equal;

use crate::document::{Document, EmptyMetadata};
use crate::embeddings::{
    EmbeddingError, EmbeddingVector, Embeddings, MAX_DIMENSION, lemma_sim_le_total,
    lemma_sim_le_trans, sim_le, similarity_le,
};
use crate::ids::{dec_str, id_to_string, parse_id, spec_parse};

verus! {

/// Metadata carrying the vector a document was embedded to.
#[derive(Clone, Debug)]
pub struct VectorMetadata(pub EmbeddingVector);

/// How a vector store operation fails.
#[derive(Debug)]
pub enum VectorStoreError {
    /// The operation needs an embedding provider and none is bound.
    NotConfigured,
    /// The embedding provider reported a failure, surfaced verbatim.
    EmbeddingProviderError(String),
}

/// What a stored document amounts to: content, lookup fields, and the
/// embedded vector if any.
pub open spec fn doc_model(d: Document<VectorMetadata>) -> (
    Seq<char>,
    Seq<char>,
    int,
    Option<Seq<i16>>,
) {
    (
        d.page_content@,
        d.lookup_str@,
        d.lookup_index as int,
        match d.metadata {
            Some(m) => Some(m.0@),
            None => None,
        },
    )
}

/// The vector a model ranks by; an absent vector counts as degenerate.
pub open spec fn model_vector(m: (Seq<char>, Seq<char>, int, Option<Seq<i16>>)) -> Seq<i16> {
    match m.3 {
        Some(v) => v,
        None => Seq::empty(),
    }
}

pub open spec fn models_seq(docs: Seq<Document<VectorMetadata>>) -> Seq<
    (Seq<char>, Seq<char>, int, Option<Seq<i16>>),
> {
    docs.map_values(|d: Document<VectorMetadata>| doc_model(d))
}

pub open spec fn entry_models(entries: Seq<(u64, Document<VectorMetadata>)>) -> Seq<
    (Seq<char>, Seq<char>, int, Option<Seq<i16>>),
> {
    entries.map_values(|e: (u64, Document<VectorMetadata>)| doc_model(e.1))
}

/// Non-increasing similarity against the query, later entries never above
/// earlier ones.
pub open spec fn sorted_desc(
    qv: Seq<i16>,
    ms: Seq<(Seq<char>, Seq<char>, int, Option<Seq<i16>>)>,
) -> bool {
    forall|i: int, j: int|
        0 <= i <= j < ms.len() ==> sim_le(qv, model_vector(#[trigger] ms[j]), model_vector(
            #[trigger] ms[i],
        ))
}

/// `s` witnesses that `out` is a top-`k` answer: some full descending
/// ordering of all stored documents whose first `min(k, n)` models are
/// exactly the answer.
pub open spec fn is_ranking(
    entries: Seq<(u64, Document<VectorMetadata>)>,
    qv: Seq<i16>,
    k: int,
    out: Seq<Document<VectorMetadata>>,
    s: Seq<(Seq<char>, Seq<char>, int, Option<Seq<i16>>)>,
) -> bool {
    &&& s.to_multiset() == entry_models(entries).to_multiset()
    &&& sorted_desc(qv, s)
    &&& models_seq(out) == s.take(
        if k <= s.len() {
            k
        } else {
            s.len() as int
        },
    )
}

/// `out` consists of the `k` stored documents most similar to the query
/// vector, in non-increasing order, ties resolved arbitrarily.
pub open spec fn ranked_result(
    entries: Seq<(u64, Document<VectorMetadata>)>,
    qv: Seq<i16>,
    k: int,
    out: Seq<Document<VectorMetadata>>,
) -> bool {
    exists|s: Seq<(Seq<char>, Seq<char>, int, Option<Seq<i16>>)>|
        #[trigger] is_ranking(entries, qv, k, out, s)
}

/// The identifiers an entry sequence holds, after removing those named by
/// the given strings.
pub open spec fn parsed_ids(ids: Seq<String>) -> Set<u64> {
    Set::new(
        |x: u64|
            exists|i: int| 0 <= i < ids.len() && spec_parse((#[trigger] ids[i])@) == Some(x as int),
    )
}

/// The entries that survive deleting a set of identifiers, order kept.
pub open spec fn remaining_entries(
    entries: Seq<(u64, Document<VectorMetadata>)>,
    removed: Set<u64>,
) -> Seq<(u64, Document<VectorMetadata>)> {
    entries.filter(|e: (u64, Document<VectorMetadata>)| !removed.contains(e.0))
}

/// A deep copy of a stored document: same content, lookup fields and
/// vector.
fn copy_document(d: &Document<VectorMetadata>) -> (r: Document<VectorMetadata>)
    ensures
        doc_model(r) == doc_model(*d),
{
    let metadata = match &d.metadata {
        Some(m) => {
            let comps = m.0.components.clone();
            proof {
                assert(comps@ =~= m.0.components@);
            }
            Some(VectorMetadata(EmbeddingVector { components: comps }))
        },
        None => None,
    };
    Document {
        page_content: d.page_content.clone(),
        lookup_str: d.lookup_str.clone(),
        lookup_index: d.lookup_index,
        metadata,
    }
}

/// A flat, exact, in-memory vector store bound to at most one embedding
/// provider. Identifiers are generated from a counter and never reused.
#[derive(Clone)]
pub struct InMemoryVectorStore<E: Embeddings + Clone> {
    pub embeddings: Option<E>,
    pub documents: Vec<(u64, Document<VectorMetadata>)>,
    pub next_id: u64,
}

/// A read-oriented handle sharing the store, a seam for future filtering;
/// currently pass-through.
pub struct VectorStoreRetriever<S> {
    pub vectorstore: S,
}

impl<S> VectorStoreRetriever<S> {
    pub fn new(vectorstore: S) -> (r: Self)
        ensures
            r.vectorstore == vectorstore,
    {
        Self { vectorstore }
    }
}

impl<E: Embeddings + Clone> InMemoryVectorStore<E> {
    /// Entries carry strictly increasing identifiers below the counter,
    /// and every entry holds a comparable vector.
    pub open spec fn wf(&self) -> bool {
        &&& forall|i: int, j: int|
            0 <= i < j < self.documents@.len() ==> (#[trigger] self.documents@[i]).0 < (
            #[trigger] self.documents@[j]).0
        &&& forall|i: int|
            0 <= i < self.documents@.len() ==> (#[trigger] self.documents@[i]).0 < self.next_id
        &&& forall|i: int|
            0 <= i < self.documents@.len() ==> ((#[trigger] self.documents@[i]).1.metadata
                matches Some(m) && m.0@.len() <= MAX_DIMENSION)
    }

    /// An empty store with no provider bound.
    pub fn new() -> (r: Self)
        ensures
            r.wf(),
            r.embeddings is None,
            r.documents@.len() == 0,
            r.next_id == 0,
    {
        InMemoryVectorStore { embeddings: None, documents: Vec::new(), next_id: 0 }
    }

    /// A store bound to the given provider, filled with the given
    /// documents in one batched ingestion; nothing is committed on failure.
    pub fn from_document(documents: Vec<Document<EmptyMetadata>>, embeddings: E) -> (r: Result<
        Self,
        VectorStoreError,
    >)
        requires
            documents@.len() <= u64::MAX,
        ensures
            r matches Ok(st) ==> {
                &&& st.wf()
                &&& st.embeddings == Some(embeddings)
                &&& st.documents@.len() == documents@.len()
                &&& st.next_id == documents@.len()
                &&& forall|i: int|
                    0 <= i < documents@.len() ==> {
                        let e = #[trigger] st.documents@[i];
                        &&& e.0 == i
                        &&& e.1.page_content@ == documents@[i].page_content@
                        &&& e.1.metadata matches Some(m) && m.0@ == embeddings.spec_embed(
                            documents@[i].page_content@,
                        )
                    }
            },
            r matches Err(e) ==> e is EmbeddingProviderError,
    {
        let mut store = InMemoryVectorStore {
            embeddings: Some(embeddings),
            documents: Vec::new(),
            next_id: 0,
        };
        let ghost pre = store;
        match store.add_document(documents) {
            Ok(_) => {
                proof {
                    assert(pre.documents@.len() == 0);
                    assert forall|i: int| 0 <= i < documents@.len() implies {
                        let e = #[trigger] store.documents@[i];
                        &&& e.0 == i
                        &&& e.1.page_content@ == documents@[i].page_content@
                        &&& e.1.metadata matches Some(m) && m.0@ == embeddings.spec_embed(
                            documents@[i].page_content@,
                        )
                    } by {
                        assert(store.documents@[pre.documents@.len() + i] == store.documents@[i]);
                    }
                }
                Ok(store)
            },
            Err(e) => Err(e),
        }
    }

    /// The provider this store is bound to.
    pub fn embeddings(&self) -> (r: &Option<E>)
        ensures
            r == &self.embeddings,
    {
        &self.embeddings
    }

    /// A retriever handle over a copy of this store: the same entries
    /// under the same identifiers, the same counter, and a provider
    /// exactly when this store has one.
    pub fn as_retriever(&self) -> (r: VectorStoreRetriever<Self>)
        requires
            self.wf(),
        ensures
            r.vectorstore.wf(),
            r.vectorstore.next_id == self.next_id,
            r.vectorstore.documents@.len() == self.documents@.len(),
            forall|i: int|
                0 <= i < self.documents@.len() ==> (#[trigger] r.vectorstore.documents@[i]).0
                    == self.documents@[i].0 && doc_model(r.vectorstore.documents@[i].1)
                    == doc_model(self.documents@[i].1),
            r.vectorstore.embeddings is Some <==> self.embeddings is Some,
    {
        let embeddings = match &self.embeddings {
            Some(e) => Some(e.clone()),
            None => None,
        };
        let mut documents: Vec<(u64, Document<VectorMetadata>)> = Vec::new();
        let mut i: usize = 0;
        while i < self.documents.len()
            invariant
                0 <= i <= self.documents@.len(),
                self.wf(),
                documents@.len() == i,
                forall|k: int|
                    0 <= k < i ==> (#[trigger] documents@[k]).0 == self.documents@[k].0
                        && doc_model(documents@[k].1) == doc_model(self.documents@[k].1),
            decreases self.documents@.len() - i,
        {
            let id = self.documents[i].0;
            documents.push((id, copy_document(&self.documents[i].1)));
            i += 1;
        }
        let store = InMemoryVectorStore { embeddings, documents, next_id: self.next_id };
        proof {
            assert forall|p: int, q: int|
                0 <= p < q < store.documents@.len() implies (#[trigger] store.documents@[p]).0 < (
                #[trigger] store.documents@[q]).0 by {
                assert(store.documents@[p].0 == self.documents@[p].0);
                assert(store.documents@[q].0 == self.documents@[q].0);
            }
            assert forall|p: int|
                0 <= p < store.documents@.len() implies ((
                #[trigger] store.documents@[p]).1.metadata matches Some(m) && m.0@.len()
                    <= MAX_DIMENSION) by {
                assert(doc_model(store.documents@[p].1).3 == doc_model(self.documents@[p].1).3);
            }
        }
        VectorStoreRetriever::new(store)
    }

    /// Persist documents under fresh identifiers with the vectors already
    /// in hand, one vector per document, and return the identifiers.
    pub fn add_document_vectors(
        &mut self,
        documents: Vec<Document<EmptyMetadata>>,
        vectors: Vec<EmbeddingVector>,
    ) -> (r: Vec<String>)
        requires
            old(self).wf(),
            vectors@.len() == documents@.len(),
            old(self).next_id + documents@.len() <= u64::MAX,
            forall|i: int| 0 <= i < vectors@.len() ==> (#[trigger] vectors@[i]).wf(),
        ensures
            final(self).wf(),
            final(self).embeddings == old(self).embeddings,
            final(self).next_id == old(self).next_id + documents@.len(),
            final(self).documents@.len() == old(self).documents@.len() + documents@.len(),
            forall|i: int|
                0 <= i < old(self).documents@.len() ==> #[trigger] final(self).documents@[i]
                    == old(self).documents@[i],
            forall|i: int|
                0 <= i < documents@.len() ==> {
                    let e = #[trigger] final(self).documents@[old(self).documents@.len() + i];
                    &&& e.0 == old(self).next_id + i
                    &&& e.1.page_content@ == documents@[i].page_content@
                    &&& e.1.lookup_str@ == documents@[i].lookup_str@
                    &&& e.1.lookup_index == documents@[i].lookup_index
                    &&& e.1.metadata matches Some(m) && m.0@ == vectors@[i]@
                },
            r@.len() == documents@.len(),
            forall|i: int|
                0 <= i < r@.len() ==> (#[trigger] r@[i])@ == dec_str(old(self).next_id + i),
    {
        let mut ids: Vec<String> = Vec::new();
        let n = documents.len();
        let mut i: usize = 0;
        while i < n
            invariant
                0 <= i <= n,
                n == documents@.len(),
                n == vectors@.len(),
                old(self).wf(),
                old(self).next_id + n <= u64::MAX,
                forall|k: int| 0 <= k < vectors@.len() ==> (#[trigger] vectors@[k]).wf(),
                self.embeddings == old(self).embeddings,
                self.next_id == old(self).next_id + i,
                self.documents@.len() == old(self).documents@.len() + i,
                forall|k: int|
                    0 <= k < old(self).documents@.len() ==> #[trigger] self.documents@[k] == old(
                        self,
                    ).documents@[k],
                forall|k: int|
                    0 <= k < i ==> {
                        let e = #[trigger] self.documents@[old(self).documents@.len() + k];
                        &&& e.0 == old(self).next_id + k
                        &&& e.1.page_content@ == documents@[k].page_content@
                        &&& e.1.lookup_str@ == documents@[k].lookup_str@
                        &&& e.1.lookup_index == documents@[k].lookup_index
                        &&& e.1.metadata matches Some(m) && m.0@ == vectors@[k]@
                    },
                self.wf(),
                ids@.len() == i,
                forall|k: int|
                    0 <= k < i ==> (#[trigger] ids@[k])@ == dec_str(old(self).next_id + k),
            decreases n - i,
        {
            let id = self.next_id;
            let doc = &documents[i];
            let vcopy = vectors[i].components.clone();
            proof {
                assert(vcopy@ =~= vectors@[i as int].components@);
            }
            let stored = Document {
                page_content: doc.page_content.clone(),
                lookup_str: doc.lookup_str.clone(),
                lookup_index: doc.lookup_index,
                metadata: Some(VectorMetadata(EmbeddingVector { components: vcopy })),
            };
            self.documents.push((id, stored));
            ids.push(id_to_string(id));
            self.next_id = id + 1;
            i += 1;
        }
        ids
    }

    /// Embed each document through the bound provider (one batched call)
    /// and persist all of them under fresh identifiers; with no provider
    /// bound, or on a provider failure, nothing is committed.
    pub fn add_document(&mut self, documents: Vec<Document<EmptyMetadata>>) -> (r: Result<
        Vec<String>,
        VectorStoreError,
    >)
        requires
            old(self).wf(),
            old(self).next_id + documents@.len() <= u64::MAX,
        ensures
            final(self).wf(),
            old(self).embeddings is None ==> (r matches Err(e) && e is NotConfigured
                && *final(self) == *old(self)),
            old(self).embeddings matches Some(p) ==> match r {
                Ok(ids) => {
                    &&& final(self).embeddings == old(self).embeddings
                    &&& final(self).next_id == old(self).next_id + documents@.len()
                    &&& final(self).documents@.len() == old(self).documents@.len()
                        + documents@.len()
                    &&& forall|i: int|
                        0 <= i < old(self).documents@.len() ==> (#[trigger] final(self).documents@[i]) == old(self).documents@[i]
                    &&& forall|i: int|
                        0 <= i < documents@.len() ==> {
                            let e = #[trigger] final(self).documents@[old(self).documents@.len()
                                + i];
                            &&& e.0 == old(self).next_id + i
                            &&& e.1.page_content@ == documents@[i].page_content@
                            &&& e.1.metadata matches Some(m) && m.0@ == p.spec_embed(
                                documents@[i].page_content@,
                            )
                        }
                    &&& ids@.len() == documents@.len()
                    &&& forall|i: int|
                        0 <= i < ids@.len() ==> (#[trigger] ids@[i])@ == dec_str(
                            old(self).next_id + i,
                        )
                },
                Err(e) => e is EmbeddingProviderError && *final(self) == *old(self),
            },
    {
        let vectors = match &self.embeddings {
            None => {
                return Err(VectorStoreError::NotConfigured);
            },
            Some(provider) => {
                match provider.embed_document(&documents) {
                    Ok(vs) => vs,
                    Err(e) => {
                        return Err(VectorStoreError::EmbeddingProviderError(e.message));
                    },
                }
            },
        };
        Ok(self.add_document_vectors(documents, vectors))
    }

    /// Remove the entries whose identifiers appear in `ids`; strings that
    /// are not identifiers are skipped silently. Reports whether at least
    /// one entry was removed. Never fails.
    pub fn delete_document(&mut self, ids: Vec<String>) -> (r: Result<bool, VectorStoreError>)
        requires
            old(self).wf(),
        ensures
            final(self).wf(),
            final(self).embeddings == old(self).embeddings,
            final(self).next_id == old(self).next_id,
            final(self).documents@ == remaining_entries(old(self).documents@, parsed_ids(ids@)),
            r matches Ok(b) && b == (final(self).documents@.len() < old(self).documents@.len()),
    {
        let ghost removed = parsed_ids(ids@);
        let ghost orig = old(self).documents@;
        let old_len = self.documents.len();
        let mut i: usize = 0;
        let ghost j: int = 0;
        proof {
            assert(orig.take(0int) =~= Seq::<(u64, Document<VectorMetadata>)>::empty());
            assert(remaining_entries(orig.take(0int), removed) =~= Seq::<
                (u64, Document<VectorMetadata>),
            >::empty());
            assert(orig.skip(0) =~= orig);
            assert(self.documents@ =~= remaining_entries(orig.take(0int), removed) + orig.skip(0));
        }
        while i < self.documents.len()
            invariant
                0 <= i,
                0 <= j <= orig.len(),
                i == remaining_entries(orig.take(j), removed).len(),
                self.documents@ == remaining_entries(orig.take(j), removed) + orig.skip(j),
                self.embeddings == old(self).embeddings,
                self.next_id == old(self).next_id,
                old(self).wf(),
                orig == old(self).documents@,
                removed == parsed_ids(ids@),
            decreases self.documents@.len() - i,
        {
            let ghost e = orig[j];
            proof {
                assert(orig.skip(j)[0] == orig[j]);
                assert(self.documents@[i as int] == orig[j]);
            }
            let is_removed = Self::id_in_list(self.documents[i].0, &ids);
            let ghost pre = self.documents@;
            if is_removed {
                self.documents.remove(i);
            } else {
                i += 1;
            }
            proof {
                lemma_remaining_take_succ(orig, removed, j);
                assert(orig.skip(j).skip(1) =~= orig.skip(j + 1));
                if removed.contains(e.0) {
                    assert(remaining_entries(orig.take(j + 1), removed) =~= remaining_entries(
                        orig.take(j),
                        removed,
                    ));
                    assert(self.documents@ =~= pre.remove(i as int));
                    assert(pre.remove(i as int) =~= remaining_entries(orig.take(j + 1), removed)
                        + orig.skip(j + 1));
                } else {
                    assert(remaining_entries(orig.take(j + 1), removed) =~= remaining_entries(
                        orig.take(j),
                        removed,
                    ).push(e));
                    assert(self.documents@ =~= remaining_entries(orig.take(j + 1), removed)
                        + orig.skip(j + 1));
                }
            }
            proof {
                j = j + 1;
            }
        }
        proof {
            assert(orig.take(orig.len() as int) =~= orig);
            assert(orig.skip(orig.len() as int) =~= Seq::<(u64, Document<VectorMetadata>)>::empty());
            assert(self.documents@ =~= remaining_entries(orig, removed));
            lemma_remaining_props(orig, removed);
        }
        let deleted = self.documents.len() < old_len;
        Ok(deleted)
    }

    /// Whether some string in the list denotes this identifier.
    fn id_in_list(id: u64, ids: &Vec<String>) -> (r: bool)
        ensures
            r == parsed_ids(ids@).contains(id),
    {
        let mut t: usize = 0;
        while t < ids.len()
            invariant
                0 <= t <= ids@.len(),
                forall|p: int| 0 <= p < t ==> spec_parse((#[trigger] ids@[p])@) != Some(id as int),
            decreases ids@.len() - t,
        {
            match parse_id(ids[t].as_str()) {
                Some(v) => {
                    if v == id {
                        proof {
                            assert(spec_parse(ids@[t as int]@) == Some(id as int));
                            assert(parsed_ids(ids@).contains(id));
                        }
                        return true;
                    }
                },
                None => {},
            }
            t += 1;
        }
        proof {
            if parsed_ids(ids@).contains(id) {
                let w = choose|p: int|
                    0 <= p < ids@.len() && spec_parse((#[trigger] ids@[p])@) == Some(id as int);
                assert(false);
            }
        }
        false
    }

    /// All stored documents ranked by similarity to the given query
    /// vector, most similar first, truncated to the first `k`.
    pub fn similarity_search_vector(&self, query_vector: &EmbeddingVector, k: usize) -> (r: Vec<
        Document<VectorMetadata>,
    >)
        requires
            self.wf(),
            query_vector.wf(),
        ensures
            ranked_result(self.documents@, query_vector@, k as int, r@),
            r@.len() == if k as int <= self.documents@.len() {
                k as int
            } else {
                self.documents@.len() as int
            },
    {
        let mut docs: Vec<Document<VectorMetadata>> = Vec::new();
        let mut i: usize = 0;
        while i < self.documents.len()
            invariant
                0 <= i <= self.documents@.len(),
                self.wf(),
                docs@.len() == i,
                forall|p: int|
                    0 <= p < i ==> doc_model(#[trigger] docs@[p]) == doc_model(
                        self.documents@[p].1,
                    ),
            decreases self.documents@.len() - i,
        {
            docs.push(copy_document(&self.documents[i].1));
            i += 1;
        }
        proof {
            assert forall|p: int| 0 <= p < docs@.len() implies (#[trigger] docs@[p]).metadata
                matches Some(m) && m.0@.len() <= MAX_DIMENSION by {
                assert(doc_model(docs@[p]).3 == doc_model(self.documents@[p].1).3);
            }
            assert(models_seq(docs@) =~= entry_models(self.documents@));
        }
        let ghost docsv = docs@;
        let sorted = sort_by_similarity(query_vector, docs);
        let n2 = sorted.len();
        let kk = if k <= n2 {
            k
        } else {
            n2
        };
        let mut out: Vec<Document<VectorMetadata>> = Vec::new();
        let mut t: usize = 0;
        while t < kk
            invariant
                0 <= t <= kk <= sorted@.len(),
                out@.len() == t,
                forall|p: int|
                    0 <= p < t ==> doc_model(#[trigger] out@[p]) == doc_model(sorted@[p]),
            decreases kk - t,
        {
            out.push(copy_document(&sorted[t]));
            t += 1;
        }
        proof {
            let s = models_seq(sorted@);
            assert(models_seq(out@) =~= s.take(kk as int));
            assert(models_seq(docsv).to_multiset() == entry_models(
                self.documents@,
            ).to_multiset());
            assert(s.to_multiset() == entry_models(self.documents@).to_multiset());
            assert(s.len() == s.to_multiset().len()) by {
                broadcast use vstd::seq_lib::group_to_multiset_ensures;

            }
            assert(entry_models(self.documents@).len() == entry_models(
                self.documents@,
            ).to_multiset().len()) by {
                broadcast use vstd::seq_lib::group_to_multiset_ensures;

            }
            assert(s.len() == self.documents@.len());
            assert(is_ranking(self.documents@, query_vector@, k as int, out@, s));
        }
        out
    }

    /// Embed the query through the bound provider (one call) and return
    /// the `k` most similar stored documents, most similar first; all of
    /// them if fewer than `k` are stored. An empty store yields an empty
    /// answer. `k` defaults to four.
    pub fn similarity_search(&self, query: &str, k: Option<usize>) -> (r: Result<
        Vec<Document<VectorMetadata>>,
        VectorStoreError,
    >)
        requires
            self.wf(),
        ensures
            self.embeddings is None ==> (r matches Err(e) && e is NotConfigured),
            self.embeddings matches Some(p) ==> match r {
                Ok(docs) => {
                    let kv = if k is Some {
                        k->0 as int
                    } else {
                        4int
                    };
                    &&& ranked_result(self.documents@, p.spec_embed(query@), kv, docs@)
                    &&& docs@.len() == if kv <= self.documents@.len() {
                        kv
                    } else {
                        self.documents@.len() as int
                    }
                },
                Err(e) => e is EmbeddingProviderError,
            },
    {
        let k_val: usize = match k {
            Some(v) => v,
            None => 4,
        };
        match &self.embeddings {
            None => Err(VectorStoreError::NotConfigured),
            Some(provider) => {
                match provider.embed_query(query) {
                    Ok(qv) => Ok(self.similarity_search_vector(&qv, k_val)),
                    Err(e) => Err(VectorStoreError::EmbeddingProviderError(e.message)),
                }
            },
        }
    }
}

/// The vector a stored document ranks by.
fn doc_vector<'a>(d: &'a Document<VectorMetadata>) -> (r: &'a EmbeddingVector)
    requires
        (d.metadata matches Some(m) && m.0@.len() <= MAX_DIMENSION),
    ensures
        r@ == model_vector(doc_model(*d)),
        r.wf(),
{
    match &d.metadata {
        Some(m) => &m.0,
        None => vstd::pervasive::unreached(),
    }
}

/// Selection sort by similarity against the query vector, most similar
/// first: repeatedly move a most-similar remaining document to the output.
fn sort_by_similarity(q: &EmbeddingVector, docs: Vec<Document<VectorMetadata>>) -> (r: Vec<
    Document<VectorMetadata>,
>)
    requires
        q.wf(),
        forall|i: int|
            0 <= i < docs@.len() ==> ((#[trigger] docs@[i]).metadata matches Some(m) && m.0@.len()
                <= MAX_DIMENSION),
    ensures
        r@.len() == docs@.len(),
        models_seq(r@).to_multiset() == models_seq(docs@).to_multiset(),
        sorted_desc(q@, models_seq(r@)),
{
    let mut work = docs;
    let mut out: Vec<Document<VectorMetadata>> = Vec::new();
    proof {
        assert(models_seq(out@) =~= Seq::<(Seq<char>, Seq<char>, int, Option<Seq<i16>>)>::empty());
        broadcast use vstd::seq_lib::group_to_multiset_ensures;

        assert(models_seq(out@).to_multiset().add(models_seq(work@).to_multiset()) =~= models_seq(
            docs@,
        ).to_multiset());
    }
    while work.len() > 0
        invariant
            q.wf(),
            forall|i: int|
                0 <= i < work@.len() ==> ((#[trigger] work@[i]).metadata matches Some(m)
                    && m.0@.len() <= MAX_DIMENSION),
            out@.len() + work@.len() == docs@.len(),
            models_seq(out@).to_multiset().add(models_seq(work@).to_multiset()) == models_seq(
                docs@,
            ).to_multiset(),
            sorted_desc(q@, models_seq(out@)),
            forall|o: int, w: int|
                0 <= o < out@.len() && 0 <= w < work@.len() ==> sim_le(
                    q@,
                    model_vector(doc_model(#[trigger] work@[w])),
                    model_vector(doc_model(#[trigger] out@[o])),
                ),
        decreases work@.len(),
    {
        let mut m: usize = 0;
        let mut p: usize = 1;
        while p < work.len()
            invariant
                0 <= m < work@.len(),
                1 <= p <= work@.len(),
                q.wf(),
                forall|i: int|
                    0 <= i < work@.len() ==> ((#[trigger] work@[i]).metadata matches Some(mm)
                        && mm.0@.len() <= MAX_DIMENSION),
                forall|t: int|
                    0 <= t < p ==> sim_le(
                        q@,
                        model_vector(doc_model(#[trigger] work@[t])),
                        model_vector(doc_model(work@[m as int])),
                    ),
            decreases work@.len() - p,
        {
            let swap = similarity_le(q, doc_vector(&work[m]), doc_vector(&work[p]));
            if swap {
                proof {
                    let old_m = m as int;
                    assert forall|t: int| 0 <= t < p + 1 implies sim_le(
                        q@,
                        model_vector(doc_model(#[trigger] work@[t])),
                        model_vector(doc_model(work@[p as int])),
                    ) by {
                        if t < p {
                            lemma_sim_le_trans(
                                q@,
                                model_vector(doc_model(work@[t])),
                                model_vector(doc_model(work@[old_m])),
                                model_vector(doc_model(work@[p as int])),
                            );
                        } else {
                            lemma_sim_le_total(
                                q@,
                                model_vector(doc_model(work@[p as int])),
                                model_vector(doc_model(work@[p as int])),
                            );
                        }
                    }
                }
                m = p;
            } else {
                proof {
                    lemma_sim_le_total(
                        q@,
                        model_vector(doc_model(work@[m as int])),
                        model_vector(doc_model(work@[p as int])),
                    );
                }
            }
            p += 1;
        }
        let ghost wm = models_seq(work@);
        let ghost om = models_seq(out@);
        let ghost mi = m as int;
        let chosen = work.remove(m);
        out.push(chosen);
        proof {
            broadcast use vstd::seq_lib::group_to_multiset_ensures;

            assert(models_seq(work@) =~= wm.remove(mi));
            assert(models_seq(out@) =~= om.push(wm[mi]));
            assert(om.push(wm[mi]).to_multiset() =~= om.to_multiset().insert(wm[mi]));
            assert(wm.remove(mi).to_multiset() =~= wm.to_multiset().remove(wm[mi]));
            assert(wm.to_multiset().count(wm[mi]) > 0) by {
                assert(wm.contains(wm[mi]));
            }
            assert_multisets_equal!(
                om.to_multiset().insert(wm[mi]).add(wm.to_multiset().remove(wm[mi])),
                om.to_multiset().add(wm.to_multiset())
            );
            assert(models_seq(out@).to_multiset().add(models_seq(work@).to_multiset())
                =~= models_seq(docs@).to_multiset());
        }
    }
    proof {
        assert(models_seq(work@) =~= Seq::<(Seq<char>, Seq<char>, int, Option<Seq<i16>>)>::empty());
        broadcast use vstd::seq_lib::group_to_multiset_ensures;

        assert(models_seq(out@).to_multiset().add(models_seq(work@).to_multiset()) =~= models_seq(
            out@,
        ).to_multiset());
    }
    out
}

/// The first returned document ranks at least as high as every stored
/// entry. Together with self-similarity being maximal, a query equal to a
/// stored non-degenerate vector is answered by an entry of maximal
/// similarity.
pub proof fn lemma_top_result_maximal(
    entries: Seq<(u64, Document<VectorMetadata>)>,
    qv: Seq<i16>,
    k: int,
    out: Seq<Document<VectorMetadata>>,
)
    requires
        ranked_result(entries, qv, k, out),
        1 <= k,
        entries.len() >= 1,
    ensures
        out.len() >= 1,
        forall|i: int|
            0 <= i < entries.len() ==> sim_le(
                qv,
                model_vector(doc_model((#[trigger] entries[i]).1)),
                model_vector(doc_model(out[0])),
            ),
{
    broadcast use vstd::seq_lib::group_to_multiset_ensures;

    let s = choose|s: Seq<(Seq<char>, Seq<char>, int, Option<Seq<i16>>)>|
        #[trigger] is_ranking(entries, qv, k, out, s);
    assert(s.to_multiset().len() == entry_models(entries).to_multiset().len());
    assert(s.len() == entries.len());
    let kk = if k <= s.len() {
        k
    } else {
        s.len() as int
    };
    assert(models_seq(out).len() == kk);
    assert(out.len() >= 1);
    assert(models_seq(out)[0] == s[0]);
    assert(doc_model(out[0]) == s[0]);
    assert forall|i: int| 0 <= i < entries.len() implies sim_le(
        qv,
        model_vector(doc_model((#[trigger] entries[i]).1)),
        model_vector(doc_model(out[0])),
    ) by {
        let m = doc_model(entries[i].1);
        assert(entry_models(entries)[i] == m);
        assert(entry_models(entries).contains(m));
        assert(entry_models(entries).to_multiset().count(m) > 0);
        assert(s.to_multiset().count(m) > 0);
        assert(s.contains(m));
        let j = choose|j: int| 0 <= j < s.len() && s[j] == m;
        assert(sim_le(qv, model_vector(s[j]), model_vector(s[0])));
    }
}

/// What survives a filter: an increasing, in-order selection of the
/// original entries, none of them in the removed set.
pub proof fn lemma_remaining_props(
    entries: Seq<(u64, Document<VectorMetadata>)>,
    removed: Set<u64>,
)
    ensures
        forall|k: int|
            0 <= k < remaining_entries(entries, removed).len() ==> entries.contains(
                #[trigger] remaining_entries(entries, removed)[k],
            ) && !removed.contains(remaining_entries(entries, removed)[k].0),
        (forall|i: int, j: int|
            0 <= i < j < entries.len() ==> (#[trigger] entries[i]).0 < (#[trigger] entries[j]).0)
            ==> (forall|i: int, j: int|
            0 <= i < j < remaining_entries(entries, removed).len() ==> (
            #[trigger] remaining_entries(entries, removed)[i]).0 < (
            #[trigger] remaining_entries(entries, removed)[j]).0),
        remaining_entries(entries, removed).len() <= entries.len(),
    decreases entries.len(),
{
    reveal(Seq::filter);
    if entries.len() > 0 {
        let prefix = entries.drop_last();
        lemma_remaining_props(prefix, removed);
        assert(forall|k: int|
            0 <= k < prefix.len() ==> entries.contains(#[trigger] prefix[k])) by {
            assert(forall|k: int| 0 <= k < prefix.len() ==> prefix[k] == entries[k]);
        }
        let last = entries.last();
        let rest = remaining_entries(prefix, removed);
        if !removed.contains(last.0) {
            assert(remaining_entries(entries, removed) == rest.push(last));
            assert(entries.contains(last)) by {
                assert(entries[entries.len() - 1] == last);
            }
            if forall|i: int, j: int|
                0 <= i < j < entries.len() ==> (#[trigger] entries[i]).0 < (
                #[trigger] entries[j]).0 {
                assert forall|i: int, j: int|
                    0 <= i < j < rest.push(last).len() implies (#[trigger] rest.push(last)[i]).0
                    < (#[trigger] rest.push(last)[j]).0 by {
                    if j < rest.len() {
                    } else {
                        let w = choose|w: int| 0 <= w < prefix.len() && prefix[w] == rest[i];
                        assert(entries[w] == rest[i]);
                        assert(entries[w].0 < last.0);
                    }
                }
            }
        } else {
            assert(remaining_entries(entries, removed) == rest);
        }
    } else {
        assert(remaining_entries(entries, removed) =~= Seq::<
            (u64, Document<VectorMetadata>),
        >::empty());
    }
}

/// How the filtered prefix grows with one more original entry.
pub proof fn lemma_remaining_take_succ(
    entries: Seq<(u64, Document<VectorMetadata>)>,
    removed: Set<u64>,
    j: int,
)
    requires
        0 <= j < entries.len(),
    ensures
        remaining_entries(entries.take(j + 1), removed) == if removed.contains(entries[j].0) {
            remaining_entries(entries.take(j), removed)
        } else {
            remaining_entries(entries.take(j), removed).push(entries[j])
        },
{
    reveal(Seq::filter);
    let p = entries.take(j + 1);
    assert(p.drop_last() =~= entries.take(j));
    assert(p.last() == entries[j]);
}

} // verus!
