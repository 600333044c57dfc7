//! Recursive, separator-driven text splitting with bounded chunk size and
//! overlap carried between consecutive chunks.

use vstd::prelude::*;

use crate::document::{Document, EmptyMetadata};
use crate::text::{
    contains_sep, contains_str, is_substring, join_strings, join_with, lemma_join_len,
    lemma_join_split_chars, lemma_join_split_on, lemma_join_subrange_substring,
    lemma_piece_le_sum, lemma_split_pieces_short, lemma_substring_len_le, lemma_substring_trans,
    lemma_trim_substring,
    pieces_of, spec_trim, split_chars, split_chars_str, split_on, split_str, sum_lens, trim_str,
    views_of,
};

verus! {

/// Some separator in the list is the empty string, the fallback that always
/// matches.
pub open spec fn has_empty_sep(seps: Seq<Seq<char>>) -> bool {
    exists|i: int| 0 <= i < seps.len() && (#[trigger] seps[i]).len() == 0
}

/// The first separator that is empty or occurs in the text.
pub open spec fn spec_choose_sep(seps: Seq<Seq<char>>, text: Seq<char>) -> Seq<char>
    decreases seps.len(),
{
    if seps.len() == 0 {
        Seq::empty()
    } else if seps[0].len() == 0 || contains_sep(text, seps[0]) {
        seps[0]
    } else {
        spec_choose_sep(seps.skip(1), text)
    }
}

/// The chosen separator is empty or occurs in the text.
pub proof fn lemma_choose_sep(seps: Seq<Seq<char>>, text: Seq<char>)
    requires
        has_empty_sep(seps),
    ensures
        spec_choose_sep(seps, text).len() == 0 || contains_sep(text, spec_choose_sep(seps, text)),
    decreases seps.len(),
{
    let i = choose|i: int| 0 <= i < seps.len() && (#[trigger] seps[i]).len() == 0;
    if seps[0].len() == 0 || contains_sep(text, seps[0]) {
    } else {
        assert(0 <= i - 1 < seps.skip(1).len() && seps.skip(1)[i - 1].len() == 0);
        lemma_choose_sep(seps.skip(1), text);
    }
}

/// The pieces of the text under its chosen separator.
pub open spec fn spec_pieces(seps: Seq<Seq<char>>, text: Seq<char>) -> Seq<Seq<char>> {
    pieces_of(text, spec_choose_sep(seps, text))
}

/// The sum of the piece lengths never exceeds the text's length.
pub proof fn lemma_sum_pieces_le(text: Seq<char>, sep: Seq<char>)
    ensures
        sum_lens(pieces_of(text, sep)) <= text.len(),
{
    let pieces = pieces_of(text, sep);
    if sep.len() == 0 {
        lemma_join_split_chars(text);
        if pieces.len() >= 1 {
            lemma_join_len(pieces, Seq::<char>::empty());
        }
    } else {
        lemma_join_split_on(text, sep);
        crate::text::lemma_split_on_nonempty(text, sep);
        lemma_join_len(pieces, sep);
        let n = pieces.len() as int;
        let a = sep.len() as int;
        assert(a * (n - 1) >= 0) by (nonlinear_arith)
            requires
                a >= 0,
                n >= 1,
        ;
    }
}

/// The length of the join of the pieces: their lengths plus one separator
/// between each consecutive pair.
pub open spec fn join_len(pieces: Seq<Seq<char>>, sep: Seq<char>) -> int {
    if pieces.len() == 0 {
        0
    } else {
        sum_lens(pieces) + sep.len() * (pieces.len() - 1)
    }
}

/// One step of shrinking the pending window from the front, as overlap
/// control performs it before admitting a piece of length `len`. The
/// running total is the joined length, separators included.
pub open spec fn merge_shrink(
    window: Seq<Seq<char>>,
    total: int,
    len: int,
    sep: Seq<char>,
    cs: int,
    ov: int,
) -> (Seq<Seq<char>>, int)
    decreases window.len(),
{
    if window.len() == 0 {
        (window, total)
    } else if total > ov || total + len + sep.len() > cs {
        merge_shrink(
            window.skip(1),
            total - window[0].len() - (if window.len() > 1 {
                sep.len() as int
            } else {
                0
            }),
            len,
            sep,
            cs,
            ov,
        )
    } else {
        (window, total)
    }
}

/// Admitting one piece into the merge state: when the joined length would
/// exceed the bound, emit the pending window as a chunk and shrink it;
/// then append the piece, counting the separator it joins across.
pub open spec fn merge_step(
    st: (Seq<Seq<char>>, Seq<Seq<char>>, int),
    piece: Seq<char>,
    sep: Seq<char>,
    cs: int,
    ov: int,
) -> (Seq<Seq<char>>, Seq<Seq<char>>, int) {
    let (docs, window, total) = st;
    let len = piece.len() as int;
    let extra = if window.len() > 0 {
        sep.len() as int
    } else {
        0
    };
    let (docs1, window1, total1) = if total + len + extra > cs && window.len() > 0 {
        let t = spec_trim(join_with(window, sep));
        let docs_a = if t.len() > 0 {
            docs.push(t)
        } else {
            docs
        };
        let (w2, t2) = merge_shrink(window, total, len, sep, cs, ov);
        (docs_a, w2, t2)
    } else {
        (docs, window, total)
    };
    let extra2 = if window1.len() > 0 {
        sep.len() as int
    } else {
        0
    };
    (docs1, window1.push(piece), total1 + len + extra2)
}

/// The chunks that merging produces, processing the pieces from index `i`
/// onward and finally flushing the pending window.
pub open spec fn merge_from(
    pieces: Seq<Seq<char>>,
    i: int,
    st: (Seq<Seq<char>>, Seq<Seq<char>>, int),
    sep: Seq<char>,
    cs: int,
    ov: int,
) -> Seq<Seq<char>>
    decreases pieces.len() - i,
    when 0 <= i <= pieces.len()
{
    if i >= pieces.len() {
        let (docs, window, total) = st;
        let t = spec_trim(join_with(window, sep));
        if t.len() > 0 {
            docs.push(t)
        } else {
            docs
        }
    } else {
        merge_from(pieces, i + 1, merge_step(st, pieces[i], sep, cs, ov), sep, cs, ov)
    }
}

/// The chunks that merging a run of pieces produces.
pub open spec fn spec_merge(pieces: Seq<Seq<char>>, sep: Seq<char>, cs: int, ov: int) -> Seq<
    Seq<char>,
> {
    merge_from(
        pieces,
        0,
        (Seq::<Seq<char>>::empty(), Seq::<Seq<char>>::empty(), 0),
        sep,
        cs,
        ov,
    )
}

/// The chunks of a text: pieces under the chosen separator, short pieces
/// merged greedily, oversized pieces split recursively.
pub open spec fn spec_split_text(cs: int, ov: int, seps: Seq<Seq<char>>, text: Seq<char>) -> Seq<
    Seq<char>,
>
    decreases text.len(), 1int, 0int,
    when 2 <= cs && has_empty_sep(seps)
{
    split_pieces(cs, ov, seps, text, 0, Seq::empty(), Seq::empty())
}

/// Processing the pieces of `text` from index `i`: `good` is the pending run
/// of short pieces, `acc` the chunks already produced.
pub open spec fn split_pieces(
    cs: int,
    ov: int,
    seps: Seq<Seq<char>>,
    text: Seq<char>,
    i: int,
    good: Seq<Seq<char>>,
    acc: Seq<Seq<char>>,
) -> Seq<Seq<char>>
    decreases text.len(), 0int, spec_pieces(seps, text).len() - i,
    when 2 <= cs && has_empty_sep(seps) && 0 <= i <= spec_pieces(seps, text).len()
    via split_pieces_decreases
{
    let sep = spec_choose_sep(seps, text);
    let pieces = pieces_of(text, sep);
    if i >= pieces.len() {
        if good.len() > 0 {
            acc + spec_merge(good, sep, cs, ov)
        } else {
            acc
        }
    } else {
        let p = pieces[i];
        if p.len() < cs {
            split_pieces(cs, ov, seps, text, i + 1, good.push(p), acc)
        } else {
            let flushed = if good.len() > 0 {
                acc + spec_merge(good, sep, cs, ov)
            } else {
                acc
            };
            split_pieces(
                cs,
                ov,
                seps,
                text,
                i + 1,
                Seq::empty(),
                flushed + spec_split_text(cs, ov, seps, p),
            )
        }
    }
}

#[via_fn]
proof fn split_pieces_decreases(
    cs: int,
    ov: int,
    seps: Seq<Seq<char>>,
    text: Seq<char>,
    i: int,
    good: Seq<Seq<char>>,
    acc: Seq<Seq<char>>,
) {
    let sep = spec_choose_sep(seps, text);
    let pieces = pieces_of(text, sep);
    if i < pieces.len() && pieces[i].len() >= cs {
        lemma_piece_shorter_than_text(seps, text, i);
    }
}

/// A piece long enough to be split again is strictly shorter than the text
/// it was cut from.
pub proof fn lemma_piece_shorter_than_text(seps: Seq<Seq<char>>, text: Seq<char>, i: int)
    requires
        has_empty_sep(seps),
        0 <= i < spec_pieces(seps, text).len(),
        spec_pieces(seps, text)[i].len() >= 2,
    ensures
        spec_pieces(seps, text)[i].len() < text.len(),
{
    let sep = spec_choose_sep(seps, text);
    let pieces = pieces_of(text, sep);
    lemma_choose_sep(seps, text);
    if sep.len() == 0 {
        assert(pieces[i] =~= seq![text[i]]);
        assert(pieces[i].len() == 1);
    } else {
        lemma_split_pieces_short(text, sep);
    }
}

/// Splits text by recursively working through a priority list of
/// separators, merging short pieces into chunks of bounded size.
#[derive(Debug, Clone)]
pub struct RecursiveCharacterTextSplitter {
    pub chunk_size: usize,
    pub chunk_overlap: usize,
    pub separators: Vec<String>,
}

/// The content and metadata carried by each document of a sequence.
pub open spec fn doc_outline(docs: Seq<Document<EmptyMetadata>>) -> Seq<
    (Seq<char>, int, Option<EmptyMetadata>),
> {
    docs.map_values(|d: Document<EmptyMetadata>| (d.page_content@, d.lookup_index as int, d.metadata))
}

/// Each chunk paired with its order within its source text and the
/// metadata of the document it came from.
pub open spec fn chunk_outline(chunks: Seq<Seq<char>>, m: Option<EmptyMetadata>) -> Seq<
    (Seq<char>, int, Option<EmptyMetadata>),
> {
    Seq::new(chunks.len(), |j: int| (chunks[j], j, m))
}

/// The content of each document of a sequence.
pub open spec fn contents_of(docs: Seq<Document<EmptyMetadata>>) -> Seq<Seq<char>> {
    docs.map_values(|d: Document<EmptyMetadata>| d.page_content@)
}

/// The metadata of each document of a sequence.
pub open spec fn metas_of(docs: Seq<Document<EmptyMetadata>>) -> Seq<Option<EmptyMetadata>> {
    docs.map_values(|d: Document<EmptyMetadata>| d.metadata)
}

/// The chunk documents that splitting each text produces, flattened in
/// order, each carrying its source's metadata.
pub open spec fn created_outline(
    sp: RecursiveCharacterTextSplitter,
    texts: Seq<Seq<char>>,
    metas: Seq<Option<EmptyMetadata>>,
) -> Seq<(Seq<char>, int, Option<EmptyMetadata>)>
    decreases texts.len(),
{
    if texts.len() == 0 {
        Seq::empty()
    } else {
        chunk_outline(sp.spec_chunks(texts[0]), metas[0]) + created_outline(
            sp,
            texts.skip(1),
            metas.skip(1),
        )
    }
}

/// Splitting text into chunks under a size bound.
pub trait TextSplitter: Sized {
    /// The configuration admits splitting.
    spec fn wf(&self) -> bool;

    /// The chunks this splitter produces for a text.
    spec fn spec_chunks(&self, text: Seq<char>) -> Seq<Seq<char>>;

    fn split_text(&self, text: &str) -> (r: Vec<String>)
        requires
            self.wf(),
        ensures
            views_of(r@) == self.spec_chunks(text@),
    ;

    /// Join pieces with the separator and trim; an empty result is absent.
    fn join_docs(&self, docs: Vec<String>, separator: &str) -> (r: Option<String>)
        ensures
            ({
                let t = spec_trim(join_with(views_of(docs@), separator@));
                match r {
                    Some(s) => s@ == t && t.len() > 0,
                    None => t.len() == 0,
                }
            }),
    ;
}

/// Copy the elements of `src` onto the end of `dst`.
fn append_strings(dst: &mut Vec<String>, src: Vec<String>)
    ensures
        final(dst)@ == old(dst)@ + src@,
{
    let mut k: usize = 0;
    while k < src.len()
        invariant
            0 <= k <= src@.len(),
            dst@ == old(dst)@ + src@.take(k as int),
        decreases src@.len() - k,
    {
        dst.push(src[k].clone());
        proof {
            assert(old(dst)@ + src@.take(k + 1) =~= (old(dst)@ + src@.take(k as int)).push(
                src@[k as int],
            ));
        }
        k += 1;
    }
    proof {
        assert(src@.take(src@.len() as int) =~= src@);
    }
}

impl RecursiveCharacterTextSplitter {
    /// A splitter with the given bounds; without an explicit separator list
    /// the default priority list ending in the per-character fallback.
    pub fn new(chunk_size: usize, chunk_overlap: usize, separators: Option<Vec<String>>) -> (r:
        Self)
        ensures
            r.chunk_size == chunk_size,
            r.chunk_overlap == chunk_overlap,
            match separators {
                Some(seps) => r.separators == seps,
                None => views_of(r.separators@) =~= seq!["\n\n"@, "\n"@, " "@, ""@],
            },
            separators is None && 2 <= chunk_size && chunk_overlap < chunk_size ==> r.wf(),
    {
        let separators = match separators {
            Some(seps) => seps,
            None => {
                let mut v: Vec<String> = Vec::new();
                v.push(String::from_str("\n\n"));
                v.push(String::from_str("\n"));
                v.push(String::from_str(" "));
                v.push(String::from_str(""));
                proof {
                    reveal_strlit("");
                    assert(views_of(v@) =~= seq!["\n\n"@, "\n"@, " "@, ""@]);
                    assert(views_of(v@)[3].len() == 0);
                }
                v
            },
        };
        Self { chunk_size, chunk_overlap, separators }
    }

    /// Merge a run of pieces into chunks: the pending window is flushed
    /// when admitting a piece would push the joined length (separators
    /// counted) past the size bound, then shrunk from the front down to
    /// the overlap.
    pub fn merge_splits(&self, splits: Vec<String>, separator: &str) -> (r: Vec<String>)
        requires
            join_len(views_of(splits@), separator@) <= usize::MAX,
        ensures
            views_of(r@) == spec_merge(
                views_of(splits@),
                separator@,
                self.chunk_size as int,
                self.chunk_overlap as int,
            ),
    {
        let ghost vs = views_of(splits@);
        let ghost cs = self.chunk_size as int;
        let ghost ov = self.chunk_overlap as int;
        let sep_len = separator.unicode_len();
        let mut docs: Vec<String> = Vec::new();
        let mut current_doc: Vec<String> = Vec::new();
        let mut total: usize = 0;
        let mut idx: usize = 0;
        let ghost mut a: int = 0;
        proof {
            assert(views_of(docs@) =~= Seq::<Seq<char>>::empty());
            assert(views_of(current_doc@) =~= vs.subrange(0int, 0int));
        }
        while idx < splits.len()
            invariant
                0 <= idx <= splits@.len(),
                vs == views_of(splits@),
                join_len(vs, separator@) <= usize::MAX,
                cs == self.chunk_size as int,
                ov == self.chunk_overlap as int,
                sep_len == separator@.len(),
                0 <= a <= idx,
                views_of(current_doc@) == vs.subrange(a, idx as int),
                total == join_len(views_of(current_doc@), separator@),
                spec_merge(vs, separator@, cs, ov) == merge_from(
                    vs,
                    idx as int,
                    (views_of(docs@), views_of(current_doc@), total as int),
                    separator@,
                    cs,
                    ov,
                ),
            decreases splits@.len() - idx,
        {
            let ghost st_old = (views_of(docs@), views_of(current_doc@), total as int);
            let len = splits[idx].as_str().unicode_len();
            let extra: usize = if current_doc.len() > 0 {
                sep_len
            } else {
                0
            };
            proof {
                lemma_join_len_push(views_of(current_doc@), vs[idx as int], separator@);
                assert(vs.subrange(a, idx as int).push(vs[idx as int]) =~= vs.subrange(
                    a,
                    idx + 1,
                ));
                lemma_join_len_subrange_le(vs, a, idx + 1, separator@);
                assert(total + len + extra == join_len(vs.subrange(a, idx + 1), separator@));
            }
            if total + len + extra > self.chunk_size {
                if current_doc.len() > 0 {
                    match self.join_docs_vec(&current_doc, separator) {
                        Some(doc) => { docs.push(doc); },
                        None => {},
                    }
                    let ghost w0 = views_of(current_doc@);
                    let ghost t0 = total as int;
                    while total > self.chunk_overlap || (current_doc.len() > 0 && total + len
                        + sep_len > self.chunk_size)
                        invariant
                            cs == self.chunk_size as int,
                            ov == self.chunk_overlap as int,
                            sep_len == separator@.len(),
                            vs == views_of(splits@),
                            0 <= a <= idx < vs.len(),
                            len == vs[idx as int].len(),
                            views_of(current_doc@) == vs.subrange(a, idx as int),
                            total == join_len(views_of(current_doc@), separator@),
                            total <= t0,
                            t0 + len + sep_len <= usize::MAX,
                            merge_shrink(w0, t0, len as int, separator@, cs, ov) == merge_shrink(
                                views_of(current_doc@),
                                total as int,
                                len as int,
                                separator@,
                                cs,
                                ov,
                            ),
                        decreases current_doc@.len(),
                    {
                        proof {
                            if current_doc@.len() == 0 {
                                assert(views_of(current_doc@) =~= Seq::<Seq<char>>::empty());
                                assert(total == 0);
                            }
                        }
                        let l0 = current_doc[0].as_str().unicode_len();
                        let drop_extra: usize = if current_doc.len() > 1 {
                            sep_len
                        } else {
                            0
                        };
                        proof {
                            lemma_join_len_drop(views_of(current_doc@), separator@);
                            assert(l0 + drop_extra <= total);
                        }
                        total = total - l0 - drop_extra;
                        let ghost wprev = views_of(current_doc@);
                        current_doc.remove(0);
                        proof {
                            assert(views_of(current_doc@) =~= wprev.skip(1));
                            assert(views_of(current_doc@) =~= vs.subrange(a + 1, idx as int));
                            a = a + 1;
                        }
                    }
                    proof {
                        if current_doc@.len() == 0 {
                            assert(views_of(current_doc@) =~= Seq::<Seq<char>>::empty());
                        }
                        assert(merge_shrink(w0, t0, len as int, separator@, cs, ov) == (
                            views_of(current_doc@),
                            total as int,
                        ));
                    }
                }
            }
            let d = splits[idx].clone();
            let extra2: usize = if current_doc.len() > 0 {
                sep_len
            } else {
                0
            };
            let ghost cprev = views_of(current_doc@);
            proof {
                lemma_join_len_push(cprev, vs[idx as int], separator@);
            }
            current_doc.push(d);
            total = total + len + extra2;
            proof {
                assert(views_of(current_doc@) =~= cprev.push(vs[idx as int]));
                assert(views_of(current_doc@) =~= vs.subrange(a, idx + 1));
                let st_new = merge_step(st_old, vs[idx as int], separator@, cs, ov);
                assert(st_new == (views_of(docs@), views_of(current_doc@), total as int));
            }
            idx += 1;
        }
        let ghost dprev = views_of(docs@);
        let ghost wfin = views_of(current_doc@);
        match self.join_docs_vec(&current_doc, separator) {
            Some(doc) => {
                docs.push(doc);
                proof {
                    assert(views_of(docs@) =~= dprev.push(spec_trim(join_with(wfin, separator@))));
                }
            },
            None => {},
        }
        proof {
            assert(spec_merge(vs, separator@, cs, ov) == views_of(docs@));
        }
        docs
    }

    /// Split every document's content, producing one flattened ordered
    /// sequence of chunk documents; metadata is propagated to each chunk,
    /// and each chunk's index records its order within its source.
    pub fn split_document(&self, documents: Vec<Document<EmptyMetadata>>) -> (r: Vec<
        Document<EmptyMetadata>,
    >)
        requires
            self.wf(),
        ensures
            doc_outline(r@) == created_outline(*self, contents_of(documents@), metas_of(
                documents@,
            )),
            forall|p: int| 0 <= p < r@.len() ==> (#[trigger] r@[p]).lookup_str@.len() == 0,
    {
        let ghost contentv = contents_of(documents@);
        let ghost metav = metas_of(documents@);
        let mut texts: Vec<String> = Vec::new();
        let mut metadatas: Vec<Option<EmptyMetadata>> = Vec::new();
        let mut i: usize = 0;
        while i < documents.len()
            invariant
                0 <= i <= documents@.len(),
                texts@.len() == i,
                metadatas@.len() == i,
                forall|k: int| 0 <= k < i ==> (#[trigger] texts@[k])@ == documents@[k].page_content@,
                forall|k: int| 0 <= k < i ==> #[trigger] metadatas@[k] == documents@[k].metadata,
            decreases documents@.len() - i,
        {
            texts.push(documents[i].page_content.clone());
            metadatas.push(documents[i].metadata);
            i += 1;
        }
        proof {
            assert(contentv.len() == documents@.len());
            assert(metav.len() == documents@.len());
            assert forall|k: int| 0 <= k < documents@.len() implies #[trigger] contentv[k]
                == documents@[k].page_content@ && metav[k] == documents@[k].metadata by {}
            assert(views_of(texts@) =~= contentv);
            assert(metadatas@ =~= metav);
        }
        self.create_documents(texts, metadatas)
    }

    /// Build chunk documents from texts and their metadata: one run of
    /// chunks per text, in order, each chunk indexed by its place within
    /// its source text. Surplus metadata entries are ignored.
    pub fn create_documents(&self, texts: Vec<String>, metadatas: Vec<Option<EmptyMetadata>>) -> (r:
        Vec<Document<EmptyMetadata>>)
        requires
            self.wf(),
            texts@.len() <= metadatas@.len(),
        ensures
            doc_outline(r@) == created_outline(*self, views_of(texts@), metadatas@),
            forall|p: int| 0 <= p < r@.len() ==> (#[trigger] r@[p]).lookup_str@.len() == 0,
    {
        let ghost tv = views_of(texts@);
        let ghost mv = metadatas@;
        let mut documents: Vec<Document<EmptyMetadata>> = Vec::new();
        let mut i: usize = 0;
        proof {
            assert(tv.skip(0) =~= tv);
            assert(mv.skip(0) =~= mv);
            assert(doc_outline(documents@) =~= Seq::<
                (Seq<char>, int, Option<EmptyMetadata>),
            >::empty());
        }
        while i < texts.len()
            invariant
                self.wf(),
                tv == views_of(texts@),
                mv == metadatas@,
                tv.len() <= mv.len(),
                0 <= i <= texts@.len(),
                created_outline(*self, tv, mv) == doc_outline(documents@) + created_outline(
                    *self,
                    tv.skip(i as int),
                    mv.skip(i as int),
                ),
                forall|p: int|
                    0 <= p < documents@.len() ==> (#[trigger] documents@[p]).lookup_str@.len()
                        == 0,
            decreases texts@.len() - i,
        {
            let chunks = self.split_text(texts[i].as_str());
            let metadata: Option<EmptyMetadata> = metadatas[i];
            let ghost chv = views_of(chunks@);
            let ghost docs0 = doc_outline(documents@);
            let ghost meta = mv[i as int];
            let mut j: usize = 0;
            proof {
                assert(chv == self.spec_chunks(tv[i as int]));
                assert(chunk_outline(chv, meta).take(0int) =~= Seq::<
                    (Seq<char>, int, Option<EmptyMetadata>),
                >::empty());
                assert(doc_outline(documents@) =~= docs0 + chunk_outline(chv, meta).take(0int));
            }
            while j < chunks.len()
                invariant
                    0 <= j <= chunks@.len(),
                    chv == views_of(chunks@),
                    meta == metadata,
                    doc_outline(documents@) == docs0 + chunk_outline(chv, meta).take(j as int),
                    forall|p: int|
                        0 <= p < documents@.len() ==> (#[trigger] documents@[p]).lookup_str@.len()
                            == 0,
                decreases chunks@.len() - j,
            {
                let ghost dprev = documents@;
                documents.push(
                    Document {
                        page_content: chunks[j].clone(),
                        lookup_str: String::new(),
                        lookup_index: j,
                        metadata,
                    },
                );
                proof {
                    assert(doc_outline(documents@) =~= doc_outline(dprev).push(
                        (chv[j as int], j as int, meta),
                    ));
                    assert(chunk_outline(chv, meta).take(j + 1) =~= chunk_outline(
                        chv,
                        meta,
                    ).take(j as int).push((chv[j as int], j as int, meta)));
                }
                j += 1;
            }
            proof {
                assert(chunk_outline(chv, meta).take(chv.len() as int) =~= chunk_outline(
                    chv,
                    meta,
                ));
                assert(tv.skip(i as int)[0] == tv[i as int]);
                assert(mv.skip(i as int)[0] == mv[i as int]);
                assert(tv.skip(i as int).skip(1) =~= tv.skip(i + 1));
                assert(mv.skip(i as int).skip(1) =~= mv.skip(i + 1));
                assert(tv[i as int] == texts@[i as int]@);
                assert(chv == self.spec_chunks(tv[i as int]));
                assert(created_outline(*self, tv.skip(i as int), mv.skip(i as int))
                    == chunk_outline(chv, meta) + created_outline(
                    *self,
                    tv.skip(i + 1),
                    mv.skip(i + 1),
                ));
                assert(doc_outline(documents@) + created_outline(*self, tv.skip(i + 1), mv.skip(
                    i + 1,
                )) =~= created_outline(*self, tv, mv));
            }
            i += 1;
        }
        proof {
            assert(tv.skip(tv.len() as int).len() == 0);
            assert(created_outline(*self, tv.skip(tv.len() as int), mv.skip(tv.len() as int))
                == Seq::<(Seq<char>, int, Option<EmptyMetadata>)>::empty());
            assert(doc_outline(documents@) + Seq::<
                (Seq<char>, int, Option<EmptyMetadata>),
            >::empty() =~= doc_outline(documents@));
        }
        documents
    }

    /// Join pieces with the separator and trim the result; an empty result
    /// is reported as absent rather than emitted.
    fn join_docs_vec(&self, docs: &Vec<String>, separator: &str) -> (r: Option<String>)
        ensures
            ({
                let t = spec_trim(join_with(views_of(docs@), separator@));
                match r {
                    Some(s) => s@ == t && t.len() > 0,
                    None => t.len() == 0,
                }
            }),
    {
        let joined = join_strings(docs, separator);
        let text = trim_str(joined.as_str());
        if text.as_str().unicode_len() == 0 {
            None
        } else {
            Some(text)
        }
    }
}

impl TextSplitter for RecursiveCharacterTextSplitter {
    /// A usable configuration: room for at least one character beside the
    /// overlap, overlap below the chunk size, and the always-matching empty
    /// separator somewhere in the list.
    open spec fn wf(&self) -> bool {
        &&& 2 <= self.chunk_size
        &&& self.chunk_overlap < self.chunk_size
        &&& self.separators@.len() >= 1
        &&& has_empty_sep(views_of(self.separators@))
    }

    open spec fn spec_chunks(&self, text: Seq<char>) -> Seq<Seq<char>> {
        spec_split_text(
            self.chunk_size as int,
            self.chunk_overlap as int,
            views_of(self.separators@),
            text,
        )
    }

    #[verifier::rlimit(100)]
    fn split_text(&self, text: &str) -> (r: Vec<String>)
        decreases text@.len(),
    {
        let ghost cs = self.chunk_size as int;
        let ghost ov = self.chunk_overlap as int;
        let ghost sepsv = views_of(self.separators@);
        let n = text.unicode_len();
        let n_seps = self.separators.len();
        let mut si: usize = 0;
        let mut found = false;
        proof {
            assert(sepsv.skip(0) =~= sepsv);
        }
        while !found && si < n_seps
            invariant
                0 <= si <= n_seps,
                n_seps == self.separators@.len(),
                sepsv == views_of(self.separators@),
                n == text@.len(),
                spec_choose_sep(sepsv, text@) == spec_choose_sep(sepsv.skip(si as int), text@),
                found ==> si < n_seps && spec_choose_sep(sepsv, text@) == sepsv[si as int],
                !found ==> forall|j: int| 0 <= j < si ==> (#[trigger] sepsv[j]).len() != 0,
            decreases n_seps - si + (if found { 0int } else { 1int }),
        {
            let s_is_empty = self.separators[si].as_str().is_empty();
            let hit = s_is_empty || contains_str(text, self.separators[si].as_str());
            proof {
                assert(sepsv.skip(si as int)[0] == sepsv[si as int]);
            }
            if hit {
                found = true;
            } else {
                proof {
                    assert(sepsv.skip(si as int).skip(1) =~= sepsv.skip(si + 1));
                }
                si += 1;
            }
        }
        proof {
            if !found {
                let e = choose|j: int|
                    0 <= j < sepsv.len() && (#[trigger] sepsv[j]).len() == 0;
                assert(sepsv[e].len() != 0);
                assert(false);
            }
        }
        let separator: &String = &self.separators[si];
        let ghost sepv = separator@;
        let splits: Vec<String> = if separator.as_str().is_empty() {
            split_chars_str(text)
        } else {
            split_str(text, separator.as_str())
        };
        let ghost piecesv = views_of(splits@);
        proof {
            assert(piecesv == pieces_of(text@, sepv));
            assert(piecesv == spec_pieces(sepsv, text@));
        }
        let mut final_chunks: Vec<String> = Vec::new();
        let mut good_splits: Vec<String> = Vec::new();
        let mut i: usize = 0;
        let ghost mut g: int = 0;
        proof {
            assert(views_of(final_chunks@) =~= Seq::<Seq<char>>::empty());
            assert(views_of(good_splits@) =~= piecesv.subrange(0int, 0int));
        }
        while i < splits.len()
            invariant
                self.wf(),
                cs == self.chunk_size as int,
                ov == self.chunk_overlap as int,
                sepsv == views_of(self.separators@),
                sepv == spec_choose_sep(sepsv, text@),
                sepv == separator@,
                piecesv == views_of(splits@),
                piecesv == pieces_of(text@, sepv),
                piecesv == spec_pieces(sepsv, text@),
                0 <= i <= splits@.len(),
                n == text@.len(),
                0 <= g <= i,
                views_of(good_splits@) == piecesv.subrange(g, i as int),
                spec_split_text(cs, ov, sepsv, text@) == split_pieces(
                    cs,
                    ov,
                    sepsv,
                    text@,
                    i as int,
                    views_of(good_splits@),
                    views_of(final_chunks@),
                ),
            decreases splits@.len() - i,
        {
            let piece_len = splits[i].as_str().unicode_len();
            if piece_len < self.chunk_size {
                let ghost gprev = views_of(good_splits@);
                good_splits.push(splits[i].clone());
                proof {
                    assert(views_of(good_splits@) =~= gprev.push(piecesv[i as int]));
                    assert(views_of(good_splits@) =~= piecesv.subrange(g, i + 1));
                    assert(piecesv[i as int].len() < cs);
                    assert(split_pieces(cs, ov, sepsv, text@, i as int, gprev, views_of(
                        final_chunks@,
                    )) == split_pieces(
                        cs,
                        ov,
                        sepsv,
                        text@,
                        i + 1,
                        gprev.push(piecesv[i as int]),
                        views_of(final_chunks@),
                    ));
                    assert(spec_split_text(cs, ov, sepsv, text@) == split_pieces(
                        cs,
                        ov,
                        sepsv,
                        text@,
                        i + 1,
                        views_of(good_splits@),
                        views_of(final_chunks@),
                    ));
                }
            } else {
                let ghost accprev = views_of(final_chunks@);
                let ghost gprev = views_of(good_splits@);
                if good_splits.len() > 0 {
                    proof {
                        lemma_pieces_join_text(sepsv, text@);
                        lemma_join_subrange_substring(piecesv, g, i as int, sepv);
                        lemma_substring_len_le(
                            join_with(piecesv.subrange(g, i as int), sepv),
                            text@,
                        );
                        lemma_join_len_is_join_with_len(views_of(good_splits@), sepv);
                        assert(join_len(views_of(good_splits@), sepv) <= n);
                    }
                    let merged = self.merge_splits(good_splits, separator.as_str());
                    proof {
                        assert(views_of(merged@) == spec_merge(
                            gprev,
                            sepv,
                            self.chunk_size as int,
                            self.chunk_overlap as int,
                        ));
                    }
                    let ghost mergedv = merged@;
                    let ghost fprev = final_chunks@;
                    good_splits = Vec::new();
                    append_strings(&mut final_chunks, merged);
                    proof {
                        assert(views_of(good_splits@) =~= Seq::<Seq<char>>::empty());
                        assert(final_chunks@ == fprev + mergedv);
                        assert(views_of(final_chunks@) =~= views_of(fprev) + views_of(mergedv));
                        assert(views_of(mergedv) == spec_merge(gprev, sepv, cs, ov));
                        assert(views_of(fprev) == accprev);
                        assert(views_of(final_chunks@) =~= accprev + spec_merge(
                            gprev,
                            sepv,
                            cs,
                            ov,
                        ));
                    }
                }
                proof {
                    lemma_piece_shorter_than_text(sepsv, text@, i as int);
                }
                let ghost accmid = views_of(final_chunks@);
                let ghost flushedv = (if gprev.len() > 0 {
                    accprev + spec_merge(gprev, sepv, cs, ov)
                } else {
                    accprev
                });
                let rec = self.split_text(splits[i].as_str());
                let ghost recv = rec@;
                let ghost fprev2 = final_chunks@;
                append_strings(&mut final_chunks, rec);
                proof {
                    assert(splits@[i as int]@ == piecesv[i as int]);
                    assert(accmid == flushedv);
                    assert(final_chunks@ == fprev2 + recv);
                    assert(views_of(final_chunks@) =~= views_of(fprev2) + views_of(recv));
                    assert(views_of(final_chunks@) =~= flushedv + spec_split_text(
                        cs,
                        ov,
                        sepsv,
                        piecesv[i as int],
                    ));
                    assert(piecesv[i as int].len() >= cs);
                    assert(split_pieces(cs, ov, sepsv, text@, i as int, gprev, accprev)
                        == split_pieces(
                        cs,
                        ov,
                        sepsv,
                        text@,
                        i + 1,
                        Seq::<Seq<char>>::empty(),
                        flushedv + spec_split_text(cs, ov, sepsv, piecesv[i as int]),
                    ));
                    assert(views_of(good_splits@) =~= Seq::<Seq<char>>::empty());
                    g = i + 1;
                    assert(views_of(good_splits@) =~= piecesv.subrange(g, i + 1));
                    assert(spec_split_text(cs, ov, sepsv, text@) == split_pieces(
                        cs,
                        ov,
                        sepsv,
                        text@,
                        i + 1,
                        views_of(good_splits@),
                        views_of(final_chunks@),
                    ));
                }
            }
            i += 1;
        }
        if good_splits.len() > 0 {
            let ghost accprev = views_of(final_chunks@);
            let ghost gprev = views_of(good_splits@);
            proof {
                lemma_pieces_join_text(sepsv, text@);
                lemma_join_subrange_substring(piecesv, g, piecesv.len() as int, sepv);
                lemma_substring_len_le(
                    join_with(piecesv.subrange(g, piecesv.len() as int), sepv),
                    text@,
                );
                lemma_join_len_is_join_with_len(views_of(good_splits@), sepv);
                assert(join_len(views_of(good_splits@), sepv) <= n);
            }
            let merged = self.merge_splits(good_splits, separator.as_str());
            let ghost mergedv = merged@;
            let ghost fprev = final_chunks@;
            append_strings(&mut final_chunks, merged);
            proof {
                assert(final_chunks@ == fprev + mergedv);
                assert(views_of(final_chunks@) =~= views_of(fprev) + views_of(mergedv));
                assert(views_of(final_chunks@) =~= accprev + spec_merge(gprev, sepv, cs, ov));
            }
        }
        final_chunks
    }

    fn join_docs(&self, docs: Vec<String>, separator: &str) -> (r: Option<String>) {
        self.join_docs_vec(&docs, separator)
    }
}

impl Default for RecursiveCharacterTextSplitter {
    /// The stock configuration: 4000-character chunks, 200 characters of
    /// overlap, and the default separator priority list.
    fn default() -> (r: Self)
        ensures
            r.chunk_size == 4000,
            r.chunk_overlap == 200,
            views_of(r.separators@) =~= seq!["\n\n"@, "\n"@, " "@, ""@],
            r.wf(),
    {
        RecursiveCharacterTextSplitter::new(4000, 200, None)
    }
}

/// Trimming never lengthens a text.
pub proof fn lemma_trim_le(s: Seq<char>)
    ensures
        spec_trim(s).len() <= s.len(),
{
    lemma_trim_front_le(s);
    lemma_trim_back_le(crate::text::trim_front(s));
}

pub proof fn lemma_trim_front_le(s: Seq<char>)
    ensures
        crate::text::trim_front(s).len() <= s.len(),
    decreases s.len(),
{
    if s.len() > 0 && crate::text::is_ws(s[0]) {
        lemma_trim_front_le(s.skip(1));
    }
}

pub proof fn lemma_trim_back_le(s: Seq<char>)
    ensures
        crate::text::trim_back(s).len() <= s.len(),
    decreases s.len(),
{
    if s.len() > 0 && crate::text::is_ws(s[s.len() - 1]) {
        lemma_trim_back_le(s.take(s.len() - 1));
    }
}

/// What shrinking leaves: the total still matches the window's joined
/// length, and shrinking only stops within the overlap bound, with room
/// for the incoming piece or an emptied window.
pub proof fn lemma_merge_shrink_props(
    window: Seq<Seq<char>>,
    total: int,
    len: int,
    sep: Seq<char>,
    cs: int,
    ov: int,
)
    requires
        total == join_len(window, sep),
        ov >= 0,
    ensures
        ({
            let (w, t) = merge_shrink(window, total, len, sep, cs, ov);
            &&& t == join_len(w, sep)
            &&& t >= 0
            &&& t <= ov
            &&& w.len() == 0 || t + len + sep.len() <= cs
        }),
    decreases window.len(),
{
    if window.len() == 0 {
    } else {
        lemma_join_len_drop(window, sep);
        if total > ov || total + len + sep.len() > cs {
            lemma_merge_shrink_props(
                window.skip(1),
                total - window[0].len() - (if window.len() > 1 {
                    sep.len() as int
                } else {
                    0
                }),
                len,
                sep,
                cs,
                ov,
            );
        }
    }
}

/// Every chunk that merging emits stays within the size bound, provided
/// each piece does: the running total counts the joined separators, so
/// the joined window never silently outgrows the bound.
pub proof fn lemma_merge_from_bounded(
    pieces: Seq<Seq<char>>,
    i: int,
    st: (Seq<Seq<char>>, Seq<Seq<char>>, int),
    sep: Seq<char>,
    cs: int,
    ov: int,
)
    requires
        0 <= i <= pieces.len(),
        0 <= ov,
        1 <= cs,
        forall|j: int| 0 <= j < pieces.len() ==> (#[trigger] pieces[j]).len() < cs,
        forall|k: int| 0 <= k < st.0.len() ==> (#[trigger] st.0[k]).len() <= cs,
        st.2 == join_len(st.1, sep),
        st.2 <= cs,
    ensures
        forall|k: int|
            0 <= k < merge_from(pieces, i, st, sep, cs, ov).len() ==> (#[trigger] merge_from(
                pieces,
                i,
                st,
                sep,
                cs,
                ov,
            )[k]).len() <= cs,
    decreases pieces.len() - i,
{
    let (docs, window, total) = st;
    lemma_join_len_is_join_with_len(window, sep);
    lemma_trim_le(join_with(window, sep));
    if i >= pieces.len() {
    } else {
        let stn = merge_step(st, pieces[i], sep, cs, ov);
        let len = pieces[i].len() as int;
        let extra = if window.len() > 0 {
            sep.len() as int
        } else {
            0
        };
        if total + len + extra > cs && window.len() > 0 {
            lemma_merge_shrink_props(window, total, len, sep, cs, ov);
            let (w2, t2) = merge_shrink(window, total, len, sep, cs, ov);
            lemma_join_len_push(w2, pieces[i], sep);
            if w2.len() == 0 {
                assert(t2 == 0);
            }
        } else {
            lemma_join_len_push(window, pieces[i], sep);
        }
        assert(stn.2 == join_len(stn.1, sep));
        assert(stn.2 <= cs);
        assert(forall|k: int| 0 <= k < stn.0.len() ==> (#[trigger] stn.0[k]).len() <= cs);
        lemma_merge_from_bounded(pieces, i + 1, stn, sep, cs, ov);
        assert(merge_from(pieces, i, st, sep, cs, ov) == merge_from(
            pieces,
            i + 1,
            stn,
            sep,
            cs,
            ov,
        ));
    }
}

/// Every piece the splitter accumulates is short, so every chunk of
/// every merge, at every recursion level, respects the size bound.
pub proof fn lemma_split_pieces_bounded(
    cs: int,
    ov: int,
    seps: Seq<Seq<char>>,
    text: Seq<char>,
    i: int,
    good: Seq<Seq<char>>,
    acc: Seq<Seq<char>>,
)
    requires
        2 <= cs,
        0 <= ov,
        has_empty_sep(seps),
        0 <= i <= spec_pieces(seps, text).len(),
        forall|j: int| 0 <= j < good.len() ==> (#[trigger] good[j]).len() < cs,
        forall|k: int| 0 <= k < acc.len() ==> (#[trigger] acc[k]).len() <= cs,
    ensures
        forall|k: int|
            0 <= k < split_pieces(cs, ov, seps, text, i, good, acc).len() ==> (
            #[trigger] split_pieces(cs, ov, seps, text, i, good, acc)[k]).len() <= cs,
    decreases text.len(), spec_pieces(seps, text).len() - i,
{
    let sep = spec_choose_sep(seps, text);
    let pieces = pieces_of(text, sep);
    if i >= pieces.len() {
        if good.len() > 0 {
            lemma_merge_from_bounded(
                good,
                0,
                (Seq::<Seq<char>>::empty(), Seq::<Seq<char>>::empty(), 0),
                sep,
                cs,
                ov,
            );
            assert(split_pieces(cs, ov, seps, text, i, good, acc) == acc + spec_merge(
                good,
                sep,
                cs,
                ov,
            ));
        } else {
            assert(split_pieces(cs, ov, seps, text, i, good, acc) == acc);
        }
    } else {
        let p = pieces[i];
        if p.len() < cs {
            lemma_split_pieces_bounded(cs, ov, seps, text, i + 1, good.push(p), acc);
            assert(split_pieces(cs, ov, seps, text, i, good, acc) == split_pieces(
                cs,
                ov,
                seps,
                text,
                i + 1,
                good.push(p),
                acc,
            ));
        } else {
            let flushed = if good.len() > 0 {
                acc + spec_merge(good, sep, cs, ov)
            } else {
                acc
            };
            if good.len() > 0 {
                lemma_merge_from_bounded(
                    good,
                    0,
                    (Seq::<Seq<char>>::empty(), Seq::<Seq<char>>::empty(), 0),
                    sep,
                    cs,
                    ov,
                );
            }
            assert(forall|k: int| 0 <= k < flushed.len() ==> (#[trigger] flushed[k]).len() <= cs);
            lemma_piece_shorter_than_text(seps, text, i);
            lemma_split_pieces_bounded(cs, ov, seps, p, 0, Seq::empty(), Seq::empty());
            assert(spec_split_text(cs, ov, seps, p) == split_pieces(
                cs,
                ov,
                seps,
                p,
                0,
                Seq::empty(),
                Seq::empty(),
            ));
            let next_acc = flushed + spec_split_text(cs, ov, seps, p);
            assert(forall|k: int|
                0 <= k < next_acc.len() ==> (#[trigger] next_acc[k]).len() <= cs);
            lemma_split_pieces_bounded(cs, ov, seps, text, i + 1, Seq::empty(), next_acc);
            assert(split_pieces(cs, ov, seps, text, i, good, acc) == split_pieces(
                cs,
                ov,
                seps,
                text,
                i + 1,
                Seq::<Seq<char>>::empty(),
                next_acc,
            ));
        }
    }
}

/// Every chunk respects the size bound: the merge's running total is the
/// joined length, separators included, so no chunk outgrows `chunk_size`.
pub proof fn lemma_chunks_bounded(sp: RecursiveCharacterTextSplitter, text: Seq<char>)
    requires
        sp.wf(),
    ensures
        forall|k: int|
            0 <= k < sp.spec_chunks(text).len() ==> (#[trigger] sp.spec_chunks(text)[k]).len()
                <= sp.chunk_size,
{
    lemma_split_pieces_bounded(
        sp.chunk_size as int,
        sp.chunk_overlap as int,
        views_of(sp.separators@),
        text,
        0,
        Seq::empty(),
        Seq::empty(),
    );
    assert(sp.spec_chunks(text) == split_pieces(
        sp.chunk_size as int,
        sp.chunk_overlap as int,
        views_of(sp.separators@),
        text,
        0,
        Seq::empty(),
        Seq::empty(),
    ));
}

/// Merging only ever emits chunks with content: the empty join is dropped,
/// not emitted.
pub proof fn lemma_merge_from_nonempty(
    pieces: Seq<Seq<char>>,
    i: int,
    st: (Seq<Seq<char>>, Seq<Seq<char>>, int),
    sep: Seq<char>,
    cs: int,
    ov: int,
)
    requires
        0 <= i <= pieces.len(),
        forall|k: int| 0 <= k < st.0.len() ==> (#[trigger] st.0[k]).len() > 0,
    ensures
        forall|k: int|
            0 <= k < merge_from(pieces, i, st, sep, cs, ov).len() ==> (#[trigger] merge_from(
                pieces,
                i,
                st,
                sep,
                cs,
                ov,
            )[k]).len() > 0,
    decreases pieces.len() - i,
{
    let (docs, window, total) = st;
    if i >= pieces.len() {
        let t = spec_trim(join_with(window, sep));
        if t.len() > 0 {
            assert(merge_from(pieces, i, st, sep, cs, ov) == docs.push(t));
        } else {
            assert(merge_from(pieces, i, st, sep, cs, ov) == docs);
        }
    } else {
        let stn = merge_step(st, pieces[i], sep, cs, ov);
        let t = spec_trim(join_with(window, sep));
        assert(stn.0 == docs || (t.len() > 0 && stn.0 == docs.push(t)));
        assert(forall|k: int| 0 <= k < stn.0.len() ==> (#[trigger] stn.0[k]).len() > 0);
        lemma_merge_from_nonempty(pieces, i + 1, stn, sep, cs, ov);
        assert(merge_from(pieces, i, st, sep, cs, ov) == merge_from(
            pieces,
            i + 1,
            stn,
            sep,
            cs,
            ov,
        ));
    }
}

/// No step of splitting ever emits an empty chunk.
pub proof fn lemma_split_pieces_nonempty(
    cs: int,
    ov: int,
    seps: Seq<Seq<char>>,
    text: Seq<char>,
    i: int,
    good: Seq<Seq<char>>,
    acc: Seq<Seq<char>>,
)
    requires
        2 <= cs,
        has_empty_sep(seps),
        0 <= i <= spec_pieces(seps, text).len(),
        forall|k: int| 0 <= k < acc.len() ==> (#[trigger] acc[k]).len() > 0,
    ensures
        forall|k: int|
            0 <= k < split_pieces(cs, ov, seps, text, i, good, acc).len() ==> (
            #[trigger] split_pieces(cs, ov, seps, text, i, good, acc)[k]).len() > 0,
    decreases text.len(), spec_pieces(seps, text).len() - i,
{
    let sep = spec_choose_sep(seps, text);
    let pieces = pieces_of(text, sep);
    if i >= pieces.len() {
        if good.len() > 0 {
            lemma_merge_from_nonempty(
                good,
                0,
                (Seq::<Seq<char>>::empty(), Seq::<Seq<char>>::empty(), 0),
                sep,
                cs,
                ov,
            );
            assert(split_pieces(cs, ov, seps, text, i, good, acc) == acc + spec_merge(
                good,
                sep,
                cs,
                ov,
            ));
        } else {
            assert(split_pieces(cs, ov, seps, text, i, good, acc) == acc);
        }
    } else {
        let p = pieces[i];
        if p.len() < cs {
            lemma_split_pieces_nonempty(cs, ov, seps, text, i + 1, good.push(p), acc);
            assert(split_pieces(cs, ov, seps, text, i, good, acc) == split_pieces(
                cs,
                ov,
                seps,
                text,
                i + 1,
                good.push(p),
                acc,
            ));
        } else {
            let flushed = if good.len() > 0 {
                acc + spec_merge(good, sep, cs, ov)
            } else {
                acc
            };
            if good.len() > 0 {
                lemma_merge_from_nonempty(
                    good,
                    0,
                    (Seq::<Seq<char>>::empty(), Seq::<Seq<char>>::empty(), 0),
                    sep,
                    cs,
                    ov,
                );
            }
            assert(forall|k: int| 0 <= k < flushed.len() ==> (#[trigger] flushed[k]).len() > 0);
            lemma_piece_shorter_than_text(seps, text, i);
            lemma_split_pieces_nonempty(cs, ov, seps, p, 0, Seq::empty(), Seq::empty());
            assert(spec_split_text(cs, ov, seps, p) == split_pieces(
                cs,
                ov,
                seps,
                p,
                0,
                Seq::empty(),
                Seq::empty(),
            ));
            lemma_split_pieces_nonempty(
                cs,
                ov,
                seps,
                text,
                i + 1,
                Seq::empty(),
                flushed + spec_split_text(cs, ov, seps, p),
            );
            assert(split_pieces(cs, ov, seps, text, i, good, acc) == split_pieces(
                cs,
                ov,
                seps,
                text,
                i + 1,
                Seq::empty(),
                flushed + spec_split_text(cs, ov, seps, p),
            ));
        }
    }
}

/// The splitter never produces an empty chunk.
pub proof fn lemma_no_empty_chunks(sp: RecursiveCharacterTextSplitter, text: Seq<char>)
    requires
        sp.wf(),
    ensures
        forall|k: int|
            0 <= k < sp.spec_chunks(text).len() ==> (#[trigger] sp.spec_chunks(text)[k]).len() > 0,
{
    lemma_split_pieces_nonempty(
        sp.chunk_size as int,
        sp.chunk_overlap as int,
        views_of(sp.separators@),
        text,
        0,
        Seq::empty(),
        Seq::empty(),
    );
    assert(sp.spec_chunks(text) == split_pieces(
        sp.chunk_size as int,
        sp.chunk_overlap as int,
        views_of(sp.separators@),
        text,
        0,
        Seq::empty(),
        Seq::empty(),
    ));
}

/// Shrinking a contiguous window leaves a contiguous window.
pub proof fn lemma_shrink_subrange(
    pieces: Seq<Seq<char>>,
    a: int,
    i: int,
    total: int,
    len: int,
    sep: Seq<char>,
    cs: int,
    ov: int,
)
    requires
        0 <= a <= i <= pieces.len(),
    ensures
        exists|a2: int|
            a <= a2 <= i && merge_shrink(pieces.subrange(a, i), total, len, sep, cs, ov).0
                == #[trigger] pieces.subrange(a2, i),
    decreases i - a,
{
    let w = pieces.subrange(a, i);
    if w.len() == 0 {
        assert(merge_shrink(w, total, len, sep, cs, ov).0 == pieces.subrange(a, i));
    } else if total > ov || total + len + sep.len() > cs {
        assert(w.skip(1) =~= pieces.subrange(a + 1, i));
        lemma_shrink_subrange(
            pieces,
            a + 1,
            i,
            total - w[0].len() - (if w.len() > 1 {
                sep.len() as int
            } else {
                0
            }),
            len,
            sep,
            cs,
            ov,
        );
    } else {
        assert(merge_shrink(w, total, len, sep, cs, ov).0 == pieces.subrange(a, i));
    }
}

/// Every chunk that merging emits occurs contiguously in the source text,
/// provided the join of all the pieces does.
pub proof fn lemma_merge_from_substrings(
    pieces: Seq<Seq<char>>,
    i: int,
    st: (Seq<Seq<char>>, Seq<Seq<char>>, int),
    sep: Seq<char>,
    cs: int,
    ov: int,
    text: Seq<char>,
    a: int,
)
    requires
        0 <= a <= i <= pieces.len(),
        st.1 == pieces.subrange(a, i),
        is_substring(join_with(pieces, sep), text),
        forall|k: int| 0 <= k < st.0.len() ==> is_substring(#[trigger] st.0[k], text),
    ensures
        forall|k: int|
            0 <= k < merge_from(pieces, i, st, sep, cs, ov).len() ==> is_substring(
                #[trigger] merge_from(pieces, i, st, sep, cs, ov)[k],
                text,
            ),
    decreases pieces.len() - i,
{
    let (docs, window, total) = st;
    let t = spec_trim(join_with(window, sep));
    lemma_join_subrange_substring(pieces, a, i, sep);
    lemma_trim_substring(join_with(window, sep));
    lemma_substring_trans(
        join_with(window, sep),
        join_with(pieces, sep),
        text,
    );
    lemma_substring_trans(t, join_with(window, sep), text);
    if i >= pieces.len() {
        if t.len() > 0 {
            assert(merge_from(pieces, i, st, sep, cs, ov) == docs.push(t));
        } else {
            assert(merge_from(pieces, i, st, sep, cs, ov) == docs);
        }
    } else {
        let stn = merge_step(st, pieces[i], sep, cs, ov);
        let len = pieces[i].len() as int;
        let extra = if window.len() > 0 {
            sep.len() as int
        } else {
            0
        };
        assert(forall|k: int| 0 <= k < stn.0.len() ==> is_substring(#[trigger] stn.0[k], text));
        if total + len + extra > cs && window.len() > 0 {
            lemma_shrink_subrange(pieces, a, i, total, len, sep, cs, ov);
            let a2 = choose|a2: int|
                a <= a2 <= i && merge_shrink(pieces.subrange(a, i), total, len, sep, cs, ov).0
                    == #[trigger] pieces.subrange(a2, i);
            assert(pieces.subrange(a2, i).push(pieces[i]) =~= pieces.subrange(a2, i + 1));
            assert(stn.1 == pieces.subrange(a2, i + 1));
            lemma_merge_from_substrings(pieces, i + 1, stn, sep, cs, ov, text, a2);
        } else {
            assert(pieces.subrange(a, i).push(pieces[i]) =~= pieces.subrange(a, i + 1));
            assert(stn.1 == pieces.subrange(a, i + 1));
            lemma_merge_from_substrings(pieces, i + 1, stn, sep, cs, ov, text, a);
        }
        assert(merge_from(pieces, i, st, sep, cs, ov) == merge_from(
            pieces,
            i + 1,
            stn,
            sep,
            cs,
            ov,
        ));
    }
}

/// The join of all pieces under the chosen separator is the text itself,
/// hence occurs within it.
pub proof fn lemma_pieces_join_text(seps: Seq<Seq<char>>, text: Seq<char>)
    ensures
        join_with(spec_pieces(seps, text), spec_choose_sep(seps, text)) == text,
        is_substring(join_with(spec_pieces(seps, text), spec_choose_sep(seps, text)), text),
{
    let sep = spec_choose_sep(seps, text);
    if sep.len() == 0 {
        assert(sep =~= Seq::<char>::empty());
        lemma_join_split_chars(text);
    } else {
        lemma_join_split_on(text, sep);
    }
    assert(text.subrange(0int, 0int + text.len()) =~= text);
}

/// Every chunk merged out of a contiguous run of the text's pieces occurs
/// within the text.
pub proof fn lemma_good_run_substrings(
    cs: int,
    ov: int,
    seps: Seq<Seq<char>>,
    text: Seq<char>,
    g: int,
    i: int,
)
    requires
        0 <= g <= i <= spec_pieces(seps, text).len(),
    ensures
        forall|k: int|
            0 <= k < spec_merge(
                spec_pieces(seps, text).subrange(g, i),
                spec_choose_sep(seps, text),
                cs,
                ov,
            ).len() ==> is_substring(
                #[trigger] spec_merge(
                    spec_pieces(seps, text).subrange(g, i),
                    spec_choose_sep(seps, text),
                    cs,
                    ov,
                )[k],
                text,
            ),
{
    let sep = spec_choose_sep(seps, text);
    let pieces = spec_pieces(seps, text);
    let good = pieces.subrange(g, i);
    lemma_pieces_join_text(seps, text);
    lemma_join_subrange_substring(pieces, g, i, sep);
    lemma_substring_trans(join_with(good, sep), join_with(pieces, sep), text);
    assert(good.subrange(0int, 0int) =~= Seq::<Seq<char>>::empty());
    assert(good.subrange(0int, 0int + good.len()) =~= good);
    assert(is_substring(join_with(good, sep), text));
    lemma_merge_from_substrings(
        good,
        0,
        (Seq::<Seq<char>>::empty(), Seq::<Seq<char>>::empty(), 0),
        sep,
        cs,
        ov,
        text,
        0,
    );
}

/// Each single piece occurs within the text.
pub proof fn lemma_piece_substring(seps: Seq<Seq<char>>, text: Seq<char>, i: int)
    requires
        0 <= i < spec_pieces(seps, text).len(),
    ensures
        is_substring(spec_pieces(seps, text)[i], text),
{
    let sep = spec_choose_sep(seps, text);
    let pieces = spec_pieces(seps, text);
    let p = pieces[i];
    lemma_pieces_join_text(seps, text);
    assert(pieces.subrange(i, i + 1) =~= seq![p]);
    lemma_join_subrange_substring(pieces, i, i + 1, sep);
    assert(join_with(seq![p], sep) == p);
    lemma_substring_trans(p, join_with(pieces, sep), text);
}

/// Every chunk that splitting produces occurs contiguously in the text
/// being split: the pending run is always a contiguous run of pieces.
pub proof fn lemma_split_pieces_substrings(
    cs: int,
    ov: int,
    seps: Seq<Seq<char>>,
    text: Seq<char>,
    i: int,
    g: int,
    acc: Seq<Seq<char>>,
)
    requires
        2 <= cs,
        has_empty_sep(seps),
        0 <= g <= i <= spec_pieces(seps, text).len(),
        forall|k: int| 0 <= k < acc.len() ==> is_substring(#[trigger] acc[k], text),
    ensures
        forall|k: int|
            0 <= k < split_pieces(
                cs,
                ov,
                seps,
                text,
                i,
                spec_pieces(seps, text).subrange(g, i),
                acc,
            ).len() ==> is_substring(
                #[trigger] split_pieces(
                    cs,
                    ov,
                    seps,
                    text,
                    i,
                    spec_pieces(seps, text).subrange(g, i),
                    acc,
                )[k],
                text,
            ),
    decreases text.len(), spec_pieces(seps, text).len() - i,
{
    let sep = spec_choose_sep(seps, text);
    let pieces = pieces_of(text, sep);
    let good = pieces.subrange(g, i);
    if i >= pieces.len() {
        if good.len() > 0 {
            lemma_good_run_substrings(cs, ov, seps, text, g, i);
            assert(split_pieces(cs, ov, seps, text, i, good, acc) == acc + spec_merge(
                good,
                sep,
                cs,
                ov,
            ));
        } else {
            assert(split_pieces(cs, ov, seps, text, i, good, acc) == acc);
        }
    } else {
        let p = pieces[i];
        if p.len() < cs {
            assert(good.push(p) =~= pieces.subrange(g, i + 1));
            lemma_split_pieces_substrings(cs, ov, seps, text, i + 1, g, acc);
            assert(split_pieces(cs, ov, seps, text, i, good, acc) == split_pieces(
                cs,
                ov,
                seps,
                text,
                i + 1,
                pieces.subrange(g, i + 1),
                acc,
            ));
        } else {
            let flushed = if good.len() > 0 {
                acc + spec_merge(good, sep, cs, ov)
            } else {
                acc
            };
            if good.len() > 0 {
                lemma_good_run_substrings(cs, ov, seps, text, g, i);
            }
            assert(forall|k: int|
                0 <= k < flushed.len() ==> is_substring(#[trigger] flushed[k], text));
            lemma_piece_shorter_than_text(seps, text, i);
            assert(spec_pieces(seps, p).subrange(0int, 0int) =~= Seq::<Seq<char>>::empty());
            lemma_split_pieces_substrings(cs, ov, seps, p, 0, 0, Seq::empty());
            assert(spec_split_text(cs, ov, seps, p) == split_pieces(
                cs,
                ov,
                seps,
                p,
                0,
                Seq::empty(),
                Seq::empty(),
            ));
            lemma_piece_substring(seps, text, i);
            let next_acc = flushed + spec_split_text(cs, ov, seps, p);
            assert forall|k: int| 0 <= k < next_acc.len() implies is_substring(
                #[trigger] next_acc[k],
                text,
            ) by {
                if k >= flushed.len() {
                    let c = spec_split_text(cs, ov, seps, p)[k - flushed.len()];
                    lemma_substring_trans(c, p, text);
                }
            }
            assert(pieces.subrange(i + 1, i + 1) =~= Seq::<Seq<char>>::empty());
            lemma_split_pieces_substrings(cs, ov, seps, text, i + 1, i + 1, next_acc);
            assert(split_pieces(cs, ov, seps, text, i, good, acc) == split_pieces(
                cs,
                ov,
                seps,
                text,
                i + 1,
                pieces.subrange(i + 1, i + 1),
                next_acc,
            ));
        }
    }
}

/// Every chunk is a contiguous piece of the input text: splitting never
/// invents or reorders characters, the only loss being separators and
/// white space dropped between chunks.
pub proof fn lemma_chunks_are_substrings(sp: RecursiveCharacterTextSplitter, text: Seq<char>)
    requires
        sp.wf(),
    ensures
        forall|k: int|
            0 <= k < sp.spec_chunks(text).len() ==> is_substring(
                #[trigger] sp.spec_chunks(text)[k],
                text,
            ),
{
    let seps = views_of(sp.separators@);
    let cs = sp.chunk_size as int;
    let ov = sp.chunk_overlap as int;
    assert(spec_pieces(seps, text).subrange(0int, 0int) =~= Seq::<Seq<char>>::empty());
    lemma_split_pieces_substrings(cs, ov, seps, text, 0, 0, Seq::empty());
    assert(sp.spec_chunks(text) == split_pieces(
        cs,
        ov,
        seps,
        text,
        0,
        spec_pieces(seps, text).subrange(0int, 0int),
        Seq::empty(),
    ));
}

/// The character occurs somewhere among the chunks.
pub open spec fn char_covered(c: char, chunks: Seq<Seq<char>>) -> bool {
    exists|k: int, pos: int|
        0 <= k < chunks.len() && 0 <= pos < chunks[k].len() && #[trigger] chunks[k][pos] == c
}

/// The separator consists of white space only.
pub open spec fn ws_only(sep: Seq<char>) -> bool {
    forall|t: int| 0 <= t < sep.len() ==> crate::text::is_ws(#[trigger] sep[t])
}

/// Every separator in the list consists of white space only.
pub open spec fn all_seps_ws(seps: Seq<Seq<char>>) -> bool {
    forall|j: int| 0 <= j < seps.len() ==> ws_only(#[trigger] seps[j])
}

proof fn lemma_covered_prefix(c: char, chunks: Seq<Seq<char>>, ext: Seq<Seq<char>>)
    requires
        char_covered(c, chunks),
        chunks.len() <= ext.len(),
        forall|k: int| 0 <= k < chunks.len() ==> #[trigger] ext[k] == chunks[k],
    ensures
        char_covered(c, ext),
{
    let (k, pos) = choose|k: int, pos: int|
        0 <= k < chunks.len() && 0 <= pos < chunks[k].len() && #[trigger] chunks[k][pos] == c;
    assert(ext[k][pos] == c);
}

proof fn lemma_covered_concat_right(c: char, m: Seq<Seq<char>>, acc: Seq<Seq<char>>)
    requires
        char_covered(c, m),
    ensures
        char_covered(c, acc + m),
{
    let (k, pos) = choose|k: int, pos: int|
        0 <= k < m.len() && 0 <= pos < m[k].len() && #[trigger] m[k][pos] == c;
    assert((acc + m)[acc.len() + k][pos] == c);
}

/// A non-white-space character of a window piece survives into the
/// trimmed join of the window.
proof fn lemma_window_chars(window: Seq<Seq<char>>, sep: Seq<char>, j: int, idx: int)
    requires
        0 <= j < window.len(),
        0 <= idx < window[j].len(),
        !crate::text::is_ws(window[j][idx]),
    ensures
        ({
            let t = spec_trim(join_with(window, sep));
            exists|pos: int| 0 <= pos < t.len() && #[trigger] t[pos] == window[j][idx]
        }),
{
    let w = join_with(window, sep);
    assert(window.subrange(j, j + 1) =~= seq![window[j]]);
    lemma_join_subrange_substring(window, j, j + 1, sep);
    assert(join_with(seq![window[j]], sep) == window[j]);
    let a = choose|a: int|
        0 <= a && a + window[j].len() <= w.len() && #[trigger] w.subrange(
            a,
            a + window[j].len(),
        ) == window[j];
    assert(w[a + idx] == window[j][idx]) by {
        assert(w.subrange(a, a + window[j].len())[idx] == w[a + idx]);
    }
    crate::text::lemma_trim_keeps_nonws(w, a + idx);
}

/// Every non-white-space character of every piece handed to a merge
/// occurs in one of the merged chunks.
proof fn lemma_merge_from_covers(
    pieces: Seq<Seq<char>>,
    i: int,
    st: (Seq<Seq<char>>, Seq<Seq<char>>, int),
    sep: Seq<char>,
    cs: int,
    ov: int,
    a: int,
)
    requires
        0 <= a <= i <= pieces.len(),
        st.1 == pieces.subrange(a, i),
        forall|j: int, idx: int|
            0 <= j < a && 0 <= idx < pieces[j].len() && !crate::text::is_ws(
                #[trigger] pieces[j][idx],
            ) ==> char_covered(pieces[j][idx], st.0),
    ensures
        forall|j: int, idx: int|
            0 <= j < pieces.len() && 0 <= idx < pieces[j].len() && !crate::text::is_ws(
                #[trigger] pieces[j][idx],
            ) ==> char_covered(pieces[j][idx], merge_from(pieces, i, st, sep, cs, ov)),
    decreases pieces.len() - i,
{
    let (docs, window, total) = st;
    let t = spec_trim(join_with(window, sep));
    if i >= pieces.len() {
        let result = merge_from(pieces, i, st, sep, cs, ov);
        assert forall|j: int, idx: int|
            0 <= j < pieces.len() && 0 <= idx < pieces[j].len() && !crate::text::is_ws(
                #[trigger] pieces[j][idx],
            ) implies char_covered(pieces[j][idx], result) by {
            if j < a {
                if t.len() > 0 {
                    lemma_covered_prefix(pieces[j][idx], docs, docs.push(t));
                }
            } else {
                assert(window[j - a] == pieces[j]);
                lemma_window_chars(window, sep, j - a, idx);
                assert(t.len() > 0);
                let pos = choose|pos: int|
                    0 <= pos < t.len() && #[trigger] t[pos] == window[j - a][idx];
                assert(result[docs.len() as int][pos] == pieces[j][idx]);
            }
        }
    } else {
        let stn = merge_step(st, pieces[i], sep, cs, ov);
        let len = pieces[i].len() as int;
        let extra = if window.len() > 0 {
            sep.len() as int
        } else {
            0
        };
        if total + len + extra > cs && window.len() > 0 {
            lemma_shrink_subrange(pieces, a, i, total, len, sep, cs, ov);
            let a2 = choose|a2: int|
                a <= a2 <= i && merge_shrink(pieces.subrange(a, i), total, len, sep, cs, ov).0
                    == #[trigger] pieces.subrange(a2, i);
            assert(pieces.subrange(a2, i).push(pieces[i]) =~= pieces.subrange(a2, i + 1));
            assert(stn.1 == pieces.subrange(a2, i + 1));
            assert forall|j: int, idx: int|
                0 <= j < a2 && 0 <= idx < pieces[j].len() && !crate::text::is_ws(
                    #[trigger] pieces[j][idx],
                ) implies char_covered(pieces[j][idx], stn.0) by {
                if j < a {
                    if t.len() > 0 {
                        lemma_covered_prefix(pieces[j][idx], docs, docs.push(t));
                    }
                } else {
                    assert(window[j - a] == pieces[j]);
                    lemma_window_chars(window, sep, j - a, idx);
                    assert(t.len() > 0);
                    let pos = choose|pos: int|
                        0 <= pos < t.len() && #[trigger] t[pos] == window[j - a][idx];
                    assert(docs.push(t)[docs.len() as int][pos] == pieces[j][idx]);
                }
            }
            lemma_merge_from_covers(pieces, i + 1, stn, sep, cs, ov, a2);
        } else {
            assert(pieces.subrange(a, i).push(pieces[i]) =~= pieces.subrange(a, i + 1));
            assert(stn.1 == pieces.subrange(a, i + 1));
            assert(stn.0 == docs);
            lemma_merge_from_covers(pieces, i + 1, stn, sep, cs, ov, a);
        }
        assert(merge_from(pieces, i, st, sep, cs, ov) == merge_from(
            pieces,
            i + 1,
            stn,
            sep,
            cs,
            ov,
        ));
    }
}

/// The chosen separator is one of the list, or empty.
proof fn lemma_choose_sep_member(seps: Seq<Seq<char>>, text: Seq<char>)
    ensures
        spec_choose_sep(seps, text) == Seq::<char>::empty() || exists|j: int|
            0 <= j < seps.len() && #[trigger] seps[j] == spec_choose_sep(seps, text),
    decreases seps.len(),
{
    if seps.len() == 0 {
    } else if seps[0].len() == 0 || contains_sep(text, seps[0]) {
        assert(seps[0] == spec_choose_sep(seps, text));
    } else {
        lemma_choose_sep_member(seps.skip(1), text);
        if spec_choose_sep(seps, text) != Seq::<char>::empty() {
            let j = choose|j: int|
                0 <= j < seps.skip(1).len() && #[trigger] seps.skip(1)[j] == spec_choose_sep(
                    seps.skip(1),
                    text,
                );
            assert(seps[j + 1] == spec_choose_sep(seps, text));
        }
    }
}

/// Under white-space-only separators, every non-white-space character of
/// the text sits in some piece.
proof fn lemma_text_char_from_piece(seps: Seq<Seq<char>>, text: Seq<char>, q: int)
    requires
        0 <= q < text.len(),
        !crate::text::is_ws(text[q]),
        all_seps_ws(seps),
    ensures
        exists|j: int, idx: int|
            0 <= j < spec_pieces(seps, text).len() && 0 <= idx < spec_pieces(seps, text)[j].len()
                && #[trigger] spec_pieces(seps, text)[j][idx] == text[q],
{
    let sep = spec_choose_sep(seps, text);
    let pieces = spec_pieces(seps, text);
    lemma_pieces_join_text(seps, text);
    lemma_choose_sep_member(seps, text);
    assert(ws_only(sep));
    crate::text::lemma_join_char_source(pieces, sep, q);
    assert(join_with(pieces, sep)[q] == text[q]);
    if exists|t: int| 0 <= t < sep.len() && #[trigger] sep[t] == text[q] {
        let t = choose|t: int| 0 <= t < sep.len() && #[trigger] sep[t] == text[q];
        assert(crate::text::is_ws(sep[t]));
        assert(false);
    }
}

/// Every non-white-space character of every piece occurs in some chunk of
/// the split, provided the chunks produced so far cover the pieces already
/// consumed.
proof fn lemma_split_pieces_covers(
    cs: int,
    ov: int,
    seps: Seq<Seq<char>>,
    text: Seq<char>,
    i: int,
    g: int,
    acc: Seq<Seq<char>>,
)
    requires
        2 <= cs,
        has_empty_sep(seps),
        all_seps_ws(seps),
        0 <= g <= i <= spec_pieces(seps, text).len(),
        forall|j: int, idx: int|
            0 <= j < g && 0 <= idx < spec_pieces(seps, text)[j].len() && !crate::text::is_ws(
                #[trigger] spec_pieces(seps, text)[j][idx],
            ) ==> char_covered(spec_pieces(seps, text)[j][idx], acc),
    ensures
        forall|j: int, idx: int|
            0 <= j < spec_pieces(seps, text).len() && 0 <= idx < spec_pieces(seps, text)[j].len()
                && !crate::text::is_ws(#[trigger] spec_pieces(seps, text)[j][idx])
                ==> char_covered(
                spec_pieces(seps, text)[j][idx],
                split_pieces(cs, ov, seps, text, i, spec_pieces(seps, text).subrange(g, i), acc),
            ),
    decreases text.len(), spec_pieces(seps, text).len() - i,
{
    let sep = spec_choose_sep(seps, text);
    let pieces = spec_pieces(seps, text);
    let good = pieces.subrange(g, i);
    if i >= pieces.len() {
        if good.len() > 0 {
            assert(good.subrange(0int, 0int) =~= Seq::<Seq<char>>::empty());
            lemma_merge_from_covers(
                good,
                0,
                (Seq::<Seq<char>>::empty(), Seq::<Seq<char>>::empty(), 0),
                sep,
                cs,
                ov,
                0,
            );
            let result = acc + spec_merge(good, sep, cs, ov);
            assert(split_pieces(cs, ov, seps, text, i, good, acc) == result);
            assert forall|j: int, idx: int|
                0 <= j < pieces.len() && 0 <= idx < pieces[j].len() && !crate::text::is_ws(
                    #[trigger] pieces[j][idx],
                ) implies char_covered(pieces[j][idx], result) by {
                if j < g {
                    lemma_covered_prefix(pieces[j][idx], acc, result);
                } else {
                    assert(good[j - g] == pieces[j]);
                    assert(char_covered(pieces[j][idx], spec_merge(good, sep, cs, ov)));
                    lemma_covered_concat_right(pieces[j][idx], spec_merge(good, sep, cs, ov), acc);
                }
            }
        } else {
            assert(g == i);
            assert(split_pieces(cs, ov, seps, text, i, good, acc) == acc);
        }
    } else {
        let p = pieces[i];
        if p.len() < cs {
            assert(good.push(p) =~= pieces.subrange(g, i + 1));
            lemma_split_pieces_covers(cs, ov, seps, text, i + 1, g, acc);
            assert(split_pieces(cs, ov, seps, text, i, good, acc) == split_pieces(
                cs,
                ov,
                seps,
                text,
                i + 1,
                pieces.subrange(g, i + 1),
                acc,
            ));
        } else {
            let flushed = if good.len() > 0 {
                acc + spec_merge(good, sep, cs, ov)
            } else {
                acc
            };
            if good.len() > 0 {
                assert(good.subrange(0int, 0int) =~= Seq::<Seq<char>>::empty());
                lemma_merge_from_covers(
                    good,
                    0,
                    (Seq::<Seq<char>>::empty(), Seq::<Seq<char>>::empty(), 0),
                    sep,
                    cs,
                    ov,
                    0,
                );
            }
            lemma_piece_shorter_than_text(seps, text, i);
            assert(spec_pieces(seps, p).subrange(0int, 0int) =~= Seq::<Seq<char>>::empty());
            lemma_split_pieces_covers(cs, ov, seps, p, 0, 0, Seq::empty());
            assert(spec_split_text(cs, ov, seps, p) == split_pieces(
                cs,
                ov,
                seps,
                p,
                0,
                Seq::empty(),
                Seq::empty(),
            ));
            let next_acc = flushed + spec_split_text(cs, ov, seps, p);
            assert forall|j: int, idx: int|
                0 <= j < i + 1 && 0 <= idx < pieces[j].len() && !crate::text::is_ws(
                    #[trigger] pieces[j][idx],
                ) implies char_covered(pieces[j][idx], next_acc) by {
                if j < g {
                    lemma_covered_prefix(pieces[j][idx], acc, flushed);
                    lemma_covered_prefix(pieces[j][idx], flushed, next_acc);
                } else if j < i {
                    assert(good[j - g] == pieces[j]);
                    assert(char_covered(pieces[j][idx], spec_merge(good, sep, cs, ov)));
                    lemma_covered_concat_right(pieces[j][idx], spec_merge(good, sep, cs, ov), acc);
                    lemma_covered_prefix(pieces[j][idx], flushed, next_acc);
                } else {
                    lemma_text_char_from_piece(seps, p, idx);
                    let (j2, idx2) = choose|j2: int, idx2: int|
                        0 <= j2 < spec_pieces(seps, p).len() && 0 <= idx2 < spec_pieces(
                            seps,
                            p,
                        )[j2].len() && #[trigger] spec_pieces(seps, p)[j2][idx2] == p[idx];
                    assert(!crate::text::is_ws(spec_pieces(seps, p)[j2][idx2]));
                    assert(char_covered(p[idx], spec_split_text(cs, ov, seps, p)));
                    lemma_covered_concat_right(p[idx], spec_split_text(cs, ov, seps, p), flushed);
                }
            }
            assert(pieces.subrange(i + 1, i + 1) =~= Seq::<Seq<char>>::empty());
            lemma_split_pieces_covers(cs, ov, seps, text, i + 1, i + 1, next_acc);
            assert(split_pieces(cs, ov, seps, text, i, good, acc) == split_pieces(
                cs,
                ov,
                seps,
                text,
                i + 1,
                pieces.subrange(i + 1, i + 1),
                next_acc,
            ));
        }
    }
}

/// Coverage: with white-space-only separators (as in the default
/// configuration), every non-white-space character of the input occurs in
/// some chunk; what splitting drops is separator and white-space material
/// collapsed at chunk boundaries.
pub proof fn lemma_chunks_cover_text(sp: RecursiveCharacterTextSplitter, text: Seq<char>, q: int)
    requires
        sp.wf(),
        all_seps_ws(views_of(sp.separators@)),
        0 <= q < text.len(),
        !crate::text::is_ws(text[q]),
    ensures
        char_covered(text[q], sp.spec_chunks(text)),
{
    let cs = sp.chunk_size as int;
    let ov = sp.chunk_overlap as int;
    let seps = views_of(sp.separators@);
    let pieces = spec_pieces(seps, text);
    lemma_text_char_from_piece(seps, text, q);
    let (j, idx) = choose|j: int, idx: int|
        0 <= j < pieces.len() && 0 <= idx < pieces[j].len() && #[trigger] pieces[j][idx]
            == text[q];
    assert(pieces.subrange(0int, 0int) =~= Seq::<Seq<char>>::empty());
    lemma_split_pieces_covers(cs, ov, seps, text, 0, 0, Seq::empty());
    assert(!crate::text::is_ws(pieces[j][idx]));
    assert(sp.spec_chunks(text) == split_pieces(
        cs,
        ov,
        seps,
        text,
        0,
        pieces.subrange(0int, 0int),
        Seq::empty(),
    ));
}

/// Merging pieces whose joined length stays within the size bound yields
/// the single trimmed join, or nothing when that join is all white space.
pub proof fn lemma_merge_from_small(pieces: Seq<Seq<char>>, i: int, sep: Seq<char>, cs: int, ov:
    int)
    requires
        0 <= i <= pieces.len(),
        join_len(pieces, sep) <= cs,
    ensures
        ({
            let t = spec_trim(join_with(pieces, sep));
            merge_from(pieces, i, (Seq::<Seq<char>>::empty(), pieces.take(i), join_len(
                pieces.take(i),
                sep,
            )), sep, cs, ov) == if t.len() > 0 {
                seq![t]
            } else {
                Seq::<Seq<char>>::empty()
            }
        }),
    decreases pieces.len() - i,
{
    if i >= pieces.len() {
        assert(pieces.take(i) =~= pieces);
    } else {
        let st = (Seq::<Seq<char>>::empty(), pieces.take(i), join_len(pieces.take(i), sep));
        lemma_join_len_push(pieces.take(i), pieces[i], sep);
        assert(pieces.take(i).push(pieces[i]) =~= pieces.take(i + 1));
        assert(pieces.take(i + 1) =~= pieces.subrange(0int, i + 1));
        lemma_join_len_subrange_le(pieces, 0int, i + 1, sep);
        assert(join_len(pieces.take(i + 1), sep) <= cs);
        let stn = merge_step(st, pieces[i], sep, cs, ov);
        assert(stn == (Seq::<Seq<char>>::empty(), pieces.take(i + 1), join_len(
            pieces.take(i + 1),
            sep,
        )));
        lemma_merge_from_small(pieces, i + 1, sep, cs, ov);
    }
}

/// When every piece from `i` on is short, they all join the pending run,
/// which is merged in one final step.
pub proof fn lemma_split_pieces_all_good(
    cs: int,
    ov: int,
    seps: Seq<Seq<char>>,
    text: Seq<char>,
    i: int,
    good: Seq<Seq<char>>,
    acc: Seq<Seq<char>>,
)
    requires
        2 <= cs,
        has_empty_sep(seps),
        0 <= i <= spec_pieces(seps, text).len(),
        forall|j: int|
            i <= j < spec_pieces(seps, text).len() ==> (#[trigger] spec_pieces(seps, text)[j]).len()
                < cs,
    ensures
        split_pieces(cs, ov, seps, text, i, good, acc) == if (good + spec_pieces(
            seps,
            text,
        ).skip(i)).len() > 0 {
            acc + spec_merge(good + spec_pieces(seps, text).skip(i), spec_choose_sep(seps, text), cs, ov)
        } else {
            acc
        },
    decreases spec_pieces(seps, text).len() - i,
{
    let sep = spec_choose_sep(seps, text);
    let pieces = spec_pieces(seps, text);
    if i >= pieces.len() {
        assert(good + pieces.skip(i) =~= good);
    } else {
        lemma_split_pieces_all_good(cs, ov, seps, text, i + 1, good.push(pieces[i]), acc);
        assert(good.push(pieces[i]) + pieces.skip(i + 1) =~= good + pieces.skip(i));
    }
}

/// A document already within the size bound splits into exactly one chunk,
/// the trimmed input, or into no chunk at all when it is all white space.
pub proof fn lemma_minimal_document(sp: RecursiveCharacterTextSplitter, text: Seq<char>)
    requires
        sp.wf(),
        text.len() < sp.chunk_size,
    ensures
        spec_trim(text).len() > 0 ==> sp.spec_chunks(text) == seq![spec_trim(text)],
        spec_trim(text).len() == 0 ==> sp.spec_chunks(text) == Seq::<Seq<char>>::empty(),
{
    let cs = sp.chunk_size as int;
    let ov = sp.chunk_overlap as int;
    let seps = views_of(sp.separators@);
    let sep = spec_choose_sep(seps, text);
    let pieces = spec_pieces(seps, text);
    lemma_choose_sep(seps, text);
    lemma_sum_pieces_le(text, sep);
    lemma_piece_le_sum(pieces);
    lemma_split_pieces_all_good(cs, ov, seps, text, 0, Seq::empty(), Seq::empty());
    assert(Seq::<Seq<char>>::empty() + pieces.skip(0) =~= pieces);
    if pieces.len() > 0 {
        assert(pieces.take(0int) =~= Seq::<Seq<char>>::empty());
        if sep.len() == 0 {
            assert(sep =~= Seq::<char>::empty());
            lemma_join_split_chars(text);
        } else {
            lemma_join_split_on(text, sep);
        }
        assert(join_with(pieces, sep) == text);
        lemma_join_len_is_join_with_len(pieces, sep);
        assert(join_len(pieces, sep) <= cs);
        assert(join_len(pieces.take(0int), sep) == 0);
        lemma_merge_from_small(pieces, 0, sep, cs, ov);
        assert(Seq::<Seq<char>>::empty() + seq![spec_trim(text)] =~= seq![spec_trim(text)]);
        assert(Seq::<Seq<char>>::empty() + Seq::<Seq<char>>::empty() =~= Seq::<
            Seq<char>,
        >::empty());
    } else {
        assert(sep.len() == 0 && text.len() == 0);
        assert(spec_trim(text).len() == 0);
    }
}

/// Appending a piece grows the joined length by the piece plus one
/// separator when the window was non-empty.
pub proof fn lemma_join_len_push(pieces: Seq<Seq<char>>, x: Seq<char>, sep: Seq<char>)
    ensures
        join_len(pieces.push(x), sep) == join_len(pieces, sep) + x.len() + (if pieces.len() > 0 {
            sep.len() as int
        } else {
            0
        }),
{
    lemma_sum_push(pieces, x);
    let n = pieces.len() as int;
    if n > 0 {
        let a = sep.len() as int;
        assert(a * n == a * (n - 1) + a) by (nonlinear_arith);
    }
}

/// Dropping the front piece shrinks the joined length by that piece plus
/// one separator when more pieces remain; what remains is non-negative.
pub proof fn lemma_join_len_drop(w: Seq<Seq<char>>, sep: Seq<char>)
    requires
        w.len() >= 1,
    ensures
        join_len(w, sep) == w[0].len() + (if w.len() > 1 {
            sep.len() as int
        } else {
            0
        }) + join_len(w.skip(1), sep),
        join_len(w.skip(1), sep) >= 0,
        join_len(w, sep) >= 0,
{
    assert(sum_lens(w) == w[0].len() + sum_lens(w.skip(1)));
    lemma_piece_le_sum(w.skip(1));
    lemma_piece_le_sum(w);
    let n = w.len() as int;
    let a = sep.len() as int;
    if n > 1 {
        assert(a * (n - 1) == a + a * (n - 2)) by (nonlinear_arith);
        assert(a * (n - 2) >= 0) by (nonlinear_arith)
            requires
                a >= 0,
                n >= 2,
        ;
    }
}

/// The joined length of a contiguous run never exceeds that of the whole.
pub proof fn lemma_join_len_subrange_le(vs: Seq<Seq<char>>, a: int, b: int, sep: Seq<char>)
    requires
        0 <= a <= b <= vs.len(),
    ensures
        0 <= join_len(vs.subrange(a, b), sep),
        join_len(vs.subrange(a, b), sep) <= join_len(vs, sep),
{
    let sub = vs.subrange(a, b);
    lemma_piece_le_sum(sub);
    lemma_piece_le_sum(vs);
    let sl = sep.len() as int;
    if sub.len() == 0 {
        if vs.len() > 0 {
            assert(sl * (vs.len() - 1) >= 0) by (nonlinear_arith)
                requires
                    sl >= 0,
                    vs.len() >= 1,
            ;
        }
    } else {
        lemma_sum_rest(vs, b);
        lemma_sum_rest(vs.take(b), a);
        assert(vs.take(b).take(a) =~= vs.take(a));
        assert(vs.take(b).skip(a) =~= sub);
        lemma_piece_le_sum(vs.take(a));
        lemma_piece_le_sum(vs.skip(b));
        assert(sum_lens(sub) <= sum_lens(vs));
        assert(sl * (sub.len() - 1) <= sl * (vs.len() - 1)) by (nonlinear_arith)
            requires
                sl >= 0,
                sub.len() <= vs.len(),
                sub.len() >= 1,
        ;
        assert(sl * (sub.len() - 1) >= 0) by (nonlinear_arith)
            requires
                sl >= 0,
                sub.len() >= 1,
        ;
    }
}

/// The joined length names exactly the length of the join.
pub proof fn lemma_join_len_is_join_with_len(pieces: Seq<Seq<char>>, sep: Seq<char>)
    ensures
        join_with(pieces, sep).len() == join_len(pieces, sep),
{
    if pieces.len() == 0 {
        assert(join_with(pieces, sep) == Seq::<char>::empty());
    } else {
        lemma_join_len(pieces, sep);
    }
}

/// Appending a piece adds its length to the sum.
pub proof fn lemma_sum_push(pieces: Seq<Seq<char>>, x: Seq<char>)
    ensures
        sum_lens(pieces.push(x)) == sum_lens(pieces) + x.len(),
    decreases pieces.len(),
{
    if pieces.len() == 0 {
        assert(pieces.push(x).skip(1) =~= Seq::<Seq<char>>::empty());
        assert(sum_lens(pieces.push(x)) == x.len() + sum_lens(Seq::<Seq<char>>::empty()));
    } else {
        lemma_sum_push(pieces.skip(1), x);
        assert(pieces.push(x).skip(1) =~= pieces.skip(1).push(x));
    }
}

/// The sum splits at any index into prefix and suffix.
pub proof fn lemma_sum_rest(pieces: Seq<Seq<char>>, i: int)
    requires
        0 <= i <= pieces.len(),
    ensures
        sum_lens(pieces) == sum_lens(pieces.take(i)) + sum_lens(pieces.skip(i)),
    decreases i,
{
    if i == 0 {
        assert(pieces.take(0int) =~= Seq::<Seq<char>>::empty());
        assert(pieces.skip(0int) =~= pieces);
    } else {
        lemma_sum_rest(pieces, i - 1);
        lemma_sum_push(pieces.take(i - 1), pieces[i - 1]);
        assert(pieces.take(i) =~= pieces.take(i - 1).push(pieces[i - 1]));
        assert(pieces.skip(i - 1).skip(1) =~= pieces.skip(i));
        assert(sum_lens(pieces.skip(i - 1)) == pieces.skip(i - 1)[0].len() + sum_lens(
            pieces.skip(i),
        ));
        assert(pieces.skip(i - 1)[0] == pieces[i - 1]);
    }
}

} // verus!
