//! Embedding vectors and the exact cosine-similarity ordering over them.
//!
//! Vectors are quantized to `i16` components so that every similarity
//! comparison is computed exactly in integer arithmetic: comparing
//! `dot(q,a)/(|q||a|)` with `dot(q,b)/(|q||b|)` reduces, after cancelling
//! `|q|` and squaring, to a sign analysis and an integer cross product.

use vstd::prelude::*;

use crate::document::{Document, EmptyMetadata};

verus! {

/// The largest dimensionality a vector may have; keeps every similarity
/// comparison within 128-bit integer arithmetic.
pub const MAX_DIMENSION: usize = 2048;

/// A quantized embedding vector.
#[derive(Clone, Debug)]
pub struct EmbeddingVector {
    pub components: Vec<i16>,
}

impl View for EmbeddingVector {
    type V = Seq<i16>;

    open spec fn view(&self) -> Seq<i16> {
        self.components@
    }
}

impl EmbeddingVector {
    /// Comparable within the exact integer arithmetic.
    pub open spec fn wf(&self) -> bool {
        self@.len() <= MAX_DIMENSION
    }

    pub fn new(components: Vec<i16>) -> (r: Self)
        requires
            components@.len() <= MAX_DIMENSION,
        ensures
            r@ == components@,
            r.wf(),
    {
        EmbeddingVector { components }
    }
}

/// The dot product over the first `n` positions.
pub open spec fn dot_upto(a: Seq<i16>, b: Seq<i16>, n: int) -> int
    decreases n,
{
    if n <= 0 {
        0
    } else {
        dot_upto(a, b, n - 1) + a[n - 1] * b[n - 1]
    }
}

/// The dot product of two vectors, over their common prefix.
pub open spec fn spec_dot(a: Seq<i16>, b: Seq<i16>) -> int {
    if a.len() <= b.len() {
        dot_upto(a, b, a.len() as int)
    } else {
        dot_upto(a, b, b.len() as int)
    }
}

/// A dot product of a vector with itself is non-negative.
pub proof fn lemma_dot_self_nonneg(v: Seq<i16>, n: int)
    ensures
        dot_upto(v, v, n) >= 0,
    decreases n,
{
    if n > 0 {
        lemma_dot_self_nonneg(v, n - 1);
        let x = v[n - 1] as int;
        assert(x * x >= 0) by (nonlinear_arith);
    }
}

/// Small ring identities over atomic terms, kept separate so the
/// nonlinear solver sees low-degree goals.
proof fn lemma_square_identity(u: int, w: int)
    ensures
        (u + w) * (u + w) - 4 * (u * w) == (u - w) * (u - w),
        (u - w) * (u - w) >= 0,
        4 * (u * w) <= (u + w) * (u + w),
{
    assert((u + w) * (u + w) - 4 * (u * w) == (u - w) * (u - w)) by (nonlinear_arith);
    assert((u - w) * (u - w) >= 0) by (nonlinear_arith);
}

proof fn lemma_sq_le(t: int, s: int)
    requires
        t * t <= s * s,
        s >= 0,
    ensures
        t <= s,
{
    assert(t <= s) by (nonlinear_arith)
        requires
            t * t <= s * s,
            s >= 0,
    ;
}

proof fn lemma_bin_sq(p: int, q: int)
    ensures
        (p + q) * (p + q) == p * p + 2 * (p * q) + q * q,
{
    assert((p + q) * (p + q) == p * p + 2 * (p * q) + q * q) by (nonlinear_arith);
}

proof fn lemma_bin_prod(a1: int, a2: int, b1: int, b2: int)
    ensures
        (a1 + a2) * (b1 + b2) == a1 * b1 + a1 * b2 + a2 * b1 + a2 * b2,
{
    assert((a1 + a2) * (b1 + b2) == a1 * b1 + a1 * b2 + a2 * b1 + a2 * b2) by (nonlinear_arith);
}

/// Cauchy-Schwarz over the common prefix: the squared dot product never
/// exceeds the product of the squared norms.
pub proof fn lemma_cauchy_schwarz(a: Seq<i16>, b: Seq<i16>, n: int)
    ensures
        dot_upto(a, b, n) * dot_upto(a, b, n) <= dot_upto(a, a, n) * dot_upto(b, b, n),
    decreases n,
{
    if n <= 0 {
    } else {
        lemma_cauchy_schwarz(a, b, n - 1);
        lemma_dot_self_nonneg(a, n - 1);
        lemma_dot_self_nonneg(b, n - 1);
        let d = dot_upto(a, b, n - 1);
        let na = dot_upto(a, a, n - 1);
        let nb = dot_upto(b, b, n - 1);
        let x = a[n - 1] as int;
        let y = b[n - 1] as int;
        assert(x * x * (y * y) >= 0) by (nonlinear_arith);
        assert(4 * ((d * d) * (x * x * (y * y))) <= 4 * ((na * nb) * (x * x * (y * y))))
            by (nonlinear_arith)
            requires
                d * d <= na * nb,
                x * x * (y * y) >= 0,
        ;
        lemma_square_identity(na * (y * y), nb * (x * x));
        assert((na * (y * y)) * (nb * (x * x)) == (na * nb) * (x * x * (y * y)))
            by (nonlinear_arith);
        assert((2 * (d * (x * y))) * (2 * (d * (x * y))) == 4 * ((d * d) * (x * x * (y * y))))
            by (nonlinear_arith);
        assert(na * (y * y) >= 0) by (nonlinear_arith)
            requires
                na >= 0,
        ;
        assert(nb * (x * x) >= 0) by (nonlinear_arith)
            requires
                nb >= 0,
        ;
        lemma_sq_le(2 * (d * (x * y)), na * (y * y) + nb * (x * x));
        lemma_bin_sq(d, x * y);
        assert((x * y) * (x * y) == x * x * (y * y)) by (nonlinear_arith);
        lemma_bin_prod(na, x * x, nb, y * y);
        assert(na * (y * y) == na * y * y) by (nonlinear_arith);
        assert(nb * (x * x) == nb * x * x) by (nonlinear_arith);
        assert((x * x) * (y * y) == x * x * (y * y)) by (nonlinear_arith);
        assert((d + x * y) * (d + x * y) <= (na + x * x) * (nb + y * y));
        assert(dot_upto(a, b, n) == d + x * y);
        assert(dot_upto(a, a, n) == na + x * x);
        assert(dot_upto(b, b, n) == nb + y * y);
    }
}

/// A vector yields no meaningful cosine against the query: one of the two
/// has zero magnitude. Such entries rank as least similar.
pub open spec fn degenerate(q: Seq<i16>, v: Seq<i16>) -> bool {
    spec_dot(q, q) == 0 || spec_dot(v, v) == 0
}

/// The similarity ranking policy: `a`'s cosine against `q` is at most
/// `b`'s. Degenerate entries rank below everything; otherwise the
/// comparison of `dot(q,a)/|a|` with `dot(q,b)/|b|` is carried out by sign
/// analysis and exact integer cross multiplication of the squares.
pub open spec fn sim_le(q: Seq<i16>, a: Seq<i16>, b: Seq<i16>) -> bool {
    if degenerate(q, a) {
        true
    } else if degenerate(q, b) {
        false
    } else {
        let x = spec_dot(q, a);
        let y = spec_dot(q, b);
        let na = spec_dot(a, a);
        let nb = spec_dot(b, b);
        if x >= 0 && y >= 0 {
            x * x * nb <= y * y * na
        } else if x < 0 && y >= 0 {
            true
        } else if x >= 0 && y < 0 {
            false
        } else {
            y * y * na <= x * x * nb
        }
    }
}

/// The ranking is total: one of the two orders always holds.
pub proof fn lemma_sim_le_total(q: Seq<i16>, a: Seq<i16>, b: Seq<i16>)
    ensures
        sim_le(q, a, b) || sim_le(q, b, a),
{
}

/// The ranking is transitive.
pub proof fn lemma_sim_le_trans(q: Seq<i16>, a: Seq<i16>, b: Seq<i16>, c: Seq<i16>)
    requires
        sim_le(q, a, b),
        sim_le(q, b, c),
    ensures
        sim_le(q, a, c),
{
    if degenerate(q, a) {
    } else {
        assert(!degenerate(q, b));
        assert(!degenerate(q, c));
        let x = spec_dot(q, a);
        let y = spec_dot(q, b);
        let z = spec_dot(q, c);
        let na = spec_dot(a, a);
        let nb = spec_dot(b, b);
        let nc = spec_dot(c, c);
        lemma_dot_self_nonneg(a, if a.len() <= a.len() { a.len() as int } else { a.len() as int });
        assert(na >= 0) by {
            lemma_dot_self_nonneg(a, a.len() as int);
        }
        assert(nb >= 0) by {
            lemma_dot_self_nonneg(b, b.len() as int);
        }
        assert(nc >= 0) by {
            lemma_dot_self_nonneg(c, c.len() as int);
        }
        assert(na > 0 && nb > 0 && nc > 0);
        if x >= 0 && z >= 0 {
            assert(y >= 0);
            assert(x * x * nb <= y * y * na);
            assert(y * y * nc <= z * z * nb);
            if y == 0 {
                assert(y * y * na == 0) by (nonlinear_arith)
                    requires
                        y == 0,
                ;
                assert(x == 0) by (nonlinear_arith)
                    requires
                        x * x * nb <= 0,
                        nb > 0,
                        x >= 0,
                ;
                assert(z * z >= 0) by (nonlinear_arith);
                assert(x * x * nc <= z * z * na) by (nonlinear_arith)
                    requires
                        x == 0,
                        z * z >= 0,
                        na >= 0,
                ;
            } else {
                assert(x * x * nb >= 0) by (nonlinear_arith)
                    requires
                        nb >= 0,
                ;
                assert(y * y * nc >= 0) by (nonlinear_arith)
                    requires
                        nc >= 0,
                ;
                assert((x * x * nb) * (y * y * nc) <= (y * y * na) * (z * z * nb))
                    by (nonlinear_arith)
                    requires
                        0 <= x * x * nb <= y * y * na,
                        0 <= y * y * nc <= z * z * nb,
                ;
                assert((nb * (y * y)) * (x * x * nc) <= (nb * (y * y)) * (z * z * na))
                    by (nonlinear_arith)
                    requires
                        (x * x * nb) * (y * y * nc) <= (y * y * na) * (z * z * nb),
                ;
                assert(x * x * nc <= z * z * na) by (nonlinear_arith)
                    requires
                        (nb * (y * y)) * (x * x * nc) <= (nb * (y * y)) * (z * z * na),
                        nb > 0,
                        y != 0,
                ;
            }
        } else if x < 0 && z >= 0 {
        } else if x >= 0 && z < 0 {
            assert(y >= 0);
            assert(false);
        } else {
            assert(y < 0);
            assert(y * y * na <= x * x * nb);
            assert(z * z * nb <= y * y * nc);
            assert(y * y * na >= 0) by (nonlinear_arith)
                requires
                    na >= 0,
            ;
            assert(z * z * nb >= 0) by (nonlinear_arith)
                requires
                    nb >= 0,
            ;
            assert((y * y * na) * (z * z * nb) <= (x * x * nb) * (y * y * nc))
                by (nonlinear_arith)
                requires
                    0 <= y * y * na <= x * x * nb,
                    0 <= z * z * nb <= y * y * nc,
            ;
            assert((nb * (y * y)) * (z * z * na) <= (nb * (y * y)) * (x * x * nc))
                by (nonlinear_arith)
                requires
                    (y * y * na) * (z * z * nb) <= (x * x * nb) * (y * y * nc),
            ;
            assert(z * z * na <= x * x * nc) by (nonlinear_arith)
                requires
                    (nb * (y * y)) * (z * z * na) <= (nb * (y * y)) * (x * x * nc),
                    nb > 0,
                    y != 0,
            ;
        }
    }
}

/// Self-similarity is maximal: against a query equal to a stored
/// non-degenerate vector, no other vector ranks above that vector.
pub proof fn lemma_self_similarity_maximal(v: Seq<i16>, w: Seq<i16>)
    requires
        spec_dot(v, v) > 0,
    ensures
        sim_le(v, w, v),
{
    if degenerate(v, w) {
    } else {
        let x = spec_dot(v, w);
        let y = spec_dot(v, v);
        let na = spec_dot(w, w);
        assert(na > 0) by {
            lemma_dot_self_nonneg(w, w.len() as int);
        }
        if x >= 0 {
            let n = if v.len() <= w.len() {
                v.len() as int
            } else {
                w.len() as int
            };
            lemma_cauchy_schwarz(v, w, n);
            assert(x == dot_upto(v, w, n));
            assert(x * x <= dot_upto(v, v, n) * dot_upto(w, w, n));
            lemma_dot_partial_le_self(v, n, v.len() as int);
            lemma_dot_partial_le_self(w, n, w.len() as int);
            assert(x * x <= spec_dot(v, v) * spec_dot(w, w)) by (nonlinear_arith)
                requires
                    x * x <= dot_upto(v, v, n) * dot_upto(w, w, n),
                    0 <= dot_upto(v, v, n) <= spec_dot(v, v),
                    0 <= dot_upto(w, w, n) <= spec_dot(w, w),
            ;
            assert(x * x * y <= y * y * na) by (nonlinear_arith)
                requires
                    x * x <= y * na,
                    y > 0,
            ;
        }
    }
}

/// A self dot product only grows with more terms.
pub proof fn lemma_dot_partial_le_self(v: Seq<i16>, n: int, m: int)
    requires
        0 <= n <= m,
    ensures
        0 <= dot_upto(v, v, n) <= dot_upto(v, v, m),
    decreases m,
{
    lemma_dot_self_nonneg(v, n);
    if m > n {
        lemma_dot_partial_le_self(v, n, m - 1);
        let x = v[m - 1] as int;
        assert(x * x >= 0) by (nonlinear_arith);
    }
}

/// Exact dot product of two vectors.
pub fn dot(a: &EmbeddingVector, b: &EmbeddingVector) -> (r: i64)
    requires
        a.wf(),
        b.wf(),
    ensures
        r == spec_dot(a@, b@),
        -2199023255552 <= r <= 2199023255552,
{
    let n = if a.components.len() <= b.components.len() {
        a.components.len()
    } else {
        b.components.len()
    };
    let mut acc: i64 = 0;
    let mut i: usize = 0;
    while i < n
        invariant
            0 <= i <= n,
            n <= a@.len(),
            n <= b@.len(),
            n <= 2048,
            acc == dot_upto(a@, b@, i as int),
            -(i * 1073741824) <= acc <= i * 1073741824,
        decreases n - i,
    {
        let x = a.components[i] as i64;
        let y = b.components[i] as i64;
        proof {
            assert(-1073741824 <= x * y <= 1073741824) by (nonlinear_arith)
                requires
                    -32768 <= x <= 32767,
                    -32768 <= y <= 32767,
            ;
            assert((i + 1) * 1073741824 == i * 1073741824 + 1073741824) by (nonlinear_arith);
        }
        acc = acc + x * y;
        i += 1;
    }
    proof {
        assert(2048 * 1073741824 == 2199023255552) by (nonlinear_arith);
        assert(n * 1073741824 <= 2048 * 1073741824) by (nonlinear_arith)
            requires
                n <= 2048,
        ;
        assert(spec_dot(a@, b@) == dot_upto(a@, b@, n as int));
    }
    acc
}

/// Does `a` rank at or below `b` against the query, under the exact
/// integer comparison of cosines?
pub fn similarity_le(q: &EmbeddingVector, a: &EmbeddingVector, b: &EmbeddingVector) -> (r: bool)
    requires
        q.wf(),
        a.wf(),
        b.wf(),
    ensures
        r == sim_le(q@, a@, b@),
{
    let qq = dot(q, q);
    let na = dot(a, a);
    if qq == 0 || na == 0 {
        return true;
    }
    let nb = dot(b, b);
    if nb == 0 {
        return false;
    }
    let x = dot(q, a);
    let y = dot(q, b);
    let xw = x as i128;
    let yw = y as i128;
    let naw = na as i128;
    let nbw = nb as i128;
    proof {
        lemma_mul_square_bound(xw, nbw);
        lemma_mul_square_bound(yw, naw);
    }
    if x >= 0 && y >= 0 {
        xw * xw * nbw <= yw * yw * naw
    } else if x < 0 && y >= 0 {
        true
    } else if x >= 0 && y < 0 {
        false
    } else {
        yw * yw * naw <= xw * xw * nbw
    }
}

/// Squaring a bounded dot product and multiplying by another stays within
/// 128-bit range.
pub proof fn lemma_mul_square_bound(x: i128, m: i128)
    requires
        -2199023255552 <= x <= 2199023255552,
        -2199023255552 <= m <= 2199023255552,
    ensures
        0 <= x * x <= 4835703278458516698824704,
        -170141183460469231731687303715884105727 <= x * x * m
            <= 170141183460469231731687303715884105727,
{
    assert(0 <= x * x <= 2199023255552 * 2199023255552) by (nonlinear_arith)
        requires
            -2199023255552 <= x <= 2199023255552,
    ;
    assert(2199023255552 * 2199023255552 == 4835703278458516698824704) by (nonlinear_arith);
    assert((2199023255552 * 2199023255552) * 2199023255552
        < 170141183460469231731687303715884105727) by (nonlinear_arith);
    assert(-170141183460469231731687303715884105727 <= x * x * m
        <= 170141183460469231731687303715884105727) by (nonlinear_arith)
        requires
            0 <= x * x <= 2199023255552 * 2199023255552,
            -2199023255552 <= m <= 2199023255552,
            (2199023255552 * 2199023255552) * 2199023255552
                < 170141183460469231731687303715884105727,
    ;
}

/// A failure reported by an embedding provider, surfaced verbatim.
#[derive(Debug)]
pub struct EmbeddingError {
    pub message: String,
}

/// An embedding capability: maps text to fixed-dimensionality quantized
/// vectors, batched calls order-preserving and one-to-one with the input.
pub trait Embeddings: Sized {
    /// The vector this provider assigns to a text.
    spec fn spec_embed(&self, text: Seq<char>) -> Seq<i16>;

    fn embed_document(&self, documents: &Vec<Document<EmptyMetadata>>) -> (r: Result<
        Vec<EmbeddingVector>,
        EmbeddingError,
    >)
        ensures
            r matches Ok(vs) ==> vs@.len() == documents@.len() && forall|i: int|
                0 <= i < vs@.len() ==> (#[trigger] vs@[i])@ == self.spec_embed(
                    documents@[i].page_content@,
                ) && vs@[i].wf(),
    ;

    fn embed_query(&self, text: &str) -> (r: Result<EmbeddingVector, EmbeddingError>)
        ensures
            r matches Ok(v) ==> v@ == self.spec_embed(text@) && v.wf(),
    ;
}

/// The number of buckets the character-frequency embedding uses.
pub const FREQ_DIMENSION: usize = 64;

/// The bucket a character counts toward.
pub open spec fn bucket_of(c: char) -> int {
    ((c as u32) % 64) as int
}

/// How many of the first `n` characters fall in bucket `k`.
pub open spec fn count_upto(text: Seq<char>, n: int, k: int) -> int
    decreases n,
{
    if n <= 0 {
        0
    } else {
        count_upto(text, n - 1, k) + if bucket_of(text[n - 1]) == k {
            1int
        } else {
            0int
        }
    }
}

/// The saturated frequency of bucket `k`.
pub open spec fn freq_at(text: Seq<char>, k: int) -> int {
    if count_upto(text, text.len() as int, k) <= 32767 {
        count_upto(text, text.len() as int, k)
    } else {
        32767
    }
}

/// The character-frequency vector of a text.
pub open spec fn freq_vector(text: Seq<char>) -> Seq<i16> {
    Seq::new(FREQ_DIMENSION as nat, |k: int| freq_at(text, k) as i16)
}

/// Counts never decrease as more text is considered, and never go
/// negative.
pub proof fn lemma_count_mono(text: Seq<char>, n: int, m: int, k: int)
    requires
        n <= m,
    ensures
        0 <= count_upto(text, n, k) || n < 0,
        count_upto(text, n, k) <= count_upto(text, m, k),
    decreases m - n,
{
    if n < m {
        lemma_count_mono(text, n, m - 1, k);
    } else {
        lemma_count_mono_nonneg(text, n, k);
    }
}

pub proof fn lemma_count_mono_nonneg(text: Seq<char>, n: int, k: int)
    ensures
        count_upto(text, n, k) >= 0,
    decreases n,
{
    if n > 0 {
        lemma_count_mono_nonneg(text, n - 1, k);
    }
}

/// A dot product with itself dominates the square of any one component.
pub proof fn lemma_dot_self_ge_component(v: Seq<i16>, n: int, k: int)
    requires
        0 <= k < n <= v.len(),
    ensures
        dot_upto(v, v, n) >= v[k] * v[k],
    decreases n,
{
    lemma_dot_self_nonneg(v, n - 1);
    if k == n - 1 {
    } else {
        lemma_dot_self_ge_component(v, n - 1, k);
        let x = v[n - 1] as int;
        assert(x * x >= 0) by (nonlinear_arith);
    }
}

/// A non-empty text embeds to a non-degenerate frequency vector.
pub proof fn lemma_freq_vector_nondegenerate(text: Seq<char>)
    requires
        text.len() > 0,
    ensures
        spec_dot(freq_vector(text), freq_vector(text)) > 0,
{
    let v = freq_vector(text);
    let k = bucket_of(text[0]);
    assert(0 <= k < 64) by {
        assert((text[0] as u32) % 64 < 64);
    }
    assert(count_upto(text, 0, k) == 0);
    assert(count_upto(text, 1, k) == 1);
    lemma_count_mono(text, 1, text.len() as int, k);
    assert(freq_at(text, k) >= 1);
    assert(v[k] as int >= 1);
    lemma_dot_self_ge_component(v, 64, k);
    let x = v[k] as int;
    assert(x * x >= 1) by (nonlinear_arith)
        requires
            x >= 1,
    ;
    assert(spec_dot(v, v) == dot_upto(v, v, 64));
}

/// A deterministic local embedding: texts map to saturated 64-bucket
/// character-frequency vectors. Identical texts embed identically, and a
/// non-empty text never embeds to the zero vector.
#[derive(Clone, Copy, Debug)]
pub struct CharFrequencyEmbedding;

impl CharFrequencyEmbedding {
    /// The frequency vector of one text.
    pub fn embed_text(text: &str) -> (r: EmbeddingVector)
        ensures
            r@ == freq_vector(text@),
            r.wf(),
    {
        let n = text.unicode_len();
        let mut v: Vec<i16> = Vec::new();
        let mut j: usize = 0;
        while j < 64
            invariant
                0 <= j <= 64,
                v@.len() == j,
                forall|k: int| 0 <= k < j ==> v@[k] == 0i16,
            decreases 64 - j,
        {
            v.push(0i16);
            j += 1;
        }
        let mut i: usize = 0;
        while i < n
            invariant
                0 <= i <= n,
                n == text@.len(),
                v@.len() == 64,
                forall|k: int|
                    0 <= k < 64 ==> v@[k] as int == if count_upto(text@, i as int, k) <= 32767 {
                        count_upto(text@, i as int, k)
                    } else {
                        32767int
                    },
            decreases n - i,
        {
            let c = text.get_char(i);
            let b = ((c as u32) % 64) as usize;
            proof {
                lemma_count_mono_nonneg(text@, i as int, b as int);
            }
            let cur = v[b];
            if cur < 32767 {
                v.set(b, cur + 1);
            }
            proof {
                assert forall|k: int|
                    0 <= k < 64 implies v@[k] as int == if count_upto(text@, i + 1, k) <= 32767 {
                    count_upto(text@, i + 1, k)
                } else {
                    32767int
                } by {
                    lemma_count_mono_nonneg(text@, i as int, k);
                }
            }
            i += 1;
        }
        proof {
            assert(v@ =~= freq_vector(text@));
        }
        EmbeddingVector { components: v }
    }
}

impl Embeddings for CharFrequencyEmbedding {
    open spec fn spec_embed(&self, text: Seq<char>) -> Seq<i16> {
        freq_vector(text)
    }

    fn embed_document(&self, documents: &Vec<Document<EmptyMetadata>>) -> (r: Result<
        Vec<EmbeddingVector>,
        EmbeddingError,
    >) {
        let mut vs: Vec<EmbeddingVector> = Vec::new();
        let mut i: usize = 0;
        while i < documents.len()
            invariant
                0 <= i <= documents@.len(),
                vs@.len() == i,
                forall|k: int|
                    0 <= k < i ==> (#[trigger] vs@[k])@ == freq_vector(
                        documents@[k].page_content@,
                    ) && vs@[k].wf(),
            decreases documents@.len() - i,
        {
            vs.push(Self::embed_text(documents[i].page_content.as_str()));
            i += 1;
        }
        Ok(vs)
    }

    fn embed_query(&self, text: &str) -> (r: Result<EmbeddingVector, EmbeddingError>) {
        Ok(Self::embed_text(text))
    }
}

} // verus!
