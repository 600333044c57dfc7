//! Character-level text model: whitespace and trimming, separator search,
//! splitting and joining, together with the lemmas relating them.

use vstd::prelude::*;

verus! {

/// The white-space characters that trimming removes (the Unicode
/// `White_Space` set).
pub open spec fn is_ws(c: char) -> bool {
    c == '\u{9}' || c == '\u{a}' || c == '\u{b}' || c == '\u{c}' || c == '\u{d}' || c == ' '
        || c == '\u{85}' || c == '\u{a0}' || c == '\u{1680}' || c == '\u{2000}' || c == '\u{2001}'
        || c == '\u{2002}' || c == '\u{2003}' || c == '\u{2004}' || c == '\u{2005}'
        || c == '\u{2006}' || c == '\u{2007}' || c == '\u{2008}' || c == '\u{2009}'
        || c == '\u{200a}' || c == '\u{2028}' || c == '\u{2029}' || c == '\u{202f}'
        || c == '\u{205f}' || c == '\u{3000}'
}

pub fn is_ws_char(c: char) -> (r: bool)
    ensures
        r == is_ws(c),
{
    c == '\u{9}' || c == '\u{a}' || c == '\u{b}' || c == '\u{c}' || c == '\u{d}' || c == ' '
        || c == '\u{85}' || c == '\u{a0}' || c == '\u{1680}' || c == '\u{2000}' || c == '\u{2001}'
        || c == '\u{2002}' || c == '\u{2003}' || c == '\u{2004}' || c == '\u{2005}'
        || c == '\u{2006}' || c == '\u{2007}' || c == '\u{2008}' || c == '\u{2009}'
        || c == '\u{200a}' || c == '\u{2028}' || c == '\u{2029}' || c == '\u{202f}'
        || c == '\u{205f}' || c == '\u{3000}'
}

/// The suffix of `s` that remains after removing leading white space.
pub open spec fn trim_front(s: Seq<char>) -> Seq<char>
    decreases s.len(),
{
    if s.len() > 0 && is_ws(s[0]) {
        trim_front(s.skip(1))
    } else {
        s
    }
}

/// The prefix of `s` that remains after removing trailing white space.
pub open spec fn trim_back(s: Seq<char>) -> Seq<char>
    decreases s.len(),
{
    if s.len() > 0 && is_ws(s[s.len() - 1]) {
        trim_back(s.take(s.len() - 1))
    } else {
        s
    }
}

/// `s` with leading and trailing white space removed.
pub open spec fn spec_trim(s: Seq<char>) -> Seq<char> {
    trim_back(trim_front(s))
}

/// The separator occurs in `text` starting at position `i`.
pub open spec fn sep_at(text: Seq<char>, sep: Seq<char>, i: int) -> bool {
    0 <= i && i + sep.len() <= text.len() && text.subrange(i, i + sep.len() as int) == sep
}

/// The separator occurs somewhere in `text`.
pub open spec fn contains_sep(text: Seq<char>, sep: Seq<char>) -> bool {
    exists|i: int| sep_at(text, sep, i)
}

/// The pieces of `text` delimited by a non-empty separator, leftmost-first,
/// as `str::split` produces them.
pub open spec fn split_on(text: Seq<char>, sep: Seq<char>) -> Seq<Seq<char>>
    decreases text.len(),
{
    if sep.len() == 0 || text.len() < sep.len() {
        seq![text]
    } else if text.take(sep.len() as int) == sep {
        seq![Seq::<char>::empty()] + split_on(text.skip(sep.len() as int), sep)
    } else {
        let rest = split_on(text.skip(1), sep);
        seq![seq![text[0]] + rest[0]] + rest.skip(1)
    }
}

/// `text` cut into its individual characters.
pub open spec fn split_chars(text: Seq<char>) -> Seq<Seq<char>> {
    Seq::new(text.len(), |i: int| seq![text[i]])
}

/// The pieces of `text` under a separator, where the empty separator means
/// one piece per character.
pub open spec fn pieces_of(text: Seq<char>, sep: Seq<char>) -> Seq<Seq<char>> {
    if sep.len() == 0 {
        split_chars(text)
    } else {
        split_on(text, sep)
    }
}

/// The pieces joined with the separator between consecutive pieces.
pub open spec fn join_with(pieces: Seq<Seq<char>>, sep: Seq<char>) -> Seq<char>
    decreases pieces.len(),
{
    if pieces.len() == 0 {
        Seq::empty()
    } else if pieces.len() == 1 {
        pieces[0]
    } else {
        pieces[0] + sep + join_with(pieces.skip(1), sep)
    }
}

/// The total character count of the pieces, separators not counted.
pub open spec fn sum_lens(pieces: Seq<Seq<char>>) -> int
    decreases pieces.len(),
{
    if pieces.len() == 0 {
        0
    } else {
        pieces[0].len() + sum_lens(pieces.skip(1))
    }
}

/// The views of a vector of strings.
pub open spec fn views_of(v: Seq<String>) -> Seq<Seq<char>> {
    v.map_values(|s: String| s@)
}

pub proof fn lemma_split_on_nonempty(text: Seq<char>, sep: Seq<char>)
    ensures
        split_on(text, sep).len() >= 1,
    decreases text.len(),
{
    if sep.len() == 0 || text.len() < sep.len() {
    } else if text.take(sep.len() as int) == sep {
        lemma_split_on_nonempty(text.skip(sep.len() as int), sep);
    } else {
        lemma_split_on_nonempty(text.skip(1), sep);
    }
}

/// Splitting and rejoining on the same separator reproduces the text.
pub proof fn lemma_join_split_on(text: Seq<char>, sep: Seq<char>)
    requires
        sep.len() > 0,
    ensures
        join_with(split_on(text, sep), sep) == text,
    decreases text.len(),
{
    if text.len() < sep.len() {
    } else if text.take(sep.len() as int) == sep {
        let m = sep.len() as int;
        let rest = split_on(text.skip(m), sep);
        lemma_split_on_nonempty(text.skip(m), sep);
        lemma_join_split_on(text.skip(m), sep);
        let whole = seq![Seq::<char>::empty()] + rest;
        assert(whole.skip(1) =~= rest);
        if rest.len() == 0 {
        } else {
            assert(join_with(whole, sep) =~= Seq::<char>::empty() + sep + join_with(rest, sep));
            assert(Seq::<char>::empty() + sep + text.skip(m) =~= text);
        }
    } else {
        let rest = split_on(text.skip(1), sep);
        lemma_split_on_nonempty(text.skip(1), sep);
        lemma_join_split_on(text.skip(1), sep);
        let whole = seq![seq![text[0]] + rest[0]] + rest.skip(1);
        if rest.len() == 1 {
            assert(whole.len() == 1);
            assert(join_with(whole, sep) == seq![text[0]] + rest[0]);
            assert(join_with(rest, sep) == rest[0]);
            assert(seq![text[0]] + rest[0] =~= text);
        } else {
            assert(whole.len() >= 2);
            assert(whole.skip(1) =~= rest.skip(1));
            assert(join_with(whole, sep) == (seq![text[0]] + rest[0]) + sep + join_with(
                rest.skip(1),
                sep,
            ));
            assert(join_with(rest, sep) == rest[0] + sep + join_with(rest.skip(1), sep));
            assert((seq![text[0]] + rest[0]) + sep + join_with(rest.skip(1), sep) =~= seq![
                text[0],
            ] + (rest[0] + sep + join_with(rest.skip(1), sep)));
            assert(seq![text[0]] + text.skip(1) =~= text);
        }
    }
}

/// Joining the individual characters with the empty separator reproduces the
/// text.
pub proof fn lemma_join_split_chars(text: Seq<char>)
    ensures
        join_with(split_chars(text), Seq::<char>::empty()) == text,
    decreases text.len(),
{
    let pieces = split_chars(text);
    if text.len() == 0 {
        assert(pieces.len() == 0);
        assert(join_with(pieces, Seq::<char>::empty()) =~= text);
    } else if text.len() == 1 {
        assert(pieces.len() == 1);
        assert(pieces[0] =~= text);
    } else {
        lemma_join_split_chars(text.skip(1));
        assert(pieces.skip(1) =~= split_chars(text.skip(1)));
        assert(join_with(pieces, Seq::<char>::empty()) == pieces[0] + Seq::<char>::empty()
            + join_with(pieces.skip(1), Seq::<char>::empty()));
        assert(pieces[0] + Seq::<char>::empty() + text.skip(1) =~= text);
    }
}

/// The length of a join: the pieces plus one separator between each pair.
pub proof fn lemma_join_len(pieces: Seq<Seq<char>>, sep: Seq<char>)
    requires
        pieces.len() >= 1,
    ensures
        join_with(pieces, sep).len() == sum_lens(pieces) + sep.len() * (pieces.len() - 1),
    decreases pieces.len(),
{
    if pieces.len() == 1 {
        assert(pieces.skip(1).len() == 0);
        assert(sum_lens(pieces.skip(1)) == 0);
        assert(sum_lens(pieces) == pieces[0].len());
    } else {
        lemma_join_len(pieces.skip(1), sep);
        let n = pieces.len() as int;
        let a = sep.len() as int;
        assert(a * (n - 1) == a * (n - 2) + a) by (nonlinear_arith);
    }
}

/// Every piece is at most the total, and the total is non-negative.
pub proof fn lemma_piece_le_sum(pieces: Seq<Seq<char>>)
    ensures
        sum_lens(pieces) >= 0,
        forall|i: int| 0 <= i < pieces.len() ==> #[trigger] pieces[i].len() <= sum_lens(pieces),
    decreases pieces.len(),
{
    if pieces.len() > 0 {
        lemma_piece_le_sum(pieces.skip(1));
        assert forall|i: int| 0 <= i < pieces.len() implies #[trigger] pieces[i].len() <= sum_lens(
            pieces,
        ) by {
            if i > 0 {
                assert(pieces[i] == pieces.skip(1)[i - 1]);
            }
        }
    }
}

pub proof fn lemma_sep_at_skip(text: Seq<char>, sep: Seq<char>, s: int, p: int)
    requires
        0 <= s <= text.len(),
        s <= p,
    ensures
        sep_at(text, sep, p) == sep_at(text.skip(s), sep, p - s),
{
    if p + sep.len() <= text.len() {
        assert(text.subrange(p, p + sep.len() as int) =~= text.skip(s).subrange(
            p - s,
            p - s + sep.len() as int,
        ));
    }
}

/// When the separator occurs, the split has at least two pieces.
pub proof fn lemma_split_on_hit_count(text: Seq<char>, sep: Seq<char>)
    requires
        sep.len() > 0,
        contains_sep(text, sep),
    ensures
        split_on(text, sep).len() >= 2,
    decreases text.len(),
{
    let i = choose|i: int| sep_at(text, sep, i);
    if text.len() < sep.len() {
        assert(false);
    } else if text.take(sep.len() as int) == sep {
        lemma_split_on_nonempty(text.skip(sep.len() as int), sep);
    } else {
        assert(i != 0) by {
            if i == 0 {
                assert(text.subrange(0, sep.len() as int) =~= text.take(sep.len() as int));
            }
        }
        lemma_sep_at_skip(text, sep, 1, i);
        assert(contains_sep(text.skip(1), sep));
        lemma_split_on_hit_count(text.skip(1), sep);
        lemma_split_on_nonempty(text.skip(1), sep);
    }
}

/// When the separator occurs, every piece is shorter than the text by at
/// least the separator's length.
pub proof fn lemma_split_pieces_short(text: Seq<char>, sep: Seq<char>)
    requires
        sep.len() > 0,
        contains_sep(text, sep),
    ensures
        forall|i: int|
            0 <= i < split_on(text, sep).len() ==> #[trigger] split_on(text, sep)[i].len()
                <= text.len() - sep.len(),
{
    let pieces = split_on(text, sep);
    lemma_split_on_hit_count(text, sep);
    lemma_join_split_on(text, sep);
    lemma_join_len(pieces, sep);
    lemma_piece_le_sum(pieces);
    let n = pieces.len() as int;
    assert(sep.len() * (n - 1) >= sep.len()) by (nonlinear_arith)
        requires
            n >= 2,
            sep.len() >= 1,
    ;
    assert(text.len() == sum_lens(pieces) + sep.len() * (n - 1));
    assert(sum_lens(pieces) <= text.len() - sep.len());
}

/// How a split decomposes at the first occurrence of the separator.
pub proof fn lemma_split_on_first_hit(text: Seq<char>, sep: Seq<char>, k: int)
    requires
        sep.len() > 0,
        sep_at(text, sep, k),
        forall|j: int| 0 <= j < k ==> !sep_at(text, sep, j),
    ensures
        split_on(text, sep) == seq![text.take(k)] + split_on(
            text.skip(k + sep.len() as int),
            sep,
        ),
    decreases text.len(),
{
    let m = sep.len() as int;
    if k == 0 {
        assert(text.subrange(0, m) =~= text.take(m));
        assert(text.take(0) =~= Seq::<char>::empty());
    } else {
        assert(text.len() >= sep.len());
        assert(text.take(m) != sep) by {
            if text.take(m) == sep {
                assert(text.subrange(0, m) =~= text.take(m));
                assert(sep_at(text, sep, 0));
            }
        }
        let rest = split_on(text.skip(1), sep);
        lemma_sep_at_skip(text, sep, 1, k);
        assert forall|j: int| 0 <= j < k - 1 implies !sep_at(text.skip(1), sep, j) by {
            lemma_sep_at_skip(text, sep, 1, j + 1);
        }
        lemma_split_on_first_hit(text.skip(1), sep, k - 1);
        let tailpieces = split_on(text.skip(1).skip(k - 1 + m), sep);
        assert(text.skip(1).skip(k - 1 + m) =~= text.skip(k + m));
        assert(rest == seq![text.skip(1).take(k - 1)] + tailpieces);
        assert(rest[0] == text.skip(1).take(k - 1));
        assert(seq![text[0]] + rest[0] =~= text.take(k));
        assert((seq![seq![text[0]] + rest[0]] + rest.skip(1)) =~= seq![text.take(k)] + split_on(
            text.skip(k + m),
            sep,
        ));
    }
}

/// When the separator does not occur, the split is the whole text.
pub proof fn lemma_split_on_no_hit(text: Seq<char>, sep: Seq<char>)
    requires
        sep.len() > 0,
        !contains_sep(text, sep),
    ensures
        split_on(text, sep) == seq![text],
    decreases text.len(),
{
    if text.len() < sep.len() {
    } else if text.take(sep.len() as int) == sep {
        assert(text.subrange(0, sep.len() as int) =~= text.take(sep.len() as int));
        assert(sep_at(text, sep, 0));
        assert(false);
    } else {
        assert forall|j: int| true implies !sep_at(text.skip(1), sep, j) by {
            if 0 <= j {
                lemma_sep_at_skip(text, sep, 1, j + 1);
            }
        }
        lemma_split_on_no_hit(text.skip(1), sep);
        assert(seq![seq![text[0]] + text.skip(1)] + split_on(text.skip(1), sep).skip(1) =~= seq![
            seq![text[0]] + text.skip(1),
        ]);
        assert(seq![text[0]] + text.skip(1) =~= text);
    }
}

/// Appending one more piece to a non-empty join.
pub proof fn lemma_join_push(pieces: Seq<Seq<char>>, sep: Seq<char>, x: Seq<char>)
    requires
        pieces.len() >= 1,
    ensures
        join_with(pieces.push(x), sep) == join_with(pieces, sep) + sep + x,
    decreases pieces.len(),
{
    if pieces.len() == 1 {
        let p = pieces.push(x);
        assert(p.len() == 2);
        assert(p.skip(1) =~= seq![x]);
        assert(join_with(p, sep) == p[0] + sep + join_with(p.skip(1), sep));
        assert(join_with(seq![x], sep) == x);
    } else {
        lemma_join_push(pieces.skip(1), sep, x);
        let p = pieces.push(x);
        assert(p.skip(1) =~= pieces.skip(1).push(x));
        assert(join_with(p, sep) == p[0] + sep + join_with(p.skip(1), sep));
        assert(pieces[0] + sep + (join_with(pieces.skip(1), sep) + sep + x) =~= (pieces[0] + sep
            + join_with(pieces.skip(1), sep)) + sep + x);
    }
}

/// `c` occurs contiguously within `t`.
pub open spec fn is_substring(c: Seq<char>, t: Seq<char>) -> bool {
    exists|a: int|
        0 <= a && a + c.len() <= t.len() && #[trigger] t.subrange(a, a + c.len()) == c
}

/// What occurs within a text is no longer than it.
pub proof fn lemma_substring_len_le(c: Seq<char>, t: Seq<char>)
    requires
        is_substring(c, t),
    ensures
        c.len() <= t.len(),
{
    let a = choose|a: int|
        0 <= a && a + c.len() <= t.len() && #[trigger] t.subrange(a, a + c.len()) == c;
}

/// Occurring within an occurrence is occurring.
pub proof fn lemma_substring_trans(a: Seq<char>, b: Seq<char>, c: Seq<char>)
    requires
        is_substring(a, b),
        is_substring(b, c),
    ensures
        is_substring(a, c),
{
    let p = choose|p: int|
        0 <= p && p + a.len() <= b.len() && #[trigger] b.subrange(p, p + a.len()) == a;
    let q = choose|q: int|
        0 <= q && q + b.len() <= c.len() && #[trigger] c.subrange(q, q + b.len()) == b;
    assert(c.subrange(q + p, q + p + a.len()) =~= b.subrange(p, p + a.len()));
}

/// Trimming the front leaves a suffix; everything cut was white space.
pub proof fn lemma_trim_front_suffix(s: Seq<char>)
    ensures
        exists|k: int|
            0 <= k <= s.len() && trim_front(s) == #[trigger] s.subrange(k, s.len() as int)
                && (forall|i: int| 0 <= i < k ==> is_ws(#[trigger] s[i])),
    decreases s.len(),
{
    if s.len() > 0 && is_ws(s[0]) {
        lemma_trim_front_suffix(s.skip(1));
        let k = choose|k: int|
            0 <= k <= s.skip(1).len() && trim_front(s.skip(1)) == #[trigger] s.skip(1).subrange(
                k,
                s.skip(1).len() as int,
            ) && (forall|i: int| 0 <= i < k ==> is_ws(#[trigger] s.skip(1)[i]));
        assert(s.skip(1).subrange(k, s.skip(1).len() as int) =~= s.subrange(
            k + 1,
            s.len() as int,
        ));
        assert(forall|i: int| 0 <= i < k + 1 ==> is_ws(#[trigger] s[i])) by {
            assert(forall|i: int| 1 <= i < k + 1 ==> s[i] == s.skip(1)[i - 1]);
        }
        assert(trim_front(s) == s.subrange(k + 1, s.len() as int) && (forall|i: int|
            0 <= i < k + 1 ==> is_ws(#[trigger] s[i])));
    } else {
        assert(s.subrange(0, s.len() as int) =~= s);
        assert(trim_front(s) == s.subrange(0, s.len() as int) && (forall|i: int|
            0 <= i < 0 ==> is_ws(#[trigger] s[i])));
    }
}

/// Trimming the back leaves a prefix; everything cut was white space.
pub proof fn lemma_trim_back_prefix(s: Seq<char>)
    ensures
        exists|k: int|
            0 <= k <= s.len() && trim_back(s) == #[trigger] s.subrange(0, k) && (forall|i: int|
                k <= i < s.len() ==> is_ws(#[trigger] s[i])),
    decreases s.len(),
{
    if s.len() > 0 && is_ws(s[s.len() - 1]) {
        lemma_trim_back_prefix(s.take(s.len() - 1));
        let k = choose|k: int|
            0 <= k <= s.take(s.len() - 1).len() && trim_back(s.take(s.len() - 1))
                == #[trigger] s.take(s.len() - 1).subrange(0, k) && (forall|i: int|
                k <= i < s.take(s.len() - 1).len() ==> is_ws(#[trigger] s.take(s.len() - 1)[i]));
        assert(s.take(s.len() - 1).subrange(0, k) =~= s.subrange(0, k));
        assert(forall|i: int| k <= i < s.len() ==> is_ws(#[trigger] s[i])) by {
            assert(forall|i: int| k <= i < s.len() - 1 ==> s[i] == s.take(s.len() - 1)[i]);
        }
        assert(trim_back(s) == s.subrange(0, k) && (forall|i: int|
            k <= i < s.len() ==> is_ws(#[trigger] s[i])));
    } else {
        assert(s.subrange(0, s.len() as int) =~= s);
        assert(trim_back(s) == s.subrange(0, s.len() as int) && (forall|i: int|
            s.len() <= i < s.len() ==> is_ws(#[trigger] s[i])));
    }
}

/// A non-white-space character survives trimming.
pub proof fn lemma_trim_keeps_nonws(s: Seq<char>, i: int)
    requires
        0 <= i < s.len(),
        !is_ws(s[i]),
    ensures
        exists|pos: int|
            0 <= pos < spec_trim(s).len() && #[trigger] spec_trim(s)[pos] == s[i],
{
    lemma_trim_front_suffix(s);
    let k1 = choose|k: int|
        0 <= k <= s.len() && trim_front(s) == #[trigger] s.subrange(k, s.len() as int) && (
        forall|p: int| 0 <= p < k ==> is_ws(#[trigger] s[p]));
    let f = trim_front(s);
    assert(k1 <= i);
    lemma_trim_back_prefix(f);
    let k2 = choose|k: int|
        0 <= k <= f.len() && trim_back(f) == #[trigger] f.subrange(0, k) && (forall|p: int|
            k <= p < f.len() ==> is_ws(#[trigger] f[p]));
    assert(f[i - k1] == s[i]);
    assert(i - k1 < k2);
    assert(spec_trim(s)[i - k1] == s[i]);
}

/// A text that trims to nothing is all white space.
pub proof fn lemma_trim_empty_all_ws(s: Seq<char>)
    requires
        spec_trim(s).len() == 0,
    ensures
        forall|i: int| 0 <= i < s.len() ==> is_ws(#[trigger] s[i]),
{
    assert forall|i: int| 0 <= i < s.len() implies is_ws(#[trigger] s[i]) by {
        if !is_ws(s[i]) {
            lemma_trim_keeps_nonws(s, i);
        }
    }
}

/// Each character of a join comes from some piece or from the separator.
pub proof fn lemma_join_char_source(pieces: Seq<Seq<char>>, sep: Seq<char>, q: int)
    requires
        0 <= q < join_with(pieces, sep).len(),
    ensures
        (exists|j: int, idx: int|
            0 <= j < pieces.len() && 0 <= idx < pieces[j].len() && #[trigger] pieces[j][idx]
                == join_with(pieces, sep)[q]) || (exists|t: int|
            0 <= t < sep.len() && #[trigger] sep[t] == join_with(pieces, sep)[q]),
    decreases pieces.len(),
{
    let w = join_with(pieces, sep);
    if pieces.len() == 1 {
        assert(pieces[0][q] == w[q]);
    } else {
        assert(pieces.len() >= 2);
        assert(w == pieces[0] + sep + join_with(pieces.skip(1), sep));
        if q < pieces[0].len() {
            assert(pieces[0][q] == w[q]);
        } else if q < pieces[0].len() + sep.len() {
            assert(sep[q - pieces[0].len()] == w[q]);
        } else {
            let q2 = q - pieces[0].len() - sep.len();
            lemma_join_char_source(pieces.skip(1), sep, q2);
            assert(join_with(pieces.skip(1), sep)[q2] == w[q]);
            if exists|j: int, idx: int|
                0 <= j < pieces.skip(1).len() && 0 <= idx < pieces.skip(1)[j].len()
                    && #[trigger] pieces.skip(1)[j][idx] == w[q] {
                let (j, idx) = choose|j: int, idx: int|
                    0 <= j < pieces.skip(1).len() && 0 <= idx < pieces.skip(1)[j].len()
                        && #[trigger] pieces.skip(1)[j][idx] == w[q];
                assert(pieces[j + 1][idx] == w[q]);
            }
        }
    }
}

/// The trimmed text occurs within the text.
pub proof fn lemma_trim_substring(s: Seq<char>)
    ensures
        is_substring(spec_trim(s), s),
{
    lemma_trim_front_suffix(s);
    let k1 = choose|k: int|
        0 <= k <= s.len() && trim_front(s) == #[trigger] s.subrange(k, s.len() as int);
    lemma_trim_back_prefix(trim_front(s));
    let f = trim_front(s);
    let k2 = choose|k: int| 0 <= k <= f.len() && trim_back(f) == #[trigger] f.subrange(0, k);
    assert(f.subrange(0, k2) =~= s.subrange(k1, k1 + k2));
}

/// Joining distributes over concatenation of non-empty runs.
pub proof fn lemma_join_concat(s: Seq<Seq<char>>, t: Seq<Seq<char>>, sep: Seq<char>)
    requires
        s.len() >= 1,
        t.len() >= 1,
    ensures
        join_with(s + t, sep) == join_with(s, sep) + sep + join_with(t, sep),
    decreases s.len(),
{
    if s.len() == 1 {
        let w = s + t;
        assert(w.len() >= 2);
        assert(w[0] == s[0]);
        assert(w.skip(1) =~= t);
        assert(join_with(w, sep) == w[0] + sep + join_with(w.skip(1), sep));
    } else {
        lemma_join_concat(s.skip(1), t, sep);
        let w = s + t;
        assert(w.skip(1) =~= s.skip(1) + t);
        assert(w[0] == s[0]);
        assert(join_with(w, sep) == w[0] + sep + join_with(s.skip(1) + t, sep));
        assert(join_with(s, sep) == s[0] + sep + join_with(s.skip(1), sep));
        assert(s[0] + sep + (join_with(s.skip(1), sep) + sep + join_with(t, sep)) =~= (s[0] + sep
            + join_with(s.skip(1), sep)) + sep + join_with(t, sep));
    }
}

/// The join of a contiguous run of pieces occurs within the join of all
/// the pieces.
pub proof fn lemma_join_subrange_substring(pieces: Seq<Seq<char>>, a: int, b: int, sep: Seq<char>)
    requires
        0 <= a <= b <= pieces.len(),
    ensures
        is_substring(join_with(pieces.subrange(a, b), sep), join_with(pieces, sep)),
{
    let mid = pieces.subrange(a, b);
    let whole = join_with(pieces, sep);
    if a == b {
        assert(mid.len() == 0);
        assert(join_with(mid, sep) == Seq::<char>::empty());
        assert(whole.subrange(0int, 0int + join_with(mid, sep).len()) =~= join_with(mid, sep));
    } else {
        let front = pieces.subrange(0, a);
        let back = pieces.subrange(b, pieces.len() as int);
        if a > 0 && b < pieces.len() {
            assert(front + (mid + back) =~= pieces);
            lemma_join_concat(mid, back, sep);
            lemma_join_concat(front, mid + back, sep);
            let pos: int = (join_with(front, sep).len() + sep.len()) as int;
            assert(whole == join_with(front, sep) + sep + (join_with(mid, sep) + sep + join_with(
                back,
                sep,
            )));
            assert(whole.subrange(pos, pos + join_with(mid, sep).len()) =~= join_with(
                mid,
                sep,
            ));
        } else if a > 0 {
            assert(front + mid =~= pieces);
            lemma_join_concat(front, mid, sep);
            let pos: int = (join_with(front, sep).len() + sep.len()) as int;
            assert(whole == join_with(front, sep) + sep + join_with(mid, sep));
            assert(whole.subrange(pos, pos + join_with(mid, sep).len()) =~= join_with(
                mid,
                sep,
            ));
        } else if b < pieces.len() {
            assert(mid + back =~= pieces);
            lemma_join_concat(mid, back, sep);
            assert(whole == join_with(mid, sep) + sep + join_with(back, sep));
            assert(whole.subrange(0int, 0int + join_with(mid, sep).len()) =~= join_with(mid, sep));
        } else {
            assert(mid =~= pieces);
            assert(whole.subrange(0int, 0int + join_with(mid, sep).len()) =~= join_with(mid, sep));
        }
    }
}

/// Exact check for an occurrence of `sep` at character position `i`.
pub fn is_sep_at(text: &str, sep: &str, i: usize) -> (r: bool)
    requires
        i + sep@.len() <= text@.len(),
        text@.len() <= usize::MAX,
    ensures
        r == sep_at(text@, sep@, i as int),
{
    let m = sep.unicode_len();
    let mut j: usize = 0;
    while j < m
        invariant
            0 <= j <= m,
            m == sep@.len(),
            i + m <= text@.len(),
            text@.len() <= usize::MAX,
            forall|p: int| 0 <= p < j ==> text@[i + p] == sep@[p],
        decreases m - j,
    {
        if text.get_char(i + j) != sep.get_char(j) {
            assert(text@.subrange(i as int, i + m) != sep@) by {
                assert(text@.subrange(i as int, i + m)[j as int] == text@[i + j]);
            }
            return false;
        }
        j += 1;
    }
    assert(text@.subrange(i as int, i + m) =~= sep@);
    true
}

/// Whether `text` contains the (non-empty) separator.
pub fn contains_str(text: &str, sep: &str) -> (r: bool)
    requires
        sep@.len() >= 1,
    ensures
        r == contains_sep(text@, sep@),
{
    let n = text.unicode_len();
    let m = sep.unicode_len();
    if m > n {
        assert(forall|i: int| !sep_at(text@, sep@, i));
        return false;
    }
    let mut i: usize = 0;
    while i <= n - m
        invariant
            0 <= i <= n,
            n == text@.len(),
            m == sep@.len(),
            1 <= m <= n,
            forall|p: int| 0 <= p < i ==> !sep_at(text@, sep@, p),
        decreases n - i,
    {
        if is_sep_at(text, sep, i) {
            return true;
        }
        i += 1;
    }
    assert(forall|p: int| 0 <= p ==> !sep_at(text@, sep@, p));
    false
}

/// Split `text` on a non-empty separator, leftmost-first.
pub fn split_str(text: &str, sep: &str) -> (r: Vec<String>)
    requires
        sep@.len() >= 1,
    ensures
        views_of(r@) == split_on(text@, sep@),
{
    let n = text.unicode_len();
    let m = sep.unicode_len();
    let mut r: Vec<String> = Vec::new();
    let mut start: usize = 0;
    let mut j: usize = 0;
    proof {
        assert(views_of(r@) =~= Seq::<Seq<char>>::empty());
        assert(text@.skip(0) =~= text@);
    }
    while m <= n && j <= n - m
        invariant
            0 <= start <= j,
            j <= n,
            n == text@.len(),
            m == sep@.len(),
            m >= 1,
            split_on(text@, sep@) =~= views_of(r@) + split_on(text@.skip(start as int), sep@),
            forall|p: int| start <= p < j ==> !sep_at(text@, sep@, p),
        decreases n - j,
    {
        if is_sep_at(text, sep, j) {
            let piece = text.substring_char(start, j);
            r.push(String::from_str(piece));
            proof {
                let suffix = text@.skip(start as int);
                lemma_sep_at_skip(text@, sep@, start as int, j as int);
                assert forall|q: int| 0 <= q < j - start implies !sep_at(suffix, sep@, q) by {
                    lemma_sep_at_skip(text@, sep@, start as int, q + start);
                }
                lemma_split_on_first_hit(suffix, sep@, j - start);
                assert(suffix.take(j - start) =~= text@.subrange(start as int, j as int));
                assert(suffix.skip(j - start + m) =~= text@.skip(j + m));
                assert(views_of(r@) =~= views_of(r@.take(r@.len() - 1)) + seq![
                    text@.subrange(start as int, j as int),
                ]);
                assert(split_on(text@, sep@) =~= views_of(r@) + split_on(
                    text@.skip((j + m) as int),
                    sep@,
                ));
            }
            start = j + m;
            j = j + m;
        } else {
            j += 1;
        }
    }
    let last = text.substring_char(start, n);
    r.push(String::from_str(last));
    proof {
        let suffix = text@.skip(start as int);
        assert forall|q: int| true implies !sep_at(suffix, sep@, q) by {
            if 0 <= q {
                if q + start < j {
                    lemma_sep_at_skip(text@, sep@, start as int, q + start);
                } else {
                    assert(q + start + m > n);
                    assert(q + m > suffix.len());
                }
            }
        }
        lemma_split_on_no_hit(suffix, sep@);
        assert(suffix =~= text@.subrange(start as int, n as int));
        assert(views_of(r@) =~= views_of(r@.take(r@.len() - 1)) + seq![suffix]);
    }
    r
}

/// Split `text` into one piece per character.
pub fn split_chars_str(text: &str) -> (r: Vec<String>)
    ensures
        views_of(r@) == split_chars(text@),
{
    let n = text.unicode_len();
    let mut r: Vec<String> = Vec::new();
    let mut i: usize = 0;
    while i < n
        invariant
            0 <= i <= n,
            n == text@.len(),
            views_of(r@) =~= split_chars(text@).take(i as int),
        decreases n - i,
    {
        let piece = text.substring_char(i, i + 1);
        let ghost r0 = r@;
        r.push(String::from_str(piece));
        proof {
            assert(piece@ =~= seq![text@[i as int]]);
            assert(views_of(r@) =~= views_of(r0).push(piece@));
            assert(split_chars(text@).take(i + 1) =~= split_chars(text@).take(i as int).push(
                seq![text@[i as int]],
            ));
            assert(views_of(r@) =~= split_chars(text@).take(i + 1));
        }
        i += 1;
    }
    proof {
        assert(split_chars(text@).take(n as int) =~= split_chars(text@));
    }
    r
}

/// Join pieces with the separator between consecutive pieces.
pub fn join_strings(pieces: &Vec<String>, sep: &str) -> (r: String)
    ensures
        r@ == join_with(views_of(pieces@), sep@),
{
    if pieces.len() == 0 {
        return String::new();
    }
    let mut acc: String = pieces[0].clone();
    let mut i: usize = 1;
    while i < pieces.len()
        invariant
            1 <= i <= pieces@.len(),
            acc@ == join_with(views_of(pieces@).take(i as int), sep@),
        decreases pieces@.len() - i,
    {
        acc.append(sep);
        acc.append(pieces[i].as_str());
        proof {
            let vs = views_of(pieces@);
            lemma_join_push(vs.take(i as int), sep@, vs[i as int]);
            assert(vs.take(i as int).push(vs[i as int]) =~= vs.take(i + 1));
        }
        i += 1;
    }
    proof {
        assert(views_of(pieces@).take(pieces@.len() as int) =~= views_of(pieces@));
    }
    acc
}

/// Remove leading and trailing white space.
pub fn trim_str(s: &str) -> (r: String)
    ensures
        r@ == spec_trim(s@),
{
    let n = s.unicode_len();
    let mut a: usize = 0;
    proof {
        assert(s@.skip(0) =~= s@);
    }
    while a < n && is_ws_char(s.get_char(a))
        invariant
            0 <= a <= n,
            n == s@.len(),
            trim_front(s@) == trim_front(s@.skip(a as int)),
        decreases n - a,
    {
        proof {
            assert(s@.skip(a as int).skip(1) =~= s@.skip(a + 1));
        }
        a += 1;
    }
    proof {
        if a < n {
            assert(trim_front(s@.skip(a as int)) == s@.skip(a as int));
        } else {
            assert(s@.skip(a as int) =~= Seq::<char>::empty());
        }
    }
    let mut b: usize = n;
    while b > a && is_ws_char(s.get_char(b - 1))
        invariant
            a <= b <= n,
            n == s@.len(),
            trim_front(s@) == s@.skip(a as int),
            trim_back(s@.skip(a as int)) == trim_back(s@.subrange(a as int, b as int)),
        decreases b,
    {
        proof {
            let seg = s@.subrange(a as int, b as int);
            assert(seg[seg.len() - 1] == s@[b - 1]);
            assert(seg.take(seg.len() - 1) =~= s@.subrange(a as int, b - 1));
        }
        b -= 1;
    }
    proof {
        let seg = s@.subrange(a as int, b as int);
        if b > a {
            assert(seg[seg.len() - 1] == s@[b - 1]);
            assert(trim_back(seg) == seg);
        } else {
            assert(seg =~= Seq::<char>::empty());
        }
    }
    String::from_str(s.substring_char(a, b))
}

} // verus!
