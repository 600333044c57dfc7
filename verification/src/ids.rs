//! Identifiers for stored entries: unsigned counters rendered as decimal
//! strings, with an exact parser for deletion requests.

use vstd::prelude::*;

verus! {

pub open spec fn is_digit(c: char) -> bool {
    c == '0' || c == '1' || c == '2' || c == '3' || c == '4' || c == '5' || c == '6' || c == '7'
        || c == '8' || c == '9'
}

pub open spec fn digit_char(d: int) -> char {
    if d == 0 {
        '0'
    } else if d == 1 {
        '1'
    } else if d == 2 {
        '2'
    } else if d == 3 {
        '3'
    } else if d == 4 {
        '4'
    } else if d == 5 {
        '5'
    } else if d == 6 {
        '6'
    } else if d == 7 {
        '7'
    } else if d == 8 {
        '8'
    } else {
        '9'
    }
}

pub open spec fn digit_val(c: char) -> int {
    if c == '0' {
        0
    } else if c == '1' {
        1
    } else if c == '2' {
        2
    } else if c == '3' {
        3
    } else if c == '4' {
        4
    } else if c == '5' {
        5
    } else if c == '6' {
        6
    } else if c == '7' {
        7
    } else if c == '8' {
        8
    } else {
        9
    }
}

/// The decimal rendering of a non-negative number.
pub open spec fn dec_str(n: int) -> Seq<char>
    decreases n,
{
    if n < 10 {
        seq![digit_char(n)]
    } else {
        dec_str(n / 10).push(digit_char(n % 10))
    }
}

/// The value of a digit string, most significant first.
pub open spec fn dec_val(s: Seq<char>) -> int
    decreases s.len(),
{
    if s.len() == 0 {
        0
    } else {
        dec_val(s.take(s.len() - 1)) * 10 + digit_val(s[s.len() - 1])
    }
}

pub open spec fn all_digits(s: Seq<char>) -> bool {
    forall|i: int| 0 <= i < s.len() ==> is_digit(#[trigger] s[i])
}

/// What an identifier string denotes: a value, if it is a non-empty digit
/// string whose value fits; nothing otherwise.
pub open spec fn spec_parse(s: Seq<char>) -> Option<int> {
    if s.len() > 0 && all_digits(s) && dec_val(s) <= u64::MAX {
        Some(dec_val(s))
    } else {
        None
    }
}

/// Rendering then reading a number gives it back.
pub proof fn lemma_dec_roundtrip(n: int)
    requires
        0 <= n,
    ensures
        all_digits(dec_str(n)),
        dec_val(dec_str(n)) == n,
        dec_str(n).len() >= 1,
    decreases n,
{
    if n < 10 {
        assert(is_digit(digit_char(n)));
        let s = dec_str(n);
        assert(s.len() == 1);
        assert(s[0] == digit_char(n));
        assert(all_digits(s));
        assert(s.take(s.len() - 1) =~= Seq::<char>::empty());
        assert(dec_val(s.take(s.len() - 1)) == 0);
        assert(digit_val(digit_char(n)) == n);
    } else {
        lemma_dec_roundtrip(n / 10);
        let s = dec_str(n);
        let p = dec_str(n / 10);
        assert(s == p.push(digit_char(n % 10)));
        assert(s.take(s.len() - 1) =~= p);
        assert(digit_val(digit_char(n % 10)) == n % 10);
        assert(forall|i: int|
            0 <= i < s.len() ==> is_digit(#[trigger] s[i]));
    }
}

/// Two different numbers render differently.
pub proof fn lemma_dec_injective(m: int, n: int)
    requires
        0 <= m,
        0 <= n,
        dec_str(m) == dec_str(n),
    ensures
        m == n,
{
    lemma_dec_roundtrip(m);
    lemma_dec_roundtrip(n);
}

/// Digit-string values are non-negative and only grow with more digits.
pub proof fn lemma_dec_val_nonneg(s: Seq<char>)
    requires
        all_digits(s),
    ensures
        dec_val(s) >= 0,
    decreases s.len(),
{
    if s.len() > 0 {
        assert(forall|i: int|
            0 <= i < s.take(s.len() - 1).len() ==> is_digit(#[trigger] s.take(s.len() - 1)[i]));
        lemma_dec_val_nonneg(s.take(s.len() - 1));
        assert(digit_val(s[s.len() - 1]) >= 0);
    }
}

/// The value of a prefix never exceeds the value of the whole.
pub proof fn lemma_dec_val_prefix(s: Seq<char>, i: int)
    requires
        all_digits(s),
        0 <= i <= s.len(),
    ensures
        dec_val(s.take(i)) <= dec_val(s),
    decreases s.len() - i,
{
    if i < s.len() {
        lemma_dec_val_prefix(s, i + 1);
        let p = s.take(i + 1);
        assert(p.take(p.len() - 1) =~= s.take(i));
        assert(forall|j: int| 0 <= j < p.len() ==> is_digit(#[trigger] p[j]));
        assert(forall|j: int| 0 <= j < s.take(i).len() ==> is_digit(#[trigger] s.take(i)[j]));
        lemma_dec_val_nonneg(s.take(i));
        assert(dec_val(p) == dec_val(s.take(i)) * 10 + digit_val(p[p.len() - 1]));
        let v = dec_val(s.take(i));
        assert(v <= v * 10) by (nonlinear_arith)
            requires
                v >= 0,
        ;
    } else {
        assert(s.take(i) =~= s);
    }
}

fn digit_str(d: u64) -> (r: &'static str)
    requires
        d < 10,
    ensures
        r@ == seq![digit_char(d as int)],
{
    proof {
        reveal_strlit("0");
        reveal_strlit("1");
        reveal_strlit("2");
        reveal_strlit("3");
        reveal_strlit("4");
        reveal_strlit("5");
        reveal_strlit("6");
        reveal_strlit("7");
        reveal_strlit("8");
        reveal_strlit("9");
    }
    if d == 0 {
        "0"
    } else if d == 1 {
        "1"
    } else if d == 2 {
        "2"
    } else if d == 3 {
        "3"
    } else if d == 4 {
        "4"
    } else if d == 5 {
        "5"
    } else if d == 6 {
        "6"
    } else if d == 7 {
        "7"
    } else if d == 8 {
        "8"
    } else {
        "9"
    }
}

fn digit_of(c: char) -> (r: Option<u64>)
    ensures
        match r {
            Some(d) => is_digit(c) && d == digit_val(c) && d < 10,
            None => !is_digit(c),
        },
{
    if c == '0' {
        Some(0)
    } else if c == '1' {
        Some(1)
    } else if c == '2' {
        Some(2)
    } else if c == '3' {
        Some(3)
    } else if c == '4' {
        Some(4)
    } else if c == '5' {
        Some(5)
    } else if c == '6' {
        Some(6)
    } else if c == '7' {
        Some(7)
    } else if c == '8' {
        Some(8)
    } else if c == '9' {
        Some(9)
    } else {
        None
    }
}

/// Render an identifier as a decimal string.
pub fn id_to_string(n: u64) -> (r: String)
    ensures
        r@ == dec_str(n as int),
    decreases n,
{
    if n < 10 {
        String::from_str(digit_str(n))
    } else {
        let mut s = id_to_string(n / 10);
        s.append(digit_str(n % 10));
        proof {
            assert(dec_str((n / 10) as int).push(digit_char((n % 10) as int)) =~= dec_str(
                (n / 10) as int,
            ) + seq![digit_char((n % 10) as int)]);
        }
        s
    }
}

/// Read an identifier back from a decimal string; anything that is not a
/// plain in-range digit string is rejected.
pub fn parse_id(s: &str) -> (r: Option<u64>)
    ensures
        match r {
            Some(v) => spec_parse(s@) == Some(v as int),
            None => spec_parse(s@) is None,
        },
{
    let n = s.unicode_len();
    if n == 0 {
        return None;
    }
    let mut val: u64 = 0;
    let mut i: usize = 0;
    while i < n
        invariant
            0 <= i <= n,
            n == s@.len(),
            forall|j: int| 0 <= j < i ==> is_digit(#[trigger] s@[j]),
            val == dec_val(s@.take(i as int)),
        decreases n - i,
    {
        let c = s.get_char(i);
        match digit_of(c) {
            None => {
                proof {
                    assert(!all_digits(s@));
                }
                return None;
            },
            Some(d) => {
                if val > (u64::MAX - d) / 10 {
                    proof {
                        let p = s@.take(i + 1);
                        assert(forall|j: int| 0 <= j < p.len() ==> is_digit(#[trigger] p[j]));
                        assert(p.take(p.len() - 1) =~= s@.take(i as int));
                        assert(dec_val(p) == val * 10 + d);
                        assert(val * 10 + d > u64::MAX) by (nonlinear_arith)
                            requires
                                val > (u64::MAX - d) / 10,
                                0 <= d < 10,
                                val >= 0,
                        ;
                        if all_digits(s@) {
                            lemma_dec_val_prefix(s@, i + 1);
                        }
                    }
                    return None;
                }
                proof {
                    assert(val * 10 + d <= u64::MAX) by (nonlinear_arith)
                        requires
                            val <= (u64::MAX - d) / 10,
                            0 <= d < 10,
                            val >= 0,
                    ;
                    let p = s@.take(i + 1);
                    assert(p.take(p.len() - 1) =~= s@.take(i as int));
                    assert(dec_val(p) == dec_val(s@.take(i as int)) * 10 + digit_val(p[p.len()
                        - 1]));
                }
                val = val * 10 + d;
            },
        }
        i += 1;
    }
    proof {
        assert(s@.take(n as int) =~= s@);
    }
    Some(val)
}

} // verus!
