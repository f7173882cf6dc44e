//! Byte-level text helpers for the line-oriented collaborator protocols:
//! finding separators, trimming whitespace, and reading decimal numbers.

use vstd::prelude::*;

verus! {

/// ASCII whitespace, as it occurs in line-oriented command output.
pub open spec fn is_ws(b: u8) -> bool {
    b == 9 || b == 10 || b == 13 || b == 32
}

/// Number of whitespace bytes at the front.
pub open spec fn ws_front(s: Seq<u8>) -> int
    decreases s.len(),
{
    if s.len() == 0 {
        0
    } else if is_ws(s[0]) {
        1 + ws_front(s.drop_first())
    } else {
        0
    }
}

/// End of the text once trailing whitespace is dropped.
pub open spec fn ws_back(s: Seq<u8>) -> int
    decreases s.len(),
{
    if s.len() == 0 {
        0
    } else if is_ws(s.last()) {
        ws_back(s.drop_last())
    } else {
        s.len() as int
    }
}

/// The text with leading and trailing whitespace removed.
pub open spec fn trimmed(s: Seq<u8>) -> Seq<u8> {
    if ws_front(s) >= ws_back(s) {
        Seq::empty()
    } else {
        s.subrange(ws_front(s), ws_back(s))
    }
}

pub proof fn lemma_ws_front_char(s: Seq<u8>)
    ensures
        0 <= ws_front(s) <= s.len(),
        forall|k: int| 0 <= k < ws_front(s) ==> is_ws(#[trigger] s[k]),
        ws_front(s) < s.len() ==> !is_ws(s[ws_front(s)]),
    decreases s.len(),
{
    if s.len() > 0 && is_ws(s[0]) {
        lemma_ws_front_char(s.drop_first());
        assert forall|k: int| 0 <= k < ws_front(s) implies is_ws(#[trigger] s[k]) by {
            if k > 0 {
                assert(s[k] == s.drop_first()[k - 1]);
            }
        }
        if ws_front(s) < s.len() {
            assert(s[ws_front(s)] == s.drop_first()[ws_front(s) - 1]);
        }
    }
}

pub proof fn lemma_ws_back_char(s: Seq<u8>)
    ensures
        0 <= ws_back(s) <= s.len(),
        forall|k: int| ws_back(s) <= k < s.len() ==> is_ws(#[trigger] s[k]),
        ws_back(s) > 0 ==> !is_ws(s[ws_back(s) - 1]),
    decreases s.len(),
{
    if s.len() > 0 && is_ws(s.last()) {
        lemma_ws_back_char(s.drop_last());
        assert forall|k: int| ws_back(s) <= k < s.len() implies is_ws(#[trigger] s[k]) by {
            if k < s.len() - 1 {
                assert(s[k] == s.drop_last()[k]);
            }
        }
        if ws_back(s) > 0 {
            assert(s[ws_back(s) - 1] == s.drop_last()[ws_back(s) - 1]);
        }
    }
}

/// Position of the first occurrence of `b`, or the length if it does not
/// occur.
pub open spec fn first_pos(s: Seq<u8>, b: u8) -> int
    decreases s.len(),
{
    if s.len() == 0 {
        0
    } else if s[0] == b {
        0
    } else {
        1 + first_pos(s.drop_first(), b)
    }
}

pub proof fn lemma_first_pos_char(s: Seq<u8>, b: u8)
    ensures
        0 <= first_pos(s, b) <= s.len(),
        first_pos(s, b) < s.len() ==> s[first_pos(s, b)] == b,
        forall|k: int| 0 <= k < first_pos(s, b) ==> s[k] != b,
    decreases s.len(),
{
    if s.len() > 0 && s[0] != b {
        lemma_first_pos_char(s.drop_first(), b);
        if first_pos(s, b) < s.len() {
            assert(s[first_pos(s, b)] == s.drop_first()[first_pos(s, b) - 1]);
        }
        assert forall|k: int| 0 <= k < first_pos(s, b) implies s[k] != b by {
            if k > 0 {
                assert(s[k] == s.drop_first()[k - 1]);
            }
        }
    }
}

/// Position of the last occurrence of `b`, or `-1` if it does not occur.
pub open spec fn last_pos(s: Seq<u8>, b: u8) -> int
    decreases s.len(),
{
    if s.len() == 0 {
        -1
    } else if s.last() == b {
        s.len() - 1
    } else {
        last_pos(s.drop_last(), b)
    }
}

pub proof fn lemma_last_pos_char(s: Seq<u8>, b: u8)
    ensures
        -1 <= last_pos(s, b) < s.len(),
        last_pos(s, b) >= 0 ==> s[last_pos(s, b)] == b,
        forall|k: int| last_pos(s, b) < k < s.len() ==> s[k] != b,
    decreases s.len(),
{
    if s.len() > 0 && s.last() != b {
        lemma_last_pos_char(s.drop_last(), b);
        if last_pos(s, b) >= 0 {
            assert(s[last_pos(s, b)] == s.drop_last()[last_pos(s, b)]);
        }
        assert forall|k: int| last_pos(s, b) < k < s.len() implies s[k] != b by {
            if k < s.len() - 1 {
                assert(s[k] == s.drop_last()[k]);
            }
        }
    }
}

/// Position of the first occurrence of `b`, or `None` if it does not occur.
pub fn find_byte(s: &Vec<u8>, b: u8) -> (r: Option<usize>)
    ensures
        match r {
            Some(i) => 0 <= i < s@.len() && s@[i as int] == b && forall|k: int|
                0 <= k < i ==> s@[k] != b,
            None => forall|k: int| 0 <= k < s@.len() ==> s@[k] != b,
        },
{
    let mut i: usize = 0;
    while i < s.len()
        invariant
            0 <= i <= s@.len(),
            forall|k: int| 0 <= k < i ==> s@[k] != b,
        decreases s@.len() - i,
    {
        if s[i] == b {
            return Some(i);
        }
        i += 1;
    }
    None
}

/// Position of the last occurrence of `b`, or `None` if it does not occur.
pub fn rfind_byte(s: &Vec<u8>, b: u8) -> (r: Option<usize>)
    ensures
        match r {
            Some(i) => 0 <= i < s@.len() && s@[i as int] == b && forall|k: int|
                i < k < s@.len() ==> s@[k] != b,
            None => forall|k: int| 0 <= k < s@.len() ==> s@[k] != b,
        },
{
    let mut i: usize = s.len();
    while i > 0
        invariant
            0 <= i <= s@.len(),
            forall|k: int| i <= k < s@.len() ==> s@[k] != b,
        decreases i,
    {
        i -= 1;
        if s[i] == b {
            return Some(i);
        }
    }
    None
}

/// The newline-separated lines of a text, in order. A trailing newline ends
/// the last line; it does not open an empty one.
pub open spec fn split_lines(s: Seq<u8>) -> Seq<Seq<u8>>
    decreases s.len(),
{
    if s.len() == 0 {
        Seq::empty()
    } else {
        let p = first_pos(s, 10);
        if 0 <= p < s.len() {
            seq![s.take(p)] + split_lines(s.skip(p + 1))
        } else {
            seq![s]
        }
    }
}

/// A copy of the slice `s[from..to]`.
pub fn copy_range(s: &Vec<u8>, from: usize, to: usize) -> (r: Vec<u8>)
    requires
        0 <= from <= to <= s@.len(),
    ensures
        r@ == s@.subrange(from as int, to as int),
{
    let mut r: Vec<u8> = Vec::new();
    let mut k: usize = from;
    while k < to
        invariant
            from <= k <= to <= s@.len(),
            r@ == s@.subrange(from as int, k as int),
        decreases to - k,
    {
        proof {
            assert(s@.subrange(from as int, k + 1).drop_last() =~= s@.subrange(
                from as int,
                k as int,
            ));
            assert(s@.subrange(from as int, k + 1).last() == s@[k as int]);
        }
        r.push(s[k]);
        k += 1;
    }
    r
}

/// The text with leading and trailing ASCII whitespace removed.
#[verifier::loop_isolation(false)]
pub fn trim_ascii(s: &Vec<u8>) -> (r: Vec<u8>)
    ensures
        r@ == trimmed(s@),
{
    proof {
        lemma_ws_front_char(s@);
        lemma_ws_back_char(s@);
    }
    let mut a: usize = 0;
    while a < s.len() && is_ws_byte(s[a])
        invariant
            0 <= a <= s@.len(),
            forall|k: int| 0 <= k < a ==> is_ws(#[trigger] s@[k]),
            a <= ws_front(s@),
        decreases s@.len() - a,
    {
        a += 1;
        proof {
            if a > ws_front(s@) {
                assert(is_ws(s@[ws_front(s@)]));
            }
        }
    }
    proof {
        assert(a == ws_front(s@));
    }
    let mut b: usize = s.len();
    while b > 0 && is_ws_byte(s[b - 1])
        invariant
            0 <= b <= s@.len(),
            forall|k: int| b <= k < s@.len() ==> is_ws(#[trigger] s@[k]),
            b >= ws_back(s@),
        decreases b,
    {
        b -= 1;
        proof {
            if b < ws_back(s@) {
                assert(is_ws(s@[ws_back(s@) - 1]));
            }
        }
    }
    proof {
        assert(b == ws_back(s@));
    }
    if a >= b {
        let r: Vec<u8> = Vec::new();
        proof {
            if ws_front(s@) < ws_back(s@) {
                assert(false);
            }
            assert(r@ =~= trimmed(s@));
        }
        r
    } else {
        let r = copy_range(s, a, b);
        proof {
            assert(r@ =~= trimmed(s@));
        }
        r
    }
}

/// Executable twin of `is_ws`.
pub fn is_ws_byte(b: u8) -> (r: bool)
    ensures
        r == is_ws(b),
{
    b == 9 || b == 10 || b == 13 || b == 32
}

/// Every byte is an ASCII decimal digit, and there is at least one.
pub open spec fn all_digits(s: Seq<u8>) -> bool {
    s.len() > 0 && forall|k: int| 0 <= k < s.len() ==> 48 <= #[trigger] s[k] <= 57
}

/// The number the digit string denotes.
pub open spec fn digits_value(s: Seq<u8>) -> int
    decreases s.len(),
{
    if s.len() == 0 {
        0
    } else {
        digits_value(s.drop_last()) * 10 + (s.last() - 48)
    }
}

proof fn lemma_digits_value_nonneg(s: Seq<u8>)
    requires
        forall|k: int| 0 <= k < s.len() ==> 48 <= #[trigger] s[k] <= 57,
    ensures
        digits_value(s) >= 0,
    decreases s.len(),
{
    if s.len() > 0 {
        lemma_digits_value_nonneg(s.drop_last());
    }
}

proof fn lemma_digits_value_prefix_le(s: Seq<u8>, n: int)
    requires
        forall|k: int| 0 <= k < s.len() ==> 48 <= #[trigger] s[k] <= 57,
        0 <= n <= s.len(),
    ensures
        digits_value(s.take(n)) <= digits_value(s),
    decreases s.len() - n,
{
    if n < s.len() {
        lemma_digits_value_prefix_le(s, n + 1);
        assert(s.take(n + 1).drop_last() =~= s.take(n));
        assert(s.take(n + 1).last() == s[n]);
        lemma_digits_value_nonneg(s.take(n));
    } else {
        assert(s.take(n) =~= s);
    }
}

/// Read an unsigned decimal number. `None` exactly when the text is not a
/// plain digit string, or its value does not fit in 64 bits.
#[verifier::loop_isolation(false)]
pub fn parse_u64(s: &Vec<u8>) -> (r: Option<u64>)
    ensures
        match r {
            Some(v) => all_digits(s@) && v == digits_value(s@),
            None => !(all_digits(s@) && digits_value(s@) <= u64::MAX),
        },
{
    if s.len() == 0 {
        return None;
    }
    let mut v: u64 = 0;
    let mut i: usize = 0;
    proof {
        assert(s@.take(0) =~= Seq::<u8>::empty());
    }
    while i < s.len()
        invariant
            0 <= i <= s@.len(),
            forall|k: int| 0 <= k < i ==> 48 <= #[trigger] s@[k] <= 57,
            v == digits_value(s@.take(i as int)),
        decreases s@.len() - i,
    {
        let d = s[i];
        if d < 48 || d > 57 {
            return None;
        }
        proof {
            assert(s@.take(i + 1).drop_last() =~= s@.take(i as int));
            assert(s@.take(i + 1).last() == s@[i as int]);
        }
        let digit = (d - 48) as u64;
        if v > (u64::MAX - digit) / 10 {
            proof {
                if all_digits(s@) {
                    lemma_digits_value_prefix_le(s@, i + 1);
                    assert(digits_value(s@.take(i + 1)) > u64::MAX) by {
                        assert(digits_value(s@.take(i + 1)) == v * 10 + digit);
                    }
                }
            }
            return None;
        }
        v = v * 10 + digit;
        i += 1;
    }
    proof {
        assert(s@.take(s@.len() as int) =~= s@);
    }
    Some(v)
}

} // verus!
