//! Byte-level predicates and primitives: substring occurrence, suffix test,
//! and lexicographic order on byte strings.

use vstd::prelude::*;

verus! {

/// The escape byte that begins every ANSI style marker.
pub open spec fn esc() -> u8 {
    0x1b
}

/// True when `s` holds no ANSI escape byte.
pub open spec fn esc_free(s: Seq<u8>) -> bool {
    forall|i: int| 0 <= i < s.len() ==> s[i] != esc()
}

/// The pattern occurs in `s` as the contiguous substring starting at `k`.
pub open spec fn is_match_at(s: Seq<u8>, pat: Seq<u8>, k: int) -> bool {
    0 <= k && k + pat.len() <= s.len() && s.subrange(k, k + pat.len()) == pat
}

/// The pattern occurs somewhere in `s` as a contiguous substring.
pub open spec fn contains_sub(s: Seq<u8>, pat: Seq<u8>) -> bool {
    exists|k: int| is_match_at(s, pat, k)
}

/// `s` ends with the suffix `suf`.
pub open spec fn ends_with(s: Seq<u8>, suf: Seq<u8>) -> bool {
    suf.len() <= s.len() && s.subrange(s.len() - suf.len(), s.len() as int) == suf
}

/// Strict lexicographic order on byte strings: a proper prefix comes first,
/// otherwise the first differing byte decides.
pub open spec fn lex_lt(a: Seq<u8>, b: Seq<u8>) -> bool
    decreases a.len(),
{
    if b.len() == 0 {
        false
    } else if a.len() == 0 {
        true
    } else if a[0] < b[0] {
        true
    } else if a[0] > b[0] {
        false
    } else {
        lex_lt(a.skip(1), b.skip(1))
    }
}

/// Any two byte strings are ordered or equal.
pub proof fn lemma_lex_connected(a: Seq<u8>, b: Seq<u8>)
    ensures
        lex_lt(a, b) || lex_lt(b, a) || a == b,
    decreases a.len(),
{
    if b.len() == 0 || a.len() == 0 {
        if a.len() == b.len() {
            assert(a =~= b);
        }
    } else if a[0] == b[0] {
        lemma_lex_connected(a.skip(1), b.skip(1));
        if a.skip(1) == b.skip(1) {
            assert(seq![a[0]] + a.skip(1) =~= a);
            assert(seq![b[0]] + b.skip(1) =~= b);
        }
    }
}

/// Lexicographic order is asymmetric.
pub proof fn lemma_lex_asym(a: Seq<u8>, b: Seq<u8>)
    requires
        lex_lt(a, b),
    ensures
        !lex_lt(b, a),
    decreases a.len(),
{
    if a.len() > 0 && b.len() > 0 && a[0] == b[0] {
        lemma_lex_asym(a.skip(1), b.skip(1));
    }
}

/// Lexicographic order is transitive.
pub proof fn lemma_lex_trans(a: Seq<u8>, b: Seq<u8>, c: Seq<u8>)
    requires
        lex_lt(a, b),
        lex_lt(b, c),
    ensures
        lex_lt(a, c),
    decreases a.len(),
{
    if c.len() == 0 || b.len() == 0 {
        // lex_lt(b, c) forces c.len() > 0; lex_lt(a, b) forces b.len() > 0
    } else if a.len() == 0 {
    } else if a[0] == b[0] && b[0] == c[0] {
        lemma_lex_trans(a.skip(1), b.skip(1), c.skip(1));
    }
}

/// Compare the pattern against `s` at position `k`.
pub fn match_at(s: &Vec<u8>, pat: &Vec<u8>, k: usize) -> (r: bool)
    requires
        k + pat@.len() <= s@.len(),
    ensures
        r == is_match_at(s@, pat@, k as int),
{
    let slen: usize = s.len();
    let mut j: usize = 0;
    while j < pat.len()
        invariant
            k + pat@.len() <= s@.len(),
            s@.len() == slen,
            0 <= j <= pat@.len(),
            forall|i: int| 0 <= i < j ==> s@[k + i] == pat@[i],
        decreases pat@.len() - j,
    {
        if s[k + j] != pat[j] {
            assert(!is_match_at(s@, pat@, k as int)) by {
                assert(s@.subrange(k as int, k + pat@.len())[j as int] == s@[k + j]);
            }
            return false;
        }
        j += 1;
    }
    assert(s@.subrange(k as int, k + pat@.len()) =~= pat@);
    true
}

/// Decide whether `s` contains `pat` as a contiguous substring.
pub fn contains_bytes(s: &Vec<u8>, pat: &Vec<u8>) -> (r: bool)
    ensures
        r == contains_sub(s@, pat@),
{
    if pat.len() == 0 {
        assert(is_match_at(s@, pat@, 0)) by {
            assert(s@.subrange(0, 0) =~= pat@);
        }
        return true;
    }
    if pat.len() > s.len() {
        return false;
    }
    let slen: usize = s.len();
    let n = s.len() - pat.len();
    let mut k: usize = 0;
    while k <= n
        invariant
            1 <= pat@.len() <= s@.len(),
            s@.len() == slen,
            n == s@.len() - pat@.len(),
            0 <= k <= n + 1,
            forall|j: int| 0 <= j < k ==> !is_match_at(s@, pat@, j),
        decreases n + 1 - k,
    {
        if match_at(s, pat, k) {
            return true;
        }
        k += 1;
    }
    false
}

/// Decide whether the byte string `s` ends with `suf`.
pub fn ends_with_bytes(s: &Vec<u8>, suf: &Vec<u8>) -> (r: bool)
    ensures
        r == ends_with(s@, suf@),
{
    if suf.len() > s.len() {
        return false;
    }
    let k = s.len() - suf.len();
    match_at(s, suf, k)
}

/// Decide strict lexicographic order on byte strings.
pub fn lex_lt_bytes(a: &Vec<u8>, b: &Vec<u8>) -> (r: bool)
    ensures
        r == lex_lt(a@, b@),
    decreases a@.len(),
{
    let mut i: usize = 0;
    proof {
        assert(a@.skip(0) =~= a@);
        assert(b@.skip(0) =~= b@);
    }
    loop
        invariant
            0 <= i <= a@.len(),
            i <= b@.len(),
            forall|j: int| 0 <= j < i ==> a@[j] == b@[j],
            lex_lt(a@, b@) == lex_lt(a@.skip(i as int), b@.skip(i as int)),
        decreases a@.len() - i,
    {
        if i == b.len() {
            return false;
        }
        if i == a.len() {
            return true;
        }
        let x = a[i];
        let y = b[i];
        if x < y {
            return true;
        }
        if x > y {
            return false;
        }
        proof {
            assert(a@.skip(i as int).skip(1) =~= a@.skip(i as int + 1));
            assert(b@.skip(i as int).skip(1) =~= b@.skip(i as int + 1));
        }
        i += 1;
    }
}

} // verus!
