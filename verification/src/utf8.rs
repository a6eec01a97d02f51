//! UTF-8 validity of a byte string, stated as a spec predicate and decided by
//! a verified scanner. A line that is not valid text is never matched; it is
//! skipped and counted as a recoverable decoding error.

use vstd::prelude::*;

verus! {

/// A UTF-8 continuation byte.
pub open spec fn utf8_cont(b: u8) -> bool {
    0x80 <= b < 0xc0
}

/// `s` is well-formed UTF-8: ASCII bytes stand alone; a lead byte opens a
/// sequence of two to four bytes with the ranges that exclude overlong forms,
/// surrogates, and code points beyond the last plane.
pub open spec fn is_utf8(s: Seq<u8>) -> bool
    decreases s.len(),
{
    if s.len() == 0 {
        true
    } else {
        let b0 = s[0];
        if b0 < 0x80 {
            is_utf8(s.skip(1))
        } else if 0xc2 <= b0 <= 0xdf {
            s.len() >= 2 && utf8_cont(s[1]) && is_utf8(s.skip(2))
        } else if b0 == 0xe0 {
            s.len() >= 3 && 0xa0 <= s[1] <= 0xbf && utf8_cont(s[2]) && is_utf8(s.skip(3))
        } else if 0xe1 <= b0 <= 0xec {
            s.len() >= 3 && utf8_cont(s[1]) && utf8_cont(s[2]) && is_utf8(s.skip(3))
        } else if b0 == 0xed {
            s.len() >= 3 && 0x80 <= s[1] <= 0x9f && utf8_cont(s[2]) && is_utf8(s.skip(3))
        } else if 0xee <= b0 <= 0xef {
            s.len() >= 3 && utf8_cont(s[1]) && utf8_cont(s[2]) && is_utf8(s.skip(3))
        } else if b0 == 0xf0 {
            s.len() >= 4 && 0x90 <= s[1] <= 0xbf && utf8_cont(s[2]) && utf8_cont(s[3])
                && is_utf8(s.skip(4))
        } else if 0xf1 <= b0 <= 0xf3 {
            s.len() >= 4 && utf8_cont(s[1]) && utf8_cont(s[2]) && utf8_cont(s[3]) && is_utf8(
                s.skip(4),
            )
        } else if b0 == 0xf4 {
            s.len() >= 4 && 0x80 <= s[1] <= 0x8f && utf8_cont(s[2]) && utf8_cont(s[3]) && is_utf8(
                s.skip(4),
            )
        } else {
            false
        }
    }
}

/// Decide whether `s` is well-formed UTF-8.
pub fn is_utf8_bytes(s: &Vec<u8>) -> (r: bool)
    ensures
        r == is_utf8(s@),
{
    let n: usize = s.len();
    let mut i: usize = 0;
    proof {
        assert(s@.skip(0) =~= s@);
    }
    while i < n
        invariant
            s@.len() == n,
            0 <= i <= n,
            is_utf8(s@) == is_utf8(s@.skip(i as int)),
        decreases n - i,
    {
        let ghost tail = s@.skip(i as int);
        let rem = n - i;
        let b0 = s[i];
        proof {
            assert(tail[0] == s@[i as int]);
            assert(tail.len() == rem);
        }
        let step: usize;
        if b0 < 0x80 {
            step = 1;
        } else if 0xc2 <= b0 && b0 <= 0xdf {
            if rem < 2 {
                return false;
            }
            let b1 = s[i + 1];
            proof {
                assert(tail[1] == s@[i + 1]);
            }
            if !(0x80 <= b1 && b1 < 0xc0) {
                return false;
            }
            step = 2;
        } else if 0xe0 <= b0 && b0 <= 0xef {
            if rem < 3 {
                return false;
            }
            let b1 = s[i + 1];
            let b2 = s[i + 2];
            proof {
                assert(tail[1] == s@[i + 1]);
                assert(tail[2] == s@[i + 2]);
            }
            let b1_ok: bool = if b0 == 0xe0 {
                0xa0 <= b1 && b1 <= 0xbf
            } else if b0 == 0xed {
                0x80 <= b1 && b1 <= 0x9f
            } else {
                0x80 <= b1 && b1 < 0xc0
            };
            if !b1_ok {
                return false;
            }
            if !(0x80 <= b2 && b2 < 0xc0) {
                return false;
            }
            step = 3;
        } else if 0xf0 <= b0 && b0 <= 0xf4 {
            if rem < 4 {
                return false;
            }
            let b1 = s[i + 1];
            let b2 = s[i + 2];
            let b3 = s[i + 3];
            proof {
                assert(tail[1] == s@[i + 1]);
                assert(tail[2] == s@[i + 2]);
                assert(tail[3] == s@[i + 3]);
            }
            let b1_ok: bool = if b0 == 0xf0 {
                0x90 <= b1 && b1 <= 0xbf
            } else if b0 == 0xf4 {
                0x80 <= b1 && b1 <= 0x8f
            } else {
                0x80 <= b1 && b1 < 0xc0
            };
            if !b1_ok {
                return false;
            }
            if !(0x80 <= b2 && b2 < 0xc0) {
                return false;
            }
            if !(0x80 <= b3 && b3 < 0xc0) {
                return false;
            }
            step = 4;
        } else {
            return false;
        }
        proof {
            assert(tail.skip(step as int) =~= s@.skip(i + step));
            assert(is_utf8(tail) == is_utf8(tail.skip(step as int)));
        }
        i += step;
    }
    proof {
        assert(s@.skip(n as int) =~= Seq::<u8>::empty());
    }
    true
}

} // verus!
