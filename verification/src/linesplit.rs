//! Splitting a file's bytes into lines: newline-delimited, a carriage return
//! before the newline dropped, no trailing empty line for a final newline —
//! the usual buffered-reader line semantics, as a verified function.

use vstd::prelude::*;

verus! {

/// The newline byte.
pub open spec fn nl() -> u8 {
    0x0a
}

/// The carriage-return byte.
pub open spec fn cr() -> u8 {
    0x0d
}

/// The index of the first newline in `s`, or -1 when there is none.
pub open spec fn find_nl(s: Seq<u8>) -> int
    decreases s.len(),
{
    if s.len() == 0 {
        -1
    } else if s[0] == nl() {
        0
    } else {
        let r = find_nl(s.skip(1));
        if r == -1 {
            -1
        } else {
            1 + r
        }
    }
}

/// A line with a trailing carriage return has it removed.
pub open spec fn chomp(l: Seq<u8>) -> Seq<u8> {
    if l.len() > 0 && l[l.len() - 1] == cr() {
        l.drop_last()
    } else {
        l
    }
}

/// The lines of `s`: each newline ends a line, whose trailing carriage return
/// (if any) is dropped; bytes after the last newline form a final unchomped
/// line; empty input has no lines.
pub open spec fn split_lines_spec(s: Seq<u8>) -> Seq<Seq<u8>>
    decreases s.len(),
{
    if s.len() == 0 {
        Seq::empty()
    } else {
        let k = find_nl(s);
        if 0 <= k < s.len() {
            seq![chomp(s.take(k))] + split_lines_spec(s.skip(k + 1))
        } else {
            seq![s]
        }
    }
}

/// `find_nl` returns the position of the first newline.
pub proof fn lemma_find_nl_is(s: Seq<u8>, r: int)
    requires
        0 <= r < s.len(),
        s[r] == nl(),
        forall|i: int| 0 <= i < r ==> s[i] != nl(),
    ensures
        find_nl(s) == r,
    decreases s.len(),
{
    if s[0] != nl() {
        assert(s.skip(1)[r - 1] == s[r]);
        assert forall|i: int| 0 <= i < r - 1 implies s.skip(1)[i] != nl() by {
            assert(s.skip(1)[i] == s[i + 1]);
        }
        lemma_find_nl_is(s.skip(1), r - 1);
    }
}

/// When `s` holds no newline, `find_nl` reports none.
pub proof fn lemma_find_nl_none(s: Seq<u8>)
    requires
        forall|i: int| 0 <= i < s.len() ==> s[i] != nl(),
    ensures
        find_nl(s) == -1,
    decreases s.len(),
{
    if s.len() > 0 {
        assert forall|i: int| 0 <= i < s.skip(1).len() implies s.skip(1)[i] != nl() by {
            assert(s.skip(1)[i] == s[i + 1]);
        }
        lemma_find_nl_none(s.skip(1));
    }
}

/// Split a file's bytes into its lines.
pub fn split_lines(data: &Vec<u8>) -> (out: Vec<Vec<u8>>)
    ensures
        crate::matchset::lines_view(out@) == split_lines_spec(data@),
{
    let mut out: Vec<Vec<u8>> = Vec::new();
    let dlen: usize = data.len();
    let mut p: usize = 0;
    proof {
        assert(data@.skip(0) =~= data@);
        assert(crate::matchset::lines_view(out@) =~= Seq::<Seq<u8>>::empty());
    }
    while p < dlen
        invariant
            data@.len() == dlen,
            0 <= p <= dlen,
            crate::matchset::lines_view(out@) + split_lines_spec(data@.skip(p as int))
                == split_lines_spec(data@),
        decreases dlen - p,
    {
        let ghost tail = data@.skip(p as int);
        // scan for the next newline and copy the line's bytes
        let mut line: Vec<u8> = Vec::new();
        let mut k: usize = p;
        while k < dlen && data[k] != 0x0a
            invariant
                data@.len() == dlen,
                p <= k <= dlen,
                line@ == data@.subrange(p as int, k as int),
                forall|i: int| p <= i < k ==> data@[i] != nl(),
            decreases dlen - k,
        {
            let ghost before = line@;
            line.push(data[k]);
            proof {
                assert(before + seq![data@[k as int]] =~= data@.subrange(p as int, k as int + 1));
            }
            k += 1;
        }
        if k == dlen {
            // no further newline: the rest is one final, unchomped line
            proof {
                assert forall|i: int| 0 <= i < tail.len() implies tail[i] != nl() by {
                    assert(tail[i] == data@[p + i]);
                }
                lemma_find_nl_none(tail);
                assert(line@ =~= tail);
                assert(split_lines_spec(tail) =~= seq![tail]);
            }
            let ghost before = crate::matchset::lines_view(out@);
            out.push(line);
            proof {
                assert(crate::matchset::lines_view(out@) =~= before + seq![tail]);
            }
            p = dlen;
        } else {
            // data[k] is the newline ending this line
            proof {
                assert(tail[k - p] == data@[k as int]);
                assert forall|i: int| 0 <= i < k - p implies tail[i] != nl() by {
                    assert(tail[i] == data@[p + i]);
                }
                lemma_find_nl_is(tail, k - p);
                assert(tail.take(k - p) =~= data@.subrange(p as int, k as int));
                assert(tail.skip(k - p + 1) =~= data@.skip(k as int + 1));
                assert(split_lines_spec(tail) == seq![chomp(line@)] + split_lines_spec(
                    data@.skip(k as int + 1),
                ));
            }
            // chomp a trailing carriage return
            if line.len() > 0 && line[line.len() - 1] == 0x0d {
                let ghost full = line@;
                line.pop();
                proof {
                    assert(line@ =~= chomp(full));
                }
            }
            let ghost before = crate::matchset::lines_view(out@);
            out.push(line);
            proof {
                assert(crate::matchset::lines_view(out@) =~= before + seq![chomp(
                    data@.subrange(p as int, k as int),
                )]);
                assert((before + seq![chomp(data@.subrange(p as int, k as int))])
                    + split_lines_spec(data@.skip(k as int + 1)) =~= before + (seq![chomp(
                    data@.subrange(p as int, k as int),
                )] + split_lines_spec(data@.skip(k as int + 1))));
            }
            p = k + 1;
        }
    }
    proof {
        assert(data@.skip(dlen as int) =~= Seq::<u8>::empty());
        assert(crate::matchset::lines_view(out@) + Seq::<Seq<u8>>::empty() =~= crate::matchset::lines_view(out@));
    }
    out
}

} // verus!
