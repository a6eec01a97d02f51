//! Match highlighting: every occurrence of the pattern in a line is replaced
//! by the pattern wrapped in the ANSI underline marker, and a stripped line
//! recovers the original text.

use vstd::prelude::*;
use crate::text::{esc, esc_free, match_at};

verus! {

/// The ANSI marker that switches underlining on: ESC `[4m`.
pub open spec fn underline_prefix() -> Seq<u8> {
    seq![0x1bu8, 0x5bu8, 0x34u8, 0x6du8]
}

/// The ANSI marker that resets all styling: ESC `[0m`.
pub open spec fn style_reset() -> Seq<u8> {
    seq![0x1bu8, 0x5bu8, 0x30u8, 0x6du8]
}

/// The highlighted form of the pattern: underline on, pattern, reset.
pub open spec fn styled_pattern_spec(pat: Seq<u8>) -> Seq<u8> {
    underline_prefix() + pat + style_reset()
}

/// `s` with every leftmost, non-overlapping occurrence of `pat` replaced by
/// `rep`. An empty pattern replaces nothing.
pub open spec fn replace_spec(s: Seq<u8>, pat: Seq<u8>, rep: Seq<u8>) -> Seq<u8>
    decreases s.len(),
{
    if pat.len() == 0 || s.len() < pat.len() {
        s
    } else if s.subrange(0, pat.len() as int) == pat {
        rep + replace_spec(s.skip(pat.len() as int), pat, rep)
    } else {
        seq![s[0]] + replace_spec(s.skip(1), pat, rep)
    }
}

/// `s` with every occurrence of either ANSI marker removed.
pub open spec fn strip_spec(s: Seq<u8>) -> Seq<u8>
    decreases s.len(),
{
    if s.len() == 0 {
        s
    } else if s.len() >= 4 && s.subrange(0, 4) == underline_prefix() {
        strip_spec(s.skip(4))
    } else if s.len() >= 4 && s.subrange(0, 4) == style_reset() {
        strip_spec(s.skip(4))
    } else {
        seq![s[0]] + strip_spec(s.skip(1))
    }
}

/// Copy the bytes of `src` onto the end of `out`.
pub fn append_bytes(out: &mut Vec<u8>, src: &Vec<u8>)
    ensures
        final(out)@ == old(out)@ + src@,
{
    let ghost orig: Seq<u8> = out@;
    let mut j: usize = 0;
    while j < src.len()
        invariant
            0 <= j <= src@.len(),
            out@ == orig + src@.take(j as int),
        decreases src@.len() - j,
    {
        out.push(src[j]);
        proof {
            assert(orig + src@.take(j as int) + seq![src@[j as int]] =~= orig + src@.take(
                j as int + 1,
            ));
        }
        j += 1;
    }
    proof {
        assert(orig + src@.take(src@.len() as int) =~= orig + src@);
    }
}

/// The underline-on marker as bytes.
pub fn underline_prefix_bytes() -> (r: Vec<u8>)
    ensures
        r@ == underline_prefix(),
{
    let mut v: Vec<u8> = Vec::new();
    v.push(0x1b);
    v.push(0x5b);
    v.push(0x34);
    v.push(0x6d);
    proof {
        assert(v@ =~= underline_prefix());
    }
    v
}

/// The style-reset marker as bytes.
pub fn style_reset_bytes() -> (r: Vec<u8>)
    ensures
        r@ == style_reset(),
{
    let mut v: Vec<u8> = Vec::new();
    v.push(0x1b);
    v.push(0x5b);
    v.push(0x30);
    v.push(0x6d);
    proof {
        assert(v@ =~= style_reset());
    }
    v
}

/// Replace every leftmost, non-overlapping occurrence of `pat` in `line` by
/// `rep`, scanning left to right.
pub fn replace_bytes(line: &Vec<u8>, pat: &Vec<u8>, rep: &Vec<u8>) -> (r: Vec<u8>)
    ensures
        r@ == replace_spec(line@, pat@, rep@),
{
    let mut out: Vec<u8> = Vec::new();
    if pat.len() == 0 {
        append_bytes(&mut out, line);
        return out;
    }
    let llen: usize = line.len();
    let mut i: usize = 0;
    proof {
        assert(line@.skip(0) =~= line@);
    }
    while i < llen
        invariant
            1 <= pat@.len(),
            line@.len() == llen,
            0 <= i <= llen,
            out@ + replace_spec(line@.skip(i as int), pat@, rep@) == replace_spec(
                line@,
                pat@,
                rep@,
            ),
        decreases llen - i,
    {
        let ghost tail = line@.skip(i as int);
        if pat.len() <= llen - i && match_at(line, pat, i) {
            proof {
                assert(tail.subrange(0, pat@.len() as int) =~= line@.subrange(
                    i as int,
                    i + pat@.len(),
                ));
                assert(tail.skip(pat@.len() as int) =~= line@.skip(i + pat@.len()));
                assert(replace_spec(tail, pat@, rep@) == rep@ + replace_spec(
                    line@.skip(i + pat@.len()),
                    pat@,
                    rep@,
                ));
            }
            let ghost before = out@;
            append_bytes(&mut out, rep);
            proof {
                assert((before + rep@) + replace_spec(line@.skip(i + pat@.len()), pat@, rep@)
                    =~= before + (rep@ + replace_spec(line@.skip(i + pat@.len()), pat@, rep@)));
            }
            i += pat.len();
        } else {
            proof {
                if pat@.len() <= tail.len() {
                    assert(tail.subrange(0, pat@.len() as int) =~= line@.subrange(
                        i as int,
                        i + pat@.len(),
                    ));
                    assert(tail.subrange(0, pat@.len() as int) != pat@);
                }
                assert(tail.skip(1) =~= line@.skip(i as int + 1));
                assert(tail[0] == line@[i as int]);
                assert(replace_spec(tail, pat@, rep@) == seq![line@[i as int]] + replace_spec(
                    line@.skip(i as int + 1),
                    pat@,
                    rep@,
                ));
            }
            let ghost before = out@;
            out.push(line[i]);
            proof {
                assert((before + seq![line@[i as int]]) + replace_spec(
                    line@.skip(i as int + 1),
                    pat@,
                    rep@,
                ) =~= before + (seq![line@[i as int]] + replace_spec(
                    line@.skip(i as int + 1),
                    pat@,
                    rep@,
                )));
            }
            i += 1;
        }
    }
    proof {
        assert(line@.skip(llen as int) =~= Seq::<u8>::empty());
        assert(out@ + Seq::<u8>::empty() =~= out@);
    }
    out
}

/// Remove every occurrence of either ANSI marker from `line`.
pub fn strip_markers(line: &Vec<u8>) -> (r: Vec<u8>)
    ensures
        r@ == strip_spec(line@),
{
    let pre = underline_prefix_bytes();
    let res = style_reset_bytes();
    let mut out: Vec<u8> = Vec::new();
    let llen: usize = line.len();
    let mut i: usize = 0;
    proof {
        assert(line@.skip(0) =~= line@);
    }
    while i < llen
        invariant
            line@.len() == llen,
            0 <= i <= llen,
            pre@ == underline_prefix(),
            res@ == style_reset(),
            out@ + strip_spec(line@.skip(i as int)) == strip_spec(line@),
        decreases llen - i,
    {
        let ghost tail = line@.skip(i as int);
        let is_pre = 4 <= llen - i && match_at(line, &pre, i);
        let is_res = !is_pre && 4 <= llen - i && match_at(line, &res, i);
        proof {
            if 4 <= tail.len() {
                assert(tail.subrange(0, 4) =~= line@.subrange(i as int, i + 4));
                assert(tail.skip(4) =~= line@.skip(i as int + 4));
            }
            assert(tail.skip(1) =~= line@.skip(i as int + 1));
            assert(tail[0] == line@[i as int]);
        }
        if is_pre || is_res {
            i += 4;
        } else {
            let ghost before = out@;
            out.push(line[i]);
            proof {
                assert((before + seq![line@[i as int]]) + strip_spec(line@.skip(i as int + 1))
                    =~= before + (seq![line@[i as int]] + strip_spec(line@.skip(i as int + 1))));
            }
            i += 1;
        }
    }
    proof {
        assert(line@.skip(llen as int) =~= Seq::<u8>::empty());
        assert(out@ + Seq::<u8>::empty() =~= out@);
    }
    out
}

/// Stripping leaves a marker-free byte string unchanged.
pub proof fn lemma_strip_esc_free(s: Seq<u8>)
    requires
        esc_free(s),
    ensures
        strip_spec(s) == s,
    decreases s.len(),
{
    if s.len() > 0 {
        if s.len() >= 4 {
            assert(s.subrange(0, 4)[0] == s[0]);
            assert(s[0] != esc());
        }
        assert(esc_free(s.skip(1)));
        lemma_strip_esc_free(s.skip(1));
        assert(seq![s[0]] + s.skip(1) =~= s);
    }
}

/// Stripping walks through a marker-free prefix untouched.
pub proof fn lemma_strip_concat_esc_free(a: Seq<u8>, b: Seq<u8>)
    requires
        esc_free(a),
    ensures
        strip_spec(a + b) == a + strip_spec(b),
    decreases a.len(),
{
    if a.len() == 0 {
        assert(a + b =~= b);
        assert(a + strip_spec(b) =~= strip_spec(b));
    } else {
        let s = a + b;
        assert(s[0] == a[0]);
        if s.len() >= 4 {
            assert(s.subrange(0, 4)[0] == s[0]);
            assert(s[0] != esc());
        }
        assert(esc_free(a.skip(1)));
        lemma_strip_concat_esc_free(a.skip(1), b);
        assert(s.skip(1) =~= a.skip(1) + b);
        assert(seq![a[0]] + (a.skip(1) + strip_spec(b)) =~= a + strip_spec(b));
    }
}

/// The round trip: stripping the markers from a highlighted line yields the
/// original line exactly, whenever neither the line nor the pattern already
/// holds the ANSI escape byte.
pub proof fn lemma_strip_replace_round_trip(line: Seq<u8>, pat: Seq<u8>)
    requires
        esc_free(line),
        esc_free(pat),
    ensures
        strip_spec(replace_spec(line, pat, styled_pattern_spec(pat))) == line,
    decreases line.len(),
{
    let rep = styled_pattern_spec(pat);
    if pat.len() == 0 || line.len() < pat.len() {
        lemma_strip_esc_free(line);
    } else if line.subrange(0, pat.len() as int) == pat {
        let rest = line.skip(pat.len() as int);
        assert(esc_free(rest));
        lemma_strip_replace_round_trip(rest, pat);
        let r = replace_spec(rest, pat, rep);
        let t = rep + r;
        assert(replace_spec(line, pat, rep) == t);
        // strip consumes the underline prefix
        assert(t.len() >= 4);
        assert(t.subrange(0, 4) =~= underline_prefix());
        let u = style_reset() + r;
        assert(t.skip(4) =~= pat + u);
        // strip copies the pattern bytes unchanged
        lemma_strip_concat_esc_free(pat, u);
        // strip consumes the reset marker: it is not the underline prefix
        assert(u.len() >= 4);
        assert(u.subrange(0, 4) =~= style_reset());
        assert(u.subrange(0, 4) != underline_prefix()) by {
            assert(style_reset()[2] == 0x30 && underline_prefix()[2] == 0x34);
        }
        assert(u.skip(4) =~= r);
        assert(strip_spec(t) == pat + strip_spec(r));
        assert(pat + rest =~= line);
    } else {
        let rest = line.skip(1);
        assert(esc_free(rest));
        lemma_strip_replace_round_trip(rest, pat);
        let v = seq![line[0]] + replace_spec(rest, pat, rep);
        assert(replace_spec(line, pat, rep) == v);
        assert(v[0] == line[0]);
        if v.len() >= 4 {
            assert(v.subrange(0, 4)[0] == v[0]);
            assert(v[0] != esc());
        }
        assert(v.skip(1) =~= replace_spec(rest, pat, rep));
        assert(seq![line[0]] + rest =~= line);
    }
}

} // verus!
