//! The per-file match set: a mapping from 1-based line number to the
//! highlighted copy of that line, produced by scanning a file's lines for a
//! literal pattern.

use vstd::prelude::*;
use crate::text::{contains_sub, contains_bytes};
use crate::highlight::{replace_spec, replace_bytes};
use crate::utf8::{is_utf8, is_utf8_bytes};

verus! {

/// The map that a sequence of key-value pairs builds up, later pairs winning.
pub open spec fn seq_to_map<K, V>(s: Seq<(K, V)>) -> Map<K, V>
    decreases s.len(),
{
    if s.len() == 0 {
        Map::empty()
    } else {
        seq_to_map(s.drop_last()).insert(s.last().0, s.last().1)
    }
}

/// The keys of `seq_to_map(s)` are exactly the keys of the pairs of `s`.
pub proof fn lemma_seq_to_map_dom<K, V>(s: Seq<(K, V)>)
    ensures
        forall|k: K|
            seq_to_map(s).dom().contains(k) <==> exists|i: int|
                0 <= i < s.len() && #[trigger] s[i].0 == k,
    decreases s.len(),
{
    if s.len() > 0 {
        let sd = s.drop_last();
        lemma_seq_to_map_dom(sd);
        assert forall|k: K|
            seq_to_map(s).dom().contains(k) <==> exists|i: int|
                0 <= i < s.len() && #[trigger] s[i].0 == k by {
            if seq_to_map(s).dom().contains(k) {
                if k == s.last().0 {
                    assert(s[s.len() - 1].0 == k);
                } else {
                    assert(seq_to_map(sd).dom().contains(k));
                    let i = choose|i: int| 0 <= i < sd.len() && #[trigger] sd[i].0 == k;
                    assert(sd[i] == s[i]);
                    assert(s[i].0 == k);
                }
            } else {
                assert(!seq_to_map(sd).dom().contains(k));
                assert forall|i: int| 0 <= i < s.len() implies #[trigger] s[i].0 != k by {
                    if i < s.len() - 1 {
                        assert(sd[i] == s[i]);
                        if s[i].0 == k {
                            assert(sd[i].0 == k);
                        }
                    }
                }
            }
        }
    }
}

/// Inserting a pair with a fresh key anywhere in the sequence inserts it into
/// the map.
pub proof fn lemma_seq_to_map_insert<K, V>(s: Seq<(K, V)>, idx: int, x: (K, V))
    requires
        0 <= idx <= s.len(),
        forall|i: int| 0 <= i < s.len() ==> (#[trigger] s[i]).0 != x.0,
    ensures
        seq_to_map(s.insert(idx, x)) == seq_to_map(s).insert(x.0, x.1),
    decreases s.len(),
{
    if idx == s.len() {
        assert(s.insert(idx, x).drop_last() =~= s);
        assert(s.insert(idx, x).last() == x);
    } else {
        let t = s.insert(idx, x);
        assert(t.last() == s.last());
        assert(t.drop_last() =~= s.drop_last().insert(idx, x));
        assert(forall|i: int|
            0 <= i < s.drop_last().len() ==> (#[trigger] s.drop_last()[i]).0 != x.0) by {
            assert(forall|i: int|
                0 <= i < s.drop_last().len() ==> s.drop_last()[i] == #[trigger] s[i]);
        }
        lemma_seq_to_map_insert(s.drop_last(), idx, x);
        assert(s[s.len() - 1].0 != x.0);
        assert(seq_to_map(s.drop_last()).insert(x.0, x.1).insert(s.last().0, s.last().1)
            =~= seq_to_map(s.drop_last()).insert(s.last().0, s.last().1).insert(x.0, x.1));
    }
}

/// With pairwise-distinct keys, the map holds each pair of the sequence.
pub proof fn lemma_seq_to_map_index<K, V>(s: Seq<(K, V)>, i: int)
    requires
        0 <= i < s.len(),
        forall|a: int, b: int| 0 <= a < b < s.len() ==> (#[trigger] s[a]).0 != (#[trigger] s[b]).0,
    ensures
        seq_to_map(s).dom().contains(s[i].0),
        seq_to_map(s)[s[i].0] == s[i].1,
    decreases s.len(),
{
    if i < s.len() - 1 {
        let sd = s.drop_last();
        assert(forall|a: int, b: int|
            0 <= a < b < sd.len() ==> (#[trigger] sd[a]).0 != (#[trigger] sd[b]).0) by {
            assert(forall|a: int| 0 <= a < sd.len() ==> sd[a] == #[trigger] s[a]);
        }
        lemma_seq_to_map_index(sd, i);
        assert(sd[i] == s[i]);
        assert(s[i].0 != s[s.len() - 1].0);
    }
}

/// Two sequences of pairs that hold the same pairs, each with pairwise
/// distinct keys, build the same map.
pub proof fn lemma_seq_to_map_same_set<K, V>(s1: Seq<(K, V)>, s2: Seq<(K, V)>)
    requires
        forall|a: int, b: int|
            0 <= a < b < s1.len() ==> (#[trigger] s1[a]).0 != (#[trigger] s1[b]).0,
        forall|a: int, b: int|
            0 <= a < b < s2.len() ==> (#[trigger] s2[a]).0 != (#[trigger] s2[b]).0,
        forall|p: (K, V)| s1.contains(p) <==> s2.contains(p),
    ensures
        seq_to_map(s1) == seq_to_map(s2),
{
    lemma_seq_to_map_dom(s1);
    lemma_seq_to_map_dom(s2);
    assert forall|k: K|
        #![trigger seq_to_map(s1).dom().contains(k)]
        #![trigger seq_to_map(s2).dom().contains(k)]
        seq_to_map(s1).dom().contains(k) <==> seq_to_map(s2).dom().contains(k) by {
        if seq_to_map(s1).dom().contains(k) {
            let i = choose|i: int| 0 <= i < s1.len() && #[trigger] s1[i].0 == k;
            assert(s1.contains(s1[i]));
            assert(s2.contains(s1[i]));
            let j = choose|j: int| 0 <= j < s2.len() && #[trigger] s2[j] == s1[i];
            assert(s2[j].0 == k);
        }
        if seq_to_map(s2).dom().contains(k) {
            let j = choose|j: int| 0 <= j < s2.len() && #[trigger] s2[j].0 == k;
            assert(s2.contains(s2[j]));
            assert(s1.contains(s2[j]));
            let i = choose|i: int| 0 <= i < s1.len() && #[trigger] s1[i] == s2[j];
            assert(s1[i].0 == k);
        }
    }
    assert forall|k: K|
        seq_to_map(s1).dom().contains(k) implies seq_to_map(s1)[k] == seq_to_map(s2)[k] by {
        let i = choose|i: int| 0 <= i < s1.len() && #[trigger] s1[i].0 == k;
        lemma_seq_to_map_index(s1, i);
        assert(s1.contains(s1[i]));
        assert(s2.contains(s1[i]));
        let j = choose|j: int| 0 <= j < s2.len() && #[trigger] s2[j] == s1[i];
        lemma_seq_to_map_index(s2, j);
    }
    assert(seq_to_map(s1) =~= seq_to_map(s2));
}

/// Entries with strictly increasing line numbers are determined by their map:
/// two such sequences that build the same map are the same sequence.
pub proof fn lemma_sorted_entries_unique(s1: Seq<(int, Seq<u8>)>, s2: Seq<(int, Seq<u8>)>)
    requires
        forall|a: int, b: int|
            0 <= a < b < s1.len() ==> (#[trigger] s1[a]).0 < (#[trigger] s1[b]).0,
        forall|a: int, b: int|
            0 <= a < b < s2.len() ==> (#[trigger] s2[a]).0 < (#[trigger] s2[b]).0,
        seq_to_map(s1) == seq_to_map(s2),
    ensures
        s1 == s2,
    decreases s1.len() + s2.len(),
{
    lemma_seq_to_map_dom(s1);
    lemma_seq_to_map_dom(s2);
    if s1.len() == 0 && s2.len() == 0 {
        assert(s1 =~= s2);
    } else if s1.len() == 0 {
        assert(s2[s2.len() - 1].0 == s2.last().0);
        assert(seq_to_map(s1).dom().contains(s2.last().0));
        assert(false);
    } else if s2.len() == 0 {
        assert(s1[s1.len() - 1].0 == s1.last().0);
        assert(seq_to_map(s2).dom().contains(s1.last().0));
        assert(false);
    } else {
        let k1 = s1.last().0;
        let k2 = s2.last().0;
        // each last key is in the common domain, and lasts are maximal
        assert(s1[s1.len() - 1].0 == k1);
        assert(seq_to_map(s2).dom().contains(k1));
        let j = choose|j: int| 0 <= j < s2.len() && #[trigger] s2[j].0 == k1;
        assert(k1 <= k2);
        assert(s2[s2.len() - 1].0 == k2);
        assert(seq_to_map(s1).dom().contains(k2));
        let i = choose|i: int| 0 <= i < s1.len() && #[trigger] s1[i].0 == k2;
        assert(k2 <= k1);
        assert(k1 == k2);
        // equal values at the shared last key
        assert(seq_to_map(s1)[k1] == s1.last().1);
        assert(seq_to_map(s2)[k1] == s2.last().1);
        assert(s1.last() == s2.last());
        // the remainders build the map with the last key removed
        let sd1 = s1.drop_last();
        let sd2 = s2.drop_last();
        lemma_seq_to_map_dom(sd1);
        lemma_seq_to_map_dom(sd2);
        assert forall|x: int| 0 <= x < sd1.len() implies (#[trigger] sd1[x]).0 != k1 by {
            assert(sd1[x] == s1[x]);
        }
        assert forall|x: int| 0 <= x < sd2.len() implies (#[trigger] sd2[x]).0 != k1 by {
            assert(sd2[x] == s2[x]);
        }
        assert(seq_to_map(sd1) =~= seq_to_map(s1).remove(k1));
        assert(seq_to_map(sd2) =~= seq_to_map(s2).remove(k1));
        assert(forall|a: int, b: int|
            0 <= a < b < sd1.len() ==> (#[trigger] sd1[a]).0 < (#[trigger] sd1[b]).0) by {
            assert(forall|a: int| 0 <= a < sd1.len() ==> sd1[a] == #[trigger] s1[a]);
        }
        assert(forall|a: int, b: int|
            0 <= a < b < sd2.len() ==> (#[trigger] sd2[a]).0 < (#[trigger] sd2[b]).0) by {
            assert(forall|a: int| 0 <= a < sd2.len() ==> sd2[a] == #[trigger] s2[a]);
        }
        lemma_sorted_entries_unique(sd1, sd2);
        assert(s1 =~= sd1.push(s1.last()));
        assert(s2 =~= sd2.push(s2.last()));
    }
}

/// The views of a sequence of byte-vector lines.
pub open spec fn lines_view(ls: Seq<Vec<u8>>) -> Seq<Seq<u8>> {
    ls.map_values(|l: Vec<u8>| l@)
}

/// Line `ln` (1-based) of the file cannot be decoded as valid text: it is
/// skipped, never matched, and counted as a recoverable decoding error. The
/// lines around it keep their physical numbers.
pub open spec fn undecodable_line(lines: Seq<Seq<u8>>, ln: int) -> bool {
    1 <= ln <= lines.len() && !is_utf8(lines[ln - 1])
}

/// Line `ln` (1-based) of the file is reported: it decodes as valid text, the
/// pattern is non-empty, and it occurs in that line as a substring. An empty
/// pattern matches nothing.
pub open spec fn matched_line(lines: Seq<Seq<u8>>, pat: Seq<u8>, ln: int) -> bool {
    1 <= ln <= lines.len() && pat.len() > 0 && is_utf8(lines[ln - 1]) && contains_sub(
        lines[ln - 1],
        pat,
    )
}

/// The match set of a file, as a map: 1-based line number to the highlighted
/// copy of the line, for exactly the matching lines.
pub open spec fn match_map(lines: Seq<Seq<u8>>, pat: Seq<u8>, styled: Seq<u8>) -> Map<
    int,
    Seq<u8>,
> {
    Map::new(
        |ln: int| matched_line(lines, pat, ln),
        |ln: int| replace_spec(lines[ln - 1], pat, styled),
    )
}

/// A file's match set: line numbers in increasing order, each 1-based, each
/// with the highlighted copy of its line.
pub struct MatchSet {
    entries: Vec<(usize, Vec<u8>)>,
}

impl View for MatchSet {
    type V = Map<int, Seq<u8>>;

    open spec fn view(&self) -> Map<int, Seq<u8>> {
        seq_to_map(self.entry_seq())
    }
}

impl MatchSet {
    /// The entries as a sequence of (line number, highlighted text) pairs.
    pub closed spec fn entry_seq(&self) -> Seq<(int, Seq<u8>)> {
        self.entries@.map_values(|e: (usize, Vec<u8>)| (e.0 as int, e.1@))
    }

    /// Line numbers are 1-based and strictly increasing.
    pub open spec fn wf(&self) -> bool {
        &&& forall|i: int| 0 <= i < self.entry_seq().len() ==> 1 <= (#[trigger] self.entry_seq()[i]).0
        &&& forall|i: int, j: int|
            0 <= i < j < self.entry_seq().len() ==> (#[trigger] self.entry_seq()[i]).0 < (
            #[trigger] self.entry_seq()[j]).0
    }

    /// The match set with no entries.
    pub fn empty() -> (r: MatchSet)
        ensures
            r.wf(),
            r.entry_seq() == Seq::<(int, Seq<u8>)>::empty(),
            r@ == Map::<int, Seq<u8>>::empty(),
    {
        let r = MatchSet { entries: Vec::new() };
        proof {
            assert(r.entry_seq() =~= Seq::<(int, Seq<u8>)>::empty());
        }
        r
    }

    /// Append an entry whose line number lies beyond every present one.
    fn push_entry(&mut self, ln: usize, text: Vec<u8>)
        requires
            old(self).wf(),
            ln >= 1,
            forall|i: int|
                0 <= i < old(self).entry_seq().len() ==> (#[trigger] old(self).entry_seq()[i]).0
                    < ln,
        ensures
            final(self).wf(),
            final(self).entry_seq() == old(self).entry_seq().push((ln as int, text@)),
            final(self)@ == old(self)@.insert(ln as int, text@),
    {
        let ghost es = self.entry_seq();
        self.entries.push((ln, text));
        proof {
            assert(self.entry_seq() =~= es.push((ln as int, text@)));
            assert(self.entry_seq().drop_last() =~= es);
            assert(self.entry_seq().last() == (ln as int, text@));
        }
    }

    /// The number of matching lines.
    pub fn len(&self) -> (r: usize)
        ensures
            r == self.entry_seq().len(),
    {
        self.entries.len()
    }

    /// True when the file had no matching line.
    pub fn is_empty(&self) -> (r: bool)
        ensures
            r == (self.entry_seq().len() == 0),
    {
        self.entries.len() == 0
    }

    /// The 1-based line number of the entry at `i`.
    pub fn line_no_at(&self, i: usize) -> (r: usize)
        requires
            i < self.entry_seq().len(),
        ensures
            r as int == self.entry_seq()[i as int].0,
    {
        self.entries[i].0
    }

    /// The highlighted text of the entry at `i`.
    pub fn text_at(&self, i: usize) -> (r: &Vec<u8>)
        requires
            i < self.entry_seq().len(),
        ensures
            r@ == self.entry_seq()[i as int].1,
    {
        &self.entries[i].1
    }
}

/// Scan a file's lines for the pattern: the result maps each 1-based line
/// number whose line decodes as valid text and contains the non-empty pattern
/// to a copy of that line with every occurrence of the pattern replaced by
/// `styled`. A line that is not valid text is skipped, and the remaining
/// lines keep their physical numbers.
pub fn scan_lines(lines: &Vec<Vec<u8>>, pat: &Vec<u8>, styled: &Vec<u8>) -> (ms: MatchSet)
    ensures
        ms.wf(),
        ms@ == match_map(lines_view(lines@), pat@, styled@),
        (ms.entry_seq().len() == 0) <==> (forall|ln: int|
            !matched_line(lines_view(lines@), pat@, ln)),
        forall|j: int|
            0 <= j < ms.entry_seq().len() ==> matched_line(
                lines_view(lines@),
                pat@,
                (#[trigger] ms.entry_seq()[j]).0,
            ),
{
    let ghost lv = lines_view(lines@);
    let mut ms = MatchSet::empty();
    let nlines: usize = lines.len();
    let mut i: usize = 0;
    proof {
        assert(match_map(lv.take(0), pat@, styled@) =~= Map::<int, Seq<u8>>::empty());
    }
    while i < nlines
        invariant
            lv == lines_view(lines@),
            lines@.len() == nlines,
            lv.len() == nlines,
            0 <= i <= nlines,
            ms.wf(),
            ms@ == match_map(lv.take(i as int), pat@, styled@),
            forall|j: int|
                0 <= j < ms.entry_seq().len() ==> 1 <= (#[trigger] ms.entry_seq()[j]).0 <= i,
            forall|j: int|
                0 <= j < ms.entry_seq().len() ==> matched_line(
                    lv,
                    pat@,
                    (#[trigger] ms.entry_seq()[j]).0,
                ),
        decreases nlines - i,
    {
        let line = &lines[i];
        proof {
            assert(lv[i as int] == line@);
        }
        if pat.len() > 0 && is_utf8_bytes(line) && contains_bytes(line, pat) {
            let h = replace_bytes(line, pat, styled);
            let ghost before = ms@;
            ms.push_entry(i + 1, h);
            proof {
                assert(matched_line(lv, pat@, i + 1));
                assert(match_map(lv.take(i as int + 1), pat@, styled@) =~= before.insert(
                    i as int + 1,
                    replace_spec(line@, pat@, styled@),
                )) by {
                    assert forall|ln: int|
                        matched_line(lv.take(i as int + 1), pat@, ln) <==> (matched_line(
                            lv.take(i as int),
                            pat@,
                            ln,
                        ) || ln == i + 1) by {
                        if 1 <= ln <= i + 1 {
                            assert(lv.take(i as int + 1)[ln - 1] == lv[ln - 1]);
                            if ln <= i {
                                assert(lv.take(i as int)[ln - 1] == lv[ln - 1]);
                            }
                        }
                    }
                    assert forall|ln: int|
                        matched_line(lv.take(i as int + 1), pat@, ln) && ln != i + 1 implies (
                    match_map(lv.take(i as int + 1), pat@, styled@)[ln] == match_map(
                        lv.take(i as int),
                        pat@,
                        styled@,
                    )[ln]) by {
                        assert(lv.take(i as int + 1)[ln - 1] == lv[ln - 1]);
                        assert(lv.take(i as int)[ln - 1] == lv[ln - 1]);
                    }
                    assert(lv.take(i as int + 1)[i as int] == lv[i as int]);
                }
            }
        } else {
            proof {
                assert(match_map(lv.take(i as int + 1), pat@, styled@) =~= match_map(
                    lv.take(i as int),
                    pat@,
                    styled@,
                )) by {
                    assert forall|ln: int|
                        matched_line(lv.take(i as int + 1), pat@, ln) <==> matched_line(
                            lv.take(i as int),
                            pat@,
                            ln,
                        ) by {
                        if 1 <= ln <= i + 1 {
                            assert(lv.take(i as int + 1)[ln - 1] == lv[ln - 1]);
                            if ln <= i {
                                assert(lv.take(i as int)[ln - 1] == lv[ln - 1]);
                            }
                        }
                    }
                    assert forall|ln: int|
                        matched_line(lv.take(i as int + 1), pat@, ln) implies (match_map(
                        lv.take(i as int + 1),
                        pat@,
                        styled@,
                    )[ln] == match_map(lv.take(i as int), pat@, styled@)[ln]) by {
                        assert(lv.take(i as int + 1)[ln - 1] == lv[ln - 1]);
                        assert(lv.take(i as int)[ln - 1] == lv[ln - 1]);
                    }
                }
            }
        }
        i += 1;
    }
    proof {
        assert(lv.take(nlines as int) =~= lv);
        if ms.entry_seq().len() == 0 {
            assert forall|ln: int| !matched_line(lv, pat@, ln) by {
                lemma_seq_to_map_dom(ms.entry_seq());
                if matched_line(lv, pat@, ln) {
                    assert(ms@.dom().contains(ln));
                }
            }
        } else {
            assert(matched_line(lv, pat@, ms.entry_seq()[0].0));
        }
    }
    ms
}

/// A file whose second and fifth lines are valid text containing the
/// non-empty pattern, and whose other lines match nowhere, yields a match set
/// with exactly the keys 2 and 5.
pub proof fn lemma_two_matching_lines(lines: Seq<Seq<u8>>, pat: Seq<u8>, styled: Seq<u8>)
    requires
        pat.len() > 0,
        lines.len() >= 5,
        is_utf8(lines[1]),
        contains_sub(lines[1], pat),
        is_utf8(lines[4]),
        contains_sub(lines[4], pat),
        forall|i: int| 0 <= i < lines.len() && i != 1 && i != 4 ==> !contains_sub(#[trigger] lines[i], pat),
    ensures
        match_map(lines, pat, styled).dom() == set![2int, 5int],
{
    assert(match_map(lines, pat, styled).dom() =~= set![2int, 5int]) by {
        assert(matched_line(lines, pat, 2));
        assert(matched_line(lines, pat, 5));
        assert forall|ln: int| matched_line(lines, pat, ln) implies ln == 2 || ln == 5 by {
            if ln != 2 && ln != 5 {
                assert(!contains_sub(lines[ln - 1], pat));
            }
        }
        assert(set![2int, 5int].contains(2int));
        assert(set![2int, 5int].contains(5int));
    }
}

/// An empty pattern never matches: every file yields the empty match map.
pub proof fn lemma_empty_pattern_matches_nothing(lines: Seq<Seq<u8>>, styled: Seq<u8>)
    ensures
        match_map(lines, Seq::<u8>::empty(), styled) == Map::<int, Seq<u8>>::empty(),
{
    assert(match_map(lines, Seq::<u8>::empty(), styled) =~= Map::<int, Seq<u8>>::empty());
}

} // verus!
