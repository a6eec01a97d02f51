//! Aggregation of per-file match sets: a single-owner table keyed by file
//! path, holding only non-empty match sets, kept in lexicographic path order
//! so that reporting is deterministic whatever order results arrive in.

use vstd::prelude::*;
use crate::matchset::{MatchSet, seq_to_map, lemma_seq_to_map_insert, lemma_seq_to_map_dom};
use crate::text::{lex_lt, lex_lt_bytes, lemma_lex_asym, lemma_lex_connected, lemma_lex_trans};

verus! {

/// The run-wide results: file path to match set, for files with at least one
/// matching line, in strictly increasing lexicographic path order.
pub struct AggregateResults {
    entries: Vec<(Vec<u8>, MatchSet)>,
}

impl View for AggregateResults {
    type V = Map<Seq<u8>, Map<int, Seq<u8>>>;

    open spec fn view(&self) -> Map<Seq<u8>, Map<int, Seq<u8>>> {
        seq_to_map(self.kv_seq())
    }
}

impl AggregateResults {
    /// The entries in order: (path, match set) pairs.
    pub closed spec fn entry_seq(&self) -> Seq<(Seq<u8>, MatchSet)> {
        self.entries@.map_values(|e: (Vec<u8>, MatchSet)| (e.0@, e.1))
    }

    /// The entries with each match set abstracted to its map.
    pub open spec fn kv_seq(&self) -> Seq<(Seq<u8>, Map<int, Seq<u8>>)> {
        self.entry_seq().map_values(|e: (Seq<u8>, MatchSet)| (e.0, e.1@))
    }

    /// Paths strictly increasing, every match set well-formed and non-empty.
    pub open spec fn wf(&self) -> bool {
        &&& forall|i: int, j: int|
            0 <= i < j < self.entry_seq().len() ==> lex_lt(
                (#[trigger] self.entry_seq()[i]).0,
                (#[trigger] self.entry_seq()[j]).0,
            )
        &&& forall|i: int|
            0 <= i < self.entry_seq().len() ==> (#[trigger] self.entry_seq()[i]).1.wf()
        &&& forall|i: int|
            0 <= i < self.entry_seq().len() ==> (#[trigger] self.entry_seq()[i]).1.entry_seq().len()
                > 0
    }

    /// The empty aggregate.
    pub fn empty() -> (r: AggregateResults)
        ensures
            r.wf(),
            r.entry_seq() == Seq::<(Seq<u8>, MatchSet)>::empty(),
            r@ == Map::<Seq<u8>, Map<int, Seq<u8>>>::empty(),
    {
        let r = AggregateResults { entries: Vec::new() };
        proof {
            assert(r.entry_seq() =~= Seq::<(Seq<u8>, MatchSet)>::empty());
            assert(r.kv_seq() =~= Seq::<(Seq<u8>, Map<int, Seq<u8>>)>::empty());
        }
        r
    }

    /// The number of files with at least one match.
    pub fn len(&self) -> (r: usize)
        ensures
            r == self.entry_seq().len(),
    {
        self.entries.len()
    }

    /// The path of the entry at `i`.
    pub fn path_at(&self, i: usize) -> (r: &Vec<u8>)
        requires
            i < self.entry_seq().len(),
        ensures
            r@ == self.entry_seq()[i as int].0,
    {
        &self.entries[i].0
    }

    /// The match set of the entry at `i`.
    pub fn set_at(&self, i: usize) -> (r: &MatchSet)
        requires
            i < self.entry_seq().len(),
        ensures
            *r == self.entry_seq()[i as int].1,
    {
        &self.entries[i].1
    }

    /// Insert one completed file's non-empty match set, keyed by its path.
    /// Each file is inserted at most once over a run.
    pub fn insert(&mut self, path: Vec<u8>, ms: MatchSet)
        requires
            old(self).wf(),
            ms.wf(),
            ms.entry_seq().len() > 0,
            !old(self)@.dom().contains(path@),
        ensures
            final(self).wf(),
            final(self)@ == old(self)@.insert(path@, ms@),
    {
        proof {
            lemma_seq_to_map_dom(old(self).kv_seq());
            assert forall|i: int|
                0 <= i < old(self).entry_seq().len() implies (#[trigger] old(self).entry_seq()[i]).0
                != path@ by {
                if old(self).entry_seq()[i].0 == path@ {
                    assert(old(self).kv_seq()[i].0 == path@);
                }
            }
        }
        let ghost es = self.entry_seq();
        let ghost kv = self.kv_seq();
        let n = self.entries.len();
        let mut idx: usize = 0;
        while idx < n && lex_lt_bytes(&self.entries[idx].0, &path)
            invariant
                *self == *old(self),
                n == es.len(),
                0 <= idx <= n,
                es == self.entry_seq(),
                forall|j: int| 0 <= j < idx ==> lex_lt((#[trigger] es[j]).0, path@),
            decreases n - idx,
        {
            proof {
                assert(es[idx as int].0 == self.entries@[idx as int].0@);
            }
            idx += 1;
        }
        proof {
            if idx < n {
                assert(es[idx as int].0 == self.entries@[idx as int].0@);
                lemma_lex_connected(es[idx as int].0, path@);
                assert(lex_lt(path@, es[idx as int].0));
            }
        }
        self.entries.insert(idx, (path, ms));
        proof {
            let es2 = self.entry_seq();
            let x = (path@, ms);
            assert(es2 =~= es.insert(idx as int, x)) by {
                assert forall|j: int| 0 <= j < es2.len() implies es2[j] == es.insert(
                    idx as int,
                    x,
                )[j] by {
                    assert(es2[j] == (self.entries@[j].0@, self.entries@[j].1));
                }
            }
            // order is preserved
            assert forall|i: int, j: int|
                0 <= i < j < es2.len() implies lex_lt(
                (#[trigger] es2[i]).0,
                (#[trigger] es2[j]).0,
            ) by {
                let a = if i < idx {
                    es[i]
                } else if i == idx {
                    x
                } else {
                    es[i - 1]
                };
                let b = if j < idx {
                    es[j]
                } else if j == idx {
                    x
                } else {
                    es[j - 1]
                };
                assert(es2[i] == a && es2[j] == b);
                if i == idx && j > idx {
                    if j - 1 > idx {
                        lemma_lex_trans(path@, es[idx as int].0, es[j - 1].0);
                    }
                } else if i < idx && j == idx {
                } else if i < idx && j > idx {
                    if j - 1 >= idx && idx < es.len() {
                        if j - 1 == idx {
                        } else {
                            lemma_lex_trans(es[i].0, es[idx as int].0, es[j - 1].0);
                        }
                    }
                }
            }
            // the map view gains exactly the new key
            let kx = (path@, ms@);
            assert(self.kv_seq() =~= kv.insert(idx as int, kx)) by {
                assert forall|j: int| 0 <= j < self.kv_seq().len() implies self.kv_seq()[j]
                    == kv.insert(idx as int, kx)[j] by {
                    assert(self.kv_seq()[j] == (es2[j].0, es2[j].1@));
                    if j < idx {
                        assert(kv[j] == (es[j].0, es[j].1@));
                    } else if j > idx {
                        assert(kv[j - 1] == (es[j - 1].0, es[j - 1].1@));
                    }
                }
            }
            assert forall|i: int| 0 <= i < kv.len() implies (#[trigger] kv[i]).0 != kx.0 by {
                assert(kv[i].0 == es[i].0);
            }
            lemma_seq_to_map_insert(kv, idx as int, kx);
        }
    }
}

/// Results may arrive from concurrent scans in any order: recording two
/// different files' match sets in either order builds the same aggregate map.
pub proof fn lemma_collect_order_independent(
    m: Map<Seq<u8>, Map<int, Seq<u8>>>,
    p1: Seq<u8>,
    s1: Map<int, Seq<u8>>,
    p2: Seq<u8>,
    s2: Map<int, Seq<u8>>,
)
    requires
        p1 != p2,
    ensures
        m.insert(p1, s1).insert(p2, s2) == m.insert(p2, s2).insert(p1, s1),
{
    assert(m.insert(p1, s1).insert(p2, s2) =~= m.insert(p2, s2).insert(p1, s1));
}

/// Pairs in strictly increasing lexicographic path order.
pub open spec fn sorted_by_path(s: Seq<(Seq<u8>, Map<int, Seq<u8>>)>) -> bool {
    forall|a: int, b: int|
        0 <= a < b < s.len() ==> lex_lt((#[trigger] s[a]).0, (#[trigger] s[b]).0)
}

/// Pairs in strictly increasing path order are determined by their map: two
/// such sequences that build the same map are the same sequence.
pub proof fn lemma_sorted_paths_unique(
    s1: Seq<(Seq<u8>, Map<int, Seq<u8>>)>,
    s2: Seq<(Seq<u8>, Map<int, Seq<u8>>)>,
)
    requires
        sorted_by_path(s1),
        sorted_by_path(s2),
        seq_to_map(s1) == seq_to_map(s2),
    ensures
        s1 == s2,
    decreases s1.len() + s2.len(),
{
    lemma_seq_to_map_dom(s1);
    lemma_seq_to_map_dom(s2);
    if s1.len() == 0 && s2.len() == 0 {
        assert(s1 =~= s2);
    } else if s1.len() == 0 {
        assert(s2[s2.len() - 1].0 == s2.last().0);
        assert(seq_to_map(s1).dom().contains(s2.last().0));
        assert(false);
    } else if s2.len() == 0 {
        assert(s1[s1.len() - 1].0 == s1.last().0);
        assert(seq_to_map(s2).dom().contains(s1.last().0));
        assert(false);
    } else {
        let k1 = s1.last().0;
        let k2 = s2.last().0;
        // each last path is in the common domain, and lasts are maximal
        assert(s1[s1.len() - 1].0 == k1);
        assert(seq_to_map(s2).dom().contains(k1));
        let j = choose|j: int| 0 <= j < s2.len() && #[trigger] s2[j].0 == k1;
        assert(j == s2.len() - 1 || lex_lt(k1, k2));
        assert(s2[s2.len() - 1].0 == k2);
        assert(seq_to_map(s1).dom().contains(k2));
        let i = choose|i: int| 0 <= i < s1.len() && #[trigger] s1[i].0 == k2;
        assert(i == s1.len() - 1 || lex_lt(k2, k1));
        if k1 != k2 {
            assert(lex_lt(k1, k2) && lex_lt(k2, k1));
            lemma_lex_asym(k1, k2);
        }
        assert(k1 == k2);
        // equal values at the shared last path
        assert(seq_to_map(s1)[k1] == s1.last().1);
        assert(seq_to_map(s2)[k1] == s2.last().1);
        assert(s1.last() == s2.last());
        // the remainders build the map with the last path removed
        let sd1 = s1.drop_last();
        let sd2 = s2.drop_last();
        lemma_seq_to_map_dom(sd1);
        lemma_seq_to_map_dom(sd2);
        assert forall|x: int| 0 <= x < sd1.len() implies (#[trigger] sd1[x]).0 != k1 by {
            assert(sd1[x] == s1[x]);
            assert(lex_lt(s1[x].0, k1));
            lemma_lex_asym(s1[x].0, k1);
            if sd1[x].0 == k1 {
                assert(lex_lt(k1, k1));
            }
        }
        assert forall|x: int| 0 <= x < sd2.len() implies (#[trigger] sd2[x]).0 != k1 by {
            assert(sd2[x] == s2[x]);
            assert(lex_lt(s2[x].0, k1));
            if sd2[x].0 == k1 {
                assert(lex_lt(k1, k1));
                lemma_lex_asym(k1, k1);
            }
        }
        assert(seq_to_map(sd1) =~= seq_to_map(s1).remove(k1));
        assert(seq_to_map(sd2) =~= seq_to_map(s2).remove(k1));
        assert(sorted_by_path(sd1)) by {
            assert(forall|a: int| 0 <= a < sd1.len() ==> sd1[a] == #[trigger] s1[a]);
        }
        assert(sorted_by_path(sd2)) by {
            assert(forall|a: int| 0 <= a < sd2.len() ==> sd2[a] == #[trigger] s2[a]);
        }
        lemma_sorted_paths_unique(sd1, sd2);
        assert(s1 =~= sd1.push(s1.last()));
        assert(s2 =~= sd2.push(s2.last()));
    }
}

/// One run's per-file outcomes: each file's (path, match map) pair.
pub open spec fn distinct_paths(items: Seq<(Seq<u8>, Map<int, Seq<u8>>)>) -> bool {
    forall|a: int, b: int|
        0 <= a < b < items.len() ==> (#[trigger] items[a]).0 != (#[trigger] items[b]).0
}

/// The aggregate that a run builds: the per-file outcomes folded into the
/// results map in arrival order.
pub open spec fn fold_results(
    m: Map<Seq<u8>, Map<int, Seq<u8>>>,
    items: Seq<(Seq<u8>, Map<int, Seq<u8>>)>,
) -> Map<Seq<u8>, Map<int, Seq<u8>>>
    decreases items.len(),
{
    if items.len() == 0 {
        m
    } else {
        fold_results(m.insert(items[0].0, items[0].1), items.skip(1))
    }
}

/// Folding a run's outcomes equals laying their map over the start state.
pub proof fn lemma_fold_results_union(
    m: Map<Seq<u8>, Map<int, Seq<u8>>>,
    items: Seq<(Seq<u8>, Map<int, Seq<u8>>)>,
)
    requires
        distinct_paths(items),
    ensures
        fold_results(m, items) == m.union_prefer_right(seq_to_map(items)),
    decreases items.len(),
{
    if items.len() == 0 {
        assert(m.union_prefer_right(seq_to_map(items)) =~= m);
    } else {
        let x = items[0];
        let rest = items.skip(1);
        assert(distinct_paths(rest)) by {
            assert(forall|a: int| 0 <= a < rest.len() ==> rest[a] == #[trigger] items[a + 1]);
        }
        lemma_fold_results_union(m.insert(x.0, x.1), rest);
        assert forall|i: int| 0 <= i < rest.len() implies (#[trigger] rest[i]).0 != x.0 by {
            assert(rest[i] == items[i + 1]);
        }
        assert(rest.insert(0, x) =~= items);
        lemma_seq_to_map_insert(rest, 0, x);
        lemma_seq_to_map_dom(rest);
        let t = seq_to_map(rest);
        assert(!t.dom().contains(x.0));
        assert(m.insert(x.0, x.1).union_prefer_right(t) =~= m.union_prefer_right(
            t.insert(x.0, x.1),
        ));
    }
}

/// Running the pipeline twice over an unchanged tree: both runs fold the same
/// set of per-file outcomes, though discovery order may differ, and both end
/// with the same aggregate — identical key sets and identical match-set
/// contents.
pub proof fn lemma_run_order_independent(
    items1: Seq<(Seq<u8>, Map<int, Seq<u8>>)>,
    items2: Seq<(Seq<u8>, Map<int, Seq<u8>>)>,
)
    requires
        distinct_paths(items1),
        distinct_paths(items2),
        forall|p: (Seq<u8>, Map<int, Seq<u8>>)| items1.contains(p) <==> items2.contains(p),
    ensures
        fold_results(Map::empty(), items1) == fold_results(Map::empty(), items2),
{
    lemma_fold_results_union(Map::empty(), items1);
    lemma_fold_results_union(Map::empty(), items2);
    crate::matchset::lemma_seq_to_map_same_set(items1, items2);
}

} // verus!
