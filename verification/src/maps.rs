//! The detection result maps: small association maps with a `Map` view,
//! one keyed by tile value (set detection) and one keyed by starting tile
//! (run detection). Hands hold at most a few dozen tiles, so entry lists
//! with a no-repeated-key invariant carry the content.

use vstd::prelude::*;

use crate::tile::Tile;

verus! {

/// The mathematical map an entry list stands for.
spec fn entries_map<K, V>(s: Seq<(K, V)>) -> Map<K, V>
    decreases s.len(),
{
    if s.len() == 0 {
        Map::empty()
    } else {
        entries_map(s.drop_last()).insert(s.last().0, s.last().1)
    }
}

/// No key occurs twice in the entry list.
spec fn distinct_keys<K, V>(s: Seq<(K, V)>) -> bool {
    forall|i: int, j: int| 0 <= i < j < s.len() ==> (#[trigger] s[i]).0 != (#[trigger] s[j]).0
}

/// A key is in the map exactly when some entry carries it.
proof fn lemma_entries_key<K, V>(s: Seq<(K, V)>, k: K)
    ensures
        entries_map(s).contains_key(k) <==> exists|i: int| 0 <= i < s.len() && (#[trigger] s[i]).0
            == k,
    decreases s.len(),
{
    if s.len() > 0 {
        let d = s.drop_last();
        lemma_entries_key(d, k);
        assert(forall|i: int| 0 <= i < d.len() ==> #[trigger] d[i] == s[i]);
        if s.last().0 == k {
            assert(s[s.len() - 1].0 == k);
        } else {
            if exists|i: int| 0 <= i < s.len() && (#[trigger] s[i]).0 == k {
                let i = choose|i: int| 0 <= i < s.len() && (#[trigger] s[i]).0 == k;
                assert(d[i].0 == k);
            }
        }
    }
}

/// With distinct keys, each entry gives its key's value.
proof fn lemma_entries_at<K, V>(s: Seq<(K, V)>, i: int)
    requires
        distinct_keys(s),
        0 <= i < s.len(),
    ensures
        entries_map(s).contains_key(s[i].0),
        entries_map(s)[s[i].0] == s[i].1,
    decreases s.len(),
{
    if i < s.len() - 1 {
        lemma_entries_at(s.drop_last(), i);
    }
}

/// Replacing the value of the entry at `i` is insertion of its key.
proof fn lemma_entries_update<K, V>(s: Seq<(K, V)>, i: int, v: V)
    requires
        distinct_keys(s),
        0 <= i < s.len(),
    ensures
        entries_map(s.update(i, (s[i].0, v))) == entries_map(s).insert(s[i].0, v),
    decreases s.len(),
{
    let s2 = s.update(i, (s[i].0, v));
    if i == s.len() - 1 {
        assert(s2.drop_last() =~= s.drop_last());
        assert(entries_map(s.drop_last()).insert(s[i].0, s[i].1).insert(s[i].0, v)
            =~= entries_map(s.drop_last()).insert(s[i].0, v));
    } else {
        assert(s2.drop_last() =~= s.drop_last().update(i, (s[i].0, v)));
        lemma_entries_update(s.drop_last(), i, v);
        assert(s2.last() == s.last());
        assert(entries_map(s.drop_last()).insert(s[i].0, v).insert(s.last().0, s.last().1)
            =~= entries_map(s.drop_last()).insert(s.last().0, s.last().1).insert(s[i].0, v));
    }
}

/// With distinct keys the map holds exactly one key per entry.
proof fn lemma_entries_len<K, V>(s: Seq<(K, V)>)
    requires
        distinct_keys(s),
    ensures
        entries_map(s).dom().finite(),
        entries_map(s).dom().len() == s.len(),
    decreases s.len(),
{
    if s.len() == 0 {
        assert(entries_map(s).dom() =~= Set::<K>::empty());
    } else {
        let d = s.drop_last();
        lemma_entries_len(d);
        lemma_entries_key(d, s.last().0);
        assert(forall|i: int| 0 <= i < d.len() ==> (#[trigger] d[i]).0 != s.last().0);
        assert(!entries_map(d).dom().contains(s.last().0));
        assert(entries_map(s).dom() =~= entries_map(d).dom().insert(s.last().0));
    }
}

/// The set-detection result: for each tile value present in a hand, the
/// number of distinct suits holding that value.
pub struct ValueCounts {
    entries: Vec<(u8, usize)>,
}

impl View for ValueCounts {
    type V = Map<u8, usize>;

    closed spec fn view(&self) -> Map<u8, usize> {
        entries_map(self.entries@)
    }
}

impl ValueCounts {
    /// Well-formedness: no key occurs twice. Constructors establish it
    /// and every method preserves it.
    pub closed spec fn wf(&self) -> bool {
        distinct_keys(self.entries@)
    }

    /// The empty result.
    pub fn new() -> (counts: ValueCounts)
        ensures
            counts.wf(),
            counts@ == Map::<u8, usize>::empty(),
    {
        ValueCounts { entries: Vec::new() }
    }

    /// The count recorded for a value, if any.
    pub fn get(&self, value: u8) -> (count: Option<usize>)
        requires
            self.wf(),
        ensures
            count == (if self@.contains_key(value) {
                Some(self@[value])
            } else {
                None
            }),
    {
        let mut i: usize = 0;
        while i < self.entries.len()
            invariant
                i <= self.entries@.len(),
                distinct_keys(self.entries@),
                self@ == entries_map(self.entries@),
                forall|n: int| 0 <= n < i ==> (#[trigger] self.entries@[n]).0 != value,
            decreases self.entries@.len() - i,
        {
            let e = self.entries[i];
            if e.0 == value {
                proof {
                    lemma_entries_at(self.entries@, i as int);
                }
                return Some(e.1);
            }
            i = i + 1;
        }
        proof {
            lemma_entries_key(self.entries@, value);
        }
        None
    }

    /// How many distinct values have a recorded count.
    pub fn len(&self) -> (n: usize)
        requires
            self.wf(),
        ensures
            n == self@.dom().len(),
    {
        proof {
            lemma_entries_len(self.entries@);
        }
        self.entries.len()
    }

    /// Raises the value's count by one, starting it at one when absent.
    pub fn bump(&mut self, value: u8)
        requires
            old(self).wf(),
            old(self)@.contains_key(value) ==> old(self)@[value] < usize::MAX,
        ensures
            final(self).wf(),
            !old(self)@.contains_key(value) ==> final(self)@ == old(self)@.insert(value, 1),
            old(self)@.contains_key(value) ==> final(self)@ == old(self)@.insert(
                value,
                (old(self)@[value] + 1) as usize,
            ),
    {
        let ghost orig = self.entries@;
        let mut i: usize = 0;
        while i < self.entries.len()
            invariant
                i <= self.entries@.len(),
                self.entries@ == orig,
                distinct_keys(orig),
                old(self)@ == entries_map(orig),
                old(self)@.contains_key(value) ==> old(self)@[value] < usize::MAX,
                forall|n: int| 0 <= n < i ==> (#[trigger] orig[n]).0 != value,
            decreases self.entries@.len() - i,
        {
            let e = self.entries[i];
            if e.0 == value {
                proof {
                    lemma_entries_at(orig, i as int);
                }
                let raised = e.1 + 1;
                self.entries.remove(i);
                self.entries.insert(i, (value, raised));
                proof {
                    assert(self.entries@ =~= orig.update(i as int, (value, raised)));
                    lemma_entries_update(orig, i as int, raised);
                    assert forall|a: int, b: int|
                        0 <= a < b < self.entries@.len() implies (#[trigger] self.entries@[a]).0
                        != (#[trigger] self.entries@[b]).0 by {
                        assert(self.entries@[a].0 == orig[a].0);
                        assert(self.entries@[b].0 == orig[b].0);
                    }
                }
                return ;
            }
            i = i + 1;
        }
        proof {
            lemma_entries_key(orig, value);
        }
        self.entries.push((value, 1));
        proof {
            assert(self.entries@.drop_last() =~= orig);
        }
    }
}

/// The run-detection result: for each starting tile of a detected run,
/// the recorded span (run length minus one).
pub struct RunMap {
    entries: Vec<(Tile, u8)>,
}

impl View for RunMap {
    type V = Map<Tile, u8>;

    closed spec fn view(&self) -> Map<Tile, u8> {
        entries_map(self.entries@)
    }
}

impl RunMap {
    /// Well-formedness: no key occurs twice. Constructors establish it
    /// and every method preserves it.
    pub closed spec fn wf(&self) -> bool {
        distinct_keys(self.entries@)
    }

    /// The empty result.
    pub fn new() -> (runs: RunMap)
        ensures
            runs.wf(),
            runs@ == Map::<Tile, u8>::empty(),
    {
        RunMap { entries: Vec::new() }
    }

    /// The span recorded for a starting tile, if any.
    pub fn get(&self, start: Tile) -> (span: Option<u8>)
        requires
            self.wf(),
        ensures
            span == (if self@.contains_key(start) {
                Some(self@[start])
            } else {
                None
            }),
    {
        let mut i: usize = 0;
        while i < self.entries.len()
            invariant
                i <= self.entries@.len(),
                distinct_keys(self.entries@),
                self@ == entries_map(self.entries@),
                forall|n: int| 0 <= n < i ==> (#[trigger] self.entries@[n]).0 != start,
            decreases self.entries@.len() - i,
        {
            let e = self.entries[i];
            if e.0 == start {
                proof {
                    lemma_entries_at(self.entries@, i as int);
                }
                return Some(e.1);
            }
            i = i + 1;
        }
        proof {
            lemma_entries_key(self.entries@, start);
        }
        None
    }

    /// How many starting tiles have a recorded span.
    pub fn len(&self) -> (n: usize)
        requires
            self.wf(),
        ensures
            n == self@.dom().len(),
    {
        proof {
            lemma_entries_len(self.entries@);
        }
        self.entries.len()
    }

    /// Records the span for a starting tile, overwriting a prior entry.
    pub fn insert(&mut self, start: Tile, span: u8)
        requires
            old(self).wf(),
        ensures
            final(self).wf(),
            final(self)@ == old(self)@.insert(start, span),
    {
        let ghost orig = self.entries@;
        let mut i: usize = 0;
        while i < self.entries.len()
            invariant
                i <= self.entries@.len(),
                self.entries@ == orig,
                distinct_keys(orig),
                old(self)@ == entries_map(orig),
                forall|n: int| 0 <= n < i ==> (#[trigger] orig[n]).0 != start,
            decreases self.entries@.len() - i,
        {
            let e = self.entries[i];
            if e.0 == start {
                self.entries.remove(i);
                self.entries.insert(i, (start, span));
                proof {
                    assert(self.entries@ =~= orig.update(i as int, (start, span)));
                    lemma_entries_update(orig, i as int, span);
                    assert forall|a: int, b: int|
                        0 <= a < b < self.entries@.len() implies (#[trigger] self.entries@[a]).0
                        != (#[trigger] self.entries@[b]).0 by {
                        assert(self.entries@[a].0 == orig[a].0);
                        assert(self.entries@[b].0 == orig[b].0);
                    }
                }
                return ;
            }
            i = i + 1;
        }
        proof {
            lemma_entries_key(orig, start);
        }
        self.entries.push((start, span));
        proof {
            assert(self.entries@.drop_last() =~= orig);
        }
    }
}

} // verus!
