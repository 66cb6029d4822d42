//! The set detector: groups the hand's tiles by equal value and counts,
//! for each value present, how many distinct suits hold it. Exact
//! duplicate tiles are collapsed first, so each suit is counted once.

use vstd::prelude::*;

use crate::dedup::dedup_tiles;
use crate::maps::ValueCounts;
use crate::order::lemma_filter_membership;
use crate::order::lemma_filter_no_duplicates;
use crate::order::value_pred;
use crate::tile::Tile;

verus! {

broadcast use vstd::seq_lib::group_filter_ensures;

/// The hand holds at least one tile of this value.
pub open spec fn has_value(h: Seq<Tile>, v: u8) -> bool {
    exists|i: int| 0 <= i < h.len() && (#[trigger] h[i]).value == v
}

/// The distinct tiles of the hand carrying this value: one per suit that
/// holds the value.
pub open spec fn distinct_value_tiles(h: Seq<Tile>, v: int) -> Set<Tile> {
    h.to_set().filter(value_pred(v))
}

/// The number of distinct suits holding this value in the hand.
pub open spec fn suit_count(h: Seq<Tile>, v: int) -> nat {
    distinct_value_tiles(h, v).len()
}

/// Detects sets: the result maps each tile value present in the hand to
/// the number of distinct suits holding it, duplicate (value, suit) pairs
/// collapsed beforehand. An empty hand yields an empty map.
pub fn find_sets(hand: &Vec<Tile>) -> (counts: ValueCounts)
    ensures
        counts.wf(),
        forall|v: u8| #[trigger] counts@.contains_key(v) <==> has_value(hand@, v),
        forall|v: u8| #[trigger] counts@.contains_key(v) ==> counts@[v] == suit_count(
            hand@,
            v as int,
        ),
{
    let dd = dedup_tiles(hand);
    let mut counts = ValueCounts::new();
    let mut j: usize = 0;
    while j < dd.len()
        invariant
            j <= dd@.len(),
            counts.wf(),
            dd@.no_duplicates(),
            forall|x: Tile| dd@.contains(x) <==> hand@.contains(x),
            forall|v: u8| #[trigger] counts@.contains_key(v) <==> exists|n: int|
                0 <= n < j && (#[trigger] dd@[n]).value == v,
            forall|v: u8| #[trigger] counts@.contains_key(v) ==> counts@[v] == dd@.take(
                j as int,
            ).filter(value_pred(v as int)).len(),
        decreases dd@.len() - j,
    {
        let t = dd[j];
        let ghost prefix = dd@.take(j as int);
        let ghost before = counts@;
        proof {
            assert(prefix.len() == j);
            if counts@.contains_key(t.value) {
                assert(counts@[t.value] == prefix.filter(value_pred(t.value as int)).len());
                assert(prefix.filter(value_pred(t.value as int)).len() <= prefix.len());
            }
        }
        counts.bump(t.value);
        j = j + 1;
        proof {
            assert(dd@.take(j as int) =~= prefix.push(t));
            assert forall|v: u8| #[trigger] counts@.contains_key(v) <==> exists|n: int|
                0 <= n < j && (#[trigger] dd@[n]).value == v by {
                if v == t.value {
                    assert(dd@[j - 1].value == v);
                } else {
                    assert(counts@.contains_key(v) <==> before.contains_key(v));
                    if exists|n: int| 0 <= n < j && (#[trigger] dd@[n]).value == v {
                        let n = choose|n: int| 0 <= n < j && (#[trigger] dd@[n]).value == v;
                        assert(n < j - 1);
                    }
                }
            }
            assert forall|v: u8| #[trigger] counts@.contains_key(v) implies counts@[v] == dd@.take(
                j as int,
            ).filter(value_pred(v as int)).len() by {
                prefix.lemma_filter_push(t, value_pred(v as int));
                if v == t.value {
                    if !before.contains_key(v) {
                        assert forall|n: int|
                            0 <= n < prefix.len() implies !value_pred(v as int)(
                            #[trigger] prefix[n],
                        ) by {
                            assert(dd@[n].value != v);
                        }
                        assert(prefix.all(|x: Tile| !value_pred(v as int)(x)));
                        prefix.lemma_all_neg_filter_empty(value_pred(v as int));
                    }
                }
            }
        }
    }
    proof {
        assert(dd@.take(dd@.len() as int) =~= dd@);
        assert forall|v: u8| #[trigger] counts@.contains_key(v) <==> has_value(hand@, v) by {
            if counts@.contains_key(v) {
                let n = choose|n: int| 0 <= n < dd@.len() && (#[trigger] dd@[n]).value == v;
                assert(dd@.contains(dd@[n]));
                assert(hand@.contains(dd@[n]));
                let m = choose|m: int| 0 <= m < hand@.len() && hand@[m] == dd@[n];
                assert(hand@[m].value == v);
            }
            if has_value(hand@, v) {
                let m = choose|m: int| 0 <= m < hand@.len() && (#[trigger] hand@[m]).value == v;
                assert(hand@.contains(hand@[m]));
                assert(dd@.contains(hand@[m]));
                let n = choose|n: int| 0 <= n < dd@.len() && dd@[n] == hand@[m];
                assert(dd@[n].value == v);
            }
        }
        assert forall|v: u8| #[trigger] counts@.contains_key(v) implies counts@[v] == suit_count(
            hand@,
            v as int,
        ) by {
            let p = value_pred(v as int);
            lemma_filter_no_duplicates(dd@, p);
            dd@.filter(p).unique_seq_to_set();
            assert forall|x: Tile| dd@.filter(p).to_set().contains(x) <==> distinct_value_tiles(
                hand@,
                v as int,
            ).contains(x) by {
                lemma_filter_membership(dd@, p, x);
            }
            assert(dd@.filter(p).to_set() =~= distinct_value_tiles(hand@, v as int));
        }
    }
    counts
}

} // verus!
