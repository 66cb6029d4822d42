//! The two sorters: stable insertion sorts by tile value and by suit.
//!
//! Each sorter's contract pins the result completely: the output is
//! ascending under the sort key, and every tie group — the subsequence of
//! tiles sharing one key value — is kept exactly as it was in the input.

use vstd::prelude::*;

use crate::order::key_of;
use crate::order::key_pred;
use crate::order::lemma_key_pred_is_key;
use crate::order::lemma_filter_commute;
use crate::order::lemma_filter_sorted_key;
use crate::order::lemma_suit_grouped_unique;
use crate::order::lemma_value_sorted_unique;
use crate::order::same_groups;
use crate::order::sorted_by;
use crate::order::suit_pred;
use crate::order::value_pred;
use crate::order::SortKey;
use crate::tile::suit_rank;
use crate::tile::Tile;

verus! {

broadcast use vstd::seq_lib::group_filter_ensures;

/// Executable counterpart of `key_of`.
fn key_rank(k: SortKey, t: Tile) -> (r: u8)
    ensures
        r as int == key_of(k, t),
{
    match k {
        SortKey::ByValue => t.value,
        SortKey::BySuit => t.suit.rank(),
    }
}

/// A fresh vector with the same tiles in the same order.
pub(crate) fn copy_tiles(v: &Vec<Tile>) -> (out: Vec<Tile>)
    ensures
        out@ == v@,
{
    let mut out: Vec<Tile> = Vec::new();
    let mut i: usize = 0;
    while i < v.len()
        invariant
            i <= v@.len(),
            out@ == v@.take(i as int),
        decreases v@.len() - i,
    {
        out.push(v[i]);
        proof {
            assert(out@ =~= v@.take(i + 1));
        }
        i = i + 1;
    }
    proof {
        assert(v@.take(v@.len() as int) =~= v@);
    }
    out
}

/// Inserts `t` behind every tile whose key is at most `t`'s, keeping the
/// vector sorted and extending exactly `t`'s own tie group by `t`.
fn insert_sorted(k: SortKey, out: &mut Vec<Tile>, t: Tile)
    requires
        sorted_by(k, old(out)@),
    ensures
        sorted_by(k, final(out)@),
        final(out)@.len() == old(out)@.len() + 1,
        forall|v: int|
            #[trigger] final(out)@.filter(key_pred(k, v)) == (if v == key_of(k, t) {
                old(out)@.filter(key_pred(k, v)).push(t)
            } else {
                old(out)@.filter(key_pred(k, v))
            }),
{
    let kt = key_rank(k, t);
    let mut p: usize = out.len();
    while p > 0 && key_rank(k, out[p - 1]) > kt
        invariant
            p <= out@.len(),
            out@ == old(out)@,
            kt as int == key_of(k, t),
            forall|i: int| p <= i < out@.len() ==> key_of(k, #[trigger] out@[i]) > key_of(k, t),
        decreases p,
    {
        p = p - 1;
    }
    let ghost before = out@;
    out.insert(p, t);
    proof {
        let a = before.take(p as int);
        let b = before.skip(p as int);
        assert(before =~= a + b);
        assert(out@ =~= a + seq![t] + b);
        assert forall|i: int| 0 <= i < p implies key_of(k, #[trigger] before[i]) <= key_of(
            k,
            t,
        ) by {
            assert(key_of(k, before[i]) <= key_of(k, before[p - 1]) || i == p - 1);
        }
        assert forall|i: int, j: int|
            0 <= i < j < out@.len() implies key_of(k, #[trigger] out@[i]) <= key_of(
            k,
            #[trigger] out@[j],
        ) by {
            assert(forall|n: int| 0 <= n < p ==> out@[n] == before[n]);
            assert(out@[p as int] == t);
            assert(forall|n: int| p < n < out@.len() ==> out@[n] == before[n - 1]);
        }
        assert forall|v: int|
            #[trigger] out@.filter(key_pred(k, v)) == (if v == key_of(k, t) {
                before.filter(key_pred(k, v)).push(t)
            } else {
                before.filter(key_pred(k, v))
            }) by {
            let pr = key_pred(k, v);
            reveal_with_fuel(Seq::filter, 3);
            Seq::filter_distributes_over_add(a + seq![t], b, pr);
            Seq::filter_distributes_over_add(a, seq![t], pr);
            Seq::filter_distributes_over_add(a, b, pr);
            assert(seq![t].drop_last() =~= Seq::<Tile>::empty());
            if v == key_of(k, t) {
                lemma_key_pred_is_key(k, v, t);
                assert forall|i: int| 0 <= i < b.len() implies !pr(#[trigger] b[i]) by {
                    lemma_key_pred_is_key(k, v, b[i]);
                }
                assert(b.all(|x: Tile| !pr(x)));
                b.lemma_all_neg_filter_empty(pr);
                assert(seq![t].filter(pr) =~= seq![t]);
                assert(out@.filter(pr) =~= before.filter(pr).push(t));
            } else {
                lemma_key_pred_is_key(k, v, t);
                assert(seq![t].filter(pr) =~= Seq::<Tile>::empty());
                assert(out@.filter(pr) =~= before.filter(pr));
            }
        }
    }
}

/// The shared sorter: a stable insertion sort under the given key.
fn stable_sort_with(k: SortKey, hand: &Vec<Tile>) -> (out: Vec<Tile>)
    ensures
        sorted_by(k, out@),
        same_groups(k, hand@, out@),
        out@.len() == hand@.len(),
{
    let mut out: Vec<Tile> = Vec::new();
    proof {
        assert(out@ =~= hand@.take(0));
    }
    let mut j: usize = 0;
    while j < hand.len()
        invariant
            j <= hand@.len(),
            out@.len() == j,
            sorted_by(k, out@),
            forall|v: int|
                #[trigger] out@.filter(key_pred(k, v)) == hand@.take(j as int).filter(
                    key_pred(k, v),
                ),
        decreases hand@.len() - j,
    {
        let t = hand[j];
        let ghost prefix = hand@.take(j as int);
        insert_sorted(k, &mut out, t);
        proof {
            assert(hand@.take(j + 1) =~= prefix.push(t));
            assert forall|v: int|
                #[trigger] out@.filter(key_pred(k, v)) == hand@.take(j + 1).filter(
                    key_pred(k, v),
                ) by {
                prefix.lemma_filter_push(t, key_pred(k, v));
            }
        }
        j = j + 1;
    }
    proof {
        assert(hand@.take(hand@.len() as int) =~= hand@);
    }
    out
}

/// Sorts the hand ascending by tile value, stably: tiles of equal value
/// keep their relative order. The hand is reordered in place and a fresh
/// copy of the sorted hand is returned.
pub fn sort_by_number(hand: &mut Vec<Tile>) -> (sorted: Vec<Tile>)
    ensures
        sorted_by(SortKey::ByValue, final(hand)@),
        same_groups(SortKey::ByValue, old(hand)@, final(hand)@),
        final(hand)@.len() == old(hand)@.len(),
        sorted@ == final(hand)@,
{
    let out = stable_sort_with(SortKey::ByValue, hand);
    let copy = copy_tiles(&out);
    *hand = out;
    copy
}

/// Sorts the hand ascending by the canonical suit order, stably: tiles of
/// one suit keep their relative order. Applied after `sort_by_number` this
/// groups the hand by suit with ascending values inside each group. The
/// hand is reordered in place and a fresh copy is returned.
pub fn sort_by_suit(hand: &mut Vec<Tile>) -> (sorted: Vec<Tile>)
    ensures
        sorted_by(SortKey::BySuit, final(hand)@),
        same_groups(SortKey::BySuit, old(hand)@, final(hand)@),
        final(hand)@.len() == old(hand)@.len(),
        sorted@ == final(hand)@,
{
    let out = stable_sort_with(SortKey::BySuit, hand);
    let copy = copy_tiles(&out);
    *hand = out;
    copy
}

/// Sorting by value and then by suit is idempotent: if `s1` came out of
/// the sorter pair, `m` is `s1` sorted by value again, and `s2` is `m`
/// sorted by suit again, then `s2` is exactly `s1`. The hypotheses are
/// precisely the sorters' contracts, so re-applying the pair to its own
/// output changes nothing.
pub proof fn lemma_sort_pair_idempotent(s1: Seq<Tile>, m: Seq<Tile>, s2: Seq<Tile>)
    requires
        sorted_by(SortKey::BySuit, s1),
        forall|r: int| sorted_by(SortKey::ByValue, #[trigger] s1.filter(suit_pred(r))),
        sorted_by(SortKey::ByValue, m),
        same_groups(SortKey::ByValue, s1, m),
        sorted_by(SortKey::BySuit, s2),
        same_groups(SortKey::BySuit, m, s2),
    ensures
        s2 == s1,
{
    assert forall|r: int| #[trigger] s2.filter(suit_pred(r)) == s1.filter(suit_pred(r)) by {
        assert(s2.filter(key_pred(SortKey::BySuit, r)) == m.filter(key_pred(SortKey::BySuit, r)));
        lemma_filter_sorted_key(SortKey::ByValue, m, suit_pred(r));
        let fm = m.filter(suit_pred(r));
        let f1 = s1.filter(suit_pred(r));
        assert forall|i: int| 0 <= i < fm.len() implies suit_rank((#[trigger] fm[i]).suit)
            == r by {
            assert(suit_pred(r)(fm[i]));
        }
        assert forall|i: int| 0 <= i < f1.len() implies suit_rank((#[trigger] f1[i]).suit)
            == r by {
            assert(suit_pred(r)(f1[i]));
        }
        assert forall|v: int| #[trigger] fm.filter(value_pred(v)) == f1.filter(value_pred(v)) by {
            lemma_filter_commute(m, suit_pred(r), value_pred(v));
            lemma_filter_commute(s1, suit_pred(r), value_pred(v));
            assert(m.filter(key_pred(SortKey::ByValue, v)) == s1.filter(
                key_pred(SortKey::ByValue, v),
            ));
        }
        lemma_value_sorted_unique(fm, f1, r);
    }
    lemma_suit_grouped_unique(s2, s1);
}

} // verus!
