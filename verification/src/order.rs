//! The two sort keys of a tile, the orderings they induce on tile
//! sequences, and facts about `Seq::filter` that the sorters, the
//! deduplicator and the detectors share.

use vstd::prelude::*;

use crate::tile::suit_rank;
use crate::tile::Tile;

verus! {

broadcast use vstd::seq_lib::group_filter_ensures;

/// Tiles with exactly the given value.
pub open spec fn value_pred(v: int) -> spec_fn(Tile) -> bool {
    |t: Tile| t.value as int == v
}

/// Tiles whose suit has exactly the given rank.
pub open spec fn suit_pred(r: int) -> spec_fn(Tile) -> bool {
    |t: Tile| suit_rank(t.suit) == r
}

/// The two projections the sorters order by.
#[derive(Clone, Copy, PartialEq, Eq, Structural, Debug)]
pub enum SortKey {
    ByValue,
    BySuit,
}

/// The numeric key a sort compares tiles by.
pub open spec fn key_of(k: SortKey, t: Tile) -> int {
    match k {
        SortKey::ByValue => t.value as int,
        SortKey::BySuit => suit_rank(t.suit),
    }
}

/// Tiles whose sort key equals `v`; one tie group of a stable sort.
pub open spec fn key_pred(k: SortKey, v: int) -> spec_fn(Tile) -> bool {
    match k {
        SortKey::ByValue => value_pred(v),
        SortKey::BySuit => suit_pred(v),
    }
}

/// Ascending (not necessarily strictly) under the given sort key.
pub open spec fn sorted_by(k: SortKey, s: Seq<Tile>) -> bool {
    forall|i: int, j: int|
        0 <= i < j < s.len() ==> key_of(k, #[trigger] s[i]) <= key_of(k, #[trigger] s[j])
}

/// A stable sort keeps each tie group: the subsequence of tiles with any
/// one key value is exactly the same in `a` and in `b`.
pub open spec fn same_groups(k: SortKey, a: Seq<Tile>, b: Seq<Tile>) -> bool {
    forall|v: int| #[trigger] b.filter(key_pred(k, v)) == a.filter(key_pred(k, v))
}

/// The lexicographic order suit-first, value-second: the shape a hand has
/// after sorting by value and then (stably) by suit.
pub open spec fn lex_leq(a: Tile, b: Tile) -> bool {
    suit_rank(a.suit) < suit_rank(b.suit) || (suit_rank(a.suit) == suit_rank(b.suit)
        && a.value <= b.value)
}

/// Ascending under the suit-first lexicographic order: grouped by suit,
/// ascending values within each group.
pub open spec fn lex_sorted(s: Seq<Tile>) -> bool {
    forall|i: int, j: int| 0 <= i < j < s.len() ==> lex_leq(#[trigger] s[i], #[trigger] s[j])
}

/// Membership in a tie group is exactly equality of the sort key.
pub proof fn lemma_key_pred_is_key(k: SortKey, v: int, t: Tile)
    ensures
        key_pred(k, v)(t) <==> key_of(k, t) == v,
{
    match k {
        SortKey::ByValue => assert(value_pred(v)(t) <==> t.value as int == v),
        SortKey::BySuit => assert(suit_pred(v)(t) <==> suit_rank(t.suit) == v),
    }
}

/// A tile is in the filtered sequence exactly when it is in the original
/// one and satisfies the predicate.
pub proof fn lemma_filter_membership(s: Seq<Tile>, p: spec_fn(Tile) -> bool, x: Tile)
    ensures
        s.filter(p).contains(x) <==> (s.contains(x) && p(x)),
{
    if s.filter(p).contains(x) {
        s.lemma_filter_contains_rev(p, x);
        let i = choose|i: int| 0 <= i < s.filter(p).len() && s.filter(p)[i] == x;
        assert(p(s.filter(p)[i]));
    }
    if s.contains(x) && p(x) {
        let i = choose|i: int| 0 <= i < s.len() && s[i] == x;
        s.lemma_filter_contains(p, i);
    }
}

/// Sequences with the same tie groups hold the same tiles.
pub proof fn lemma_same_groups_membership(k: SortKey, a: Seq<Tile>, b: Seq<Tile>)
    requires
        same_groups(k, a, b),
    ensures
        forall|x: Tile| a.contains(x) <==> b.contains(x),
{
    assert forall|x: Tile| a.contains(x) <==> b.contains(x) by {
        let v = key_of(k, x);
        lemma_key_pred_is_key(k, v, x);
        lemma_filter_membership(a, key_pred(k, v), x);
        lemma_filter_membership(b, key_pred(k, v), x);
        assert(b.filter(key_pred(k, v)) == a.filter(key_pred(k, v)));
    }
}

/// Filtering a sequence that is sorted under a key leaves it sorted.
pub proof fn lemma_filter_sorted_key(k: SortKey, s: Seq<Tile>, p: spec_fn(Tile) -> bool)
    requires
        sorted_by(k, s),
    ensures
        sorted_by(k, s.filter(p)),
    decreases s.len(),
{
    reveal(Seq::filter);
    if s.len() > 0 {
        let d = s.drop_last();
        assert(sorted_by(k, d));
        lemma_filter_sorted_key(k, d, p);
        if p(s.last()) {
            let f = d.filter(p);
            assert forall|i: int, j: int|
                0 <= i < j < s.filter(p).len() implies key_of(k, #[trigger] s.filter(p)[i])
                <= key_of(k, #[trigger] s.filter(p)[j]) by {
                if j < f.len() {
                    assert(s.filter(p)[i] == f[i] && s.filter(p)[j] == f[j]);
                } else {
                    assert(s.filter(p)[j] == s.last());
                    assert(f.contains(f[i]));
                    d.lemma_filter_contains_rev(p, f[i]);
                    let n = choose|n: int| 0 <= n < d.len() && d[n] == f[i];
                    assert(s[n] == f[i] && s.filter(p)[i] == f[i]);
                }
            }
        }
    }
}

/// Filtering a lexicographically sorted sequence leaves it sorted.
pub proof fn lemma_filter_lex_sorted(s: Seq<Tile>, p: spec_fn(Tile) -> bool)
    requires
        lex_sorted(s),
    ensures
        lex_sorted(s.filter(p)),
    decreases s.len(),
{
    reveal(Seq::filter);
    if s.len() > 0 {
        let d = s.drop_last();
        assert(lex_sorted(d));
        lemma_filter_lex_sorted(d, p);
        if p(s.last()) {
            let f = d.filter(p);
            assert forall|i: int, j: int|
                0 <= i < j < s.filter(p).len() implies lex_leq(
                #[trigger] s.filter(p)[i],
                #[trigger] s.filter(p)[j],
            ) by {
                if j < f.len() {
                    assert(s.filter(p)[i] == f[i] && s.filter(p)[j] == f[j]);
                } else {
                    assert(s.filter(p)[j] == s.last());
                    assert(f.contains(f[i]));
                    d.lemma_filter_contains_rev(p, f[i]);
                    let n = choose|n: int| 0 <= n < d.len() && d[n] == f[i];
                    assert(s[n] == f[i] && s.filter(p)[i] == f[i]);
                }
            }
        }
    }
}

/// Filtering a sequence with no duplicate elements leaves no duplicates.
pub proof fn lemma_filter_no_duplicates(s: Seq<Tile>, p: spec_fn(Tile) -> bool)
    requires
        s.no_duplicates(),
    ensures
        s.filter(p).no_duplicates(),
    decreases s.len(),
{
    reveal(Seq::filter);
    if s.len() > 0 {
        let d = s.drop_last();
        assert(d.no_duplicates());
        lemma_filter_no_duplicates(d, p);
        if p(s.last()) {
            let f = d.filter(p);
            assert forall|i: int, j: int|
                0 <= i < f.len() + 1 && 0 <= j < f.len() + 1 && i != j implies s.filter(p)[i]
                != s.filter(p)[j] by {
                if i < f.len() && j < f.len() {
                } else {
                    let m = if i < f.len() { i } else { j };
                    assert(f.contains(f[m]));
                    d.lemma_filter_contains_rev(p, f[m]);
                    let n = choose|n: int| 0 <= n < d.len() && d[n] == f[m];
                    assert(s[n] == f[m] && s[s.len() - 1] == s.last());
                }
            }
        }
    }
}

/// The two filters of a sequence commute.
pub proof fn lemma_filter_commute(s: Seq<Tile>, p: spec_fn(Tile) -> bool, q: spec_fn(
    Tile,
) -> bool)
    ensures
        s.filter(p).filter(q) == s.filter(q).filter(p),
    decreases s.len(),
{
    reveal(Seq::filter);
    if s.len() > 0 {
        let d = s.drop_last();
        let last = s.last();
        lemma_filter_commute(d, p, q);
        if p(last) {
            d.filter(p).lemma_filter_push(last, q);
        }
        if q(last) {
            d.filter(q).lemma_filter_push(last, p);
        }
    }
}

/// A sequence head that satisfies the predicate heads the filtered
/// sequence as well.
pub proof fn lemma_filter_first(s: Seq<Tile>, p: spec_fn(Tile) -> bool)
    requires
        s.len() > 0,
        p(s[0]),
    ensures
        s.filter(p).len() > 0,
        s.filter(p)[0] == s[0],
    decreases s.len(),
{
    reveal(Seq::filter);
    if s.len() == 1 {
        assert(s.drop_last() =~= Seq::<Tile>::empty());
    } else {
        let d = s.drop_last();
        assert(d[0] == s[0]);
        lemma_filter_first(d, p);
    }
}

/// A suit-sorted sequence whose per-suit groups are each value-sorted is
/// sorted suit-first lexicographically: this is the shape `sort_by_number`
/// followed by `sort_by_suit` produces.
pub proof fn lemma_lex_from_suit_and_value(s: Seq<Tile>)
    requires
        sorted_by(SortKey::BySuit, s),
        forall|r: int| sorted_by(SortKey::ByValue, #[trigger] s.filter(suit_pred(r))),
    ensures
        lex_sorted(s),
    decreases s.len(),
{
    reveal(Seq::filter);
    if s.len() > 0 {
        let d = s.drop_last();
        let last = s.last();
        assert(sorted_by(SortKey::BySuit, d));
        assert forall|r: int| sorted_by(SortKey::ByValue, #[trigger] d.filter(suit_pred(r))) by {
            let fs = s.filter(suit_pred(r));
            let fd = d.filter(suit_pred(r));
            assert forall|i: int, j: int|
                0 <= i < j < fd.len() implies key_of(SortKey::ByValue, #[trigger] fd[i]) <= key_of(
                SortKey::ByValue,
                #[trigger] fd[j],
            ) by {
                assert(fs[i] == fd[i] && fs[j] == fd[j]);
            }
        }
        lemma_lex_from_suit_and_value(d);
        let r = suit_rank(last.suit);
        assert forall|i: int| 0 <= i < s.len() - 1 implies lex_leq(#[trigger] s[i], last) by {
            if suit_rank(s[i].suit) == r {
                d.lemma_filter_contains(suit_pred(r), i);
                let fd = d.filter(suit_pred(r));
                let fs = s.filter(suit_pred(r));
                let q = choose|q: int| 0 <= q < fd.len() && fd[q] == s[i];
                assert(fs[q] == s[i]);
                assert(fs[fs.len() - 1] == last);
                assert(key_of(SortKey::ByValue, fs[q]) <= key_of(SortKey::ByValue, fs[fs.len() - 1]));
            }
        }
        assert forall|i: int, j: int|
            0 <= i < j < s.len() implies lex_leq(#[trigger] s[i], #[trigger] s[j]) by {
            if j < s.len() - 1 {
                assert(s[i] == d[i] && s[j] == d[j]);
            }
        }
    }
}

/// Two value-sorted sequences over one suit that agree on every per-value
/// group are equal: within one suit a value-sorted arrangement of given
/// tiles is unique.
pub proof fn lemma_value_sorted_unique(a: Seq<Tile>, b: Seq<Tile>, r: int)
    requires
        sorted_by(SortKey::ByValue, a),
        sorted_by(SortKey::ByValue, b),
        forall|i: int| 0 <= i < a.len() ==> suit_rank((#[trigger] a[i]).suit) == r,
        forall|i: int| 0 <= i < b.len() ==> suit_rank((#[trigger] b[i]).suit) == r,
        forall|v: int| #[trigger] a.filter(value_pred(v)) == b.filter(value_pred(v)),
    ensures
        a == b,
    decreases a.len(),
{
    reveal(Seq::filter);
    if a.len() == 0 && b.len() == 0 {
        assert(a =~= b);
    } else if a.len() == 0 {
        let v0 = b[0].value as int;
        lemma_filter_first(b, value_pred(v0));
        assert(a.filter(value_pred(v0)).len() == 0);
    } else if b.len() == 0 {
        let v0 = a[0].value as int;
        lemma_filter_first(a, value_pred(v0));
        assert(b.filter(value_pred(v0)).len() == 0);
    } else {
        let va = a[0].value as int;
        let vb = b[0].value as int;
        lemma_filter_first(a, value_pred(va));
        lemma_filter_first(b, value_pred(vb));
        assert(b.filter(value_pred(va)).contains(a[0]));
        b.lemma_filter_contains_rev(value_pred(va), a[0]);
        assert(a.filter(value_pred(vb)).contains(b[0]));
        a.lemma_filter_contains_rev(value_pred(vb), b[0]);
        let ia = choose|i: int| 0 <= i < a.len() && a[i] == b[0];
        let ib = choose|i: int| 0 <= i < b.len() && b[i] == a[0];
        assert(key_of(SortKey::ByValue, a[0]) <= key_of(SortKey::ByValue, a[ia]) || ia == 0);
        assert(key_of(SortKey::ByValue, b[0]) <= key_of(SortKey::ByValue, b[ib]) || ib == 0);
        assert(va == vb);
        assert(a[0].suit == b[0].suit);
        assert(a[0] == b[0]);
        let a1 = a.drop_first();
        let b1 = b.drop_first();
        assert(a =~= seq![a[0]] + a1);
        assert(b =~= seq![b[0]] + b1);
        assert forall|v: int| #[trigger] a1.filter(value_pred(v)) == b1.filter(value_pred(v)) by {
            Seq::filter_distributes_over_add(seq![a[0]], a1, value_pred(v));
            Seq::filter_distributes_over_add(seq![b[0]], b1, value_pred(v));
            assert(seq![a[0]].drop_last() =~= Seq::<Tile>::empty());
            let fa = a1.filter(value_pred(v));
            let fb = b1.filter(value_pred(v));
            let head = seq![a[0]].filter(value_pred(v));
            assert(head + fa == head + fb);
            assert forall|n: int| 0 <= n < fa.len() implies fa[n] == fb[n] by {
                assert((head + fa)[head.len() + n] == fa[n]);
                assert((head + fb)[head.len() + n] == fb[n]);
            }
            assert(fa.len() == fb.len());
            assert(fa =~= fb);
        }
        assert(sorted_by(SortKey::ByValue, a1));
        assert(sorted_by(SortKey::ByValue, b1));
        lemma_value_sorted_unique(a1, b1, r);
        assert(a =~= b);
    }
}

/// Two suit-sorted sequences that agree on every per-suit group are equal:
/// a suit-grouped arrangement with fixed within-group order is unique.
pub proof fn lemma_suit_grouped_unique(a: Seq<Tile>, b: Seq<Tile>)
    requires
        sorted_by(SortKey::BySuit, a),
        sorted_by(SortKey::BySuit, b),
        forall|r: int| #[trigger] a.filter(suit_pred(r)) == b.filter(suit_pred(r)),
    ensures
        a == b,
    decreases a.len(),
{
    reveal(Seq::filter);
    if a.len() == 0 && b.len() == 0 {
        assert(a =~= b);
    } else if a.len() == 0 {
        let r0 = suit_rank(b[0].suit);
        lemma_filter_first(b, suit_pred(r0));
        assert(a.filter(suit_pred(r0)).len() == 0);
    } else if b.len() == 0 {
        let r0 = suit_rank(a[0].suit);
        lemma_filter_first(a, suit_pred(r0));
        assert(b.filter(suit_pred(r0)).len() == 0);
    } else {
        let ra = suit_rank(a[0].suit);
        let rb = suit_rank(b[0].suit);
        lemma_filter_first(a, suit_pred(ra));
        lemma_filter_first(b, suit_pred(rb));
        assert(b.filter(suit_pred(ra)).contains(a[0]));
        b.lemma_filter_contains_rev(suit_pred(ra), a[0]);
        assert(a.filter(suit_pred(rb)).contains(b[0]));
        a.lemma_filter_contains_rev(suit_pred(rb), b[0]);
        let ia = choose|i: int| 0 <= i < a.len() && a[i] == b[0];
        let ib = choose|i: int| 0 <= i < b.len() && b[i] == a[0];
        assert(key_of(SortKey::BySuit, a[0]) <= key_of(SortKey::BySuit, a[ia]) || ia == 0);
        assert(key_of(SortKey::BySuit, b[0]) <= key_of(SortKey::BySuit, b[ib]) || ib == 0);
        assert(ra == rb);
        assert(b[0] == b.filter(suit_pred(rb))[0]);
        assert(a[0] == b[0]);
        let a1 = a.drop_first();
        let b1 = b.drop_first();
        assert(a =~= seq![a[0]] + a1);
        assert(b =~= seq![b[0]] + b1);
        assert forall|r: int| #[trigger] a1.filter(suit_pred(r)) == b1.filter(suit_pred(r)) by {
            Seq::filter_distributes_over_add(seq![a[0]], a1, suit_pred(r));
            Seq::filter_distributes_over_add(seq![b[0]], b1, suit_pred(r));
            assert(seq![a[0]].drop_last() =~= Seq::<Tile>::empty());
            let fa = a1.filter(suit_pred(r));
            let fb = b1.filter(suit_pred(r));
            let head = seq![a[0]].filter(suit_pred(r));
            assert(head + fa == head + fb);
            assert forall|n: int| 0 <= n < fa.len() implies fa[n] == fb[n] by {
                assert((head + fa)[head.len() + n] == fa[n]);
                assert((head + fb)[head.len() + n] == fb[n]);
            }
            assert(fa.len() == fb.len());
            assert(fa =~= fb);
        }
        assert(sorted_by(SortKey::BySuit, a1));
        assert(sorted_by(SortKey::BySuit, b1));
        lemma_suit_grouped_unique(a1, b1);
        assert(a =~= b);
    }
}

} // verus!
