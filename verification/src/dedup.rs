//! Exact-duplicate removal: the first phase of both detectors' dedup-then-
//! scan pipeline. A hand drawn from a two-of-each stack can hold the same
//! (value, suit) tile twice; the detectors collapse such pairs first.

use vstd::prelude::*;

use crate::order::lex_leq;
use crate::order::lex_sorted;
use crate::tile::Tile;

verus! {

/// The subsequence of first occurrences: each tile of `s`, kept at its
/// earliest position only.
pub open spec fn dedup_spec(s: Seq<Tile>) -> Seq<Tile>
    decreases s.len(),
{
    if s.len() == 0 {
        s
    } else {
        let rest = dedup_spec(s.drop_last());
        if s.drop_last().contains(s.last()) {
            rest
        } else {
            rest.push(s.last())
        }
    }
}

/// Removing duplicates keeps exactly the tiles that were there.
pub proof fn lemma_dedup_membership(s: Seq<Tile>, x: Tile)
    ensures
        dedup_spec(s).contains(x) <==> s.contains(x),
    decreases s.len(),
{
    if s.len() > 0 {
        let d = s.drop_last();
        lemma_dedup_membership(d, x);
        assert(forall|i: int| 0 <= i < d.len() ==> #[trigger] d[i] == s[i]);
        assert(s[s.len() - 1] == s.last());
        if s.contains(x) {
            let i = choose|i: int| 0 <= i < s.len() && s[i] == x;
            if i < s.len() - 1 {
                assert(d[i] == x);
            }
        }
        if !d.contains(s.last()) {
            let r = dedup_spec(d);
            if r.push(s.last()).contains(x) {
                let i = choose|i: int| 0 <= i < r.len() + 1 && r.push(s.last())[i] == x;
                if i < r.len() {
                    assert(r[i] == x);
                }
            }
            if r.contains(x) {
                let i = choose|i: int| 0 <= i < r.len() && r[i] == x;
                assert(r.push(s.last())[i] == x);
            }
            if x == s.last() {
                assert(r.push(s.last())[r.len() as int] == x);
            }
        }
    }
}

/// The result of removing duplicates has no duplicates.
pub proof fn lemma_dedup_no_duplicates(s: Seq<Tile>)
    ensures
        dedup_spec(s).no_duplicates(),
    decreases s.len(),
{
    if s.len() > 0 {
        let d = s.drop_last();
        lemma_dedup_no_duplicates(d);
        if !d.contains(s.last()) {
            let r = dedup_spec(d);
            lemma_dedup_membership(d, s.last());
            assert(!r.contains(s.last()));
            assert forall|i: int, j: int|
                0 <= i < r.len() + 1 && 0 <= j < r.len() + 1 && i != j implies r.push(s.last())[i]
                != r.push(s.last())[j] by {
                if i < r.len() && j < r.len() {
                } else {
                    let m = if i < r.len() { i } else { j };
                    assert(r.push(s.last())[m] == r[m]);
                    assert(r.contains(r[m]));
                }
            }
        }
    }
}

/// Removing duplicates from a lexicographically sorted hand keeps it
/// sorted.
pub proof fn lemma_dedup_lex_sorted(s: Seq<Tile>)
    requires
        lex_sorted(s),
    ensures
        lex_sorted(dedup_spec(s)),
    decreases s.len(),
{
    if s.len() > 0 {
        let d = s.drop_last();
        assert(lex_sorted(d));
        lemma_dedup_lex_sorted(d);
        if !d.contains(s.last()) {
            let r = dedup_spec(d);
            assert forall|i: int| 0 <= i < r.len() implies lex_leq(#[trigger] r[i], s.last()) by {
                assert(r.contains(r[i]));
                lemma_dedup_membership(d, r[i]);
                let n = choose|n: int| 0 <= n < d.len() && d[n] == r[i];
                assert(s[n] == r[i]);
                assert(lex_leq(s[n], s[s.len() - 1]));
            }
            assert forall|i: int, j: int|
                0 <= i < j < r.len() + 1 implies lex_leq(
                #[trigger] r.push(s.last())[i],
                #[trigger] r.push(s.last())[j],
            ) by {
                if j < r.len() {
                    assert(r.push(s.last())[i] == r[i] && r.push(s.last())[j] == r[j]);
                } else {
                    assert(r.push(s.last())[i] == r[i]);
                }
            }
        }
    }
}

/// Whether the hand holds this exact tile.
pub fn contains_tile(hand: &Vec<Tile>, t: Tile) -> (found: bool)
    ensures
        found == hand@.contains(t),
{
    let mut i: usize = 0;
    while i < hand.len()
        invariant
            i <= hand@.len(),
            forall|n: int| 0 <= n < i ==> #[trigger] hand@[n] != t,
        decreases hand@.len() - i,
    {
        if hand[i] == t {
            return true;
        }
        i = i + 1;
    }
    false
}

/// Removes exact duplicates, keeping each tile's first occurrence in
/// place. The tiles present do not change, and a lexicographically sorted
/// hand stays sorted.
pub fn dedup_tiles(hand: &Vec<Tile>) -> (out: Vec<Tile>)
    ensures
        out@ == dedup_spec(hand@),
        forall|x: Tile| out@.contains(x) <==> hand@.contains(x),
        out@.no_duplicates(),
        lex_sorted(hand@) ==> lex_sorted(out@),
{
    let mut out: Vec<Tile> = Vec::new();
    proof {
        assert(out@ =~= dedup_spec(hand@.take(0)));
    }
    let mut j: usize = 0;
    while j < hand.len()
        invariant
            j <= hand@.len(),
            out@ == dedup_spec(hand@.take(j as int)),
        decreases hand@.len() - j,
    {
        let t = hand[j];
        let ghost prefix = hand@.take(j as int);
        proof {
            assert forall|x: Tile| out@.contains(x) <==> prefix.contains(x) by {
                lemma_dedup_membership(prefix, x);
            }
            assert(hand@.take(j + 1).drop_last() =~= prefix);
            assert(hand@.take(j + 1).last() == t);
        }
        let dup = contains_tile(&out, t);
        if !dup {
            out.push(t);
        }
        j = j + 1;
    }
    proof {
        assert(hand@.take(hand@.len() as int) =~= hand@);
        assert forall|x: Tile| out@.contains(x) <==> hand@.contains(x) by {
            lemma_dedup_membership(hand@, x);
        }
        lemma_dedup_no_duplicates(hand@);
        if lex_sorted(hand@) {
            lemma_dedup_lex_sorted(hand@);
        }
    }
    out
}

} // verus!
