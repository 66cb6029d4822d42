//! The run detector: finds, per ordinary suit, every window of 3 to 6
//! tiles with strictly consecutive values in the sorted, deduplicated
//! hand, and records each window's starting tile with its span (window
//! length minus one). Windows are scanned in ascending length, so when
//! several windows start at the same tile the longest one's span is the
//! one kept.

use vstd::prelude::*;

use crate::dedup::dedup_tiles;
use crate::maps::RunMap;
use crate::order::lemma_filter_lex_sorted;
use crate::order::lemma_filter_membership;
use crate::order::lemma_filter_no_duplicates;
use crate::order::lemma_filter_sorted_key;
use crate::order::lemma_lex_from_suit_and_value;
use crate::order::lemma_same_groups_membership;
use crate::order::lex_leq;
use crate::order::lex_sorted;
use crate::order::key_pred;
use crate::order::sorted_by;
use crate::order::suit_pred;
use crate::order::SortKey;
use crate::sort::copy_tiles;
use crate::sort::sort_by_number;
use crate::sort::sort_by_suit;
use crate::tile::is_ordinary;
use crate::tile::lemma_suit_rank_injective;
use crate::tile::suit_rank;
use crate::tile::Suit;
use crate::tile::Tile;

verus! {

broadcast use vstd::seq_lib::group_filter_ensures;

/// The hand holds a tile of this suit with this value.
pub open spec fn has_suit_value(h: Seq<Tile>, s: Suit, v: int) -> bool {
    exists|i: int|
        0 <= i < h.len() && (#[trigger] h[i]).suit == s && h[i].value as int == v
}

/// The `k` values starting at `t`'s value are all present in `t`'s suit:
/// `t` begins `k` strictly consecutive values.
pub open spec fn consec_from(h: Seq<Tile>, t: Tile, k: int) -> bool {
    forall|d: int| 0 <= d < k ==> #[trigger] has_suit_value(h, t.suit, t.value as int + d)
}

/// `t` starts a detected run: it is in the hand, of an ordinary suit, and
/// begins at least three consecutive values.
pub open spec fn starts_run(h: Seq<Tile>, t: Tile) -> bool {
    h.contains(t) && is_ordinary(t.suit) && consec_from(h, t, 3)
}

/// The span recorded for a starting tile: the longest window of length 3
/// to 6 beginning there, minus one. Scanning window lengths in ascending
/// order and overwriting leaves exactly this value.
pub open spec fn run_span(h: Seq<Tile>, t: Tile) -> int {
    if consec_from(h, t, 6) {
        5
    } else if consec_from(h, t, 5) {
        4
    } else if consec_from(h, t, 4) {
        3
    } else {
        2
    }
}

/// One suit's column of the preprocessed hand: the distinct tiles of suit
/// `s` from `h`, in strictly ascending value order.
pub open spec fn suit_column(u: Seq<Tile>, h: Seq<Tile>, s: Suit) -> bool {
    &&& forall|i: int, j: int|
        0 <= i < j < u.len() ==> (#[trigger] u[i]).value < (#[trigger] u[j]).value
    &&& forall|i: int| 0 <= i < u.len() ==> (#[trigger] u[i]).suit == s
    &&& forall|x: Tile| #[trigger] u.contains(x) <==> (h.contains(x) && x.suit == s)
}

/// A window of `k` consecutive positions starting at `q` whose first and
/// last values differ by exactly `k - 1`.
pub open spec fn win(u: Seq<Tile>, q: int, k: int) -> bool {
    &&& 0 <= q
    &&& q + k <= u.len()
    &&& u[q + k - 1].value - u[q].value == k - 1
}

/// The span of the longest valid window of length at most `kmax` starting
/// at `q`, or -1 when no window of length at least 3 is valid there.
pub open spec fn best_span_below(u: Seq<Tile>, q: int, kmax: int) -> int
    decreases kmax,
{
    if kmax < 3 {
        -1
    } else if win(u, q, kmax) {
        kmax - 1
    } else {
        best_span_below(u, q, kmax - 1)
    }
}

/// In a strictly ascending column, values grow at least as fast as
/// positions.
proof fn lemma_ascending_gap(u: Seq<Tile>, i: int, j: int)
    requires
        forall|a: int, b: int|
            0 <= a < b < u.len() ==> (#[trigger] u[a]).value < (#[trigger] u[b]).value,
        0 <= i <= j < u.len(),
    ensures
        u[j].value as int - u[i].value as int >= j - i,
    decreases j - i,
{
    if i < j {
        lemma_ascending_gap(u, i, j - 1);
    }
}

/// A value of the suit present in the hand sits somewhere in the column.
proof fn lemma_column_value_index(u: Seq<Tile>, h: Seq<Tile>, s: Suit, v: int)
    requires
        suit_column(u, h, s),
        has_suit_value(h, s, v),
    ensures
        exists|i: int| 0 <= i < u.len() && (#[trigger] u[i]).value as int == v,
{
    let i = choose|i: int|
        0 <= i < h.len() && (#[trigger] h[i]).suit == s && h[i].value as int == v;
    let x = h[i];
    assert(h.contains(x));
    assert(u.contains(x));
    let n = choose|n: int| 0 <= n < u.len() && u[n] == x;
    assert(u[n].value as int == v);
}

/// If `t = u[q]` begins `k` consecutive values of its suit, the column
/// holds them at the `k` positions from `q` on.
proof fn lemma_consec_window(u: Seq<Tile>, h: Seq<Tile>, s: Suit, q: int, k: int)
    requires
        suit_column(u, h, s),
        0 <= q < u.len(),
        1 <= k,
        consec_from(h, u[q], k),
    ensures
        q + k <= u.len(),
        forall|m: int|
            q <= m < q + k ==> (#[trigger] u[m]).value as int == u[q].value as int + (m - q),
    decreases k,
{
    if k > 1 {
        lemma_consec_window(u, h, s, q, k - 1);
        let v0 = u[q].value as int;
        assert(u[q].suit == s);
        assert(has_suit_value(h, s, v0 + (k - 1)));
        lemma_column_value_index(u, h, s, v0 + (k - 1));
        let m = choose|m: int| 0 <= m < u.len() && (#[trigger] u[m]).value as int == v0 + (k - 1);
        assert(u[q + k - 2].value as int == v0 + (k - 2));
        assert(m > q + k - 2) by {
            if m < q + k - 2 {
                assert(u[m].value < u[q + k - 2].value);
            }
        }
        assert(q + k <= u.len());
        assert(u[q + k - 1].value as int == v0 + (k - 1)) by {
            assert(u[q + k - 2].value < u[q + k - 1].value);
            if q + k - 1 < m {
                assert(u[q + k - 1].value < u[m].value);
            }
        }
    }
}

/// The window test over the column is exactly run contiguity in the hand:
/// the first and last of `k` window tiles differ by `k - 1` iff the `k`
/// values from the window's start are all present in the suit.
proof fn lemma_win_iff_consec(u: Seq<Tile>, h: Seq<Tile>, s: Suit, q: int, k: int)
    requires
        suit_column(u, h, s),
        0 <= q < u.len(),
        1 <= k,
    ensures
        win(u, q, k) <==> consec_from(h, u[q], k),
{
    if win(u, q, k) {
        assert forall|d: int|
            0 <= d < k implies #[trigger] has_suit_value(h, s, u[q].value as int + d) by {
            lemma_ascending_gap(u, q, q + d);
            lemma_ascending_gap(u, q + d, q + k - 1);
            assert(u[q + d].value as int == u[q].value as int + d);
            let x = u[q + d];
            assert(u.contains(x));
            assert(h.contains(x) && x.suit == s);
            let n = choose|n: int| 0 <= n < h.len() && h[n] == x;
            assert(h[n].suit == s && h[n].value as int == u[q].value as int + d);
        }
        assert(u[q].suit == s);
    }
    if consec_from(h, u[q], k) {
        lemma_consec_window(u, h, s, q, k);
        assert(u[q + k - 1].value as int == u[q].value as int + (k - 1));
    }
}

/// The preprocessed hand's tiles of one suit, in their order.
fn filter_suit(hand: &Vec<Tile>, s: Suit) -> (out: Vec<Tile>)
    ensures
        out@ == hand@.filter(suit_pred(suit_rank(s))),
{
    let r = s.rank();
    let mut out: Vec<Tile> = Vec::new();
    proof {
        reveal_with_fuel(Seq::filter, 2);
        assert(hand@.take(0) =~= Seq::<Tile>::empty());
        assert(out@ =~= hand@.take(0).filter(suit_pred(suit_rank(s))));
    }
    let mut j: usize = 0;
    while j < hand.len()
        invariant
            j <= hand@.len(),
            r as int == suit_rank(s),
            out@ == hand@.take(j as int).filter(suit_pred(suit_rank(s))),
        decreases hand@.len() - j,
    {
        let t = hand[j];
        let ghost prefix = hand@.take(j as int);
        if t.suit.rank() == r {
            out.push(t);
        }
        proof {
            assert(hand@.take(j + 1) =~= prefix.push(t));
            prefix.lemma_filter_push(t, suit_pred(suit_rank(s)));
        }
        j = j + 1;
    }
    proof {
        assert(hand@.take(hand@.len() as int) =~= hand@);
    }
    out
}

/// Filtering the sorted, deduplicated hand down to one suit gives that
/// suit's column: distinct tiles, strictly ascending values.
proof fn lemma_filtered_column(dd: Seq<Tile>, h: Seq<Tile>, s: Suit)
    requires
        lex_sorted(dd),
        dd.no_duplicates(),
        forall|x: Tile| #[trigger] dd.contains(x) <==> h.contains(x),
    ensures
        suit_column(dd.filter(suit_pred(suit_rank(s))), h, s),
{
    let p = suit_pred(suit_rank(s));
    let u = dd.filter(p);
    lemma_filter_lex_sorted(dd, p);
    lemma_filter_no_duplicates(dd, p);
    assert forall|i: int| 0 <= i < u.len() implies (#[trigger] u[i]).suit == s by {
        assert(p(u[i]));
        lemma_suit_rank_injective(u[i].suit, s);
    }
    assert forall|i: int, j: int|
        0 <= i < j < u.len() implies (#[trigger] u[i]).value < (#[trigger] u[j]).value by {
        assert(lex_leq(u[i], u[j]));
        assert(u[i].suit == s && u[j].suit == s);
        assert(u[i] != u[j]);
    }
    assert forall|x: Tile| #[trigger] u.contains(x) <==> (h.contains(x) && x.suit == s) by {
        lemma_filter_membership(dd, p, x);
        lemma_suit_rank_injective(x.suit, s);
    }
}

/// Slides windows of every length 3 to 6, ascending, over one suit's
/// column, recording each valid window's starting tile and span; a longer
/// window starting at the same tile overwrites the shorter one's span.
fn scan_suit(runs: &mut RunMap, u: &Vec<Tile>, Ghost(h): Ghost<Seq<Tile>>, s: Suit)
    requires
        old(runs).wf(),
        is_ordinary(s),
        suit_column(u@, h, s),
        forall|t: Tile| #[trigger] old(runs)@.contains_key(t) ==> t.suit != s,
    ensures
        final(runs).wf(),
        forall|t: Tile|
            t.suit == s ==> ((#[trigger] final(runs)@.contains_key(t)) <==> starts_run(h, t)),
        forall|t: Tile|
            t.suit == s && #[trigger] final(runs)@.contains_key(t) ==> final(runs)@[t] as int
                == run_span(h, t),
        forall|t: Tile|
            t.suit != s ==> ((#[trigger] final(runs)@.contains_key(t)) <==> old(
                runs,
            )@.contains_key(t)),
        forall|t: Tile|
            t.suit != s && #[trigger] final(runs)@.contains_key(t) ==> final(runs)@[t] == old(
                runs,
            )@[t],
{
    let ghost m0 = old(runs)@;
    let mut k: usize = 3;
    while k <= 6
        invariant
            3 <= k <= 7,
            runs.wf(),
            is_ordinary(s),
            suit_column(u@, h, s),
            forall|t: Tile| #[trigger] m0.contains_key(t) ==> t.suit != s,
            forall|t: Tile|
                !u@.contains(t) ==> ((#[trigger] runs@.contains_key(t)) <==> m0.contains_key(t)),
            forall|t: Tile|
                !u@.contains(t) && #[trigger] runs@.contains_key(t) ==> runs@[t] == m0[t],
            forall|q: int|
                0 <= q < u@.len() ==> (runs@.contains_key(#[trigger] u@[q]) <==> best_span_below(
                    u@,
                    q,
                    k - 1,
                ) >= 0),
            forall|q: int|
                0 <= q < u@.len() && runs@.contains_key(#[trigger] u@[q]) ==> runs@[u@[q]] as int
                    == best_span_below(u@, q, k - 1),
        decreases 7 - k,
    {
        if u.len() >= k {
            let bound = u.len() - k;
            let mut p: usize = 0;
            while p <= bound
                invariant
                    3 <= k <= 6,
                    u@.len() >= k,
                    u@.len() <= usize::MAX,
                    bound == u@.len() - k,
                    p <= bound + 1,
                    runs.wf(),
                    suit_column(u@, h, s),
                    forall|t: Tile| #[trigger] m0.contains_key(t) ==> t.suit != s,
                    forall|t: Tile|
                        !u@.contains(t) ==> ((#[trigger] runs@.contains_key(t))
                            <==> m0.contains_key(t)),
                    forall|t: Tile|
                        !u@.contains(t) && #[trigger] runs@.contains_key(t) ==> runs@[t] == m0[t],
                    forall|q: int|
                        0 <= q < p ==> (runs@.contains_key(#[trigger] u@[q]) <==> best_span_below(
                            u@,
                            q,
                            k as int,
                        ) >= 0),
                    forall|q: int|
                        0 <= q < p && runs@.contains_key(#[trigger] u@[q]) ==> runs@[u@[q]] as int
                            == best_span_below(u@, q, k as int),
                    forall|q: int|
                        p <= q < u@.len() ==> (runs@.contains_key(#[trigger] u@[q])
                            <==> best_span_below(u@, q, k - 1) >= 0),
                    forall|q: int|
                        p <= q < u@.len() && runs@.contains_key(#[trigger] u@[q]) ==> runs@[u@[q]]
                            as int == best_span_below(u@, q, k - 1),
                decreases bound + 1 - p,
            {
                let first = u[p];
                let last = u[p + k - 1];
                proof {
                    assert(u@[p as int].value < u@[p + k - 1].value);
                    assert forall|q: int| 0 <= q < u@.len() && q != p implies #[trigger] u@[q]
                        != u@[p as int] by {
                        if q < p {
                            assert(u@[q].value < u@[p as int].value);
                        } else {
                            assert(u@[p as int].value < u@[q].value);
                        }
                    }
                    assert(u@.contains(u@[p as int]));
                }
                let span = last.value - first.value;
                if span as usize == k - 1 {
                    runs.insert(first, span);
                    proof {
                        assert(win(u@, p as int, k as int));
                        assert(best_span_below(u@, p as int, k as int) == k - 1);
                    }
                } else {
                    proof {
                        assert(!win(u@, p as int, k as int));
                        assert(best_span_below(u@, p as int, k as int) == best_span_below(
                            u@,
                            p as int,
                            k - 1,
                        ));
                    }
                }
                p = p + 1;
            }
            proof {
                assert forall|q: int|
                    p <= q < u@.len() implies best_span_below(u@, q, k as int) == best_span_below(
                    u@,
                    q,
                    k - 1,
                ) by {
                    assert(!win(u@, q, k as int));
                }
            }
        } else {
            proof {
                assert forall|q: int|
                    0 <= q < u@.len() implies best_span_below(u@, q, k as int) == best_span_below(
                    u@,
                    q,
                    k - 1,
                ) by {
                    assert(!win(u@, q, k as int));
                }
            }
        }
        k = k + 1;
    }
    proof {
        assert forall|t: Tile|
            t.suit == s implies ((runs@.contains_key(t) <==> starts_run(h, t)) && (
        runs@.contains_key(t) ==> runs@[t] as int == run_span(h, t))) by {
            if u@.contains(t) {
                let q = choose|q: int| 0 <= q < u@.len() && u@[q] == t;
                lemma_win_iff_consec(u@, h, s, q, 3);
                lemma_win_iff_consec(u@, h, s, q, 4);
                lemma_win_iff_consec(u@, h, s, q, 5);
                lemma_win_iff_consec(u@, h, s, q, 6);
                assert(h.contains(t));
                assert(best_span_below(u@, q, 2) == -1);
                assert(best_span_below(u@, q, 3) == (if win(u@, q, 3) {
                    2int
                } else {
                    -1int
                }));
                assert(best_span_below(u@, q, 4) == (if win(u@, q, 4) {
                    3int
                } else {
                    best_span_below(u@, q, 3)
                }));
                assert(best_span_below(u@, q, 5) == (if win(u@, q, 5) {
                    4int
                } else {
                    best_span_below(u@, q, 4)
                }));
                assert(best_span_below(u@, q, 6) == (if win(u@, q, 6) {
                    5int
                } else {
                    best_span_below(u@, q, 5)
                }));
            } else {
                assert(!h.contains(t));
            }
        }
        assert forall|t: Tile| t.suit != s implies !u@.contains(t) by {
            if u@.contains(t) {
                let q = choose|q: int| 0 <= q < u@.len() && u@[q] == t;
                assert(u@[q].suit == s);
            }
        }
    }
}

/// Detects runs: the hand is sorted by value then by suit and exact
/// duplicates are removed; then, per ordinary suit, every window of 3 to
/// 6 positionally consecutive tiles whose first and last values differ by
/// exactly the window length minus one is recorded under its starting
/// tile with that difference as its span. Window lengths are scanned in
/// ascending order, so of several runs starting at one tile the longest
/// span is kept. An empty hand yields an empty map.
pub fn find_runs(hand: &Vec<Tile>) -> (runs: RunMap)
    ensures
        runs.wf(),
        forall|t: Tile| #[trigger] runs@.contains_key(t) <==> starts_run(hand@, t),
        forall|t: Tile| #[trigger] runs@.contains_key(t) ==> runs@[t] as int == run_span(
            hand@,
            t,
        ),
{
    let mut work = copy_tiles(hand);
    sort_by_number(&mut work);
    let ghost mid = work@;
    sort_by_suit(&mut work);
    proof {
        assert forall|r: int| sorted_by(SortKey::ByValue, #[trigger] work@.filter(suit_pred(r))) by {
            assert(work@.filter(key_pred(SortKey::BySuit, r)) == mid.filter(
                key_pred(SortKey::BySuit, r),
            ));
            lemma_filter_sorted_key(SortKey::ByValue, mid, suit_pred(r));
        }
        lemma_lex_from_suit_and_value(work@);
        lemma_same_groups_membership(SortKey::ByValue, hand@, mid);
        lemma_same_groups_membership(SortKey::BySuit, mid, work@);
    }
    let dd = dedup_tiles(&work);
    proof {
        assert(forall|x: Tile| #[trigger] dd@.contains(x) <==> hand@.contains(x));
        lemma_filtered_column(dd@, hand@, Suit::Blue);
        lemma_filtered_column(dd@, hand@, Suit::Red);
        lemma_filtered_column(dd@, hand@, Suit::Orange);
        lemma_filtered_column(dd@, hand@, Suit::Black);
    }
    let mut runs = RunMap::new();
    let u_blue = filter_suit(&dd, Suit::Blue);
    scan_suit(&mut runs, &u_blue, Ghost(hand@), Suit::Blue);
    let ghost m_blue = runs@;
    proof {
        assert forall|t: Tile| #[trigger] runs@.contains_key(t) implies t.suit == Suit::Blue by {
            if t.suit != Suit::Blue {
                assert(!Map::<Tile, u8>::empty().contains_key(t));
            }
        }
    }
    let u_red = filter_suit(&dd, Suit::Red);
    scan_suit(&mut runs, &u_red, Ghost(hand@), Suit::Red);
    let ghost m_red = runs@;
    proof {
        assert forall|t: Tile| #[trigger] runs@.contains_key(t) implies t.suit == Suit::Blue
            || t.suit == Suit::Red by {
            if t.suit != Suit::Blue && t.suit != Suit::Red {
                assert(!m_blue.contains_key(t));
            }
        }
    }
    let u_orange = filter_suit(&dd, Suit::Orange);
    scan_suit(&mut runs, &u_orange, Ghost(hand@), Suit::Orange);
    let ghost m_orange = runs@;
    proof {
        assert forall|t: Tile| #[trigger] runs@.contains_key(t) implies t.suit == Suit::Blue
            || t.suit == Suit::Red || t.suit == Suit::Orange by {
            if t.suit != Suit::Blue && t.suit != Suit::Red && t.suit != Suit::Orange {
                assert(!m_red.contains_key(t));
            }
        }
    }
    let u_black = filter_suit(&dd, Suit::Black);
    scan_suit(&mut runs, &u_black, Ghost(hand@), Suit::Black);
    proof {
        assert forall|t: Tile|
            (#[trigger] runs@.contains_key(t) <==> starts_run(hand@, t)) && (runs@.contains_key(
                t,
            ) ==> runs@[t] as int == run_span(hand@, t)) by {
            match t.suit {
                Suit::Blue => {
                    assert(m_red.contains_key(t) <==> m_blue.contains_key(t));
                    assert(m_orange.contains_key(t) <==> m_red.contains_key(t));
                    assert(runs@.contains_key(t) <==> m_orange.contains_key(t));
                },
                Suit::Red => {
                    assert(m_orange.contains_key(t) <==> m_red.contains_key(t));
                    assert(runs@.contains_key(t) <==> m_orange.contains_key(t));
                },
                Suit::Orange => {
                    assert(runs@.contains_key(t) <==> m_orange.contains_key(t));
                },
                Suit::Black => {},
                Suit::Joker => {
                    assert(!Map::<Tile, u8>::empty().contains_key(t));
                    assert(!m_blue.contains_key(t));
                    assert(!m_red.contains_key(t));
                    assert(!m_orange.contains_key(t));
                    assert(!runs@.contains_key(t));
                    assert(!is_ordinary(t.suit));
                },
            }
        }
    }
    runs
}

/// The sum of the `span + 1` consecutive tile values starting at `n`.
pub open spec fn run_sum(n: int, span: nat) -> int
    decreases span,
{
    if span == 0 {
        n
    } else {
        run_sum(n, (span - 1) as nat) + n + span
    }
}

/// The closed-form scoring identity: twice the sum of the `span + 1`
/// consecutive values from `n` is `(span + 1) * (2n + span)`, so the
/// textbook formula divides evenly.
pub proof fn lemma_run_sum_closed_form(n: int, span: nat)
    ensures
        2 * run_sum(n, span) == (span + 1) * (2 * n + span),
        ((span + 1) * (2 * n + span)) % 2 == 0,
    decreases span,
{
    if span == 0 {
        assert(run_sum(n, span) == n);
        assert((span + 1) * (2 * n + span) == 2 * n) by (nonlinear_arith)
            requires
                span == 0,
        ;
    } else {
        let prev = (span - 1) as nat;
        lemma_run_sum_closed_form(n, prev);
        let rs_prev = run_sum(n, prev);
        let rs = run_sum(n, span);
        assert(rs == rs_prev + n + span);
        assert(2 * rs_prev == (prev + 1) * (2 * n + prev));
        assert(2 * rs_prev == span * (2 * n + span - 1));
        assert(2 * rs == (span + 1) * (2 * n + span)) by (nonlinear_arith)
            requires
                span >= 1,
                rs == rs_prev + n + span,
                2 * rs_prev == span * (2 * n + span - 1),
        ;
    }
    assert((2 * run_sum(n, span)) % 2 == 0);
}

/// The scoring identity holds of every detected run: if `t` starts a run
/// in `h` and `span` is the recorded span, the run's total value is
/// exactly `(span + 1) * (2 * t.value + span) / 2` with no remainder.
pub proof fn lemma_detected_run_score(h: Seq<Tile>, t: Tile, span: int)
    requires
        starts_run(h, t),
        span == run_span(h, t),
    ensures
        2 <= span <= 5,
        2 * run_sum(t.value as int, span as nat) == (span + 1) * (2 * t.value + span),
        ((span + 1) * (2 * t.value + span)) % 2 == 0,
{
    lemma_run_sum_closed_form(t.value as int, span as nat);
}

/// The total value of a run: the sum of the `span + 1` consecutive tile
/// values from `start`, computed by the closed form
/// `(span + 1) * (2 * start + span) / 2`, which divides evenly.
pub fn run_value(start: u8, span: u8) -> (total: u32)
    ensures
        total == run_sum(start as int, span as nat),
        total == (span + 1) * (2 * start + span) / 2,
        ((span + 1) * (2 * start + span)) % 2 == 0,
{
    let n = start as u32;
    let k = span as u32;
    proof {
        assert((k + 1) * (2 * n + k) <= 256 * 765) by (nonlinear_arith)
            requires
                k <= 255 && n <= 255,
        ;
    }
    let doubled = (k + 1) * (2 * n + k);
    let total = doubled / 2;
    proof {
        lemma_run_sum_closed_form(start as int, span as nat);
        assert(doubled == 2 * run_sum(start as int, span as nat));
        assert(run_sum(start as int, span as nat) >= 0);
    }
    total
}

} // verus!
