//! The tile stack: building the full deck and drawing hands from it.
//!
//! The generator is deterministic; shuffling is a randomness concern the
//! caller injects by permuting the returned stack before drawing.

use vstd::prelude::*;

use crate::tile::JOKER_VALUE;
use crate::tile::Suit;
use crate::tile::Tile;

verus! {

/// The suit assigned to the `j`-th cycle of values while generating the
/// stack. Every suit receives exactly two full cycles `1..=max_tile`.
pub open spec fn cycle_suit(j: int) -> Suit {
    if j == 1 {
        Suit::Blue
    } else if j == 2 {
        Suit::Orange
    } else if j == 3 {
        Suit::Red
    } else {
        Suit::Black
    }
}

/// The tile the generator places at index `i` of the ordinary part of the
/// stack: values cycle `1..=max_tile`, suits advance once per full cycle.
pub open spec fn generated_tile(i: int, max_tile: int, num_suits: int) -> Tile {
    Tile {
        value: (i % max_tile + 1) as u8,
        suit: cycle_suit((i / max_tile) % num_suits),
    }
}

/// The joker tile: sentinel value, joker suit.
pub open spec fn joker_tile() -> Tile {
    Tile { value: JOKER_VALUE, suit: Suit::Joker }
}

/// Builds the undrawn stack: for each of the `num_suits` suits two full
/// value cycles `1..=max_tile`, followed by two joker tiles. No shuffling
/// happens here; the caller owns that concern.
///
/// `max_tile` must stay below the joker sentinel so ordinary values can
/// never collide with it, and at most the four ordinary suits exist.
pub fn generate_tile_stack(max_tile: usize, num_suits: usize) -> (stack: Vec<Tile>)
    requires
        1 <= max_tile < JOKER_VALUE as int,
        1 <= num_suits <= 4,
    ensures
        stack@.len() == max_tile * num_suits * 2 + 2,
        forall|i: int|
            0 <= i < max_tile * num_suits * 2 ==> stack@[i] == generated_tile(
                i,
                max_tile as int,
                num_suits as int,
            ),
        forall|i: int|
            max_tile * num_suits * 2 <= i < stack@.len() ==> stack@[i] == joker_tile(),
{
    proof {
        assert(max_tile * num_suits * 2 <= 254 * 4 * 2) by (nonlinear_arith)
            requires
                max_tile <= 254 && num_suits <= 4,
        ;
    }
    let total: usize = max_tile * num_suits * 2;
    let mut stack: Vec<Tile> = Vec::new();
    let mut i: usize = 0;
    while i < total
        invariant
            i <= total,
            total == max_tile * num_suits * 2,
            1 <= max_tile < JOKER_VALUE as int,
            1 <= num_suits <= 4,
            stack@.len() == i,
            forall|k: int|
                0 <= k < i ==> stack@[k] == generated_tile(k, max_tile as int, num_suits as int),
        decreases total - i,
    {
        let value: u8 = ((i % max_tile) + 1) as u8;
        let cycle: usize = (i / max_tile) % num_suits;
        let suit = if cycle == 1 {
            Suit::Blue
        } else if cycle == 2 {
            Suit::Orange
        } else if cycle == 3 {
            Suit::Red
        } else {
            Suit::Black
        };
        stack.push(Tile { value, suit });
        i = i + 1;
    }
    stack.push(Tile { value: JOKER_VALUE, suit: Suit::Joker });
    stack.push(Tile { value: JOKER_VALUE, suit: Suit::Joker });
    stack
}

/// The cycle at which generation deals a suit: the inverse of
/// `cycle_suit` on the ordinary suits.
pub open spec fn cycle_index(s: Suit) -> int {
    match s {
        Suit::Black => 0,
        Suit::Blue => 1,
        Suit::Orange => 2,
        Suit::Red => 3,
        Suit::Joker => 4,
    }
}

/// The stack invariant of generation: every ordinary (value, suit) pair
/// in range appears exactly twice in a freshly generated stack — once in
/// each of the suit's two value cycles — and at no other position. The
/// hypotheses are precisely `generate_tile_stack`'s contract.
pub proof fn lemma_generated_pair_twice(
    stack: Seq<Tile>,
    max_tile: int,
    num_suits: int,
    v: int,
    s: Suit,
)
    requires
        1 <= max_tile < JOKER_VALUE as int,
        1 <= num_suits <= 4,
        stack.len() == max_tile * num_suits * 2 + 2,
        forall|i: int|
            0 <= i < max_tile * num_suits * 2 ==> stack[i] == generated_tile(
                i,
                max_tile,
                num_suits,
            ),
        forall|i: int| max_tile * num_suits * 2 <= i < stack.len() ==> stack[i] == joker_tile(),
        1 <= v <= max_tile,
        cycle_index(s) < num_suits,
    ensures
        ({
            let pair = Tile { value: v as u8, suit: s };
            let first = (v - 1) + max_tile * cycle_index(s);
            let second = (v - 1) + max_tile * (cycle_index(s) + num_suits);
            &&& 0 <= first < second < stack.len()
            &&& stack[first] == pair
            &&& stack[second] == pair
            &&& forall|m: int|
                0 <= m < stack.len() && m != first && m != second ==> stack[m] != pair
        }),
{
    let pair = Tile { value: v as u8, suit: s };
    let c = cycle_index(s);
    let total = max_tile * num_suits * 2;
    let first = (v - 1) + max_tile * c;
    let second = (v - 1) + max_tile * (c + num_suits);
    assert(0 <= first < second < total) by (nonlinear_arith)
        requires
            1 <= v <= max_tile,
            1 <= num_suits,
            0 <= c < num_suits,
            first == (v - 1) + max_tile * c,
            second == (v - 1) + max_tile * (c + num_suits),
            total == max_tile * num_suits * 2,
    ;
    assert(first == c * max_tile + (v - 1)) by (nonlinear_arith)
        requires
            first == (v - 1) + max_tile * c,
    ;
    assert(second == (c + num_suits) * max_tile + (v - 1)) by (nonlinear_arith)
        requires
            second == (v - 1) + max_tile * (c + num_suits),
    ;
    vstd::arithmetic::div_mod::lemma_fundamental_div_mod_converse(first, max_tile, c, v - 1);
    vstd::arithmetic::div_mod::lemma_fundamental_div_mod_converse(
        second,
        max_tile,
        c + num_suits,
        v - 1,
    );
    vstd::arithmetic::div_mod::lemma_fundamental_div_mod_converse(c, num_suits, 0, c);
    vstd::arithmetic::div_mod::lemma_fundamental_div_mod_converse(
        c + num_suits,
        num_suits,
        1,
        c,
    );
    assert(stack[first] == pair);
    assert(stack[second] == pair);
    assert forall|m: int|
        0 <= m < stack.len() && m != first && m != second implies stack[m] != pair by {
        if m < total {
            if stack[m] == pair {
                vstd::arithmetic::div_mod::lemma_fundamental_div_mod(m, max_tile);
                vstd::arithmetic::div_mod::lemma_mod_pos_bound(m, max_tile);
                let q = m / max_tile;
                assert(m % max_tile == v - 1) by {
                    assert((m % max_tile + 1) as u8 == v as u8);
                    assert(0 <= m % max_tile + 1 <= max_tile);
                }
                assert(0 <= q < 2 * num_suits) by (nonlinear_arith)
                    requires
                        m == max_tile * q + (v - 1),
                        0 <= m < max_tile * num_suits * 2,
                        1 <= v <= max_tile,
                        1 <= max_tile,
                        1 <= num_suits,
                ;
                assert(q % num_suits == c) by {
                    assert(cycle_suit(q % num_suits) == s);
                    vstd::arithmetic::div_mod::lemma_mod_pos_bound(q, num_suits);
                }
                vstd::arithmetic::div_mod::lemma_fundamental_div_mod(q, num_suits);
                let dq = q / num_suits;
                assert(0 <= dq < 2) by (nonlinear_arith)
                    requires
                        q == num_suits * dq + c,
                        0 <= q < 2 * num_suits,
                        0 <= c < num_suits,
                        1 <= num_suits,
                ;
                assert(m == first || m == second) by (nonlinear_arith)
                    requires
                        m == max_tile * q + (v - 1),
                        q == num_suits * dq + c,
                        dq == 0 || dq == 1,
                        first == (v - 1) + max_tile * c,
                        second == (v - 1) + max_tile * (c + num_suits),
                ;
            }
        } else {
            assert(stack[m] == joker_tile());
        }
    }
}

/// Removes `to_draw` tiles from the top (the end) of the stack and returns
/// them as a hand, in removal order. A stack holding fewer than `to_draw`
/// tiles is left untouched and yields an empty hand; callers that need the
/// two outcomes kept apart can use [`try_draw_tiles`].
pub fn draw_tiles(current_stack: &mut Vec<Tile>, to_draw: usize) -> (hand: Vec<Tile>)
    ensures
        old(current_stack)@.len() < to_draw ==> final(current_stack)@ == old(current_stack)@
            && hand@.len() == 0,
        old(current_stack)@.len() >= to_draw ==> {
            &&& final(current_stack)@ == old(current_stack)@.take(
                old(current_stack)@.len() - to_draw,
            )
            &&& hand@.len() == to_draw
            &&& forall|j: int|
                0 <= j < to_draw ==> hand@[j] == old(current_stack)@[old(
                    current_stack,
                )@.len() - 1 - j]
        },
{
    if current_stack.len() < to_draw {
        return Vec::new();
    }
    let ghost full = current_stack@;
    let mut hand: Vec<Tile> = Vec::new();
    let mut drawn: usize = 0;
    while drawn < to_draw
        invariant
            drawn <= to_draw,
            to_draw <= full.len(),
            current_stack@ == full.take(full.len() - drawn),
            hand@.len() == drawn,
            forall|j: int| 0 <= j < drawn ==> hand@[j] == full[full.len() - 1 - j],
        decreases to_draw - drawn,
    {
        let tile = current_stack.pop().unwrap();
        assert(tile == full[full.len() - drawn - 1]);
        hand.push(tile);
        drawn = drawn + 1;
        proof {
            assert(current_stack@ =~= full.take(full.len() - drawn));
        }
    }
    hand
}

/// The drawer with an explicit outcome: `None` exactly when the stack has
/// too few tiles (and then the stack is untouched), otherwise `Some` hand
/// of exactly `to_draw` tiles removed from the top, in removal order.
pub fn try_draw_tiles(current_stack: &mut Vec<Tile>, to_draw: usize) -> (drawn: Option<
    Vec<Tile>,
>)
    ensures
        old(current_stack)@.len() < to_draw ==> final(current_stack)@ == old(current_stack)@
            && drawn is None,
        old(current_stack)@.len() >= to_draw ==> {
            &&& drawn is Some
            &&& final(current_stack)@ == old(current_stack)@.take(
                old(current_stack)@.len() - to_draw,
            )
            &&& drawn->0@.len() == to_draw
            &&& forall|j: int|
                0 <= j < to_draw ==> drawn->0@[j] == old(current_stack)@[old(
                    current_stack,
                )@.len() - 1 - j]
        },
{
    if current_stack.len() < to_draw {
        None
    } else {
        Some(draw_tiles(current_stack, to_draw))
    }
}

} // verus!
