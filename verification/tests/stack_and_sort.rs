use okey_melds::draw_tiles;
use okey_melds::generate_tile_stack;
use okey_melds::sort_by_number;
use okey_melds::sort_by_suit;
use okey_melds::try_draw_tiles;
use okey_melds::Suit;
use okey_melds::Tile;
use okey_melds::JOKER_VALUE;

#[test]
fn test_generation() {
    assert_eq!(generate_tile_stack(13, 4).len(), 106);
}

#[test]
fn test_draw_tiles() {
    let mut stack = generate_tile_stack(13, 4);
    let hand = draw_tiles(&mut stack, 14);
    assert_eq!(hand.len(), 14);
    assert_eq!(stack.len(), 106 - 14);
}

#[test]
fn test_sorting_num() {
    let mut test_hand = vec![
        Tile::new(8, Suit::Blue),
        Tile::new(10, Suit::Blue),
        Tile::new(5, Suit::Red),
        Tile::new(1, Suit::Orange),
    ];
    sort_by_number(&mut test_hand);
    assert_eq!(
        test_hand,
        vec![
            Tile::new(1, Suit::Orange),
            Tile::new(5, Suit::Red),
            Tile::new(8, Suit::Blue),
            Tile::new(10, Suit::Blue),
        ]
    );
}

#[test]
fn test_generation_pairs_twice() {
    let stack = generate_tile_stack(13, 4);
    let suits = [Suit::Blue, Suit::Red, Suit::Orange, Suit::Black];
    for value in 1..=13u8 {
        for suit in suits {
            let count = stack
                .iter()
                .filter(|t| t.value == value && t.suit == suit)
                .count();
            assert_eq!(count, 2);
        }
    }
    let jokers: Vec<&Tile> = stack.iter().filter(|t| t.suit == Suit::Joker).collect();
    assert_eq!(jokers.len(), 2);
    for joker in jokers {
        assert_eq!(joker.value, JOKER_VALUE);
    }
}

#[test]
fn test_generation_layout() {
    let stack = generate_tile_stack(13, 4);
    assert_eq!(stack[0], Tile::new(1, Suit::Black));
    assert_eq!(stack[12], Tile::new(13, Suit::Black));
    assert_eq!(stack[13], Tile::new(1, Suit::Blue));
    assert_eq!(stack[26], Tile::new(1, Suit::Orange));
    assert_eq!(stack[39], Tile::new(1, Suit::Red));
    assert_eq!(stack[52], Tile::new(1, Suit::Black));
    assert_eq!(stack[103], Tile::new(13, Suit::Red));
    assert_eq!(stack[104], Tile::new(JOKER_VALUE, Suit::Joker));
    assert_eq!(stack[105], Tile::new(JOKER_VALUE, Suit::Joker));
}

#[test]
fn test_draw_insufficient_leaves_stack() {
    let mut stack = generate_tile_stack(13, 4);
    let snapshot = stack.clone();
    let hand = draw_tiles(&mut stack, 200);
    assert_eq!(hand.len(), 0);
    assert_eq!(stack, snapshot);
}

#[test]
fn test_draw_removes_from_top() {
    let mut stack = vec![
        Tile::new(1, Suit::Blue),
        Tile::new(2, Suit::Red),
        Tile::new(3, Suit::Orange),
    ];
    let hand = draw_tiles(&mut stack, 2);
    assert_eq!(hand, vec![Tile::new(3, Suit::Orange), Tile::new(2, Suit::Red)]);
    assert_eq!(stack, vec![Tile::new(1, Suit::Blue)]);
}

#[test]
fn test_try_draw_tiles_outcomes() {
    let mut stack = generate_tile_stack(13, 4);
    let refused = try_draw_tiles(&mut stack, 107);
    assert!(refused.is_none());
    assert_eq!(stack.len(), 106);
    let drawn = try_draw_tiles(&mut stack, 14);
    assert_eq!(drawn.unwrap().len(), 14);
    assert_eq!(stack.len(), 92);
}

#[test]
fn test_sort_by_suit_groups() {
    let mut hand = vec![
        Tile::new(4, Suit::Black),
        Tile::new(2, Suit::Blue),
        Tile::new(9, Suit::Red),
        Tile::new(1, Suit::Blue),
        Tile::new(3, Suit::Black),
    ];
    sort_by_number(&mut hand);
    sort_by_suit(&mut hand);
    assert_eq!(
        hand,
        vec![
            Tile::new(1, Suit::Blue),
            Tile::new(2, Suit::Blue),
            Tile::new(9, Suit::Red),
            Tile::new(3, Suit::Black),
            Tile::new(4, Suit::Black),
        ]
    );
}

#[test]
fn test_sort_pair_twice_same_as_once() {
    let mut hand = vec![
        Tile::new(7, Suit::Black),
        Tile::new(7, Suit::Blue),
        Tile::new(2, Suit::Orange),
        Tile::new(13, Suit::Red),
        Tile::new(2, Suit::Orange),
        Tile::new(1, Suit::Black),
    ];
    sort_by_number(&mut hand);
    sort_by_suit(&mut hand);
    let once = hand.clone();
    sort_by_number(&mut hand);
    sort_by_suit(&mut hand);
    assert_eq!(hand, once);
}

#[test]
fn test_default_tile() {
    let tile = Tile::default();
    assert_eq!(tile, Tile::new(1, Suit::Black));
}

#[test]
fn test_suit_codes() {
    assert_eq!(Suit::Black.code(), 'A');
    assert_eq!(Suit::Orange.code(), 'O');
    assert_eq!(Suit::Red.code(), 'R');
    assert_eq!(Suit::Blue.code(), 'U');
    assert_eq!(Suit::Joker.code(), 'J');
}
