use okey_melds::find_runs;
use okey_melds::find_sets;
use okey_melds::run_value;
use okey_melds::Suit;
use okey_melds::Tile;

#[test]
fn test_set_detection_counts_distinct_suits() {
    // Four suits relabeled: Blue, Red, Orange, Black. The duplicate
    // (13, Orange) pair collapses before counting.
    let hand = vec![
        Tile::new(13, Suit::Blue),
        Tile::new(13, Suit::Red),
        Tile::new(13, Suit::Orange),
        Tile::new(13, Suit::Orange),
        Tile::new(1, Suit::Blue),
        Tile::new(1, Suit::Orange),
        Tile::new(2, Suit::Black),
    ];
    let counts = find_sets(&hand);
    assert_eq!(counts.get(13), Some(3));
    assert_eq!(counts.get(1), Some(2));
    assert_eq!(counts.get(2), Some(1));
    assert_eq!(counts.get(5), None);
    assert_eq!(counts.len(), 3);
}

#[test]
fn test_run_detection_records_all_subruns() {
    // Ascending same-suit values 1..=5 plus a duplicate 3, and a
    // separate-suit run 10..=13. Every overlapping sub-run of length at
    // least 3 is recorded; at a shared start the longest span wins.
    let hand = vec![
        Tile::new(1, Suit::Blue),
        Tile::new(2, Suit::Blue),
        Tile::new(3, Suit::Blue),
        Tile::new(3, Suit::Blue),
        Tile::new(4, Suit::Blue),
        Tile::new(5, Suit::Blue),
        Tile::new(10, Suit::Black),
        Tile::new(11, Suit::Black),
        Tile::new(12, Suit::Black),
        Tile::new(13, Suit::Black),
    ];
    let runs = find_runs(&hand);
    assert_eq!(runs.get(Tile::new(1, Suit::Blue)), Some(4));
    assert_eq!(runs.get(Tile::new(2, Suit::Blue)), Some(3));
    assert_eq!(runs.get(Tile::new(3, Suit::Blue)), Some(2));
    assert_eq!(runs.get(Tile::new(10, Suit::Black)), Some(3));
    assert_eq!(runs.get(Tile::new(11, Suit::Black)), Some(2));
    assert_eq!(runs.get(Tile::new(4, Suit::Blue)), None);
    assert_eq!(runs.get(Tile::new(12, Suit::Black)), None);
    assert_eq!(runs.len(), 5);
}

#[test]
fn test_run_detection_gap_rejected() {
    // A gap breaks contiguity: 1, 2, 4 of one suit form no run.
    let hand = vec![
        Tile::new(1, Suit::Red),
        Tile::new(2, Suit::Red),
        Tile::new(4, Suit::Red),
    ];
    let runs = find_runs(&hand);
    assert_eq!(runs.len(), 0);
}

#[test]
fn test_run_detection_ignores_other_suits() {
    // Consecutive values across different suits are no run.
    let hand = vec![
        Tile::new(1, Suit::Red),
        Tile::new(2, Suit::Blue),
        Tile::new(3, Suit::Red),
    ];
    let runs = find_runs(&hand);
    assert_eq!(runs.len(), 0);
}

#[test]
fn test_run_window_length_capped_at_six() {
    // Eight consecutive values of one suit: no window is longer than 6,
    // so no recorded span exceeds 5.
    let hand: Vec<Tile> = (1..=8).map(|v| Tile::new(v, Suit::Orange)).collect();
    let runs = find_runs(&hand);
    assert_eq!(runs.get(Tile::new(1, Suit::Orange)), Some(5));
    assert_eq!(runs.get(Tile::new(2, Suit::Orange)), Some(5));
    assert_eq!(runs.get(Tile::new(3, Suit::Orange)), Some(5));
    assert_eq!(runs.get(Tile::new(4, Suit::Orange)), Some(4));
    assert_eq!(runs.get(Tile::new(5, Suit::Orange)), Some(3));
    assert_eq!(runs.get(Tile::new(6, Suit::Orange)), Some(2));
    assert_eq!(runs.get(Tile::new(7, Suit::Orange)), None);
    assert_eq!(runs.len(), 6);
}

#[test]
fn test_empty_hand_detectors() {
    let hand: Vec<Tile> = vec![];
    let counts = find_sets(&hand);
    assert_eq!(counts.len(), 0);
    let runs = find_runs(&hand);
    assert_eq!(runs.len(), 0);
}

#[test]
fn test_run_value_closed_form() {
    // A run 1,2,3,4,5: start 1, span 4, total 15 == (4+1)*(2*1+4)/2.
    assert_eq!(run_value(1, 4), 15);
    // A run 10,11,12,13: start 10, span 3, total 46 == (3+1)*(2*10+3)/2.
    assert_eq!(run_value(10, 3), 46);
    // A run 2,3,4: start 2, span 2, total 9 == (2+1)*(2*2+2)/2.
    assert_eq!(run_value(2, 2), 9);
    // The largest possible inputs stay exact.
    assert_eq!(run_value(255, 255), 256 * 765 / 2);
}

#[test]
fn test_set_detection_includes_jokers_as_own_bucket() {
    // Jokers form their own bucket under the sentinel value; they are
    // not merged into other sets.
    let hand = vec![
        Tile::new(255, Suit::Joker),
        Tile::new(255, Suit::Joker),
        Tile::new(5, Suit::Blue),
    ];
    let counts = find_sets(&hand);
    assert_eq!(counts.get(255), Some(1));
    assert_eq!(counts.get(5), Some(1));
    assert_eq!(counts.len(), 2);
}

#[test]
fn test_run_detection_excludes_jokers() {
    let hand = vec![
        Tile::new(253, Suit::Joker),
        Tile::new(254, Suit::Joker),
        Tile::new(255, Suit::Joker),
    ];
    let runs = find_runs(&hand);
    assert_eq!(runs.len(), 0);
}
