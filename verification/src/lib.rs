//! Core model and meld-detection engine for an Okey-style tile game.
//!
//! The library builds the full tile stack, draws hands from it, sorts hands
//! by value or by suit, and detects scoring melds: sets (equal values across
//! distinct suits) and runs (consecutive values within one suit). Shuffling
//! and presentation are left to the caller.

pub mod dedup;
pub mod maps;
pub mod order;
pub mod runs;
pub mod sets;
pub mod sort;
pub mod stack;
pub mod tile;

pub use maps::RunMap;
pub use maps::ValueCounts;
pub use runs::find_runs;
pub use runs::run_value;
pub use sets::find_sets;
pub use sort::sort_by_number;
pub use sort::sort_by_suit;
pub use stack::draw_tiles;
pub use stack::generate_tile_stack;
pub use stack::try_draw_tiles;
pub use tile::Suit;
pub use tile::Tile;
pub use tile::JOKER_VALUE;
