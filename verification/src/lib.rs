//! Word placement engine for Scrabble-like games: board, tiles, racks,
//! dictionary queries and the row matcher that enumerates legal words.

pub mod tile;
pub mod dawg;
pub mod util;
pub mod small_vec;
pub mod letters;
pub mod matcher;
pub mod wordlist;
pub mod board;
