//! Word search over a letter grid.
//!
//! A dictionary is loaded into a 26-ary prefix trie, the grid is indexed
//! per letter, and the search engine walks the product of the two,
//! reporting every dictionary word that can be traced as a simple path of
//! adjacent cells.

pub mod bitset;
pub mod bitset_32;
pub mod grid;
pub mod lazy;
pub mod letters;
pub mod radix_board;
pub mod search;
pub mod simple_board;
pub mod trie;
