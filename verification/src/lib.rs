//! A letter-pool word puzzle solver: a 26-way prefix trie is built from a
//! word list in one divide-and-conquer pass over the sorted, deduplicated
//! list, and a backtracking search returns every stored word that can be
//! spelled from a given multiset of board letters, each letter used at most
//! as many times as the board offers it.

pub mod board;
pub mod letters;
pub mod order;
pub mod word_tree;
pub mod words;
