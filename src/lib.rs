//! Small verified data structures: a Merkle hash tree with inclusion proofs,
//! a binary tree, two singly linked lists, a trie, a bloom filter and a
//! deterministic finite automaton.
pub mod binary_tree;
pub mod hashing;
pub mod merkle_tree;
pub mod trie;
pub mod dfa;
pub mod linked_list;
pub mod searchable_list;
pub mod bloom_filter;
