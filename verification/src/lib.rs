//! A static entropy coder and its companions. The core is a Huffman codec:
//! it builds a minimum-redundancy prefix-free code from a frequency table
//! through a binary max-heap, and encodes and decodes symbol sequences as
//! packed bit containers. Alongside it live a structural diff/patch pair, a
//! regex-to-automaton compiler, and a permutation enumerator from the same
//! code base.

pub mod bit_vector;
pub mod diff;
pub mod huffman;
pub mod nfa;
pub mod permute;
pub mod priority_queue;
mod vec_util;
