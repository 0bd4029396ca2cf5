//! A small library of verified string- and sequence-analysis routines:
//! duplicate and majority detection, integer property checks, anagram and
//! word-pattern matching, sliding-window permutation inclusion, a
//! linear-time longest-palindromic-substring computation, binary search,
//! and balanced-bracket validation.

pub mod chars;
pub mod collections;
pub mod manacher;
pub mod number;
pub mod seq_facts;
pub mod string;
pub mod tokens;
