//! Succinct ordinal trees: the balanced-parentheses (BP) and the level-order
//! unary degree sequence (LOUDS) encodings, with the range-min-max tree that
//! answers BP's matching-bracket queries.
//!
//! Bits are handed over as `Vec<bool>`; rank and select over them come from
//! `bio::data_structures::rank_select::RankSelect`, which packs them into a
//! `bv::BitVec<u8>`.

pub mod bits;
pub mod bp_tree;
pub mod errors;
pub mod generate;
pub mod louds_tree;
pub mod min_max;
pub mod rank_select;
pub mod succinct_tree;
