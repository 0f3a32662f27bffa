//! Verified building blocks for competitive programming: comparison helpers,
//! modular arithmetic, combinatorics, union–find, segment trees and
//! elementary number theory.

pub mod arith;
pub mod combinatorics;
pub mod fermat;
pub mod lazy_segment_tree;
pub mod minmax;
pub mod modint;
pub mod number_theory;
pub mod power;
pub mod segment_tree;
pub mod tree_shape;
pub mod union_find;
