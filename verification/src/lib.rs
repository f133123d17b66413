//! Tools for ultrametric matrices with integer entries.
//!
//! An ultrametric matrix is determined by a hierarchy of partitions of its
//! index set, so it can be held as a tree: [`UltrametricTree`]. The tree is
//! built from a dense matrix by recursive splitting, multiplies with a
//! vector in two walks instead of a pass over all entries, can be pruned
//! where a vertex and a child share their level, and can be turned back
//! into the matrix. [`utils`] checks whether a matrix is ultrametric and
//! makes random ultrametric matrices.
//!
//! Every function carries a contract that Verus proves, stated over the
//! mathematical models in [`model`], [`partition`], [`ultrametric`],
//! [`product`] and [`permutation`]; [`laws`] holds the statements that
//! relate several functions. Dense storage is `nalgebra`'s and random
//! numbers are `rand`'s, behind the few unproved contracts of [`dense`] and
//! [`random`].

pub mod chain;
pub mod dense;
pub mod laws;
pub mod leaf_order;
pub mod model;
pub mod partition;
pub mod permutation;
pub mod product;
pub mod prune;
pub mod random;
pub mod seq_facts;
pub mod sums;
pub mod ultrametric;
pub mod ultrametric_tree;
pub mod utils;

pub use dense::{DMatrix, DVector};
pub use ultrametric_tree::{MultError, UltrametricTree};
