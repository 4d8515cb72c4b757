//! A lattice-based segmenter: given a dictionary of weighted morphemes and
//! an input symbol sequence, it finds the minimum-total-cost segmentation
//! that covers the input front-to-back with no gaps or overlaps, and returns
//! the surface forms in order.
#![allow(unused_imports)]
use vstd::prelude::*;

pub mod lattice;
pub mod model;
pub mod search;

pub use lattice::Arena;
pub use lattice::Node;
pub use model::Morpheme;
pub use search::SegError;
pub use search::Segmentation;
pub use search::viterbi;
