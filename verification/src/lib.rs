//! An N-dimensional twisty-puzzle core: cuboid shapes with per-axis layer
//! counts, sticker/piece classification, slice and whole-puzzle turns,
//! solved-state detection, scrambling, and a 2D unfolded-net layout.

use vstd::prelude::*;

pub mod builder;
pub mod enumerate;
pub mod geometry;
pub mod layout;
pub mod position;
pub mod puzzle;
pub mod side;
pub mod sticker_map;
pub mod turn;

verus! {

/// Largest number of axes a puzzle may have.
pub const MAX_DIM: usize = 10;

/// Largest layer count a single axis may have.
pub const MAX_LAYERS: i16 = 19;

/// A shape is well formed when it has at least one axis, no more than
/// `MAX_DIM` axes, and every axis layer count lies in `1..=MAX_LAYERS`.
pub open spec fn shape_wf(shape: Seq<int>) -> bool {
    &&& 1 <= shape.len() <= MAX_DIM
    &&& forall|i: int| 0 <= i < shape.len() ==> 1 <= #[trigger] shape[i] <= MAX_LAYERS
}

} // verus!
