//! Turns: the two kinds of moves a puzzle accepts, and their inverses.

use vstd::prelude::*;

verus! {

use crate::MAX_LAYERS;
use crate::side::{Axis, Side};

/// Which depth layers below the grip a side-turn should affect. The data
/// is carried with each turn, but the transform currently always rotates
/// the outermost layer only.
#[derive(Debug, PartialEq, Eq)]
pub struct LayerMask(pub Vec<bool>);

impl Clone for LayerMask {
    /// A copy with the same layer selection.
    fn clone(&self) -> (r: Self)
        ensures
            r.0@ == self.0@,
    {
        let mut v: Vec<bool> = Vec::new();
        let mut i: usize = 0;
        while i < self.0.len()
            invariant
                i <= self.0@.len(),
                v@ == self.0@.subrange(0, i as int),
            decreases self.0@.len() - i,
        {
            v.push(self.0[i]);
            proof {
                assert(v@ =~= self.0@.subrange(0, i + 1));
            }
            i = i + 1;
        }
        proof {
            assert(v@ =~= self.0@);
        }
        LayerMask(v)
    }
}

impl LayerMask {
    /// The default mask: only the outermost layer selected.
    pub fn new() -> (r: Self)
        ensures
            r.0@.len() == (MAX_LAYERS - 1) / 2,
            r.0@[0] == true,
            forall|k: int| 1 <= k < r.0@.len() ==> !r.0@[k],
    {
        let mut v: Vec<bool> = vec![false; ((MAX_LAYERS as usize) - 1) / 2];
        v.set(0, true);
        LayerMask(v)
    }
}

/// A slice turn: grip a side, rotate axis `from` into axis `to` on the
/// layers the mask selects.
#[derive(Clone, Debug, PartialEq, Eq)]
pub struct SideTurn {
    pub layers: LayerMask,
    pub side: Side,
    pub from: Axis,
    pub to: Axis,
}

impl SideTurn {
    /// The move that undoes this one: the same grip and layers, with the
    /// rotation pair swapped.
    pub fn inverse(&self) -> (r: Self)
        ensures
            r.side == self.side,
            r.from == self.to,
            r.to == self.from,
            r.layers.0@ == self.layers.0@,
    {
        SideTurn { layers: self.layers.clone(), side: self.side, from: self.to, to: self.from }
    }
}

/// A whole-puzzle reorientation: rotate axis `from` into axis `to`
/// everywhere, with no grip.
#[derive(Clone, Debug, PartialEq, Eq)]
pub struct PuzzleTurn {
    pub from: Axis,
    pub to: Axis,
}

impl PuzzleTurn {
    /// The move that undoes this one: the rotation pair swapped.
    pub fn inverse(&self) -> (r: Self)
        ensures
            r.from == self.to,
            r.to == self.from,
    {
        PuzzleTurn { from: self.to, to: self.from }
    }
}

/// Either kind of move.
#[derive(Clone, Debug, PartialEq, Eq)]
pub enum Turn {
    Side(SideTurn),
    Puzzle(PuzzleTurn),
}

impl Turn {
    /// The move that undoes this one.
    pub fn inverse(&self) -> (r: Self)
        ensures
            self is Side ==> r is Side && r->Side_0.side == self->Side_0.side
                && r->Side_0.from == self->Side_0.to && r->Side_0.to == self->Side_0.from
                && r->Side_0.layers.0@ == self->Side_0.layers.0@,
            self is Puzzle ==> r is Puzzle && r->Puzzle_0.from == self->Puzzle_0.to
                && r->Puzzle_0.to == self->Puzzle_0.from,
    {
        match self {
            Turn::Side(side_turn) => Turn::Side(side_turn.inverse()),
            Turn::Puzzle(puzzle_turn) => Turn::Puzzle(puzzle_turn.inverse()),
        }
    }
}

/// The one recoverable turn error: the requested `side`/`from`/`to` do not
/// define a plane of rotation.
#[derive(Clone, Copy, Debug, PartialEq, Eq)]
pub enum TurnError {
    UndefinedPlane,
}

} // verus!
