//! The turn-request state machine: one completed turn out of a stream of
//! key events.
//!
//! Two modes, each a short shift register: building a side-turn (grip,
//! first axis, and a toggled layer mask) or building a whole-puzzle turn
//! (first axis). Keys fill the slots; a second axis key completes a turn
//! and emits it. The machine never checks that the parts form a legal
//! rotation plane — that is the puzzle algebra's job.

use vstd::pervasive::VecAdditionalExecFns;
use vstd::prelude::*;

verus! {

use crate::MAX_DIM;
use crate::MAX_LAYERS;
use crate::geometry::{Cut, clone_shape};
use crate::side::{Axis, Side, matches_axis_key, matches_side_key, side_in_dim, side_key_s};
use crate::turn::{LayerMask, PuzzleTurn, SideTurn, Turn};

/// A discrete key event, already stripped of device detail: the reset
/// key, the whole-puzzle-mode key, a digit, or a letter key.
#[derive(Clone, Copy, Debug, PartialEq, Eq, Structural)]
pub enum Key {
    Reset,
    Whole,
    Digit(u8),
    Letter(char),
}

/// The default layer selection: only the outermost layer.
pub open spec fn default_mask() -> Seq<bool> {
    Seq::new(((MAX_LAYERS - 1) / 2) as nat, |k: int| k == 0)
}

/// The state between key events: a partially built turn of either kind.
#[derive(Debug)]
pub enum TurnBuilder {
    Side { shape: Vec<Cut>, layers: LayerMask, side: Option<Side>, from: Option<Axis> },
    Puzzle { shape: Vec<Cut>, from: Option<Axis> },
}

impl TurnBuilder {
    /// The shape the builder was made for.
    pub open spec fn shape_seq(self) -> Seq<Cut> {
        match self {
            TurnBuilder::Side { shape, .. } => shape@,
            TurnBuilder::Puzzle { shape, .. } => shape@,
        }
    }

    /// The number of axes.
    pub open spec fn dim(self) -> int {
        self.shape_seq().len() as int
    }

    /// In the fresh side-turn-building state: grip and axis unset, the
    /// default layer mask.
    pub open spec fn is_default_side(self) -> bool {
        &&& self is Side
        &&& self->Side_side is None
        &&& self->Side_from is None
        &&& self->Side_layers.0@ == default_mask()
    }

    /// The builder's invariant: a usable dimension, a full-size layer
    /// mask, and slots within the dimension.
    pub open spec fn wf(self) -> bool {
        &&& 1 <= self.dim() <= MAX_DIM
        &&& self is Side ==> self->Side_layers.0@.len() == (MAX_LAYERS - 1) / 2
        &&& self is Side && self->Side_side is Some ==> side_in_dim(
            self->Side_side->0.idx(),
            self.dim(),
        )
        &&& self is Side && self->Side_from is Some ==> 0 <= self->Side_from->0.idx()
            < self.dim()
        &&& self is Puzzle && self->Puzzle_from is Some ==> 0 <= self->Puzzle_from->0.idx()
            < self.dim()
    }

    /// Start building a side-turn for `shape`, everything unset.
    pub fn new(shape: &Vec<Cut>) -> (r: Self)
        requires
            1 <= shape@.len() <= MAX_DIM,
        ensures
            r.wf(),
            r.shape_seq() == shape@,
            r.is_default_side(),
    {
        let r = TurnBuilder::Side {
            shape: clone_shape(shape),
            layers: LayerMask::new(),
            side: None,
            from: None,
        };
        proof {
            assert(r->Side_layers.0@ =~= default_mask());
        }
        r
    }

    /// A copy of the stored shape.
    pub fn shape(&self) -> (r: Vec<Cut>)
        ensures
            r@ == self.shape_seq(),
    {
        match self {
            TurnBuilder::Side { shape, .. } => clone_shape(shape),
            TurnBuilder::Puzzle { shape, .. } => clone_shape(shape),
        }
    }

    /// Feed one key event in; a completed turn comes out once a second
    /// axis key arrives.
    pub fn update(&mut self, key: Key) -> (r: Option<Turn>)
        requires
            old(self).wf(),
        ensures
            final(self).wf(),
            final(self).shape_seq() == old(self).shape_seq(),
            key == Key::Reset ==> r is None && final(self).is_default_side(),
            key == Key::Whole ==> r is None && (*final(self)) is Puzzle && (*final(self))->Puzzle_from is None,
            key matches Key::Digit(d) ==> r is None && (1 <= d <= (MAX_LAYERS - 1) / 2
                ==> (*final(self)) is Side && (*final(self))->Side_layers.0@ == (if (*old(self)) is Side {
                (*old(self))->Side_layers.0@
            } else {
                default_mask()
            }).update(d - 1, !(if (*old(self)) is Side {
                (*old(self))->Side_layers.0@
            } else {
                default_mask()
            })[d - 1]) && (*final(self))->Side_side == (if (*old(self)) is Side {
                (*old(self))->Side_side
            } else {
                None
            }) && (*final(self))->Side_from == (if (*old(self)) is Side {
                (*old(self))->Side_from
            } else {
                None
            })) && ((d == 0 || d > (MAX_LAYERS - 1) / 2) ==> *final(self) == *old(self)),
            key matches Key::Letter(c) ==> ((exists|v: int|
                matches_side_key(old(self).dim(), c, v)) ==> r is None && (*final(self)) is Side
                && (*final(self))->Side_from is None && (*final(self))->Side_side is Some
                && matches_side_key(old(self).dim(), c, (*final(self))->Side_side->0.idx())
                && (*final(self))->Side_layers.0@ == (if (*old(self)) is Side {
                (*old(self))->Side_layers.0@
            } else {
                default_mask()
            })),
            key matches Key::Letter(c) ==> ((!(exists|v: int|
                matches_side_key(old(self).dim(), c, v)) && (exists|a: int|
                matches_axis_key(old(self).dim(), c, a))) ==> (match *old(self) {
                TurnBuilder::Side { side, from, layers, .. } => {
                    &&& (side is Some && from is Some) ==> (r matches Some(Turn::Side(st))
                        && st.side == side->0 && st.from == from->0 && matches_axis_key(
                        old(self).dim(),
                        c,
                        st.to.idx(),
                    ) && st.layers.0@ == layers.0@ && (*final(self)) is Side && (*final(self))->Side_side == side && (*final(self))->Side_from is None)
                    &&& (side is Some && from is None) ==> r is None && (*final(self)) is Side
                        && (*final(self))->Side_side == side && (*final(self))->Side_from is Some && matches_axis_key(
                        old(self).dim(),
                        c,
                        (*final(self))->Side_from->0.idx(),
                    )
                    &&& side is None ==> r is None && *final(self) == *old(self)
                },
                TurnBuilder::Puzzle { from, .. } => {
                    &&& from is Some ==> (r matches Some(Turn::Puzzle(pt)) && pt.from
                        == from->0 && matches_axis_key(old(self).dim(), c, pt.to.idx())
                        && (*final(self)) is Puzzle && (*final(self))->Puzzle_from is None)
                    &&& from is None ==> r is None && (*final(self)) is Puzzle && (*final(self))->Puzzle_from is Some && matches_axis_key(
                        old(self).dim(),
                        c,
                        (*final(self))->Puzzle_from->0.idx(),
                    )
                },
            })),
            key matches Key::Letter(c) ==> ((!(exists|v: int|
                matches_side_key(old(self).dim(), c, v)) && !(exists|a: int|
                matches_axis_key(old(self).dim(), c, a))) ==> r is None && *final(self)
                == *old(self)),
    {
        let dim = (match &*self {
            TurnBuilder::Side { shape, .. } => shape.len(),
            TurnBuilder::Puzzle { shape, .. } => shape.len(),
        }) as u16;
        match key {
            Key::Reset => {
                let shape = self.shape();
                *self = TurnBuilder::new(&shape);
                None
            },
            Key::Whole => {
                let shape = self.shape();
                *self = TurnBuilder::Puzzle { shape, from: None };
                None
            },
            Key::Digit(d) => {
                if d == 0 || d as i16 > (MAX_LAYERS - 1) / 2 {
                    return None;
                }
                if let TurnBuilder::Puzzle { .. } = self {
                    let shape = self.shape();
                    *self = TurnBuilder::new(&shape);
                }
                match self {
                    TurnBuilder::Side { layers, .. } => {
                        let i = (d - 1) as usize;
                        let cur = layers.0[i];
                        layers.0.set(i, !cur);
                    },
                    TurnBuilder::Puzzle { .. } => {},
                }
                None
            },
            Key::Letter(c) => {
                if let Some(s) = Side::try_from_key(dim, c) {
                    match self {
                        TurnBuilder::Side { side, from, .. } => {
                            *side = Some(s);
                            *from = None;
                        },
                        TurnBuilder::Puzzle { shape, .. } => {
                            let owned = clone_shape(shape);
                            *self = TurnBuilder::Side {
                                shape: owned,
                                layers: LayerMask::new(),
                                side: Some(s),
                                from: None,
                            };
                            proof {
                                assert(self->Side_layers.0@ =~= default_mask());
                            }
                        },
                    }
                    return None;
                }
                proof {
                    assert(forall|v: int|
                        side_in_dim(v, dim as int) ==> #[trigger] side_key_s(v) != c);
                }
                match self {
                    TurnBuilder::Side { side, from, layers, .. } => {
                        if let Some(s) = *side {
                            if let Some(f) = *from {
                                if let Some(t) = Axis::try_from_key(dim, c) {
                                    let ret = Turn::Side(
                                        SideTurn { side: s, from: f, to: t, layers: layers.clone() },
                                    );
                                    *from = None;
                                    return Some(ret);
                                }
                            } else {
                                *from = Axis::try_from_key(dim, c);
                            }
                        }
                    },
                    TurnBuilder::Puzzle { from, .. } => {
                        if let Some(f) = *from {
                            if let Some(t) = Axis::try_from_key(dim, c) {
                                let ret = Turn::Puzzle(PuzzleTurn { from: f, to: t });
                                *from = None;
                                return Some(ret);
                            }
                        } else {
                            *from = Axis::try_from_key(dim, c);
                        }
                    },
                }
                None
            },
        }
    }
}

} // verus!
