//! Sides and axes: the `2 * dimension` face labels of a puzzle.
//!
//! A side is an index in `-dim..dim`. Sides related by [`Side::not`] are
//! opposite faces of one axis: the positive side of axis `a` is `a` itself,
//! the negative side is `-a - 1`. Pairing by this self-inverse operation
//! (rather than by arithmetic negation) keeps the positive sides equal to
//! the 0-based axis indices.

use vstd::prelude::*;

verus! {

use crate::MAX_DIM;

/// The opposite of side index `v`.
pub open spec fn side_opp(v: int) -> int {
    -v - 1
}

/// The axis index a side index `v` belongs to.
pub open spec fn side_axis(v: int) -> int {
    if v >= 0 {
        v
    } else {
        -v - 1
    }
}

/// A side index is well formed for dimension `dim` when it lies in `-dim..dim`.
pub open spec fn side_in_dim(v: int, dim: int) -> bool {
    -dim <= v < dim
}

/// The display letter of the positive side of axis `i`.
pub open spec fn pos_name_s(i: int) -> char {
    if i == 0 {
        'R'
    } else if i == 1 {
        'U'
    } else if i == 2 {
        'F'
    } else if i == 3 {
        'O'
    } else if i == 4 {
        'A'
    } else if i == 5 {
        'Γ'
    } else if i == 6 {
        'Θ'
    } else if i == 7 {
        'Ξ'
    } else if i == 8 {
        'Σ'
    } else {
        'Ψ'
    }
}

/// The display letter of the negative side of axis `i`.
pub open spec fn neg_name_s(i: int) -> char {
    if i == 0 {
        'L'
    } else if i == 1 {
        'D'
    } else if i == 2 {
        'B'
    } else if i == 3 {
        'I'
    } else if i == 4 {
        'P'
    } else if i == 5 {
        'Δ'
    } else if i == 6 {
        'Λ'
    } else if i == 7 {
        'Π'
    } else if i == 8 {
        'Φ'
    } else {
        'Ω'
    }
}

/// The display letter of side index `v`.
pub open spec fn side_name_s(v: int) -> char {
    if v >= 0 {
        pos_name_s(v)
    } else {
        neg_name_s(side_axis(v))
    }
}

/// The display color of the positive side of axis `i`.
pub open spec fn pos_color_s(i: int) -> (u8, u8, u8) {
    if i == 0 {
        (255, 0, 0)
    } else if i == 1 {
        (255, 255, 255)
    } else if i == 2 {
        (0, 255, 0)
    } else if i == 3 {
        (255, 0, 255)
    } else if i == 4 {
        (10, 170, 133)
    } else if i == 5 {
        (119, 72, 17)
    } else if i == 6 {
        (244, 159, 239)
    } else if i == 7 {
        (178, 152, 103)
    } else if i == 8 {
        (156, 245, 66)
    } else {
        (7, 133, 23)
    }
}

/// The display color of the negative side of axis `i`.
pub open spec fn neg_color_s(i: int) -> (u8, u8, u8) {
    if i == 0 {
        (255, 128, 0)
    } else if i == 1 {
        (255, 255, 0)
    } else if i == 2 {
        (0, 128, 255)
    } else if i == 3 {
        (143, 16, 234)
    } else if i == 4 {
        (125, 170, 10)
    } else if i == 5 {
        (109, 69, 100)
    } else if i == 6 {
        (212, 169, 78)
    } else if i == 7 {
        (178, 121, 103)
    } else if i == 8 {
        (66, 212, 245)
    } else {
        (47, 47, 189)
    }
}

/// The display color of side index `v`.
pub open spec fn side_color_s(v: int) -> (u8, u8, u8) {
    if v >= 0 {
        pos_color_s(v)
    } else {
        neg_color_s(side_axis(v))
    }
}

/// The grip key of the positive side of axis `i`.
pub open spec fn pos_key_s(i: int) -> char {
    if i == 0 {
        'f'
    } else if i == 1 {
        'e'
    } else if i == 2 {
        'r'
    } else if i == 3 {
        't'
    } else if i == 4 {
        'v'
    } else if i == 5 {
        'y'
    } else if i == 6 {
        'n'
    } else if i == 7 {
        'q'
    } else if i == 8 {
        ','
    } else {
        '/'
    }
}

/// The grip key of the negative side of axis `i`.
pub open spec fn neg_key_s(i: int) -> char {
    if i == 0 {
        's'
    } else if i == 1 {
        'd'
    } else if i == 2 {
        'w'
    } else if i == 3 {
        'g'
    } else if i == 4 {
        'c'
    } else if i == 5 {
        'h'
    } else if i == 6 {
        'b'
    } else if i == 7 {
        'a'
    } else if i == 8 {
        'm'
    } else {
        '.'
    }
}

/// The rotation-endpoint key of axis `i`.
pub open spec fn axis_key_s(i: int) -> char {
    if i == 0 {
        'k'
    } else if i == 1 {
        'j'
    } else if i == 2 {
        'l'
    } else if i == 3 {
        'i'
    } else if i == 4 {
        'u'
    } else if i == 5 {
        'o'
    } else if i == 6 {
        'p'
    } else if i == 7 {
        ';'
    } else if i == 8 {
        '['
    } else {
        '\''
    }
}

/// The grip key of side index `v`.
pub open spec fn side_key_s(v: int) -> char {
    if v >= 0 {
        pos_key_s(v)
    } else {
        neg_key_s(side_axis(v))
    }
}

/// Key `c` selects side `v` among the first `dim` axes.
pub open spec fn matches_side_key(dim: int, c: char, v: int) -> bool {
    side_in_dim(v, dim) && side_key_s(v) == c
}

/// Key `c` selects axis `a` among the first `dim` axes.
pub open spec fn matches_axis_key(dim: int, c: char, a: int) -> bool {
    0 <= a < dim && axis_key_s(a) == c
}

/// The indices of a sequence of sides.
pub open spec fn side_ints(s: Seq<Side>) -> Seq<int> {
    s.map_values(|sd: Side| sd.0 as int)
}

/// One of the `2 * dimension` faces of the puzzle. Holds an index in
/// `-dim..dim`; for example a three-axis puzzle uses `[-3, -2, -1, 0, 1, 2]`.
#[derive(Clone, Copy, Debug, PartialEq, Eq, Hash, Structural)]
pub struct Side(pub i16);

impl Side {
    /// The side's raw index.
    pub open spec fn idx(self) -> int {
        self.0 as int
    }

    /// The index of the axis this side belongs to.
    pub open spec fn axis_idx(self) -> int {
        side_axis(self.0 as int)
    }

    pub fn new(side: i16) -> (r: Self)
        requires
            side_in_dim(side as int, MAX_DIM as int),
        ensures
            r.0 == side,
    {
        Side(side)
    }

    /// The opposite face of the same axis; a self-inverse pairing.
    pub fn not(self) -> (r: Self)
        requires
            side_in_dim(self.idx(), MAX_DIM as int),
        ensures
            r.idx() == side_opp(self.idx()),
    {
        Side(-self.0 - 1)
    }

    /// The axis this side belongs to.
    pub fn axis(self) -> (r: Axis)
        requires
            side_in_dim(self.idx(), MAX_DIM as int),
        ensures
            r.idx() == self.axis_idx(),
    {
        if self.0 >= 0 {
            Axis(self)
        } else {
            Axis(Side(-self.0 - 1))
        }
    }

    /// Whether this is the positive side of its axis. `Side(0)` refers to
    /// the positive direction of axis 0.
    pub fn is_positive(self) -> (r: bool)
        ensures
            r == (self.idx() >= 0),
    {
        self.0 >= 0
    }

    /// Checked conversion into an axis; only the positive sides convert.
    pub fn into_axis(self) -> (r: Axis)
        requires
            self.idx() >= 0,
        ensures
            r.idx() == self.idx(),
    {
        Axis(self)
    }

    /// Checked conversion into a table index; only for positive sides.
    pub fn into_usize(self) -> (r: usize)
        requires
            self.idx() >= 0,
        ensures
            r == self.idx(),
    {
        self.0 as usize
    }

    /// Pick from `pos` for a positive side and from `neg` for a negative
    /// one, indexed by the side's axis.
    pub fn get<'a, T>(self, pos: &'a Vec<T>, neg: &'a Vec<T>) -> (r: &'a T)
        requires
            side_in_dim(self.idx(), MAX_DIM as int),
            self.idx() >= 0 ==> self.axis_idx() < pos.len(),
            self.idx() < 0 ==> self.axis_idx() < neg.len(),
        ensures
            self.idx() >= 0 ==> r == pos[self.axis_idx()],
            self.idx() < 0 ==> r == neg[self.axis_idx()],
    {
        if self.0 >= 0 {
            &pos[self.0 as usize]
        } else {
            &neg[(-self.0 - 1) as usize]
        }
    }

    /// Like [`Side::get`], but yields a mutable reference.
    pub fn get_mut<'a, T>(self, pos: &'a mut Vec<T>, neg: &'a mut Vec<T>) -> (r: &'a mut T)
        requires
            side_in_dim(self.idx(), MAX_DIM as int),
            self.idx() >= 0 ==> self.axis_idx() < old(pos).len(),
            self.idx() < 0 ==> self.axis_idx() < old(neg).len(),
        ensures
            self.idx() >= 0 ==> *r == old(pos)[self.axis_idx()] && final(neg)@ == old(neg)@
                && final(pos)@ == old(pos)@.update(self.axis_idx(), *final(r)),
            self.idx() < 0 ==> *r == old(neg)[self.axis_idx()] && final(pos)@ == old(pos)@
                && final(neg)@ == old(neg)@.update(self.axis_idx(), *final(r)),
    {
        if self.0 >= 0 {
            &mut pos[self.0 as usize]
        } else {
            &mut neg[(-self.0 - 1) as usize]
        }
    }

    /// Display letter of the side, from two fixed per-axis tables.
    pub fn name(self) -> (r: char)
        requires
            side_in_dim(self.idx(), MAX_DIM as int),
        ensures
            r == side_name_s(self.idx()),
    {
        if self.0 >= 0 {
            pos_name(self.0 as usize)
        } else {
            neg_name((-self.0 - 1) as usize)
        }
    }

    /// Keyboard key that selects this side as a grip.
    pub fn side_key(self) -> (r: char)
        requires
            side_in_dim(self.idx(), MAX_DIM as int),
        ensures
            r == side_key_s(self.idx()),
    {
        if self.0 >= 0 {
            pos_key(self.0 as usize)
        } else {
            neg_key((-self.0 - 1) as usize)
        }
    }

    /// The side whose grip key is `key`, among the first `dim` axes.
    pub fn try_from_key(dim: u16, key: char) -> (r: Option<Self>)
        requires
            dim <= MAX_DIM,
        ensures
            r is Some ==> matches_side_key(dim as int, key, r->0.idx()),
            r is None ==> forall|v: int| side_in_dim(v, dim as int) ==> side_key_s(v) != key,
    {
        let mut i: usize = 0;
        while i < dim as usize
            invariant
                dim <= MAX_DIM,
                i <= dim,
                forall|v: int|
                    side_in_dim(v, dim as int) && side_axis(v) < i ==> #[trigger] side_key_s(v)
                        != key,
            decreases dim - i,
        {
            if pos_key(i) == key {
                return Some(Side(i as i16));
            }
            if neg_key(i) == key {
                return Some(Side(-(i as i16) - 1));
            }
            proof {
                assert forall|v: int|
                    side_in_dim(v, dim as int) && side_axis(v) < i + 1 implies #[trigger] side_key_s(
                    v,
                ) != key by {
                    if side_axis(v) == i {
                        if v >= 0 {
                            assert(side_key_s(v) == pos_key_s(i as int));
                        } else {
                            assert(side_key_s(v) == neg_key_s(i as int));
                        }
                    }
                }
            }
            i = i + 1;
        }
        None
    }

    /// Display color of the side, as an RGB triple, from two fixed
    /// per-axis tables.
    pub fn color(self) -> (r: (u8, u8, u8))
        requires
            side_in_dim(self.idx(), MAX_DIM as int),
        ensures
            r == side_color_s(self.idx()),
    {
        if self.0 >= 0 {
            pos_color(self.0 as usize)
        } else {
            neg_color((-self.0 - 1) as usize)
        }
    }
}

/// One of the puzzle's axes: the positive sides, an index in `0..dim`.
#[derive(Clone, Copy, Debug, PartialEq, Eq, Hash, Structural)]
pub struct Axis(pub Side);

impl Axis {
    /// The axis's index.
    pub open spec fn idx(self) -> int {
        self.0.0 as int
    }

    pub fn new(axis: i16) -> (r: Self)
        requires
            0 <= axis < MAX_DIM,
        ensures
            r.idx() == axis,
    {
        Axis(Side(axis))
    }

    pub fn into_side(self) -> (r: Side)
        ensures
            r == self.0,
    {
        self.0
    }

    pub fn into_usize(self) -> (r: usize)
        requires
            self.idx() >= 0,
        ensures
            r == self.idx(),
    {
        self.0.0 as usize
    }

    pub fn from_usize(axis: usize) -> (r: Self)
        requires
            axis < MAX_DIM,
        ensures
            r.idx() == axis,
    {
        Axis(Side(axis as i16))
    }

    /// Keyboard key that selects this axis as a rotation endpoint.
    pub fn axis_key(self) -> (r: char)
        requires
            0 <= self.idx() < MAX_DIM,
        ensures
            r == axis_key_s(self.idx()),
    {
        axis_key_of(self.0.0 as usize)
    }

    /// The axis whose key is `key`, among the first `dim` axes.
    pub fn try_from_key(dim: u16, key: char) -> (r: Option<Self>)
        requires
            dim <= MAX_DIM,
        ensures
            r is Some ==> matches_axis_key(dim as int, key, r->0.idx()),
            r is None ==> forall|a: int| 0 <= a < dim ==> axis_key_s(a) != key,
    {
        let mut i: usize = 0;
        while i < dim as usize
            invariant
                dim <= MAX_DIM,
                i <= dim,
                forall|a: int| 0 <= a < i ==> #[trigger] axis_key_s(a) != key,
            decreases dim - i,
        {
            if axis_key_of(i) == key {
                return Some(Axis(Side(i as i16)));
            }
            i = i + 1;
        }
        None
    }
}

/// Display letters for the positive sides, indexed by axis.
fn pos_name(i: usize) -> (r: char)
    requires
        i < MAX_DIM,
    ensures
        r == pos_name_s(i as int),
{
    match i {
        0 => 'R',
        1 => 'U',
        2 => 'F',
        3 => 'O',
        4 => 'A',
        5 => 'Γ',
        6 => 'Θ',
        7 => 'Ξ',
        8 => 'Σ',
        _ => 'Ψ',
    }
}

/// Display letters for the negative sides, indexed by axis.
fn neg_name(i: usize) -> (r: char)
    requires
        i < MAX_DIM,
    ensures
        r == neg_name_s(i as int),
{
    match i {
        0 => 'L',
        1 => 'D',
        2 => 'B',
        3 => 'I',
        4 => 'P',
        5 => 'Δ',
        6 => 'Λ',
        7 => 'Π',
        8 => 'Φ',
        _ => 'Ω',
    }
}

/// Grip keys for the positive sides, indexed by axis.
fn pos_key(i: usize) -> (r: char)
    requires
        i < MAX_DIM,
    ensures
        r == pos_key_s(i as int),
{
    match i {
        0 => 'f',
        1 => 'e',
        2 => 'r',
        3 => 't',
        4 => 'v',
        5 => 'y',
        6 => 'n',
        7 => 'q',
        8 => ',',
        _ => '/',
    }
}

/// Grip keys for the negative sides, indexed by axis.
fn neg_key(i: usize) -> (r: char)
    requires
        i < MAX_DIM,
    ensures
        r == neg_key_s(i as int),
{
    match i {
        0 => 's',
        1 => 'd',
        2 => 'w',
        3 => 'g',
        4 => 'c',
        5 => 'h',
        6 => 'b',
        7 => 'a',
        8 => 'm',
        _ => '.',
    }
}

/// Rotation-endpoint keys, indexed by axis.
fn axis_key_of(i: usize) -> (r: char)
    requires
        i < MAX_DIM,
    ensures
        r == axis_key_s(i as int),
{
    match i {
        0 => 'k',
        1 => 'j',
        2 => 'l',
        3 => 'i',
        4 => 'u',
        5 => 'o',
        6 => 'p',
        7 => ';',
        8 => '[',
        _ => '\'',
    }
}

/// Display colors for the positive sides, indexed by axis.
fn pos_color(i: usize) -> (r: (u8, u8, u8))
    requires
        i < MAX_DIM,
    ensures
        r == pos_color_s(i as int),
{
    match i {
        0 => (255, 0, 0),
        1 => (255, 255, 255),
        2 => (0, 255, 0),
        3 => (255, 0, 255),
        4 => (10, 170, 133),
        5 => (119, 72, 17),
        6 => (244, 159, 239),
        7 => (178, 152, 103),
        8 => (156, 245, 66),
        _ => (7, 133, 23),
    }
}

/// Display colors for the negative sides, indexed by axis.
fn neg_color(i: usize) -> (r: (u8, u8, u8))
    requires
        i < MAX_DIM,
    ensures
        r == neg_color_s(i as int),
{
    match i {
        0 => (255, 128, 0),
        1 => (255, 255, 0),
        2 => (0, 128, 255),
        3 => (143, 16, 234),
        4 => (125, 170, 10),
        5 => (109, 69, 100),
        6 => (212, 169, 78),
        7 => (178, 121, 103),
        8 => (66, 212, 245),
        _ => (47, 47, 189),
    }
}

} // verus!
