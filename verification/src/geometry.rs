//! Coordinates and per-axis layer counts.
//!
//! An axis with layer count `n` admits the coordinate values
//! `-n, 1-n, 3-n, ..., n-3, n-1, n`: the two caps `±n` and `n` internal
//! values one step apart, all sharing the parity of `n - 1`. There are
//! always `n + 2` of them.

use vstd::prelude::*;

verus! {

use crate::MAX_LAYERS;

/// One coordinate along one axis.
#[derive(Clone, Copy, Debug, PartialEq, Eq, Hash, Structural)]
pub struct Coord(pub i16);

impl Coord {
    /// The coordinate's value as a mathematical integer.
    pub open spec fn v(self) -> int {
        self.0 as int
    }

    /// Mirror the coordinate through the axis origin.
    pub fn neg(self) -> (r: Self)
        requires
            -MAX_LAYERS <= self.v() <= MAX_LAYERS,
        ensures
            r.v() == -self.v(),
    {
        Coord(-self.0)
    }
}

/// The values of a coordinate sequence.
pub open spec fn coord_ints(s: Seq<Coord>) -> Seq<int> {
    s.map_values(|c: Coord| c.0 as int)
}

/// Equal coordinate values mean equal coordinate sequences.
pub proof fn lemma_coord_ints_injective(a: Seq<Coord>, b: Seq<Coord>)
    requires
        coord_ints(a) == coord_ints(b),
    ensures
        a == b,
{
    assert(a.len() == coord_ints(a).len());
    assert(b.len() == coord_ints(b).len());
    assert forall|i: int| 0 <= i < a.len() implies a[i] == b[i] by {
        assert(coord_ints(a)[i] == a[i].0 as int);
        assert(coord_ints(b)[i] == b[i].0 as int);
        assert(a[i].0 == b[i].0);
    }
    assert(a =~= b);
}

/// The layer count of one axis; a shape is one `Cut` per axis, so a
/// 2x3x4 puzzle is `[Cut(2), Cut(3), Cut(4)]`.
#[derive(Clone, Copy, Debug, PartialEq, Eq, Structural)]
pub struct Cut(pub i16);

/// The layer counts of a shape, as mathematical integers.
pub open spec fn shape_ints(shape: Seq<Cut>) -> Seq<int> {
    shape.map_values(|c: Cut| c.0 as int)
}

/// Whether `c` is a legal coordinate value on an axis with layer count `n`:
/// one of the two caps, or an internal value of the right parity.
pub open spec fn legal_coord(c: int, n: int) -> bool {
    c == n || c == -n || (-n < c < n && (c + n) % 2 == 1)
}

/// The ordered list of legal coordinate values on an axis with layer
/// count `n`: `-n`, then the internal values, then `n`.
pub open spec fn axis_coords(n: int) -> Seq<int> {
    Seq::new((n + 2) as nat, |i: int| if i == 0 { -n } else if i == n + 1 { n } else { 2 * i - n - 1 })
}

/// `axis_coords` lists exactly the legal values.
pub proof fn lemma_axis_coords_contains(n: int, c: int)
    requires
        1 <= n,
    ensures
        axis_coords(n).contains(c) <==> legal_coord(c, n),
{
    if legal_coord(c, n) {
        if c == -n {
            assert(axis_coords(n)[0] == c);
        } else if c == n {
            assert(axis_coords(n)[n + 1] == c);
        } else {
            let i = (c + n + 1) / 2;
            assert(c + n == 2 * i - 1) by {
                assert((c + n) % 2 == 1);
                assert(c + n == 2 * ((c + n) / 2) + (c + n) % 2);
            }
            assert(1 <= i <= n);
            assert(axis_coords(n)[i] == c);
        }
        assert(axis_coords(n).contains(c));
    }
    if axis_coords(n).contains(c) {
        let i = choose|i: int| 0 <= i < axis_coords(n).len() && axis_coords(n)[i] == c;
        if i != 0 && i != n + 1 {
            assert(c == 2 * i - n - 1);
            assert(c + n == 2 * i - 1);
            assert((c + n) % 2 == 1) by {
                assert(2 * i - 1 == 2 * (i - 1) + 1);
            }
        }
    }
}

/// `axis_coords` is strictly increasing, so it has no duplicates.
pub proof fn lemma_axis_coords_distinct(n: int)
    requires
        1 <= n,
    ensures
        axis_coords(n).no_duplicates(),
{
    assert forall|i: int, j: int|
        0 <= i < j < axis_coords(n).len() implies axis_coords(n)[i] != axis_coords(n)[j] by {
        assert(axis_coords(n)[i] < axis_coords(n)[j]);
    }
}

/// Every layer count of the shape is well formed.
pub open spec fn cuts_wf(shape: Seq<Cut>) -> bool {
    forall|i: int| 0 <= i < shape.len() ==> (#[trigger] shape[i]).wf()
}

/// A copy of a shape vector.
pub fn clone_shape(shape: &Vec<Cut>) -> (r: Vec<Cut>)
    ensures
        r@ == shape@,
{
    let mut r: Vec<Cut> = Vec::new();
    let mut i: usize = 0;
    while i < shape.len()
        invariant
            i <= shape@.len(),
            r@.len() == i,
            forall|k: int| 0 <= k < i ==> #[trigger] r@[k] == shape@[k],
        decreases shape@.len() - i,
    {
        r.push(shape[i]);
        i = i + 1;
    }
    proof {
        assert(r@ =~= shape@);
    }
    r
}

impl Cut {
    /// The layer count as a mathematical integer.
    pub open spec fn v(self) -> int {
        self.0 as int
    }

    /// A layer count is well formed in `1..=MAX_LAYERS`.
    pub open spec fn wf(self) -> bool {
        1 <= self.v() <= MAX_LAYERS
    }

    /// All legal coordinate values along this axis, in increasing order.
    pub fn coords(self) -> (r: Vec<Coord>)
        requires
            self.wf(),
        ensures
            coord_ints(r@) == axis_coords(self.v()),
    {
        let n = self.0;
        let mut r: Vec<Coord> = Vec::new();
        r.push(Coord(-n));
        let mut i: i16 = 1;
        while i <= n
            invariant
                1 <= i <= n + 1,
                1 <= n <= MAX_LAYERS,
                r@.len() == i,
                forall|k: int|
                    0 <= k < i ==> #[trigger] r@[k].v() == axis_coords(n as int)[k],
            decreases n + 1 - i,
        {
            r.push(Coord(2 * i - n - 1));
            i = i + 1;
        }
        r.push(Coord(n));
        proof {
            assert forall|k: int|
                0 <= k < r@.len() implies coord_ints(r@)[k] == axis_coords(self.v())[k] by {
                assert(coord_ints(r@)[k] == r@[k].0 as int);
                assert(r@[k].v() == axis_coords(n as int)[k]);
            }
            assert(coord_ints(r@) =~= axis_coords(self.v()));
        }
        r
    }
}

} // verus!
