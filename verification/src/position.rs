//! Positions and their classification into stickers, pieces and internal
//! cells.
//!
//! A position is one coordinate per axis. It is valid when at most one axis
//! sits at a cap (`±n`); a sticker has exactly one capped axis, and a piece
//! has none but sits one step short of a cap on at least one axis.

use vstd::prelude::*;

verus! {

use crate::enumerate::{cartesian, cartesian_product, lemma_cartesian_contains, lemma_cartesian_distinct};
use crate::geometry::{
    Coord, Cut, axis_coords, coord_ints, cuts_wf, legal_coord, lemma_axis_coords_contains,
    lemma_axis_coords_distinct, lemma_coord_ints_injective, shape_ints,
};
use crate::side::{Side, side_in_dim, side_ints, side_opp};
use crate::MAX_DIM;
use crate::MAX_LAYERS;

/// How many of the first `k` indices satisfy `p`.
pub open spec fn count_upto(p: spec_fn(int) -> bool, k: int) -> int
    decreases k,
{
    if k <= 0 {
        0
    } else {
        count_upto(p, k - 1) + if p(k - 1) {
            1int
        } else {
            0int
        }
    }
}

/// Axis `i` of position `s` sits at its cap.
pub open spec fn is_capped_at(s: Seq<int>, shape: Seq<int>, i: int) -> bool {
    s[i] == shape[i] || s[i] == -shape[i]
}

/// Axis `i` of position `s` sits one step short of its cap.
pub open spec fn is_near_at(s: Seq<int>, shape: Seq<int>, i: int) -> bool {
    s[i] == shape[i] - 1 || s[i] == 1 - shape[i]
}

pub open spec fn capped_pred(s: Seq<int>, shape: Seq<int>) -> spec_fn(int) -> bool {
    |i: int| is_capped_at(s, shape, i)
}

pub open spec fn near_pred(s: Seq<int>, shape: Seq<int>) -> spec_fn(int) -> bool {
    |i: int| is_near_at(s, shape, i)
}

/// How many axes of `s` sit at their cap.
pub open spec fn capped_count(s: Seq<int>, shape: Seq<int>) -> int {
    count_upto(capped_pred(s, shape), s.len() as int)
}

/// How many axes of `s` sit one step short of their cap.
pub open spec fn near_count(s: Seq<int>, shape: Seq<int>) -> int {
    count_upto(near_pred(s, shape), s.len() as int)
}

/// Every coordinate of `s` is a legal value for its axis.
pub open spec fn coords_legal(s: Seq<int>, shape: Seq<int>) -> bool {
    s.len() == shape.len() && forall|i: int|
        0 <= i < s.len() ==> legal_coord(#[trigger] s[i], shape[i])
}

/// A valid position: legal coordinates, at most one capped axis.
pub open spec fn pos_valid(s: Seq<int>, shape: Seq<int>) -> bool {
    coords_legal(s, shape) && capped_count(s, shape) <= 1
}

/// A sticker position: exactly one capped axis.
pub open spec fn is_sticker_s(s: Seq<int>, shape: Seq<int>) -> bool {
    coords_legal(s, shape) && capped_count(s, shape) == 1
}

/// A piece position: no capped axis, at least one axis one step short.
pub open spec fn is_piece_s(s: Seq<int>, shape: Seq<int>) -> bool {
    coords_legal(s, shape) && capped_count(s, shape) == 0 && near_count(s, shape) >= 1
}

/// All sticker positions of a shape.
pub open spec fn sticker_set(shape: Seq<int>) -> Set<Seq<int>> {
    Set::new(|s: Seq<int>| is_sticker_s(s, shape))
}

/// The one capped axis of a sticker position.
pub open spec fn capped_axis(s: Seq<int>, shape: Seq<int>) -> int {
    choose|i: int| 0 <= i < s.len() && is_capped_at(s, shape, i)
}

/// The side a sticker position lies on: its capped axis, on the polarity
/// of the capped coordinate.
pub open spec fn sticker_side_s(s: Seq<int>, shape: Seq<int>) -> int {
    if s[capped_axis(s, shape)] == shape[capped_axis(s, shape)] {
        capped_axis(s, shape)
    } else {
        side_opp(capped_axis(s, shape))
    }
}

/// The piece a sticker lies on: its capped coordinate pulled one step
/// toward the origin.
pub open spec fn piece_of_sticker(s: Seq<int>, shape: Seq<int>) -> Seq<int> {
    Seq::new(
        s.len(),
        |i: int|
            if s[i] == shape[i] {
                s[i] - 1
            } else if s[i] == -shape[i] {
                s[i] + 1
            } else {
                s[i]
            },
    )
}

/// The sides a piece touches, one per near-cap axis in axis order; the
/// positive side wins when an axis is near both caps.
pub open spec fn piece_sides_upto(s: Seq<int>, shape: Seq<int>, k: int) -> Seq<int>
    decreases k,
{
    if k <= 0 {
        Seq::empty()
    } else {
        piece_sides_upto(s, shape, k - 1) + if s[k - 1] + 1 == shape[k - 1] {
            seq![k - 1]
        } else if 1 - s[k - 1] == shape[k - 1] {
            seq![side_opp(k - 1)]
        } else {
            Seq::empty()
        }
    }
}

pub proof fn lemma_count_nonneg(p: spec_fn(int) -> bool, k: int)
    ensures
        count_upto(p, k) >= 0,
    decreases k,
{
    if k > 0 {
        lemma_count_nonneg(p, k - 1);
    }
}

pub proof fn lemma_count_mono(p: spec_fn(int) -> bool, j: int, k: int)
    requires
        j <= k,
    ensures
        count_upto(p, j) <= count_upto(p, k),
    decreases k - j,
{
    if j < k {
        lemma_count_mono(p, j, k - 1);
    }
}

/// One index satisfying `p` makes the count at least one.
pub proof fn lemma_count_at_least_one(p: spec_fn(int) -> bool, i: int, k: int)
    requires
        0 <= i < k,
        p(i),
    ensures
        count_upto(p, k) >= 1,
{
    lemma_count_nonneg(p, i);
    assert(count_upto(p, i + 1) >= 1);
    lemma_count_mono(p, i + 1, k);
}

/// Two indices satisfying `p` make the count at least two.
pub proof fn lemma_count_two(p: spec_fn(int) -> bool, i: int, j: int, k: int)
    requires
        0 <= i < j < k,
        p(i),
        p(j),
    ensures
        count_upto(p, k) >= 2,
{
    lemma_count_at_least_one(p, i, j);
    assert(count_upto(p, j + 1) >= 2);
    lemma_count_mono(p, j + 1, k);
}

/// The count is zero exactly when no index satisfies `p`.
pub proof fn lemma_count_zero(p: spec_fn(int) -> bool, k: int)
    ensures
        (count_upto(p, k) == 0) <==> (forall|i: int| 0 <= i < k ==> !#[trigger] p(i)),
    decreases k,
{
    if k > 0 {
        lemma_count_zero(p, k - 1);
        lemma_count_nonneg(p, k - 1);
    }
}

/// Counting is pointwise: predicates that agree below `n` count alike.
pub proof fn lemma_count_ptwise(p: spec_fn(int) -> bool, q: spec_fn(int) -> bool, n: int)
    requires
        forall|j: int| 0 <= j < n ==> #[trigger] p(j) == q(j),
    ensures
        count_upto(p, n) == count_upto(q, n),
    decreases n,
{
    if n > 0 {
        lemma_count_ptwise(p, q, n - 1);
    }
}

/// A single index satisfying `p` makes the count exactly one.
pub proof fn lemma_count_single(p: spec_fn(int) -> bool, i: int, k: int)
    requires
        0 <= i < k,
        p(i),
        forall|j: int| 0 <= j < k && j != i ==> !#[trigger] p(j),
    ensures
        count_upto(p, k) == 1,
    decreases k,
{
    if i == k - 1 {
        lemma_count_zero(p, k - 1);
    } else {
        lemma_count_single(p, i, k - 1);
    }
}

/// On a position with exactly one capped axis, any capped axis is the
/// `capped_axis`.
pub proof fn lemma_capped_axis_unique(s: Seq<int>, shape: Seq<int>, i: int)
    requires
        capped_count(s, shape) == 1,
        0 <= i < s.len(),
        is_capped_at(s, shape, i),
    ensures
        capped_axis(s, shape) == i,
{
    let a = capped_axis(s, shape);
    assert(0 <= a < s.len() && is_capped_at(s, shape, a));
    if a < i {
        lemma_count_two(capped_pred(s, shape), a, i, s.len() as int);
    } else if i < a {
        lemma_count_two(capped_pred(s, shape), i, a, s.len() as int);
    }
}

/// A position with a capped axis has a well-defined `capped_axis`.
pub proof fn lemma_capped_axis_exists(s: Seq<int>, shape: Seq<int>)
    requires
        capped_count(s, shape) >= 1,
    ensures
        0 <= capped_axis(s, shape) < s.len(),
        is_capped_at(s, shape, capped_axis(s, shape)),
{
    lemma_count_zero(capped_pred(s, shape), s.len() as int);
    assert(exists|i: int| 0 <= i < s.len() && is_capped_at(s, shape, i)) by {
        assert(!(forall|i: int| 0 <= i < s.len() ==> !#[trigger] capped_pred(s, shape)(i)));
        let i = choose|i: int| 0 <= i < s.len() && #[trigger] capped_pred(s, shape)(i);
        assert(is_capped_at(s, shape, i));
    }
}

/// The piece below a sticker is a piece position.
pub proof fn lemma_piece_of_sticker_is_piece(s: Seq<int>, shape: Seq<int>)
    requires
        is_sticker_s(s, shape),
        forall|i: int| 0 <= i < shape.len() ==> 1 <= #[trigger] shape[i],
    ensures
        is_piece_s(piece_of_sticker(s, shape), shape),
{
    let p = piece_of_sticker(s, shape);
    lemma_capped_axis_exists(s, shape);
    let a = capped_axis(s, shape);
    assert forall|i: int| 0 <= i < p.len() implies legal_coord(#[trigger] p[i], shape[i]) by {
        if s[i] == shape[i] || s[i] == -shape[i] {
            lemma_capped_axis_unique(s, shape, i);
            assert(legal_coord(p[i], shape[i])) by {
                assert(p[i] == shape[i] - 1 || p[i] == 1 - shape[i]);
                if shape[i] == 1 {
                    assert(p[i] == 0);
                    assert((0 + 1) % 2 == 1);
                } else {
                    assert(-shape[i] < p[i] < shape[i]);
                    assert((p[i] + shape[i]) % 2 == 1) by {
                        assert(p[i] + shape[i] == 2 * shape[i] - 1 || p[i] + shape[i] == 1);
                        assert((2 * shape[i] - 1) % 2 == 1) by {
                            assert(2 * shape[i] - 1 == 2 * (shape[i] - 1) + 1);
                        }
                    }
                }
            }
        }
    }
    assert forall|i: int| 0 <= i < p.len() implies !#[trigger] capped_pred(p, shape)(i) by {
        if p[i] == shape[i] || p[i] == -shape[i] {
            if s[i] == shape[i] || s[i] == -shape[i] {
                assert(shape[i] >= 1);
            } else {
                lemma_count_at_least_one(capped_pred(s, shape), i, s.len() as int);
                lemma_capped_axis_unique(s, shape, i);
            }
        }
    }
    lemma_count_zero(capped_pred(p, shape), p.len() as int);
    assert(is_near_at(p, shape, a)) by {
        assert(s[a] == shape[a] || s[a] == -shape[a]);
    }
    lemma_count_at_least_one(near_pred(p, shape), a, p.len() as int);
}

/// A piece touches at least one side.
pub proof fn lemma_piece_sides_nonempty(s: Seq<int>, shape: Seq<int>, k: int)
    requires
        count_upto(near_pred(s, shape), k) >= 1,
    ensures
        piece_sides_upto(s, shape, k).len() >= 1,
    decreases k,
{
    if k > 0 {
        lemma_count_nonneg(near_pred(s, shape), k - 1);
        if count_upto(near_pred(s, shape), k - 1) >= 1 {
            lemma_piece_sides_nonempty(s, shape, k - 1);
        } else {
            assert(is_near_at(s, shape, k - 1));
            assert(s[k - 1] + 1 == shape[k - 1] || 1 - s[k - 1] == shape[k - 1]);
        }
    }
}

/// The legal coordinate values of an axis, as `Coord`s.
pub open spec fn axis_coords_c(n: int) -> Seq<Coord> {
    Seq::new((n + 2) as nat, |i: int| Coord(axis_coords(n)[i] as i16))
}

/// The full cartesian product of a shape's coordinate lists, in
/// enumeration order.
pub open spec fn shape_rows(shape: Seq<int>) -> Seq<Seq<Coord>> {
    cartesian(Seq::new(shape.len(), |i: int| axis_coords_c(shape[i])))
}

/// The rows that are valid positions, in order, as coordinate values.
pub open spec fn valid_rows(rows: Seq<Seq<Coord>>, shape: Seq<int>) -> Seq<Seq<int>>
    decreases rows.len(),
{
    if rows.len() == 0 {
        Seq::empty()
    } else {
        valid_rows(rows.drop_last(), shape) + if capped_count(
            coord_ints(rows.last()),
            shape,
        ) <= 1 {
            seq![coord_ints(rows.last())]
        } else {
            Seq::empty()
        }
    }
}

/// The exact sequence `Position::all` yields: the cartesian product of
/// the per-axis coordinate lists, last axis fastest, filtered to the
/// valid positions. Deterministic in the shape alone.
pub open spec fn all_positions_seq(shape: Seq<int>) -> Seq<Seq<int>> {
    valid_rows(shape_rows(shape), shape)
}

/// Any (possibly internal) valid position: at most one axis is capped.
#[derive(Debug, PartialEq, Eq, Hash)]
pub struct Position(pub Vec<Coord>);

impl View for Position {
    type V = Seq<int>;

    open spec fn view(&self) -> Seq<int> {
        coord_ints(self.0@)
    }
}

impl Clone for Position {
    /// A copy holding the same coordinates.
    fn clone(&self) -> (r: Self)
        ensures
            r.0@ == self.0@,
            r@ == self@,
    {
        let mut v: Vec<Coord> = Vec::new();
        let mut i: usize = 0;
        while i < self.0.len()
            invariant
                i <= self.0@.len(),
                v@.len() == i,
                forall|k: int| 0 <= k < i ==> #[trigger] v@[k] == self.0@[k],
            decreases self.0@.len() - i,
        {
            v.push(self.0[i]);
            i = i + 1;
        }
        proof {
            assert(v@ =~= self.0@);
        }
        Position(v)
    }
}

/// Counts the axes of `coords` that sit at their cap.
fn count_capped(shape: &Vec<Cut>, coords: &Vec<Coord>) -> (r: usize)
    requires
        coords@.len() == shape@.len(),
        cuts_wf(shape@),
    ensures
        r == capped_count(coord_ints(coords@), shape_ints(shape@)),
{
    let s = Ghost(coord_ints(coords@));
    let sh = Ghost(shape_ints(shape@));
    let mut cnt: usize = 0;
    let mut i: usize = 0;
    while i < coords.len()
        invariant
            coords@.len() == shape@.len(),
            cuts_wf(shape@),
            i <= coords@.len(),
            cnt <= i,
            s@ == coord_ints(coords@),
            sh@ == shape_ints(shape@),
            cnt == count_upto(capped_pred(s@, sh@), i as int),
        decreases coords@.len() - i,
    {
        let c = coords[i].0;
        let n = shape[i].0;
        proof {
            assert(s@[i as int] == c as int);
            assert(sh@[i as int] == n as int);
            assert(count_upto(capped_pred(s@, sh@), i + 1) == count_upto(
                capped_pred(s@, sh@),
                i as int,
            ) + if capped_pred(s@, sh@)(i as int) {
                1int
            } else {
                0int
            });
        }
        if c == n || c == -n {
            cnt = cnt + 1;
        }
        i = i + 1;
    }
    cnt
}

/// Counts the axes of `coords` that sit one step short of their cap.
fn count_near(shape: &Vec<Cut>, coords: &Vec<Coord>) -> (r: usize)
    requires
        coords@.len() == shape@.len(),
        cuts_wf(shape@),
    ensures
        r == near_count(coord_ints(coords@), shape_ints(shape@)),
{
    let s = Ghost(coord_ints(coords@));
    let sh = Ghost(shape_ints(shape@));
    let mut cnt: usize = 0;
    let mut i: usize = 0;
    while i < coords.len()
        invariant
            coords@.len() == shape@.len(),
            cuts_wf(shape@),
            i <= coords@.len(),
            cnt <= i,
            s@ == coord_ints(coords@),
            sh@ == shape_ints(shape@),
            cnt == count_upto(near_pred(s@, sh@), i as int),
        decreases coords@.len() - i,
    {
        let c = coords[i].0;
        let n = shape[i].0;
        proof {
            assert(s@[i as int] == c as int);
            assert(sh@[i as int] == n as int);
            assert(count_upto(near_pred(s@, sh@), i + 1) == count_upto(
                near_pred(s@, sh@),
                i as int,
            ) + if near_pred(s@, sh@)(i as int) {
                1int
            } else {
                0int
            });
        }
        if c == n - 1 || c == 1 - n {
            cnt = cnt + 1;
        }
        i = i + 1;
    }
    cnt
}

impl Position {
    /// Wrap the coordinates when they form a valid position.
    pub fn try_new(shape: &Vec<Cut>, coords: Vec<Coord>) -> (r: Option<Self>)
        requires
            coords@.len() == shape@.len(),
            cuts_wf(shape@),
        ensures
            r is Some <==> capped_count(coord_ints(coords@), shape_ints(shape@)) <= 1,
            r is Some ==> r->0@ == coord_ints(coords@),
    {
        if count_capped(shape, &coords) <= 1 {
            Some(Position(coords))
        } else {
            None
        }
    }

    /// Wrap coordinates already known to form a valid position.
    pub fn new(shape: &Vec<Cut>, coords: Vec<Coord>) -> (r: Self)
        requires
            coords@.len() == shape@.len(),
            cuts_wf(shape@),
            capped_count(coord_ints(coords@), shape_ints(shape@)) <= 1,
        ensures
            r@ == coord_ints(coords@),
    {
        Position(coords)
    }

    /// Exactly one coordinate is at its cap.
    pub fn is_sticker(&self, shape: &Vec<Cut>) -> (r: bool)
        requires
            self@.len() == shape@.len(),
            cuts_wf(shape@),
        ensures
            r == (capped_count(self@, shape_ints(shape@)) == 1),
    {
        count_capped(shape, &self.0) == 1
    }

    /// At least one coordinate is one step short of its cap, and none is
    /// at a cap.
    pub fn is_piece(&self, shape: &Vec<Cut>) -> (r: bool)
        requires
            self@.len() == shape@.len(),
            cuts_wf(shape@),
        ensures
            r == (capped_count(self@, shape_ints(shape@)) == 0 && near_count(
                self@,
                shape_ints(shape@),
            ) >= 1),
    {
        count_near(shape, &self.0) > 0 && count_capped(shape, &self.0) == 0
    }

    /// Every valid position of the shape, each exactly once. The order is
    /// the deterministic cartesian-product order, but nothing else depends
    /// on it.
    pub fn all(shape: &Vec<Cut>) -> (r: Vec<Position>)
        requires
            cuts_wf(shape@),
        ensures
            pos_views(r@) == all_positions_seq(shape_ints(shape@)),
            forall|t: int|
                0 <= t < r@.len() ==> pos_valid(#[trigger] r@[t]@, shape_ints(shape@)),
            forall|s: Seq<int>|
                pos_valid(s, shape_ints(shape@)) ==> #[trigger] pos_views(r@).contains(s),
            pos_views(r@).no_duplicates(),
    {
        let ghost shints = shape_ints(shape@);
        let mut axes: Vec<Vec<Coord>> = Vec::new();
        let mut j: usize = 0;
        while j < shape.len()
            invariant
                cuts_wf(shape@),
                j <= shape@.len(),
                axes@.len() == j,
                forall|k: int|
                    0 <= k < j ==> coord_ints(#[trigger] axes@[k]@) == axis_coords(
                        shape_ints(shape@)[k],
                    ),
            decreases shape@.len() - j,
        {
            proof {
                assert(shape@[j as int].wf());
            }
            axes.push(shape[j].coords());
            j = j + 1;
        }
        let cart = cartesian_product(&axes);
        let ghost axseq = axes@.map_values(|v: Vec<Coord>| v@);
        let ghost cartv = cart@.map_values(|v: Vec<Coord>| v@);
        proof {
            assert(cartv == cartesian(axseq));
            assert(axseq.len() == shape@.len());
            assert forall|k: int| 0 <= k < axseq.len() implies coord_ints(
                #[trigger] axseq[k],
            ) == axis_coords(shints[k]) by {
                assert(axseq[k] == axes@[k]@);
            }
            assert forall|k: int|
                0 <= k < axseq.len() implies (#[trigger] axseq[k]).no_duplicates() by {
                assert(shape@[k].wf());
                lemma_axis_coords_distinct(shints[k]);
                assert forall|a: int, b: int|
                    0 <= a < b < axseq[k].len() implies axseq[k][a] != axseq[k][b] by {
                    if axseq[k][a] == axseq[k][b] {
                        assert(coord_ints(axseq[k])[a] == axseq[k][a].0 as int);
                        assert(coord_ints(axseq[k])[b] == axseq[k][b].0 as int);
                        assert(axis_coords(shints[k])[a] == axis_coords(shints[k])[b]);
                    }
                }
            }
            lemma_cartesian_distinct(axseq);
            assert forall|k: int| 0 <= k < axseq.len() implies #[trigger] axseq[k]
                == axis_coords_c(shints[k]) by {
                assert(shape@[k].wf());
                assert forall|w: int|
                    0 <= w < axseq[k].len() implies axseq[k][w] == axis_coords_c(shints[k])[
                    w
                ] by {
                    let n = shints[k];
                    assert(1 <= n <= MAX_LAYERS);
                    assert(coord_ints(axseq[k])[w] == axseq[k][w].0 as int);
                    assert(axseq[k].len() == axis_coords(n).len());
                    assert(axseq[k][w].0 as int == axis_coords(n)[w]);
                    assert(axis_coords(n)[w] == (if w == 0 {
                        -n
                    } else if w == n + 1 {
                        n
                    } else {
                        2 * w - n - 1
                    }));
                    assert(-19 <= axis_coords(n)[w] <= 19);
                    assert(axis_coords_c(n)[w] == Coord(axis_coords(n)[w] as i16));
                    assert(axseq[k][w].0 == axis_coords(n)[w] as i16);
                }
                assert(axseq[k].len() == axis_coords(shints[k]).len());
                assert(axseq[k].len() == axis_coords_c(shints[k]).len());
                assert(axseq[k] =~= axis_coords_c(shints[k]));
            }
            assert(axseq =~= Seq::new(shints.len(), |i: int| axis_coords_c(shints[i])));
            assert(cartv == shape_rows(shints));
        }
        let mut out: Vec<Position> = Vec::new();
        let ghost mut src: Seq<int> = Seq::empty();
        let mut t: usize = 0;
        proof {
            assert(cartv.take(0) =~= Seq::<Seq<Coord>>::empty());
            assert(pos_views(out@) =~= valid_rows(cartv.take(0), shints));
        }
        while t < cart.len()
            invariant
                cuts_wf(shape@),
                shints == shape_ints(shape@),
                axseq.len() == shape@.len(),
                cartv == cart@.map_values(|v: Vec<Coord>| v@),
                cartv == cartesian(axseq),
                cartv.no_duplicates(),
                forall|k: int|
                    0 <= k < axseq.len() ==> coord_ints(#[trigger] axseq[k]) == axis_coords(
                        shints[k],
                    ),
                forall|k: int| 0 <= k < axseq.len() ==> (#[trigger] axseq[k]).no_duplicates(),
                t <= cart@.len(),
                src.len() == out@.len(),
                forall|u: int| 0 <= u < src.len() ==> 0 <= #[trigger] src[u] < t,
                forall|u1: int, u2: int|
                    #![trigger src[u1], src[u2]]
                    0 <= u1 < u2 < src.len() ==> src[u1] < src[u2],
                forall|u: int|
                    0 <= u < out@.len() ==> #[trigger] out@[u]@ == coord_ints(cartv[src[u]]),
                forall|u: int| 0 <= u < out@.len() ==> pos_valid(#[trigger] out@[u]@, shints),
                forall|k: int|
                    0 <= k < t && capped_count(coord_ints(#[trigger] cartv[k]), shints) <= 1
                        ==> pos_views(out@).contains(coord_ints(cartv[k])),
                cartv == shape_rows(shints),
                pos_views(out@) == valid_rows(cartv.take(t as int), shints),
            decreases cart@.len() - t,
        {
            let row = &cart[t];
            proof {
                assert(cartv[t as int] == row@);
                assert(cartv.contains(cartv[t as int]));
                lemma_cartesian_contains(axseq, row@);
                assert(row@.len() == shape@.len());
            }
            let mut coords: Vec<Coord> = Vec::new();
            let mut k2: usize = 0;
            while k2 < row.len()
                invariant
                    k2 <= row@.len(),
                    coords@.len() == k2,
                    forall|w: int| 0 <= w < k2 ==> #[trigger] coords@[w] == row@[w],
                decreases row@.len() - k2,
            {
                coords.push(row[k2]);
                k2 = k2 + 1;
            }
            proof {
                assert(coords@ =~= row@);
                lemma_row_legal(axseq, shints, row@);
            }
            let cnt = count_capped(shape, &coords);
            let ghost old_out = out@;
            if cnt <= 1 {
                out.push(Position(coords));
                proof {
                    src = src.push(t as int);
                    assert(out@[out@.len() - 1]@ == coord_ints(cartv[t as int]));
                }
            }
            proof {
                assert forall|k: int|
                    0 <= k < t + 1 && capped_count(coord_ints(#[trigger] cartv[k]), shints)
                        <= 1 implies pos_views(out@).contains(coord_ints(cartv[k])) by {
                    if k < t {
                        let u = choose|u: int|
                            0 <= u < pos_views(old_out).len() && pos_views(old_out)[u]
                                == coord_ints(cartv[k]);
                        assert(pos_views(out@)[u] == coord_ints(cartv[k]));
                    } else {
                        assert(capped_count(coord_ints(cartv[t as int]), shints) <= 1);
                        let last = pos_views(out@).len() - 1;
                        assert(pos_views(out@)[last] == coord_ints(cartv[t as int]));
                    }
                }
                let pre = cartv.take(t as int);
                let post = cartv.take(t + 1);
                assert(post.drop_last() =~= pre);
                assert(post.last() == cartv[t as int]);
                assert(coords@ == cartv[t as int]);
                assert(valid_rows(post, shints) == valid_rows(pre, shints) + (if capped_count(
                    coord_ints(cartv[t as int]),
                    shints,
                ) <= 1 {
                    seq![coord_ints(cartv[t as int])]
                } else {
                    Seq::<Seq<int>>::empty()
                }));
                if cnt <= 1 {
                    assert(pos_views(out@) =~= pos_views(old_out).push(
                        coord_ints(cartv[t as int]),
                    )) by {
                        assert forall|w: int|
                            0 <= w < pos_views(out@).len() implies pos_views(out@)[w] == pos_views(
                            old_out,
                        ).push(coord_ints(cartv[t as int]))[w] by {
                            if w < old_out.len() {
                                assert(pos_views(out@)[w] == old_out[w]@);
                                assert(pos_views(old_out)[w] == old_out[w]@);
                            } else {
                                assert(pos_views(out@)[w] == out@[w]@);
                            }
                        }
                    }
                    assert(valid_rows(pre, shints) + seq![coord_ints(cartv[t as int])]
                        =~= valid_rows(pre, shints).push(coord_ints(cartv[t as int])));
                } else {
                    assert(valid_rows(pre, shints) + Seq::<Seq<int>>::empty() =~= valid_rows(
                        pre,
                        shints,
                    ));
                }
                assert(pos_views(out@) == valid_rows(post, shints));
            }
            t = t + 1;
        }
        proof {
            assert(cartv.take(cart@.len() as int) =~= cartv);
            assert(pos_views(out@) == valid_rows(cartv, shints));
            assert(pos_views(out@) == all_positions_seq(shints));
            assert forall|s: Seq<int>|
                pos_valid(s, shints) implies #[trigger] pos_views(out@).contains(s) by {
                let row = Ghost(Seq::new(s.len(), |i: int| Coord(s[i] as i16)));
                lemma_legal_row(axseq, shints, s);
                lemma_cartesian_contains(axseq, row@);
                assert(cartv.contains(row@));
                let k = choose|k: int| 0 <= k < cartv.len() && cartv[k] == row@;
                assert(capped_count(coord_ints(cartv[k]), shints) <= 1);
                assert(pos_views(out@).contains(coord_ints(cartv[k])));
            }
            assert forall|u1: int, u2: int|
                0 <= u1 < u2 < pos_views(out@).len() implies pos_views(out@)[u1] != pos_views(
                out@,
            )[u2] by {
                if pos_views(out@)[u1] == pos_views(out@)[u2] {
                    assert(coord_ints(cartv[src[u1]]) == coord_ints(cartv[src[u2]]));
                    lemma_coord_ints_injective(cartv[src[u1]], cartv[src[u2]]);
                }
            }
        }
        out
    }
}

/// The views of a sequence of positions.
pub open spec fn pos_views(ps: Seq<Position>) -> Seq<Seq<int>> {
    ps.map_values(|p: Position| p@)
}

/// A position lying on exactly one face: a single colored facelet.
#[derive(Debug, PartialEq, Eq, Hash)]
pub struct Sticker(pub Position);

impl View for Sticker {
    type V = Seq<int>;

    open spec fn view(&self) -> Seq<int> {
        self.0@
    }
}

impl Clone for Sticker {
    /// A copy holding the same position.
    fn clone(&self) -> (r: Self)
        ensures
            r.0.0@ == self.0.0@,
            r@ == self@,
    {
        Sticker(self.0.clone())
    }
}

impl Sticker {
    /// Wrap a valid position when it is a sticker.
    pub fn try_from(shape: &Vec<Cut>, pos: Position) -> (r: Option<Self>)
        requires
            pos@.len() == shape@.len(),
            cuts_wf(shape@),
        ensures
            r is Some <==> capped_count(pos@, shape_ints(shape@)) == 1,
            r is Some ==> r->0@ == pos@,
    {
        if pos.is_sticker(shape) {
            Some(Sticker(pos))
        } else {
            None
        }
    }

    /// Wrap the coordinates when they form a sticker position.
    pub fn try_new(shape: &Vec<Cut>, coords: Vec<Coord>) -> (r: Option<Self>)
        requires
            coords@.len() == shape@.len(),
            cuts_wf(shape@),
        ensures
            r is Some <==> capped_count(coord_ints(coords@), shape_ints(shape@)) == 1,
            r is Some ==> r->0@ == coord_ints(coords@),
    {
        match Position::try_new(shape, coords) {
            Some(pos) => Sticker::try_from(shape, pos),
            None => None,
        }
    }

    /// Wrap coordinates already known to form a sticker position.
    pub fn new(shape: &Vec<Cut>, coords: Vec<Coord>) -> (r: Self)
        requires
            coords@.len() == shape@.len(),
            cuts_wf(shape@),
            capped_count(coord_ints(coords@), shape_ints(shape@)) == 1,
        ensures
            r@ == coord_ints(coords@),
    {
        Sticker(Position(coords))
    }

    /// The piece this sticker lies on: the capped coordinate is pulled one
    /// step inward.
    pub fn piece(&self, shape: &Vec<Cut>) -> (r: Piece)
        requires
            is_sticker_s(self@, shape_ints(shape@)),
            cuts_wf(shape@),
        ensures
            r@ == piece_of_sticker(self@, shape_ints(shape@)),
    {
        let ghost shints = shape_ints(shape@);
        let mut coords: Vec<Coord> = Vec::new();
        let mut i: usize = 0;
        while i < self.0.0.len()
            invariant
                is_sticker_s(self@, shape_ints(shape@)),
                cuts_wf(shape@),
                shints == shape_ints(shape@),
                self@.len() == shape@.len(),
                i <= self@.len(),
                coords@.len() == i,
                forall|k: int|
                    0 <= k < i ==> #[trigger] coords@[k].0 as int == piece_of_sticker(
                        self@,
                        shints,
                    )[k],
            decreases self@.len() - i,
        {
            let c = self.0.0[i];
            let n = shape[i].0;
            proof {
                assert(self@[i as int] == c.0 as int);
                assert(shints[i as int] == n as int);
                assert(legal_coord(self@[i as int], shints[i as int]));
                assert(shape@[i as int].wf());
            }
            if c.0 == n {
                coords.push(Coord(c.0 - 1));
            } else if c.0 == -n {
                coords.push(Coord(c.0 + 1));
            } else {
                coords.push(c);
            }
            i = i + 1;
        }
        proof {
            lemma_piece_of_sticker_is_piece(self@, shints);
            assert(coord_ints(coords@) =~= piece_of_sticker(self@, shints)) by {
                assert forall|k: int|
                    0 <= k < coords@.len() implies coord_ints(coords@)[k] == piece_of_sticker(
                    self@,
                    shints,
                )[k] by {
                    assert(coord_ints(coords@)[k] == coords@[k].0 as int);
                }
            }
        }
        Piece(Position(coords))
    }

    /// The side this sticker lies on.
    pub fn side(&self, shape: &Vec<Cut>) -> (r: Side)
        requires
            is_sticker_s(self@, shape_ints(shape@)),
            cuts_wf(shape@),
            shape@.len() <= MAX_DIM,
        ensures
            r.idx() == sticker_side_s(self@, shape_ints(shape@)),
            side_in_dim(r.idx(), shape@.len() as int),
    {
        let ghost shints = shape_ints(shape@);
        let mut i: usize = 0;
        while i < self.0.0.len()
            invariant
                is_sticker_s(self@, shape_ints(shape@)),
                cuts_wf(shape@),
                shints == shape_ints(shape@),
                self@.len() == shape@.len(),
                shape@.len() <= MAX_DIM,
                i <= self@.len(),
                forall|k: int| 0 <= k < i ==> !is_capped_at(self@, shints, #[trigger] (k + 0)),
            decreases self@.len() - i,
        {
            let c = self.0.0[i].0;
            let n = shape[i].0;
            proof {
                assert(self@[i as int] == c as int);
                assert(shints[i as int] == n as int);
            }
            if c == n || c == -n {
                proof {
                    lemma_capped_axis_unique(self@, shints, i as int);
                }
                if c == n {
                    return Side(i as i16);
                } else {
                    proof {
                        assert(shape@[i as int].wf());
                        assert(self@[i as int] != shints[i as int]);
                    }
                    return Side(-(i as i16) - 1);
                }
            }
            i = i + 1;
        }
        proof {
            lemma_count_zero(capped_pred(self@, shints), self@.len() as int);
            assert forall|k: int|
                0 <= k < self@.len() implies !#[trigger] capped_pred(self@, shints)(k) by {
                assert(!is_capped_at(self@, shints, k + 0));
            }
            assert(false);
        }
        Side(0)
    }
}

/// A sub-surface position one layer beneath at least one face: a cubie.
#[derive(Debug, PartialEq, Eq, Hash)]
pub struct Piece(pub Position);

impl View for Piece {
    type V = Seq<int>;

    open spec fn view(&self) -> Seq<int> {
        self.0@
    }
}

impl Clone for Piece {
    /// A copy holding the same position.
    fn clone(&self) -> (r: Self)
        ensures
            r.0.0@ == self.0.0@,
            r@ == self@,
    {
        Piece(self.0.clone())
    }
}

impl Piece {
    /// Wrap a valid position when it is a piece.
    pub fn try_from(shape: &Vec<Cut>, pos: Position) -> (r: Option<Self>)
        requires
            pos@.len() == shape@.len(),
            cuts_wf(shape@),
        ensures
            r is Some <==> (capped_count(pos@, shape_ints(shape@)) == 0 && near_count(
                pos@,
                shape_ints(shape@),
            ) >= 1),
            r is Some ==> r->0@ == pos@,
    {
        if pos.is_piece(shape) {
            Some(Piece(pos))
        } else {
            None
        }
    }

    /// Wrap the coordinates when they form a piece position.
    pub fn try_new(shape: &Vec<Cut>, coords: Vec<Coord>) -> (r: Option<Self>)
        requires
            coords@.len() == shape@.len(),
            cuts_wf(shape@),
        ensures
            r is Some <==> (capped_count(coord_ints(coords@), shape_ints(shape@)) == 0
                && near_count(coord_ints(coords@), shape_ints(shape@)) >= 1),
            r is Some ==> r->0@ == coord_ints(coords@),
    {
        match Position::try_new(shape, coords) {
            Some(pos) => Piece::try_from(shape, pos),
            None => None,
        }
    }

    /// Wrap coordinates already known to form a piece position.
    pub fn new(shape: &Vec<Cut>, coords: Vec<Coord>) -> (r: Self)
        requires
            coords@.len() == shape@.len(),
            cuts_wf(shape@),
            capped_count(coord_ints(coords@), shape_ints(shape@)) == 0,
            near_count(coord_ints(coords@), shape_ints(shape@)) >= 1,
        ensures
            r@ == coord_ints(coords@),
    {
        Piece(Position(coords))
    }

    /// The sides this piece touches, in axis order; a piece touches at
    /// least one.
    pub fn sides(&self, shape: &Vec<Cut>) -> (r: Vec<Side>)
        requires
            is_piece_s(self@, shape_ints(shape@)),
            cuts_wf(shape@),
            shape@.len() <= MAX_DIM,
        ensures
            side_ints(r@) == piece_sides_upto(self@, shape_ints(shape@), self@.len() as int),
            r@.len() >= 1,
    {
        let ghost shints = shape_ints(shape@);
        let mut r: Vec<Side> = Vec::new();
        let mut i: usize = 0;
        while i < self.0.0.len()
            invariant
                is_piece_s(self@, shape_ints(shape@)),
                cuts_wf(shape@),
                shints == shape_ints(shape@),
                self@.len() == shape@.len(),
                shape@.len() <= MAX_DIM,
                i <= self@.len(),
                side_ints(r@) == piece_sides_upto(self@, shints, i as int),
            decreases self@.len() - i,
        {
            let c = self.0.0[i].0;
            let n = shape[i].0;
            let ghost old_r = r@;
            proof {
                assert(self@[i as int] == c as int);
                assert(shints[i as int] == n as int);
                assert(legal_coord(self@[i as int], shints[i as int]));
                assert(shape@[i as int].wf());
            }
            if c + 1 == n {
                r.push(Side(i as i16));
            } else if 1 - c == n {
                r.push(Side(-(i as i16) - 1));
            }
            proof {
                assert(side_ints(r@) =~= piece_sides_upto(self@, shints, i + 1)) by {
                    assert forall|k: int|
                        0 <= k < r@.len() implies side_ints(r@)[k] == piece_sides_upto(
                        self@,
                        shints,
                        i + 1,
                    )[k] by {
                        assert(side_ints(r@)[k] == r@[k].0 as int);
                        if k < old_r.len() {
                            assert(side_ints(old_r)[k] == old_r[k].0 as int);
                        }
                    }
                }
            }
            i = i + 1;
        }
        proof {
            lemma_piece_sides_nonempty(self@, shints, self@.len() as int);
        }
        r
    }
}

/// A row drawn from the per-axis coordinate lists has legal coordinates.
proof fn lemma_row_legal(axseq: Seq<Seq<Coord>>, shints: Seq<int>, row: Seq<Coord>)
    requires
        axseq.len() == shints.len(),
        forall|k: int|
            0 <= k < axseq.len() ==> coord_ints(#[trigger] axseq[k]) == axis_coords(shints[k]),
        forall|k: int| 0 <= k < shints.len() ==> 1 <= #[trigger] shints[k],
        row.len() == axseq.len(),
        forall|i: int| 0 <= i < axseq.len() ==> #[trigger] axseq[i].contains(row[i]),
    ensures
        coords_legal(coord_ints(row), shints),
{
    let s = coord_ints(row);
    assert forall|i: int| 0 <= i < s.len() implies legal_coord(#[trigger] s[i], shints[i]) by {
        assert(axseq[i].contains(row[i]));
        let w = choose|w: int| 0 <= w < axseq[i].len() && axseq[i][w] == row[i];
        assert(coord_ints(axseq[i])[w] == row[i].0 as int);
        assert(axis_coords(shints[i]).contains(s[i])) by {
            assert(axis_coords(shints[i])[w] == s[i]);
        }
        lemma_axis_coords_contains(shints[i], s[i]);
    }
}

/// A legal position corresponds to a row of the per-axis coordinate lists.
proof fn lemma_legal_row(axseq: Seq<Seq<Coord>>, shints: Seq<int>, s: Seq<int>)
    requires
        axseq.len() == shints.len(),
        forall|k: int|
            0 <= k < axseq.len() ==> coord_ints(#[trigger] axseq[k]) == axis_coords(shints[k]),
        forall|k: int| 0 <= k < shints.len() ==> 1 <= #[trigger] shints[k] <= MAX_LAYERS,
        coords_legal(s, shints),
    ensures
        coord_ints(Seq::new(s.len(), |i: int| Coord(s[i] as i16))) == s,
        forall|i: int|
            0 <= i < axseq.len() ==> (#[trigger] axseq[i]).contains(
                Seq::new(s.len(), |j: int| Coord(s[j] as i16))[i],
            ),
        Seq::new(s.len(), |i: int| Coord(s[i] as i16)).len() == axseq.len(),
{
    let row = Seq::new(s.len(), |i: int| Coord(s[i] as i16));
    assert forall|i: int| 0 <= i < s.len() implies coord_ints(row)[i] == s[i] by {
        assert(legal_coord(s[i], shints[i]));
        assert(-MAX_LAYERS <= s[i] <= MAX_LAYERS);
        assert(row[i].0 == s[i] as i16);
    }
    assert(coord_ints(row) =~= s);
    assert forall|i: int| 0 <= i < axseq.len() implies #[trigger] axseq[i].contains(row[i]) by {
        assert(legal_coord(s[i], shints[i]));
        lemma_axis_coords_contains(shints[i], s[i]);
        let w = choose|w: int|
            0 <= w < axis_coords(shints[i]).len() && axis_coords(shints[i])[w] == s[i];
        assert(coord_ints(axseq[i])[w] == axseq[i][w].0 as int);
        assert(axseq[i][w].0 as int == s[i]);
        assert(axseq[i][w] == row[i]);
    }
}

} // verus!
