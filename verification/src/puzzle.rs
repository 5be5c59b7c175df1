//! The puzzle state and its turn algebra.
//!
//! A puzzle is a shape together with the mapping from every sticker
//! position to the side (color) it currently shows. Turns permute the
//! colors over a fixed key set; the mathematical transforms are stated
//! here as map-level spec functions and the executable methods are proved
//! against them.

use vstd::arithmetic::div_mod::lemma_mod_multiples_vanish;
use vstd::pervasive::VecAdditionalExecFns;
use vstd::prelude::*;

verus! {

use crate::geometry::{Coord, Cut, clone_shape, cuts_wf, legal_coord, shape_ints};
use crate::turn::{LayerMask, PuzzleTurn, SideTurn, Turn, TurnError};
use crate::position::{
    Position, Sticker, capped_axis, capped_count, capped_pred, coords_legal, is_capped_at,
    is_sticker_s, lemma_capped_axis_exists, lemma_capped_axis_unique, lemma_count_single,
    pos_valid, pos_views, sticker_set, sticker_side_s,
};
use crate::shape_wf;
use crate::side::{Axis, Side, side_axis, side_in_dim, side_opp};
use crate::sticker_map::{StickerMap, lemma_reindex_multiset};
use crate::MAX_DIM;

/// How many random slice turns one scramble applies.
pub const SCRAMBLE_TURNS: usize = 1000;

/// Whether a sticker position lies in the outermost layer below side
/// `side`: its coordinate on the grip's axis is at the cap or one step
/// short of it, on the grip's polarity.
pub open spec fn affected(k: Seq<int>, shape: Seq<int>, side: int) -> bool {
    if side >= 0 {
        shape[side] - 1 <= k[side] <= shape[side]
    } else {
        -shape[side_axis(side)] <= k[side_axis(side)] <= 1 - shape[side_axis(side)]
    }
}

/// The preimage of a position under a true 90-degree rotation of `from`
/// into `to`.
pub open spec fn pre90(k: Seq<int>, from: int, to: int) -> Seq<int> {
    k.update(from, k[to]).update(to, -k[from])
}

/// The preimage of a position under the 180-degree flip that replaces the
/// quarter turn when the two axes have unequal layer counts.
pub open spec fn pre180(k: Seq<int>, from: int, to: int) -> Seq<int> {
    k.update(from, -k[from]).update(to, -k[to])
}

/// The preimage rule a side-turn uses: a quarter turn between equal-sized
/// axes, a half turn otherwise.
pub open spec fn pre_side(k: Seq<int>, shape: Seq<int>, from: int, to: int) -> Seq<int> {
    if shape[from] == shape[to] {
        pre90(k, from, to)
    } else {
        pre180(k, from, to)
    }
}

/// The sticker mapping after a side-turn: every affected position takes
/// the color its preimage held; the rest keep theirs. The key set never
/// changes.
pub open spec fn side_turn_map(
    m: Map<Seq<int>, int>,
    shape: Seq<int>,
    side: int,
    from: int,
    to: int,
) -> Map<Seq<int>, int> {
    Map::new(
        |k: Seq<int>| m.dom().contains(k),
        |k: Seq<int>|
            if affected(k, shape, side) {
                m[pre_side(k, shape, from, to)]
            } else {
                m[k]
            },
    )
}

/// The sticker mapping after a whole-puzzle turn: every position takes
/// the color of its 90-degree preimage.
pub open spec fn puzzle_turn_map(m: Map<Seq<int>, int>, from: int, to: int) -> Map<
    Seq<int>,
    int,
> {
    Map::new(|k: Seq<int>| m.dom().contains(k), |k: Seq<int>| m[pre90(k, from, to)])
}

/// Every face shows one uniform color.
pub open spec fn solved(m: Map<Seq<int>, int>, shape: Seq<int>) -> bool {
    forall|k1: Seq<int>, k2: Seq<int>|
        #![trigger m[k1], m[k2]]
        m.dom().contains(k1) && m.dom().contains(k2) && sticker_side_s(k1, shape)
            == sticker_side_s(k2, shape) ==> m[k1] == m[k2]
}

/// The grip/axis combinations that define a rotation plane: both axes in
/// range and distinct, neither on the grip's own axis.
pub open spec fn legal_plane(shape: Seq<int>, side: int, from: int, to: int) -> bool {
    &&& side_in_dim(side, shape.len() as int)
    &&& 0 <= from < shape.len()
    &&& 0 <= to < shape.len()
    &&& side_axis(side) != from
    &&& side_axis(side) != to
    &&& from != to
}

/// `m2` arises from `m1` by some sequence of at most `n` legal
/// outermost-layer side-turns.
pub open spec fn scrambled_from(
    m1: Map<Seq<int>, int>,
    m2: Map<Seq<int>, int>,
    shape: Seq<int>,
    n: int,
) -> bool
    decreases n,
{
    m2 == m1 || (n > 0 && exists|side: int, from: int, to: int|
        #![trigger legal_plane(shape, side, from, to)]
        legal_plane(shape, side, from, to) && scrambled_from(
            side_turn_map(m1, shape, side, from, to),
            m2,
            shape,
            n - 1,
        ))
}

/// A turn budget can only grow.
pub proof fn lemma_scrambled_mono(
    m1: Map<Seq<int>, int>,
    m2: Map<Seq<int>, int>,
    shape: Seq<int>,
    n1: int,
    n2: int,
)
    requires
        scrambled_from(m1, m2, shape, n1),
        n1 <= n2,
    ensures
        scrambled_from(m1, m2, shape, n2),
    decreases n1,
{
    if m2 != m1 {
        let (side, from, to) = choose|side: int, from: int, to: int|
            #![trigger legal_plane(shape, side, from, to)]
            legal_plane(shape, side, from, to) && scrambled_from(
                side_turn_map(m1, shape, side, from, to),
                m2,
                shape,
                n1 - 1,
            );
        lemma_scrambled_mono(side_turn_map(m1, shape, side, from, to), m2, shape, n1 - 1, n2 - 1);
    }
}

/// One more legal turn extends a scramble sequence by one.
pub proof fn lemma_scrambled_step(
    m1: Map<Seq<int>, int>,
    m2: Map<Seq<int>, int>,
    shape: Seq<int>,
    n: int,
    side: int,
    from: int,
    to: int,
)
    requires
        0 <= n,
        scrambled_from(m1, m2, shape, n),
        legal_plane(shape, side, from, to),
    ensures
        scrambled_from(m1, side_turn_map(m2, shape, side, from, to), shape, n + 1),
    decreases n,
{
    let m3 = side_turn_map(m2, shape, side, from, to);
    if m2 == m1 {
        assert(scrambled_from(side_turn_map(m1, shape, side, from, to), m3, shape, n));
        assert(legal_plane(shape, side, from, to));
    } else {
        let (s0, f0, t0) = choose|s0: int, f0: int, t0: int|
            #![trigger legal_plane(shape, s0, f0, t0)]
            legal_plane(shape, s0, f0, t0) && scrambled_from(
                side_turn_map(m1, shape, s0, f0, t0),
                m2,
                shape,
                n - 1,
            );
        lemma_scrambled_step(
            side_turn_map(m1, shape, s0, f0, t0),
            m2,
            shape,
            n - 1,
            side,
            from,
            to,
        );
        assert(legal_plane(shape, s0, f0, t0) && scrambled_from(
            side_turn_map(m1, shape, s0, f0, t0),
            m3,
            shape,
            n,
        ));
    }
}

/// With fewer than three axes no rotation plane exists, so a scramble
/// sequence of any length changes nothing.
pub proof fn lemma_scrambled_none(
    m1: Map<Seq<int>, int>,
    m2: Map<Seq<int>, int>,
    shape: Seq<int>,
    n: int,
)
    requires
        scrambled_from(m1, m2, shape, n),
        shape.len() <= 2,
    ensures
        m2 == m1,
    decreases n,
{
    if m2 != m1 {
        let (side, from, to) = choose|side: int, from: int, to: int|
            #![trigger legal_plane(shape, side, from, to)]
            legal_plane(shape, side, from, to) && scrambled_from(
                side_turn_map(m1, shape, side, from, to),
                m2,
                shape,
                n - 1,
            );
        assert(shape.len() == 2);
        assert(side_axis(side) == 0 || side_axis(side) == 1);
        assert(false);
    }
}

/// Where a sticker's color comes from under a 90-degree `from`-into-`to`
/// rotation: the side of the preimage, as a function of the side alone.
pub open spec fn side_src90(sd: int, from: int, to: int) -> int {
    if sd == to {
        from
    } else if sd == side_opp(to) {
        side_opp(from)
    } else if sd == from {
        side_opp(to)
    } else if sd == side_opp(from) {
        to
    } else {
        sd
    }
}

/// Where a sticker's color comes from under a 180-degree flip of `from`
/// and `to`: both affected faces swap with their opposites.
pub open spec fn side_src180(sd: int, from: int, to: int) -> int {
    if sd == from {
        side_opp(from)
    } else if sd == side_opp(from) {
        from
    } else if sd == to {
        side_opp(to)
    } else if sd == side_opp(to) {
        to
    } else {
        sd
    }
}

/// A sticker's side lies in the shape's side range.
pub proof fn lemma_sticker_side_in_dim(k: Seq<int>, shape: Seq<int>)
    requires
        is_sticker_s(k, shape),
    ensures
        side_in_dim(sticker_side_s(k, shape), shape.len() as int),
        side_axis(sticker_side_s(k, shape)) == capped_axis(k, shape),
{
    lemma_capped_axis_exists(k, shape);
}

/// Legality of a coordinate value is mirror-symmetric.
pub proof fn lemma_legal_neg(c: int, n: int)
    requires
        legal_coord(c, n),
    ensures
        legal_coord(-c, n),
{
    if c != n && c != -n {
        assert((c + n) % 2 == 1);
        assert(-c + n == 2 * (-c) + (c + n));
        lemma_mod_multiples_vanish(-c, c + n, 2);
    }
}

/// A 90-degree preimage of a sticker between equal-sized axes is again a
/// sticker, and its side is `side_src90` of the sticker's own side.
pub proof fn lemma_pre90_sticker(k: Seq<int>, shape: Seq<int>, from: int, to: int)
    requires
        is_sticker_s(k, shape),
        0 <= from < shape.len(),
        0 <= to < shape.len(),
        from != to,
        shape[from] == shape[to],
        forall|i: int| 0 <= i < shape.len() ==> 1 <= #[trigger] shape[i],
    ensures
        is_sticker_s(pre90(k, from, to), shape),
        sticker_side_s(pre90(k, from, to), shape) == side_src90(
            sticker_side_s(k, shape),
            from,
            to,
        ),
{
    let p = pre90(k, from, to);
    lemma_capped_axis_exists(k, shape);
    let a = capped_axis(k, shape);
    assert forall|i: int| 0 <= i < k.len() && i != a implies !is_capped_at(k, shape, i) by {
        if is_capped_at(k, shape, i) {
            lemma_capped_axis_unique(k, shape, i);
        }
    }
    let sa = if a == to {
        from
    } else if a == from {
        to
    } else {
        a
    };
    assert(p.len() == k.len());
    assert forall|i: int| 0 <= i < p.len() implies (is_capped_at(p, shape, i) <==> i == sa) by {
        if i == from {
            assert(p[i] == k[to]);
            if to == a {
                assert(is_capped_at(k, shape, to));
                assert(is_capped_at(p, shape, i));
                assert(sa == from);
            } else {
                assert(!is_capped_at(k, shape, to));
                assert(!is_capped_at(p, shape, i));
                assert(sa != from);
            }
        } else if i == to {
            assert(p[i] == -k[from]);
            if from == a {
                assert(is_capped_at(k, shape, from));
                assert(is_capped_at(p, shape, i));
                assert(sa == to);
            } else {
                assert(!is_capped_at(k, shape, from));
                assert(!is_capped_at(p, shape, i));
                assert(sa != to);
            }
        } else {
            assert(p[i] == k[i]);
            if i == a {
                assert(is_capped_at(p, shape, i));
                assert(sa == i);
            } else {
                assert(!is_capped_at(k, shape, i));
                assert(!is_capped_at(p, shape, i));
                assert(sa != i);
            }
        }
    }
    assert forall|i: int| 0 <= i < p.len() implies legal_coord(#[trigger] p[i], shape[i]) by {
        assert(legal_coord(k[i], shape[i]));
        if i == from {
            assert(p[i] == k[to]);
            assert(legal_coord(k[to], shape[to]));
        } else if i == to {
            assert(p[i] == -k[from]);
            assert(legal_coord(k[from], shape[from]));
            lemma_legal_neg(k[from], shape[from]);
        }
    }
    assert(capped_count(p, shape) == 1) by {
        assert(is_capped_at(p, shape, sa));
        assert forall|j: int| 0 <= j < p.len() && j != sa implies !#[trigger] capped_pred(
            p,
            shape,
        )(j) by {
            assert(!is_capped_at(p, shape, j));
        }
        lemma_count_single(capped_pred(p, shape), sa, p.len() as int);
    }
    lemma_capped_axis_unique(p, shape, sa);
    assert(coords_legal(p, shape));
}

/// A 180-degree preimage of a sticker is again a sticker, and its side is
/// `side_src180` of the sticker's own side.
pub proof fn lemma_pre180_sticker(k: Seq<int>, shape: Seq<int>, from: int, to: int)
    requires
        is_sticker_s(k, shape),
        0 <= from < shape.len(),
        0 <= to < shape.len(),
        from != to,
        forall|i: int| 0 <= i < shape.len() ==> 1 <= #[trigger] shape[i],
    ensures
        is_sticker_s(pre180(k, from, to), shape),
        sticker_side_s(pre180(k, from, to), shape) == side_src180(
            sticker_side_s(k, shape),
            from,
            to,
        ),
{
    let p = pre180(k, from, to);
    lemma_capped_axis_exists(k, shape);
    let a = capped_axis(k, shape);
    assert forall|i: int| 0 <= i < k.len() && i != a implies !is_capped_at(k, shape, i) by {
        if is_capped_at(k, shape, i) {
            lemma_capped_axis_unique(k, shape, i);
        }
    }
    assert forall|i: int| 0 <= i < p.len() implies (is_capped_at(p, shape, i) <==> i == a) by {
        if i == from || i == to {
            assert(p[i] == -k[i]);
            assert(is_capped_at(p, shape, i) == is_capped_at(k, shape, i));
        } else {
            assert(p[i] == k[i]);
        }
        if i == a {
            assert(is_capped_at(k, shape, a));
            assert(is_capped_at(p, shape, i));
        } else {
            assert(!is_capped_at(k, shape, i));
            assert(!is_capped_at(p, shape, i));
        }
    }
    assert forall|i: int| 0 <= i < p.len() implies legal_coord(#[trigger] p[i], shape[i]) by {
        assert(legal_coord(k[i], shape[i]));
        if i == from || i == to {
            assert(p[i] == -k[i]);
            lemma_legal_neg(k[i], shape[i]);
        }
    }
    assert(capped_count(p, shape) == 1) by {
        assert(is_capped_at(p, shape, a));
        assert forall|j: int| 0 <= j < p.len() && j != a implies !#[trigger] capped_pred(
            p,
            shape,
        )(j) by {
            assert(!is_capped_at(p, shape, j));
        }
        lemma_count_single(capped_pred(p, shape), a, p.len() as int);
    }
    lemma_capped_axis_unique(p, shape, a);
    assert(coords_legal(p, shape));
}

/// Neither preimage rule touches the grip's axis, so whether a position
/// is affected never changes.
pub proof fn lemma_affected_pre(k: Seq<int>, shape: Seq<int>, side: int, from: int, to: int)
    requires
        0 <= side_axis(side) < shape.len(),
        side_axis(side) != from,
        side_axis(side) != to,
        0 <= from < k.len(),
        0 <= to < k.len(),
        k.len() == shape.len(),
    ensures
        affected(pre90(k, from, to), shape, side) == affected(k, shape, side),
        affected(pre180(k, from, to), shape, side) == affected(k, shape, side),
        affected(pre_side(k, shape, from, to), shape, side) == affected(k, shape, side),
{
    let g = side_axis(side);
    assert(pre90(k, from, to)[g] == k[g]);
    assert(pre180(k, from, to)[g] == k[g]);
}

/// A quarter turn of `from` into `to`, then of `to` into `from`, puts
/// every position back.
pub proof fn lemma_pre90_rt(k: Seq<int>, from: int, to: int)
    requires
        0 <= from < k.len(),
        0 <= to < k.len(),
        from != to,
    ensures
        pre90(pre90(k, from, to), to, from) == k,
{
    assert(pre90(pre90(k, from, to), to, from) =~= k);
}

/// A half turn applied twice puts every position back.
pub proof fn lemma_pre180_rt(k: Seq<int>, from: int, to: int)
    requires
        0 <= from < k.len(),
        0 <= to < k.len(),
        from != to,
    ensures
        pre180(pre180(k, from, to), to, from) == k,
{
    assert(pre180(pre180(k, from, to), to, from) =~= k);
}

/// The puzzle: its fixed shape and the current sticker coloring.
#[derive(Debug, PartialEq, Eq)]
pub struct Puzzle {
    pub shape: Vec<Cut>,
    pub stickers: StickerMap,
}

impl View for Puzzle {
    type V = Map<Seq<int>, int>;

    /// The mathematical content of the puzzle: which side index each
    /// sticker position shows.
    open spec fn view(&self) -> Map<Seq<int>, int> {
        self.stickers.map_view()
    }
}

impl Clone for Puzzle {
    /// A copy with the same shape and coloring.
    fn clone(&self) -> (r: Self)
        ensures
            r.shape@ == self.shape@,
            r.stickers.key_views() == self.stickers.key_views(),
            r.stickers.vals@ == self.stickers.vals@,
            r@ == self@,
            self.wf() ==> r.wf(),
    {
        let r = Puzzle { shape: clone_shape(&self.shape), stickers: self.stickers.clone() };
        proof {
            assert(r.stickers.keys@.len() == r.stickers.key_views().len());
            assert(self.stickers.keys@.len() == self.stickers.key_views().len());
            if self.wf() {
                assert forall|k: Seq<int>| #[trigger] r.stickers.contains_key(
                    k,
                ) implies is_sticker_s(k, r.shv()) by {
                    assert(self.stickers.contains_key(k));
                }
                assert forall|k: Seq<int>| #[trigger] is_sticker_s(
                    k,
                    r.shv(),
                ) implies r.stickers.contains_key(k) by {
                    assert(is_sticker_s(k, self.shv()));
                    assert(self.stickers.contains_key(k));
                }
                assert(r.wf());
            }
        }
        r
    }
}

impl Puzzle {
    /// The per-axis layer counts.
    pub open spec fn shv(self) -> Seq<int> {
        shape_ints(self.shape@)
    }

    /// The number of axes.
    pub open spec fn dim(self) -> int {
        self.shape@.len() as int
    }

    /// The puzzle's invariant: a well-formed shape, a well-formed sorted
    /// sticker map whose key set is exactly the shape's sticker
    /// positions, and stored sides within the shape's side range.
    pub open spec fn wf(self) -> bool {
        &&& shape_wf(self.shv())
        &&& self.stickers.wf()
        &&& forall|i: int|
            0 <= i < self.stickers.key_views().len() ==> (#[trigger] self.stickers.key_views()[
                i
            ]).len() == self.dim()
        &&& forall|k: Seq<int>|
            #[trigger] self.stickers.contains_key(k) ==> is_sticker_s(k, self.shv())
        &&& forall|k: Seq<int>|
            #[trigger] is_sticker_s(k, self.shv()) ==> self.stickers.contains_key(k)
        &&& forall|i: int|
            0 <= i < self.stickers.vals@.len() ==> side_in_dim(
                (#[trigger] self.stickers.vals@[i]).0 as int,
                self.dim(),
            )
    }

    /// Build the puzzle in its canonical solved coloring: every sticker
    /// shows the side it geometrically lies on.
    pub fn new(shape: &Vec<Cut>) -> (r: Puzzle)
        requires
            shape_wf(shape_ints(shape@)),
        ensures
            r.wf(),
            r.shape@ == shape@,
            r@.dom() == sticker_set(shape_ints(shape@)),
            forall|k: Seq<int>|
                r@.dom().contains(k) ==> r@[k] == sticker_side_s(k, shape_ints(shape@)),
    {
        let ghost shints = shape_ints(shape@);
        proof {
            assert forall|i: int| 0 <= i < shape@.len() implies (#[trigger] shape@[i]).wf() by {
                assert(1 <= shints[i] <= crate::MAX_LAYERS);
            }
        }
        let owned = clone_shape(shape);
        let mut all = Position::all(shape);
        let ghost all0 = all@;
        let ghost avs = pos_views(all0);
        let mut map = StickerMap::empty();
        while all.len() > 0
            invariant
                shape_wf(shints),
                shints == shape_ints(shape@),
                cuts_wf(shape@),
                avs == pos_views(all0),
                avs.no_duplicates(),
                forall|t: int| 0 <= t < all0.len() ==> pos_valid(#[trigger] avs[t], shints),
                forall|t: int| 0 <= t < all0.len() ==> #[trigger] all0[t]@ == avs[t],
                all@.len() <= all0.len(),
                all@ == all0.subrange(0, all@.len() as int),
                map.wf(),
                forall|i: int|
                    0 <= i < map.key_views().len() ==> (#[trigger] map.key_views()[i]).len()
                        == shape@.len(),
                forall|k: Seq<int>| #[trigger] map.contains_key(k) ==> is_sticker_s(k, shints),
                forall|k: Seq<int>|
                    #[trigger] map.contains_key(k) ==> exists|t: int|
                        all@.len() <= t < all0.len() && avs[t] == k,
                forall|t: int|
                    all@.len() <= t < all0.len() && is_sticker_s(#[trigger] avs[t], shints)
                        ==> map.contains_key(avs[t]),
                forall|k: Seq<int>|
                    #[trigger] map.contains_key(k) ==> map.map_view()[k] == sticker_side_s(
                        k,
                        shints,
                    ),
                forall|i: int|
                    0 <= i < map.vals@.len() ==> side_in_dim(
                        (#[trigger] map.vals@[i]).0 as int,
                        shape@.len() as int,
                    ),
            decreases all@.len(),
        {
            let ghost old_all = all@;
            let ghost old_map = map;
            let p = match all.pop() {
                Some(p) => p,
                None => {
                    proof {
                        assert(false);
                    }
                    Position(Vec::new())
                },
            };
            let ghost ti = all@.len() as int;
            proof {
                assert(all@ =~= all0.subrange(0, ti));
                assert(old_all[ti] == all0[ti]);
                assert(p@ == avs[ti]);
                assert(pos_valid(avs[ti], shints));
                assert(p@.len() == shape@.len());
            }
            if p.is_sticker(shape) {
                let st = Sticker(p);
                let sd = st.side(shape);
                proof {
                    if map.contains_key(st@) {
                        let t = choose|t: int|
                            old_all.len() <= t < all0.len() && avs[t] == st@;
                        assert(avs[t] == avs[ti]);
                    }
                    assert(map.key_len_ok(st@));
                }
                map.insert(st, sd);
                proof {
                    assert forall|k: Seq<int>| #[trigger] map.contains_key(k) implies exists|
                        t: int,
                    |
                        all@.len() <= t < all0.len() && avs[t] == k by {
                        if k == avs[ti] {
                            assert(all@.len() <= ti < all0.len() && avs[ti] == k);
                        } else {
                            assert(old_map.contains_key(k));
                            let t = choose|t: int|
                                old_all.len() <= t < all0.len() && avs[t] == k;
                            assert(all@.len() <= t < all0.len() && avs[t] == k);
                        }
                    }
                    assert forall|k: Seq<int>| #[trigger] map.contains_key(
                        k,
                    ) implies map.map_view()[k] == sticker_side_s(k, shints) by {
                        if k == st@ {
                            assert(map.map_view()[k] == sd.0 as int);
                        } else {
                            assert(old_map.contains_key(k));
                            assert(map.map_view()[k] == old_map.map_view()[k]);
                        }
                    }
                }
            } else {
                proof {
                    assert(capped_count(avs[ti], shints) != 1);
                    assert forall|t: int|
                        all@.len() <= t < all0.len() && is_sticker_s(
                            #[trigger] avs[t],
                            shints,
                        ) implies map.contains_key(avs[t]) by {
                        if t == ti {
                            assert(!is_sticker_s(avs[ti], shints));
                        }
                    }
                }
            }
        }
        let r = Puzzle { shape: owned, stickers: map };
        proof {
            assert forall|k: Seq<int>| #[trigger] is_sticker_s(
                k,
                r.shv(),
            ) implies r.stickers.contains_key(k) by {
                assert(pos_valid(k, shints));
                assert(pos_views(all0).contains(k));
                let t = choose|t: int| 0 <= t < avs.len() && avs[t] == k;
                assert(all@.len() <= t < all0.len());
                assert(map.contains_key(avs[t]));
            }
            assert(r.wf());
            assert(r@.dom() =~= sticker_set(shints));
        }
        r
    }

    /// Whether every face shows one uniform color: one pass over the
    /// stickers with a color slot per side.
    pub fn is_solved(&self) -> (r: bool)
        requires
            self.wf(),
        ensures
            r == solved(self@, self.shv()),
    {
        let dim = self.shape.len();
        let ghost m = self@;
        let ghost kv = self.stickers.key_views();
        let ghost shv = self.shv();
        proof {
            assert forall|w: int| 0 <= w < self.shape@.len() implies (#[trigger] self.shape@[
                w
            ]).wf() by {
                assert(1 <= shv[w] <= crate::MAX_LAYERS);
            }
        }
        let mut pos_colors: Vec<Option<Side>> = Vec::new();
        let mut neg_colors: Vec<Option<Side>> = Vec::new();
        let mut j: usize = 0;
        while j < dim
            invariant
                j <= dim,
                pos_colors@.len() == j,
                neg_colors@.len() == j,
                forall|w: int| 0 <= w < j ==> #[trigger] pos_colors@[w] is None,
                forall|w: int| 0 <= w < j ==> #[trigger] neg_colors@[w] is None,
            decreases dim - j,
        {
            pos_colors.push(None);
            neg_colors.push(None);
            j = j + 1;
        }
        let n = self.stickers.len();
        let mut i: usize = 0;
        while i < n
            invariant
                self.wf(),
                m == self@,
                kv == self.stickers.key_views(),
                shv == self.shv(),
                cuts_wf(self.shape@),
                dim == self.shape@.len(),
                i <= n,
                n == self.stickers.keys@.len(),
                pos_colors@.len() == dim,
                neg_colors@.len() == dim,
                forall|j2: int|
                    0 <= j2 < i ==> slot_of(
                        pos_colors@,
                        neg_colors@,
                        sticker_side_s(#[trigger] kv[j2], shv),
                    ) is Some,
                forall|j2: int|
                    0 <= j2 < i ==> slot_of(
                        pos_colors@,
                        neg_colors@,
                        sticker_side_s(#[trigger] kv[j2], shv),
                    )->0 == self.stickers.vals@[j2],
                forall|v: int|
                    side_in_dim(v, dim as int) && slot_of(pos_colors@, neg_colors@, v) is Some
                        ==> exists|j2: int|
                        0 <= j2 < i && sticker_side_s(#[trigger] kv[j2], shv) == v,
            decreases n - i,
        {
            proof {
                self.stickers.lemma_at(i as int);
                assert(self.stickers.contains_key(kv[i as int]));
                assert(is_sticker_s(kv[i as int], shv));
            }
            let st = self.stickers.key_at(i);
            let sd = st.side(&self.shape);
            let color = self.stickers.val_at(i);
            let ghost v = sd.idx();
            let ghost old_pos = pos_colors@;
            let ghost old_neg = neg_colors@;
            proof {
                assert(v == sticker_side_s(kv[i as int], shv));
                assert(side_in_dim(v, dim as int));
            }
            let cur: Option<Side>;
            if sd.is_positive() {
                let ax = sd.into_usize();
                cur = pos_colors[ax];
            } else {
                let ax = sd.not().into_usize();
                cur = neg_colors[ax];
            }
            proof {
                assert(cur == slot_of(old_pos, old_neg, v));
            }
            if let Some(oc) = cur {
                if oc.0 != color.0 {
                    proof {
                        let j2 = choose|j2: int|
                            0 <= j2 < i && sticker_side_s(#[trigger] kv[j2], shv) == v;
                        self.stickers.lemma_at(j2);
                        assert(m[kv[j2]] == self.stickers.vals@[j2].0 as int);
                        assert(m[kv[i as int]] == self.stickers.vals@[i as int].0 as int);
                        assert(self.stickers.vals@[j2] == oc);
                        assert(m.dom().contains(kv[j2]));
                        assert(m.dom().contains(kv[i as int]));
                        if solved(m, shv) {
                            assert(m[kv[j2]] == m[kv[i as int]]);
                        }
                    }
                    return false;
                }
            }
            if sd.is_positive() {
                let ax = sd.into_usize();
                pos_colors.set(ax, Some(color));
            } else {
                let ax = sd.not().into_usize();
                neg_colors.set(ax, Some(color));
            }
            proof {
                assert forall|w: int|
                    side_in_dim(w, dim as int) && w != v implies slot_of(
                    pos_colors@,
                    neg_colors@,
                    w,
                ) == slot_of(old_pos, old_neg, w) by {}
                assert(slot_of(pos_colors@, neg_colors@, v) == Some(color));
                assert forall|j2: int| 0 <= j2 < i + 1 implies slot_of(
                    pos_colors@,
                    neg_colors@,
                    sticker_side_s(#[trigger] kv[j2], shv),
                ) is Some by {
                    let w = sticker_side_s(kv[j2], shv);
                    self.stickers.lemma_at(j2);
                    lemma_sticker_side_in_dim(kv[j2], shv);
                    if j2 != i && w != v {
                        assert(slot_of(pos_colors@, neg_colors@, w) == slot_of(
                            old_pos,
                            old_neg,
                            w,
                        ));
                    }
                }
                assert forall|j2: int| 0 <= j2 < i + 1 implies slot_of(
                    pos_colors@,
                    neg_colors@,
                    sticker_side_s(#[trigger] kv[j2], shv),
                )->0 == self.stickers.vals@[j2] by {
                    let w = sticker_side_s(kv[j2], shv);
                    self.stickers.lemma_at(j2);
                    lemma_sticker_side_in_dim(kv[j2], shv);
                    if j2 == i {
                    } else if w == v {
                        assert(slot_of(old_pos, old_neg, w)->0 == self.stickers.vals@[j2]);
                        assert(cur is Some);
                        assert((cur->0).0 == color.0);
                        assert(self.stickers.vals@[j2].0 == color.0);
                        assert(self.stickers.vals@[j2] == color);
                    } else {
                        assert(slot_of(pos_colors@, neg_colors@, w) == slot_of(
                            old_pos,
                            old_neg,
                            w,
                        ));
                    }
                }
                assert forall|w: int|
                    side_in_dim(w, dim as int) && slot_of(pos_colors@, neg_colors@, w)
                        is Some implies exists|j2: int|
                    0 <= j2 < i + 1 && sticker_side_s(#[trigger] kv[j2], shv) == w by {
                    if w == v {
                        assert(0 <= i < i + 1 && sticker_side_s(kv[i as int], shv) == w);
                    } else {
                        assert(slot_of(old_pos, old_neg, w) is Some);
                        let j2 = choose|j2: int|
                            0 <= j2 < i && sticker_side_s(#[trigger] kv[j2], shv) == w;
                        assert(0 <= j2 < i + 1 && sticker_side_s(kv[j2], shv) == w);
                    }
                }
            }
            i = i + 1;
        }
        proof {
            assert forall|k1: Seq<int>, k2: Seq<int>|
                #![trigger m[k1], m[k2]]
                m.dom().contains(k1) && m.dom().contains(k2) && sticker_side_s(k1, shv)
                    == sticker_side_s(k2, shv) implies m[k1] == m[k2] by {
                let j1 = choose|j1: int| 0 <= j1 < kv.len() && kv[j1] == k1;
                let j2 = choose|j2: int| 0 <= j2 < kv.len() && kv[j2] == k2;
                self.stickers.lemma_at(j1);
                self.stickers.lemma_at(j2);
                assert(slot_of(pos_colors@, neg_colors@, sticker_side_s(kv[j1], shv))->0
                    == self.stickers.vals@[j1]);
                assert(slot_of(pos_colors@, neg_colors@, sticker_side_s(kv[j2], shv))->0
                    == self.stickers.vals@[j2]);
            }
        }
        true
    }
}

/// The preimage position of a sticker under one rotation rule: a quarter
/// turn when `rot90`, a half turn otherwise.
fn preimage_pos(key: &Sticker, shape: &Vec<Cut>, fu: usize, tu: usize, rot90: bool) -> (r:
    Position)
    requires
        coords_legal(key@, shape_ints(shape@)),
        cuts_wf(shape@),
        fu < shape@.len(),
        tu < shape@.len(),
        fu != tu,
        key@.len() == shape@.len(),
    ensures
        r@ == if rot90 {
            pre90(key@, fu as int, tu as int)
        } else {
            pre180(key@, fu as int, tu as int)
        },
{
    let ghost p = if rot90 {
        pre90(key@, fu as int, tu as int)
    } else {
        pre180(key@, fu as int, tu as int)
    };
    let len = key.0.0.len();
    let mut coords: Vec<Coord> = Vec::new();
    let mut w: usize = 0;
    while w < len
        invariant
            coords_legal(key@, shape_ints(shape@)),
            cuts_wf(shape@),
            fu < shape@.len(),
            tu < shape@.len(),
            fu != tu,
            key@.len() == shape@.len(),
            len == key@.len(),
            key@.len() == key.0.0@.len(),
            p == if rot90 {
                pre90(key@, fu as int, tu as int)
            } else {
                pre180(key@, fu as int, tu as int)
            },
            w <= len,
            coords@.len() == w,
            forall|k: int| 0 <= k < w ==> #[trigger] coords@[k].0 as int == p[k],
        decreases len - w,
    {
        proof {
            assert(legal_coord(key@[w as int], shape_ints(shape@)[w as int]));
            assert(legal_coord(key@[fu as int], shape_ints(shape@)[fu as int]));
            assert(legal_coord(key@[tu as int], shape_ints(shape@)[tu as int]));
            assert(shape@[w as int].wf());
            assert(shape@[fu as int].wf());
            assert(shape@[tu as int].wf());
            assert(key@[w as int] == key.0.0@[w as int].0 as int);
            assert(key@[fu as int] == key.0.0@[fu as int].0 as int);
            assert(key@[tu as int] == key.0.0@[tu as int].0 as int);
        }
        let c: i16 = if rot90 {
            if w == fu {
                key.0.0[tu].0
            } else if w == tu {
                -key.0.0[fu].0
            } else {
                key.0.0[w].0
            }
        } else {
            if w == fu {
                -key.0.0[fu].0
            } else if w == tu {
                -key.0.0[tu].0
            } else {
                key.0.0[w].0
            }
        };
        coords.push(Coord(c));
        w = w + 1;
    }
    let r = Position(coords);
    proof {
        assert forall|k: int| 0 <= k < r@.len() implies r@[k] == p[k] by {
            assert(coords@[k].0 as int == p[k]);
        }
        assert(r@ =~= p);
    }
    r
}

impl Puzzle {
    /// The new side of every sticker slot after a side-turn, computed
    /// entirely from the unmodified mapping.
    fn side_turn_vals(&self, side: Side, from: Axis, to: Axis) -> (r: Vec<Side>)
        requires
            self.wf(),
            side_in_dim(side.idx(), self.dim()),
            0 <= from.idx() < self.dim(),
            0 <= to.idx() < self.dim(),
            side_axis(side.idx()) != from.idx(),
            side_axis(side.idx()) != to.idx(),
            from.idx() != to.idx(),
        ensures
            r@.len() == self.stickers.keys@.len(),
            forall|j: int|
                0 <= j < r@.len() ==> (#[trigger] r@[j]).0 as int == side_turn_map(
                    self@,
                    self.shv(),
                    side.idx(),
                    from.idx(),
                    to.idx(),
                )[self.stickers.key_views()[j]],
            forall|j: int|
                0 <= j < r@.len() ==> side_in_dim((#[trigger] r@[j]).0 as int, self.dim()),
    {
        let ghost m = self@;
        let ghost kv = self.stickers.key_views();
        let ghost shv = self.shv();
        let ghost target = side_turn_map(m, shv, side.idx(), from.idx(), to.idx());
        proof {
            assert forall|w: int| 0 <= w < self.shape@.len() implies (#[trigger] self.shape@[
                w
            ]).wf() by {
                assert(1 <= shv[w] <= crate::MAX_LAYERS);
            }
        }
        let g_ax = side.axis().into_usize();
        let n_g = self.shape[g_ax].0;
        let positive = side.is_positive();
        let fu = from.into_usize();
        let tu = to.into_usize();
        let eq_cuts = self.shape[fu].0 == self.shape[tu].0;
        let n = self.stickers.len();
        let mut new_vals: Vec<Side> = Vec::new();
        let mut i: usize = 0;
        while i < n
            invariant
                self.wf(),
                m == self@,
                kv == self.stickers.key_views(),
                shv == self.shv(),
                cuts_wf(self.shape@),
                target == side_turn_map(m, shv, side.idx(), from.idx(), to.idx()),
                side_in_dim(side.idx(), self.dim()),
                0 <= from.idx() < self.dim(),
                0 <= to.idx() < self.dim(),
                side_axis(side.idx()) != from.idx(),
                side_axis(side.idx()) != to.idx(),
                from.idx() != to.idx(),
                g_ax == side_axis(side.idx()),
                n_g as int == shv[g_ax as int],
                positive == (side.idx() >= 0),
                fu == from.idx(),
                tu == to.idx(),
                eq_cuts == (shv[fu as int] == shv[tu as int]),
                n == self.stickers.keys@.len(),
                i <= n,
                new_vals@.len() == i,
                forall|j: int|
                    0 <= j < i ==> (#[trigger] new_vals@[j]).0 as int == target[kv[j]],
                forall|j: int|
                    0 <= j < i ==> side_in_dim((#[trigger] new_vals@[j]).0 as int, self.dim()),
            decreases n - i,
        {
            proof {
                self.stickers.lemma_at(i as int);
                assert(is_sticker_s(kv[i as int], shv));
            }
            let key = self.stickers.key_at(i);
            let c = key.0.0[g_ax].0;
            proof {
                assert(kv[i as int][g_ax as int] == c as int);
            }
            let aff = if positive {
                c >= n_g - 1 && c <= n_g
            } else {
                c >= -n_g && c <= 1 - n_g
            };
            proof {
                assert(aff == affected(kv[i as int], shv, side.idx()));
            }
            if aff {
                let pre = preimage_pos(key, &self.shape, fu, tu, eq_cuts);
                proof {
                    if eq_cuts {
                        lemma_pre90_sticker(kv[i as int], shv, fu as int, tu as int);
                    } else {
                        lemma_pre180_sticker(kv[i as int], shv, fu as int, tu as int);
                    }
                    assert(pre@ == pre_side(kv[i as int], shv, fu as int, tu as int));
                    assert(is_sticker_s(pre@, shv));
                    assert(self.stickers.contains_key(pre@));
                    assert(self.stickers.key_len_ok(pre@));
                }
                match self.stickers.get(&pre) {
                    Some(c2) => {
                        proof {
                            assert(c2.0 as int == m[pre@]);
                            assert(target[kv[i as int]] == m[pre_side(
                                kv[i as int],
                                shv,
                                from.idx(),
                                to.idx(),
                            )]);
                            let jj = choose|jj: int| 0 <= jj < kv.len() && kv[jj] == pre@;
                            self.stickers.lemma_at(jj);
                            assert(m[pre@] == self.stickers.vals@[jj].0 as int);
                            assert(side_in_dim(c2.0 as int, self.dim()));
                        }
                        new_vals.push(c2);
                    },
                    None => {
                        proof {
                            assert(false);
                        }
                        new_vals.push(side);
                    },
                }
            } else {
                let c2 = self.stickers.val_at(i);
                proof {
                    assert(target[kv[i as int]] == m[kv[i as int]]);
                    assert(m[kv[i as int]] == self.stickers.vals@[i as int].0 as int);
                }
                new_vals.push(c2);
            }
            i = i + 1;
        }
        new_vals
    }

    /// Apply a side-turn: reject combinations that define no rotation
    /// plane, otherwise rotate the outermost layer under the grip.
    pub fn turn_side(&mut self, t: &SideTurn) -> (r: Result<(), TurnError>)
        requires
            old(self).wf(),
            side_in_dim(t.side.idx(), old(self).dim()),
            0 <= t.from.idx() < old(self).dim(),
            0 <= t.to.idx() < old(self).dim(),
        ensures
            final(self).wf(),
            final(self).shape@ == old(self).shape@,
            (r is Err) <==> (side_axis(t.side.idx()) == t.from.idx() || side_axis(t.side.idx())
                == t.to.idx() || t.from.idx() == t.to.idx()),
            r is Err ==> *final(self) == *old(self),
            r is Ok ==> final(self)@ == side_turn_map(
                old(self)@,
                old(self).shv(),
                t.side.idx(),
                t.from.idx(),
                t.to.idx(),
            ),
            final(self).stickers.keys@ == old(self).stickers.keys@,
            final(self).stickers.vals@.to_multiset() == old(self).stickers.vals@.to_multiset(),
    {
        let side = t.side;
        let from = t.from;
        let to = t.to;
        if side == from.into_side() || side.not() == from.into_side() || side == to.into_side()
            || side.not() == to.into_side() || from == to {
            return Err(TurnError::UndefinedPlane);
        }
        proof {
            assert(side_axis(side.idx()) != from.idx());
            assert(side_axis(side.idx()) != to.idx());
            assert(from.idx() != to.idx());
        }
        let new_vals = self.side_turn_vals(side, from, to);
        let ghost m = self@;
        let ghost kv = self.stickers.key_views();
        let ghost target = side_turn_map(m, self.shv(), side.idx(), from.idx(), to.idx());
        self.stickers.replace_vals(new_vals);
        proof {
            assert forall|k: Seq<int>|
                self.stickers.map_view().dom().contains(k) implies #[trigger] self.stickers
                .map_view()[k] == target[k] by {
                let j = choose|j: int| 0 <= j < kv.len() && kv[j] == k;
                self.stickers.lemma_at(j);
                assert(self.stickers.map_view()[k] == self.stickers.vals@[j].0 as int);
            }
            assert(self.stickers.map_view() =~= target);
            assert(self.shv() == old(self).shv());
            assert forall|k: Seq<int>| #[trigger] self.stickers.contains_key(
                k,
            ) implies is_sticker_s(k, self.shv()) by {
                assert(old(self).stickers.contains_key(k));
            }
            assert forall|k: Seq<int>| #[trigger] is_sticker_s(
                k,
                self.shv(),
            ) implies self.stickers.contains_key(k) by {
                assert(old(self).stickers.contains_key(k));
            }
            assert(self.wf());
            let vals_old = old(self).stickers.vals@;
            let vals_new = self.stickers.vals@;
            let n = kv.len() as int;
            let fi = from.idx();
            let ti = to.idx();
            let si = side.idx();
            let shv = old(self).shv();
            let sigma = Seq::new(
                n as nat,
                |j: int|
                    if affected(kv[j], shv, si) {
                        old(self).stickers.key_index(pre_side(kv[j], shv, fi, ti))
                    } else {
                        j
                    },
            );
            assert forall|j: int|
                0 <= j < n implies 0 <= #[trigger] sigma[j] < n && vals_new[j] == vals_old[sigma[
                j
            ]] by {
                old(self).stickers.lemma_at(j);
                assert(is_sticker_s(kv[j], shv));
                assert(vals_new[j].0 as int == target[kv[j]]);
                if affected(kv[j], shv, si) {
                    if shv[fi] == shv[ti] {
                        lemma_pre90_sticker(kv[j], shv, fi, ti);
                    } else {
                        lemma_pre180_sticker(kv[j], shv, fi, ti);
                    }
                    let p = pre_side(kv[j], shv, fi, ti);
                    assert(old(self).stickers.contains_key(p));
                    let w = choose|w: int| 0 <= w < kv.len() && kv[w] == p;
                    old(self).stickers.lemma_at(w);
                    assert(sigma[j] == w);
                    assert(target[kv[j]] == m[p]);
                    assert(m[p] == vals_old[w].0 as int);
                    assert(vals_new[j].0 == vals_old[w].0);
                } else {
                    assert(target[kv[j]] == m[kv[j]]);
                    assert(m[kv[j]] == vals_old[j].0 as int);
                    assert(vals_new[j].0 == vals_old[j].0);
                }
            }
            assert forall|j1: int, j2: int|
                #![trigger sigma[j1], sigma[j2]]
                0 <= j1 < j2 < n implies sigma[j1] != sigma[j2] by {
                if sigma[j1] == sigma[j2] {
                    old(self).stickers.lemma_at(j1);
                    old(self).stickers.lemma_at(j2);
                    assert(is_sticker_s(kv[j1], shv));
                    assert(is_sticker_s(kv[j2], shv));
                    let p1 = pre_side(kv[j1], shv, fi, ti);
                    let p2 = pre_side(kv[j2], shv, fi, ti);
                    if affected(kv[j1], shv, si) && affected(kv[j2], shv, si) {
                        if shv[fi] == shv[ti] {
                            lemma_pre90_sticker(kv[j1], shv, fi, ti);
                            lemma_pre90_sticker(kv[j2], shv, fi, ti);
                        } else {
                            lemma_pre180_sticker(kv[j1], shv, fi, ti);
                            lemma_pre180_sticker(kv[j2], shv, fi, ti);
                        }
                        let w1 = choose|w: int| 0 <= w < kv.len() && kv[w] == p1;
                        let w2 = choose|w: int| 0 <= w < kv.len() && kv[w] == p2;
                        old(self).stickers.lemma_at(w1);
                        old(self).stickers.lemma_at(w2);
                        assert(sigma[j1] == w1);
                        assert(sigma[j2] == w2);
                        assert(p1 == p2);
                        if shv[fi] == shv[ti] {
                            lemma_pre90_rt(kv[j1], fi, ti);
                            lemma_pre90_rt(kv[j2], fi, ti);
                        } else {
                            lemma_pre180_rt(kv[j1], fi, ti);
                            lemma_pre180_rt(kv[j2], fi, ti);
                        }
                        assert(kv[j1] == kv[j2]);
                    } else if affected(kv[j1], shv, si) && !affected(kv[j2], shv, si) {
                        if shv[fi] == shv[ti] {
                            lemma_pre90_sticker(kv[j1], shv, fi, ti);
                        } else {
                            lemma_pre180_sticker(kv[j1], shv, fi, ti);
                        }
                        let w1 = choose|w: int| 0 <= w < kv.len() && kv[w] == p1;
                        old(self).stickers.lemma_at(w1);
                        assert(sigma[j1] == w1);
                        assert(kv[j2] == p1);
                        lemma_affected_pre(kv[j1], shv, si, fi, ti);
                        assert(affected(p1, shv, si));
                    } else if !affected(kv[j1], shv, si) && affected(kv[j2], shv, si) {
                        if shv[fi] == shv[ti] {
                            lemma_pre90_sticker(kv[j2], shv, fi, ti);
                        } else {
                            lemma_pre180_sticker(kv[j2], shv, fi, ti);
                        }
                        let w2 = choose|w: int| 0 <= w < kv.len() && kv[w] == p2;
                        old(self).stickers.lemma_at(w2);
                        assert(sigma[j2] == w2);
                        assert(kv[j1] == p2);
                        lemma_affected_pre(kv[j2], shv, si, fi, ti);
                        assert(affected(p2, shv, si));
                    }
                }
            }
            lemma_reindex_multiset(vals_old, vals_new, sigma);
        }
        Ok(())
    }

    /// The new side of every sticker slot after a whole-puzzle turn.
    fn puzzle_turn_vals(&self, from: Axis, to: Axis) -> (r: Vec<Side>)
        requires
            self.wf(),
            0 <= from.idx() < self.dim(),
            0 <= to.idx() < self.dim(),
            from.idx() != to.idx(),
            self.shv()[from.idx()] == self.shv()[to.idx()],
        ensures
            r@.len() == self.stickers.keys@.len(),
            forall|j: int|
                0 <= j < r@.len() ==> (#[trigger] r@[j]).0 as int == puzzle_turn_map(
                    self@,
                    from.idx(),
                    to.idx(),
                )[self.stickers.key_views()[j]],
            forall|j: int|
                0 <= j < r@.len() ==> side_in_dim((#[trigger] r@[j]).0 as int, self.dim()),
    {
        let ghost m = self@;
        let ghost kv = self.stickers.key_views();
        let ghost shv = self.shv();
        let ghost target = puzzle_turn_map(m, from.idx(), to.idx());
        proof {
            assert forall|w: int| 0 <= w < self.shape@.len() implies (#[trigger] self.shape@[
                w
            ]).wf() by {
                assert(1 <= shv[w] <= crate::MAX_LAYERS);
            }
        }
        let fu = from.into_usize();
        let tu = to.into_usize();
        let n = self.stickers.len();
        let mut new_vals: Vec<Side> = Vec::new();
        let mut i: usize = 0;
        while i < n
            invariant
                self.wf(),
                m == self@,
                kv == self.stickers.key_views(),
                shv == self.shv(),
                cuts_wf(self.shape@),
                target == puzzle_turn_map(m, from.idx(), to.idx()),
                0 <= from.idx() < self.dim(),
                0 <= to.idx() < self.dim(),
                from.idx() != to.idx(),
                shv[from.idx()] == shv[to.idx()],
                fu == from.idx(),
                tu == to.idx(),
                n == self.stickers.keys@.len(),
                i <= n,
                new_vals@.len() == i,
                forall|j: int|
                    0 <= j < i ==> (#[trigger] new_vals@[j]).0 as int == target[kv[j]],
                forall|j: int|
                    0 <= j < i ==> side_in_dim((#[trigger] new_vals@[j]).0 as int, self.dim()),
            decreases n - i,
        {
            proof {
                self.stickers.lemma_at(i as int);
                assert(is_sticker_s(kv[i as int], shv));
            }
            let key = self.stickers.key_at(i);
            let pre = preimage_pos(key, &self.shape, fu, tu, true);
            proof {
                lemma_pre90_sticker(kv[i as int], shv, fu as int, tu as int);
                assert(is_sticker_s(pre@, shv));
                assert(self.stickers.contains_key(pre@));
                assert(self.stickers.key_len_ok(pre@));
            }
            match self.stickers.get(&pre) {
                Some(c2) => {
                    proof {
                        assert(c2.0 as int == m[pre@]);
                        assert(target[kv[i as int]] == m[pre90(kv[i as int], fu as int, tu as int)]);
                        let jj = choose|jj: int| 0 <= jj < kv.len() && kv[jj] == pre@;
                        self.stickers.lemma_at(jj);
                        assert(side_in_dim(c2.0 as int, self.dim()));
                    }
                    new_vals.push(c2);
                },
                None => {
                    proof {
                        assert(false);
                    }
                    new_vals.push(Side(0));
                },
            }
            i = i + 1;
        }
        new_vals
    }

    /// Apply a whole-puzzle turn: reorient every sticker at once. Only
    /// `from == to` is rejected; the two axes must have equal layer
    /// counts for the quarter turn to be defined on the coordinate set.
    pub fn turn_puzzle(&mut self, t: &PuzzleTurn) -> (r: Result<(), TurnError>)
        requires
            old(self).wf(),
            0 <= t.from.idx() < old(self).dim(),
            0 <= t.to.idx() < old(self).dim(),
            t.from.idx() == t.to.idx() || old(self).shv()[t.from.idx()] == old(self).shv()[
                t.to.idx()
            ],
        ensures
            final(self).wf(),
            final(self).shape@ == old(self).shape@,
            (r is Err) <==> t.from.idx() == t.to.idx(),
            r is Err ==> *final(self) == *old(self),
            r is Ok ==> final(self)@ == puzzle_turn_map(old(self)@, t.from.idx(), t.to.idx()),
            final(self).stickers.keys@ == old(self).stickers.keys@,
            final(self).stickers.vals@.to_multiset() == old(self).stickers.vals@.to_multiset(),
    {
        let from = t.from;
        let to = t.to;
        if from == to {
            return Err(TurnError::UndefinedPlane);
        }
        let new_vals = self.puzzle_turn_vals(from, to);
        let ghost m = self@;
        let ghost kv = self.stickers.key_views();
        let ghost target = puzzle_turn_map(m, from.idx(), to.idx());
        self.stickers.replace_vals(new_vals);
        proof {
            assert forall|k: Seq<int>|
                self.stickers.map_view().dom().contains(k) implies #[trigger] self.stickers
                .map_view()[k] == target[k] by {
                let j = choose|j: int| 0 <= j < kv.len() && kv[j] == k;
                self.stickers.lemma_at(j);
                assert(self.stickers.map_view()[k] == self.stickers.vals@[j].0 as int);
            }
            assert(self.stickers.map_view() =~= target);
            assert(self.shv() == old(self).shv());
            assert forall|k: Seq<int>| #[trigger] self.stickers.contains_key(
                k,
            ) implies is_sticker_s(k, self.shv()) by {
                assert(old(self).stickers.contains_key(k));
            }
            assert forall|k: Seq<int>| #[trigger] is_sticker_s(
                k,
                self.shv(),
            ) implies self.stickers.contains_key(k) by {
                assert(old(self).stickers.contains_key(k));
            }
            assert(self.wf());
            let vals_old = old(self).stickers.vals@;
            let vals_new = self.stickers.vals@;
            let n = kv.len() as int;
            let fi = from.idx();
            let ti = to.idx();
            let shv = old(self).shv();
            let sigma = Seq::new(
                n as nat,
                |j: int| old(self).stickers.key_index(pre90(kv[j], fi, ti)),
            );
            assert forall|j: int|
                0 <= j < n implies 0 <= #[trigger] sigma[j] < n && vals_new[j] == vals_old[sigma[
                j
            ]] by {
                old(self).stickers.lemma_at(j);
                assert(is_sticker_s(kv[j], shv));
                assert(vals_new[j].0 as int == target[kv[j]]);
                lemma_pre90_sticker(kv[j], shv, fi, ti);
                let p = pre90(kv[j], fi, ti);
                assert(old(self).stickers.contains_key(p));
                let w = choose|w: int| 0 <= w < kv.len() && kv[w] == p;
                old(self).stickers.lemma_at(w);
                assert(sigma[j] == w);
                assert(target[kv[j]] == m[p]);
                assert(m[p] == vals_old[w].0 as int);
                assert(vals_new[j].0 == vals_old[w].0);
            }
            assert forall|j1: int, j2: int|
                #![trigger sigma[j1], sigma[j2]]
                0 <= j1 < j2 < n implies sigma[j1] != sigma[j2] by {
                if sigma[j1] == sigma[j2] {
                    old(self).stickers.lemma_at(j1);
                    old(self).stickers.lemma_at(j2);
                    assert(is_sticker_s(kv[j1], shv));
                    assert(is_sticker_s(kv[j2], shv));
                    lemma_pre90_sticker(kv[j1], shv, fi, ti);
                    lemma_pre90_sticker(kv[j2], shv, fi, ti);
                    let p1 = pre90(kv[j1], fi, ti);
                    let p2 = pre90(kv[j2], fi, ti);
                    let w1 = choose|w: int| 0 <= w < kv.len() && kv[w] == p1;
                    let w2 = choose|w: int| 0 <= w < kv.len() && kv[w] == p2;
                    old(self).stickers.lemma_at(w1);
                    old(self).stickers.lemma_at(w2);
                    assert(sigma[j1] == w1);
                    assert(sigma[j2] == w2);
                    assert(p1 == p2);
                    lemma_pre90_rt(kv[j1], fi, ti);
                    lemma_pre90_rt(kv[j2], fi, ti);
                    assert(kv[j1] == kv[j2]);
                }
            }
            lemma_reindex_multiset(vals_old, vals_new, sigma);
        }
        Ok(())
    }

    /// Mix the puzzle up: a fixed number of random outermost-layer slice
    /// turns, discarding invalid grip/axis combinations. The result is
    /// some scramble sequence of legal side-turns: the sticker keys stay
    /// untouched and the sides are only permuted. No fairness is
    /// promised, and with fewer than three axes no plane exists, so
    /// nothing moves at all.
    pub fn scramble(&mut self)
        requires
            old(self).wf(),
        ensures
            final(self).wf(),
            final(self).shape@ == old(self).shape@,
            forall|k: Seq<int>|
                final(self)@.dom().contains(k) <==> old(self)@.dom().contains(k),
            final(self).stickers.keys@ == old(self).stickers.keys@,
            final(self).stickers.vals@.to_multiset() == old(self).stickers.vals@.to_multiset(),
            scrambled_from(old(self)@, final(self)@, old(self).shv(), SCRAMBLE_TURNS as int),
            old(self).dim() <= 2 ==> final(self).stickers.vals@ == old(self).stickers.vals@,
    {
        proof {
            assert(1 <= self.shape@.len() <= MAX_DIM);
        }
        let ghost m0 = self@;
        let ghost shv0 = self.shv();
        let dim = self.shape.len() as i16;
        let mut it: usize = 0;
        while it < SCRAMBLE_TURNS
            invariant
                self.wf(),
                self.shape@ == old(self).shape@,
                m0 == old(self)@,
                shv0 == old(self).shv(),
                shv0 == self.shv(),
                dim as int == self.shape@.len(),
                1 <= dim <= MAX_DIM,
                it <= SCRAMBLE_TURNS,
                self.stickers.keys@ == old(self).stickers.keys@,
                self.stickers.vals@.to_multiset() == old(self).stickers.vals@.to_multiset(),
                scrambled_from(m0, self@, shv0, it as int),
            decreases SCRAMBLE_TURNS - it,
        {
            it = it + 1;
            proof {
                lemma_scrambled_mono(m0, self@, shv0, it - 1, it as int);
            }
            let side = random_in(-dim, dim);
            let from = random_in(0, dim);
            if side == from || -side - 1 == from {
                continue ;
            }
            let to = random_in(0, dim);
            if side == to || -side - 1 == to || from == to {
                continue ;
            }
            let st = SideTurn {
                layers: LayerMask::new(),
                side: Side::new(side),
                from: Axis::new(from),
                to: Axis::new(to),
            };
            let ghost mv = self@;
            let res = self.turn_side(&st);
            proof {
                assert(res is Ok);
                assert(legal_plane(shv0, side as int, from as int, to as int));
                assert(self@ == side_turn_map(mv, shv0, side as int, from as int, to as int));
                lemma_scrambled_step(
                    m0,
                    mv,
                    shv0,
                    it - 1,
                    side as int,
                    from as int,
                    to as int,
                );
            }
        }
        proof {
            assert forall|k: Seq<int>|
                self@.dom().contains(k) <==> old(self)@.dom().contains(k) by {
                assert(self.shv() == old(self).shv());
            }
            if self.shape@.len() <= 2 {
                lemma_scrambled_none(m0, self@, shv0, SCRAMBLE_TURNS as int);
                let kv = self.stickers.key_views();
                assert forall|j: int|
                    0 <= j < self.stickers.vals@.len() implies #[trigger] self.stickers.vals@[
                    j
                ] == old(self).stickers.vals@[j] by {
                    self.stickers.lemma_at(j);
                    old(self).stickers.lemma_at(j);
                    assert(self@[kv[j]] == self.stickers.vals@[j].0 as int);
                    assert(m0[kv[j]] == old(self).stickers.vals@[j].0 as int);
                    assert(self.stickers.vals@[j].0 == old(self).stickers.vals@[j].0);
                }
                assert(self.stickers.vals@ =~= old(self).stickers.vals@);
            }
        }
    }

    /// How many stickers the puzzle has.
    pub fn sticker_count(&self) -> (r: usize)
        ensures
            r == self.stickers.keys@.len(),
    {
        self.stickers.len()
    }

    /// The sticker position in slot `i`, for read-only iteration.
    pub fn sticker_at(&self, i: usize) -> (r: &Sticker)
        requires
            i < self.stickers.keys@.len(),
        ensures
            *r == self.stickers.keys@[i as int],
    {
        self.stickers.key_at(i)
    }

    /// The side shown by the sticker in slot `i`.
    pub fn color_at(&self, i: usize) -> (r: Side)
        requires
            self.wf(),
            i < self.stickers.keys@.len(),
        ensures
            r == self.stickers.vals@[i as int],
            r.0 as int == self@[self.stickers.key_views()[i as int]],
    {
        proof {
            self.stickers.lemma_at(i as int);
        }
        self.stickers.val_at(i)
    }

    /// Apply either kind of turn.
    pub fn turn(&mut self, t: &Turn) -> (r: Result<(), TurnError>)
        requires
            old(self).wf(),
            t is Side ==> side_in_dim((t->Side_0).side.idx(), old(self).dim()) && 0 <= (
            t->Side_0).from.idx() < old(self).dim() && 0 <= (t->Side_0).to.idx() < old(
                self,
            ).dim(),
            t is Puzzle ==> 0 <= (t->Puzzle_0).from.idx() < old(self).dim() && 0 <= (
            t->Puzzle_0).to.idx() < old(self).dim() && ((t->Puzzle_0).from.idx() == (
            t->Puzzle_0).to.idx() || old(self).shv()[(t->Puzzle_0).from.idx()] == old(
                self,
            ).shv()[(t->Puzzle_0).to.idx()]),
        ensures
            final(self).wf(),
            final(self).shape@ == old(self).shape@,
            r is Err ==> *final(self) == *old(self),
            t is Side ==> ((r is Err) <==> (side_axis((t->Side_0).side.idx()) == (
            t->Side_0).from.idx() || side_axis((t->Side_0).side.idx()) == (t->Side_0).to.idx()
                || (t->Side_0).from.idx() == (t->Side_0).to.idx())),
            t is Side && r is Ok ==> final(self)@ == side_turn_map(
                old(self)@,
                old(self).shv(),
                (t->Side_0).side.idx(),
                (t->Side_0).from.idx(),
                (t->Side_0).to.idx(),
            ),
            t is Puzzle ==> ((r is Err) <==> (t->Puzzle_0).from.idx() == (
            t->Puzzle_0).to.idx()),
            t is Puzzle && r is Ok ==> final(self)@ == puzzle_turn_map(
                old(self)@,
                (t->Puzzle_0).from.idx(),
                (t->Puzzle_0).to.idx(),
            ),
            final(self).stickers.keys@ == old(self).stickers.keys@,
            final(self).stickers.vals@.to_multiset() == old(self).stickers.vals@.to_multiset(),
    {
        match t {
            Turn::Side(st) => self.turn_side(st),
            Turn::Puzzle(pt) => self.turn_puzzle(pt),
        }
    }
}

/// A puzzle in the canonical coloring, where every sticker shows the side
/// it lies on, is solved. With `Puzzle::new`'s contract this says that a
/// freshly built puzzle of any well-formed shape reports solved.
pub proof fn lemma_canonical_solved(m: Map<Seq<int>, int>, shape: Seq<int>)
    requires
        forall|k: Seq<int>| m.dom().contains(k) ==> m[k] == sticker_side_s(k, shape),
    ensures
        solved(m, shape),
{
}

/// A legal internal coordinate value that every axis has: the center for
/// an odd layer count, one step off center for an even one.
pub open spec fn mid_coord(n: int) -> int {
    if n % 2 == 1 {
        0
    } else {
        1
    }
}

/// The first side-turn leaves a freshly colored puzzle unsolved, as long
/// as the grip's axis has at least two layers (with a single layer the
/// whole puzzle is one slice, and a turn of it only renames faces).
/// Witnesses: two stickers of the rotated-from face, one inside and one
/// outside the turned layer, end up showing different sides.
pub proof fn lemma_side_turn_unsolves(
    m: Map<Seq<int>, int>,
    shape: Seq<int>,
    side: int,
    from: int,
    to: int,
)
    requires
        side_in_dim(side, shape.len() as int),
        0 <= from < shape.len(),
        0 <= to < shape.len(),
        side_axis(side) != from,
        side_axis(side) != to,
        from != to,
        forall|i: int| 0 <= i < shape.len() ==> 1 <= #[trigger] shape[i],
        forall|k: Seq<int>| #[trigger] m.dom().contains(k) <==> is_sticker_s(k, shape),
        forall|k: Seq<int>| m.dom().contains(k) ==> #[trigger] m[k] == sticker_side_s(k, shape),
        shape[side_axis(side)] >= 2,
    ensures
        !solved(side_turn_map(m, shape, side, from, to), shape),
{
    let g = side_axis(side);
    let n_g = shape[g];
    let gc_aff = if side >= 0 {
        n_g - 1
    } else {
        1 - n_g
    };
    let gc_un = if side >= 0 {
        1 - n_g
    } else {
        n_g - 1
    };
    let len = shape.len() as int;
    let k1 = Seq::new(
        len as nat,
        |i: int|
            if i == from {
                shape[from]
            } else if i == g {
                gc_un
            } else {
                mid_coord(shape[i])
            },
    );
    let k2 = Seq::new(
        len as nat,
        |i: int|
            if i == from {
                shape[from]
            } else if i == g {
                gc_aff
            } else {
                mid_coord(shape[i])
            },
    );
    assert forall|i: int| 0 <= i < len implies legal_coord(#[trigger] k1[i], shape[i])
        && legal_coord(#[trigger] k2[i], shape[i]) && (i != from ==> !is_capped_at(
        k1,
        shape,
        i,
    ) && !is_capped_at(k2, shape, i)) by {
        let n = shape[i];
        if i == from {
            assert(legal_coord(n, n));
        } else if i == g {
            assert((n - 1 + n) % 2 == 1) by {
                assert(2 * n - 1 == 2 * (n - 1) + 1);
            }
            assert((1 - n + n) % 2 == 1);
            assert(legal_coord(n - 1, n));
            assert(legal_coord(1 - n, n));
        } else {
            if n % 2 == 1 {
                assert(k1[i] == 0);
                assert((0 + n) % 2 == 1) by {
                    assert(n == 2 * ((n - 1) / 2) + 1) by {
                        assert(n % 2 == 1);
                        assert(n == 2 * (n / 2) + n % 2);
                        assert((n - 1) / 2 == n / 2);
                    }
                }
                assert(legal_coord(0, n));
            } else {
                assert(k1[i] == 1);
                assert(n >= 2);
                assert((1 + n) % 2 == 1) by {
                    assert(1 + n == 2 * (n / 2) + 1) by {
                        assert(n == 2 * (n / 2) + n % 2);
                    }
                }
                assert(legal_coord(1, n));
            }
        }
    }
    assert(is_capped_at(k1, shape, from));
    assert(is_capped_at(k2, shape, from));
    assert(capped_count(k1, shape) == 1) by {
        assert forall|j: int| 0 <= j < len && j != from implies !#[trigger] capped_pred(
            k1,
            shape,
        )(j) by {
            assert(!is_capped_at(k1, shape, j));
        }
        lemma_count_single(capped_pred(k1, shape), from, len);
    }
    assert(capped_count(k2, shape) == 1) by {
        assert forall|j: int| 0 <= j < len && j != from implies !#[trigger] capped_pred(
            k2,
            shape,
        )(j) by {
            assert(!is_capped_at(k2, shape, j));
        }
        lemma_count_single(capped_pred(k2, shape), from, len);
    }
    assert(is_sticker_s(k1, shape));
    assert(is_sticker_s(k2, shape));
    lemma_capped_axis_unique(k1, shape, from);
    lemma_capped_axis_unique(k2, shape, from);
    assert(sticker_side_s(k1, shape) == from);
    assert(sticker_side_s(k2, shape) == from);
    assert(!affected(k1, shape, side));
    assert(affected(k2, shape, side));
    let m2 = side_turn_map(m, shape, side, from, to);
    assert(m.dom().contains(k1));
    assert(m.dom().contains(k2));
    assert(m2[k1] == from);
    let p = pre_side(k2, shape, from, to);
    if shape[from] == shape[to] {
        lemma_pre90_sticker(k2, shape, from, to);
        assert(sticker_side_s(p, shape) == side_opp(to));
    } else {
        lemma_pre180_sticker(k2, shape, from, to);
        assert(sticker_side_s(p, shape) == side_opp(from));
    }
    assert(m.dom().contains(p));
    assert(m2[k2] == m[p]);
    assert(m2[k2] < 0);
    assert(m2[k1] != m2[k2]);
    assert(m2.dom().contains(k1));
    assert(m2.dom().contains(k2));
    if solved(m2, shape) {
        assert(m2[k1] == m2[k2]);
    }
}

/// A whole-puzzle turn of `from` into `to` followed by its inverse (`to`
/// into `from`) restores the sticker mapping exactly.
pub proof fn lemma_puzzle_turn_round_trip(
    m: Map<Seq<int>, int>,
    shape: Seq<int>,
    from: int,
    to: int,
)
    requires
        0 <= from < shape.len(),
        0 <= to < shape.len(),
        from != to,
        shape[from] == shape[to],
        forall|i: int| 0 <= i < shape.len() ==> 1 <= #[trigger] shape[i],
        forall|k: Seq<int>| #[trigger] m.dom().contains(k) <==> is_sticker_s(k, shape),
    ensures
        puzzle_turn_map(puzzle_turn_map(m, from, to), to, from) == m,
{
    let m1 = puzzle_turn_map(m, from, to);
    let m2 = puzzle_turn_map(m1, to, from);
    assert forall|k: Seq<int>| m2.dom().contains(k) implies #[trigger] m2[k] == m[k] by {
        assert(is_sticker_s(k, shape));
        lemma_pre90_sticker(k, shape, to, from);
        let p = pre90(k, to, from);
        assert(m1.dom().contains(p));
        assert(m2[k] == m1[p]);
        assert(m1[p] == m[pre90(p, from, to)]);
        lemma_pre90_rt(k, to, from);
    }
    assert(m2 =~= m);
}

/// A side-turn followed by its inverse (same grip and layers, rotation
/// pair swapped) restores the sticker mapping exactly.
pub proof fn lemma_side_turn_round_trip(
    m: Map<Seq<int>, int>,
    shape: Seq<int>,
    side: int,
    from: int,
    to: int,
)
    requires
        side_in_dim(side, shape.len() as int),
        0 <= from < shape.len(),
        0 <= to < shape.len(),
        side_axis(side) != from,
        side_axis(side) != to,
        from != to,
        forall|i: int| 0 <= i < shape.len() ==> 1 <= #[trigger] shape[i],
        forall|k: Seq<int>| #[trigger] m.dom().contains(k) <==> is_sticker_s(k, shape),
    ensures
        side_turn_map(side_turn_map(m, shape, side, from, to), shape, side, to, from) == m,
{
    let m1 = side_turn_map(m, shape, side, from, to);
    let m2 = side_turn_map(m1, shape, side, to, from);
    assert forall|k: Seq<int>| m2.dom().contains(k) implies #[trigger] m2[k] == m[k] by {
        assert(is_sticker_s(k, shape));
        if affected(k, shape, side) {
            let p = pre_side(k, shape, to, from);
            if shape[to] == shape[from] {
                lemma_pre90_sticker(k, shape, to, from);
                assert(p == pre90(k, to, from));
            } else {
                lemma_pre180_sticker(k, shape, to, from);
                assert(p == pre180(k, to, from));
            }
            assert(is_sticker_s(p, shape));
            lemma_affected_pre(k, shape, side, to, from);
            assert(affected(p, shape, side));
            assert(m1.dom().contains(p));
            assert(m2[k] == m1[p]);
            assert(m1[p] == m[pre_side(p, shape, from, to)]);
            if shape[to] == shape[from] {
                lemma_pre90_rt(k, to, from);
            } else {
                lemma_pre180_rt(k, to, from);
            }
            assert(pre_side(p, shape, from, to) == k);
        } else {
            lemma_affected_pre(k, shape, side, to, from);
            assert(m2[k] == m1[k]);
            assert(m1[k] == m[k]);
        }
    }
    assert(m2 =~= m);
}

/// A solved puzzle stays solved under any single whole-puzzle turn: the
/// turn permutes whole faces, never mixing two faces' stickers.
pub proof fn lemma_puzzle_turn_solved(
    m: Map<Seq<int>, int>,
    shape: Seq<int>,
    from: int,
    to: int,
)
    requires
        0 <= from < shape.len(),
        0 <= to < shape.len(),
        from != to,
        shape[from] == shape[to],
        forall|i: int| 0 <= i < shape.len() ==> 1 <= #[trigger] shape[i],
        forall|k: Seq<int>| #[trigger] m.dom().contains(k) <==> is_sticker_s(k, shape),
        solved(m, shape),
    ensures
        solved(puzzle_turn_map(m, from, to), shape),
{
    let m1 = puzzle_turn_map(m, from, to);
    assert forall|k1: Seq<int>, k2: Seq<int>|
        #![trigger m1[k1], m1[k2]]
        m1.dom().contains(k1) && m1.dom().contains(k2) && sticker_side_s(k1, shape)
            == sticker_side_s(k2, shape) implies m1[k1] == m1[k2] by {
        assert(is_sticker_s(k1, shape));
        assert(is_sticker_s(k2, shape));
        lemma_pre90_sticker(k1, shape, from, to);
        lemma_pre90_sticker(k2, shape, from, to);
        let p1 = pre90(k1, from, to);
        let p2 = pre90(k2, from, to);
        assert(sticker_side_s(p1, shape) == sticker_side_s(p2, shape));
        assert(m.dom().contains(p1));
        assert(m.dom().contains(p2));
        assert(m[p1] == m[p2]);
    }
}

/// Relies on rand's `random_range`: a sample from a nonempty range lies
/// within it. Nothing more is assumed of the draw.
#[verifier::external_body]
fn random_in(lo: i16, hi: i16) -> (r: i16)
    requires
        lo < hi,
    ensures
        lo <= r < hi,
{
    rand::random_range(lo..hi)
}

/// The color slot for side `v`: one per side, positive and negative
/// tables side by side.
pub open spec fn slot_of(pos: Seq<Option<Side>>, neg: Seq<Option<Side>>, v: int) -> Option<
    Side,
> {
    if v >= 0 {
        pos[v]
    } else {
        neg[side_axis(v)]
    }
}

} // verus!
