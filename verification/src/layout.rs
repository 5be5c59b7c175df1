//! The 2D unfolded-net layout engine.
//!
//! An N-dimensional shape is flattened onto a 2D grid axis by axis,
//! alternating direction: odd axes fan their coordinate slices out to the
//! right, even axes downward, with a one-cell gap between slices once
//! more than two axes are present. Each axis therefore contributes its
//! coordinate index times a fixed stride to the cell's `x` or `y`; the
//! strides grow faster than the extent of everything placed before them,
//! which is what makes the position-to-cell mapping a bijection.

use vstd::prelude::*;

verus! {

use crate::geometry::{Cut, axis_coords, clone_shape, legal_coord, shape_ints};
use crate::position::{Position, pos_valid, pos_views};
use crate::sticker_map::pos_cmp;
use crate::shape_wf;
use crate::MAX_LAYERS;

/// Slices of an axis are separated by one empty cell once the layout
/// already spans more than two axes.
pub open spec fn gap_of(j: int) -> int {
    if j > 2 {
        1
    } else {
        0
    }
}

/// Grid width after the first `j` axes are laid out. Odd axes extend the
/// width: one slice of the previous layout per coordinate value.
pub open spec fn layout_w(shape: Seq<int>, j: int) -> int
    decreases j,
{
    if j <= 0 {
        1
    } else if j % 2 == 1 {
        (layout_w(shape, j - 1) + gap_of(j)) * (shape[j - 1] + 1) + layout_w(shape, j - 1)
    } else {
        layout_w(shape, j - 1)
    }
}

/// Grid height after the first `j` axes are laid out; even axes extend it.
pub open spec fn layout_h(shape: Seq<int>, j: int) -> int
    decreases j,
{
    if j <= 0 {
        1
    } else if j % 2 == 0 {
        (layout_h(shape, j - 1) + gap_of(j)) * (shape[j - 1] + 1) + layout_h(shape, j - 1)
    } else {
        layout_h(shape, j - 1)
    }
}

/// How far apart axis `j` (1-based) spreads its slices.
pub open spec fn stride_of(shape: Seq<int>, j: int) -> int {
    if j % 2 == 1 {
        layout_w(shape, j - 1) + gap_of(j)
    } else {
        layout_h(shape, j - 1) + gap_of(j)
    }
}

/// The slice index of coordinate value `c` on an axis with layer count
/// `n`: its position in the ordered coordinate list.
pub open spec fn idx_of(c: int, n: int) -> int {
    if c == -n {
        0
    } else if c == n {
        n + 1
    } else {
        (c + n + 1) / 2
    }
}

/// The grid column of a position: each odd axis contributes its slice
/// index times its stride.
pub open spec fn x_upto(s: Seq<int>, shape: Seq<int>, j: int) -> int
    decreases j,
{
    if j <= 0 {
        0
    } else {
        x_upto(s, shape, j - 1) + if j % 2 == 1 {
            stride_of(shape, j) * idx_of(s[j - 1], shape[j - 1])
        } else {
            0
        }
    }
}

/// The grid row of a position: each even axis contributes its slice index
/// times its stride.
pub open spec fn y_upto(s: Seq<int>, shape: Seq<int>, j: int) -> int
    decreases j,
{
    if j <= 0 {
        0
    } else {
        y_upto(s, shape, j - 1) + if j % 2 == 0 {
            stride_of(shape, j) * idx_of(s[j - 1], shape[j - 1])
        } else {
            0
        }
    }
}

/// Powers of 21, the widest slice count one axis can have.
pub open spec fn pow21(e: int) -> int
    decreases e,
{
    if e <= 0 {
        1
    } else {
        21 * pow21(e - 1)
    }
}

/// A legal coordinate's slice index is in range and recovers the
/// coordinate, so distinct legal coordinates get distinct indices.
pub proof fn lemma_idx_of(c: int, n: int)
    requires
        1 <= n,
        legal_coord(c, n),
    ensures
        0 <= idx_of(c, n) <= n + 1,
        axis_coords(n)[idx_of(c, n)] == c,
{
    if c != n && c != -n {
        let q = (c + n) / 2;
        assert(c + n == 2 * q + 1) by {
            assert((c + n) % 2 == 1);
            assert(c + n == 2 * ((c + n) / 2) + (c + n) % 2);
        }
        assert(c + n + 1 == 2 * (q + 1));
        assert(idx_of(c, n) == q + 1) by {
            assert((2 * (q + 1)) / 2 == q + 1);
        }
        assert(1 <= q + 1 <= n);
        assert(axis_coords(n)[q + 1] == 2 * (q + 1) - n - 1);
    }
}

/// The layout never shrinks.
pub proof fn lemma_dims_pos(shape: Seq<int>, j: int)
    requires
        forall|i: int| 0 <= i < shape.len() ==> 1 <= #[trigger] shape[i],
        j <= shape.len(),
    ensures
        1 <= layout_w(shape, j),
        1 <= layout_h(shape, j),
        j >= 1 ==> layout_w(shape, j - 1) <= layout_w(shape, j),
        j >= 1 ==> layout_h(shape, j - 1) <= layout_h(shape, j),
    decreases j,
{
    if j > 0 {
        lemma_dims_pos(shape, j - 1);
        let w = layout_w(shape, j - 1);
        let h = layout_h(shape, j - 1);
        if j % 2 == 1 {
            assert((w + gap_of(j)) * (shape[j - 1] + 1) >= 0) by (nonlinear_arith)
                requires
                    w >= 1,
                    gap_of(j) >= 0,
                    shape[j - 1] >= 1,
            ;
        } else {
            assert((h + gap_of(j)) * (shape[j - 1] + 1) >= 0) by (nonlinear_arith)
                requires
                    h >= 1,
                    gap_of(j) >= 0,
                    shape[j - 1] >= 1,
            ;
        }
    }
}

/// The grid stays small: each laid-out axis multiplies one dimension by
/// at most 21.
pub proof fn lemma_dims_bound(shape: Seq<int>, j: int)
    requires
        forall|i: int| 0 <= i < shape.len() ==> 1 <= #[trigger] shape[i] <= 19,
        0 <= j <= shape.len(),
    ensures
        layout_w(shape, j) + 1 <= 2 * pow21((j + 1) / 2),
        layout_h(shape, j) + 1 <= 2 * pow21(j / 2),
    decreases j,
{
    if j > 0 {
        lemma_dims_bound(shape, j - 1);
        lemma_dims_pos(shape, j - 1);
        let w = layout_w(shape, j - 1);
        let h = layout_h(shape, j - 1);
        let n = shape[j - 1];
        if j % 2 == 1 {
            assert((j - 1 + 1) / 2 == (j + 1) / 2 - 1);
            assert(j / 2 == (j - 1) / 2);
            assert(layout_h(shape, j) == h);
            assert(layout_w(shape, j) + 1 <= (w + 1) * 21) by (nonlinear_arith)
                requires
                    layout_w(shape, j) == (w + gap_of(j)) * (n + 1) + w,
                    1 <= n <= 19,
                    0 <= gap_of(j) <= 1,
                    w >= 1,
            ;
            assert((w + 1) * 21 <= 2 * pow21((j + 1) / 2)) by (nonlinear_arith)
                requires
                    w + 1 <= 2 * pow21((j + 1) / 2 - 1),
                    pow21((j + 1) / 2) == 21 * pow21((j + 1) / 2 - 1),
            ;
        } else {
            assert((j - 1) / 2 == j / 2 - 1);
            assert((j - 1 + 1) / 2 == (j + 1) / 2);
            assert(layout_w(shape, j) == w);
            assert(layout_h(shape, j) + 1 <= (h + 1) * 21) by (nonlinear_arith)
                requires
                    layout_h(shape, j) == (h + gap_of(j)) * (n + 1) + h,
                    1 <= n <= 19,
                    0 <= gap_of(j) <= 1,
                    h >= 1,
            ;
            assert((h + 1) * 21 <= 2 * pow21(j / 2)) by (nonlinear_arith)
                requires
                    h + 1 <= 2 * pow21(j / 2 - 1),
                    pow21(j / 2) == 21 * pow21(j / 2 - 1),
            ;
        }
    }
}

/// Every position lands inside the grid.
pub proof fn lemma_xy_bounds(s: Seq<int>, shape: Seq<int>, j: int)
    requires
        forall|i: int| 0 <= i < shape.len() ==> 1 <= #[trigger] shape[i],
        0 <= j <= shape.len(),
        j <= s.len(),
        forall|i: int| 0 <= i < j ==> legal_coord(#[trigger] s[i], shape[i]),
    ensures
        0 <= x_upto(s, shape, j) < layout_w(shape, j),
        0 <= y_upto(s, shape, j) < layout_h(shape, j),
    decreases j,
{
    if j > 0 {
        lemma_xy_bounds(s, shape, j - 1);
        lemma_dims_pos(shape, j - 1);
        lemma_idx_of(s[j - 1], shape[j - 1]);
        let w = layout_w(shape, j - 1);
        let h = layout_h(shape, j - 1);
        let n = shape[j - 1];
        let idx = idx_of(s[j - 1], n);
        if j % 2 == 1 {
            let st = stride_of(shape, j);
            assert(0 <= st * idx && st * idx <= st * (n + 1)) by (nonlinear_arith)
                requires
                    st >= 1,
                    0 <= idx <= n + 1,
            ;
            assert(x_upto(s, shape, j) < layout_w(shape, j));
        } else {
            let st = stride_of(shape, j);
            assert(0 <= st * idx && st * idx <= st * (n + 1)) by (nonlinear_arith)
                requires
                    st >= 1,
                    0 <= idx <= n + 1,
            ;
            assert(y_upto(s, shape, j) < layout_h(shape, j));
        }
    }
}

/// Two positions with the same grid cell agree on every coordinate: the
/// strides outgrow everything laid out before them, so the cell
/// determines each slice index, and a slice index determines its
/// coordinate.
pub proof fn lemma_xy_inj(s1: Seq<int>, s2: Seq<int>, shape: Seq<int>, j: int)
    requires
        forall|i: int| 0 <= i < shape.len() ==> 1 <= #[trigger] shape[i],
        0 <= j <= shape.len(),
        j <= s1.len(),
        j <= s2.len(),
        forall|i: int| 0 <= i < j ==> legal_coord(#[trigger] s1[i], shape[i]),
        forall|i: int| 0 <= i < j ==> legal_coord(#[trigger] s2[i], shape[i]),
        x_upto(s1, shape, j) == x_upto(s2, shape, j),
        y_upto(s1, shape, j) == y_upto(s2, shape, j),
    ensures
        forall|i: int| 0 <= i < j ==> s1[i] == s2[i],
    decreases j,
{
    if j > 0 {
        let n = shape[j - 1];
        let i1 = idx_of(s1[j - 1], n);
        let i2 = idx_of(s2[j - 1], n);
        let st = stride_of(shape, j);
        lemma_idx_of(s1[j - 1], n);
        lemma_idx_of(s2[j - 1], n);
        lemma_xy_bounds(s1, shape, j - 1);
        lemma_xy_bounds(s2, shape, j - 1);
        lemma_dims_pos(shape, j - 1);
        if j % 2 == 1 {
            let a1 = x_upto(s1, shape, j - 1);
            let a2 = x_upto(s2, shape, j - 1);
            assert(a1 + st * i1 == a2 + st * i2);
            assert(i1 == i2) by (nonlinear_arith)
                requires
                    a1 + st * i1 == a2 + st * i2,
                    0 <= a1 < st,
                    0 <= a2 < st,
                    st >= 1,
                    i1 >= 0,
                    i2 >= 0,
            {
                assert(st * i1 - st * i2 == a2 - a1);
                assert(st * (i1 - i2) == a2 - a1);
            }
            assert(a1 == a2) by (nonlinear_arith)
                requires
                    a1 + st * i1 == a2 + st * i2,
                    i1 == i2,
            ;
            lemma_xy_inj(s1, s2, shape, j - 1);
        } else {
            let a1 = y_upto(s1, shape, j - 1);
            let a2 = y_upto(s2, shape, j - 1);
            assert(a1 + st * i1 == a2 + st * i2);
            assert(i1 == i2) by (nonlinear_arith)
                requires
                    a1 + st * i1 == a2 + st * i2,
                    0 <= a1 < st,
                    0 <= a2 < st,
                    st >= 1,
                    i1 >= 0,
                    i2 >= 0,
            {
                assert(st * i1 - st * i2 == a2 - a1);
                assert(st * (i1 - i2) == a2 - a1);
            }
            assert(a1 == a2) by (nonlinear_arith)
                requires
                    a1 + st * i1 == a2 + st * i2,
                    i1 == i2,
            ;
            lemma_xy_inj(s1, s2, shape, j - 1);
        }
        assert(axis_coords(n)[i1] == s1[j - 1]);
        assert(axis_coords(n)[i2] == s2[j - 1]);
    }
}

pub proof fn lemma_pow21_pos(e: int)
    ensures
        pow21(e) >= 1,
    decreases e,
{
    if e > 0 {
        lemma_pow21_pos(e - 1);
    }
}

pub proof fn lemma_pow21_mono(e1: int, e2: int)
    requires
        e1 <= e2,
    ensures
        pow21(e1) <= pow21(e2),
    decreases e2 - e1,
{
    lemma_pow21_pos(e1);
    if e1 < e2 {
        lemma_pow21_mono(e1, e2 - 1);
        lemma_pow21_pos(e2 - 1);
    }
}

/// The per-axis placement data of a layout: the grid size and, for each
/// axis, how far apart its slices sit along its direction.
pub struct Layout2dBuilder {
    pub width: usize,
    pub height: usize,
    pub hstrides: Vec<usize>,
    pub vstrides: Vec<usize>,
}

impl Layout2dBuilder {
    /// Well-placed for `shape`: the dimensions and strides follow the
    /// unfolding recurrence.
    pub open spec fn wf_for(self, shape: Seq<int>) -> bool {
        &&& self.width as int == layout_w(shape, shape.len() as int)
        &&& self.height as int == layout_h(shape, shape.len() as int)
        &&& self.hstrides@.len() == shape.len()
        &&& self.vstrides@.len() == shape.len()
        &&& forall|a: int|
            0 <= a < shape.len() && (a + 1) % 2 == 1 ==> (#[trigger] self.hstrides@[a]) as int
                == stride_of(shape, a + 1) && self.vstrides@[a] == 0
        &&& forall|a: int|
            0 <= a < shape.len() && (a + 1) % 2 == 0 ==> (#[trigger] self.vstrides@[a]) as int
                == stride_of(shape, a + 1) && self.hstrides@[a] == 0
    }

    /// Fold the axes into grid dimensions and strides, alternating
    /// horizontal and vertical, with a gap from the third axis on.
    pub fn new(shape: &Vec<Cut>) -> (r: Self)
        requires
            shape_wf(shape_ints(shape@)),
        ensures
            r.wf_for(shape_ints(shape@)),
    {
        let ghost shv = shape_ints(shape@);
        let mut w: usize = 1;
        let mut h: usize = 1;
        let mut hstrides: Vec<usize> = Vec::new();
        let mut vstrides: Vec<usize> = Vec::new();
        let dim = shape.len();
        let mut j: usize = 1;
        proof {
            assert(pow21(0) == 1);
            assert(pow21(1) == 21);
            assert(pow21(2) == 441);
            assert(pow21(3) == 9261);
            assert(pow21(4) == 194481);
            assert(pow21(5) == 4084101);
        }
        while j <= dim
            invariant
                shape_wf(shv),
                shv == shape_ints(shape@),
                dim == shape@.len(),
                1 <= j <= dim + 1,
                w as int == layout_w(shv, j - 1),
                h as int == layout_h(shv, j - 1),
                hstrides@.len() == j - 1,
                vstrides@.len() == j - 1,
                2 * pow21(5) == 8168202,
                forall|a: int|
                    0 <= a < j - 1 && (a + 1) % 2 == 1 ==> (#[trigger] hstrides@[a]) as int
                        == stride_of(shv, a + 1) && vstrides@[a] == 0,
                forall|a: int|
                    0 <= a < j - 1 && (a + 1) % 2 == 0 ==> (#[trigger] vstrides@[a]) as int
                        == stride_of(shv, a + 1) && hstrides@[a] == 0,
            decreases dim + 1 - j,
        {
            let n = shape[j - 1].0;
            let ghost old_hs = hstrides@;
            let ghost old_vs = vstrides@;
            proof {
                assert(1 <= shv[j - 1] <= MAX_LAYERS);
                lemma_dims_pos(shv, j as int);
                lemma_dims_bound(shv, j as int);
                lemma_pow21_mono((j as int + 1) / 2, 5);
                lemma_pow21_mono(j as int / 2, 5);
                assert(layout_w(shv, j as int) + 1 <= 8168202);
                assert(layout_h(shv, j as int) + 1 <= 8168202);
            }
            let m1 = (n as usize) + 1;
            let gap: usize = if j > 2 {
                1
            } else {
                0
            };
            if j % 2 == 1 {
                let st = w + gap;
                proof {
                    assert(st as int == stride_of(shv, j as int));
                    assert(st as int * m1 as int + w as int == layout_w(shv, j as int));
                }
                w = st * m1 + w;
                hstrides.push(st);
                vstrides.push(0);
            } else {
                let st = h + gap;
                proof {
                    assert(st as int == stride_of(shv, j as int));
                    assert(st as int * m1 as int + h as int == layout_h(shv, j as int));
                }
                h = st * m1 + h;
                vstrides.push(st);
                hstrides.push(0);
            }
            proof {
                assert forall|a: int|
                    0 <= a < j && (a + 1) % 2 == 1 implies (#[trigger] hstrides@[a]) as int
                    == stride_of(shv, a + 1) && vstrides@[a] == 0 by {
                    if a < j - 1 {
                        assert(hstrides@[a] == old_hs[a]);
                        assert(vstrides@[a] == old_vs[a]);
                    } else {
                        assert(a == j - 1);
                    }
                }
                assert forall|a: int|
                    0 <= a < j && (a + 1) % 2 == 0 implies (#[trigger] vstrides@[a]) as int
                    == stride_of(shv, a + 1) && hstrides@[a] == 0 by {
                    if a < j - 1 {
                        assert(hstrides@[a] == old_hs[a]);
                        assert(vstrides@[a] == old_vs[a]);
                    } else {
                        assert(a == j - 1);
                    }
                }
            }
            j = j + 1;
        }
        Layout2dBuilder { width: w, height: h, hstrides, vstrides }
    }
}

/// The flattened net: a bidirectional association between every valid
/// position of the shape and its 2D grid cell.
pub struct Layout2d {
    pub shape: Vec<Cut>,
    pub width: usize,
    pub height: usize,
    pub mapping: Vec<(Position, (usize, usize))>,
    pub inverse: Vec<((usize, usize), Position)>,
}

impl Layout2d {
    /// The per-axis layer counts.
    pub open spec fn shv(self) -> Seq<int> {
        shape_ints(self.shape@)
    }

    /// The number of axes.
    pub open spec fn dim(self) -> int {
        self.shape@.len() as int
    }

    /// The positions, in entry order.
    pub open spec fn pviews(self) -> Seq<Seq<int>> {
        self.mapping@.map_values(|e: (Position, (usize, usize))| e.0@)
    }

    /// The grid cells, in entry order.
    pub open spec fn xys(self) -> Seq<(int, int)> {
        self.mapping@.map_values(|e: (Position, (usize, usize))| (e.1.0 as int, e.1.1 as int))
    }

    /// The layout's invariant: one entry per valid position of the shape,
    /// each placed at its computed cell inside the grid, with the inverse
    /// column mirroring the forward one entry for entry.
    pub open spec fn wf(self) -> bool {
        &&& shape_wf(self.shv())
        &&& self.width as int == layout_w(self.shv(), self.dim())
        &&& self.height as int == layout_h(self.shv(), self.dim())
        &&& self.inverse@.len() == self.mapping@.len()
        &&& forall|t: int|
            0 <= t < self.mapping@.len() ==> pos_valid(#[trigger] self.pviews()[t], self.shv())
        &&& forall|t: int|
            0 <= t < self.mapping@.len() ==> (#[trigger] self.xys()[t]).0 == x_upto(
                self.pviews()[t],
                self.shv(),
                self.dim(),
            ) && self.xys()[t].1 == y_upto(self.pviews()[t], self.shv(), self.dim())
        &&& forall|t: int|
            0 <= t < self.mapping@.len() ==> (#[trigger] self.inverse@[t]).0 == self.mapping@[
                t
            ].1 && self.inverse@[t].1@ == self.pviews()[t]
        &&& self.pviews().no_duplicates()
        &&& forall|s: Seq<int>|
            pos_valid(s, self.shv()) ==> #[trigger] self.pviews().contains(s)
    }

    /// Lay the shape out: place every valid position on the grid, both
    /// ways.
    pub fn new(shape: &Vec<Cut>) -> (r: Self)
        requires
            shape_wf(shape_ints(shape@)),
        ensures
            r.wf(),
            r.shape@ == shape@,
    {
        let ghost shv = shape_ints(shape@);
        proof {
            assert forall|i: int| 0 <= i < shape@.len() implies (#[trigger] shape@[i]).wf() by {
                assert(1 <= shv[i] <= MAX_LAYERS);
            }
        }
        let b = Layout2dBuilder::new(shape);
        let all = Position::all(shape);
        let ghost avs = pos_views(all@);
        let dim = shape.len();
        let mut mapping: Vec<(Position, (usize, usize))> = Vec::new();
        let mut inverse: Vec<((usize, usize), Position)> = Vec::new();
        let mut t: usize = 0;
        proof {
            assert(pow21(0) == 1);
            assert(pow21(1) == 21);
            assert(pow21(2) == 441);
            assert(pow21(3) == 9261);
            assert(pow21(4) == 194481);
            assert(pow21(5) == 4084101);
        }
        while t < all.len()
            invariant
                shape_wf(shv),
                shv == shape_ints(shape@),
                dim == shape@.len(),
                b.wf_for(shv),
                avs == pos_views(all@),
                forall|w: int| 0 <= w < all@.len() ==> #[trigger] all@[w]@ == avs[w],
                forall|w: int| 0 <= w < all@.len() ==> pos_valid(#[trigger] avs[w], shv),
                pow21(5) == 4084101,
                t <= all@.len(),
                mapping@.len() == t,
                inverse@.len() == t,
                forall|w: int| 0 <= w < t ==> (#[trigger] mapping@[w]).0@ == avs[w],
                forall|w: int|
                    0 <= w < t ==> (#[trigger] mapping@[w]).1.0 as int == x_upto(
                        avs[w],
                        shv,
                        dim as int,
                    ) && mapping@[w].1.1 as int == y_upto(avs[w], shv, dim as int),
                forall|w: int|
                    0 <= w < t ==> (#[trigger] inverse@[w]).0 == mapping@[w].1 && inverse@[
                        w
                    ].1@ == mapping@[w].0@,
            decreases all@.len() - t,
        {
            let p = &all[t];
            proof {
                assert(p@ == avs[t as int]);
                assert(pos_valid(avs[t as int], shv));
                assert(p@.len() == dim);
                assert(p@.len() == p.0@.len());
            }
            let mut x: usize = 0;
            let mut y: usize = 0;
            let mut a: usize = 0;
            while a < dim
                invariant
                    shape_wf(shv),
                    shv == shape_ints(shape@),
                    dim == shape@.len(),
                    b.wf_for(shv),
                    pos_valid(p@, shv),
                    p@.len() == dim,
                    p@.len() == p.0@.len(),
                    pow21(5) == 4084101,
                    a <= dim,
                    x as int == x_upto(p@, shv, a as int),
                    y as int == y_upto(p@, shv, a as int),
                decreases dim - a,
            {
                let c = p.0[a].0;
                let n = shape[a].0;
                proof {
                    assert(p@[a as int] == c as int);
                    assert(shv[a as int] == n as int);
                    assert(legal_coord(p@[a as int], shv[a as int]));
                    assert(1 <= shv[a as int] <= MAX_LAYERS);
                    lemma_idx_of(c as int, n as int);
                    lemma_xy_bounds(p@, shv, a as int);
                    lemma_xy_bounds(p@, shv, a + 1);
                    lemma_dims_bound(shv, a + 1);
                    lemma_pow21_mono((a + 1 as int + 1) / 2, 5);
                    lemma_pow21_mono((a + 1 as int) / 2, 5);
                    assert(layout_w(shv, a + 1) <= 8168202);
                    assert(layout_h(shv, a + 1) <= 8168202);
                }
                let idx: usize = if c == -n {
                    0
                } else if c == n {
                    (n + 1) as usize
                } else {
                    ((c + n + 1) / 2) as usize
                };
                proof {
                    assert(idx as int == idx_of(c as int, n as int));
                    if (a + 1) % 2 == 1 {
                        assert(b.hstrides@[a as int] as int == stride_of(shv, a + 1));
                        assert(b.vstrides@[a as int] == 0);
                        assert(x_upto(p@, shv, a + 1) == x_upto(p@, shv, a as int) + stride_of(
                            shv,
                            a + 1,
                        ) * idx_of(c as int, n as int));
                        assert(y_upto(p@, shv, a + 1) == y_upto(p@, shv, a as int));
                    } else {
                        assert(b.vstrides@[a as int] as int == stride_of(shv, a + 1));
                        assert(b.hstrides@[a as int] == 0);
                        assert(y_upto(p@, shv, a + 1) == y_upto(p@, shv, a as int) + stride_of(
                            shv,
                            a + 1,
                        ) * idx_of(c as int, n as int));
                        assert(x_upto(p@, shv, a + 1) == x_upto(p@, shv, a as int));
                    }
                }
                proof {
                    assert(x as int + b.hstrides@[a as int] as int * idx as int == x_upto(
                        p@,
                        shv,
                        a + 1,
                    ));
                    assert(y as int + b.vstrides@[a as int] as int * idx as int == y_upto(
                        p@,
                        shv,
                        a + 1,
                    ));
                    assert(0 <= x_upto(p@, shv, a + 1) < 8168202);
                    assert(0 <= y_upto(p@, shv, a + 1) < 8168202);
                }
                x = x + b.hstrides[a] * idx;
                y = y + b.vstrides[a] * idx;
                a = a + 1;
            }
            mapping.push((p.clone(), (x, y)));
            inverse.push(((x, y), p.clone()));
            t = t + 1;
        }
        let r = Layout2d {
            shape: clone_shape(shape),
            width: b.width,
            height: b.height,
            mapping,
            inverse,
        };
        proof {
            assert forall|w: int| 0 <= w < r.mapping@.len() implies #[trigger] r.pviews()[w]
                == avs[w] by {
                assert(r.pviews()[w] == r.mapping@[w].0@);
            }
            assert(r.pviews() =~= avs);
            assert forall|w: int|
                0 <= w < r.mapping@.len() implies pos_valid(
                #[trigger] r.pviews()[w],
                r.shv(),
            ) by {
                assert(r.pviews()[w] == avs[w]);
            }
            assert forall|s: Seq<int>| pos_valid(s, r.shv()) implies #[trigger] r.pviews()
                .contains(s) by {
                assert(avs.contains(s));
            }
            assert(r.wf());
        }
        r
    }

    /// The index holding position `s`.
    pub open spec fn pindex(self, s: Seq<int>) -> int {
        choose|t: int| 0 <= t < self.pviews().len() && self.pviews()[t] == s
    }

    /// The index holding cell `xy`.
    pub open spec fn xindex(self, xy: (int, int)) -> int {
        choose|t: int| 0 <= t < self.xys().len() && self.xys()[t] == xy
    }

    /// The forward mapping, position to cell.
    pub open spec fn map_view(self) -> Map<Seq<int>, (int, int)> {
        Map::new(|s: Seq<int>| self.pviews().contains(s), |s: Seq<int>| self.xys()[self.pindex(s)])
    }

    /// The stored inverse, cell to position.
    pub open spec fn inv_view(self) -> Map<(int, int), Seq<int>> {
        Map::new(|xy: (int, int)| self.xys().contains(xy), |xy: (int, int)| self.pviews()[self.xindex(xy)])
    }

    /// Distinct entries sit in distinct cells: the placement is injective.
    pub proof fn lemma_xys_distinct(self)
        requires
            self.wf(),
        ensures
            self.xys().no_duplicates(),
    {
        assert forall|t1: int, t2: int|
            0 <= t1 < t2 < self.xys().len() implies self.xys()[t1] != self.xys()[t2] by {
            if self.xys()[t1] == self.xys()[t2] {
                let s1 = self.pviews()[t1];
                let s2 = self.pviews()[t2];
                assert(pos_valid(s1, self.shv()));
                assert(pos_valid(s2, self.shv()));
                lemma_xy_inj(s1, s2, self.shv(), self.dim());
                assert(s1 =~= s2);
            }
        }
    }

    /// Each position and each cell sits at one index.
    pub proof fn lemma_entry(self, t: int)
        requires
            self.wf(),
            0 <= t < self.mapping@.len(),
        ensures
            self.map_view().dom().contains(self.pviews()[t]),
            self.pindex(self.pviews()[t]) == t,
            self.map_view()[self.pviews()[t]] == self.xys()[t],
            self.inv_view().dom().contains(self.xys()[t]),
            self.xindex(self.xys()[t]) == t,
            self.inv_view()[self.xys()[t]] == self.pviews()[t],
    {
        self.lemma_xys_distinct();
        assert(self.pviews().contains(self.pviews()[t])) by {
            assert(0 <= t < self.pviews().len());
        }
        assert(self.xys().contains(self.xys()[t])) by {
            assert(0 <= t < self.xys().len());
        }
        let p = self.pindex(self.pviews()[t]);
        assert(0 <= p < self.pviews().len() && self.pviews()[p] == self.pviews()[t]);
        assert(p == t);
        let q = self.xindex(self.xys()[t]);
        assert(0 <= q < self.xys().len() && self.xys()[q] == self.xys()[t]);
        assert(q == t);
    }

    /// The forward mapping and the stored inverse are exact two-way
    /// inverses over their full domains.
    pub proof fn lemma_bijection(self)
        requires
            self.wf(),
        ensures
            forall|s: Seq<int>|
                #[trigger] self.map_view().dom().contains(s) ==> self.inv_view().dom().contains(
                    self.map_view()[s],
                ) && self.inv_view()[self.map_view()[s]] == s,
            forall|xy: (int, int)|
                #[trigger] self.inv_view().dom().contains(xy) ==> self.map_view().dom().contains(
                    self.inv_view()[xy],
                ) && self.map_view()[self.inv_view()[xy]] == xy,
    {
        assert forall|s: Seq<int>| #[trigger] self.map_view().dom().contains(
            s,
        ) implies self.inv_view().dom().contains(self.map_view()[s]) && self.inv_view()[
            self.map_view()[s]
        ] == s by {
            let t = choose|t: int| 0 <= t < self.pviews().len() && self.pviews()[t] == s;
            self.lemma_entry(t);
        }
        assert forall|xy: (int, int)| #[trigger] self.inv_view().dom().contains(
            xy,
        ) implies self.map_view().dom().contains(self.inv_view()[xy]) && self.map_view()[
            self.inv_view()[xy]
        ] == xy by {
            let t = choose|t: int| 0 <= t < self.xys().len() && self.xys()[t] == xy;
            self.lemma_entry(t);
        }
    }

    /// The cell of a position, for placing stickers on the grid.
    pub fn get(&self, pos: &Position) -> (r: Option<(usize, usize)>)
        requires
            self.wf(),
            pos@.len() == self.dim(),
        ensures
            r is Some <==> pos_valid(pos@, self.shv()),
            r is Some ==> (r->0).0 as int == x_upto(pos@, self.shv(), self.dim()) && (
            r->0).1 as int == y_upto(pos@, self.shv(), self.dim()),
    {
        let n = self.mapping.len();
        let mut t: usize = 0;
        while t < n
            invariant
                self.wf(),
                pos@.len() == self.dim(),
                n == self.mapping@.len(),
                t <= n,
                forall|w: int| 0 <= w < t ==> #[trigger] self.pviews()[w] != pos@,
            decreases n - t,
        {
            proof {
                assert(pos_valid(self.pviews()[t as int], self.shv()));
                assert(self.mapping@[t as int].0@ == self.pviews()[t as int]);
            }
            let c = pos_cmp(&self.mapping[t].0, pos);
            if c == 0 {
                proof {
                    assert(self.pviews()[t as int] == pos@);
                    assert(self.xys()[t as int] == (
                        self.mapping@[t as int].1.0 as int,
                        self.mapping@[t as int].1.1 as int,
                    ));
                }
                return Some(self.mapping[t].1);
            }
            t = t + 1;
        }
        proof {
            if pos_valid(pos@, self.shv()) {
                assert(self.pviews().contains(pos@));
                let w = choose|w: int|
                    0 <= w < self.pviews().len() && self.pviews()[w] == pos@;
                assert(self.pviews()[w] != pos@);
            }
        }
        None
    }

    /// The position at a grid cell, for pointer hit-testing.
    pub fn pos_of(&self, x: usize, y: usize) -> (r: Option<&Position>)
        requires
            self.wf(),
        ensures
            r is Some ==> pos_valid((r->0)@, self.shv()) && x_upto((r->0)@, self.shv(), self.dim())
                == x && y_upto((r->0)@, self.shv(), self.dim()) == y,
            forall|s: Seq<int>|
                pos_valid(s, self.shv()) && x_upto(s, self.shv(), self.dim()) == x as int
                    && y_upto(s, self.shv(), self.dim()) == y as int ==> r is Some,
    {
        let n = self.inverse.len();
        let mut t: usize = 0;
        while t < n
            invariant
                self.wf(),
                n == self.inverse@.len(),
                n == self.mapping@.len(),
                t <= n,
                forall|w: int|
                    0 <= w < t ==> #[trigger] self.xys()[w] != (x as int, y as int),
            decreases n - t,
        {
            proof {
                assert(self.inverse@[t as int].0 == self.mapping@[t as int].1);
                assert(self.xys()[t as int] == (
                    self.mapping@[t as int].1.0 as int,
                    self.mapping@[t as int].1.1 as int,
                ));
            }
            let e = &self.inverse[t];
            if e.0.0 == x && e.0.1 == y {
                proof {
                    assert(self.xys()[t as int] == (x as int, y as int));
                    assert(self.inverse@[t as int].1@ == self.pviews()[t as int]);
                    assert(pos_valid(self.pviews()[t as int], self.shv()));
                }
                return Some(&e.1);
            }
            t = t + 1;
        }
        proof {
            assert forall|s: Seq<int>|
                !(pos_valid(s, self.shv()) && x_upto(s, self.shv(), self.dim()) == x as int
                    && y_upto(s, self.shv(), self.dim()) == y as int) by {
                if pos_valid(s, self.shv()) && x_upto(s, self.shv(), self.dim()) == x as int
                    && y_upto(s, self.shv(), self.dim()) == y as int {
                    assert(self.pviews().contains(s));
                    let w = choose|w: int|
                        0 <= w < self.pviews().len() && self.pviews()[w] == s;
                    assert(self.xys()[w] == (x as int, y as int));
                }
            }
        }
        None
    }
}

} // verus!
