//! Cartesian-product enumeration of coordinate tuples.
//!
//! The product of the per-axis coordinate lists is taken by itertools; the
//! [`cartesian`] spec function states exactly which sequence it yields, and
//! the lemmas here derive the membership and distinctness facts the rest of
//! the crate builds on.

use itertools::Itertools;
use vstd::prelude::*;

verus! {

use crate::geometry::Coord;

/// Every tuple of `ps`, extended by every coordinate of `cs`; the tuple
/// varies slower than the coordinate.
pub open spec fn extend_each(p: Seq<Coord>, cs: Seq<Coord>) -> Seq<Seq<Coord>> {
    cs.map_values(|c: Coord| p.push(c))
}

/// All tuples of `ps`, each extended by every coordinate of `cs`.
pub open spec fn cross_last(ps: Seq<Seq<Coord>>, cs: Seq<Coord>) -> Seq<Seq<Coord>>
    decreases ps.len(),
{
    if ps.len() == 0 {
        Seq::empty()
    } else {
        cross_last(ps.drop_last(), cs) + extend_each(ps.last(), cs)
    }
}

/// The cartesian product of the axis lists, last axis varying fastest.
pub open spec fn cartesian(axes: Seq<Seq<Coord>>) -> Seq<Seq<Coord>>
    decreases axes.len(),
{
    if axes.len() == 0 {
        seq![Seq::<Coord>::empty()]
    } else {
        cross_last(cartesian(axes.drop_last()), axes.last())
    }
}

/// A tuple lies in `cross_last(ps, cs)` exactly when its prefix lies in `ps`
/// and its last coordinate in `cs`.
pub proof fn lemma_cross_last_contains(ps: Seq<Seq<Coord>>, cs: Seq<Coord>, s: Seq<Coord>)
    ensures
        cross_last(ps, cs).contains(s) <==> (s.len() >= 1 && ps.contains(s.drop_last())
            && cs.contains(s.last())),
    decreases ps.len(),
{
    if ps.len() == 0 {
        assert(!cross_last(ps, cs).contains(s));
        assert(!ps.contains(s.drop_last()));
    } else {
        lemma_cross_last_contains(ps.drop_last(), cs, s);
        let rec = cross_last(ps.drop_last(), cs);
        let ext = extend_each(ps.last(), cs);
        assert(cross_last(ps, cs) == rec + ext);
        if cross_last(ps, cs).contains(s) {
            let k = choose|k: int| 0 <= k < (rec + ext).len() && (rec + ext)[k] == s;
            if k < rec.len() {
                assert(rec[k] == s);
                assert(rec.contains(s));
            } else {
                assert(ext[k - rec.len()] == s);
                let c = cs[k - rec.len()];
                assert(s == ps.last().push(c));
                assert(s.drop_last() =~= ps.last());
                assert(s.last() == c);
                assert(ps.contains(ps.last()));
            }
        }
        if s.len() >= 1 && ps.contains(s.drop_last()) && cs.contains(s.last()) {
            let i = choose|i: int| 0 <= i < ps.len() && ps[i] == s.drop_last();
            if i < ps.len() - 1 {
                assert(ps.drop_last()[i] == s.drop_last());
                assert(ps.drop_last().contains(s.drop_last()));
                assert(rec.contains(s));
                let k = choose|k: int| 0 <= k < rec.len() && rec[k] == s;
                assert((rec + ext)[k] == s);
            } else {
                let j = choose|j: int| 0 <= j < cs.len() && cs[j] == s.last();
                assert(ext[j] == ps.last().push(s.last()));
                assert(ps.last().push(s.last()) =~= s);
                assert((rec + ext)[rec.len() + j] == s);
            }
            assert(cross_last(ps, cs).contains(s));
        }
    }
}

/// A tuple lies in the cartesian product exactly when it picks one
/// coordinate from every axis list.
pub proof fn lemma_cartesian_contains(axes: Seq<Seq<Coord>>, s: Seq<Coord>)
    ensures
        cartesian(axes).contains(s) <==> (s.len() == axes.len() && forall|i: int|
            0 <= i < axes.len() ==> #[trigger] axes[i].contains(s[i])),
    decreases axes.len(),
{
    if axes.len() == 0 {
        if s.len() == 0 {
            assert(s =~= Seq::<Coord>::empty());
            assert(cartesian(axes)[0] == s);
        }
    } else {
        lemma_cross_last_contains(cartesian(axes.drop_last()), axes.last(), s);
        lemma_cartesian_contains(axes.drop_last(), s.drop_last());
        if cartesian(axes).contains(s) {
            assert forall|i: int| 0 <= i < axes.len() implies #[trigger] axes[i].contains(
                s[i],
            ) by {
                if i < axes.len() - 1 {
                    assert(axes.drop_last()[i].contains(s.drop_last()[i]));
                } else {
                    assert(axes.last().contains(s.last()));
                }
            }
        }
        if s.len() == axes.len() && forall|i: int|
            0 <= i < axes.len() ==> #[trigger] axes[i].contains(s[i]) {
            assert forall|i: int| 0 <= i < axes.drop_last().len() implies #[trigger] axes
                .drop_last()[i].contains(s.drop_last()[i]) by {
                assert(axes[i].contains(s[i]));
            }
            assert(cartesian(axes.drop_last()).contains(s.drop_last()));
            assert(axes[axes.len() - 1].contains(s[s.len() - 1]));
        }
    }
}

/// Concatenation keeps distinctness when the parts share no element.
proof fn lemma_distinct_concat(a: Seq<Seq<Coord>>, b: Seq<Seq<Coord>>)
    requires
        a.no_duplicates(),
        b.no_duplicates(),
        forall|s: Seq<Coord>| !(#[trigger] a.contains(s) && b.contains(s)),
    ensures
        (a + b).no_duplicates(),
{
    assert forall|i: int, j: int|
        0 <= i < j < (a + b).len() implies (a + b)[i] != (a + b)[j] by {
        if i < a.len() && j >= a.len() {
            if a[i] == b[j - a.len()] {
                assert(a.contains(a[i]));
                assert(b.contains(b[j - a.len()]));
            }
        }
    }
}

/// `cross_last` of distinct tuples and distinct coordinates is distinct.
pub proof fn lemma_cross_last_distinct(ps: Seq<Seq<Coord>>, cs: Seq<Coord>)
    requires
        ps.no_duplicates(),
        cs.no_duplicates(),
    ensures
        cross_last(ps, cs).no_duplicates(),
    decreases ps.len(),
{
    if ps.len() > 0 {
        lemma_cross_last_distinct(ps.drop_last(), cs);
        let rec = cross_last(ps.drop_last(), cs);
        let ext = extend_each(ps.last(), cs);
        assert forall|i: int, j: int| 0 <= i < j < ext.len() implies ext[i] != ext[j] by {
            assert(ext[i] == ps.last().push(cs[i]));
            assert(ext[j] == ps.last().push(cs[j]));
            assert(ps.last().push(cs[i]).last() == cs[i]);
            assert(ps.last().push(cs[j]).last() == cs[j]);
        }
        assert forall|s: Seq<Coord>| !(#[trigger] rec.contains(s) && ext.contains(s)) by {
            if rec.contains(s) && ext.contains(s) {
                lemma_cross_last_contains(ps.drop_last(), cs, s);
                let j = choose|j: int| 0 <= j < ext.len() && ext[j] == s;
                assert(s == ps.last().push(cs[j]));
                assert(s.drop_last() =~= ps.last());
                let i = choose|i: int|
                    0 <= i < ps.drop_last().len() && ps.drop_last()[i] == s.drop_last();
                assert(ps[i] == ps[ps.len() - 1]);
            }
        }
        lemma_distinct_concat(rec, ext);
    }
}

/// The cartesian product of distinct axis lists is distinct.
pub proof fn lemma_cartesian_distinct(axes: Seq<Seq<Coord>>)
    requires
        forall|i: int| 0 <= i < axes.len() ==> (#[trigger] axes[i]).no_duplicates(),
    ensures
        cartesian(axes).no_duplicates(),
    decreases axes.len(),
{
    if axes.len() > 0 {
        assert forall|i: int| 0 <= i < axes.drop_last().len() implies (#[trigger] axes
            .drop_last()[i]).no_duplicates() by {
            assert(axes[i].no_duplicates());
        }
        lemma_cartesian_distinct(axes.drop_last());
        assert(axes[axes.len() - 1].no_duplicates());
        lemma_cross_last_distinct(cartesian(axes.drop_last()), axes.last());
    }
}

/// Relies on itertools' `multi_cartesian_product`: it yields every
/// combination that takes one element from each list, with the last list
/// varying fastest, and a single empty tuple when there are no lists.
#[verifier::external_body]
pub(crate) fn cartesian_product(axes: &Vec<Vec<Coord>>) -> (r: Vec<Vec<Coord>>)
    ensures
        r@.map_values(|v: Vec<Coord>| v@) == cartesian(
            axes@.map_values(|v: Vec<Coord>| v@),
        ),
{
    axes.clone().into_iter().map(Vec::into_iter).multi_cartesian_product().collect()
}

} // verus!
