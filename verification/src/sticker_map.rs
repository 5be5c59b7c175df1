//! An ordered association from sticker positions to sides.
//!
//! The mapping at the heart of the puzzle state. Keys are kept strictly
//! sorted in lexicographic coordinate order, which makes them unique, gives
//! fast lookup, and means a puzzle's representation is determined by its
//! mathematical view.

use vstd::prelude::*;

verus! {

use crate::position::{Position, Sticker, count_upto, lemma_count_ptwise};
use crate::side::Side;

/// Strict lexicographic order on coordinate sequences.
pub open spec fn lex_lt(a: Seq<int>, b: Seq<int>) -> bool
    decreases a.len(),
{
    if a.len() == 0 || b.len() == 0 {
        false
    } else if a[0] < b[0] {
        true
    } else if a[0] > b[0] {
        false
    } else {
        lex_lt(a.drop_first(), b.drop_first())
    }
}

pub proof fn lemma_lex_irrefl(a: Seq<int>)
    ensures
        !lex_lt(a, a),
    decreases a.len(),
{
    if a.len() > 0 {
        lemma_lex_irrefl(a.drop_first());
    }
}

pub proof fn lemma_lex_asym(a: Seq<int>, b: Seq<int>)
    requires
        lex_lt(a, b),
    ensures
        !lex_lt(b, a),
        a != b,
    decreases a.len(),
{
    if a[0] == b[0] {
        lemma_lex_asym(a.drop_first(), b.drop_first());
        if a == b {
            assert(a.drop_first() == b.drop_first());
        }
    }
}

/// Equal-length sequences are totally ordered by `lex_lt`.
pub proof fn lemma_lex_total(a: Seq<int>, b: Seq<int>)
    requires
        a.len() == b.len(),
    ensures
        lex_lt(a, b) || lex_lt(b, a) || a == b,
    decreases a.len(),
{
    if a.len() == 0 {
        assert(a =~= b);
    } else if a[0] == b[0] {
        lemma_lex_total(a.drop_first(), b.drop_first());
        if !lex_lt(a, b) && !lex_lt(b, a) {
            assert(a.drop_first() =~= b.drop_first());
            assert forall|i: int| 0 <= i < a.len() implies a[i] == b[i] by {
                if i > 0 {
                    assert(a.drop_first()[i - 1] == b.drop_first()[i - 1]);
                }
            }
            assert(a =~= b);
        }
    }
}

pub proof fn lemma_lex_trans(a: Seq<int>, b: Seq<int>, c: Seq<int>)
    requires
        a.len() == b.len(),
        b.len() == c.len(),
        lex_lt(a, b),
        lex_lt(b, c),
    ensures
        lex_lt(a, c),
    decreases a.len(),
{
    if a[0] == b[0] && b[0] == c[0] {
        lemma_lex_trans(a.drop_first(), b.drop_first(), c.drop_first());
    }
}

/// A difference at index `i` after a common prefix decides the order.
proof fn lemma_lex_from_diff(a: Seq<int>, b: Seq<int>, i: int)
    requires
        a.len() == b.len(),
        0 <= i < a.len(),
        forall|k: int| 0 <= k < i ==> a[k] == b[k],
        a[i] < b[i],
    ensures
        lex_lt(a, b),
    decreases i,
{
    if i > 0 {
        assert(a[0] == b[0]);
        assert forall|k: int| 0 <= k < i - 1 implies a.drop_first()[k] == b.drop_first()[k] by {
            assert(a[k + 1] == b[k + 1]);
        }
        assert(a.drop_first()[i - 1] < b.drop_first()[i - 1]);
        lemma_lex_from_diff(a.drop_first(), b.drop_first(), i - 1);
    }
}

/// Three-way lexicographic comparison of two positions of one shape.
pub fn pos_cmp(a: &Position, b: &Position) -> (r: i8)
    requires
        a@.len() == b@.len(),
    ensures
        r == -1 || r == 0 || r == 1,
        (r == -1) <==> lex_lt(a@, b@),
        (r == 0) <==> a@ == b@,
        (r == 1) <==> lex_lt(b@, a@),
{
    let mut i: usize = 0;
    while i < a.0.len()
        invariant
            a@.len() == b@.len(),
            a@.len() == a.0@.len(),
            b@.len() == b.0@.len(),
            i <= a@.len(),
            forall|k: int| 0 <= k < i ==> #[trigger] a@[k] == b@[k],
        decreases a@.len() - i,
    {
        let ca = a.0[i].0;
        let cb = b.0[i].0;
        proof {
            assert(a@[i as int] == ca as int);
            assert(b@[i as int] == cb as int);
        }
        if ca < cb {
            proof {
                lemma_lex_from_diff(a@, b@, i as int);
                lemma_lex_asym(a@, b@);
            }
            return -1;
        }
        if cb < ca {
            proof {
                lemma_lex_from_diff(b@, a@, i as int);
                lemma_lex_asym(b@, a@);
            }
            return 1;
        }
        i = i + 1;
    }
    proof {
        assert(a@ =~= b@);
        lemma_lex_irrefl(a@);
    }
    0
}

/// Whether slot `j` of the column holds side `v`.
pub open spec fn val_pred(s: Seq<Side>, v: Side) -> spec_fn(int) -> bool {
    |j: int| s[j] == v
}

/// How often side `v` occurs in the column.
pub open spec fn count_val(s: Seq<Side>, v: Side) -> int {
    count_upto(val_pred(s, v), s.len() as int)
}

/// Removing one slot removes exactly its side from the tally.
proof fn lemma_count_remove(s: Seq<Side>, i: int, v: Side)
    requires
        0 <= i < s.len(),
    ensures
        count_val(s, v) == count_val(s.remove(i), v) + if s[i] == v {
            1int
        } else {
            0int
        },
    decreases s.len(),
{
    let n = s.len() as int;
    let s0 = s.drop_last();
    if i == n - 1 {
        assert(s.remove(i) =~= s0);
        lemma_count_ptwise(val_pred(s.remove(i), v), val_pred(s0, v), n - 1);
        lemma_count_ptwise(val_pred(s, v), val_pred(s0, v), n - 1);
        assert(val_pred(s, v)(n - 1) == (s[n - 1] == v));
    } else {
        lemma_count_remove(s0, i, v);
        assert(s.remove(i).drop_last() =~= s0.remove(i)) by {
            s.remove_ensures(i);
            s0.remove_ensures(i);
            assert forall|k: int|
                0 <= k < n - 2 implies s.remove(i).drop_last()[k] == s0.remove(i)[k] by {
                if k < i {
                    assert(s.remove(i)[k] == s[k]);
                    assert(s0.remove(i)[k] == s0[k]);
                } else {
                    assert(s.remove(i)[k] == s[k + 1]);
                    assert(s0.remove(i)[k] == s0[k + 1]);
                }
            }
        }
        assert(s.remove(i)[n - 2] == s[n - 1]) by {
            s.remove_ensures(i);
        }
        assert(count_val(s.remove(i), v) == count_val(s0.remove(i), v) + if s[n - 1] == v {
            1int
        } else {
            0int
        }) by {
            lemma_count_ptwise(
                val_pred(s.remove(i), v),
                val_pred(s.remove(i).drop_last(), v),
                n - 2,
            );
            lemma_count_ptwise(
                val_pred(s.remove(i).drop_last(), v),
                val_pred(s0.remove(i), v),
                n - 2,
            );
        }
        assert(count_val(s, v) == count_val(s0, v) + if s[n - 1] == v {
            1int
        } else {
            0int
        }) by {
            lemma_count_ptwise(val_pred(s, v), val_pred(s0, v), n - 1);
        }
    }
}

/// Reindexing by an injective index table keeps every side's tally.
proof fn lemma_reindex_count(a: Seq<Side>, b: Seq<Side>, sigma: Seq<int>, v: Side)
    requires
        a.len() == b.len(),
        sigma.len() == b.len(),
        forall|j: int| 0 <= j < b.len() ==> 0 <= #[trigger] sigma[j] < a.len(),
        forall|j: int| 0 <= j < b.len() ==> b[j] == a[#[trigger] sigma[j]],
        forall|j1: int, j2: int|
            #![trigger sigma[j1], sigma[j2]]
            0 <= j1 < j2 < b.len() ==> sigma[j1] != sigma[j2],
    ensures
        count_val(b, v) == count_val(a, v),
    decreases b.len(),
{
    let n = b.len() as int;
    if n > 0 {
        let i = sigma[n - 1];
        let a2 = a.remove(i);
        let b2 = b.drop_last();
        let sigma2 = Seq::new(
            (n - 1) as nat,
            |j: int|
                if sigma[j] < i {
                    sigma[j]
                } else {
                    sigma[j] - 1
                },
        );
        a.remove_ensures(i);
        assert forall|j: int|
            0 <= j < b2.len() implies 0 <= #[trigger] sigma2[j] < a2.len() && b2[j] == a2[sigma2[
            j
        ]] by {
            assert(sigma[j] != i);
            assert(b2[j] == b[j]);
            assert(b[j] == a[sigma[j]]);
            if sigma[j] < i {
                assert(a2[sigma[j]] == a[sigma[j]]);
            } else {
                assert(a2[sigma[j] - 1] == a[sigma[j]]);
            }
        }
        assert forall|j1: int, j2: int|
            #![trigger sigma2[j1], sigma2[j2]]
            0 <= j1 < j2 < b2.len() implies sigma2[j1] != sigma2[j2] by {
            assert(sigma[j1] != sigma[j2]);
            assert(sigma[j1] != i);
            assert(sigma[j2] != i);
        }
        lemma_reindex_count(a2, b2, sigma2, v);
        lemma_count_remove(a, i, v);
        assert(count_val(b, v) == count_val(b2, v) + if b[n - 1] == v {
            1int
        } else {
            0int
        }) by {
            lemma_count_ptwise(val_pred(b, v), val_pred(b2, v), n - 1);
        }
        assert(b[n - 1] == a[i]);
    }
}

/// A column's multiset counts each side as often as the slots do.
proof fn lemma_count_to_multiset(s: Seq<Side>, v: Side)
    ensures
        s.to_multiset().count(v) == count_val(s, v),
    decreases s.len(),
{
    s.to_multiset_ensures();
    if s.len() == 0 {
        assert(!s.contains(v));
        assert(s.to_multiset().count(v) == 0);
    } else {
        let s0 = s.drop_last();
        let x = s.last();
        lemma_count_to_multiset(s0, v);
        assert(s =~= s0.push(x));
        s0.to_multiset_ensures();
        assert(s.to_multiset() =~= s0.to_multiset().insert(x));
        if x == v {
            vstd::multiset::lemma_insert_increases_count_by_1(s0.to_multiset(), x);
        } else {
            vstd::multiset::lemma_insert_other_elements_unchanged(s0.to_multiset(), x, v);
        }
        assert(count_val(s, v) == count_val(s0, v) + if x == v {
            1int
        } else {
            0int
        }) by {
            lemma_count_ptwise(val_pred(s, v), val_pred(s0, v), s.len() - 1);
        }
    }
}

/// Two columns that are injective reindexings of each other hold the same
/// sides, with multiplicity.
pub proof fn lemma_reindex_multiset(a: Seq<Side>, b: Seq<Side>, sigma: Seq<int>)
    requires
        a.len() == b.len(),
        sigma.len() == b.len(),
        forall|j: int| 0 <= j < b.len() ==> 0 <= #[trigger] sigma[j] < a.len(),
        forall|j: int| 0 <= j < b.len() ==> b[j] == a[#[trigger] sigma[j]],
        forall|j1: int, j2: int|
            #![trigger sigma[j1], sigma[j2]]
            0 <= j1 < j2 < b.len() ==> sigma[j1] != sigma[j2],
    ensures
        b.to_multiset() == a.to_multiset(),
{
    assert forall|v: Side| b.to_multiset().count(v) == a.to_multiset().count(v) by {
        lemma_reindex_count(a, b, sigma, v);
        lemma_count_to_multiset(a, v);
        lemma_count_to_multiset(b, v);
    }
    assert(b.to_multiset() =~= a.to_multiset());
}

/// The keys of the map, strictly increasing.
pub open spec fn keys_sorted(ks: Seq<Seq<int>>) -> bool {
    forall|i: int, j: int| #![trigger ks[i], ks[j]] 0 <= i < j < ks.len() ==> lex_lt(ks[i], ks[j])
}

/// The sticker-to-side association of a puzzle, keys kept sorted.
#[derive(Debug, PartialEq, Eq)]
pub struct StickerMap {
    pub keys: Vec<Sticker>,
    pub vals: Vec<Side>,
}

impl Clone for StickerMap {
    /// A copy holding the same associations.
    fn clone(&self) -> (r: Self)
        ensures
            r.key_views() == self.key_views(),
            r.vals@ == self.vals@,
    {
        let mut keys: Vec<Sticker> = Vec::new();
        let mut vals: Vec<Side> = Vec::new();
        let mut i: usize = 0;
        while i < self.keys.len()
            invariant
                i <= self.keys@.len(),
                keys@.len() == i,
                forall|k: int| 0 <= k < i ==> #[trigger] keys@[k]@ == self.keys@[k]@,
            decreases self.keys@.len() - i,
        {
            keys.push(self.keys[i].clone());
            i = i + 1;
        }
        let mut j: usize = 0;
        while j < self.vals.len()
            invariant
                j <= self.vals@.len(),
                vals@.len() == j,
                forall|k: int| 0 <= k < j ==> #[trigger] vals@[k] == self.vals@[k],
            decreases self.vals@.len() - j,
    {
            vals.push(self.vals[j]);
            j = j + 1;
        }
        proof {
            assert(vals@ =~= self.vals@);
            let kv = keys@.map_values(|s: Sticker| s@);
            assert forall|k: int| 0 <= k < keys@.len() implies #[trigger] kv[k]
                == self.key_views()[k] by {
                assert(keys@[k]@ == self.keys@[k]@);
            }
            assert(kv =~= self.key_views());
        }
        StickerMap { keys, vals }
    }
}

impl StickerMap {
    /// The key positions, as coordinate sequences.
    pub open spec fn key_views(self) -> Seq<Seq<int>> {
        self.keys@.map_values(|s: Sticker| s@)
    }

    /// Structural well-formedness: parallel columns, keys of one length,
    /// strictly sorted.
    pub open spec fn wf(self) -> bool {
        &&& self.keys@.len() == self.vals@.len()
        &&& forall|i: int, j: int|
            #![trigger self.key_views()[i], self.key_views()[j]]
            0 <= i < self.key_views().len() && 0 <= j < self.key_views().len()
                ==> self.key_views()[i].len() == self.key_views()[j].len()
        &&& keys_sorted(self.key_views())
    }

    /// Whether `k` is a key.
    pub open spec fn contains_key(self, k: Seq<int>) -> bool {
        self.key_views().contains(k)
    }

    /// The index holding key `k`.
    pub open spec fn key_index(self, k: Seq<int>) -> int {
        choose|i: int| 0 <= i < self.key_views().len() && self.key_views()[i] == k
    }

    /// The association as a mathematical map from positions to side
    /// indices.
    pub open spec fn map_view(self) -> Map<Seq<int>, int> {
        Map::new(|k: Seq<int>| self.contains_key(k), |k: Seq<int>| self.vals@[self.key_index(k)].0 as int)
    }

    /// Whether `k` fits the keys' common length.
    pub open spec fn key_len_ok(self, k: Seq<int>) -> bool {
        forall|i: int| 0 <= i < self.key_views().len() ==> (#[trigger] self.key_views()[i]).len() == k.len()
    }

    /// Sorted keys are distinct, so each key sits at one index.
    pub proof fn lemma_at(self, i: int)
        requires
            self.wf(),
            0 <= i < self.keys@.len(),
        ensures
            self.contains_key(self.key_views()[i]),
            self.key_index(self.key_views()[i]) == i,
            self.map_view()[self.key_views()[i]] == self.vals@[i].0 as int,
            self.map_view().dom().contains(self.key_views()[i]),
    {
        let ks = self.key_views();
        assert(ks.contains(ks[i])) by {
            assert(0 <= i < ks.len() && ks[i] == ks[i]);
        }
        let j = self.key_index(ks[i]);
        assert(0 <= j < ks.len() && ks[j] == ks[i]);
        if j < i {
            assert(lex_lt(ks[j], ks[i]));
            lemma_lex_asym(ks[j], ks[i]);
        } else if i < j {
            assert(lex_lt(ks[i], ks[j]));
            lemma_lex_asym(ks[i], ks[j]);
        }
    }

    /// An empty association.
    pub fn empty() -> (r: Self)
        ensures
            r.wf(),
            r.keys@.len() == 0,
            forall|k: Seq<int>| !r.contains_key(k),
    {
        let r = StickerMap { keys: Vec::new(), vals: Vec::new() };
        proof {
            assert forall|k: Seq<int>| !r.contains_key(k) by {
                assert(r.key_views().len() == 0);
            }
        }
        r
    }

    /// How many stickers the map holds.
    pub fn len(&self) -> (r: usize)
        ensures
            r == self.keys@.len(),
    {
        self.keys.len()
    }

    /// The sticker at slot `i`.
    pub fn key_at(&self, i: usize) -> (r: &Sticker)
        requires
            i < self.keys@.len(),
        ensures
            *r == self.keys@[i as int],
    {
        &self.keys[i]
    }

    /// The side at slot `i`.
    pub fn val_at(&self, i: usize) -> (r: Side)
        requires
            i < self.vals@.len(),
        ensures
            r == self.vals@[i as int],
    {
        self.vals[i]
    }

    /// The first slot whose key is not below `key`.
    fn lower_bound(&self, key: &Position) -> (r: usize)
        requires
            self.wf(),
            self.key_len_ok(key@),
        ensures
            r <= self.keys@.len(),
            forall|i: int| 0 <= i < r ==> lex_lt(#[trigger] self.key_views()[i], key@),
            forall|i: int|
                r <= i < self.keys@.len() ==> !lex_lt(#[trigger] self.key_views()[i], key@),
    {
        let ghost ks = self.key_views();
        let mut lo: usize = 0;
        let mut hi: usize = self.keys.len();
        while lo < hi
            invariant
                self.wf(),
                self.key_len_ok(key@),
                ks == self.key_views(),
                lo <= hi <= self.keys@.len(),
                forall|i: int| 0 <= i < lo ==> lex_lt(#[trigger] ks[i], key@),
                forall|i: int| hi <= i < self.keys@.len() ==> !lex_lt(#[trigger] ks[i], key@),
            decreases hi - lo,
        {
            let mid = lo + (hi - lo) / 2;
            proof {
                assert(self.keys@[mid as int]@ == ks[mid as int]);
                assert(ks[mid as int].len() == key@.len());
                assert(self.keys@[mid as int].0@ == self.keys@[mid as int]@);
            }
            let c = pos_cmp(&self.keys[mid].0, key);
            if c == -1 {
                proof {
                    assert forall|i: int| 0 <= i < mid + 1 implies lex_lt(
                        #[trigger] ks[i],
                        key@,
                    ) by {
                        if i < mid {
                            assert(lex_lt(ks[i], ks[mid as int]));
                            lemma_lex_trans(ks[i], ks[mid as int], key@);
                        }
                    }
                }
                lo = mid + 1;
            } else {
                proof {
                    assert forall|i: int|
                        mid <= i < self.keys@.len() implies !lex_lt(#[trigger] ks[i], key@) by {
                        if i > mid {
                            if lex_lt(ks[i], key@) {
                                assert(lex_lt(ks[mid as int], ks[i]));
                                lemma_lex_trans(ks[mid as int], ks[i], key@);
                            }
                        } else {
                            if c == 0 {
                                lemma_lex_irrefl(key@);
                            } else {
                                lemma_lex_asym(key@, ks[mid as int]);
                            }
                        }
                    }
                }
                hi = mid;
            }
        }
        lo
    }

    /// Look the side up under a position.
    pub fn get(&self, key: &Position) -> (r: Option<Side>)
        requires
            self.wf(),
            self.key_len_ok(key@),
        ensures
            r is Some <==> self.contains_key(key@),
            r is Some ==> (r->0).0 as int == self.map_view()[key@],
    {
        let i = self.lower_bound(key);
        if i < self.keys.len() {
            proof {
                assert(self.keys@[i as int]@ == self.key_views()[i as int]);
                assert(self.key_views()[i as int].len() == key@.len());
            }
            let c = pos_cmp(&self.keys[i].0, key);
            if c == 0 {
                proof {
                    self.lemma_at(i as int);
                    assert(self.key_views()[i as int] == key@);
                }
                return Some(self.vals[i]);
            }
        }
        proof {
            if self.contains_key(key@) {
                let j = choose|j: int|
                    0 <= j < self.key_views().len() && self.key_views()[j] == key@;
                if j < i {
                    assert(lex_lt(self.key_views()[j], key@));
                    lemma_lex_irrefl(key@);
                } else if j > i {
                    assert(lex_lt(self.key_views()[i as int], self.key_views()[j]));
                } else {
                    assert(self.key_views()[i as int] == key@);
                }
            }
        }
        None
    }

    /// Add a sticker not yet present, keeping the keys sorted.
    pub fn insert(&mut self, s: Sticker, v: Side)
        requires
            old(self).wf(),
            old(self).key_len_ok(s@),
            !old(self).contains_key(s@),
        ensures
            final(self).wf(),
            final(self).keys@.len() == old(self).keys@.len() + 1,
            forall|k: Seq<int>|
                final(self).contains_key(k) <==> (old(self).contains_key(k) || k == s@),
            final(self).map_view() == old(self).map_view().insert(s@, v.0 as int),
            forall|k: Seq<int>|
                old(self).key_len_ok(k) && k.len() == s@.len() ==> final(self).key_len_ok(k),
            forall|j: int|
                0 <= j < final(self).vals@.len() ==> final(self).vals@[j] == v || old(
                    self,
                ).vals@.contains(#[trigger] final(self).vals@[j]),
    {
        let ghost old_ks = self.key_views();
        let ghost old_map = self.map_view();
        let i = self.lower_bound(&s.0);
        proof {
            if i < self.keys@.len() {
                lemma_lex_total(old_ks[i as int], s@);
                assert(old_ks.contains(old_ks[i as int])) by {
                    assert(0 <= i < old_ks.len());
                }
                assert(old_ks[i as int] != s@);
                assert(lex_lt(s@, old_ks[i as int]));
            }
        }
        self.keys.insert(i, s);
        self.vals.insert(i, v);
        proof {
            let new_ks = self.key_views();
            assert forall|k: int| 0 <= k < new_ks.len() implies #[trigger] new_ks[k] == (if k < i {
                old_ks[k]
            } else if k == i {
                s@
            } else {
                old_ks[k - 1]
            }) by {
                if k < i {
                    assert(self.keys@[k] == old(self).keys@[k]);
                } else if k == i {
                    assert(self.keys@[k] == s);
                } else {
                    assert(self.keys@[k] == old(self).keys@[k - 1]);
                }
            }
            assert forall|p: int, q: int|
                #![trigger new_ks[p], new_ks[q]]
                0 <= p < q < new_ks.len() implies lex_lt(new_ks[p], new_ks[q]) by {
                let a = new_ks[p];
                let b = new_ks[q];
                if p < i && q < i {
                    assert(lex_lt(old_ks[p], old_ks[q]));
                } else if p < i && q == i {
                    assert(lex_lt(old_ks[p], s@));
                } else if p < i && q > i {
                    assert(lex_lt(old_ks[p], old_ks[q - 1]));
                } else if p == i {
                    if q > i {
                        assert(!lex_lt(old_ks[q - 1], s@));
                        lemma_lex_total(old_ks[q - 1], s@);
                        assert(old_ks.contains(old_ks[q - 1])) by {
                            assert(0 <= q - 1 < old_ks.len());
                        }
                        assert(old_ks[q - 1] != s@);
                    }
                } else {
                    assert(lex_lt(old_ks[p - 1], old_ks[q - 1]));
                }
            }
            assert(self.wf());
            assert forall|k: Seq<int>|
                self.contains_key(k) <==> (old(self).contains_key(k) || k == s@) by {
                if self.contains_key(k) {
                    let w = choose|w: int| 0 <= w < new_ks.len() && new_ks[w] == k;
                    if w < i {
                        assert(old_ks[w] == k);
                        assert(old_ks.contains(k));
                    } else if w > i {
                        assert(old_ks[w - 1] == k);
                        assert(old_ks.contains(k));
                    }
                }
                if old(self).contains_key(k) {
                    let w = choose|w: int| 0 <= w < old_ks.len() && old_ks[w] == k;
                    if w < i {
                        assert(new_ks[w] == k);
                    } else {
                        assert(new_ks[w + 1] == k);
                    }
                    assert(new_ks.contains(k));
                }
                if k == s@ {
                    assert(new_ks[i as int] == k);
                    assert(new_ks.contains(k));
                }
            }
            let new_map = self.map_view();
            assert forall|k: Seq<int>|
                new_map.dom().contains(k) implies #[trigger] new_map[k] == old_map.insert(
                s@,
                v.0 as int,
            )[k] by {
                let w = self.key_index(k);
                assert(0 <= w < new_ks.len() && new_ks[w] == k) by {
                    let w0 = choose|w0: int| 0 <= w0 < new_ks.len() && new_ks[w0] == k;
                    self.lemma_at(w0);
                }
                self.lemma_at(w);
                if k == s@ {
                    assert(w == i) by {
                        if w != i {
                            assert(new_ks[i as int] == s@);
                            if w < i {
                                assert(lex_lt(new_ks[w], new_ks[i as int]));
                                lemma_lex_irrefl(s@);
                            } else {
                                assert(lex_lt(new_ks[i as int], new_ks[w]));
                                lemma_lex_irrefl(s@);
                            }
                        }
                    }
                    assert(self.vals@[i as int] == v);
                    assert(new_map[k] == v.0 as int);
                } else {
                    if w < i {
                        assert(old_ks[w] == k);
                        old(self).lemma_at(w);
                        assert(self.vals@[w] == old(self).vals@[w]);
                    } else {
                        assert(w > i);
                        assert(old_ks[w - 1] == k);
                        old(self).lemma_at(w - 1);
                        assert(self.vals@[w] == old(self).vals@[w - 1]);
                    }
                }
            }
            assert(new_map =~= old_map.insert(s@, v.0 as int));
            old(self).vals@.insert_ensures(i as int, v);
            assert forall|j: int| 0 <= j < self.vals@.len() implies self.vals@[j] == v || old(
                self,
            ).vals@.contains(#[trigger] self.vals@[j]) by {
                if j < i {
                    assert(self.vals@[j] == old(self).vals@[j]);
                    assert(old(self).vals@.contains(old(self).vals@[j]));
                } else if j > i {
                    assert(self.vals@[j] == old(self).vals@[j - 1]);
                    assert(old(self).vals@.contains(old(self).vals@[j - 1]));
                }
            }
        }
    }

    /// Replace every side at once, keys untouched.
    pub fn replace_vals(&mut self, new_vals: Vec<Side>)
        requires
            old(self).wf(),
            new_vals@.len() == old(self).vals@.len(),
        ensures
            final(self).wf(),
            final(self).keys@ == old(self).keys@,
            final(self).key_views() == old(self).key_views(),
            final(self).vals@ == new_vals@,
    {
        self.vals = new_vals;
    }
}

} // verus!
