use vstd::prelude::*;
use vstd::multiset::Multiset;
use crate::order_key::{spec_total_order_key, total_order_key};

verus! {

/// The sort key of object `obj` along `axis`: the total-order key of the bit
/// pattern of the minimum of its bounding box on that axis.
pub open spec fn axis_key(keys: Seq<[u32; 3]>, obj: usize, axis: usize) -> u32 {
    spec_total_order_key(keys[obj as int][axis as int])
}

/// The shape of a bounding-volume hierarchy over objects numbered from zero.
/// Each inner node records the axis it was split along; a leaf names one
/// object. A node over a single object has that object as both children.
pub enum BvhTree {
    Object(usize),
    Node { axis: usize, left: Box<BvhTree>, right: Box<BvhTree> },
}

impl BvhTree {
    /// The objects under this tree from left to right, each once: a node whose
    /// two children are the same object contributes it once.
    pub open spec fn members(self) -> Seq<usize>
        decreases self,
    {
        match self {
            BvhTree::Object(i) => seq![i],
            BvhTree::Node { left, right, .. } => {
                if *left is Object && *left == *right {
                    left.members()
                } else {
                    left.members() + right.members()
                }
            },
        }
    }

    /// Every node splits as the construction prescribes: a node over one or two
    /// objects has them as leaf children; a node over three or more has inner
    /// nodes as children, the first half of its objects (rounded down) on the
    /// left, and no object on the left has a larger key along the node's axis
    /// than an object on the right.
    pub open spec fn well_split(self, keys: Seq<[u32; 3]>) -> bool
        decreases self,
    {
        match self {
            BvhTree::Object(_) => true,
            BvhTree::Node { axis, left, right } => {
                let n = self.members().len();
                &&& axis < 3
                &&& n <= 2 ==> *left is Object && *right is Object
                &&& n >= 3 ==> {
                    &&& *left is Node
                    &&& *right is Node
                    &&& left.members().len() == n / 2
                    &&& forall|a: int, b: int|
                        0 <= a < left.members().len() && 0 <= b < right.members().len()
                            ==> axis_key(keys, #[trigger] left.members()[a], axis)
                            <= axis_key(keys, #[trigger] right.members()[b], axis)
                    &&& left.well_split(keys)
                    &&& right.well_split(keys)
                }
            },
        }
    }

    /// The axis of every node is one that `choose_axis` answered when handed
    /// the node's objects, in some order.
    pub open spec fn axes_chosen_by<F: Fn(&Vec<usize>) -> usize>(self, choose_axis: F) -> bool
        decreases self,
    {
        match self {
            BvhTree::Object(_) => true,
            BvhTree::Node { axis, left, right } => {
                &&& answered_by(choose_axis, self.members().to_multiset(), axis)
                &&& left.axes_chosen_by(choose_axis)
                &&& right.axes_chosen_by(choose_axis)
            },
        }
    }
}

impl BvhTree {
    /// `self` is the tree the construction builds from the objects `s`, in
    /// the order given, with each node's recorded axis: one object becomes
    /// both children of a node; two become its children in their order; more
    /// are sorted stably along the node's axis, the first half (rounded down)
    /// built into the left child and the rest into the right.
    pub open spec fn built_from(self, s: Seq<usize>, keys: Seq<[u32; 3]>) -> bool
        decreases self, 1int,
    {
        match self {
            BvhTree::Object(_) => false,
            BvhTree::Node { axis, left, right } => {
                &&& axis < 3
                &&& s.len() >= 1
                &&& s.len() == 1 ==> *left == BvhTree::Object(s[0]) && *right == BvhTree::Object(s[0])
                &&& s.len() == 2 ==> *left == BvhTree::Object(s[0]) && *right == BvhTree::Object(s[1])
                &&& s.len() >= 3 ==> self.halves_built_from(s, keys)
            },
        }
    }
}

impl BvhTree {
    /// The children of this node are built from the two halves of `s` sorted
    /// stably along the node's axis (that sort is unique:
    /// `lemma_stable_sort_unique`).
    pub open spec fn halves_built_from(self, s: Seq<usize>, keys: Seq<[u32; 3]>) -> bool
        decreases self, 0int,
    {
        match self {
            BvhTree::Object(_) => false,
            BvhTree::Node { axis, left, right } => {
                let sorted = choose|sorted: Seq<usize>| is_stable_sort(sorted, s, keys, axis);
                &&& is_stable_sort(sorted, s, keys, axis)
                &&& left.built_from(sorted.subrange(0, (s.len() / 2) as int), keys)
                &&& right.built_from(sorted.subrange((s.len() / 2) as int, s.len() as int), keys)
            },
        }
    }
}

/// `choose_axis` may answer `axis` when handed the objects `objs` in some order.
pub open spec fn answered_by<F: Fn(&Vec<usize>) -> usize>(choose_axis: F, objs: Multiset<usize>, axis: usize) -> bool {
    exists|s: &Vec<usize>| s@.to_multiset() == objs && #[trigger] choose_axis.ensures((s,), axis)
}

/// Every entry of `s` is below `n`: it names one of `n` objects.
pub open spec fn all_objects(s: Seq<usize>, n: nat) -> bool {
    forall|k: int| 0 <= k < s.len() ==> #[trigger] s[k] < n
}

/// `s[lo..hi]` is in non-decreasing order of its objects' keys along `axis`.
pub open spec fn sorted_along(s: Seq<usize>, lo: int, hi: int, keys: Seq<[u32; 3]>, axis: usize) -> bool {
    forall|a: int, b: int|
        lo <= a < b < hi ==> axis_key(keys, #[trigger] s[a], axis) <= axis_key(keys, #[trigger] s[b], axis)
}

/// Objects `x` and `y`, which came from positions `px` and `py` before the
/// sort, stand in this order in a stable sort along `axis`.
pub open spec fn stable_before(keys: Seq<[u32; 3]>, axis: usize, x: usize, y: usize, px: int, py: int) -> bool {
    axis_key(keys, x, axis) < axis_key(keys, y, axis) || (axis_key(keys, x, axis) == axis_key(keys, y, axis) && px < py)
}

/// `p` says where each entry of `new` stood in `old`, and `new` is in the
/// order of a stable sort along `axis`.
pub open spec fn stable_witness(p: Seq<int>, new: Seq<usize>, old: Seq<usize>, keys: Seq<[u32; 3]>, axis: usize) -> bool {
    &&& p.len() == new.len()
    &&& new.len() == old.len()
    &&& forall|m: int| 0 <= m < p.len() ==> 0 <= #[trigger] p[m] < p.len()
    &&& forall|a: int, b: int| 0 <= a < b < p.len() ==> #[trigger] p[a] != #[trigger] p[b]
    &&& forall|v: int| 0 <= v < p.len() ==> #[trigger] p.contains(v)
    &&& forall|m: int| 0 <= m < p.len() ==> #[trigger] new[m] == old[p[m]]
    &&& forall|a: int, b: int|
        0 <= a < b < new.len() ==> stable_before(keys, axis, #[trigger] new[a], #[trigger] new[b], p[a], p[b])
}

/// `new` is `old` sorted along `axis` by the objects' keys, objects with equal
/// keys in the order they had in `old`.
pub open spec fn is_stable_sort(new: Seq<usize>, old: Seq<usize>, keys: Seq<[u32; 3]>, axis: usize) -> bool {
    exists|p: Seq<int>| #[trigger] stable_witness(p, new, old, keys, axis)
}

/// Merges the sorted runs `order[lo..mid]` and `order[mid..hi]`, taking from
/// the first run while its key is not larger: the result is the stable sort of
/// `order[lo..hi]`.
fn merge_runs(order: &Vec<usize>, lo: usize, mid: usize, hi: usize, keys: &Vec<[u32; 3]>, axis: usize) -> (r: Vec<usize>)
    requires
        lo <= mid <= hi <= order@.len(),
        axis < 3,
        all_objects(order@, keys@.len()),
        sorted_along(order@, lo as int, mid as int, keys@, axis),
        sorted_along(order@, mid as int, hi as int, keys@, axis),
    ensures
        r@.len() == hi - lo,
        all_objects(r@, keys@.len()),
        r@.to_multiset() == order@.subrange(lo as int, hi as int).to_multiset(),
        is_stable_sort(r@, order@.subrange(lo as int, hi as int), keys@, axis),
{
    let ghost s = order@.subrange(lo as int, hi as int);
    let ghost h = mid - lo;
    let ghost n = hi - lo;
    let mut r: Vec<usize> = Vec::new();
    let mut i: usize = lo;
    let mut j: usize = mid;
    let ghost mut pm: Seq<int> = Seq::empty();
    assert(s.subrange(0, 0) =~= Seq::<usize>::empty());
    assert(s.subrange(h, h) =~= Seq::<usize>::empty());
    assert(r@ =~= Seq::<usize>::empty());
    proof {
        Seq::<usize>::empty().to_multiset_ensures();
        assert(Seq::<usize>::empty().to_multiset() =~= Multiset::<usize>::empty());
        assert(Multiset::<usize>::empty().add(Multiset::<usize>::empty()) =~= Multiset::<usize>::empty());
    }
    while i < mid || j < hi
        invariant
            lo <= i <= mid <= j <= hi <= order@.len(),
            axis < 3,
            all_objects(order@, keys@.len()),
            sorted_along(order@, lo as int, mid as int, keys@, axis),
            sorted_along(order@, mid as int, hi as int, keys@, axis),
            s == order@.subrange(lo as int, hi as int),
            h == mid - lo,
            n == hi - lo,
            r@.len() == (i - lo) + (j - mid),
            pm.len() == r@.len(),
            all_objects(r@, keys@.len()),
            forall|k: int| 0 <= k < pm.len() ==> (0 <= #[trigger] pm[k] < i - lo) || (h <= pm[k] < j - lo),
            forall|a: int, b: int| 0 <= a < b < pm.len() ==> #[trigger] pm[a] != #[trigger] pm[b],
            forall|v: int| (0 <= v < i - lo) || (h <= v < j - lo) ==> #[trigger] pm.contains(v),
            forall|k: int| 0 <= k < pm.len() ==> #[trigger] r@[k] == s[pm[k]],
            forall|a: int, b: int|
                0 <= a < b < r@.len() ==> stable_before(keys@, axis, #[trigger] r@[a], #[trigger] r@[b], pm[a], pm[b]),
            i < mid ==> forall|k: int|
                0 <= k < r@.len() ==> stable_before(keys@, axis, #[trigger] r@[k], order@[i as int], pm[k], i - lo),
            j < hi ==> forall|k: int|
                0 <= k < r@.len() ==> stable_before(keys@, axis, #[trigger] r@[k], order@[j as int], pm[k], j - lo),
            r@.to_multiset() == s.subrange(0, i - lo).to_multiset().add(s.subrange(h, j - lo).to_multiset()),
        decreases (mid - i) + (hi - j),
    {
        let take_left = if i == mid {
            false
        } else if j == hi {
            true
        } else {
            total_order_key(keys[order[i]][axis]) <= total_order_key(keys[order[j]][axis])
        };
        let ghost r0 = r@;
        let ghost pm0 = pm;
        if take_left {
            let x = order[i];
            r.push(x);
            proof {
                pm = pm0.push(i - lo);
                assert(s[i - lo] == x);
                assert(s.subrange(0, i - lo + 1) =~= s.subrange(0, i - lo).push(x));
                vstd::seq_lib::to_multiset_build(r0, x);
                vstd::seq_lib::to_multiset_build(s.subrange(0, i - lo), x);
                assert(r@.to_multiset() =~= s.subrange(0, i - lo + 1).to_multiset().add(s.subrange(h, j - lo).to_multiset()));
                assert forall|v: int| (0 <= v < i + 1 - lo) || (h <= v < j - lo) implies #[trigger] pm.contains(v) by {
                    if v == i - lo {
                        assert(pm[pm.len() - 1] == v);
                    } else {
                        assert(pm0.contains(v));
                        let k = choose|k: int| 0 <= k < pm0.len() && pm0[k] == v;
                        assert(pm[k] == v);
                    }
                }
                if i + 1 < mid {
                    assert(stable_before(keys@, axis, x, order@[i + 1], i - lo, i + 1 - lo));
                }
            }
            i = i + 1;
        } else {
            let x = order[j];
            r.push(x);
            proof {
                pm = pm0.push(j - lo);
                assert(s[j - lo] == x);
                assert(s.subrange(h, j - lo + 1) =~= s.subrange(h, j - lo).push(x));
                vstd::seq_lib::to_multiset_build(r0, x);
                vstd::seq_lib::to_multiset_build(s.subrange(h, j - lo), x);
                assert(r@.to_multiset() =~= s.subrange(0, i - lo).to_multiset().add(s.subrange(h, j - lo + 1).to_multiset()));
                assert forall|v: int| (0 <= v < i - lo) || (h <= v < j + 1 - lo) implies #[trigger] pm.contains(v) by {
                    if v == j - lo {
                        assert(pm[pm.len() - 1] == v);
                    } else {
                        assert(pm0.contains(v));
                        let k = choose|k: int| 0 <= k < pm0.len() && pm0[k] == v;
                        assert(pm[k] == v);
                    }
                }
                if j + 1 < hi {
                    assert(stable_before(keys@, axis, x, order@[j + 1], j - lo, j + 1 - lo));
                }
            }
            j = j + 1;
        }
    }
    proof {
        assert(s.subrange(0, h) + s.subrange(h, n) =~= s);
        vstd::seq_lib::lemma_multiset_commutative(s.subrange(0, h), s.subrange(h, n));
        assert forall|v: int| 0 <= v < pm.len() implies #[trigger] pm.contains(v) by {
            assert((0 <= v < i - lo) || (h <= v < j - lo));
        }
        assert(stable_witness(pm, r@, s, keys@, axis));
    }
    r
}

/// Composes the stable sorts of the two halves with the stable merge of the
/// sorted halves into the stable sort of the whole.
proof fn lemma_stable_compose(
    old_s: Seq<usize>,
    halves: Seq<usize>,
    merged: Seq<usize>,
    h: int,
    keys: Seq<[u32; 3]>,
    axis: usize,
)
    requires
        0 <= h <= old_s.len(),
        halves.len() == old_s.len(),
        is_stable_sort(halves.subrange(0, h), old_s.subrange(0, h), keys, axis),
        is_stable_sort(halves.subrange(h, halves.len() as int), old_s.subrange(h, old_s.len() as int), keys, axis),
        is_stable_sort(merged, halves, keys, axis),
    ensures
        is_stable_sort(merged, old_s, keys, axis),
{
    let n = old_s.len() as int;
    let hl = halves.subrange(0, h);
    let hr = halves.subrange(h, n);
    let pl = choose|p: Seq<int>| stable_witness(p, hl, old_s.subrange(0, h), keys, axis);
    let pr = choose|p: Seq<int>| stable_witness(p, hr, old_s.subrange(h, n), keys, axis);
    let pm = choose|p: Seq<int>| stable_witness(p, merged, halves, keys, axis);
    let lift = |q: int| if q < h { pl[q] } else { h + pr[q - h] };
    let p = Seq::new(n as nat, |m: int| lift(pm[m]));
    assert forall|q: int| 0 <= q < n implies #[trigger] halves[q] == old_s[lift(q)] && 0 <= lift(q) < n by {
        if q < h {
            assert(hl[q] == halves[q]);
        } else {
            assert(hr[q - h] == halves[q]);
        }
    }
    assert forall|m: int| 0 <= m < p.len() implies 0 <= #[trigger] p[m] < p.len() by {
        assert(halves[pm[m]] == old_s[lift(pm[m])]);
    }
    assert forall|m: int| 0 <= m < p.len() implies #[trigger] merged[m] == old_s[p[m]] by {
        assert(halves[pm[m]] == old_s[lift(pm[m])]);
    }
    // lift is injective on 0..n
    assert forall|q1: int, q2: int| 0 <= q1 < q2 < n implies #[trigger] lift(q1) != #[trigger] lift(q2) by {
        if q1 < h && q2 < h {
            assert(pl[q1] != pl[q2]);
        } else if q1 >= h && q2 >= h {
            assert(pr[q1 - h] != pr[q2 - h]);
        } else {
            assert(0 <= pl[q1] < h);
            assert(0 <= pr[q2 - h] < n - h);
        }
    }
    assert forall|a: int, b: int| 0 <= a < b < p.len() implies #[trigger] p[a] != #[trigger] p[b] by {
        assert(pm[a] != pm[b]);
        if pm[a] < pm[b] {
            assert(lift(pm[a]) != lift(pm[b]));
        } else {
            assert(lift(pm[b]) != lift(pm[a]));
        }
    }
    assert forall|v: int| 0 <= v < p.len() implies #[trigger] p.contains(v) by {
        let q = if v < h {
            assert(pl.contains(v));
            choose|q: int| 0 <= q < pl.len() && pl[q] == v
        } else {
            assert(pr.contains(v - h));
            h + choose|q: int| 0 <= q < pr.len() && pr[q] == v - h
        };
        assert(lift(q) == v);
        assert(pm.contains(q));
        let m = choose|m: int| 0 <= m < pm.len() && pm[m] == q;
        assert(p[m] == v);
    }
    assert forall|a: int, b: int| 0 <= a < b < merged.len() implies
        stable_before(keys, axis, #[trigger] merged[a], #[trigger] merged[b], p[a], p[b]) by {
        let qa = pm[a];
        let qb = pm[b];
        assert(stable_before(keys, axis, merged[a], merged[b], qa, qb));
        if axis_key(keys, merged[a], axis) == axis_key(keys, merged[b], axis) {
            if qb < h {
                assert(hl[qa] == merged[a] && hl[qb] == merged[b]);
                assert(stable_before(keys, axis, hl[qa], hl[qb], pl[qa], pl[qb]));
            } else if qa >= h {
                assert(hr[qa - h] == merged[a] && hr[qb - h] == merged[b]);
                assert(stable_before(keys, axis, hr[qa - h], hr[qb - h], pr[qa - h], pr[qb - h]));
            } else {
                assert(0 <= pl[qa] < h);
            }
        }
    }
    assert(stable_witness(p, merged, old_s, keys, axis));
}

/// Sorts `order[lo..hi]` by the objects' keys along `axis`, keeping the order
/// of objects with equal keys; the rest of `order` is left as it is. Merge
/// sort: the halves are sorted, then merged.
pub fn sort_range_along(order: &mut Vec<usize>, lo: usize, hi: usize, keys: &Vec<[u32; 3]>, axis: usize)
    requires
        lo <= hi <= old(order).len(),
        axis < 3,
        all_objects(old(order)@, keys@.len()),
    ensures
        final(order)@.len() == old(order)@.len(),
        all_objects(final(order)@, keys@.len()),
        forall|k: int| 0 <= k < old(order)@.len() && !(lo <= k < hi) ==> final(order)@[k] == old(order)@[k],
        final(order)@.subrange(lo as int, hi as int).to_multiset()
            == old(order)@.subrange(lo as int, hi as int).to_multiset(),
        sorted_along(final(order)@, lo as int, hi as int, keys@, axis),
        is_stable_sort(
            final(order)@.subrange(lo as int, hi as int),
            old(order)@.subrange(lo as int, hi as int),
            keys@,
            axis,
        ),
    decreases hi - lo,
{
    let ghost orig = order@;
    if hi - lo < 2 {
        proof {
            let s = orig.subrange(lo as int, hi as int);
            let p = Seq::new(s.len(), |m: int| m);
            assert forall|v: int| 0 <= v < p.len() implies #[trigger] p.contains(v) by {
                assert(p[v] == v);
            }
            assert(stable_witness(p, s, s, keys@, axis));
        }
        return;
    }
    let mid = lo + (hi - lo) / 2;
    sort_range_along(order, lo, mid, keys, axis);
    let ghost after_left = order@;
    sort_range_along(order, mid, hi, keys, axis);
    let ghost halves_all = order@;
    proof {
        assert(halves_all.subrange(lo as int, mid as int) =~= after_left.subrange(lo as int, mid as int));
    }
    let merged = merge_runs(order, lo, mid, hi, keys, axis);
    let mut k: usize = lo;
    while k < hi
        invariant
            lo <= k <= hi <= order@.len(),
            order@.len() == halves_all.len(),
            merged@.len() == hi - lo,
            all_objects(merged@, keys@.len()),
            all_objects(halves_all, keys@.len()),
            forall|q: int| 0 <= q < order@.len() && !(lo <= q < k) ==> order@[q] == halves_all[q],
            forall|q: int| lo <= q < k ==> order@[q] == merged@[q - lo],
        decreases hi - k,
    {
        order.set(k, merged[k - lo]);
        k = k + 1;
    }
    proof {
        let old_s = orig.subrange(lo as int, hi as int);
        let halves = halves_all.subrange(lo as int, hi as int);
        let h = (mid - lo) as int;
        assert(order@.subrange(lo as int, hi as int) =~= merged@);
        assert(halves.subrange(0, h) =~= halves_all.subrange(lo as int, mid as int));
        assert(halves.subrange(h, halves.len() as int) =~= halves_all.subrange(mid as int, hi as int));
        assert(old_s.subrange(0, h) =~= orig.subrange(lo as int, mid as int));
        assert(old_s.subrange(h, old_s.len() as int) =~= after_left.subrange(mid as int, hi as int));
        lemma_stable_compose(old_s, halves, merged@, h, keys@, axis);
        // multisets: each half kept its own
        assert(halves =~= halves.subrange(0, h) + halves.subrange(h, halves.len() as int));
        assert(old_s =~= old_s.subrange(0, h) + old_s.subrange(h, old_s.len() as int));
        vstd::seq_lib::lemma_multiset_commutative(halves.subrange(0, h), halves.subrange(h, halves.len() as int));
        vstd::seq_lib::lemma_multiset_commutative(old_s.subrange(0, h), old_s.subrange(h, old_s.len() as int));
        assert forall|q: int| 0 <= q < order@.len() implies #[trigger] order@[q] < keys@.len() by {
            if lo <= q < hi {
                assert(order@[q] == merged@[q - lo]);
            } else {
                assert(order@[q] == halves_all[q]);
            }
        }
        let pw = choose|p: Seq<int>| stable_witness(p, merged@, old_s, keys@, axis);
        assert forall|a: int, b: int| lo <= a < b < hi implies
            axis_key(keys@, #[trigger] order@[a], axis) <= axis_key(keys@, #[trigger] order@[b], axis) by {
            assert(order@[a] == merged@[a - lo] && order@[b] == merged@[b - lo]);
            assert(stable_before(keys@, axis, merged@[a - lo], merged@[b - lo], pw[a - lo], pw[b - lo]));
        }
    }
}

proof fn lemma_same_multiset_no_duplicates(a: Seq<usize>, b: Seq<usize>)
    requires
        a.to_multiset() == b.to_multiset(),
        a.no_duplicates(),
    ensures
        b.no_duplicates(),
{
    a.lemma_multiset_has_no_duplicates();
    b.lemma_multiset_has_no_duplicates_conv();
}

proof fn lemma_same_multiset_contains(a: Seq<usize>, b: Seq<usize>, x: usize)
    requires
        a.to_multiset() == b.to_multiset(),
    ensures
        a.contains(x) <==> b.contains(x),
{
    vstd::seq_lib::to_multiset_contains(a, x);
    vstd::seq_lib::to_multiset_contains(b, x);
}

proof fn lemma_leaf_pair_axes<F: Fn(&Vec<usize>) -> usize>(axis: usize, a: usize, b: usize, f: F, s: &Vec<usize>)
    requires
        f.ensures((s,), axis),
        s@.to_multiset() == (BvhTree::Node {
            axis,
            left: Box::new(BvhTree::Object(a)),
            right: Box::new(BvhTree::Object(b)),
        }).members().to_multiset(),
    ensures
        (BvhTree::Node { axis, left: Box::new(BvhTree::Object(a)), right: Box::new(BvhTree::Object(b)) }).axes_chosen_by(f),
{
    assert(answered_by(f, s@.to_multiset(), axis));
    reveal_with_fuel(BvhTree::axes_chosen_by, 2);
}

/// A sequence has one stable sort along an axis.
pub proof fn lemma_stable_sort_unique(a: Seq<usize>, b: Seq<usize>, s: Seq<usize>, keys: Seq<[u32; 3]>, axis: usize)
    requires
        is_stable_sort(a, s, keys, axis),
        is_stable_sort(b, s, keys, axis),
    ensures
        a == b,
{
    let p1 = choose|p: Seq<int>| stable_witness(p, a, s, keys, axis);
    let p2 = choose|p: Seq<int>| stable_witness(p, b, s, keys, axis);
    if s.len() > 0 {
        lemma_witness_prefix(p1, p2, a, b, s, keys, axis, s.len() - 1);
    }
    assert(a =~= b);
}

proof fn lemma_witness_prefix(
    p1: Seq<int>,
    p2: Seq<int>,
    a: Seq<usize>,
    b: Seq<usize>,
    s: Seq<usize>,
    keys: Seq<[u32; 3]>,
    axis: usize,
    m: int,
)
    requires
        stable_witness(p1, a, s, keys, axis),
        stable_witness(p2, b, s, keys, axis),
        0 <= m < s.len(),
    ensures
        forall|k: int| 0 <= k <= m ==> #[trigger] p1[k] == p2[k],
    decreases m,
{
    if m > 0 {
        lemma_witness_prefix(p1, p2, a, b, s, keys, axis, m - 1);
    }
    let n = s.len() as int;
    if p1[m] != p2[m] {
        let v1 = p1[m];
        let v2 = p2[m];
        assert(p2.contains(v1));
        let k = choose|k: int| 0 <= k < p2.len() && p2[k] == v1;
        if k < m {
            assert(p1[k] == p2[k]);
            assert(p1[k] != p1[m]);
        }
        assert(stable_before(keys, axis, b[m], b[k], p2[m], p2[k]));
        assert(p1.contains(v2));
        let j = choose|j: int| 0 <= j < p1.len() && p1[j] == v2;
        if j < m {
            assert(p1[j] == p2[j]);
            assert(p2[j] != p2[m]);
        }
        assert(stable_before(keys, axis, a[m], a[j], p1[m], p1[j]));
        assert(b[m] == s[v2] && b[k] == s[v1] && a[m] == s[v1] && a[j] == s[v2]);
    }
}

proof fn lemma_node_built(axis: usize, left: BvhTree, right: BvhTree, s: Seq<usize>, sorted: Seq<usize>, keys: Seq<[u32; 3]>)
    requires
        axis < 3,
        s.len() >= 3,
        is_stable_sort(sorted, s, keys, axis),
        left.built_from(sorted.subrange(0, (s.len() / 2) as int), keys),
        right.built_from(sorted.subrange((s.len() / 2) as int, s.len() as int), keys),
    ensures
        (BvhTree::Node { axis, left: Box::new(left), right: Box::new(right) }).built_from(s, keys),
{
    let t = BvhTree::Node { axis, left: Box::new(left), right: Box::new(right) };
    let chosen = choose|x: Seq<usize>| is_stable_sort(x, s, keys, axis);
    lemma_stable_sort_unique(chosen, sorted, s, keys, axis);
    assert(t.halves_built_from(s, keys));
    assert(t.built_from(s, keys));
}

/// The objects of `order[lo..hi]` handed to the axis oracle.
fn copy_range(order: &Vec<usize>, lo: usize, hi: usize) -> (r: Vec<usize>)
    requires
        lo <= hi <= order.len(),
    ensures
        r@ == order@.subrange(lo as int, hi as int),
{
    let mut r: Vec<usize> = Vec::new();
    let mut k: usize = lo;
    while k < hi
        invariant
            lo <= k <= hi <= order.len(),
            r@ == order@.subrange(lo as int, k as int),
        decreases hi - k,
    {
        r.push(order[k]);
        k = k + 1;
    }
    r
}

fn build_range<F: Fn(&Vec<usize>) -> usize>(
    order: &mut Vec<usize>,
    lo: usize,
    hi: usize,
    keys: &Vec<[u32; 3]>,
    choose_axis: &F,
) -> (r: BvhTree)
    requires
        lo < hi <= old(order).len(),
        all_objects(old(order)@, keys@.len()),
        old(order)@.subrange(lo as int, hi as int).no_duplicates(),
        forall|s: &Vec<usize>| choose_axis.requires((s,)),
        forall|s: &Vec<usize>, a: usize| choose_axis.ensures((s,), a) ==> a < 3,
    ensures
        final(order)@.len() == old(order)@.len(),
        all_objects(final(order)@, keys@.len()),
        forall|k: int| 0 <= k < old(order)@.len() && !(lo <= k < hi) ==> final(order)@[k] == old(order)@[k],
        final(order)@.subrange(lo as int, hi as int).to_multiset()
            == old(order)@.subrange(lo as int, hi as int).to_multiset(),
        r is Node,
        r.members() == final(order)@.subrange(lo as int, hi as int),
        r.well_split(keys@),
        r.axes_chosen_by(*choose_axis),
        r.built_from(old(order)@.subrange(lo as int, hi as int), keys@),
    decreases hi - lo,
{
    let ids = copy_range(order, lo, hi);
    let axis = choose_axis(&ids);
    let n = hi - lo;
    if n <= 2 {
        // one object becomes both children; two stay in their order
        let a = order[lo];
        let b = order[hi - 1];
        let ghost sub = order@.subrange(lo as int, hi as int);
        assert(sub[0] == a && sub[sub.len() - 1] == b);
        let r = BvhTree::Node { axis, left: Box::new(BvhTree::Object(a)), right: Box::new(BvhTree::Object(b)) };
        assert(BvhTree::Object(a).members() == seq![a]);
        assert(BvhTree::Object(b).members() == seq![b]);
        assert(r.members() =~= sub);
        assert((&ids)@.to_multiset() == r.members().to_multiset());
        proof {
            lemma_leaf_pair_axes(axis, a, b, *choose_axis, &ids);
        }
        return r;
    }
    let ghost before = order@;
    sort_range_along(order, lo, hi, keys, axis);
    let ghost sorted = order@;
    let mid = lo + n / 2;
    proof {
        lemma_same_multiset_no_duplicates(
            before.subrange(lo as int, hi as int),
            sorted.subrange(lo as int, hi as int),
        );
        assert(sorted.subrange(lo as int, mid as int) =~= sorted.subrange(lo as int, hi as int).subrange(0, mid - lo));
        assert(sorted.subrange(mid as int, hi as int) =~= sorted.subrange(lo as int, hi as int).subrange(mid - lo, hi - lo));
    }
    let left = build_range(order, lo, mid, keys, choose_axis);
    let ghost after_left = order@;
    proof {
        assert(after_left.subrange(mid as int, hi as int) =~= sorted.subrange(mid as int, hi as int));
    }
    let right = build_range(order, mid, hi, keys, choose_axis);
    let ghost fin = order@;
    let r = BvhTree::Node { axis, left: Box::new(left), right: Box::new(right) };
    proof {
        let ss = sorted.subrange(lo as int, hi as int);
        assert(ss.subrange(0, (n / 2) as int) =~= sorted.subrange(lo as int, mid as int));
        assert(ss.subrange((n / 2) as int, n as int) =~= sorted.subrange(mid as int, hi as int));
        assert(is_stable_sort(ss, before.subrange(lo as int, hi as int), keys@, axis));
        assert(left.built_from(ss.subrange(0, (n / 2) as int), keys@));
        assert(right.built_from(ss.subrange((n / 2) as int, n as int), keys@));
        lemma_node_built(axis, left, right, before.subrange(lo as int, hi as int), ss, keys@);
        let pivot = axis_key(keys@, sorted[mid as int], axis);
        let ls = sorted.subrange(lo as int, mid as int);
        let rs = sorted.subrange(mid as int, hi as int);
        assert(fin.subrange(lo as int, mid as int) =~= after_left.subrange(lo as int, mid as int));
        assert(fin.subrange(lo as int, hi as int) =~= fin.subrange(lo as int, mid as int) + fin.subrange(mid as int, hi as int));
        assert(sorted.subrange(lo as int, hi as int) =~= ls + rs);
        vstd::seq_lib::lemma_multiset_commutative(fin.subrange(lo as int, mid as int), fin.subrange(mid as int, hi as int));
        vstd::seq_lib::lemma_multiset_commutative(ls, rs);
        assert(r.members() =~= fin.subrange(lo as int, hi as int));
        assert(choose_axis.ensures((&ids,), axis));
        assert(ids@ == before.subrange(lo as int, hi as int));
        assert(r.members().to_multiset() == fin.subrange(lo as int, hi as int).to_multiset());
        assert(fin.subrange(lo as int, hi as int).to_multiset() == before.subrange(lo as int, hi as int).to_multiset());
        assert((&ids)@.to_multiset() == r.members().to_multiset());
        assert(answered_by(*choose_axis, r.members().to_multiset(), axis));
        assert forall|a: int, b: int|
            0 <= a < left.members().len() && 0 <= b < right.members().len()
                implies axis_key(keys@, #[trigger] left.members()[a], axis)
                    <= axis_key(keys@, #[trigger] right.members()[b], axis) by {
            let x = left.members()[a];
            let y = right.members()[b];
            assert(left.members().contains(x));
            assert(right.members().contains(y));
            lemma_same_multiset_contains(left.members(), ls, x);
            lemma_same_multiset_contains(right.members(), rs, y);
            let i = choose|i: int| 0 <= i < ls.len() && ls[i] == x;
            let j = choose|j: int| 0 <= j < rs.len() && rs[j] == y;
            assert(sorted[lo + i] == x);
            assert(sorted[mid + j] == y);
            assert(axis_key(keys@, x, axis) <= pivot);
            assert(pivot <= axis_key(keys@, y, axis));
        }
    }
    r
}

impl BvhTree {
    /// Builds the hierarchy over objects `0..keys.len()`, where `keys[i][a]` is
    /// the bit pattern of the minimum of object `i`'s bounding box on axis `a`.
    /// `choose_axis` is handed the objects of each node and answers the axis
    /// of greatest extent of their joint bounding box. Objects are sorted along
    /// that axis, stably, before a node over three or more is split in half.
    pub fn build<F: Fn(&Vec<usize>) -> usize>(keys: &Vec<[u32; 3]>, choose_axis: &F) -> (r: BvhTree)
        requires
            keys@.len() > 0,
            forall|s: &Vec<usize>| choose_axis.requires((s,)),
            forall|s: &Vec<usize>, a: usize| choose_axis.ensures((s,), a) ==> a < 3,
        ensures
            r is Node,
            r.members().len() == keys@.len(),
            r.members().no_duplicates(),
            all_objects(r.members(), keys@.len()),
            r.well_split(keys@),
            r.axes_chosen_by(*choose_axis),
            r.built_from(Seq::new(keys@.len(), |i: int| i as usize), keys@),
    {
        let n = keys.len();
        let mut order: Vec<usize> = Vec::new();
        let mut k: usize = 0;
        while k < n
            invariant
                k <= n == keys@.len(),
                order@ == Seq::new(k as nat, |i: int| i as usize),
            decreases n - k,
        {
            order.push(k);
            k = k + 1;
        }
        let ghost first = order@;
        assert(order@.subrange(0, n as int) =~= order@);
        assert(first =~= Seq::new(keys@.len(), |i: int| i as usize));
        let r = build_range(&mut order, 0, n, keys, choose_axis);
        proof {
            assert(order@.subrange(0, n as int) =~= order@);
            lemma_same_multiset_no_duplicates(first, order@);
            vstd::seq_lib::to_multiset_len(first);
            vstd::seq_lib::to_multiset_len(order@);
        }
        r
    }
}

} // verus!
