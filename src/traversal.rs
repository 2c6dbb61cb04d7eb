use vstd::prelude::*;
use crate::bvh::BvhTree;

verus! {

// A ray's meeting with the scene, reduced to what the nearest-hit rule reads:
// for each object the distances along the ray at which it meets the ray, and
// whether it accepts a distance on the ends of the query interval (quads do,
// spheres do not).

/// Whether distance `x` lies in the query interval `[lo, hi]`, or `(lo, hi)`
/// for an object that takes the interval as open.
pub open spec fn in_range(x: int, lo: int, hi: int, open: bool) -> bool {
    if open {
        lo < x < hi
    } else {
        lo <= x <= hi
    }
}

/// The smallest of the distances `ds` in range: what one object reports.
pub open spec fn nearest(ds: Seq<int>, lo: int, hi: int, open: bool) -> Option<int>
    decreases ds.len(),
{
    if ds.len() == 0 {
        None
    } else {
        let r = nearest(ds.drop_last(), lo, hi, open);
        let x = ds.last();
        if in_range(x, lo, hi, open) && (r is None || x < r->0) {
            Some(x)
        } else {
            r
        }
    }
}

/// What object `obj` reports for the query interval.
pub open spec fn object_hit(hits: Seq<Seq<int>>, open: Seq<bool>, obj: usize, lo: int, hi: int) -> Option<int> {
    nearest(hits[obj as int], lo, hi, open[obj as int])
}

/// The upper end of the query after a first result: the distance found, if any.
pub open spec fn bound_after(found: Option<int>, hi: int) -> int {
    if found is Some {
        found->0
    } else {
        hi
    }
}

/// What the hierarchy reports: a node whose box the query misses reports
/// nothing; otherwise it asks its left child over the whole interval, then its
/// right child up to the left child's hit, and prefers the right child's
/// answer when there is one. `box_hit` is the box test of a node.
pub open spec fn bvh_hit(
    t: BvhTree,
    box_hit: spec_fn(BvhTree, int, int) -> bool,
    hits: Seq<Seq<int>>,
    open: Seq<bool>,
    lo: int,
    hi: int,
) -> Option<int>
    decreases t,
{
    match t {
        BvhTree::Object(i) => object_hit(hits, open, i, lo, hi),
        BvhTree::Node { left, right, .. } => {
            if !box_hit(t, lo, hi) {
                None
            } else {
                let l = bvh_hit(*left, box_hit, hits, open, lo, hi);
                let r = bvh_hit(*right, box_hit, hits, open, lo, bound_after(l, hi));
                if r is Some {
                    r
                } else {
                    l
                }
            }
        },
    }
}

/// The box test never misses: whenever an object under a node meets the ray
/// inside the query, the query hits the node's box.
pub open spec fn boxes_sound(box_hit: spec_fn(BvhTree, int, int) -> bool, hits: Seq<Seq<int>>, open: Seq<bool>) -> bool {
    forall|t: BvhTree, x: int, lo: int, hi: int|
        #[trigger] is_hit(t.members(), hits, open, x, lo, hi) ==> #[trigger] box_hit(t, lo, hi)
}

/// What a plain list reports: each object in turn is asked up to the closest
/// hit found so far, and the last object that answers wins.
pub open spec fn list_hit(objs: Seq<usize>, hits: Seq<Seq<int>>, open: Seq<bool>, lo: int, hi: int) -> Option<int>
    decreases objs.len(),
{
    if objs.len() == 0 {
        None
    } else {
        let r = list_hit(objs.drop_last(), hits, open, lo, hi);
        let h = object_hit(hits, open, objs.last(), lo, bound_after(r, hi));
        if h is Some {
            h
        } else {
            r
        }
    }
}

/// Object `obj` meets the ray at `x`, inside the query interval.
pub open spec fn is_hit_of(hits: Seq<Seq<int>>, open: Seq<bool>, obj: usize, x: int, lo: int, hi: int) -> bool {
    hits[obj as int].contains(x) && in_range(x, lo, hi, open[obj as int])
}

/// Some object of `objs` meets the ray at `x` inside the query interval.
pub open spec fn is_hit(objs: Seq<usize>, hits: Seq<Seq<int>>, open: Seq<bool>, x: int, lo: int, hi: int) -> bool {
    exists|k: int| 0 <= k < objs.len() && #[trigger] is_hit_of(hits, open, objs[k], x, lo, hi)
}

/// `r` is the nearest hit of `objs` in the query interval, or `None` when
/// there is no hit at all.
pub open spec fn is_nearest_hit(r: Option<int>, objs: Seq<usize>, hits: Seq<Seq<int>>, open: Seq<bool>, lo: int, hi: int) -> bool {
    &&& r is None ==> forall|x: int| !#[trigger] is_hit(objs, hits, open, x, lo, hi)
    &&& r is Some ==> is_hit(objs, hits, open, r->0, lo, hi)
    &&& r is Some ==> forall|x: int| #[trigger] is_hit(objs, hits, open, x, lo, hi) ==> r->0 <= x
}

proof fn lemma_nearest(ds: Seq<int>, lo: int, hi: int, open: bool)
    ensures
        nearest(ds, lo, hi, open) is None ==> forall|k: int| 0 <= k < ds.len() ==> !in_range(#[trigger] ds[k], lo, hi, open),
        nearest(ds, lo, hi, open) is Some ==> {
            let x = nearest(ds, lo, hi, open)->0;
            &&& ds.contains(x)
            &&& in_range(x, lo, hi, open)
            &&& forall|k: int| 0 <= k < ds.len() && in_range(#[trigger] ds[k], lo, hi, open) ==> x <= ds[k]
        },
    decreases ds.len(),
{
    if ds.len() > 0 {
        let init = ds.drop_last();
        let last = ds.last();
        let n = ds.len() - 1;
        lemma_nearest(init, lo, hi, open);
        assert forall|k: int| 0 <= k < n implies ds[k] == #[trigger] init[k] by {}
        let r = nearest(init, lo, hi, open);
        if nearest(ds, lo, hi, open) is None {
            assert forall|k: int| 0 <= k < ds.len() implies !in_range(#[trigger] ds[k], lo, hi, open) by {
                if k < n {
                    assert(ds[k] == init[k]);
                }
            }
        } else {
            let x = nearest(ds, lo, hi, open)->0;
            if in_range(last, lo, hi, open) && (r is None || last < r->0) {
                assert(ds[n] == x);
                assert forall|k: int| 0 <= k < ds.len() && in_range(#[trigger] ds[k], lo, hi, open) implies x <= ds[k] by {
                    if k < n {
                        assert(ds[k] == init[k]);
                    }
                }
            } else {
                let j = choose|j: int| 0 <= j < init.len() && init[j] == x;
                assert(ds[j] == x);
                assert forall|k: int| 0 <= k < ds.len() && in_range(#[trigger] ds[k], lo, hi, open) implies x <= ds[k] by {
                    if k < n {
                        assert(ds[k] == init[k]);
                    }
                }
            }
        }
    }
}

proof fn lemma_object_hit(hits: Seq<Seq<int>>, open: Seq<bool>, obj: usize, lo: int, hi: int)
    ensures
        is_nearest_hit(object_hit(hits, open, obj, lo, hi), seq![obj], hits, open, lo, hi),
{
    let ds = hits[obj as int];
    let o = open[obj as int];
    lemma_nearest(ds, lo, hi, o);
    let r = object_hit(hits, open, obj, lo, hi);
    let s = seq![obj];
    assert forall|x: int| #[trigger] is_hit(s, hits, open, x, lo, hi) implies is_hit_of(hits, open, obj, x, lo, hi) by {
        let k = choose|k: int| 0 <= k < s.len() && #[trigger] is_hit_of(hits, open, s[k], x, lo, hi);
        assert(k == 0);
    }
    if r is Some {
        assert(is_hit_of(hits, open, s[0], r->0, lo, hi));
        assert forall|x: int| #[trigger] is_hit(s, hits, open, x, lo, hi) implies r->0 <= x by {
            let j = choose|j: int| 0 <= j < ds.len() && ds[j] == x;
            assert(in_range(ds[j], lo, hi, o));
        }
    } else {
        assert forall|x: int| !#[trigger] is_hit(s, hits, open, x, lo, hi) by {
            if is_hit(s, hits, open, x, lo, hi) {
                let j = choose|j: int| 0 <= j < ds.len() && ds[j] == x;
                assert(in_range(ds[j], lo, hi, o));
            }
        }
    }
}

/// A hit below the bound lies in the query with the bound as its upper end.
proof fn lemma_below_bound(x: int, lo: int, hi: int, b: int, o: bool)
    requires
        in_range(x, lo, hi, o),
        x < b,
        b <= hi,
    ensures
        in_range(x, lo, b, o),
{
}

proof fn lemma_hit_of_concat(a: Seq<usize>, b: Seq<usize>, hits: Seq<Seq<int>>, open: Seq<bool>, x: int, lo: int, hi: int)
    ensures
        is_hit(a + b, hits, open, x, lo, hi) <==> (is_hit(a, hits, open, x, lo, hi) || is_hit(b, hits, open, x, lo, hi)),
{
    let ab = a + b;
    if is_hit(ab, hits, open, x, lo, hi) {
        let k = choose|k: int| 0 <= k < ab.len() && #[trigger] is_hit_of(hits, open, ab[k], x, lo, hi);
        if k < a.len() {
            assert(ab[k] == a[k]);
        } else {
            assert(ab[k] == b[k - a.len()]);
        }
    }
    if is_hit(a, hits, open, x, lo, hi) {
        let k = choose|k: int| 0 <= k < a.len() && #[trigger] is_hit_of(hits, open, a[k], x, lo, hi);
        assert(ab[k] == a[k]);
    }
    if is_hit(b, hits, open, x, lo, hi) {
        let k = choose|k: int| 0 <= k < b.len() && #[trigger] is_hit_of(hits, open, b[k], x, lo, hi);
        assert(ab[k + a.len()] == b[k]);
    }
}

/// Asking a second group up to the first group's hit, and preferring the
/// second group's answer, finds the nearest hit of both groups.
proof fn lemma_combine(
    l: Option<int>,
    r: Option<int>,
    a: Seq<usize>,
    b: Seq<usize>,
    hits: Seq<Seq<int>>,
    open: Seq<bool>,
    lo: int,
    hi: int,
)
    requires
        is_nearest_hit(l, a, hits, open, lo, hi),
        is_nearest_hit(r, b, hits, open, lo, bound_after(l, hi)),
    ensures
        is_nearest_hit(if r is Some { r } else { l }, a + b, hits, open, lo, hi),
{
    let bound = bound_after(l, hi);
    assert forall|x: int| #[trigger] is_hit(a + b, hits, open, x, lo, hi)
        <==> (is_hit(a, hits, open, x, lo, hi) || is_hit(b, hits, open, x, lo, hi)) by {
        lemma_hit_of_concat(a, b, hits, open, x, lo, hi);
    }
    if l is Some {
        let xl = l->0;
        let kl = choose|k: int| 0 <= k < a.len() && #[trigger] is_hit_of(hits, open, a[k], xl, lo, hi);
        let ol = open[a[kl] as int];
        assert(xl <= hi) by {
            assert(in_range(xl, lo, hi, ol));
        }
    }
    // Every hit of `b` below the bound is a hit of `b` in the bounded query.
    assert forall|x: int| is_hit(b, hits, open, x, lo, hi) && x < bound implies #[trigger] is_hit(b, hits, open, x, lo, bound) by {
        let k = choose|k: int| 0 <= k < b.len() && #[trigger] is_hit_of(hits, open, b[k], x, lo, hi);
        lemma_below_bound(x, lo, hi, bound, open[b[k] as int]);
        assert(is_hit_of(hits, open, b[k], x, lo, bound));
    }
    // Every hit in the bounded query is a hit in the whole query.
    assert forall|x: int| #[trigger] is_hit(b, hits, open, x, lo, bound) implies is_hit(b, hits, open, x, lo, hi) && x <= bound by {
        let k = choose|k: int| 0 <= k < b.len() && #[trigger] is_hit_of(hits, open, b[k], x, lo, bound);
        assert(is_hit_of(hits, open, b[k], x, lo, hi));
    }
    if r is Some {
        let y = r->0;
        assert(is_hit(b, hits, open, y, lo, hi));
        assert forall|x: int| #[trigger] is_hit(a + b, hits, open, x, lo, hi) implies y <= x by {
            if is_hit(a, hits, open, x, lo, hi) {
                assert(l->0 <= x);
            } else if x < bound {
                assert(is_hit(b, hits, open, x, lo, bound));
            }
        }
    } else if l is Some {
        let xl = l->0;
        assert forall|x: int| #[trigger] is_hit(a + b, hits, open, x, lo, hi) implies xl <= x by {
            if !is_hit(a, hits, open, x, lo, hi) && x < bound {
                assert(is_hit(b, hits, open, x, lo, bound));
            }
        }
    } else {
        assert forall|x: int| !#[trigger] is_hit(a + b, hits, open, x, lo, hi) by {
            if is_hit(b, hits, open, x, lo, hi) {
                assert(is_hit(b, hits, open, x, lo, bound));
            }
        }
    }
}

/// What the hierarchy reports is the nearest hit of all the objects under it
/// (or nothing when none is hit), provided its box tests never miss.
pub proof fn lemma_bvh_hit(
    t: BvhTree,
    box_hit: spec_fn(BvhTree, int, int) -> bool,
    hits: Seq<Seq<int>>,
    open: Seq<bool>,
    lo: int,
    hi: int,
)
    requires
        boxes_sound(box_hit, hits, open),
    ensures
        is_nearest_hit(bvh_hit(t, box_hit, hits, open, lo, hi), t.members(), hits, open, lo, hi),
    decreases t,
{
    match t {
        BvhTree::Object(i) => {
            lemma_object_hit(hits, open, i, lo, hi);
        },
        BvhTree::Node { left, right, .. } => {
            if !box_hit(t, lo, hi) {
                assert forall|x: int| !#[trigger] is_hit(t.members(), hits, open, x, lo, hi) by {}
            } else {
                let l = bvh_hit(*left, box_hit, hits, open, lo, hi);
                let r = bvh_hit(*right, box_hit, hits, open, lo, bound_after(l, hi));
                lemma_bvh_hit(*left, box_hit, hits, open, lo, hi);
                lemma_bvh_hit(*right, box_hit, hits, open, lo, bound_after(l, hi));
                lemma_combine(l, r, left.members(), right.members(), hits, open, lo, hi);
                if *left is Object && *left == *right {
                    let m = left.members();
                    assert forall|x: int| #[trigger] is_hit(m + m, hits, open, x, lo, hi) <==> is_hit(m, hits, open, x, lo, hi) by {
                        lemma_hit_of_concat(m, m, hits, open, x, lo, hi);
                    }
                }
            }
        },
    }
}

/// What a linear scan reports is the nearest hit of all its objects (or
/// nothing when none is hit), whatever their order.
pub proof fn lemma_list_hit(objs: Seq<usize>, hits: Seq<Seq<int>>, open: Seq<bool>, lo: int, hi: int)
    ensures
        is_nearest_hit(list_hit(objs, hits, open, lo, hi), objs, hits, open, lo, hi),
    decreases objs.len(),
{
    if objs.len() > 0 {
        let init = objs.drop_last();
        let last = objs.last();
        let r = list_hit(init, hits, open, lo, hi);
        lemma_list_hit(init, hits, open, lo, hi);
        lemma_object_hit(hits, open, last, lo, bound_after(r, hi));
        let h = object_hit(hits, open, last, lo, bound_after(r, hi));
        lemma_combine(r, h, init, seq![last], hits, open, lo, hi);
        assert(init + seq![last] =~= objs);
    }
}

/// The hierarchy's traversal finds the same nearest hit as a linear scan.
/// For every tree whose box tests never miss, every list that holds the same
/// objects (in any order, repeats allowed), every set of hit distances per
/// object and every query interval, the distance of the nearest hit, or the
/// absence of any, is the same both ways. A tree from `BvhTree::build` over `n` objects holds each of
/// `0..n` once, so it answers as a scan of the objects in list order does.
pub proof fn lemma_bvh_matches_linear_scan(
    t: BvhTree,
    box_hit: spec_fn(BvhTree, int, int) -> bool,
    objs: Seq<usize>,
    hits: Seq<Seq<int>>,
    open: Seq<bool>,
    lo: int,
    hi: int,
)
    requires
        boxes_sound(box_hit, hits, open),
        forall|i: usize| objs.contains(i) <==> t.members().contains(i),
    ensures
        bvh_hit(t, box_hit, hits, open, lo, hi) == list_hit(objs, hits, open, lo, hi),
{
    let m = t.members();
    lemma_bvh_hit(t, box_hit, hits, open, lo, hi);
    lemma_list_hit(objs, hits, open, lo, hi);
    assert forall|x: int| #[trigger] is_hit(objs, hits, open, x, lo, hi) <==> is_hit(m, hits, open, x, lo, hi) by {
        if is_hit(objs, hits, open, x, lo, hi) {
            let k = choose|k: int| 0 <= k < objs.len() && #[trigger] is_hit_of(hits, open, objs[k], x, lo, hi);
            assert(objs.contains(objs[k]));
            let j = choose|j: int| 0 <= j < m.len() && m[j] == objs[k];
            assert(is_hit_of(hits, open, m[j], x, lo, hi));
        }
        if is_hit(m, hits, open, x, lo, hi) {
            let k = choose|k: int| 0 <= k < m.len() && #[trigger] is_hit_of(hits, open, m[k], x, lo, hi);
            assert(m.contains(m[k]));
            assert(objs.contains(m[k]));
            let j = choose|j: int| 0 <= j < objs.len() && objs[j] == m[k];
            assert(is_hit_of(hits, open, objs[j], x, lo, hi));
        }
    }
    lemma_nearest_unique(bvh_hit(t, box_hit, hits, open, lo, hi), list_hit(objs, hits, open, lo, hi), m, objs, hits, open, lo, hi);
}

/// Every object of a tree can be found through it: when the box tests never
/// miss and object `i` reports a hit, and no other object of the tree meets
/// the ray inside the query at or before that hit, the hierarchy reports what
/// `i` reports.
pub proof fn lemma_bvh_finds_each_object(
    t: BvhTree,
    box_hit: spec_fn(BvhTree, int, int) -> bool,
    i: usize,
    hits: Seq<Seq<int>>,
    open: Seq<bool>,
    lo: int,
    hi: int,
)
    requires
        boxes_sound(box_hit, hits, open),
        t.members().contains(i),
        object_hit(hits, open, i, lo, hi) is Some,
        forall|j: usize, x: int|
            t.members().contains(j) && j != i && #[trigger] is_hit_of(hits, open, j, x, lo, hi)
                ==> object_hit(hits, open, i, lo, hi)->0 < x,
    ensures
        bvh_hit(t, box_hit, hits, open, lo, hi) == object_hit(hits, open, i, lo, hi),
{
    let m = t.members();
    let s = seq![i];
    lemma_bvh_hit(t, box_hit, hits, open, lo, hi);
    lemma_object_hit(hits, open, i, lo, hi);
    let xi = object_hit(hits, open, i, lo, hi)->0;
    let r = bvh_hit(t, box_hit, hits, open, lo, hi);
    assert(is_hit(s, hits, open, xi, lo, hi));
    assert(is_hit_of(hits, open, i, xi, lo, hi)) by {
        let k = choose|k: int| 0 <= k < s.len() && #[trigger] is_hit_of(hits, open, s[k], xi, lo, hi);
        assert(s[k] == i);
    }
    let ji = choose|j: int| 0 <= j < m.len() && m[j] == i;
    assert(is_hit_of(hits, open, m[ji], xi, lo, hi));
    assert(is_hit(m, hits, open, xi, lo, hi));
    let y = r->0;
    let k = choose|k: int| 0 <= k < m.len() && #[trigger] is_hit_of(hits, open, m[k], y, lo, hi);
    assert(m.contains(m[k]));
    if m[k] == i {
        assert(is_hit_of(hits, open, s[0], y, lo, hi));
        assert(is_hit(s, hits, open, y, lo, hi));
    }
}

/// Two groups that meet the ray at the same distances have the same nearest hit.
proof fn lemma_nearest_unique(
    a: Option<int>,
    b: Option<int>,
    objs_a: Seq<usize>,
    objs_b: Seq<usize>,
    hits: Seq<Seq<int>>,
    open: Seq<bool>,
    lo: int,
    hi: int,
)
    requires
        is_nearest_hit(a, objs_a, hits, open, lo, hi),
        is_nearest_hit(b, objs_b, hits, open, lo, hi),
        forall|x: int| #[trigger] is_hit(objs_a, hits, open, x, lo, hi) <==> is_hit(objs_b, hits, open, x, lo, hi),
    ensures
        a == b,
{
    if a is Some && b is Some {
        assert(is_hit(objs_a, hits, open, b->0, lo, hi));
        assert(is_hit(objs_b, hits, open, a->0, lo, hi));
    } else if a is Some {
        assert(is_hit(objs_b, hits, open, a->0, lo, hi));
    } else if b is Some {
        assert(is_hit(objs_a, hits, open, b->0, lo, hi));
    }
}

} // verus!
