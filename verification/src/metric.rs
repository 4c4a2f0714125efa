//! Squared Euclidean distance on the integer lattice, and the neighbor
//! relation that everything else in this crate is measured against.

use vstd::prelude::*;

verus! {

/// The sum of the squared coordinate differences of `a` and `b` over the
/// first `n` axes.
pub open spec fn sum_sq_diff(a: Seq<i32>, b: Seq<i32>, n: int) -> int
    decreases n,
{
    if n <= 0 {
        0
    } else {
        sum_sq_diff(a, b, n - 1) + (a[n - 1] - b[n - 1]) * (a[n - 1] - b[n - 1])
    }
}

/// The squared Euclidean distance between two lattice points.
pub open spec fn spec_distance_sq(a: Seq<i32>, b: Seq<i32>) -> int {
    sum_sq_diff(a, b, a.len() as int)
}

/// Whether `a` and `b` lie within `radius` of each other, the boundary
/// included.
pub open spec fn within(a: Seq<i32>, b: Seq<i32>, radius: int) -> bool {
    spec_distance_sq(a, b) <= radius * radius
}

/// Whether point `j` is a neighbor of point `i`: another point of the set
/// within `radius` of it.
pub open spec fn is_neighbor<const D: usize>(
    points: Seq<[i32; D]>,
    radius: int,
    i: int,
    j: int,
) -> bool {
    &&& 0 <= j < points.len()
    &&& j != i
    &&& within(points[i]@, points[j]@, radius)
}

/// The neighbors of point `i`.
pub open spec fn neighbor_set<const D: usize>(points: Seq<[i32; D]>, radius: int, i: int) -> Set<
    usize,
> {
    Set::new(|j: usize| is_neighbor(points, radius, i, j as int))
}

/// The test that picks the neighbors of point `i` out of a list of indices.
pub open spec fn neighbor_test<const D: usize>(
    points: Seq<[i32; D]>,
    radius: int,
    i: int,
) -> spec_fn(usize) -> bool {
    |j: usize| is_neighbor(points, radius, i, j as int)
}

/// The indices `0, 1, ..., n - 1`.
pub open spec fn index_range(n: nat) -> Seq<usize> {
    Seq::new(n, |k: int| k as usize)
}

/// The neighbors of point `i` in ascending order: what an exhaustive scan of
/// the point set finds.
pub open spec fn scan_neighbors<const D: usize>(points: Seq<[i32; D]>, radius: int, i: int) -> Seq<
    usize,
> {
    index_range(points.len()).filter(neighbor_test(points, radius, i))
}

/// Whether a sequence of indices rises strictly.
pub open spec fn ascending(s: Seq<usize>) -> bool {
    forall|a: int, b: int| 0 <= a < b < s.len() ==> s[a] < s[b]
}

/// Each axis adds a square to the sum, and no square of a difference of
/// two `i32` reaches beyond 64 bits.
pub proof fn lemma_sum_sq_diff_bounds(a: Seq<i32>, b: Seq<i32>, n: int)
    requires
        0 <= n,
    ensures
        0 <= sum_sq_diff(a, b, n) <= n * 0x1_0000_0000_0000_0000,
    decreases n,
{
    if n > 0 {
        lemma_sum_sq_diff_bounds(a, b, n - 1);
        let d = a[n - 1] - b[n - 1];
        assert(0 <= d * d <= 0x1_0000_0000_0000_0000) by (nonlinear_arith)
            requires
                -0x1_0000_0000 < d < 0x1_0000_0000,
        ;
    }
}

/// The squared distance is symmetric in its arguments.
pub proof fn lemma_sum_sq_diff_symmetric(a: Seq<i32>, b: Seq<i32>, n: int)
    ensures
        sum_sq_diff(a, b, n) == sum_sq_diff(b, a, n),
    decreases n,
{
    if n > 0 {
        lemma_sum_sq_diff_symmetric(a, b, n - 1);
        let d = a[n - 1] - b[n - 1];
        let e = b[n - 1] - a[n - 1];
        assert(d * d == e * e) by (nonlinear_arith)
            requires
                e == -d,
        ;
    }
}

/// No single axis contributes more than the whole sum.
pub proof fn lemma_axis_within_sum(a: Seq<i32>, b: Seq<i32>, n: int, k: int)
    requires
        0 <= k < n,
    ensures
        (a[k] - b[k]) * (a[k] - b[k]) <= sum_sq_diff(a, b, n),
    decreases n,
{
    let d = a[n - 1] - b[n - 1];
    assert(0 <= d * d) by (nonlinear_arith);
    if k < n - 1 {
        lemma_axis_within_sum(a, b, n - 1, k);
    } else {
        lemma_sum_sq_diff_bounds(a, b, n - 1);
    }
}

/// A filter keeps a rising sequence rising.
pub proof fn lemma_filter_keeps_ascending(s: Seq<usize>, pred: spec_fn(usize) -> bool)
    requires
        ascending(s),
    ensures
        ascending(s.filter(pred)),
    decreases s.len(),
{
    if s.len() > 0 {
        let front = s.drop_last();
        lemma_filter_keeps_ascending(front, pred);
        assert(s == front.push(s.last()));
        front.lemma_filter_push(s.last(), pred);
        if pred(s.last()) {
            let kept = front.filter(pred);
            let grown = kept.push(s.last());
            assert forall|a: int, b: int| 0 <= a < b < grown.len() implies grown[a] < grown[b] by {
                if b == grown.len() - 1 {
                    front.lemma_filter_contains_rev(pred, kept[a]);
                }
            }
        }
    } else {
        reveal(Seq::filter);
    }
}

/// An exhaustive scan finds exactly the neighbors of the queried point,
/// each once, in rising order.
pub proof fn lemma_scan_neighbors_exact<const D: usize>(
    points: Seq<[i32; D]>,
    radius: int,
    i: int,
)
    requires
        points.len() <= usize::MAX,
    ensures
        ascending(scan_neighbors(points, radius, i)),
        scan_neighbors(points, radius, i).no_duplicates(),
        scan_neighbors(points, radius, i).to_set() == neighbor_set(points, radius, i),
{
    let all = index_range(points.len());
    let pred = neighbor_test(points, radius, i);
    let found = scan_neighbors(points, radius, i);
    lemma_filter_keeps_ascending(all, pred);
    assert forall|j: usize|
        found.to_set().contains(j) <==> neighbor_set(points, radius, i).contains(j) by {
        if is_neighbor(points, radius, i, j as int) {
            all.lemma_filter_contains(pred, j as int);
        }
    }
}

/// Euclidean distance between two points, squared.
pub fn distance_sq<const D: usize>(a: [i32; D], b: [i32; D]) -> (d: u128)
    ensures
        d == spec_distance_sq(a@, b@),
{
    let mut acc: u128 = 0;
    let mut i: usize = 0;
    while i < D
        invariant
            i <= D,
            acc == sum_sq_diff(a@, b@, i as int),
        decreases D - i,
    {
        let diff: i128 = a[i] as i128 - b[i] as i128;
        proof {
            lemma_sum_sq_diff_bounds(a@, b@, i as int);
            assert(0 <= diff * diff <= 0x1_0000_0000_0000_0000) by (nonlinear_arith)
                requires
                    -0x1_0000_0000 < diff < 0x1_0000_0000,
            ;
        }
        let sq: i128 = diff * diff;
        acc = acc + sq as u128;
        i += 1;
    }
    acc
}

/// The square of a radius, wide enough for any `i32`.
pub fn radius_squared(radius: i32) -> (sq: u128)
    ensures
        sq == radius * radius,
{
    let r: i128 = radius as i128;
    assert(0 <= r * r <= 0x4000_0000_0000_0000) by (nonlinear_arith)
        requires
            -0x8000_0000 <= r <= 0x8000_0000,
    ;
    (r * r) as u128
}

/// Finds the neighbors of point `queried_idx` by comparing it with every
/// other point: the indices of all points within `radius` of it, itself
/// left out, in ascending order.
pub fn naive_query<const D: usize>(points: &[[i32; D]], queried_idx: usize, radius: i32) -> (found:
    Vec<usize>)
    requires
        queried_idx < points@.len(),
    ensures
        found@ == scan_neighbors(points@, radius as int, queried_idx as int),
        ascending(found@),
        found@.to_set() == neighbor_set(points@, radius as int, queried_idx as int),
{
    let queried_point = points[queried_idx];
    let radius_sq = radius_squared(radius);
    let ghost all = index_range(points@.len());
    let ghost pred = neighbor_test(points@, radius as int, queried_idx as int);
    let mut found: Vec<usize> = Vec::new();
    let mut point_idx: usize = 0;
    while point_idx < points.len()
        invariant
            point_idx <= points@.len(),
            queried_idx < points@.len(),
            queried_point == points@[queried_idx as int],
            radius_sq == radius * radius,
            all == index_range(points@.len()),
            pred == neighbor_test(points@, radius as int, queried_idx as int),
            found@ == all.take(point_idx as int).filter(pred),
        decreases points@.len() - point_idx,
    {
        let keep = point_idx != queried_idx && distance_sq(queried_point, points[point_idx])
            <= radius_sq;
        proof {
            assert(all.take(point_idx as int + 1) == all.take(point_idx as int).push(point_idx));
            all.take(point_idx as int).lemma_filter_push(point_idx, pred);
        }
        if keep {
            found.push(point_idx);
        }
        point_idx += 1;
    }
    proof {
        assert(all.take(points@.len() as int) == all);
        lemma_scan_neighbors_exact(points@, radius as int, queried_idx as int);
    }
    found
}

} // verus!
