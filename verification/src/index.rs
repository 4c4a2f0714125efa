//! The spatial index as a mathematical object: a map from cell keys to the
//! indices of the points in each cell. Here stands what a query over such a
//! map returns, and the proof that it returns the neighbors and nothing
//! else.

use vstd::prelude::*;
use vstd::arithmetic::power::pow;
use vstd::relations::{sorted_by, total_ordering};
use vstd::seq_lib::lemma_sorted_unique;
use crate::grid::{
    lemma_cell_coord_span,
    lemma_close_coords_adjacent_cells,
    on_lattice,
    point_on_lattice,
    spec_add,
    spec_quantize,
};
use crate::metric::{
    ascending,
    is_neighbor,
    lemma_axis_within_sum,
    lemma_scan_neighbors_exact,
    lemma_sum_sq_diff_symmetric,
    neighbor_set,
    neighbor_test,
    scan_neighbors,
    within,
};
use crate::offsets::{
    combo_rank,
    lemma_combo_at_rank,
    lemma_combo_rank_at,
    lemma_combo_rank_bounds,
    offset_at,
};

verus! {

/// Whether every point of the set lies on the lattice.
pub open spec fn all_on_lattice<const D: usize>(points: Seq<[i32; D]>) -> bool {
    forall|j: int| 0 <= j < points.len() ==> point_on_lattice(#[trigger] points[j]@)
}

/// The indices stored under `key`; none where the map has no such cell.
pub open spec fn cell_at(cells: Map<Seq<i32>, Seq<usize>>, key: Seq<i32>) -> Seq<usize> {
    if cells.contains_key(key) {
        cells[key]
    } else {
        Seq::empty()
    }
}

/// Whether `cells` is the grid of `points` for cells of side `radius`: every
/// point stands once in the cell that its coordinates quantize to, a cell
/// holds nothing else, and there are no cells but those that hold a point.
pub open spec fn is_grid_of<const D: usize>(
    cells: Map<Seq<i32>, Seq<usize>>,
    points: Seq<[i32; D]>,
    radius: i32,
) -> bool {
    &&& forall|key: Seq<i32>| #[trigger]
        cells.contains_key(key) ==> cells[key].no_duplicates() && cells[key].len() > 0
    &&& forall|key: Seq<i32>, j: usize|
        cells.contains_key(key) ==> (#[trigger] cells[key].contains(j) <==> j < points.len()
            && spec_quantize(points[j as int]@, radius) == key)
    &&& forall|j: int|
        0 <= j < points.len() ==> cells.contains_key(
            #[trigger] spec_quantize(points[j]@, radius),
        )
}

/// Whether every cell of the map lists its indices in rising order.
pub open spec fn cells_ascending(cells: Map<Seq<i32>, Seq<usize>>) -> bool {
    forall|key: Seq<i32>| #[trigger] cells.contains_key(key) ==> ascending(cells[key])
}

/// Whether `b` holds the cells of `a` with the indices of each cell put in
/// some other order.
pub open spec fn same_cells_reordered(
    a: Map<Seq<i32>, Seq<usize>>,
    b: Map<Seq<i32>, Seq<usize>>,
) -> bool {
    &&& a.dom() == b.dom()
    &&& forall|key: Seq<i32>| #[trigger]
        a.contains_key(key) ==> a[key].to_multiset() == b[key].to_multiset()
}

/// The contents of the first `k` cells around `origin`, one cell after the
/// other in the order of the neighborhood offsets.
pub open spec fn candidates(
    cells: Map<Seq<i32>, Seq<usize>>,
    origin: Seq<i32>,
    k: nat,
) -> Seq<usize>
    decreases k,
{
    if k == 0 {
        Seq::empty()
    } else {
        candidates(cells, origin, (k - 1) as nat) + cell_at(
            cells,
            spec_add(origin, offset_at(k - 1, origin.len())),
        )
    }
}

/// What a query for the neighbors of point `i` finds in the index: the
/// points stored in the cell of `i` and in the cells that touch it, in the
/// order of the neighborhood offsets, that pass the neighbor test.
pub open spec fn grid_neighbors<const D: usize>(
    cells: Map<Seq<i32>, Seq<usize>>,
    points: Seq<[i32; D]>,
    radius: i32,
    i: int,
) -> Seq<usize> {
    candidates(cells, spec_quantize(points[i]@, radius), pow(3, D as nat) as nat).filter(
        neighbor_test(points, radius as int, i),
    )
}

/// A candidate is a point stored in one of the cells visited.
pub proof fn lemma_candidates_contain(
    cells: Map<Seq<i32>, Seq<usize>>,
    origin: Seq<i32>,
    k: nat,
    j: usize,
)
    ensures
        candidates(cells, origin, k).contains(j) <==> exists|m: int|
            0 <= m < k && #[trigger] cell_at(
                cells,
                spec_add(origin, offset_at(m, origin.len())),
            ).contains(j),
    decreases k,
{
    if k > 0 {
        let before = candidates(cells, origin, (k - 1) as nat);
        let last = cell_at(cells, spec_add(origin, offset_at(k - 1, origin.len())));
        lemma_candidates_contain(cells, origin, (k - 1) as nat, j);
        if candidates(cells, origin, k).contains(j) {
            let t = choose|t: int| 0 <= t < (before + last).len() && (before + last)[t] == j;
            if t >= before.len() {
                assert(last.contains(j));
            }
        }
        if exists|m: int|
            0 <= m < k && #[trigger] cell_at(
                cells,
                spec_add(origin, offset_at(m, origin.len())),
            ).contains(j) {
            let m = choose|m: int|
                0 <= m < k && #[trigger] cell_at(
                    cells,
                    spec_add(origin, offset_at(m, origin.len())),
                ).contains(j);
            if m < k - 1 {
                let t = choose|t: int| 0 <= t < before.len() && before[t] == j;
                assert((before + last)[t] == j);
            } else {
                let t = choose|t: int| 0 <= t < last.len() && last[t] == j;
                assert((before + last)[before.len() + t] == j);
            }
        }
    }
}

/// Moving from an on-lattice cell by an offset to a touching cell stays
/// within the keys, and different offsets lead to different cells.
pub proof fn lemma_offsets_lead_apart(origin: Seq<i32>, m1: int, m2: int)
    requires
        point_on_lattice(origin),
        0 <= m1 < pow(3, origin.len()),
        0 <= m2 < pow(3, origin.len()),
        spec_add(origin, offset_at(m1, origin.len())) == spec_add(
            origin,
            offset_at(m2, origin.len()),
        ),
    ensures
        m1 == m2,
{
    let n = origin.len();
    lemma_combo_rank_at(m1, n, -1, 1, 1);
    lemma_combo_rank_at(m2, n, -1, 1, 1);
    let o1 = offset_at(m1, n);
    let o2 = offset_at(m2, n);
    assert(o1 =~= o2) by {
        assert forall|a: int| 0 <= a < n implies o1[a] == o2[a] by {
            assert(spec_add(origin, o1)[a] == origin[a] + o1[a]);
        }
    }
}

/// A filter keeps a sequence free of duplicates.
pub proof fn lemma_filter_keeps_distinct(s: Seq<usize>, pred: spec_fn(usize) -> bool)
    requires
        s.no_duplicates(),
    ensures
        s.filter(pred).no_duplicates(),
    decreases s.len(),
{
    if s.len() > 0 {
        let front = s.drop_last();
        lemma_filter_keeps_distinct(front, pred);
        assert(s == front.push(s.last()));
        front.lemma_filter_push(s.last(), pred);
        if pred(s.last()) {
            let kept = front.filter(pred);
            if kept.contains(s.last()) {
                front.lemma_filter_contains_rev(pred, s.last());
            }
        }
    } else {
        reveal(Seq::filter);
    }
}

/// In the grid of a point set, no point is met twice on the way through the
/// cells around an on-lattice cell.
pub proof fn lemma_candidates_distinct<const D: usize>(
    cells: Map<Seq<i32>, Seq<usize>>,
    points: Seq<[i32; D]>,
    radius: i32,
    origin: Seq<i32>,
    k: nat,
)
    requires
        is_grid_of(cells, points, radius),
        point_on_lattice(origin),
        k <= pow(3, origin.len()),
    ensures
        candidates(cells, origin, k).no_duplicates(),
    decreases k,
{
    if k > 0 {
        let before = candidates(cells, origin, (k - 1) as nat);
        let key = spec_add(origin, offset_at(k - 1, origin.len()));
        let last = cell_at(cells, key);
        lemma_candidates_distinct(cells, points, radius, origin, (k - 1) as nat);
        assert forall|a: int, b: int| 0 <= a < before.len() && 0 <= b < last.len() implies before[a]
            != last[b] by {
            if before[a] == last[b] {
                let j = last[b];
                assert(last.contains(j));
                lemma_candidates_contain(cells, origin, (k - 1) as nat, j);
                let m = choose|m: int|
                    0 <= m < k - 1 && #[trigger] cell_at(
                        cells,
                        spec_add(origin, offset_at(m, origin.len())),
                    ).contains(j);
                lemma_offsets_lead_apart(origin, m, k - 1);
            }
        }
    }
}

/// Points within the radius of each other lie in the same cell or in cells
/// that touch: their cell keys differ by at most one on every axis.
pub proof fn lemma_close_points_adjacent_cells(p: Seq<i32>, q: Seq<i32>, radius: i32)
    requires
        radius > 0,
        p.len() == q.len(),
        within(p, q, radius as int),
    ensures
        forall|a: int|
            0 <= a < p.len() ==> -1 <= (#[trigger] spec_quantize(q, radius)[a]) - spec_quantize(
                p,
                radius,
            )[a] <= 1,
{
    assert forall|a: int| 0 <= a < p.len() implies -1 <= (#[trigger] spec_quantize(q, radius)[a])
        - spec_quantize(p, radius)[a] <= 1 by {
        lemma_axis_within_sum(p, q, p.len() as int, a);
        let d = p[a] - q[a];
        assert(-radius <= d <= radius) by (nonlinear_arith)
            requires
                d * d <= radius * radius,
                radius > 0,
        ;
        lemma_close_coords_adjacent_cells(q[a], p[a], radius);
    }
}

/// The step from the cell of a point to the cell of a point within the
/// radius of it is one of the neighborhood offsets.
pub proof fn lemma_neighbor_cell_is_near(p: Seq<i32>, q: Seq<i32>, radius: i32) -> (m: int)
    requires
        radius > 0,
        p.len() == q.len(),
        within(p, q, radius as int),
    ensures
        0 <= m < pow(3, p.len()),
        spec_add(spec_quantize(p, radius), offset_at(m, p.len())) == spec_quantize(q, radius),
{
    let from = spec_quantize(p, radius);
    let to = spec_quantize(q, radius);
    let step = Seq::new(p.len(), |a: int| (to[a] - from[a]) as i32);
    lemma_close_points_adjacent_cells(p, q, radius);
    lemma_combo_rank_bounds(step, -1, 1, 1);
    lemma_combo_at_rank(step, -1, 1, 1);
    combo_rank(step, -1, 1, 3)
}

/// The defining property of the index: over the grid of a point set, a query
/// finds exactly the neighbors of the queried point, each once.
pub proof fn lemma_grid_neighbors_exact<const D: usize>(
    cells: Map<Seq<i32>, Seq<usize>>,
    points: Seq<[i32; D]>,
    radius: i32,
    i: int,
)
    requires
        radius > 0,
        0 <= i < points.len(),
        all_on_lattice(points),
        is_grid_of(cells, points, radius),
    ensures
        grid_neighbors(cells, points, radius, i).no_duplicates(),
        grid_neighbors(cells, points, radius, i).to_set() == neighbor_set(
            points,
            radius as int,
            i,
        ),
{
    let origin = spec_quantize(points[i]@, radius);
    let total = pow(3, D as nat) as nat;
    let all = candidates(cells, origin, total);
    let pred = neighbor_test(points, radius as int, i);
    let found = grid_neighbors(cells, points, radius, i);
    assert(point_on_lattice(origin)) by {
        assert forall|a: int| 0 <= a < origin.len() implies on_lattice(#[trigger] origin[a]) by {
            lemma_cell_coord_span(points[i]@[a], radius);
        }
    }
    vstd::arithmetic::power::lemma_pow_positive(3, D as nat);
    lemma_candidates_distinct(cells, points, radius, origin, total);
    lemma_filter_keeps_distinct(all, pred);
    assert forall|j: usize| found.to_set().contains(j) <==> neighbor_set(
        points,
        radius as int,
        i,
    ).contains(j) by {
        if is_neighbor(points, radius as int, i, j as int) {
            let m = lemma_neighbor_cell_is_near(points[i]@, points[j as int]@, radius);
            assert(cell_at(cells, spec_add(origin, offset_at(m, origin.len()))).contains(j));
            lemma_candidates_contain(cells, origin, total, j);
        }
    }
}

/// The index against the exhaustive scan: over the grid of a point set, a
/// query finds the same set of points as comparing the queried point with
/// every other one.
pub proof fn lemma_query_matches_scan<const D: usize>(
    cells: Map<Seq<i32>, Seq<usize>>,
    points: Seq<[i32; D]>,
    radius: i32,
    i: int,
)
    requires
        radius > 0,
        0 <= i < points.len() <= usize::MAX,
        all_on_lattice(points),
        is_grid_of(cells, points, radius),
    ensures
        grid_neighbors(cells, points, radius, i).to_set() == scan_neighbors(
            points,
            radius as int,
            i,
        ).to_set(),
{
    lemma_grid_neighbors_exact(cells, points, radius, i);
    lemma_scan_neighbors_exact(points, radius as int, i);
}

/// A point is never among its own neighbors.
pub proof fn lemma_query_excludes_self<const D: usize>(
    cells: Map<Seq<i32>, Seq<usize>>,
    points: Seq<[i32; D]>,
    radius: i32,
    i: usize,
)
    ensures
        !grid_neighbors(cells, points, radius, i as int).contains(i),
        !neighbor_set(points, radius as int, i as int).contains(i),
{
    let found = grid_neighbors(cells, points, radius, i as int);
    if found.contains(i) {
        let t = choose|t: int| 0 <= t < found.len() && found[t] == i;
        candidates(
            cells,
            spec_quantize(points[i as int]@, radius),
            pow(3, D as nat) as nat,
        ).lemma_filter_pred(neighbor_test(points, radius as int, i as int), t);
    }
}

/// Being a neighbor is mutual: of two points of one set, each is a neighbor
/// of the other or neither is.
pub proof fn lemma_neighbors_symmetric<const D: usize>(
    points: Seq<[i32; D]>,
    radius: int,
    i: usize,
    j: usize,
)
    requires
        i < points.len(),
        j < points.len(),
    ensures
        neighbor_set(points, radius, i as int).contains(j) <==> neighbor_set(
            points,
            radius,
            j as int,
        ).contains(i),
{
    lemma_sum_sq_diff_symmetric(points[i as int]@, points[j as int]@, D as int);
}

/// Over the grid of a point set the query is symmetric too: `j` is found
/// around `i` exactly when `i` is found around `j`.
pub proof fn lemma_query_symmetric<const D: usize>(
    cells: Map<Seq<i32>, Seq<usize>>,
    points: Seq<[i32; D]>,
    radius: i32,
    i: usize,
    j: usize,
)
    requires
        radius > 0,
        i < points.len(),
        j < points.len(),
        all_on_lattice(points),
        is_grid_of(cells, points, radius),
    ensures
        grid_neighbors(cells, points, radius, i as int).contains(j) <==> grid_neighbors(
            cells,
            points,
            radius,
            j as int,
        ).contains(i),
{
    lemma_grid_neighbors_exact(cells, points, radius, i as int);
    lemma_grid_neighbors_exact(cells, points, radius, j as int);
    lemma_neighbors_symmetric(points, radius as int, i, j);
}

/// Putting the indices of each cell in another order changes the order in
/// which a query lists what it finds, and nothing else: the set found for
/// any point, over any point array, stays as it was.
pub proof fn lemma_reordering_keeps_results<const D: usize>(
    a: Map<Seq<i32>, Seq<usize>>,
    b: Map<Seq<i32>, Seq<usize>>,
    points: Seq<[i32; D]>,
    radius: i32,
    i: int,
)
    requires
        same_cells_reordered(a, b),
    ensures
        grid_neighbors(a, points, radius, i).to_set() == grid_neighbors(
            b,
            points,
            radius,
            i,
        ).to_set(),
{
    let origin = spec_quantize(points[i]@, radius);
    let total = pow(3, D as nat) as nat;
    assert forall|j: usize|
        grid_neighbors(a, points, radius, i).contains(j) <==> grid_neighbors(
            b,
            points,
            radius,
            i,
        ).contains(j) by {
        lemma_found_by_cells(a, points, radius, i, j);
        lemma_found_by_cells(b, points, radius, i, j);
        lemma_candidates_contain(a, origin, total, j);
        lemma_candidates_contain(b, origin, total, j);
        assert forall|m: int|
            cell_at(a, spec_add(origin, offset_at(m, origin.len()))).contains(j) == cell_at(
                b,
                spec_add(origin, offset_at(m, origin.len())),
            ).contains(j) by {
            let key = spec_add(origin, offset_at(m, origin.len()));
            if a.contains_key(key) {
                a[key].to_multiset_ensures();
                b[key].to_multiset_ensures();
                assert(a[key].to_multiset().count(j) == b[key].to_multiset().count(j));
            }
        }
    }
}

/// Putting the indices of each cell in another order leaves a grid the grid
/// of the same points.
pub proof fn lemma_reordering_keeps_grid<const D: usize>(
    a: Map<Seq<i32>, Seq<usize>>,
    b: Map<Seq<i32>, Seq<usize>>,
    points: Seq<[i32; D]>,
    radius: i32,
)
    requires
        same_cells_reordered(a, b),
        is_grid_of(a, points, radius),
    ensures
        is_grid_of(b, points, radius),
{
    assert forall|key: Seq<i32>| #[trigger] b.contains_key(key) implies b[key].no_duplicates()
        && b[key].len() > 0 by {
        a[key].lemma_multiset_has_no_duplicates();
        b[key].lemma_multiset_has_no_duplicates_conv();
        a[key].to_multiset_ensures();
        b[key].to_multiset_ensures();
    }
    assert forall|key: Seq<i32>, j: usize| b.contains_key(key) implies (#[trigger] b[key].contains(
        j,
    ) <==> j < points.len() && spec_quantize(points[j as int]@, radius) == key) by {
        a[key].to_multiset_ensures();
        b[key].to_multiset_ensures();
        assert(a[key].to_multiset().count(j) == b[key].to_multiset().count(j));
    }
}

/// Cells that list their indices rising are fixed by what they hold: where
/// every cell rises already, putting the cells in rising order changes
/// nothing.
pub proof fn lemma_ascending_cells_unchanged(
    a: Map<Seq<i32>, Seq<usize>>,
    b: Map<Seq<i32>, Seq<usize>>,
)
    requires
        same_cells_reordered(a, b),
        cells_ascending(a),
        cells_ascending(b),
    ensures
        a == b,
{
    let leq = |x: usize, y: usize| x <= y;
    assert(total_ordering(leq));
    assert forall|key: Seq<i32>| #[trigger] a.contains_key(key) implies a[key] == b[key] by {
        assert(b.dom().contains(key));
        assert(sorted_by(a[key], leq));
        assert(sorted_by(b[key], leq));
        lemma_sorted_unique(a[key], b[key], leq);
    }
    assert(a =~= b);
}

/// Entering the next point into the cell that its coordinates quantize to
/// turns the grid of the points before it into the grid of the points up to
/// and including it, and cells filled in this order list their indices
/// rising.
pub proof fn lemma_grid_extend<const D: usize>(
    cells: Map<Seq<i32>, Seq<usize>>,
    points: Seq<[i32; D]>,
    radius: i32,
    n: usize,
)
    requires
        n < points.len(),
        is_grid_of(cells, points.take(n as int), radius),
        cells_ascending(cells),
    ensures
        is_grid_of(
            cells.insert(
                spec_quantize(points[n as int]@, radius),
                cell_at(cells, spec_quantize(points[n as int]@, radius)).push(n),
            ),
            points.take(n + 1),
            radius,
        ),
        cells_ascending(
            cells.insert(
                spec_quantize(points[n as int]@, radius),
                cell_at(cells, spec_quantize(points[n as int]@, radius)).push(n),
            ),
        ),
{
    let upto = points.take(n + 1);
    let key = spec_quantize(points[n as int]@, radius);
    let grown = cell_at(cells, key).push(n);
    let after = cells.insert(key, grown);
    assert(ascending(grown)) by {
        assert forall|x: int, y: int| 0 <= x < y < grown.len() implies grown[x] < grown[y] by {
            if y == grown.len() - 1 {
                assert(cell_at(cells, key).contains(grown[x]));
            }
        }
    }
    assert forall|other: Seq<i32>, j: usize| after.contains_key(other) implies (
    #[trigger] after[other].contains(j) <==> j < upto.len() && spec_quantize(
        upto[j as int]@,
        radius,
    ) == other) by {
        if other == key {
            if grown.contains(j) {
                let t = choose|t: int| 0 <= t < grown.len() && grown[t] == j;
                if t < grown.len() - 1 {
                    assert(cell_at(cells, key).contains(j));
                }
            }
            if j < upto.len() && spec_quantize(upto[j as int]@, radius) == key {
                if j < n {
                    assert(cells[key].contains(j));
                    let t = choose|t: int| 0 <= t < cells[key].len() && cells[key][t] == j;
                    assert(grown[t] == j);
                } else {
                    assert(grown[grown.len() - 1] == j);
                }
            }
        }
    }
}

/// A query finds `j` exactly when `j` is a candidate that passes the
/// neighbor test.
proof fn lemma_found_by_cells<const D: usize>(
    cells: Map<Seq<i32>, Seq<usize>>,
    points: Seq<[i32; D]>,
    radius: i32,
    i: int,
    j: usize,
)
    ensures
        grid_neighbors(cells, points, radius, i).contains(j) <==> candidates(
            cells,
            spec_quantize(points[i]@, radius),
            pow(3, D as nat) as nat,
        ).contains(j) && is_neighbor(points, radius as int, i, j as int),
{
    let all = candidates(cells, spec_quantize(points[i]@, radius), pow(3, D as nat) as nat);
    let pred = neighbor_test(points, radius as int, i);
    let found = all.filter(pred);
    if found.contains(j) {
        all.lemma_filter_contains_rev(pred, j);
    }
}

} // verus!
