//! The query accelerator: a hashed grid over a fixed set of points that
//! answers neighbor queries by looking only at the cells around the queried
//! point.

use vstd::prelude::*;
use vstd::arithmetic::power::pow;
use std::collections::HashMap;
use crate::error::Error;
use crate::grid::{
    hash_key,
    is_on_lattice,
    lemma_cell_coord_span,
    on_lattice,
    point_on_lattice,
    quantize,
    same_key,
    spec_hash_key,
    spec_quantize,
};
use crate::index::{
    all_on_lattice,
    candidates,
    cell_at,
    cells_ascending,
    grid_neighbors,
    is_grid_of,
    lemma_ascending_cells_unchanged,
    lemma_grid_extend,
    lemma_grid_neighbors_exact,
    lemma_reordering_keeps_grid,
    lemma_reordering_keeps_results,
    same_cells_reordered,
};
use crate::metric::{
    distance_sq,
    lemma_sum_sq_diff_symmetric,
    neighbor_set,
    neighbor_test,
    radius_squared,
};
use crate::offsets::{lemma_combo_rank_at, neighborhood, offset_at};

verus! {

/// One occupied cell of the grid: its key and the indices of its points.
struct Cell<const D: usize> {
    key: [i32; D],
    indices: Vec<usize>,
}

/// Euclidean neighborhood query accelerator. Uses a hashmap grid.
///
/// The cells stand in a list, in the order in which their first point was
/// met; a hash map leads from the combined hash of a cell key to the places
/// in that list of the cells whose keys hash to it.
pub struct QueryAccelerator<const D: usize> {
    cells: Vec<Cell<D>>,
    buckets: HashMap<u64, Vec<usize>>,
    neighbors: Vec<[i32; D]>,
    radius: i32,
    radius_sq: u128,
    len: usize,
}

/// The key of the cell at place `s` of the list.
spec fn key_at<const D: usize>(cells: Seq<Cell<D>>, s: int) -> Seq<i32> {
    cells[s].key@
}

/// Whether the list holds a cell with this key.
spec fn has_cell<const D: usize>(cells: Seq<Cell<D>>, key: Seq<i32>) -> bool {
    exists|s: int| 0 <= s < cells.len() && #[trigger] key_at(cells, s) == key
}

/// The place of the cell with this key.
spec fn slot_of<const D: usize>(cells: Seq<Cell<D>>, key: Seq<i32>) -> int {
    choose|s: int| 0 <= s < cells.len() && #[trigger] key_at(cells, s) == key
}

/// The list of cells as a map from keys to point indices.
spec fn cells_view<const D: usize>(cells: Seq<Cell<D>>) -> Map<Seq<i32>, Seq<usize>> {
    Map::new(
        |key: Seq<i32>| has_cell(cells, key),
        |key: Seq<i32>| cells[slot_of(cells, key)].indices@,
    )
}

/// Whether the hash map leads to every cell of the list, and the list holds
/// no key twice.
spec fn table_wf<const D: usize>(cells: Seq<Cell<D>>, buckets: Map<u64, Vec<usize>>) -> bool {
    &&& forall|s1: int, s2: int|
        0 <= s1 < cells.len() && 0 <= s2 < cells.len() && s1 != s2 ==> #[trigger] key_at(cells, s1)
            != #[trigger] key_at(cells, s2)
    &&& forall|s: int|
        0 <= s < cells.len() ==> buckets.contains_key(spec_hash_key(#[trigger] key_at(cells, s)))
            && buckets[spec_hash_key(key_at(cells, s))]@.contains(s as usize)
    &&& forall|h: u64, t: int|
        buckets.contains_key(h) && 0 <= t < buckets[h]@.len() ==> #[trigger] buckets[h]@[t]
            < cells.len()
}

/// Whether the parts of an accelerator fit together: the hash map leads to
/// every cell, no cell names a point beyond the indexed set or names one
/// twice, and the offsets are those of the neighborhood.
spec fn parts_wf<const D: usize>(
    cells: Seq<Cell<D>>,
    buckets: Map<u64, Vec<usize>>,
    neighbors: Seq<[i32; D]>,
    radius: i32,
    radius_sq: u128,
    len: usize,
) -> bool {
    &&& radius > 0
    &&& radius_sq == radius * radius
    &&& table_wf(cells, buckets)
    &&& neighbors.len() == pow(3, D as nat)
    &&& forall|k: int|
        0 <= k < neighbors.len() ==> (#[trigger] neighbors[k])@ == offset_at(k, D as nat)
    &&& cells_hold(cells, len)
}

/// Whether every cell names only points of a set of `len` points, and none
/// twice.
spec fn cells_hold<const D: usize>(cells: Seq<Cell<D>>, len: usize) -> bool {
    &&& forall|s: int, t: int|
        0 <= s < cells.len() && 0 <= t < cells[s].indices@.len()
            ==> #[trigger] cells[s].indices@[t] < len
    &&& forall|s: int| 0 <= s < cells.len() ==> (#[trigger] cells[s]).indices@.no_duplicates()
}

/// The places listed under hash `h`; none where the map has no such entry.
spec fn bucket_at(buckets: Map<u64, Vec<usize>>, h: u64) -> Seq<usize> {
    if buckets.contains_key(h) {
        buckets[h]@
    } else {
        Seq::empty()
    }
}

/// Whether `after` is `before` with the place `slot` added under hash `h`.
spec fn bucket_grown(
    before: Map<u64, Vec<usize>>,
    after: Map<u64, Vec<usize>>,
    h: u64,
    slot: usize,
) -> bool {
    &&& after.contains_key(h)
    &&& after[h]@ == bucket_at(before, h).push(slot)
    &&& forall|g: u64| g != h ==> after.contains_key(g) == before.contains_key(g)
    &&& forall|g: u64| g != h && before.contains_key(g) ==> after[g] == before[g]
}

/// Whether `after` holds the cells of `before`, each with its key and with
/// the same indices in some order.
spec fn cells_reordered<const D: usize>(before: Seq<Cell<D>>, after: Seq<Cell<D>>) -> bool {
    &&& after.len() == before.len()
    &&& forall|u: int| 0 <= u < after.len() ==> #[trigger] key_at(after, u) == key_at(before, u)
    &&& forall|u: int|
        0 <= u < after.len() ==> (#[trigger] after[u]).indices@.to_multiset()
            == before[u].indices@.to_multiset()
}

/// Whether a sequence of indices never falls.
spec fn sorted_seq(s: Seq<usize>) -> bool {
    forall|a: int, b: int| 0 <= a <= b < s.len() ==> s[a] <= s[b]
}

/// Under its key, the map shows what the cell at a place of the list holds.
proof fn lemma_view_at<const D: usize>(cells: Seq<Cell<D>>, buckets: Map<u64, Vec<usize>>, s: int)
    requires
        table_wf(cells, buckets),
        0 <= s < cells.len(),
    ensures
        cells_view(cells).contains_key(key_at(cells, s)),
        cells_view(cells)[key_at(cells, s)] == cells[s].indices@,
{
}

/// A list of cells that is the grid of a point set names only points of
/// that set, and none twice in a cell.
proof fn lemma_grid_cells_hold<const D: usize>(
    cells: Seq<Cell<D>>,
    buckets: Map<u64, Vec<usize>>,
    points: Seq<[i32; D]>,
    radius: i32,
    len: usize,
)
    requires
        table_wf(cells, buckets),
        is_grid_of(cells_view(cells), points, radius),
        points.len() == len,
    ensures
        cells_hold(cells, len),
{
    let view = cells_view(cells);
    assert forall|s: int, t: int|
        0 <= s < cells.len() && 0 <= t < cells[s].indices@.len()
            implies #[trigger] cells[s].indices@[t] < len by {
        assert(view[key_at(cells, s)].contains(cells[s].indices@[t]));
    }
    assert forall|s: int| 0 <= s < cells.len() implies (
    #[trigger] cells[s]).indices@.no_duplicates() by {
        lemma_view_at(cells, buckets, s);
    }
}

/// Adding a point to the cell at place `s` adds it under the key of that
/// cell and leaves the rest of the map alone.
proof fn lemma_cell_grown<const D: usize>(
    before: Seq<Cell<D>>,
    after: Seq<Cell<D>>,
    buckets: Map<u64, Vec<usize>>,
    s: int,
    idx: usize,
)
    requires
        table_wf(before, buckets),
        0 <= s < before.len(),
        after.len() == before.len(),
        after[s].key == before[s].key,
        after[s].indices@ == before[s].indices@.push(idx),
        forall|u: int| 0 <= u < before.len() && u != s ==> after[u] == before[u],
    ensures
        table_wf(after, buckets),
        cells_view(after) == cells_view(before).insert(
            key_at(before, s),
            cell_at(cells_view(before), key_at(before, s)).push(idx),
        ),
{
    let key = key_at(before, s);
    assert forall|u: int| 0 <= u < after.len() implies #[trigger] key_at(after, u) == key_at(
        before,
        u,
    ) by {}
    let view0 = cells_view(before);
    let view1 = cells_view(after);
    let want = view0.insert(key, cell_at(view0, key).push(idx));
    assert forall|other: Seq<i32>| view1.contains_key(other) == want.contains_key(other) by {
        if has_cell(after, other) {
            assert(key_at(before, slot_of(after, other)) == other);
        }
        if has_cell(before, other) {
            assert(key_at(after, slot_of(before, other)) == other);
        }
    }
}

/// Opening a cell for a key that had none, with one point in it and its
/// place entered under the hash of the key, adds that cell to the map and
/// leaves the rest alone.
proof fn lemma_cell_opened<const D: usize>(
    before: Seq<Cell<D>>,
    after: Seq<Cell<D>>,
    buckets0: Map<u64, Vec<usize>>,
    buckets1: Map<u64, Vec<usize>>,
    idx: usize,
)
    requires
        table_wf(before, buckets0),
        before.len() <= usize::MAX,
        after.len() == before.len() + 1,
        forall|u: int| 0 <= u < before.len() ==> after[u] == before[u],
        !has_cell(before, key_at(after, before.len() as int)),
        after[before.len() as int].indices@ == Seq::<usize>::empty().push(idx),
        bucket_grown(
            buckets0,
            buckets1,
            spec_hash_key(key_at(after, before.len() as int)),
            before.len() as usize,
        ),
    ensures
        table_wf(after, buckets1),
        cells_view(after) == cells_view(before).insert(
            key_at(after, before.len() as int),
            cell_at(cells_view(before), key_at(after, before.len() as int)).push(idx),
        ),
{
    let slot = before.len() as int;
    let key = key_at(after, slot);
    let h = spec_hash_key(key);
    assert forall|u: int| 0 <= u < before.len() implies #[trigger] key_at(after, u) == key_at(
        before,
        u,
    ) by {}
    assert(table_wf(after, buckets1)) by {
        assert forall|u: int| 0 <= u < after.len() implies buckets1.contains_key(
            spec_hash_key(#[trigger] key_at(after, u)),
        ) && buckets1[spec_hash_key(key_at(after, u))]@.contains(u as usize) by {
            let hu = spec_hash_key(key_at(after, u));
            if u < slot {
                if hu == h {
                    let t = choose|t: int|
                        0 <= t < buckets0[hu]@.len() && buckets0[hu]@[t] == u as usize;
                    assert(buckets1[hu]@[t] == u as usize);
                }
            } else {
                assert(buckets1[h]@[buckets1[h]@.len() - 1] == slot);
            }
        }
    }
    let view0 = cells_view(before);
    let view1 = cells_view(after);
    let want = view0.insert(key, cell_at(view0, key).push(idx));
    assert forall|other: Seq<i32>| view1.contains_key(other) == want.contains_key(other) by {
        if has_cell(after, other) && other != key {
            assert(key_at(before, slot_of(after, other)) == other);
        }
        if has_cell(before, other) {
            assert(key_at(after, slot_of(before, other)) == other);
        }
    }
}

/// Putting the indices of each cell in another order keeps the list fit
/// for its hash map and for its point set, and shows in the map as the
/// same reordering.
proof fn lemma_cells_reordered<const D: usize>(
    before: Seq<Cell<D>>,
    after: Seq<Cell<D>>,
    buckets: Map<u64, Vec<usize>>,
    len: usize,
)
    requires
        table_wf(before, buckets),
        cells_hold(before, len),
        cells_reordered(before, after),
    ensures
        table_wf(after, buckets),
        cells_hold(after, len),
        same_cells_reordered(cells_view(before), cells_view(after)),
        (forall|u: int| 0 <= u < after.len() ==> sorted_seq((#[trigger] after[u]).indices@))
            ==> cells_ascending(cells_view(after)),
{
    assert forall|u: int, t: int|
        0 <= u < after.len() && 0 <= t < after[u].indices@.len()
            implies #[trigger] after[u].indices@[t] < len by {
        let now = after[u].indices@;
        let was = before[u].indices@;
        now.to_multiset_ensures();
        was.to_multiset_ensures();
        assert(now.to_multiset().count(now[t]) == was.to_multiset().count(now[t]));
    }
    assert forall|u: int| 0 <= u < after.len() implies (
    #[trigger] after[u]).indices@.no_duplicates() by {
        before[u].indices@.lemma_multiset_has_no_duplicates();
        after[u].indices@.lemma_multiset_has_no_duplicates_conv();
    }
    let a = cells_view(before);
    let b = cells_view(after);
    assert forall|key: Seq<i32>| a.contains_key(key) == b.contains_key(key) by {
        if has_cell(before, key) {
            assert(key_at(after, slot_of(before, key)) == key);
        }
        if has_cell(after, key) {
            assert(key_at(before, slot_of(after, key)) == key);
        }
    }
    assert(a.dom() =~= b.dom());
}

/// Sorts a list of indices with `sort` of the standard library's slices.
///
/// Taken from its documentation and not proved here: afterwards the list
/// holds the same indices as before, each as often as before, and none is
/// followed by a smaller one.
#[verifier::external_body]
fn sort_ascending(list: &mut Vec<usize>)
    ensures
        final(list)@.to_multiset() == old(list)@.to_multiset(),
        sorted_seq(final(list)@),
{
    list.sort();
}

/// Looks for the cell with the given key.
fn find_slot<const D: usize>(
    cells: &Vec<Cell<D>>,
    buckets: &HashMap<u64, Vec<usize>>,
    key: &[i32; D],
) -> (slot: Option<usize>)
    requires
        table_wf(cells@, buckets@),
    ensures
        match slot {
            Some(s) => s < cells@.len() && key_at(cells@, s as int) == key@,
            None => !has_cell(cells@, key@),
        },
{
    let h = hash_key(key);
    match buckets.get(&h) {
        None => None,
        Some(bucket) => {
            let mut t: usize = 0;
            while t < bucket.len()
                invariant
                    t <= bucket@.len(),
                    table_wf(cells@, buckets@),
                    buckets@.contains_key(h),
                    buckets@[h] == *bucket,
                    h == spec_hash_key(key@),
                    forall|u: int| 0 <= u < t ==> key_at(cells@, bucket@[u] as int) != key@,
                decreases bucket@.len() - t,
            {
                let s = bucket[t];
                if same_key(&cells[s].key, key) {
                    return Some(s);
                }
                t += 1;
            }
            assert(!has_cell(cells@, key@)) by {
                if has_cell(cells@, key@) {
                    assert(cells@.len() == cells.len());
                }
            }
            None
        },
    }
}

/// Enters the place `slot` of a cell under the hash `h` of its key.
fn add_to_bucket(buckets: &mut HashMap<u64, Vec<usize>>, h: u64, slot: usize)
    ensures
        bucket_grown(old(buckets)@, final(buckets)@, h, slot),
{
    let bucket = buckets.entry(h).or_insert(Vec::new());
    bucket.push(slot);
}

/// Enters point `idx` into the cell with the given key, opening the cell if
/// this is its first point.
fn insert_point<const D: usize>(
    cells: &mut Vec<Cell<D>>,
    buckets: &mut HashMap<u64, Vec<usize>>,
    key: [i32; D],
    idx: usize,
)
    requires
        table_wf(old(cells)@, old(buckets)@),
    ensures
        table_wf(final(cells)@, final(buckets)@),
        cells_view(final(cells)@) == cells_view(old(cells)@).insert(
            key@,
            cell_at(cells_view(old(cells)@), key@).push(idx),
        ),
{
    let ghost cells0 = cells@;
    let ghost buckets0 = buckets@;
    match find_slot(cells, buckets, &key) {
        Some(s) => {
            cells[s].indices.push(idx);
            proof {
                lemma_cell_grown(cells0, cells@, buckets0, s as int, idx);
            }
        },
        None => {
            let slot = cells.len();
            let mut indices: Vec<usize> = Vec::new();
            indices.push(idx);
            cells.push(Cell { key, indices });
            add_to_bucket(buckets, hash_key(&key), slot);
            proof {
                lemma_cell_opened(cells0, cells@, buckets0, buckets@, idx);
            }
        },
    }
}

impl<const D: usize> QueryAccelerator<D> {
    /// The radius that the index was built for, which is the side of its
    /// grid cells.
    pub closed spec fn radius(&self) -> i32 {
        self.radius
    }

    /// The number of points in the indexed set.
    pub closed spec fn point_count(&self) -> nat {
        self.len as nat
    }

    /// The spatial index: for the key of each occupied cell, the indices of
    /// the points in it.
    pub closed spec fn cells(&self) -> Map<Seq<i32>, Seq<usize>> {
        cells_view(self.cells@)
    }

    /// What holds of every accelerator: its parts fit together.
    #[verifier::type_invariant]
    spec fn wf(&self) -> bool {
        parts_wf(
            self.cells@,
            self.buckets@,
            self.neighbors@,
            self.radius,
            self.radius_sq,
            self.len,
        )
    }

    /// Whether the accelerator is an index of `points`: it is the grid of
    /// exactly these points, all of them on the lattice.
    pub open spec fn indexes(&self, points: Seq<[i32; D]>) -> bool {
        &&& points.len() == self.point_count()
        &&& all_on_lattice(points)
        &&& is_grid_of(self.cells(), points, self.radius())
    }

    /// Builds the index of `points` for queries of the given radius.
    ///
    /// The radius must be positive, else the call fails with
    /// [`Error::Config`]; every coordinate must lie on the lattice, else it
    /// fails with [`Error::Input`]. Each cell of the new index lists its
    /// points in rising order.
    pub fn new(points: &[[i32; D]], radius: i32) -> (built: Result<Self, Error>)
        ensures
            match built {
                Ok(accel) => {
                    &&& radius > 0
                    &&& accel.radius() == radius
                    &&& accel.indexes(points@)
                    &&& cells_ascending(accel.cells())
                },
                Err(e) => if radius <= 0 {
                    e == Error::Config
                } else {
                    e == Error::Input && !all_on_lattice(points@)
                },
            },
    {
        if radius <= 0 {
            return Err(Error::Config);
        }
        let mut cells: Vec<Cell<D>> = Vec::new();
        let mut buckets: HashMap<u64, Vec<usize>> = HashMap::new();
        let mut idx: usize = 0;
        while idx < points.len()
            invariant
                idx <= points@.len(),
                radius > 0,
                table_wf(cells@, buckets@),
                is_grid_of(cells_view(cells@), points@.take(idx as int), radius),
                cells_ascending(cells_view(cells@)),
                forall|j: int| 0 <= j < idx ==> point_on_lattice(#[trigger] points@[j]@),
            decreases points@.len() - idx,
        {
            let point = points[idx];
            if !is_on_lattice(&point) {
                return Err(Error::Input);
            }
            proof {
                lemma_grid_extend(cells_view(cells@), points@, radius, idx);
            }
            insert_point(&mut cells, &mut buckets, quantize(point, radius), idx);
            idx += 1;
        }
        assert(points@.take(points@.len() as int) == points@);
        let neighbors = neighborhood::<D>();
        let radius_sq = radius_squared(radius);
        let len = points.len();
        proof {
            lemma_grid_cells_hold(cells@, buckets@, points@, radius, len);
        }
        let accel = QueryAccelerator { cells, buckets, neighbors, radius, radius_sq, len };
        Ok(accel)
    }

    /// Puts the point indices of every cell in rising order.
    ///
    /// This should result in better cache locality for queries, but may
    /// take some time. It changes the order in which a query lists what it
    /// finds and nothing else; an index whose cells rise already, as those
    /// of a new index do, is returned as it was.
    pub fn sort_indices(self) -> (sorted: Self)
        ensures
            sorted.radius() == self.radius(),
            sorted.point_count() == self.point_count(),
            same_cells_reordered(self.cells(), sorted.cells()),
            cells_ascending(sorted.cells()),
            cells_ascending(self.cells()) ==> sorted.cells() == self.cells(),
            forall|points: Seq<[i32; D]>| #[trigger]
                self.indexes(points) ==> sorted.indexes(points),
            forall|points: Seq<[i32; D]>, i: int|
                (#[trigger] grid_neighbors(sorted.cells(), points, sorted.radius(), i)).to_set()
                    == grid_neighbors(self.cells(), points, self.radius(), i).to_set(),
    {
        proof {
            use_type_invariant(&self);
        }
        let ghost cells0 = self.cells@;
        let QueryAccelerator { mut cells, buckets, neighbors, radius, radius_sq, len } = self;
        let mut s: usize = 0;
        while s < cells.len()
            invariant
                s <= cells@.len(),
                cells_reordered(cells0, cells@),
                forall|u: int| 0 <= u < s ==> sorted_seq((#[trigger] cells@[u]).indices@),
            decreases cells@.len() - s,
        {
            let ghost stale = cells@;
            sort_ascending(&mut cells[s].indices);
            proof {
                assert forall|u: int| 0 <= u < cells@.len() implies #[trigger] key_at(cells@, u)
                    == key_at(cells0, u) by {
                    assert(key_at(stale, u) == key_at(cells0, u));
                }
            }
            s += 1;
        }
        proof {
            lemma_cells_reordered(cells0, cells@, buckets@, len);
        }
        let sorted = QueryAccelerator { cells, buckets, neighbors, radius, radius_sq, len };
        proof {
            let a = self.cells();
            let b = sorted.cells();
            if cells_ascending(a) {
                lemma_ascending_cells_unchanged(a, b);
            }
            assert forall|points: Seq<[i32; D]>| #[trigger]
                self.indexes(points) implies sorted.indexes(points) by {
                lemma_reordering_keeps_grid(a, b, points, radius);
            }
            assert forall|points: Seq<[i32; D]>, i: int|
                (#[trigger] grid_neighbors(b, points, radius, i)).to_set() == grid_neighbors(
                    a,
                    points,
                    radius,
                    i,
                ).to_set() by {
                lemma_reordering_keeps_results(a, b, points, radius, i);
            }
        }
        sorted
    }

    /// Query the neighbors of `queried_idx` in `points`: the indices of all
    /// other points within the radius, the boundary included, each once.
    ///
    /// `points` must be the array that the index was built from. An array of
    /// another length is refused with [`Error::Index`], and so is an index
    /// that names no point of it; an array of the same length with other
    /// contents cannot be told apart and must not be passed.
    ///
    /// The result is put together anew at every call, in the order of the
    /// cells around the queried point and, within a cell, in the order in
    /// which the cell lists its points.
    pub fn query_neighbors(&self, points: &[[i32; D]], queried_idx: usize) -> (found: Result<
        Vec<usize>,
        Error,
    >)
        requires
            points@.len() == self.point_count() ==> self.indexes(points@),
        ensures
            match found {
                Ok(list) => {
                    &&& points@.len() == self.point_count()
                    &&& queried_idx < points@.len()
                    &&& list@ == grid_neighbors(
                        self.cells(),
                        points@,
                        self.radius(),
                        queried_idx as int,
                    )
                    &&& list@.no_duplicates()
                    &&& !list@.contains(queried_idx)
                    &&& list@.to_set() == neighbor_set(
                        points@,
                        self.radius() as int,
                        queried_idx as int,
                    )
                },
                Err(e) => {
                    &&& e == Error::Index
                    &&& points@.len() != self.point_count() || queried_idx >= points@.len()
                },
            },
    {
        proof {
            use_type_invariant(self);
        }
        if points.len() != self.len || queried_idx >= points.len() {
            return Err(Error::Index);
        }
        let query_point = points[queried_idx];
        let origin = quantize(query_point, self.radius);
        let ghost view = self.cells();
        let ghost pred = neighbor_test(points@, self.radius as int, queried_idx as int);
        proof {
            assert(point_on_lattice(origin@)) by {
                assert forall|a: int| 0 <= a < origin@.len() implies on_lattice(
                    #[trigger] origin@[a],
                ) by {
                    lemma_cell_coord_span(query_point@[a], self.radius);
                }
            }
        }
        let mut found: Vec<usize> = Vec::new();
        let mut k: usize = 0;
        while k < self.neighbors.len()
            invariant
                k <= self.neighbors@.len(),
                parts_wf(
                    self.cells@,
                    self.buckets@,
                    self.neighbors@,
                    self.radius,
                    self.radius_sq,
                    self.len,
                ),
                self.indexes(points@),
                queried_idx < points@.len(),
                query_point == points@[queried_idx as int],
                origin@ == spec_quantize(query_point@, self.radius),
                point_on_lattice(origin@),
                view == self.cells(),
                pred == neighbor_test(points@, self.radius as int, queried_idx as int),
                found@ == candidates(view, origin@, k as nat).filter(pred),
            decreases self.neighbors@.len() - k,
        {
            let offset = self.neighbors[k];
            proof {
                lemma_combo_rank_at(k as int, D as nat, -1, 1, 1);
            }
            let key = crate::grid::add(origin, offset);
            let ghost before = candidates(view, origin@, k as nat);
            let ghost cell = cell_at(view, key@);
            if let Some(s) = find_slot(&self.cells, &self.buckets, &key) {
                let indices = &self.cells[s].indices;
                let mut t: usize = 0;
                while t < indices.len()
                    invariant
                        t <= indices@.len(),
                        self.radius_sq == self.radius * self.radius,
                        forall|u: int| 0 <= u < indices@.len() ==> #[trigger] indices@[u] < self.len,
                        indices@ == cell,
                        points@.len() == self.len,
                        queried_idx < points@.len(),
                        query_point == points@[queried_idx as int],
                        pred == neighbor_test(points@, self.radius as int, queried_idx as int),
                        found@ == (before + cell.take(t as int)).filter(pred),
                    decreases indices@.len() - t,
                {
                    let idx = indices[t];
                    let keep = idx != queried_idx && distance_sq(points[idx], query_point)
                        <= self.radius_sq;
                    proof {
                        lemma_sum_sq_diff_symmetric(points@[idx as int]@, query_point@, D as int);
                        assert(before + cell.take(t as int + 1) =~= (before + cell.take(
                            t as int,
                        )).push(idx));
                        (before + cell.take(t as int)).lemma_filter_push(idx, pred);
                    }
                    if keep {
                        found.push(idx);
                    }
                    t += 1;
                }
                assert(cell.take(cell.len() as int) == cell);
            }
            k += 1;
        }
        proof {
            lemma_grid_neighbors_exact(view, points@, self.radius, queried_idx as int);
        }
        Ok(found)
    }
}

} // verus!
