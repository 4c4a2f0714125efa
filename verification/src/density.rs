//! Density-based clusters as mathematical objects: core points, what is
//! density-reachable from them, and the label that each point of a set
//! carries once clustering is done.

use vstd::prelude::*;
use crate::metric::{is_neighbor, lemma_sum_sq_diff_symmetric, neighbor_set};

verus! {

/// The outcome of clustering for one point.
///
/// Every point starts `Undefined`. A point may become `Noise` and later join
/// a cluster; once it holds a cluster it keeps it. No point is `Undefined`
/// when clustering is done.
#[derive(Copy, Clone, Debug, PartialEq, Eq, Structural)]
pub enum Label {
    /// Not looked at yet.
    Undefined,
    /// Part of no cluster.
    Noise,
    /// Part of the cluster with this number; clusters are numbered from one
    /// in the order in which they are found.
    Cluster(u32),
}

/// What clustering works on: a point set, the radius within which points
/// are neighbors, and the number of neighbors that makes a point a core
/// point.
pub struct Scene<const D: usize> {
    pub points: Seq<[i32; D]>,
    pub radius: int,
    pub min_pts: nat,
}

/// The scene made of the given parts.
pub open spec fn scene<const D: usize>(points: Seq<[i32; D]>, radius: int, min_pts: nat) -> Scene<
    D,
> {
    Scene { points, radius, min_pts }
}

/// Whether `q` is a neighbor of `p`.
pub open spec fn near<const D: usize>(sc: Scene<D>, p: int, q: int) -> bool {
    is_neighbor(sc.points, sc.radius, p, q)
}

/// Whether point `i` is a core point: it has at least `min_pts` neighbors,
/// itself not counted.
pub open spec fn is_core<const D: usize>(sc: Scene<D>, i: int) -> bool {
    0 <= i < sc.points.len() && neighbor_set(sc.points, sc.radius, i).len() >= sc.min_pts
}

/// Whether `p` is reached from the core point `seed` in exactly `steps`
/// expansions, each one leading from a core point to one of its neighbors.
pub open spec fn expands_to<const D: usize>(sc: Scene<D>, seed: int, p: int, steps: nat) -> bool
    decreases steps,
{
    if steps == 0 {
        p == seed && is_core(sc, seed)
    } else {
        exists|mid: int|
            expands_to(sc, seed, mid, (steps - 1) as nat) && is_core(sc, mid) && #[trigger] near(
                sc,
                mid,
                p,
            )
    }
}

/// Whether `p` is density-reachable from `seed`: `seed` is a core point, and
/// a chain of expansions from core points leads from it to `p`.
pub open spec fn density_reachable<const D: usize>(sc: Scene<D>, seed: int, p: int) -> bool {
    exists|steps: nat| expands_to(sc, seed, p, steps)
}

/// The first core point at or after `from` from which `p` is
/// density-reachable; the number of points if there is none.
pub open spec fn seed_search<const D: usize>(sc: Scene<D>, p: int, from: int) -> int
    decreases sc.points.len() - from,
{
    if from >= sc.points.len() {
        sc.points.len() as int
    } else if is_core(sc, from) && density_reachable(sc, from, p) {
        from
    } else {
        seed_search(sc, p, from + 1)
    }
}

/// The first core point from which `p` is density-reachable; the number of
/// points if there is none.
pub open spec fn seed_of<const D: usize>(sc: Scene<D>, p: int) -> int {
    seed_search(sc, p, 0)
}

/// Whether point `j` opens a cluster: it is a core point that no earlier
/// core point reaches.
pub open spec fn opens_cluster<const D: usize>(sc: Scene<D>, j: int) -> bool {
    is_core(sc, j) && seed_of(sc, j) == j
}

/// The number of clusters opened by the points before `i`.
pub open spec fn clusters_before<const D: usize>(sc: Scene<D>, i: int) -> nat
    decreases i,
{
    if i <= 0 {
        0
    } else {
        clusters_before(sc, i - 1) + if opens_cluster(sc, i - 1) {
            1nat
        } else {
            0nat
        }
    }
}

/// The label of point `p`: the cluster opened by the first core point that
/// reaches it, or noise where none does.
pub open spec fn label_of<const D: usize>(sc: Scene<D>, p: int) -> Label {
    if seed_of(sc, p) < sc.points.len() {
        Label::Cluster((clusters_before(sc, seed_of(sc, p)) + 1) as u32)
    } else {
        Label::Noise
    }
}

/// The labels of all points.
pub open spec fn clustering<const D: usize>(sc: Scene<D>) -> Seq<Label> {
    Seq::new(sc.points.len(), |p: int| label_of(sc, p))
}

/// Being a neighbor is mutual.
pub proof fn lemma_near_symmetric<const D: usize>(sc: Scene<D>, p: int, q: int)
    requires
        0 <= p < sc.points.len(),
        near(sc, p, q),
    ensures
        near(sc, q, p),
{
    lemma_sum_sq_diff_symmetric(sc.points[p]@, sc.points[q]@, D as int);
}

/// Only a core point reaches anything, and what it reaches is a point of
/// the set.
pub proof fn lemma_reachable_from_core<const D: usize>(sc: Scene<D>, seed: int, p: int)
    requires
        density_reachable(sc, seed, p),
    ensures
        is_core(sc, seed),
        0 <= p < sc.points.len(),
{
    let steps = choose|steps: nat| expands_to(sc, seed, p, steps);
    lemma_expansion_from_core(sc, seed, p, steps);
}

/// What is reached in a given number of expansions is a point of the set,
/// reached from a core point.
proof fn lemma_expansion_from_core<const D: usize>(sc: Scene<D>, seed: int, p: int, steps: nat)
    requires
        expands_to(sc, seed, p, steps),
    ensures
        is_core(sc, seed),
        0 <= p < sc.points.len(),
    decreases steps,
{
    if steps > 0 {
        let mid = choose|mid: int|
            expands_to(sc, seed, mid, (steps - 1) as nat) && is_core(sc, mid) && #[trigger] near(
                sc,
                mid,
                p,
            );
        lemma_expansion_from_core(sc, seed, mid, (steps - 1) as nat);
    }
}

/// A core point reaches itself.
pub proof fn lemma_reach_self<const D: usize>(sc: Scene<D>, i: int)
    requires
        is_core(sc, i),
    ensures
        density_reachable(sc, i, i),
{
    assert(expands_to(sc, i, i, 0));
}

/// What a core point reaches, it hands on to its neighbors.
pub proof fn lemma_reach_step<const D: usize>(sc: Scene<D>, seed: int, q: int, p: int)
    requires
        density_reachable(sc, seed, q),
        is_core(sc, q),
        near(sc, q, p),
    ensures
        density_reachable(sc, seed, p),
{
    let steps = choose|steps: nat| expands_to(sc, seed, q, steps);
    assert(expands_to(sc, seed, p, steps + 1));
}

/// Reaching goes on through core points: what `b` reaches is reached by all
/// that reach `b`.
pub proof fn lemma_reach_transitive<const D: usize>(sc: Scene<D>, a: int, b: int, c: int)
    requires
        density_reachable(sc, a, b),
        density_reachable(sc, b, c),
    ensures
        density_reachable(sc, a, c),
{
    let steps = choose|steps: nat| expands_to(sc, b, c, steps);
    lemma_expansion_transitive(sc, a, b, c, steps);
}

/// What `b` reaches in a given number of expansions is reached by all that
/// reach `b`.
proof fn lemma_expansion_transitive<const D: usize>(
    sc: Scene<D>,
    a: int,
    b: int,
    c: int,
    steps: nat,
)
    requires
        density_reachable(sc, a, b),
        expands_to(sc, b, c, steps),
    ensures
        density_reachable(sc, a, c),
    decreases steps,
{
    if steps > 0 {
        let mid = choose|mid: int|
            expands_to(sc, b, mid, (steps - 1) as nat) && is_core(sc, mid) && #[trigger] near(
                sc,
                mid,
                c,
            );
        lemma_expansion_transitive(sc, a, b, mid, (steps - 1) as nat);
        lemma_reach_step(sc, a, mid, c);
    }
}

/// Between core points reaching is mutual.
pub proof fn lemma_reach_symmetric<const D: usize>(sc: Scene<D>, a: int, b: int)
    requires
        density_reachable(sc, a, b),
        is_core(sc, b),
    ensures
        density_reachable(sc, b, a),
{
    let steps = choose|steps: nat| expands_to(sc, a, b, steps);
    lemma_expansion_symmetric(sc, a, b, steps);
}

/// A core point reached in a given number of expansions reaches back.
proof fn lemma_expansion_symmetric<const D: usize>(sc: Scene<D>, a: int, b: int, steps: nat)
    requires
        expands_to(sc, a, b, steps),
        is_core(sc, b),
    ensures
        density_reachable(sc, b, a),
    decreases steps,
{
    if steps > 0 {
        let mid = choose|mid: int|
            expands_to(sc, a, mid, (steps - 1) as nat) && is_core(sc, mid) && #[trigger] near(
                sc,
                mid,
                b,
            );
        lemma_expansion_symmetric(sc, a, mid, (steps - 1) as nat);
        lemma_near_symmetric(sc, mid, b);
        lemma_reach_self(sc, b);
        lemma_reach_step(sc, b, b, mid);
        lemma_reach_transitive(sc, b, mid, a);
    }
}

/// What the search for a seed returns: the first core point at or after
/// `from` that reaches `p`, or the number of points.
pub proof fn lemma_seed_search<const D: usize>(sc: Scene<D>, p: int, from: int)
    requires
        0 <= from,
    ensures
        from <= seed_search(sc, p, from) || seed_search(sc, p, from) == sc.points.len(),
        seed_search(sc, p, from) <= sc.points.len(),
        seed_search(sc, p, from) < sc.points.len() ==> is_core(sc, seed_search(sc, p, from))
            && density_reachable(sc, seed_search(sc, p, from), p),
        forall|j: int|
            from <= j < seed_search(sc, p, from) ==> !(is_core(sc, j)
                && #[trigger] density_reachable(sc, j, p)),
    decreases sc.points.len() - from,
{
    if from < sc.points.len() && !(is_core(sc, from) && density_reachable(sc, from, p)) {
        lemma_seed_search(sc, p, from + 1);
    }
}

/// The seed of a point is a core point that reaches it, and no core point
/// before the seed does.
pub proof fn lemma_seed_of<const D: usize>(sc: Scene<D>, p: int)
    ensures
        0 <= seed_of(sc, p) <= sc.points.len(),
        seed_of(sc, p) < sc.points.len() ==> is_core(sc, seed_of(sc, p)) && density_reachable(
            sc,
            seed_of(sc, p),
            p,
        ),
        forall|j: int|
            0 <= j < seed_of(sc, p) ==> !(is_core(sc, j) && #[trigger] density_reachable(sc, j, p)),
{
    lemma_seed_search(sc, p, 0);
}

/// A core point that reaches `p` is the seed of `p` or comes after it.
pub proof fn lemma_seed_at_most<const D: usize>(sc: Scene<D>, j: int, p: int)
    requires
        density_reachable(sc, j, p),
    ensures
        seed_of(sc, p) <= j,
{
    lemma_reachable_from_core(sc, j, p);
    lemma_seed_of(sc, p);
}

/// The seed of a point is its own seed: it opens a cluster.
pub proof fn lemma_seed_opens<const D: usize>(sc: Scene<D>, p: int)
    requires
        seed_of(sc, p) < sc.points.len(),
    ensures
        opens_cluster(sc, seed_of(sc, p)),
{
    let s = seed_of(sc, p);
    lemma_seed_of(sc, p);
    lemma_seed_of(sc, s);
    lemma_reach_self(sc, s);
    let t = seed_of(sc, s);
    if t < s {
        lemma_reach_transitive(sc, t, s, p);
    }
}

/// Core points that reach each other have the same seed.
pub proof fn lemma_seed_shared<const D: usize>(sc: Scene<D>, a: int, b: int)
    requires
        density_reachable(sc, a, b),
        is_core(sc, b),
    ensures
        seed_of(sc, a) == seed_of(sc, b),
{
    lemma_reach_symmetric(sc, a, b);
    lemma_seed_of(sc, a);
    lemma_seed_of(sc, b);
    let sa = seed_of(sc, a);
    let sb = seed_of(sc, b);
    lemma_reach_transitive(sc, sa, a, b);
    lemma_reach_transitive(sc, sb, b, a);
}

/// Among the points before `i` no more than `i` open a cluster, and the
/// count never falls.
pub proof fn lemma_clusters_before<const D: usize>(sc: Scene<D>, i: int, j: int)
    requires
        0 <= i <= j,
    ensures
        clusters_before(sc, i) <= i,
        clusters_before(sc, i) <= clusters_before(sc, j),
        i < j && opens_cluster(sc, i) ==> clusters_before(sc, i) < clusters_before(sc, j),
    decreases j,
{
    if i > 0 {
        lemma_clusters_before(sc, i - 1, i - 1);
    }
    if i < j {
        lemma_clusters_before(sc, i, j - 1);
    }
}

/// The labels are a function of the points, the radius and the threshold:
/// whatever two runs over the same input return, they return the same,
/// label by label and number by number.
pub proof fn lemma_clustering_deterministic<const D: usize>(
    points: Seq<[i32; D]>,
    radius: int,
    min_pts: nat,
    first: Seq<Label>,
    second: Seq<Label>,
)
    requires
        first == clustering(scene(points, radius, min_pts)),
        second == clustering(scene(points, radius, min_pts)),
    ensures
        first == second,
{
}

/// No label is left undefined: every point ends as noise or in a cluster.
pub proof fn lemma_clustering_total<const D: usize>(sc: Scene<D>)
    ensures
        clustering(sc).len() == sc.points.len(),
        forall|p: int|
            0 <= p < sc.points.len() ==> #[trigger] clustering(sc)[p] != Label::Undefined,
{
}

/// A core point is never noise, and core points that are neighbors share a
/// cluster.
pub proof fn lemma_core_points_clustered<const D: usize>(sc: Scene<D>, p: int, q: int)
    requires
        is_core(sc, p),
    ensures
        clustering(sc)[p] is Cluster,
        is_core(sc, q) && near(sc, p, q) ==> clustering(sc)[q] == clustering(sc)[p],
{
    lemma_reach_self(sc, p);
    lemma_seed_at_most(sc, p, p);
    if is_core(sc, q) && near(sc, p, q) {
        lemma_reach_step(sc, p, p, q);
        lemma_seed_shared(sc, p, q);
    }
}

/// A border point joins a cluster: a point that is no core point but a
/// neighbor of one is not noise, and its cluster is that of a core point
/// next to it. Where core points of several clusters are next to it, it
/// joins the one found first: no core point next to it has a cluster with a
/// smaller number.
pub proof fn lemma_border_point_clustered<const D: usize>(sc: Scene<D>, p: int, q: int)
    requires
        sc.points.len() <= u32::MAX,
        0 <= p < sc.points.len(),
        is_core(sc, q),
        near(sc, q, p),
    ensures
        clustering(sc)[p] is Cluster,
        exists|c: int|
            is_core(sc, c) && near(sc, c, p) && #[trigger] clustering(sc)[c] == clustering(sc)[p],
        clustering(sc)[q] is Cluster,
        clustering(sc)[p]->0 <= clustering(sc)[q]->0,
{
    lemma_reach_self(sc, q);
    lemma_reach_step(sc, q, q, p);
    lemma_seed_of(sc, q);
    let sq = seed_of(sc, q);
    lemma_reach_transitive(sc, sq, q, p);
    lemma_seed_of(sc, p);
    let s = seed_of(sc, p);
    lemma_clusters_before(sc, s, sq);
    lemma_clusters_before(sc, sq, sq);
    let steps = choose|steps: nat| expands_to(sc, s, p, steps);
    if steps == 0 {
        lemma_seed_shared(sc, q, p);
    } else {
        let mid = choose|mid: int|
            expands_to(sc, s, mid, (steps - 1) as nat) && is_core(sc, mid) && #[trigger] near(
                sc,
                mid,
                p,
            );
        lemma_seed_shared(sc, s, mid);
        lemma_seed_opens(sc, p);
        assert(clustering(sc)[mid] == clustering(sc)[p]);
    }
}

/// A point that no core point reaches is noise: it is no core point and no
/// neighbor of one.
pub proof fn lemma_noise_points<const D: usize>(sc: Scene<D>, p: int)
    requires
        0 <= p < sc.points.len(),
    ensures
        clustering(sc)[p] == Label::Noise <==> !is_core(sc, p) && forall|q: int|
            is_core(sc, q) ==> !#[trigger] near(sc, q, p),
{
    lemma_seed_of(sc, p);
    if clustering(sc)[p] == Label::Noise {
        if is_core(sc, p) {
            lemma_reach_self(sc, p);
        }
        assert forall|q: int| is_core(sc, q) implies !#[trigger] near(sc, q, p) by {
            if near(sc, q, p) {
                lemma_reach_self(sc, q);
                lemma_reach_step(sc, q, q, p);
            }
        }
    }
}

} // verus!
