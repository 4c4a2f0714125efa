//! Density-based clustering: one scan over the points in index order, each
//! unvisited core point opening a cluster that is then grown through the
//! core points it reaches.

use vstd::prelude::*;
use crate::density::{
    clustering,
    clusters_before,
    density_reachable,
    expands_to,
    is_core,
    Label,
    label_of,
    lemma_clusters_before,
    lemma_reach_self,
    lemma_reach_step,
    lemma_reachable_from_core,
    lemma_seed_at_most,
    lemma_seed_of,
    lemma_seed_opens,
    lemma_seed_shared,
    near,
    opens_cluster,
    scene,
    Scene,
    seed_of,
};
use crate::error::Error;
use crate::index::all_on_lattice;
use crate::metric::neighbor_set;
use crate::query_accel::QueryAccelerator;

verus! {

/// The label of point `p` when the scan has passed the first `i` points:
/// final if a cluster opened so far holds `p`, else noise if the scan has
/// passed `p`, else still undefined.
pub open spec fn scan_label<const D: usize>(sc: Scene<D>, i: int, p: int) -> Label {
    if seed_of(sc, p) < i {
        label_of(sc, p)
    } else if p < i {
        Label::Noise
    } else {
        Label::Undefined
    }
}

/// The labels of all points when the scan has passed the first `i` points.
pub open spec fn scan_state<const D: usize>(sc: Scene<D>, i: int) -> Seq<Label> {
    Seq::new(sc.points.len(), |p: int| scan_label(sc, i, p))
}

/// The state while the cluster `c` opened by `seed` is grown: the points of
/// earlier clusters and the points that `seed` does not reach stand as the
/// scan left them; the points of the new cluster are labeled or still to
/// come; the frontier holds only what `seed` reaches; and around every
/// labeled core point of the new cluster, each neighbor is labeled or
/// waits in the frontier.
pub open spec fn expanding<const D: usize>(
    sc: Scene<D>,
    seed: int,
    c: u32,
    labels: Seq<Label>,
    frontier: Seq<usize>,
) -> bool {
    &&& labels.len() == sc.points.len()
    &&& labels.len() <= usize::MAX
    &&& 0 <= seed < labels.len()
    &&& labels[seed] == Label::Cluster(c)
    &&& forall|p: int|
        0 <= p < labels.len() && seed_of(sc, p) != seed ==> #[trigger] labels[p] == scan_label(
            sc,
            seed,
            p,
        )
    &&& forall|p: int|
        0 <= p < labels.len() && seed_of(sc, p) == seed ==> #[trigger] labels[p] == Label::Cluster(
            c,
        ) || labels[p] == scan_label(sc, seed, p)
    &&& forall|t: int|
        0 <= t < frontier.len() ==> density_reachable(sc, seed, #[trigger] frontier[t] as int)
    &&& forall|q: int, p: int|
        is_core(sc, q) && seed_of(sc, q) == seed && labels[q] == Label::Cluster(c)
            && #[trigger] near(sc, q, p) ==> labels[p] is Cluster || frontier.contains(p as usize)
}

/// The number of points that hold no cluster yet.
pub open spec fn unclustered(labels: Seq<Label>) -> nat
    decreases labels.len(),
{
    if labels.len() == 0 {
        0
    } else {
        unclustered(labels.drop_last()) + if labels.last() is Cluster {
            0nat
        } else {
            1nat
        }
    }
}

/// Giving a cluster to a point that had none leaves one point fewer
/// without.
proof fn lemma_unclustered_drops(labels: Seq<Label>, p: int, c: u32)
    requires
        0 <= p < labels.len(),
        !(labels[p] is Cluster),
    ensures
        unclustered(labels.update(p, Label::Cluster(c))) + 1 == unclustered(labels),
    decreases labels.len(),
{
    let after = labels.update(p, Label::Cluster(c));
    if p == labels.len() - 1 {
        assert(after.drop_last() =~= labels.drop_last());
    } else {
        assert(after.drop_last() =~= labels.drop_last().update(p, Label::Cluster(c)));
        lemma_unclustered_drops(labels.drop_last(), p, c);
    }
}

/// Before the scan starts every point is undefined.
proof fn lemma_scan_start<const D: usize>(sc: Scene<D>, labels: Seq<Label>)
    requires
        labels.len() == sc.points.len(),
        forall|p: int| 0 <= p < labels.len() ==> labels[p] == Label::Undefined,
    ensures
        labels == scan_state(sc, 0),
        clusters_before(sc, 0) == 0,
{
    assert forall|p: int| 0 <= p < labels.len() implies labels[p] == scan_label(sc, 0, p) by {
        lemma_seed_of(sc, p);
    }
}

/// Passing a point that an earlier cluster holds changes nothing.
proof fn lemma_scan_skip<const D: usize>(sc: Scene<D>, i: int)
    requires
        0 <= i < sc.points.len(),
        seed_of(sc, i) < i,
    ensures
        scan_state(sc, i + 1) == scan_state(sc, i),
        clusters_before(sc, i + 1) == clusters_before(sc, i),
{
    assert forall|p: int| 0 <= p < sc.points.len() implies scan_label(sc, i + 1, p) == scan_label(
        sc,
        i,
        p,
    ) by {
        if seed_of(sc, p) == i {
            lemma_seed_opens(sc, p);
        }
    }
}

/// Passing a point that is no core point and that no cluster holds yet
/// leaves it as noise.
proof fn lemma_scan_noise<const D: usize>(sc: Scene<D>, i: int)
    requires
        0 <= i < sc.points.len(),
        !is_core(sc, i),
        seed_of(sc, i) >= i,
    ensures
        scan_state(sc, i + 1) == scan_state(sc, i).update(i, Label::Noise),
        clusters_before(sc, i + 1) == clusters_before(sc, i),
{
    assert forall|p: int| 0 <= p < sc.points.len() implies scan_label(sc, i + 1, p) == (if p == i {
        Label::Noise
    } else {
        scan_label(sc, i, p)
    }) by {
        lemma_seed_of(sc, p);
    }
}

/// A core point that the scan finds undefined opens a cluster, and growing
/// it starts from the neighbors of that point.
proof fn lemma_expand_start<const D: usize>(
    sc: Scene<D>,
    seed: int,
    c: u32,
    labels: Seq<Label>,
    neighbors: Seq<usize>,
)
    requires
        0 <= seed < sc.points.len(),
        sc.points.len() <= usize::MAX,
        labels == scan_state(sc, seed),
        labels[seed] == Label::Undefined,
        is_core(sc, seed),
        neighbors.to_set() == neighbor_set(sc.points, sc.radius, seed),
    ensures
        opens_cluster(sc, seed),
        expanding(sc, seed, c, labels.update(seed, Label::Cluster(c)), neighbors),
{
    lemma_reach_self(sc, seed);
    lemma_seed_at_most(sc, seed, seed);
    let after = labels.update(seed, Label::Cluster(c));
    assert forall|t: int| 0 <= t < neighbors.len() implies density_reachable(
        sc,
        seed,
        #[trigger] neighbors[t] as int,
    ) by {
        assert(neighbors.to_set().contains(neighbors[t]));
        lemma_reach_step(sc, seed, seed, neighbors[t] as int);
    }
    assert forall|q: int, p: int|
        is_core(sc, q) && seed_of(sc, q) == seed && after[q] == Label::Cluster(c)
            && #[trigger] near(sc, q, p) implies after[p] is Cluster || neighbors.contains(
        p as usize,
    ) by {
        assert(neighbor_set(sc.points, sc.radius, seed).contains(p as usize));
    }
}

/// What the frontier holds is reached by the seed, so it belongs to the
/// new cluster unless an earlier one holds it.
proof fn lemma_frontier_point<const D: usize>(
    sc: Scene<D>,
    seed: int,
    c: u32,
    labels: Seq<Label>,
    frontier: Seq<usize>,
)
    requires
        expanding(sc, seed, c, labels, frontier),
        frontier.len() > 0,
    ensures
        frontier.last() < labels.len(),
        !(labels[frontier.last() as int] is Cluster) ==> seed_of(sc, frontier.last() as int)
            == seed,
        labels[frontier.last() as int] == Label::Noise ==> !is_core(sc, frontier.last() as int),
{
    let f = frontier.last() as int;
    lemma_reachable_from_core(sc, seed, f);
    lemma_seed_of(sc, f);
    if labels[f] == Label::Noise && is_core(sc, f) {
        lemma_reach_self(sc, f);
    }
}

/// Taking a point off the frontier that holds a cluster already.
proof fn lemma_expand_skip<const D: usize>(
    sc: Scene<D>,
    seed: int,
    c: u32,
    labels: Seq<Label>,
    frontier: Seq<usize>,
)
    requires
        expanding(sc, seed, c, labels, frontier),
        frontier.len() > 0,
        frontier.last() < labels.len(),
        labels[frontier.last() as int] is Cluster,
    ensures
        expanding(sc, seed, c, labels, frontier.drop_last()),
{
    let rest = frontier.drop_last();
    assert forall|q: int, p: int|
        is_core(sc, q) && seed_of(sc, q) == seed && labels[q] == Label::Cluster(c)
            && #[trigger] near(sc, q, p) implies labels[p] is Cluster || rest.contains(
        p as usize,
    ) by {
        if !(labels[p] is Cluster) {
            let t = choose|t: int| 0 <= t < frontier.len() && frontier[t] == p as usize;
            assert(rest[t] == p as usize);
        }
    }
}

/// Taking a point off the frontier that joins the new cluster without
/// growing it: a border point.
proof fn lemma_expand_border<const D: usize>(
    sc: Scene<D>,
    seed: int,
    c: u32,
    labels: Seq<Label>,
    frontier: Seq<usize>,
)
    requires
        expanding(sc, seed, c, labels, frontier),
        frontier.len() > 0,
        frontier.last() < labels.len(),
        !(labels[frontier.last() as int] is Cluster),
        !is_core(sc, frontier.last() as int),
    ensures
        expanding(
            sc,
            seed,
            c,
            labels.update(frontier.last() as int, Label::Cluster(c)),
            frontier.drop_last(),
        ),
{
    let f = frontier.last() as int;
    let rest = frontier.drop_last();
    let after = labels.update(f, Label::Cluster(c));
    lemma_frontier_point(sc, seed, c, labels, frontier);
    assert forall|q: int, p: int|
        is_core(sc, q) && seed_of(sc, q) == seed && after[q] == Label::Cluster(c)
            && #[trigger] near(sc, q, p) implies after[p] is Cluster || rest.contains(
        p as usize,
    ) by {
        if p != f && !(labels[p] is Cluster) {
            let t = choose|t: int| 0 <= t < frontier.len() && frontier[t] == p as usize;
            assert(rest[t] == p as usize);
        }
    }
}

/// Taking a core point off the frontier: it joins the new cluster and its
/// neighbors join the frontier.
proof fn lemma_expand_core<const D: usize>(
    sc: Scene<D>,
    seed: int,
    c: u32,
    labels: Seq<Label>,
    frontier: Seq<usize>,
    neighbors: Seq<usize>,
)
    requires
        expanding(sc, seed, c, labels, frontier),
        frontier.len() > 0,
        frontier.last() < labels.len(),
        !(labels[frontier.last() as int] is Cluster),
        is_core(sc, frontier.last() as int),
        neighbors.to_set() == neighbor_set(sc.points, sc.radius, frontier.last() as int),
    ensures
        expanding(
            sc,
            seed,
            c,
            labels.update(frontier.last() as int, Label::Cluster(c)),
            frontier.drop_last() + neighbors,
        ),
{
    let f = frontier.last() as int;
    let rest = frontier.drop_last();
    let grown = rest + neighbors;
    let after = labels.update(f, Label::Cluster(c));
    lemma_frontier_point(sc, seed, c, labels, frontier);
    assert forall|t: int| 0 <= t < grown.len() implies density_reachable(
        sc,
        seed,
        #[trigger] grown[t] as int,
    ) by {
        if t >= rest.len() {
            let nb = neighbors[t - rest.len()];
            assert(neighbors.to_set().contains(nb));
            lemma_reach_step(sc, seed, f, nb as int);
        }
    }
    assert forall|q: int, p: int|
        is_core(sc, q) && seed_of(sc, q) == seed && after[q] == Label::Cluster(c)
            && #[trigger] near(sc, q, p) implies after[p] is Cluster || grown.contains(
        p as usize,
    ) by {
        if q == f {
            assert(neighbor_set(sc.points, sc.radius, f).contains(p as usize));
            let t = choose|t: int| 0 <= t < neighbors.len() && neighbors[t] == p as usize;
            assert(grown[rest.len() + t] == p as usize);
        } else if p != f && !(labels[p] is Cluster) {
            let t = choose|t: int| 0 <= t < frontier.len() && frontier[t] == p as usize;
            assert(grown[t] == p as usize);
        }
    }
}

/// With the frontier empty, whatever the seed reaches holds a cluster.
proof fn lemma_expansion_closed<const D: usize>(
    sc: Scene<D>,
    seed: int,
    c: u32,
    labels: Seq<Label>,
    p: int,
    steps: nat,
)
    requires
        expanding(sc, seed, c, labels, Seq::empty()),
        opens_cluster(sc, seed),
        expands_to(sc, seed, p, steps),
    ensures
        0 <= p < labels.len(),
        labels[p] is Cluster,
    decreases steps,
{
    if steps > 0 {
        let mid = choose|mid: int|
            expands_to(sc, seed, mid, (steps - 1) as nat) && is_core(sc, mid) && #[trigger] near(
                sc,
                mid,
                p,
            );
        lemma_expansion_closed(sc, seed, c, labels, mid, (steps - 1) as nat);
        lemma_seed_shared(sc, seed, mid);
    }
}

/// When the frontier is empty the cluster is complete, and the state is
/// that of a scan that has passed the seed.
proof fn lemma_expand_done<const D: usize>(sc: Scene<D>, seed: int, c: u32, labels: Seq<Label>)
    requires
        expanding(sc, seed, c, labels, Seq::empty()),
        opens_cluster(sc, seed),
        c == clusters_before(sc, seed) + 1,
    ensures
        labels == scan_state(sc, seed + 1),
        clusters_before(sc, seed + 1) == clusters_before(sc, seed) + 1,
{
    assert forall|p: int| 0 <= p < labels.len() implies labels[p] == scan_label(
        sc,
        seed + 1,
        p,
    ) by {
        lemma_seed_of(sc, p);
        if seed_of(sc, p) == seed {
            let steps = choose|steps: nat| expands_to(sc, seed, p, steps);
            lemma_expansion_closed(sc, seed, c, labels, p, steps);
        }
    }
}

/// The neighbors of point `idx` as the accelerator finds them.
fn neighbors_of<const D: usize>(
    accel: &QueryAccelerator<D>,
    points: &[[i32; D]],
    idx: usize,
    Ghost(sc): Ghost<Scene<D>>,
) -> (list: Vec<usize>)
    requires
        accel.indexes(points@),
        idx < points@.len(),
        sc.points == points@,
        sc.radius == accel.radius(),
    ensures
        list@.to_set() == neighbor_set(sc.points, sc.radius, idx as int),
        is_core(sc, idx as int) <==> list@.len() >= sc.min_pts,
{
    match accel.query_neighbors(points, idx) {
        Ok(list) => {
            proof {
                list@.unique_seq_to_set();
            }
            list
        },
        // not reached: the index was built from these points, and `idx`
        // names one of them
        Err(_) => Vec::new(),
    }
}

/// Grows the cluster that `seed` has opened until nothing is left to
/// visit.
///
/// Each point taken off the frontier joins the cluster unless it holds one
/// already. Only a point that had not been looked at before and turns out
/// to be a core point hands its own neighbors to the frontier; a border
/// point joins and ends the chain. The labels double as the record of what
/// has been visited: a point that has been taken off the frontier once
/// holds a cluster from then on and is passed over when it turns up again.
fn expand_cluster<const D: usize>(
    accel: &QueryAccelerator<D>,
    points: &[[i32; D]],
    min_pts: usize,
    label: &mut Vec<Label>,
    cluster: u32,
    frontier: Vec<usize>,
    Ghost(sc): Ghost<Scene<D>>,
    Ghost(seed): Ghost<int>,
)
    requires
        accel.indexes(points@),
        sc == scene(points@, accel.radius() as int, min_pts as nat),
        expanding(sc, seed, cluster, old(label)@, frontier@),
    ensures
        expanding(sc, seed, cluster, final(label)@, Seq::empty()),
{
    let mut queue = frontier;
    while queue.len() > 0
        invariant
            accel.indexes(points@),
            sc == scene(points@, accel.radius() as int, min_pts as nat),
            expanding(sc, seed, cluster, label@, queue@),
        decreases unclustered(label@), queue@.len(),
    {
        proof {
            lemma_frontier_point(sc, seed, cluster, label@, queue@);
        }
        let ghost before = queue@;
        let ghost labels = label@;
        let neighbor_idx = queue[queue.len() - 1];
        queue.pop();
        match label[neighbor_idx] {
            Label::Cluster(_) => {
                proof {
                    lemma_expand_skip(sc, seed, cluster, labels, before);
                }
            },
            Label::Noise => {
                label[neighbor_idx] = Label::Cluster(cluster);
                proof {
                    lemma_expand_border(sc, seed, cluster, labels, before);
                    lemma_unclustered_drops(labels, neighbor_idx as int, cluster);
                }
            },
            Label::Undefined => {
                label[neighbor_idx] = Label::Cluster(cluster);
                let mut neighbors = neighbors_of(accel, points, neighbor_idx, Ghost(sc));
                proof {
                    lemma_unclustered_drops(labels, neighbor_idx as int, cluster);
                }
                if neighbors.len() >= min_pts {
                    proof {
                        lemma_expand_core(sc, seed, cluster, labels, before, neighbors@);
                    }
                    queue.append(&mut neighbors);
                } else {
                    proof {
                        lemma_expand_border(sc, seed, cluster, labels, before);
                    }
                }
            },
        }
    }
}

/// Clusters `points` by density.
///
/// A point with at least `min_pts` other points within `radius` of it is a
/// core point. The points are visited in index order; a core point that
/// holds no cluster yet opens the next one, numbered from one, and the
/// cluster takes in all that is density-reachable from it. A point that is
/// no core point joins the first cluster found that has a core point within
/// `radius` of it, and is noise where there is none.
///
/// Fails with [`Error::Config`] unless `radius` is positive and `min_pts`
/// at least one, and with [`Error::Input`] if a coordinate lies off the
/// lattice. Cluster numbers are `u32`, so there may be no more points than
/// that type can count.
pub fn dbscan<const D: usize>(points: &[[i32; D]], radius: i32, min_pts: usize) -> (result: Result<
    Vec<Label>,
    Error,
>)
    requires
        points@.len() <= u32::MAX,
    ensures
        match result {
            Ok(labels) => {
                &&& radius > 0
                &&& min_pts >= 1
                &&& all_on_lattice(points@)
                &&& labels@ == clustering(scene(points@, radius as int, min_pts as nat))
                &&& forall|p: int| 0 <= p < labels@.len() ==> labels@[p] != Label::Undefined
            },
            Err(e) => if radius <= 0 || min_pts < 1 {
                e == Error::Config
            } else {
                e == Error::Input && !all_on_lattice(points@)
            },
        },
{
    if min_pts < 1 {
        return Err(Error::Config);
    }
    let accel = match QueryAccelerator::new(points, radius) {
        Ok(accel) => accel,
        Err(e) => {
            return Err(e);
        },
    };
    let ghost sc = scene(points@, radius as int, min_pts as nat);
    let mut label: Vec<Label> = Vec::new();
    while label.len() < points.len()
        invariant
            label@.len() <= points@.len(),
            forall|p: int| 0 <= p < label@.len() ==> label@[p] == Label::Undefined,
        decreases points@.len() - label@.len(),
    {
        label.push(Label::Undefined);
    }
    proof {
        lemma_scan_start(sc, label@);
    }
    let mut current_cluster: u32 = 0;
    let mut point_idx: usize = 0;
    while point_idx < points.len()
        invariant
            point_idx <= points@.len(),
            points@.len() <= u32::MAX,
            accel.indexes(points@),
            accel.radius() == radius,
            sc == scene(points@, radius as int, min_pts as nat),
            label@ == scan_state(sc, point_idx as int),
            current_cluster == clusters_before(sc, point_idx as int),
        decreases points@.len() - point_idx,
    {
        proof {
            lemma_clusters_before(sc, point_idx as int, point_idx as int);
        }
        match label[point_idx] {
            Label::Undefined => {
                let neighbors = neighbors_of(&accel, points, point_idx, Ghost(sc));
                if neighbors.len() < min_pts {
                    label[point_idx] = Label::Noise;
                    proof {
                        lemma_scan_noise(sc, point_idx as int);
                    }
                } else {
                    current_cluster = current_cluster + 1;
                    proof {
                        lemma_expand_start(
                            sc,
                            point_idx as int,
                            current_cluster,
                            label@,
                            neighbors@,
                        );
                    }
                    label[point_idx] = Label::Cluster(current_cluster);
                    expand_cluster(
                        &accel,
                        points,
                        min_pts,
                        &mut label,
                        current_cluster,
                        neighbors,
                        Ghost(sc),
                        Ghost(point_idx as int),
                    );
                    proof {
                        lemma_expand_done(sc, point_idx as int, current_cluster, label@);
                    }
                }
            },
            _ => {
                proof {
                    lemma_scan_skip(sc, point_idx as int);
                }
            },
        }
        point_idx += 1;
    }
    Ok(label)
}

} // verus!
