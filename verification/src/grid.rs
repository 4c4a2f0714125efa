//! The grid laid over the lattice: cells whose side is the query radius, the
//! key of the cell that holds a point, and the hash under which a key is
//! filed.

use vstd::prelude::*;
use vstd::arithmetic::div_mod::{lemma_fundamental_div_mod, lemma_fundamental_div_mod_converse};

verus! {

/// The largest magnitude a coordinate may have.
///
/// The values beyond it are what a saturating conversion leaves of a
/// position too far out to represent; a point that carries one lies off the
/// lattice. Keeping them out also leaves room for the cells next to the
/// outermost occupied one.
pub const COORD_LIMIT: i32 = 2147483646;

/// Whether a coordinate lies on the lattice.
pub open spec fn on_lattice(c: i32) -> bool {
    -COORD_LIMIT <= c <= COORD_LIMIT
}

/// Whether every coordinate of a point lies on the lattice.
pub open spec fn point_on_lattice(p: Seq<i32>) -> bool {
    forall|i: int| 0 <= i < p.len() ==> on_lattice(#[trigger] p[i])
}

/// The grid coordinate of lattice coordinate `c`: the number of whole cells
/// of side `radius` between the origin and `c`, rounded down.
pub open spec fn cell_coord(c: i32, radius: i32) -> i32 {
    (c as int / radius as int) as i32
}

/// The key of the cell that holds point `p`.
pub open spec fn spec_quantize(p: Seq<i32>, radius: i32) -> Seq<i32> {
    Seq::new(p.len(), |i: int| cell_coord(p[i], radius))
}

/// Whether the sum of `a` and `b` can be formed axis by axis.
pub open spec fn add_fits(a: Seq<i32>, b: Seq<i32>) -> bool {
    forall|i: int| 0 <= i < a.len() ==> i32::MIN <= #[trigger] a[i] + b[i] <= i32::MAX
}

/// The sum of `a` and `b`, axis by axis.
pub open spec fn spec_add(a: Seq<i32>, b: Seq<i32>) -> Seq<i32> {
    Seq::new(a.len(), |i: int| (a[i] + b[i]) as i32)
}

/// Rounding down puts a coordinate into the cell whose span holds it, and
/// the grid coordinate of a lattice coordinate is no larger in magnitude
/// than the coordinate itself.
pub proof fn lemma_cell_coord_span(c: i32, radius: i32)
    requires
        radius > 0,
    ensures
        cell_coord(c, radius) == c as int / radius as int,
        cell_coord(c, radius) * radius <= c < (cell_coord(c, radius) + 1) * radius,
        on_lattice(c) ==> on_lattice(cell_coord(c, radius)),
{
    let q = c as int / radius as int;
    let m = c as int % radius as int;
    lemma_fundamental_div_mod(c as int, radius as int);
    assert(q * radius <= c < (q + 1) * radius) by (nonlinear_arith)
        requires
            c == radius * q + m,
            0 <= m < radius,
    ;
    assert((c >= 0 ==> 0 <= q <= c) && (c < 0 ==> c <= q < 0)) by (nonlinear_arith)
        requires
            q * radius <= c < (q + 1) * radius,
            radius >= 1,
    ;
}

/// Two coordinates no further apart than the cell side lie in the same cell
/// or in adjacent ones.
pub proof fn lemma_close_coords_adjacent_cells(a: i32, b: i32, radius: i32)
    requires
        radius > 0,
        -radius <= a - b <= radius,
    ensures
        -1 <= cell_coord(a, radius) - cell_coord(b, radius) <= 1,
{
    lemma_cell_coord_span(a, radius);
    lemma_cell_coord_span(b, radius);
    let qa = cell_coord(a, radius) as int;
    let qb = cell_coord(b, radius) as int;
    assert(qa - qb <= 1) by (nonlinear_arith)
        requires
            qa * radius <= a,
            b < (qb + 1) * radius,
            a - b <= radius,
            radius > 0,
    ;
    assert(qb - qa <= 1) by (nonlinear_arith)
        requires
            qb * radius <= b,
            a < (qa + 1) * radius,
            b - a <= radius,
            radius > 0,
    ;
}

/// The grid coordinate of `c` for cells of side `radius`.
pub fn floor_div(c: i32, radius: i32) -> (q: i32)
    requires
        radius > 0,
    ensures
        q == cell_coord(c, radius),
{
    let quotient = c / radius;
    let remainder = c % radius;
    proof {
        lemma_cell_coord_span(c, radius);
        if c < 0 {
            let m = (-c) as int;
            lemma_fundamental_div_mod(m, radius as int);
            let tq = m / radius as int;
            let tr = m % radius as int;
            if tr == 0 {
                assert(c == (-tq) * radius + 0) by (nonlinear_arith)
                    requires
                        m == radius * tq + tr,
                        tr == 0,
                        c == -m,
                ;
                lemma_fundamental_div_mod_converse(c as int, radius as int, -tq, 0);
            } else {
                assert(c == (-tq - 1) * radius + (radius - tr)) by (nonlinear_arith)
                    requires
                        m == radius * tq + tr,
                        c == -m,
                ;
                lemma_fundamental_div_mod_converse(
                    c as int,
                    radius as int,
                    -tq - 1,
                    radius - tr,
                );
            }
        }
    }
    if remainder < 0 {
        quotient - 1
    } else {
        quotient
    }
}

/// Maps a point to the key of the grid cell that holds it, for cells of side
/// `radius`.
pub fn quantize<const D: usize>(p: [i32; D], radius: i32) -> (key: [i32; D])
    requires
        radius > 0,
    ensures
        key@ == spec_quantize(p@, radius),
{
    let mut key = p;
    let mut i: usize = 0;
    while i < D
        invariant
            i <= D,
            radius > 0,
            forall|j: int| 0 <= j < i ==> key@[j] == cell_coord(p@[j], radius),
            forall|j: int| i <= j < D ==> key@[j] == p@[j],
        decreases D - i,
    {
        key[i] = floor_div(p[i], radius);
        i += 1;
    }
    key
}

/// Adds `b` to `a`, axis by axis.
pub fn add<const D: usize>(a: [i32; D], b: [i32; D]) -> (sum: [i32; D])
    requires
        add_fits(a@, b@),
    ensures
        sum@ == spec_add(a@, b@),
{
    let mut sum = a;
    let mut i: usize = 0;
    while i < D
        invariant
            i <= D,
            add_fits(a@, b@),
            forall|j: int| 0 <= j < i ==> sum@[j] == a@[j] + b@[j],
            forall|j: int| i <= j < D ==> sum@[j] == a@[j],
        decreases D - i,
    {
        sum[i] = sum[i] + b[i];
        i += 1;
    }
    sum
}

/// Whether every coordinate of a point lies on the lattice.
pub fn is_on_lattice<const D: usize>(p: &[i32; D]) -> (ok: bool)
    ensures
        ok == point_on_lattice(p@),
{
    let mut i: usize = 0;
    while i < D
        invariant
            i <= D,
            forall|j: int| 0 <= j < i ==> on_lattice(#[trigger] p@[j]),
        decreases D - i,
    {
        if p[i] < -COORD_LIMIT || p[i] > COORD_LIMIT {
            return false;
        }
        i += 1;
    }
    true
}

/// Where the hash of a key starts.
pub const HASH_SEED: u64 = 0xcbf29ce484222325;

/// The multiplier that spreads each coordinate over the hash.
pub const HASH_PRIME: u64 = 0x100000001b3;

/// The hash after one more coordinate has been worked into it.
pub open spec fn spec_mix(h: u64, c: i32) -> u64 {
    (h ^ (c as u32 as u64)).wrapping_mul(HASH_PRIME)
}

/// The combined hash of all coordinates of a cell key.
pub open spec fn spec_hash_key(key: Seq<i32>) -> u64
    decreases key.len(),
{
    if key.len() == 0 {
        HASH_SEED
    } else {
        spec_mix(spec_hash_key(key.drop_last()), key.last())
    }
}

/// Hashes a cell key: all of its coordinates worked into one number, so
/// that equal keys have equal hashes.
pub fn hash_key<const D: usize>(key: &[i32; D]) -> (h: u64)
    ensures
        h == spec_hash_key(key@),
{
    let mut h: u64 = HASH_SEED;
    let mut i: usize = 0;
    while i < D
        invariant
            i <= D,
            h == spec_hash_key(key@.take(i as int)),
        decreases D - i,
    {
        assert(key@.take(i as int + 1).drop_last() == key@.take(i as int));
        h = (h ^ (key[i] as u32 as u64)).wrapping_mul(HASH_PRIME);
        i += 1;
    }
    assert(key@.take(D as int) == key@);
    h
}

/// Whether two keys name the same cell.
pub fn same_key<const D: usize>(a: &[i32; D], b: &[i32; D]) -> (same: bool)
    ensures
        same == (a@ == b@),
{
    let mut i: usize = 0;
    while i < D
        invariant
            i <= D,
            forall|j: int| 0 <= j < i ==> a@[j] == b@[j],
        decreases D - i,
    {
        if a[i] != b[i] {
            return false;
        }
        i += 1;
    }
    assert(a@ =~= b@);
    true
}

} // verus!
