//! Every combination of evenly spaced values over a fixed number of axes,
//! and with it the offsets from a grid cell to the cells that touch it.

use vstd::prelude::*;
use vstd::arithmetic::div_mod::{lemma_fundamental_div_mod, lemma_fundamental_div_mod_converse};
use vstd::arithmetic::power::pow;

verus! {

/// How many values an axis runs through from `min` to `max` in steps of
/// `step`.
pub open spec fn combo_base(min: int, max: int, step: int) -> int {
    (max - min) / step + 1
}

/// Whether every coordinate of `v` is one of the values `min`, `min + step`,
/// ..., `max`.
pub open spec fn is_combo(v: Seq<i32>, min: int, max: int, step: int) -> bool {
    forall|i: int|
        0 <= i < v.len() ==> min <= #[trigger] v[i] <= max && (v[i] - min) % step == 0
}

/// The place of `v` among the combinations: its coordinates, counted in
/// steps from `min`, read as the digits of a number in base `base`, the
/// first axis least significant.
pub open spec fn combo_rank(v: Seq<i32>, min: int, step: int, base: int) -> int
    decreases v.len(),
{
    if v.len() == 0 {
        0
    } else {
        (v[0] - min) / step + base * combo_rank(v.skip(1), min, step, base)
    }
}

/// The combination over `n` axes that stands at place `k`.
pub open spec fn combo_at(k: int, n: nat, min: int, step: int, base: int) -> Seq<i32>
    decreases n,
{
    if n == 0 {
        Seq::empty()
    } else {
        seq![(min + step * (k % base)) as i32] + combo_at(
            k / base,
            (n - 1) as nat,
            min,
            step,
            base,
        )
    }
}

/// The offset over `n` axes that stands at place `k` of the neighborhood.
pub open spec fn offset_at(k: int, n: nat) -> Seq<i32> {
    combo_at(k, n, -1, 1, 3)
}

/// The number of steps from `min` to a value of the axis is a digit of the
/// base, and leads back to the value.
proof fn lemma_digit(x: int, min: int, max: int, step: int)
    requires
        step > 0,
        min <= x <= max,
        (x - min) % step == 0,
        (max - min) % step == 0,
    ensures
        0 <= (x - min) / step < combo_base(min, max, step),
        min + step * ((x - min) / step) == x,
        x == max <==> (x - min) / step == combo_base(min, max, step) - 1,
        x < max ==> x + step <= max && (x + step - min) % step == 0 && (x + step - min) / step == (x
            - min) / step + 1,
{
    let d = (x - min) / step;
    let top = (max - min) / step;
    lemma_fundamental_div_mod(x - min, step);
    lemma_fundamental_div_mod(max - min, step);
    assert(0 <= d <= top && (d == top <==> x == max)) by (nonlinear_arith)
        requires
            x - min == step * d,
            max - min == step * top,
            step > 0,
            min <= x <= max,
    ;
    if x < max {
        assert(x + step <= max) by (nonlinear_arith)
            requires
                x - min == step * d,
                max - min == step * top,
                step > 0,
                d < top,
        ;
        assert(x + step - min == (d + 1) * step + 0) by (nonlinear_arith)
            requires
                x - min == step * d,
        ;
        lemma_fundamental_div_mod_converse(x + step - min, step, d + 1, 0);
    }
}

/// A combination stands at a place below the number of combinations.
pub proof fn lemma_combo_rank_bounds(v: Seq<i32>, min: int, max: int, step: int)
    requires
        step > 0,
        min <= max,
        (max - min) % step == 0,
        is_combo(v, min, max, step),
    ensures
        0 <= combo_rank(v, min, step, combo_base(min, max, step)) < pow(
            combo_base(min, max, step),
            v.len(),
        ),
    decreases v.len(),
{
    let base = combo_base(min, max, step);
    reveal(pow);
    if v.len() > 0 {
        lemma_digit(v[0] as int, min, max, step);
        let rest = v.skip(1);
        lemma_combo_rank_bounds(rest, min, max, step);
        let d = (v[0] - min) / step;
        let r = combo_rank(rest, min, step, base);
        let p = pow(base, rest.len());
        assert(0 <= d + base * r < base * p) by (nonlinear_arith)
            requires
                0 <= d < base,
                0 <= r < p,
        ;
    }
}

/// The last combination, every axis at `max`, stands at the last place.
proof fn lemma_combo_rank_of_last(v: Seq<i32>, min: int, max: int, step: int)
    requires
        step > 0,
        min <= max,
        (max - min) % step == 0,
        forall|i: int| 0 <= i < v.len() ==> v[i] == max,
    ensures
        combo_rank(v, min, step, combo_base(min, max, step)) == pow(
            combo_base(min, max, step),
            v.len(),
        ) - 1,
    decreases v.len(),
{
    let base = combo_base(min, max, step);
    reveal(pow);
    if v.len() > 0 {
        let rest = v.skip(1);
        lemma_combo_rank_of_last(rest, min, max, step);
        let r = combo_rank(rest, min, step, base);
        let p = pow(base, rest.len());
        assert((base - 1) + base * r == base * p - 1) by (nonlinear_arith)
            requires
                r == p - 1,
        ;
    }
}

/// Stepping a combination on as a counter does, the axes below `i` falling
/// back from `max` to `min` and axis `i` moving up one step, leads to the
/// next place.
proof fn lemma_combo_rank_step(
    before: Seq<i32>,
    after: Seq<i32>,
    i: int,
    min: int,
    max: int,
    step: int,
)
    requires
        step > 0,
        min <= max,
        (max - min) % step == 0,
        is_combo(before, min, max, step),
        before.len() == after.len(),
        0 <= i < before.len(),
        forall|t: int| 0 <= t < i ==> before[t] == max && after[t] == min,
        before[i] < max,
        after[i] == before[i] + step,
        forall|t: int| i < t < before.len() ==> after[t] == before[t],
    ensures
        combo_rank(after, min, step, combo_base(min, max, step)) == combo_rank(
            before,
            min,
            step,
            combo_base(min, max, step),
        ) + 1,
    decreases i,
{
    let base = combo_base(min, max, step);
    lemma_digit(before[0] as int, min, max, step);
    if i == 0 {
        assert(after.skip(1) =~= before.skip(1));
    } else {
        let b = before.skip(1);
        let a = after.skip(1);
        lemma_combo_rank_step(b, a, i - 1, min, max, step);
        let rb = combo_rank(b, min, step, base);
        let ra = combo_rank(a, min, step, base);
        assert(0 + base * ra == (base - 1) + base * rb + 1) by (nonlinear_arith)
            requires
                ra == rb + 1,
        ;
    }
}

/// A combination is the one that stands at its place.
pub proof fn lemma_combo_at_rank(v: Seq<i32>, min: int, max: int, step: int)
    requires
        step > 0,
        min <= max,
        (max - min) % step == 0,
        is_combo(v, min, max, step),
    ensures
        combo_at(
            combo_rank(v, min, step, combo_base(min, max, step)),
            v.len(),
            min,
            step,
            combo_base(min, max, step),
        ) == v,
    decreases v.len(),
{
    let base = combo_base(min, max, step);
    let k = combo_rank(v, min, step, base);
    if v.len() > 0 {
        lemma_digit(v[0] as int, min, max, step);
        let rest = v.skip(1);
        lemma_combo_at_rank(rest, min, max, step);
        let d = (v[0] - min) / step;
        let r = combo_rank(rest, min, step, base);
        assert(k == r * base + d) by (nonlinear_arith)
            requires
                k == d + base * r,
        ;
        lemma_fundamental_div_mod_converse(k, base, r, d);
    }
}

/// What stands at a place below the number of combinations is a
/// combination, and that place is its own.
pub proof fn lemma_combo_rank_at(k: int, n: nat, min: int, max: int, step: int)
    requires
        step > 0,
        min <= max,
        (max - min) % step == 0,
        0 <= k < pow(combo_base(min, max, step), n),
        max <= i32::MAX,
        i32::MIN <= min,
    ensures
        combo_at(k, n, min, step, combo_base(min, max, step)).len() == n,
        is_combo(combo_at(k, n, min, step, combo_base(min, max, step)), min, max, step),
        combo_rank(
            combo_at(k, n, min, step, combo_base(min, max, step)),
            min,
            step,
            combo_base(min, max, step),
        ) == k,
    decreases n,
{
    let base = combo_base(min, max, step);
    let v = combo_at(k, n, min, step, base);
    reveal(pow);
    if n > 0 {
        lemma_fundamental_div_mod(max - min, step);
        let top = (max - min) / step;
        lemma_fundamental_div_mod(k, base);
        let d = k % base;
        let q = k / base;
        let p = pow(base, (n - 1) as nat);
        assert(0 <= q < p) by (nonlinear_arith)
            requires
                k == base * q + d,
                0 <= d < base,
                0 <= k < base * p,
        ;
        lemma_combo_rank_at(q, (n - 1) as nat, min, max, step);
        let rest = combo_at(q, (n - 1) as nat, min, step, base);
        let x = min + step * d;
        assert(min <= x <= max) by (nonlinear_arith)
            requires
                x == min + step * d,
                0 <= d <= top,
                step > 0,
                max - min == step * top,
        ;
        lemma_fundamental_div_mod_converse(x - min, step, d, 0);
        assert(v.skip(1) =~= rest);
    }
}

/// Lists every combination of the values `min`, `min + step`, ..., `max`
/// over `D` axes, each once: the first axis runs fastest, so the entry at
/// place `k` spells `k` in the base given by the number of values.
///
/// `step` must be positive and lead from `min` exactly onto `max`; a step
/// that jumps over `max` would never close the list.
pub fn combos<const D: usize>(min: i32, max: i32, step: i32) -> (list: Vec<[i32; D]>)
    requires
        step > 0,
        min <= max,
        (max - min) % (step as int) == 0,
    ensures
        list@.len() == pow(combo_base(min as int, max as int, step as int), D as nat),
        forall|k: int|
            0 <= k < list@.len() ==> (#[trigger] list@[k])@ == combo_at(
                k,
                D as nat,
                min as int,
                step as int,
                combo_base(min as int, max as int, step as int),
            ),
{
    let ghost base = combo_base(min as int, max as int, step as int);
    let mut dims = [min; D];
    let mut combos: Vec<[i32; D]> = Vec::new();
    proof {
        lemma_combo_rank_of_first(dims@, min as int, step as int, base);
        lemma_combo_rank_bounds(dims@, min as int, max as int, step as int);
    }
    loop
        invariant_except_break
            combo_rank(dims@, min as int, step as int, base) == combos@.len(),
        invariant
            step > 0,
            min <= max,
            (max - min) % (step as int) == 0,
            base == combo_base(min as int, max as int, step as int),
            is_combo(dims@, min as int, max as int, step as int),
            combos@.len() <= pow(base, D as nat),
            forall|k: int|
                0 <= k < combos@.len() ==> is_combo(
                    (#[trigger] combos@[k])@,
                    min as int,
                    max as int,
                    step as int,
                ) && combo_rank(combos@[k]@, min as int, step as int, base) == k,
        ensures
            combos@.len() == pow(base, D as nat),
        decreases pow(base, D as nat) - combos@.len(),
    {
        proof {
            lemma_combo_rank_bounds(dims@, min as int, max as int, step as int);
        }
        combos.push(dims);
        let ghost listed = dims@;
        let mut i: usize = 0;
        let mut advanced = false;
        while i < D && !advanced
            invariant
                i <= D,
                step > 0,
                min <= max,
                (max - min) % (step as int) == 0,
                base == combo_base(min as int, max as int, step as int),
                is_combo(listed, min as int, max as int, step as int),
                is_combo(dims@, min as int, max as int, step as int),
                listed.len() == D,
                !advanced ==> forall|t: int| 0 <= t < i ==> listed[t] == max && dims@[t] == min,
                !advanced ==> forall|t: int| i <= t < D ==> dims@[t] == listed[t],
                advanced ==> combo_rank(dims@, min as int, step as int, base) == combo_rank(
                    listed,
                    min as int,
                    step as int,
                    base,
                ) + 1,
            decreases D - i, if advanced { 0int } else { 1int },
        {
            if dims[i] < max {
                proof {
                    lemma_digit(dims@[i as int] as int, min as int, max as int, step as int);
                }
                let ghost stale = dims@;
                dims[i] = dims[i] + step;
                advanced = true;
                proof {
                    assert(is_combo(dims@, min as int, max as int, step as int));
                    lemma_combo_rank_step(
                        listed,
                        dims@,
                        i as int,
                        min as int,
                        max as int,
                        step as int,
                    );
                }
            } else {
                dims[i] = min;
                proof {
                    lemma_fundamental_div_mod_converse(0, step as int, 0, 0);
                }
                i += 1;
            }
        }
        if !advanced {
            proof {
                lemma_combo_rank_of_last(listed, min as int, max as int, step as int);
            }
            break ;
        }
    }
    proof {
        assert forall|k: int| 0 <= k < combos@.len() implies (#[trigger] combos@[k])@ == combo_at(
            k,
            D as nat,
            min as int,
            step as int,
            base,
        ) by {
            lemma_combo_at_rank(combos@[k]@, min as int, max as int, step as int);
        }
    }
    combos
}

/// The first combination, every axis at `min`, stands at place zero.
proof fn lemma_combo_rank_of_first(v: Seq<i32>, min: int, step: int, base: int)
    requires
        step > 0,
        forall|i: int| 0 <= i < v.len() ==> v[i] == min,
    ensures
        combo_rank(v, min, step, base) == 0,
    decreases v.len(),
{
    if v.len() > 0 {
        lemma_combo_rank_of_first(v.skip(1), min, step, base);
    }
}

/// Lists the offsets from a grid cell to itself and to every cell that
/// touches it: all vectors over `D` axes with coordinates -1, 0 or 1, each
/// once, the first axis running fastest.
pub fn neighborhood<const D: usize>() -> (list: Vec<[i32; D]>)
    ensures
        list@.len() == pow(3, D as nat),
        forall|k: int| 0 <= k < list@.len() ==> (#[trigger] list@[k])@ == offset_at(k, D as nat),
{
    combos(-1, 1, 1)
}

} // verus!
