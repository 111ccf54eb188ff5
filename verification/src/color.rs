//! Color points, cluster centroids, and the exact integer arithmetic the
//! clustering pipeline is built on.
//!
//! A centroid is stored as an exact per-channel rational: the channel sums
//! of its members over the member count. All Euclidean-distance
//! comparisons are made on squared distances, cross-multiplied by the
//! denominators, so that every comparison of the metric is exact — the
//! square root is monotonic, so ordering squared distances orders the
//! distances themselves.

use vstd::prelude::*;

verus! {

/// One RGB color sample, alpha already dropped; immutable once extracted.
#[derive(Clone, Copy, Debug, PartialEq, Eq, Structural)]
pub struct ColorPoint {
    pub r: u8,
    pub g: u8,
    pub b: u8,
}

/// A cluster centroid: per channel the exact arithmetic mean
/// `sum / count` of its members. `count >= 1` always; an empty cluster
/// keeps its previous centroid.
#[derive(Clone, Copy, Debug, PartialEq, Eq, Structural)]
pub struct Centroid {
    pub sum_r: u64,
    pub sum_g: u64,
    pub sum_b: u64,
    pub count: u64,
}

/// Well-formedness of a centroid: at least one member, no more members
/// than the sampling cap, and channel sums bounded by 255 per member.
pub open spec fn centroid_wf(c: Centroid) -> bool {
    &&& 1 <= c.count <= 1000
    &&& c.sum_r <= 255 * c.count
    &&& c.sum_g <= 255 * c.count
    &&& c.sum_b <= 255 * c.count
}

pub open spec fn centroids_wf(cs: Seq<Centroid>) -> bool {
    forall|i: int| 0 <= i < cs.len() ==> centroid_wf(#[trigger] cs[i])
}

pub open spec fn sq(x: int) -> int {
    x * x
}

/// Squared Euclidean distance between two integer color points.
pub open spec fn dist2_points(p: ColorPoint, q: ColorPoint) -> int {
    sq(p.r as int - q.r as int) + sq(p.g as int - q.g as int) + sq(p.b as int - q.b as int)
}

/// Numerator of the squared Euclidean distance from an integer point to a
/// rational centroid, over the denominator `count^2`.
pub open spec fn dist2_num(p: ColorPoint, c: Centroid) -> int {
    sq(p.r as int * c.count as int - c.sum_r as int) + sq(
        p.g as int * c.count as int - c.sum_g as int,
    ) + sq(p.b as int * c.count as int - c.sum_b as int)
}

/// `dist(p, c1) < dist(p, c2)`, decided exactly by cross-multiplying the
/// two rationals' numerators with the opposite denominators.
pub open spec fn closer_than(p: ColorPoint, c1: Centroid, c2: Centroid) -> bool {
    dist2_num(p, c1) * sq(c2.count as int) < dist2_num(p, c2) * sq(c1.count as int)
}

/// `dist(c1, c2) <= 1`: the squared distance between the two rational
/// centroids, cross-multiplied, compared against the squared product of
/// the denominators. This is the convergence threshold of one unit of
/// Euclidean distance per centroid.
pub open spec fn within_unit(c1: Centroid, c2: Centroid) -> bool {
    sq(c1.sum_r as int * c2.count as int - c2.sum_r as int * c1.count as int) + sq(
        c1.sum_g as int * c2.count as int - c2.sum_g as int * c1.count as int,
    ) + sq(c1.sum_b as int * c2.count as int - c2.sum_b as int * c1.count as int) <= sq(
        c1.count as int * c2.count as int,
    )
}

/// A centroid channel rounded to the nearest integer (halves up):
/// `round(s / n)` for nonnegative `s` and positive `n`.
pub open spec fn rounded_channel(s: int, n: int) -> int {
    (2 * s + n) / (2 * n)
}

pub proof fn lemma_mul_bounds(a: int, b: int, amax: int, bmax: int)
    by (nonlinear_arith)
    requires
        0 <= a <= amax,
        0 <= b <= bmax,
    ensures
        0 <= a * b <= amax * bmax,
{
}

pub proof fn lemma_sq_bounds(x: int, m: int)
    by (nonlinear_arith)
    requires
        -m <= x <= m,
        0 <= m,
    ensures
        0 <= sq(x) <= m * m,
{
}

/// A rounded mean of byte values is itself a byte value.
pub proof fn lemma_rounded_channel_bounds(s: int, n: int)
    requires
        1 <= n,
        0 <= s <= 255 * n,
    ensures
        0 <= rounded_channel(s, n) <= 255,
{
    assert(2 * s + n < (2 * n) * 256) by (nonlinear_arith)
        requires
            1 <= n,
            s <= 255 * n,
    ;
    vstd::arithmetic::div_mod::lemma_multiply_divide_lt(2 * s + n, 2 * n, 256);
    assert(rounded_channel(s, n) < 256);
    assert(0 <= (2 * s + n) / (2 * n)) by (nonlinear_arith)
        requires
            1 <= n,
            0 <= s,
    ;
}

/// Exact squared distance between two color points.
pub fn squared_distance(p: ColorPoint, q: ColorPoint) -> (d: u64)
    ensures
        d as int == dist2_points(p, q),
        d <= 195_075,
{
    let dr = (p.r as i64) - (q.r as i64);
    let dg = (p.g as i64) - (q.g as i64);
    let db = (p.b as i64) - (q.b as i64);
    proof {
        lemma_sq_bounds(dr as int, 255);
        lemma_sq_bounds(dg as int, 255);
        lemma_sq_bounds(db as int, 255);
    }
    (dr * dr + dg * dg + db * db) as u64
}

/// Numerator of the squared distance from point to centroid.
fn dist2_num_exec(p: ColorPoint, c: &Centroid) -> (d: u64)
    requires
        centroid_wf(*c),
    ensures
        d as int == dist2_num(p, *c),
        d <= 195_075_000_000,
{
    proof {
        lemma_mul_bounds(p.r as int, c.count as int, 255, 1000);
        lemma_mul_bounds(p.g as int, c.count as int, 255, 1000);
        lemma_mul_bounds(p.b as int, c.count as int, 255, 1000);
    }
    let dr = (p.r as i64) * (c.count as i64) - (c.sum_r as i64);
    let dg = (p.g as i64) * (c.count as i64) - (c.sum_g as i64);
    let db = (p.b as i64) * (c.count as i64) - (c.sum_b as i64);
    proof {
        lemma_sq_bounds(dr as int, 255_000);
        lemma_sq_bounds(dg as int, 255_000);
        lemma_sq_bounds(db as int, 255_000);
    }
    (dr * dr + dg * dg + db * db) as u64
}

/// Exact comparison `dist(p, c1) < dist(p, c2)` on rational centroids.
pub fn closer_than_exec(p: ColorPoint, c1: &Centroid, c2: &Centroid) -> (r: bool)
    requires
        centroid_wf(*c1),
        centroid_wf(*c2),
    ensures
        r == closer_than(p, *c1, *c2),
{
    let n1 = dist2_num_exec(p, c1);
    let n2 = dist2_num_exec(p, c2);
    proof {
        lemma_mul_bounds(c1.count as int, c1.count as int, 1000, 1000);
        lemma_mul_bounds(c2.count as int, c2.count as int, 1000, 1000);
    }
    let q1 = c1.count * c1.count;
    let q2 = c2.count * c2.count;
    proof {
        lemma_mul_bounds(n1 as int, q2 as int, 195_075_000_000, 1_000_000);
        lemma_mul_bounds(n2 as int, q1 as int, 195_075_000_000, 1_000_000);
    }
    n1 * q2 < n2 * q1
}

/// Exact test `dist(c1, c2) <= 1` on rational centroids.
pub fn within_unit_exec(c1: &Centroid, c2: &Centroid) -> (r: bool)
    requires
        centroid_wf(*c1),
        centroid_wf(*c2),
    ensures
        r == within_unit(*c1, *c2),
{
    proof {
        lemma_mul_bounds(c1.sum_r as int, c2.count as int, 255_000, 1000);
        lemma_mul_bounds(c2.sum_r as int, c1.count as int, 255_000, 1000);
        lemma_mul_bounds(c1.sum_g as int, c2.count as int, 255_000, 1000);
        lemma_mul_bounds(c2.sum_g as int, c1.count as int, 255_000, 1000);
        lemma_mul_bounds(c1.sum_b as int, c2.count as int, 255_000, 1000);
        lemma_mul_bounds(c2.sum_b as int, c1.count as int, 255_000, 1000);
        lemma_mul_bounds(c1.count as int, c2.count as int, 1000, 1000);
    }
    let dr = (c1.sum_r as i64) * (c2.count as i64) - (c2.sum_r as i64) * (c1.count as i64);
    let dg = (c1.sum_g as i64) * (c2.count as i64) - (c2.sum_g as i64) * (c1.count as i64);
    let db = (c1.sum_b as i64) * (c2.count as i64) - (c2.sum_b as i64) * (c1.count as i64);
    proof {
        lemma_sq_bounds(dr as int, 255_000_000);
        lemma_sq_bounds(dg as int, 255_000_000);
        lemma_sq_bounds(db as int, 255_000_000);
    }
    let lhs = dr * dr + dg * dg + db * db;
    let nn = (c1.count as i64) * (c2.count as i64);
    proof {
        lemma_sq_bounds(nn as int, 1_000_000);
    }
    lhs <= nn * nn
}

/// One output channel: the centroid mean rounded to the nearest byte.
pub fn rounded_channel_exec(s: u64, n: u64) -> (r: u8)
    requires
        1 <= n <= 1000,
        s <= 255 * n,
    ensures
        r as int == rounded_channel(s as int, n as int),
{
    proof {
        lemma_rounded_channel_bounds(s as int, n as int);
    }
    ((2 * s + n) / (2 * n)) as u8
}

/// Index of the nearest centroid among `cs[i..]`, carrying the best index
/// so far; ties keep the earlier index, because only a strictly smaller
/// distance displaces the current best.
pub open spec fn nearest_from(p: ColorPoint, cs: Seq<Centroid>, i: int, best: int) -> int
    decreases cs.len() - i,
{
    if i < 0 || i >= cs.len() {
        best
    } else if closer_than(p, cs[i], cs[best]) {
        nearest_from(p, cs, i + 1, i)
    } else {
        nearest_from(p, cs, i + 1, best)
    }
}

/// Index of the centroid nearest to `p`; lowest index wins ties.
pub open spec fn nearest_centroid(p: ColorPoint, cs: Seq<Centroid>) -> int {
    nearest_from(p, cs, 1, 0)
}

pub proof fn lemma_nearest_from_bound(p: ColorPoint, cs: Seq<Centroid>, i: int, best: int)
    requires
        0 <= best < cs.len(),
    ensures
        0 <= nearest_from(p, cs, i, best) < cs.len(),
    decreases cs.len() - i,
{
    if 0 <= i && i < cs.len() {
        if closer_than(p, cs[i], cs[best]) {
            lemma_nearest_from_bound(p, cs, i + 1, i);
        } else {
            lemma_nearest_from_bound(p, cs, i + 1, best);
        }
    }
}

/// Scans all centroids and returns the index of the nearest one; the
/// strict `<` comparison breaks ties toward the lowest index.
pub fn find_nearest_centroid(p: ColorPoint, cs: &Vec<Centroid>) -> (idx: usize)
    requires
        cs@.len() >= 1,
        centroids_wf(cs@),
    ensures
        idx as int == nearest_centroid(p, cs@),
        idx < cs@.len(),
{
    let mut best: usize = 0;
    let mut i: usize = 1;
    while i < cs.len()
        invariant
            cs@.len() >= 1,
            centroids_wf(cs@),
            1 <= i <= cs@.len(),
            best < i,
            nearest_from(p, cs@, i as int, best as int) == nearest_centroid(p, cs@),
        decreases cs@.len() - i,
    {
        if closer_than_exec(p, &cs[i], &cs[best]) {
            best = i;
        }
        i = i + 1;
    }
    best
}

} // verus!
