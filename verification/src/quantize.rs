//! Deterministic K-means palette quantization.
//!
//! Pipeline: extract the RGB points of every pixel; take an evenly spaced
//! sample of at most 1000 of them; seed `k` centroids by deterministic
//! farthest-point selection; refine the centroids for at most 20
//! iterations of assign-and-average with an early exit once every
//! centroid moved by at most one unit of Euclidean distance; finally
//! recolor every original pixel with its nearest final centroid, keeping
//! its alpha byte. Every step is a pure function of the input buffer and
//! `k`, so two calls on identical input produce byte-identical output.

use vstd::prelude::*;
use crate::TransformError;
use crate::dims_match;
use crate::color::ColorPoint;
use crate::color::Centroid;
use crate::color::centroid_wf;
use crate::color::centroids_wf;
use crate::color::dist2_points;
use crate::color::dist2_num;
use crate::color::closer_than;
use crate::color::sq;
use crate::color::nearest_centroid;
use crate::color::nearest_from;
use crate::color::rounded_channel;
use crate::color::within_unit;
use crate::color::squared_distance;
use crate::color::find_nearest_centroid;
use crate::color::within_unit_exec;
use crate::color::rounded_channel_exec;
use crate::color::lemma_nearest_from_bound;

verus! {

/// At most this many points are clustered, however large the image.
pub const SAMPLE_CAP: usize = 1000;

/// The refinement loop runs at most this many iterations.
pub const MAX_ITERATIONS: usize = 20;

/// The RGB points of a buffer, one per 4-byte pixel, row-major, alpha
/// dropped.
pub open spec fn points_of(data: Seq<u8>) -> Seq<ColorPoint> {
    Seq::new(
        data.len() / 4,
        |j: int| ColorPoint { r: data[4 * j], g: data[4 * j + 1], b: data[4 * j + 2] },
    )
}

/// The evenly spaced sample: element `i` of the sample is the point at
/// index `floor(i * n / s)`.
pub open spec fn sample_seq(pts: Seq<ColorPoint>, s: nat) -> Seq<ColorPoint> {
    Seq::new(s, |i: int| pts[i * pts.len() / (s as int)])
}

/// Smallest distance from `p` to any of `cs[i..]`, starting from the best
/// value seen so far.
pub open spec fn min_dist2_from(p: ColorPoint, cs: Seq<ColorPoint>, i: int, cur: int) -> int
    decreases cs.len() - i,
{
    if i < 0 || i >= cs.len() {
        cur
    } else if dist2_points(p, cs[i]) < cur {
        min_dist2_from(p, cs, i + 1, dist2_points(p, cs[i]))
    } else {
        min_dist2_from(p, cs, i + 1, cur)
    }
}

/// Squared distance from `p` to its nearest existing centroid.
pub open spec fn min_dist2(p: ColorPoint, cs: Seq<ColorPoint>) -> int {
    min_dist2_from(p, cs, 1, dist2_points(p, cs[0]))
}

/// The deterministic scan stride: every point for small point sets, a
/// thinned scan of about 1000 points for large ones.
pub open spec fn stride_for(n: int) -> int {
    if n / 1000 >= 1 {
        n / 1000
    } else {
        1
    }
}

/// Farthest-point scan over indices `i, i + stride, ...`: the index whose
/// smallest distance to the existing centroids is largest; a strictly
/// greater distance displaces the best so far, so the earliest maximal
/// index wins.
pub open spec fn far_from(
    pts: Seq<ColorPoint>,
    cs: Seq<ColorPoint>,
    i: int,
    stride: int,
    best_i: int,
    best_d: int,
) -> int
    decreases pts.len() + stride - i when stride >= 1
{
    if i < 0 || i >= pts.len() {
        best_i
    } else {
        if min_dist2(pts[i], cs) > best_d {
            far_from(pts, cs, i + stride, stride, i, min_dist2(pts[i], cs))
        } else {
            far_from(pts, cs, i + stride, stride, best_i, best_d)
        }
    }
}

/// Index of the next seed centroid.
pub open spec fn farthest_index(pts: Seq<ColorPoint>, cs: Seq<ColorPoint>) -> int {
    far_from(pts, cs, 0, stride_for(pts.len() as int), 0, -1)
}

/// Grows the seed set one farthest point per round.
pub open spec fn init_grow(pts: Seq<ColorPoint>, cs: Seq<ColorPoint>, rounds: nat) -> Seq<
    ColorPoint,
>
    decreases rounds,
{
    if rounds == 0 {
        cs
    } else {
        init_grow(pts, cs.push(pts[farthest_index(pts, cs)]), (rounds - 1) as nat)
    }
}

/// The `k` seed centroids: the point at the quarter position, then `k - 1`
/// farthest-point rounds. An empty point set, or `k == 0`, seeds nothing.
pub open spec fn initial_centroids(pts: Seq<ColorPoint>, k: nat) -> Seq<ColorPoint> {
    if pts.len() == 0 || k == 0 {
        Seq::empty()
    } else {
        init_grow(pts, seq![pts[pts.len() as int / 4]], (k - 1) as nat)
    }
}

/// A seed point as a rational centroid: a cluster of one member.
pub open spec fn to_centroid(p: ColorPoint) -> Centroid {
    Centroid { sum_r: p.r as u64, sum_g: p.g as u64, sum_b: p.b as u64, count: 1u64 }
}

pub open spec fn centroids_of(pts: Seq<ColorPoint>) -> Seq<Centroid> {
    Seq::new(pts.len(), |i: int| to_centroid(pts[i]))
}

/// Running per-cluster channel sums and member counts over `sample[j..]`:
/// each point adds its channels to the accumulator of its nearest
/// centroid. Entries are `(sum_r, sum_g, sum_b, count)`.
pub open spec fn accum_from(
    sample: Seq<ColorPoint>,
    cs: Seq<Centroid>,
    j: int,
    acc: Seq<(int, int, int, int)>,
) -> Seq<(int, int, int, int)>
    decreases sample.len() - j,
{
    if j < 0 || j >= sample.len() {
        acc
    } else {
        let m = nearest_centroid(sample[j], cs);
        let a = acc[m];
        accum_from(
            sample,
            cs,
            j + 1,
            acc.update(m, (a.0 + sample[j].r, a.1 + sample[j].g, a.2 + sample[j].b, a.3 + 1)),
        )
    }
}

pub open spec fn zero_acc(k: nat) -> Seq<(int, int, int, int)> {
    Seq::new(k, |i: int| (0int, 0int, 0int, 0int))
}

/// The channel sums and member counts of every cluster after one full
/// assignment pass.
pub open spec fn cluster_sums(sample: Seq<ColorPoint>, cs: Seq<Centroid>) -> Seq<
    (int, int, int, int),
> {
    accum_from(sample, cs, 0, zero_acc(cs.len()))
}

/// One refinement step: every cluster with members is replaced by the
/// exact mean of its members; a cluster with no members keeps its previous
/// centroid unchanged.
pub open spec fn updated_centroids(sample: Seq<ColorPoint>, cs: Seq<Centroid>) -> Seq<Centroid> {
    Seq::new(
        cs.len(),
        |i: int|
            {
                let a = cluster_sums(sample, cs)[i];
                if a.3 == 0 {
                    cs[i]
                } else {
                    Centroid {
                        sum_r: a.0 as u64,
                        sum_g: a.1 as u64,
                        sum_b: a.2 as u64,
                        count: a.3 as u64,
                    }
                }
            },
    )
}

/// Convergence: every centroid moved by at most one unit of Euclidean
/// distance.
pub open spec fn all_within_unit(old_cs: Seq<Centroid>, new_cs: Seq<Centroid>) -> bool {
    forall|i: int| 0 <= i < old_cs.len() ==> within_unit(old_cs[i], #[trigger] new_cs[i])
}

/// The refinement loop: up to `left` further steps; stops early, keeping
/// the current centroids, once a step moves every centroid by at most one
/// unit.
pub open spec fn refine_from(sample: Seq<ColorPoint>, cs: Seq<Centroid>, left: nat) -> Seq<
    Centroid,
>
    decreases left,
{
    if left == 0 {
        cs
    } else {
        let new_cs = updated_centroids(sample, cs);
        if all_within_unit(cs, new_cs) {
            cs
        } else {
            refine_from(sample, new_cs, (left - 1) as nat)
        }
    }
}

/// One byte of the recolored buffer: alpha is carried over; each color
/// channel is the corresponding channel of the pixel's nearest final
/// centroid, rounded to the nearest byte.
pub open spec fn recolored_byte(data: Seq<u8>, cs: Seq<Centroid>, i: int) -> u8 {
    if i % 4 == 3 {
        data[i]
    } else {
        let p = points_of(data)[i / 4];
        let c = cs[nearest_centroid(p, cs)];
        if i % 4 == 0 {
            rounded_channel(c.sum_r as int, c.count as int) as u8
        } else if i % 4 == 1 {
            rounded_channel(c.sum_g as int, c.count as int) as u8
        } else {
            rounded_channel(c.sum_b as int, c.count as int) as u8
        }
    }
}

/// The final centroids for a buffer: sample, seed, refine.
pub open spec fn final_centroids(data: Seq<u8>, k: nat) -> Seq<Centroid> {
    let pts = points_of(data);
    let s: nat = if pts.len() < 1000 {
        pts.len()
    } else {
        1000
    };
    let sample = sample_seq(pts, s);
    refine_from(sample, centroids_of(initial_centroids(sample, k)), 20)
}

/// The whole quantized buffer.
pub open spec fn quantize_spec(data: Seq<u8>, k: nat) -> Seq<u8> {
    Seq::new(data.len(), |i: int| recolored_byte(data, final_centroids(data, k), i))
}

/// A centroid's color as written into the output: each channel mean
/// rounded to the nearest byte.
pub open spec fn rounded_point(c: Centroid) -> ColorPoint {
    ColorPoint {
        r: rounded_channel(c.sum_r as int, c.count as int) as u8,
        g: rounded_channel(c.sum_g as int, c.count as int) as u8,
        b: rounded_channel(c.sum_b as int, c.count as int) as u8,
    }
}

/// The distinct RGB colors that occur in a buffer, alpha ignored.
pub open spec fn color_set(data: Seq<u8>) -> Set<ColorPoint> {
    points_of(data).to_set()
}

proof fn lemma_init_grow_len(pts: Seq<ColorPoint>, cs: Seq<ColorPoint>, rounds: nat)
    ensures
        init_grow(pts, cs, rounds).len() == cs.len() + rounds,
    decreases rounds,
{
    if rounds != 0 {
        lemma_init_grow_len(pts, cs.push(pts[farthest_index(pts, cs)]), (rounds - 1) as nat);
    }
}

proof fn lemma_refine_len(sample: Seq<ColorPoint>, cs: Seq<Centroid>, left: nat)
    ensures
        refine_from(sample, cs, left).len() == cs.len(),
    decreases left,
{
    if left != 0 {
        let new_cs = updated_centroids(sample, cs);
        if !all_within_unit(cs, new_cs) {
            lemma_refine_len(sample, new_cs, (left - 1) as nat);
        }
    }
}

/// On a non-empty buffer with `k >= 1`, the pipeline ends with exactly
/// `k` centroids.
pub proof fn lemma_final_centroids_len(data: Seq<u8>, k: nat)
    requires
        k >= 1,
        data.len() % 4 == 0,
        data.len() > 0,
    ensures
        final_centroids(data, k).len() == k,
{
    let pts = points_of(data);
    let s: nat = if pts.len() < 1000 {
        pts.len()
    } else {
        1000
    };
    let sample = sample_seq(pts, s);
    assert(sample.len() == s >= 1);
    lemma_init_grow_len(sample, seq![sample[sample.len() as int / 4]], (k - 1) as nat);
    assert(initial_centroids(sample, k).len() == k);
    lemma_refine_len(sample, centroids_of(initial_centroids(sample, k)), 20);
}

/// The image of a finite set under a function is no larger than the set.
proof fn lemma_map_card<A, B>(s: Set<A>, f: spec_fn(A) -> B)
    requires
        s.finite(),
    ensures
        s.map(f).finite(),
        s.map(f).len() <= s.len(),
    decreases s.len(),
{
    s.lemma_map_finite(f);
    if s.len() == 0 {
        s.lemma_len0_is_empty();
        assert(s.map(f) =~= Set::<B>::empty());
    } else {
        if !(exists|a: A| s.contains(a)) {
            assert(s =~= Set::<A>::empty());
        }
        let x = s.choose();
        let rest = s.remove(x);
        lemma_map_card(rest, f);
        assert forall|b: B| s.map(f).contains(b) implies rest.map(f).insert(f(x)).contains(b) by {
            let a = choose|a: A| s.contains(a) && f(a) == b;
            if a != x {
                assert(rest.contains(a));
                assert(rest.map(f).contains(b));
            }
        }
        vstd::set_lib::lemma_len_subset(s.map(f), rest.map(f).insert(f(x)));
    }
}

/// The clusters at least one pixel of the image is assigned to in the
/// recoloring pass.
pub open spec fn used_clusters(data: Seq<u8>, k: nat) -> Set<int> {
    Set::new(
        |m: int|
            0 <= m < final_centroids(data, k).len() && exists|j: int|
                0 <= j < data.len() / 4 && nearest_centroid(
                    points_of(data)[j],
                    final_centroids(data, k),
                ) == m,
    )
}

/// Quantization is deterministic: the output is a pure function of the
/// buffer and `k`, so two calls with identical input produce
/// byte-identical output.
pub proof fn lemma_quantize_deterministic(a: Seq<u8>, b: Seq<u8>, k: nat)
    requires
        a == b,
    ensures
        quantize_spec(a, k) == quantize_spec(b, k),
{
}

/// Every color of the quantized output is the rounded color of one of the
/// final centroids — a cluster some output pixel was assigned to — so the
/// output uses at most `k` distinct colors (alpha ignored), and no more
/// than the clusters actually used.
pub proof fn lemma_quantize_color_count(data: Seq<u8>, k: nat)
    requires
        k >= 1,
        data.len() % 4 == 0,
    ensures
        color_set(quantize_spec(data, k)).finite(),
        color_set(quantize_spec(data, k)).len() <= k,
        color_set(quantize_spec(data, k)).len() <= used_clusters(data, k).len(),
        forall|c: ColorPoint|
            color_set(quantize_spec(data, k)).contains(c) ==> exists|m: int|
                {
                    &&& 0 <= m < final_centroids(data, k).len()
                    &&& c == rounded_point(#[trigger] final_centroids(data, k)[m])
                    &&& exists|j: int|
                        0 <= j < data.len() / 4 && nearest_centroid(
                            points_of(data)[j],
                            final_centroids(data, k),
                        ) == m
                },
{
    broadcast use vstd::seq_lib::seq_to_set_is_finite;

    let out = quantize_spec(data, k);
    let cs = final_centroids(data, k);
    if data.len() == 0 {
        assert(out.len() == 0);
        assert(points_of(out) =~= Seq::<ColorPoint>::empty());
        points_of(out).lemma_cardinality_of_set();
        assert forall|c: ColorPoint| color_set(out).contains(c) implies false by {
            assert(points_of(out).contains(c));
        }
        assert(used_clusters(data, k) =~= Set::<int>::empty());
    } else {
        lemma_final_centroids_len(data, k);
        let rcs = Seq::new(cs.len(), |m: int| rounded_point(cs[m]));
        assert(out.len() == data.len());
        assert forall|j: int| 0 <= j < out.len() / 4 implies {
            &&& #[trigger] points_of(out)[j] == rounded_point(
                cs[nearest_centroid(points_of(data)[j], cs)],
            )
            &&& 0 <= nearest_centroid(points_of(data)[j], cs) < cs.len()
        } by {
            lemma_nearest_from_bound(points_of(data)[j], cs, 1, 0);
            assert(out[4 * j] == recolored_byte(data, cs, 4 * j));
            assert(out[4 * j + 1] == recolored_byte(data, cs, 4 * j + 1));
            assert(out[4 * j + 2] == recolored_byte(data, cs, 4 * j + 2));
            assert((4 * j) / 4 == j && (4 * j) % 4 == 0);
            assert((4 * j + 1) / 4 == j && (4 * j + 1) % 4 == 1);
            assert((4 * j + 2) / 4 == j && (4 * j + 2) % 4 == 2);
        }
        assert forall|c: ColorPoint| color_set(out).contains(c) implies rcs.to_set().contains(
            c,
        ) by {
            assert(points_of(out).contains(c));
            let j = choose|j: int| 0 <= j < points_of(out).len() && points_of(out)[j] == c;
            let m = nearest_centroid(points_of(data)[j], cs);
            assert(rcs[m] == c);
            assert(rcs.contains(c));
        }
        vstd::set_lib::lemma_len_subset(color_set(out), rcs.to_set());
        rcs.lemma_cardinality_of_set();
        let used = used_clusters(data, k);
        let f: spec_fn(int) -> ColorPoint = |m: int| rounded_point(cs[m]);
        assert(used.subset_of(vstd::set_lib::set_int_range(0, k as int)));
        vstd::set_lib::lemma_int_range(0, k as int);
        vstd::set_lib::lemma_len_subset(used, vstd::set_lib::set_int_range(0, k as int));
        lemma_map_card(used, f);
        assert forall|c: ColorPoint| color_set(out).contains(c) implies used.map(f).contains(
            c,
        ) by {
            assert(points_of(out).contains(c));
            let j = choose|j: int| 0 <= j < points_of(out).len() && points_of(out)[j] == c;
            let m = nearest_centroid(points_of(data)[j], cs);
            assert(used.contains(m));
            assert(f(m) == c);
        }
        vstd::set_lib::lemma_len_subset(color_set(out), used.map(f));
        assert forall|c: ColorPoint| color_set(out).contains(c) implies exists|m: int|
            {
                &&& 0 <= m < cs.len()
                &&& c == rounded_point(#[trigger] cs[m])
                &&& exists|j: int|
                    0 <= j < data.len() / 4 && nearest_centroid(points_of(data)[j], cs) == m
            } by {
            assert(points_of(out).contains(c));
            let j = choose|j: int| 0 <= j < points_of(out).len() && points_of(out)[j] == c;
            let m = nearest_centroid(points_of(data)[j], cs);
            assert(0 <= m < cs.len() && c == rounded_point(cs[m]) && nearest_centroid(
                points_of(data)[j],
                cs,
            ) == m);
        }
    }
}

proof fn lemma_sq_nonneg(x: int)
    by (nonlinear_arith)
    ensures
        x * x >= 0,
{
}

proof fn lemma_dist2_num_nonneg(p: ColorPoint, c: Centroid)
    ensures
        dist2_num(p, c) >= 0,
{
    lemma_sq_nonneg(p.r as int * c.count as int - c.sum_r as int);
    lemma_sq_nonneg(p.g as int * c.count as int - c.sum_g as int);
    lemma_sq_nonneg(p.b as int * c.count as int - c.sum_b as int);
}

/// A point is at distance zero from a centroid exactly when the centroid's
/// rational mean equals the point, channel by channel.
proof fn lemma_dist2_num_zero(p: ColorPoint, c: Centroid)
    requires
        dist2_num(p, c) == 0,
    ensures
        c.sum_r as int == p.r as int * c.count as int,
        c.sum_g as int == p.g as int * c.count as int,
        c.sum_b as int == p.b as int * c.count as int,
{
    let tr = p.r as int * c.count as int - c.sum_r as int;
    let tg = p.g as int * c.count as int - c.sum_g as int;
    let tb = p.b as int * c.count as int - c.sum_b as int;
    lemma_sq_nonneg(tr);
    lemma_sq_nonneg(tg);
    lemma_sq_nonneg(tb);
    assert(tr == 0) by (nonlinear_arith)
        requires
            tr * tr == 0,
    ;
    assert(tg == 0) by (nonlinear_arith)
        requires
            tg * tg == 0,
    ;
    assert(tb == 0) by (nonlinear_arith)
        requires
            tb * tb == 0,
    ;
}

proof fn lemma_dist2_num_self(p: ColorPoint)
    ensures
        dist2_num(p, to_centroid(p)) == 0,
{
    let c = to_centroid(p);
    assert(c.count as int == 1 && c.sum_r as int == p.r as int && c.sum_g as int == p.g as int
        && c.sum_b as int == p.b as int);
    assert(p.r as int * 1 == p.r as int) by (nonlinear_arith);
    assert(p.g as int * 1 == p.g as int) by (nonlinear_arith);
    assert(p.b as int * 1 == p.b as int) by (nonlinear_arith);
    assert(sq(0) == 0);
}

/// `dist(p, c1) <= dist(p, c2)`, cross-multiplied.
spec fn le_dist(p: ColorPoint, c1: Centroid, c2: Centroid) -> bool {
    dist2_num(p, c1) * sq(c2.count as int) <= dist2_num(p, c2) * sq(c1.count as int)
}

proof fn lemma_le_dist_trans(p: ColorPoint, c1: Centroid, c2: Centroid, c3: Centroid)
    requires
        c1.count >= 1,
        c2.count >= 1,
        c3.count >= 1,
        le_dist(p, c1, c2),
        le_dist(p, c2, c3),
    ensures
        le_dist(p, c1, c3),
{
    let d1 = dist2_num(p, c1);
    let d2 = dist2_num(p, c2);
    let d3 = dist2_num(p, c3);
    let q1 = sq(c1.count as int);
    let q2 = sq(c2.count as int);
    let q3 = sq(c3.count as int);
    assert(q1 >= 1 && q2 >= 1 && q3 >= 1) by (nonlinear_arith)
        requires
            c1.count >= 1 && c2.count >= 1 && c3.count >= 1 && q1 == sq(c1.count as int) && q2
                == sq(c2.count as int) && q3 == sq(c3.count as int),
    ;
    vstd::arithmetic::mul::lemma_mul_inequality(d1 * q2, d2 * q1, q3);
    vstd::arithmetic::mul::lemma_mul_inequality(d2 * q3, d3 * q2, q1);
    assert((d2 * q1) * q3 == (d2 * q3) * q1) by (nonlinear_arith);
    assert((d1 * q2) * q3 == (d1 * q3) * q2) by (nonlinear_arith);
    assert((d3 * q2) * q1 == (d3 * q1) * q2) by (nonlinear_arith);
    vstd::arithmetic::mul::lemma_mul_inequality_converse(d1 * q3, d3 * q1, q2);
}

/// The scan in `nearest_from` returns an index no farther from `p` than
/// the best so far and than every index still to be scanned.
proof fn lemma_nearest_minimal(p: ColorPoint, cs: Seq<Centroid>, i: int, best: int)
    requires
        0 <= best < cs.len(),
        1 <= i,
        centroids_wf(cs),
    ensures
        le_dist(p, cs[nearest_from(p, cs, i, best)], cs[best]),
        forall|j: int|
            i <= j < cs.len() ==> le_dist(p, cs[nearest_from(p, cs, i, best)], #[trigger] cs[j]),
    decreases cs.len() - i,
{
    lemma_nearest_from_bound(p, cs, i, best);
    let r = nearest_from(p, cs, i, best);
    if 0 <= i && i < cs.len() {
        if closer_than(p, cs[i], cs[best]) {
            lemma_nearest_minimal(p, cs, i + 1, i);
            assert(le_dist(p, cs[i], cs[best]));
            lemma_le_dist_trans(p, cs[r], cs[i], cs[best]);
            assert forall|j: int| i <= j < cs.len() implies le_dist(p, cs[r], #[trigger] cs[j]) by {
                if j == i {
                    assert(le_dist(p, cs[r], cs[i]));
                }
            }
        } else {
            lemma_nearest_minimal(p, cs, i + 1, best);
            assert(le_dist(p, cs[best], cs[i]));
            assert forall|j: int| i <= j < cs.len() implies le_dist(p, cs[r], #[trigger] cs[j]) by {
                if j == i {
                    lemma_le_dist_trans(p, cs[r], cs[best], cs[i]);
                }
            }
        }
    }
}

/// If some centroid sits at distance zero from `p`, so does the nearest.
proof fn lemma_nearest_zero(p: ColorPoint, cs: Seq<Centroid>, m: int)
    requires
        centroids_wf(cs),
        0 <= m < cs.len(),
        dist2_num(p, cs[m]) == 0,
    ensures
        dist2_num(p, cs[nearest_centroid(p, cs)]) == 0,
{
    lemma_nearest_minimal(p, cs, 1, 0);
    lemma_nearest_from_bound(p, cs, 1, 0);
    let r = nearest_centroid(p, cs);
    if m == 0 {
        assert(le_dist(p, cs[r], cs[0]));
    }
    assert(le_dist(p, cs[r], cs[m]));
    lemma_dist2_num_nonneg(p, cs[r]);
    let dr = dist2_num(p, cs[r]);
    let qm = sq(cs[m].count as int);
    assert(qm >= 1) by (nonlinear_arith)
        requires
            cs[m].count >= 1,
            qm == sq(cs[m].count as int),
    ;
    assert(dr * qm <= 0);
    assert(dr == 0) by (nonlinear_arith)
        requires
            dr >= 0,
            qm >= 1,
            dr * qm <= 0,
    ;
}

/// Rounding an exact multiple back through the mean gives the channel
/// itself: `round((c * n) / n) == c`.
proof fn lemma_rounded_exact(c: int, n: int)
    requires
        0 <= c,
        1 <= n,
    ensures
        rounded_channel(c * n, n) == c,
{
    assert(2 * (c * n) + n == c * (2 * n) + n) by (nonlinear_arith);
    vstd::arithmetic::div_mod::lemma_fundamental_div_mod_converse(2 * (c * n) + n, 2 * n, c, n);
}

/// Every listed point occurs among the centroids as an exact
/// single-member cluster.
spec fn covers(cs: Seq<Centroid>, pts: Seq<ColorPoint>) -> bool {
    forall|j: int|
        0 <= j < pts.len() ==> exists|m: int|
            0 <= m < cs.len() && cs[m] == to_centroid(#[trigger] pts[j])
}

spec fn unit_counts(cs: Seq<Centroid>) -> bool {
    forall|i: int| 0 <= i < cs.len() ==> (#[trigger] cs[i]).count == 1
}

/// While every point's color is a single-member centroid, the running
/// sums stay exact multiples of the owning centroid's color.
spec fn acc_pure(cs: Seq<Centroid>, acc: Seq<(int, int, int, int)>) -> bool {
    &&& acc.len() == cs.len()
    &&& forall|i: int|
        0 <= i < acc.len() ==> {
            &&& (#[trigger] acc[i]).0 == cs[i].sum_r as int * acc[i].3
            &&& acc[i].1 == cs[i].sum_g as int * acc[i].3
            &&& acc[i].2 == cs[i].sum_b as int * acc[i].3
            &&& acc[i].3 >= 0
        }
}

proof fn lemma_accum_pure(
    sample: Seq<ColorPoint>,
    cs: Seq<Centroid>,
    j: int,
    acc: Seq<(int, int, int, int)>,
)
    requires
        centroids_wf(cs),
        cs.len() >= 1,
        unit_counts(cs),
        covers(cs, sample),
        acc_pure(cs, acc),
        0 <= j <= sample.len(),
    ensures
        acc_pure(cs, accum_from(sample, cs, j, acc)),
        forall|i: int|
            0 <= i < cs.len() ==> (#[trigger] accum_from(sample, cs, j, acc)[i]).3 <= acc[i].3
                + sample.len() - j,
    decreases sample.len() - j,
{
    if 0 <= j && j < sample.len() {
        let p = sample[j];
        let m0 = choose|m: int| 0 <= m < cs.len() && cs[m] == to_centroid(p);
        lemma_dist2_num_self(p);
        lemma_nearest_zero(p, cs, m0);
        let m = nearest_centroid(p, cs);
        lemma_nearest_from_bound(p, cs, 1, 0);
        lemma_dist2_num_zero(p, cs[m]);
        assert(p.r as int * cs[m].count as int == p.r as int) by (nonlinear_arith)
            requires
                cs[m].count == 1,
        ;
        assert(p.g as int * cs[m].count as int == p.g as int) by (nonlinear_arith)
            requires
                cs[m].count == 1,
        ;
        assert(p.b as int * cs[m].count as int == p.b as int) by (nonlinear_arith)
            requires
                cs[m].count == 1,
        ;
        assert(cs[m].sum_r as int == p.r as int && cs[m].sum_g as int == p.g as int
            && cs[m].sum_b as int == p.b as int);
        let a = acc[m];
        let a2 = (a.0 + p.r as int, a.1 + p.g as int, a.2 + p.b as int, a.3 + 1);
        assert(p.r as int * (a.3 + 1) == p.r as int * a.3 + p.r as int) by (nonlinear_arith);
        assert(p.g as int * (a.3 + 1) == p.g as int * a.3 + p.g as int) by (nonlinear_arith);
        assert(p.b as int * (a.3 + 1) == p.b as int * a.3 + p.b as int) by (nonlinear_arith);
        assert(acc_pure(cs, acc.update(m, a2)));
        lemma_accum_pure(sample, cs, j + 1, acc.update(m, a2));
    }
}

/// With single-member centroids covering every sampled color, one
/// refinement step moves nothing: each non-empty cluster's mean is its own
/// centroid, so the loop converges at once and keeps the seed centroids.
proof fn lemma_refine_fixed(sample: Seq<ColorPoint>, cs: Seq<Centroid>)
    requires
        centroids_wf(cs),
        cs.len() >= 1,
        unit_counts(cs),
        covers(cs, sample),
        sample.len() <= 1000,
    ensures
        refine_from(sample, cs, 20) == cs,
{
    assert(acc_pure(cs, zero_acc(cs.len()))) by {
        assert forall|i: int| 0 <= i < cs.len() implies {
            &&& (#[trigger] zero_acc(cs.len())[i]).0 == cs[i].sum_r as int * zero_acc(
                cs.len(),
            )[i].3
            &&& zero_acc(cs.len())[i].1 == cs[i].sum_g as int * zero_acc(cs.len())[i].3
            &&& zero_acc(cs.len())[i].2 == cs[i].sum_b as int * zero_acc(cs.len())[i].3
            &&& zero_acc(cs.len())[i].3 >= 0
        } by {
            assert(cs[i].sum_r as int * 0 == 0) by (nonlinear_arith);
            assert(cs[i].sum_g as int * 0 == 0) by (nonlinear_arith);
            assert(cs[i].sum_b as int * 0 == 0) by (nonlinear_arith);
        }
    }
    lemma_accum_pure(sample, cs, 0, zero_acc(cs.len()));
    let sums = cluster_sums(sample, cs);
    let new_cs = updated_centroids(sample, cs);
    assert forall|i: int| 0 <= i < cs.len() implies within_unit(cs[i], #[trigger] new_cs[i]) by {
        let a = sums[i];
        assert(a.3 <= zero_acc(cs.len())[i].3 + sample.len());
        assert(a.3 <= 1000);
        lemma_sq_nonneg(cs[i].count as int * new_cs[i].count as int);
        if a.3 == 0 {
            assert(new_cs[i] == cs[i]);
            assert(within_unit(cs[i], cs[i]));
        } else {
            assert(0 <= a.0 && a.0 <= 255000 && 0 < a.3 <= 1000) by (nonlinear_arith)
                requires
                    a.0 == cs[i].sum_r as int * a.3,
                    0 <= cs[i].sum_r <= 255,
                    0 < a.3 <= 1000,
            ;
            assert(0 <= a.1 <= 255000) by (nonlinear_arith)
                requires
                    a.1 == cs[i].sum_g as int * a.3,
                    0 <= cs[i].sum_g <= 255,
                    0 < a.3 <= 1000,
            ;
            assert(0 <= a.2 <= 255000) by (nonlinear_arith)
                requires
                    a.2 == cs[i].sum_b as int * a.3,
                    0 <= cs[i].sum_b <= 255,
                    0 < a.3 <= 1000,
            ;
            assert(new_cs[i].sum_r as int == a.0 && new_cs[i].sum_g as int == a.1
                && new_cs[i].sum_b as int == a.2 && new_cs[i].count as int == a.3);
            assert(cs[i].sum_r as int * new_cs[i].count as int == new_cs[i].sum_r as int
                * cs[i].count as int) by (nonlinear_arith)
                requires
                    cs[i].count == 1,
                    new_cs[i].count as int == a.3,
                    new_cs[i].sum_r as int == a.0,
                    a.0 == cs[i].sum_r as int * a.3,
            ;
            assert(cs[i].sum_g as int * new_cs[i].count as int == new_cs[i].sum_g as int
                * cs[i].count as int) by (nonlinear_arith)
                requires
                    cs[i].count == 1,
                    new_cs[i].count as int == a.3,
                    new_cs[i].sum_g as int == a.1,
                    a.1 == cs[i].sum_g as int * a.3,
            ;
            assert(cs[i].sum_b as int * new_cs[i].count as int == new_cs[i].sum_b as int
                * cs[i].count as int) by (nonlinear_arith)
                requires
                    cs[i].count == 1,
                    new_cs[i].count as int == a.3,
                    new_cs[i].sum_b as int == a.2,
                    a.2 == cs[i].sum_b as int * a.3,
            ;
            assert(within_unit(cs[i], new_cs[i]));
        }
    }
    assert(all_within_unit(cs, new_cs));
}

/// Two color points are at squared distance zero exactly when they are
/// the same color.
proof fn lemma_dist2_points_zero(p: ColorPoint, q: ColorPoint)
    ensures
        (dist2_points(p, q) == 0) <==> (p == q),
{
    let tr = p.r as int - q.r as int;
    let tg = p.g as int - q.g as int;
    let tb = p.b as int - q.b as int;
    lemma_sq_nonneg(tr);
    lemma_sq_nonneg(tg);
    lemma_sq_nonneg(tb);
    if dist2_points(p, q) == 0 {
        assert(tr == 0) by (nonlinear_arith)
            requires
                tr * tr == 0,
        ;
        assert(tg == 0) by (nonlinear_arith)
            requires
                tg * tg == 0,
        ;
        assert(tb == 0) by (nonlinear_arith)
            requires
                tb * tb == 0,
        ;
        assert(p == ColorPoint { r: q.r, g: q.g, b: q.b });
    }
    if p == q {
        assert(sq(0) == 0);
    }
}

proof fn lemma_min_dist2_le(p: ColorPoint, cs: Seq<ColorPoint>, i: int, cur: int)
    requires
        1 <= i,
    ensures
        min_dist2_from(p, cs, i, cur) <= cur,
        forall|j: int|
            i <= j < cs.len() ==> min_dist2_from(p, cs, i, cur) <= dist2_points(
                p,
                #[trigger] cs[j],
            ),
    decreases cs.len() - i,
{
    if 0 <= i && i < cs.len() {
        let d = dist2_points(p, cs[i]);
        if d < cur {
            lemma_min_dist2_le(p, cs, i + 1, d);
        } else {
            lemma_min_dist2_le(p, cs, i + 1, cur);
        }
        assert forall|j: int|
            i <= j < cs.len() implies min_dist2_from(p, cs, i, cur) <= dist2_points(
            p,
            #[trigger] cs[j],
        ) by {
            if j == i {
                assert(min_dist2_from(p, cs, i, cur) <= d);
            }
        }
    }
}

proof fn lemma_min_dist2_pos(p: ColorPoint, cs: Seq<ColorPoint>, i: int, cur: int)
    requires
        1 <= i,
        cur > 0,
        forall|j: int| 0 <= j < cs.len() ==> dist2_points(p, #[trigger] cs[j]) > 0,
    ensures
        min_dist2_from(p, cs, i, cur) > 0,
    decreases cs.len() - i,
{
    if 0 <= i && i < cs.len() {
        if dist2_points(p, cs[i]) < cur {
            lemma_min_dist2_pos(p, cs, i + 1, dist2_points(p, cs[i]));
        } else {
            lemma_min_dist2_pos(p, cs, i + 1, cur);
        }
    }
}

/// The farthest-point scan with stride one returns an index whose smallest
/// distance to the centroids is at least the running best and at least
/// that of every index still to be scanned.
proof fn lemma_far_from_max(pts: Seq<ColorPoint>, cs: Seq<ColorPoint>, i: int, b_i: int, b_d: int)
    requires
        0 <= b_i < pts.len(),
        0 <= i,
        cs.len() >= 1,
        b_d <= min_dist2(pts[b_i], cs),
    ensures
        min_dist2(pts[far_from(pts, cs, i, 1, b_i, b_d)], cs) >= b_d,
        forall|j: int|
            i <= j < pts.len() ==> min_dist2(pts[far_from(pts, cs, i, 1, b_i, b_d)], cs)
                >= min_dist2(#[trigger] pts[j], cs),
    decreases pts.len() - i,
{
    if 0 <= i && i < pts.len() {
        let d = min_dist2(pts[i], cs);
        let r = far_from(pts, cs, i, 1, b_i, b_d);
        if d > b_d {
            lemma_far_from_max(pts, cs, i + 1, i, d);
        } else {
            lemma_far_from_max(pts, cs, i + 1, b_i, b_d);
        }
        assert forall|j: int|
            i <= j < pts.len() implies min_dist2(pts[r], cs) >= min_dist2(
            #[trigger] pts[j],
            cs,
        ) by {
            if j == i {
                assert(min_dist2(pts[r], cs) >= d);
            }
        }
    }
}

spec fn covers_points(cs: Seq<ColorPoint>, pts: Seq<ColorPoint>) -> bool {
    forall|j: int| 0 <= j < pts.len() ==> cs.contains(#[trigger] pts[j])
}

proof fn lemma_init_grow_extends(
    pts: Seq<ColorPoint>,
    cs: Seq<ColorPoint>,
    rounds: nat,
    c: ColorPoint,
)
    requires
        cs.contains(c),
    ensures
        init_grow(pts, cs, rounds).contains(c),
    decreases rounds,
{
    if rounds != 0 {
        let cs2 = cs.push(pts[farthest_index(pts, cs)]);
        let idx = choose|idx: int| 0 <= idx < cs.len() && cs[idx] == c;
        assert(cs2[idx] == c);
        lemma_init_grow_extends(pts, cs2, (rounds - 1) as nat, c);
    }
}

/// Farthest-point seeding covers every distinct color, provided it has as
/// many rounds left as there are colors not yet seeded: while one is
/// missing, its distance to every centroid is positive, so the scan's
/// maximal pick is itself a missing color.
proof fn lemma_init_grow_covers(pts: Seq<ColorPoint>, cs: Seq<ColorPoint>, rounds: nat)
    requires
        1 <= pts.len() <= 1000,
        cs.len() >= 1,
        pts.to_set().difference(cs.to_set()).len() <= rounds,
    ensures
        covers_points(init_grow(pts, cs, rounds), pts),
    decreases rounds,
{
    broadcast use vstd::seq_lib::seq_to_set_is_finite;

    let unc = pts.to_set().difference(cs.to_set());
    vstd::set_lib::lemma_len_subset(unc, pts.to_set());
    if unc.len() == 0 {
        unc.lemma_len0_is_empty();
        assert forall|j: int| 0 <= j < pts.len() implies init_grow(pts, cs, rounds).contains(
            #[trigger] pts[j],
        ) by {
            assert(pts.to_set().contains(pts[j]));
            assert(!unc.contains(pts[j]));
            assert(cs.to_set().contains(pts[j]));
            lemma_init_grow_extends(pts, cs, rounds, pts[j]);
        }
    } else {
        if !(exists|u: ColorPoint| unc.contains(u)) {
            assert(unc =~= Set::<ColorPoint>::empty());
        }
        let u = unc.choose();
        assert(pts.to_set().contains(u) && !cs.to_set().contains(u));
        assert(pts.contains(u));
        let ju = choose|j: int| 0 <= j < pts.len() && pts[j] == u;
        assert forall|idx: int|
            0 <= idx < cs.len() implies dist2_points(pts[ju], #[trigger] cs[idx]) > 0 by {
            lemma_dist2_points_zero(pts[ju], cs[idx]);
            lemma_dist2_points_bound(pts[ju], cs[idx]);
            if pts[ju] == cs[idx] {
                assert(cs.contains(u));
                assert(cs.to_set().contains(u));
            }
        }
        lemma_dist2_points_bound(pts[ju], cs[0]);
        lemma_min_dist2_pos(pts[ju], cs, 1, dist2_points(pts[ju], cs[0]));
        assert(stride_for(pts.len() as int) == 1);
        let r = farthest_index(pts, cs);
        lemma_dist2_points_bound(pts[0], cs[0]);
        lemma_min_dist2_from_bound(pts[0], cs, 1, dist2_points(pts[0], cs[0]));
        lemma_far_from_max(pts, cs, 0, 0, -1);
        lemma_far_from_bound(pts, cs, 0, 1, 0, -1);
        assert(0 <= r < pts.len());
        assert(min_dist2(pts[r], cs) >= min_dist2(pts[ju], cs));
        assert(min_dist2(pts[r], cs) > 0);
        if cs.contains(pts[r]) {
            let mi = choose|m: int| 0 <= m < cs.len() && cs[m] == pts[r];
            lemma_dist2_points_bound(pts[r], cs[0]);
            lemma_min_dist2_le(pts[r], cs, 1, dist2_points(pts[r], cs[0]));
            lemma_dist2_points_zero(pts[r], cs[mi]);
            if mi == 0 {
                assert(min_dist2(pts[r], cs) <= dist2_points(pts[r], cs[0]));
            }
            assert(min_dist2(pts[r], cs) <= 0);
        }
        let cs2 = cs.push(pts[r]);
        assert forall|c: ColorPoint| cs2.contains(c) implies (cs.contains(c) || c == pts[r]) by {
            let idx = choose|idx: int| 0 <= idx < cs2.len() && cs2[idx] == c;
            if idx < cs.len() {
                assert(cs[idx] == c);
            }
        }
        assert forall|c: ColorPoint| cs.contains(c) implies cs2.contains(c) by {
            let idx = choose|idx: int| 0 <= idx < cs.len() && cs[idx] == c;
            assert(cs2[idx] == c);
        }
        assert(cs2[cs.len() as int] == pts[r]);
        assert(cs2.contains(pts[r]));
        let unc2 = pts.to_set().difference(cs2.to_set());
        assert(unc.contains(pts[r])) by {
            assert(pts.contains(pts[r]));
            assert(pts.to_set().contains(pts[r]));
        }
        assert(unc2 =~= unc.remove(pts[r]));
        assert(unc2.len() <= rounds - 1);
        lemma_init_grow_covers(pts, cs2, (rounds - 1) as nat);
        assert(init_grow(pts, cs, rounds) == init_grow(pts, cs2, (rounds - 1) as nat));
    }
}

/// When every pixel is sampled (the image has at most 1000 pixels) and `k`
/// is at least the number of distinct colors, quantization is lossless:
/// seeding reaches every distinct color, refinement keeps those exact
/// single-color clusters, and recoloring returns every channel unchanged.
pub proof fn lemma_quantize_lossless(data: Seq<u8>, k: nat)
    requires
        data.len() % 4 == 0,
        0 < data.len(),
        data.len() / 4 <= 1000,
        1 <= k,
        color_set(data).len() <= k,
    ensures
        quantize_spec(data, k) == data,
{
    broadcast use vstd::seq_lib::seq_to_set_is_finite;

    let pts = points_of(data);
    let n = pts.len() as int;
    assert(1 <= n <= 1000);
    let s: nat = if pts.len() < 1000 {
        pts.len()
    } else {
        1000
    };
    assert(s == pts.len());
    let sample = sample_seq(pts, s);
    assert forall|i: int| 0 <= i < n implies #[trigger] sample[i] == pts[i] by {
        assert(i * n == n * i) by (nonlinear_arith);
        vstd::arithmetic::div_mod::lemma_div_multiples_vanish(i, n);
    }
    assert(sample =~= pts);
    let first = sample[sample.len() as int / 4];
    let cs0 = seq![first];
    assert(cs0[0] == first);
    assert(cs0.contains(first));
    assert(cs0.to_set().contains(first));
    let unc0 = pts.to_set().difference(cs0.to_set());
    assert(pts.contains(first));
    assert(pts.to_set().contains(first));
    pts.lemma_cardinality_of_set();
    assert(pts.to_set().remove(first).len() == pts.to_set().len() - 1);
    assert(unc0.subset_of(pts.to_set().remove(first)));
    vstd::set_lib::lemma_len_subset(unc0, pts.to_set().remove(first));
    assert(color_set(data) == pts.to_set());
    assert(unc0.len() <= k - 1);
    lemma_init_grow_covers(pts, cs0, (k - 1) as nat);
    let init = initial_centroids(sample, k);
    assert(init == init_grow(pts, cs0, (k - 1) as nat));
    assert(covers_points(init, pts));
    lemma_init_grow_len(pts, cs0, (k - 1) as nat);
    let ccs = centroids_of(init);
    assert(ccs.len() == k);
    assert(unit_counts(ccs));
    assert(centroids_wf(ccs));
    assert(covers(ccs, sample)) by {
        assert forall|j: int| 0 <= j < sample.len() implies exists|m: int|
            0 <= m < ccs.len() && ccs[m] == to_centroid(#[trigger] sample[j]) by {
            assert(init.contains(pts[j]));
            let m = choose|m: int| 0 <= m < init.len() && init[m] == pts[j];
            assert(ccs[m] == to_centroid(sample[j]));
        }
    }
    lemma_refine_fixed(sample, ccs);
    let fcs = final_centroids(data, k);
    assert(fcs == ccs);
    assert forall|i: int| 0 <= i < data.len() implies #[trigger] quantize_spec(data, k)[i]
        == data[i] by {
        assert(quantize_spec(data, k)[i] == recolored_byte(data, fcs, i));
        if i % 4 != 3 {
            let j = i / 4;
            assert(data.len() == 4 * pts.len());
            assert(0 <= j < pts.len());
            let p = pts[j];
            assert(sample[j] == p);
            let m0 = choose|m: int| 0 <= m < ccs.len() && ccs[m] == to_centroid(sample[j]);
            lemma_dist2_num_self(p);
            lemma_nearest_zero(p, fcs, m0);
            let m = nearest_centroid(p, fcs);
            lemma_nearest_from_bound(p, fcs, 1, 0);
            lemma_dist2_num_zero(p, fcs[m]);
            lemma_rounded_exact(p.r as int, fcs[m].count as int);
            lemma_rounded_exact(p.g as int, fcs[m].count as int);
            lemma_rounded_exact(p.b as int, fcs[m].count as int);
            assert(i == 4 * j + i % 4);
            assert(p.r == data[4 * j] && p.g == data[4 * j + 1] && p.b == data[4 * j + 2]);
        }
    }
    assert(quantize_spec(data, k) =~= data);
}

/// Converts a flat RGBA byte buffer into its sequence of 3-channel color
/// points, one per pixel, in row-major order, alpha dropped.
pub fn extract_points(data: &Vec<u8>) -> (pts: Vec<ColorPoint>)
    requires
        data@.len() % 4 == 0,
    ensures
        pts@ == points_of(data@),
{
    let n = data.len();
    let mut pts: Vec<ColorPoint> = Vec::new();
    let mut j: usize = 0;
    while j < n / 4
        invariant
            n == data@.len(),
            n % 4 == 0,
            j <= n / 4,
            pts@.len() == j,
            forall|jj: int| 0 <= jj < j ==> pts@[jj] == points_of(data@)[jj],
        decreases n / 4 - j,
    {
        let base = 4 * j;
        pts.push(ColorPoint { r: data[base], g: data[base + 1], b: data[base + 2] });
        j = j + 1;
    }
    proof {
        assert(pts@ =~= points_of(data@));
    }
    pts
}

proof fn lemma_sample_index(i: int, n: int, s: int)
    requires
        0 <= i < s,
        s <= n,
    ensures
        0 <= i * n / s,
        i * n / s < n,
{
    vstd::arithmetic::mul::lemma_mul_inequality(i, s - 1, n);
    assert((s - 1) * n == s * n - n) by (nonlinear_arith);
    vstd::arithmetic::div_mod::lemma_multiply_divide_lt(i * n, s, n);
    vstd::arithmetic::div_mod::lemma_div_pos_is_pos(i * n, s);
    vstd::arithmetic::mul::lemma_mul_nonnegative(i, n);
}

/// Picks exactly `sample_size` evenly spaced points: element `i` is the
/// point at index `floor(i * n / sample_size)`. No randomness, no
/// shuffling: identical input gives an identical sample.
pub fn deterministic_sample(pts: &Vec<ColorPoint>, sample_size: usize) -> (out: Vec<ColorPoint>)
    requires
        sample_size <= pts@.len(),
    ensures
        out@ == sample_seq(pts@, sample_size as nat),
{
    let n = pts.len();
    let mut out: Vec<ColorPoint> = Vec::new();
    let mut i: usize = 0;
    while i < sample_size
        invariant
            n == pts@.len(),
            sample_size <= n,
            i <= sample_size,
            out@.len() == i,
            forall|ii: int| 0 <= ii < i ==> out@[ii] == sample_seq(pts@, sample_size as nat)[ii],
        decreases sample_size - i,
    {
        proof {
            lemma_sample_index(i as int, n as int, sample_size as int);
            crate::color::lemma_mul_bounds(
                i as int,
                n as int,
                0xffff_ffff_ffff_ffff,
                0xffff_ffff_ffff_ffff,
            );
        }
        let idx: usize = (((i as u128) * (n as u128)) / (sample_size as u128)) as usize;
        out.push(pts[idx]);
        i = i + 1;
    }
    proof {
        assert(out@ =~= sample_seq(pts@, sample_size as nat));
    }
    out
}

proof fn lemma_dist2_points_bound(p: ColorPoint, q: ColorPoint)
    ensures
        0 <= dist2_points(p, q) <= 195_075,
{
    crate::color::lemma_sq_bounds(p.r as int - q.r as int, 255);
    crate::color::lemma_sq_bounds(p.g as int - q.g as int, 255);
    crate::color::lemma_sq_bounds(p.b as int - q.b as int, 255);
}

proof fn lemma_min_dist2_from_bound(p: ColorPoint, cs: Seq<ColorPoint>, i: int, cur: int)
    requires
        0 <= cur <= 195_075,
    ensures
        0 <= min_dist2_from(p, cs, i, cur) <= 195_075,
    decreases cs.len() - i,
{
    if 0 <= i && i < cs.len() {
        lemma_dist2_points_bound(p, cs[i]);
        if dist2_points(p, cs[i]) < cur {
            lemma_min_dist2_from_bound(p, cs, i + 1, dist2_points(p, cs[i]));
        } else {
            lemma_min_dist2_from_bound(p, cs, i + 1, cur);
        }
    }
}

/// Smallest squared distance from `p` to any existing centroid.
fn min_dist2_exec(p: ColorPoint, cs: &Vec<ColorPoint>) -> (d: u64)
    requires
        cs@.len() >= 1,
    ensures
        d as int == min_dist2(p, cs@),
        d <= 195_075,
{
    let mut cur = squared_distance(p, cs[0]);
    let mut i: usize = 1;
    while i < cs.len()
        invariant
            cs@.len() >= 1,
            1 <= i <= cs@.len(),
            cur <= 195_075,
            min_dist2_from(p, cs@, i as int, cur as int) == min_dist2(p, cs@),
        decreases cs@.len() - i,
    {
        let d = squared_distance(p, cs[i]);
        if d < cur {
            cur = d;
        }
        i = i + 1;
    }
    cur
}

proof fn lemma_far_from_bound(
    pts: Seq<ColorPoint>,
    cs: Seq<ColorPoint>,
    i: int,
    stride: int,
    best_i: int,
    best_d: int,
)
    requires
        0 <= best_i < pts.len(),
        stride >= 1,
    ensures
        0 <= far_from(pts, cs, i, stride, best_i, best_d) < pts.len(),
    decreases pts.len() + stride - i,
{
    if 0 <= i && i < pts.len() {
        if min_dist2(pts[i], cs) > best_d {
            lemma_far_from_bound(pts, cs, i + stride, stride, i, min_dist2(pts[i], cs));
        } else {
            lemma_far_from_bound(pts, cs, i + stride, stride, best_i, best_d);
        }
    }
}

/// Deterministic farthest-point seeding: the first centroid is the point
/// at the quarter position; each further round scans a deterministic
/// stride of the points and picks the one whose smallest distance to the
/// existing centroids is largest.
pub fn initialize_centroids_deterministic(pts: &Vec<ColorPoint>, k: usize) -> (cs: Vec<ColorPoint>)
    requires
        pts@.len() <= 1_000_000_000,
    ensures
        cs@ == initial_centroids(pts@, k as nat),
        pts@.len() >= 1 && k >= 1 ==> cs@.len() == k,
{
    if pts.len() == 0 || k == 0 {
        let empty: Vec<ColorPoint> = Vec::new();
        proof {
            assert(empty@ =~= initial_centroids(pts@, k as nat));
        }
        return empty;
    }
    let mut cs: Vec<ColorPoint> = Vec::new();
    cs.push(pts[pts.len() / 4]);
    proof {
        assert(cs@ =~= seq![pts@[pts@.len() as int / 4]]);
    }
    let stride: usize = if pts.len() / 1000 >= 1 {
        pts.len() / 1000
    } else {
        1
    };
    let ghost target = initial_centroids(pts@, k as nat);
    let mut r: usize = 1;
    while r < k
        invariant
            1 <= r <= k,
            pts@.len() >= 1,
            pts@.len() <= 1_000_000_000,
            stride as int == stride_for(pts@.len() as int),
            1 <= stride,
            cs@.len() == r,
            init_grow(pts@, cs@, (k - r) as nat) == target,
            target == initial_centroids(pts@, k as nat),
        decreases k - r,
    {
        let mut i: usize = 0;
        let mut best_i: usize = 0;
        let mut best_d: i64 = -1;
        while i < pts.len()
            invariant
                pts@.len() >= 1,
                pts@.len() <= 1_000_000_000,
                1 <= stride <= 1_000_000_000,
                cs@.len() >= 1,
                best_i < pts@.len(),
                -1 <= best_d <= 195_075,
                far_from(pts@, cs@, i as int, stride as int, best_i as int, best_d as int)
                    == farthest_index(pts@, cs@),
            decreases pts@.len() + stride - i,
        {
            let d = min_dist2_exec(pts[i], &cs);
            if (d as i64) > best_d {
                best_i = i;
                best_d = d as i64;
            }
            i = i + stride;
        }
        proof {
            lemma_far_from_bound(pts@, cs@, 0, stride as int, 0, -1);
        }
        cs.push(pts[best_i]);
        r = r + 1;
    }
    cs
}

/// Exec accumulator mirroring one `(sum_r, sum_g, sum_b, count)` entry.
struct Accum {
    r: u64,
    g: u64,
    b: u64,
    n: u64,
}

spec fn acc_view(s: Seq<Accum>) -> Seq<(int, int, int, int)> {
    Seq::new(s.len(), |i: int| (s[i].r as int, s[i].g as int, s[i].b as int, s[i].n as int))
}

/// One assign-and-average step over the sample: per-centroid running sums
/// and counts are accumulated in a single index-tagged pass, then every
/// non-empty cluster becomes the exact mean of its members and every
/// empty cluster keeps its previous centroid.
fn update_centroids_exec(sample: &Vec<ColorPoint>, cs: &Vec<Centroid>) -> (new_cs: Vec<Centroid>)
    requires
        cs@.len() >= 1,
        centroids_wf(cs@),
        sample@.len() <= 1000,
    ensures
        new_cs@ == updated_centroids(sample@, cs@),
        new_cs@.len() == cs@.len(),
        centroids_wf(new_cs@),
{
    let k = cs.len();
    let mut acc: Vec<Accum> = Vec::new();
    let mut i: usize = 0;
    while i < k
        invariant
            i <= k,
            acc@.len() == i,
            forall|ii: int|
                0 <= ii < i ==> {
                    &&& (#[trigger] acc@[ii]).r == 0
                    &&& acc@[ii].g == 0
                    &&& acc@[ii].b == 0
                    &&& acc@[ii].n == 0
                },
        decreases k - i,
    {
        acc.push(Accum { r: 0, g: 0, b: 0, n: 0 });
        i = i + 1;
    }
    proof {
        assert forall|ii: int| 0 <= ii < k implies acc_view(acc@)[ii] == zero_acc(cs@.len())[ii] by {
        }
        assert(acc_view(acc@) =~= zero_acc(cs@.len()));
    }
    let mut j: usize = 0;
    while j < sample.len()
        invariant
            k == cs@.len(),
            cs@.len() >= 1,
            centroids_wf(cs@),
            sample@.len() <= 1000,
            j <= sample@.len(),
            acc@.len() == k,
            forall|ii: int|
                0 <= ii < k ==> {
                    &&& (#[trigger] acc@[ii]).n <= j
                    &&& acc@[ii].r <= 255 * acc@[ii].n
                    &&& acc@[ii].g <= 255 * acc@[ii].n
                    &&& acc@[ii].b <= 255 * acc@[ii].n
                },
            accum_from(sample@, cs@, j as int, acc_view(acc@)) == cluster_sums(sample@, cs@),
        decreases sample@.len() - j,
    {
        let p = sample[j];
        let m = find_nearest_centroid(p, cs);
        let ghost before = acc_view(acc@);
        let a_r = acc[m].r;
        let a_g = acc[m].g;
        let a_b = acc[m].b;
        let a_n = acc[m].n;
        acc[m] = Accum { r: a_r + (p.r as u64), g: a_g + (p.g as u64), b: a_b + (p.b as u64), n: a_n
            + 1 };
        proof {
            assert(acc_view(acc@) =~= before.update(
                m as int,
                (
                    before[m as int].0 + p.r,
                    before[m as int].1 + p.g,
                    before[m as int].2 + p.b,
                    before[m as int].3 + 1,
                ),
            ));
        }
        j = j + 1;
    }
    let mut new_cs: Vec<Centroid> = Vec::new();
    let mut i2: usize = 0;
    while i2 < k
        invariant
            k == cs@.len(),
            centroids_wf(cs@),
            sample@.len() <= 1000,
            i2 <= k,
            acc@.len() == k,
            forall|ii: int|
                0 <= ii < k ==> {
                    &&& (#[trigger] acc@[ii]).n <= sample@.len()
                    &&& acc@[ii].r <= 255 * acc@[ii].n
                    &&& acc@[ii].g <= 255 * acc@[ii].n
                    &&& acc@[ii].b <= 255 * acc@[ii].n
                },
            acc_view(acc@) == cluster_sums(sample@, cs@),
            new_cs@.len() == i2,
            forall|ii: int|
                0 <= ii < i2 ==> #[trigger] new_cs@[ii] == updated_centroids(sample@, cs@)[ii],
            forall|ii: int| 0 <= ii < i2 ==> centroid_wf(#[trigger] new_cs@[ii]),
        decreases k - i2,
    {
        if acc[i2].n == 0 {
            new_cs.push(cs[i2]);
        } else {
            new_cs.push(
                Centroid { sum_r: acc[i2].r, sum_g: acc[i2].g, sum_b: acc[i2].b, count: acc[i2].n },
            );
        }
        i2 = i2 + 1;
    }
    proof {
        assert(new_cs@ =~= updated_centroids(sample@, cs@));
    }
    new_cs
}

/// True when every centroid moved by at most the convergence threshold of
/// one unit of Euclidean distance since the previous iteration.
pub fn centroids_converged(old_cs: &Vec<Centroid>, new_cs: &Vec<Centroid>) -> (r: bool)
    requires
        old_cs@.len() == new_cs@.len(),
        centroids_wf(old_cs@),
        centroids_wf(new_cs@),
    ensures
        r == all_within_unit(old_cs@, new_cs@),
{
    let mut i: usize = 0;
    while i < old_cs.len()
        invariant
            old_cs@.len() == new_cs@.len(),
            centroids_wf(old_cs@),
            centroids_wf(new_cs@),
            i <= old_cs@.len(),
            forall|ii: int| 0 <= ii < i ==> within_unit(old_cs@[ii], #[trigger] new_cs@[ii]),
        decreases old_cs@.len() - i,
    {
        if !within_unit_exec(&old_cs[i], &new_cs[i]) {
            assert(!all_within_unit(old_cs@, new_cs@));
            return false;
        }
        i = i + 1;
    }
    true
}

/// Reduces the buffer to at most `k` representative colors by
/// deterministic K-means clustering: reproducible farthest-point seeding
/// over an evenly spaced sample, at most 20 assign-and-average rounds
/// with a convergence early-exit, then every original pixel is recolored
/// with its nearest final centroid, alpha preserved. Rejects a buffer
/// whose length does not match the stated dimensions.
pub fn quantize(data: &Vec<u8>, width: u32, height: u32, k: usize) -> (out: Result<
    Vec<u8>,
    TransformError,
>)
    requires
        k >= 1,
    ensures
        match out {
            Ok(o) => dims_match(data@, width as int, height as int) && o@ == quantize_spec(
                data@,
                k as nat,
            ) && o@.len() == data@.len(),
            Err(e) => e == TransformError::LengthMismatch && !dims_match(
                data@,
                width as int,
                height as int,
            ),
        },
{
    if !crate::check_dims(data, width, height) {
        return Err(TransformError::LengthMismatch);
    }
    proof {
        let w = width as int;
        let h = height as int;
        assert((4 * w) * h == 4 * (w * h)) by (nonlinear_arith);
        assert((4 * (w * h)) % 4 == 0);
    }
    if data.len() == 0 {
        let empty: Vec<u8> = Vec::new();
        proof {
            assert(empty@ =~= quantize_spec(data@, k as nat));
        }
        return Ok(empty);
    }
    let pts = extract_points(data);
    let sample_size: usize = if pts.len() < SAMPLE_CAP {
        pts.len()
    } else {
        SAMPLE_CAP
    };
    let sample = deterministic_sample(&pts, sample_size);
    let seeds = initialize_centroids_deterministic(&sample, k);
    let mut cs: Vec<Centroid> = Vec::new();
    let mut i: usize = 0;
    while i < seeds.len()
        invariant
            i <= seeds@.len(),
            cs@.len() == i,
            forall|ii: int| 0 <= ii < i ==> #[trigger] cs@[ii] == centroids_of(seeds@)[ii],
        decreases seeds@.len() - i,
    {
        let p = seeds[i];
        cs.push(Centroid { sum_r: p.r as u64, sum_g: p.g as u64, sum_b: p.b as u64, count: 1 });
        i = i + 1;
    }
    proof {
        assert(cs@ =~= centroids_of(seeds@));
    }
    let ghost cs0 = cs@;
    let ghost kk = cs@.len();
    proof {
        assert(kk == k);
        assert(centroids_wf(cs0));
    }
    let mut it: usize = 0;
    while it < MAX_ITERATIONS
        invariant
            it <= MAX_ITERATIONS,
            cs@.len() == kk,
            kk >= 1,
            centroids_wf(cs@),
            sample@.len() <= 1000,
            refine_from(sample@, cs@, (MAX_ITERATIONS - it) as nat) == refine_from(
                sample@,
                cs0,
                MAX_ITERATIONS as nat,
            ),
        ensures
            cs@.len() == kk,
            centroids_wf(cs@),
            cs@ == refine_from(sample@, cs0, MAX_ITERATIONS as nat),
        decreases MAX_ITERATIONS - it,
    {
        let new_cs = update_centroids_exec(&sample, &cs);
        if centroids_converged(&cs, &new_cs) {
            break ;
        }
        cs = new_cs;
        it = it + 1;
    }
    let n_px = pts.len();
    let mut out: Vec<u8> = Vec::new();
    let mut j: usize = 0;
    while j < n_px
        invariant
            n_px == pts@.len(),
            pts@ == points_of(data@),
            data@.len() % 4 == 0,
            data@.len() == 4 * n_px,
            data@.len() <= usize::MAX,
            cs@.len() >= 1,
            centroids_wf(cs@),
            j <= n_px,
            out@.len() == 4 * j,
            forall|i2: int| 0 <= i2 < 4 * j ==> out@[i2] == recolored_byte(data@, cs@, i2),
        decreases n_px - j,
    {
        let p = pts[j];
        let m = find_nearest_centroid(p, &cs);
        let c = cs[m];
        out.push(rounded_channel_exec(c.sum_r, c.count));
        out.push(rounded_channel_exec(c.sum_g, c.count));
        out.push(rounded_channel_exec(c.sum_b, c.count));
        out.push(data[4 * j + 3]);
        j = j + 1;
    }
    proof {
        assert(cs@ == final_centroids(data@, k as nat));
        assert(out@ =~= quantize_spec(data@, k as nat));
    }
    Ok(out)
}

} // verus!
