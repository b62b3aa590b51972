//! Iterative k-means clustering over a flat 2-D point buffer.
//!
//! Coordinates are fixed-point integers: callers that hold fractional data
//! scale it to integers before the call and divide afterwards. The kernel
//! seeds the `k` centroids with the first `k` input points, then runs a
//! fixed number of refinement rounds: each point joins the centroid at
//! minimal squared Euclidean distance (the lowest centroid index wins
//! ties), and each centroid with at least one member moves to the
//! truncated mean of its members; a centroid with no members keeps its
//! position. The bounds on coordinates and buffer length keep every
//! distance and running sum inside 64-bit arithmetic.

use vstd::prelude::*;
use vstd::arithmetic::div_mod::lemma_div_is_ordered;
use vstd::arithmetic::div_mod::lemma_div_multiples_vanish;

verus! {

/// Largest coordinate magnitude the kernel accepts.
pub const COORD_LIMIT: i64 = 1_000_000;

/// Largest point buffer length the kernel accepts.
pub const MAX_POINT_BUFFER: usize = 100_000_000;

/// The x coordinate of point `i` of a flat pair buffer.
pub open spec fn px(ps: Seq<i64>, i: int) -> int {
    ps[2 * i] as int
}

/// The y coordinate of point `i` of a flat pair buffer.
pub open spec fn py(ps: Seq<i64>, i: int) -> int {
    ps[2 * i + 1] as int
}

/// Squared Euclidean distance between two points.
pub open spec fn sq_dist(x1: int, y1: int, x2: int, y2: int) -> int {
    (x1 - x2) * (x1 - x2) + (y1 - y2) * (y1 - y2)
}

/// Squared distance from point `i` of `ps` to centroid `c` of `cs`.
pub open spec fn dist_to(ps: Seq<i64>, cs: Seq<i64>, i: int, c: int) -> int {
    sq_dist(px(ps, i), py(ps, i), px(cs, c), py(cs, c))
}

/// Index of the nearest centroid to point `i` among the first `c`
/// centroids; only a strictly smaller distance displaces the running best,
/// so the lowest index wins ties.
pub open spec fn nearest_upto(ps: Seq<i64>, cs: Seq<i64>, i: int, c: int) -> int
    decreases c,
{
    if c <= 1 {
        0
    } else {
        let b = nearest_upto(ps, cs, i, c - 1);
        if dist_to(ps, cs, i, c - 1) < dist_to(ps, cs, i, b) {
            c - 1
        } else {
            b
        }
    }
}

/// How many of the first `n` points are assigned to centroid `c`.
pub open spec fn cluster_count(ps: Seq<i64>, cs: Seq<i64>, k: int, c: int, n: int) -> int
    decreases n,
{
    if n <= 0 {
        0
    } else {
        cluster_count(ps, cs, k, c, n - 1) + if nearest_upto(ps, cs, n - 1, k) == c {
            1int
        } else {
            0int
        }
    }
}

/// Sum of the x coordinates of the points assigned to centroid `c`.
pub open spec fn cluster_sum_x(ps: Seq<i64>, cs: Seq<i64>, k: int, c: int, n: int) -> int
    decreases n,
{
    if n <= 0 {
        0
    } else {
        cluster_sum_x(ps, cs, k, c, n - 1) + if nearest_upto(ps, cs, n - 1, k) == c {
            px(ps, n - 1)
        } else {
            0int
        }
    }
}

/// Sum of the y coordinates of the points assigned to centroid `c`.
pub open spec fn cluster_sum_y(ps: Seq<i64>, cs: Seq<i64>, k: int, c: int, n: int) -> int
    decreases n,
{
    if n <= 0 {
        0
    } else {
        cluster_sum_y(ps, cs, k, c, n - 1) + if nearest_upto(ps, cs, n - 1, k) == c {
            py(ps, n - 1)
        } else {
            0int
        }
    }
}

/// Division that truncates toward zero, the rounding the kernel uses for
/// centroid means.
pub open spec fn div_trunc(a: int, b: int) -> int {
    if a >= 0 {
        a / b
    } else {
        -((-a) / b)
    }
}

/// The centroid buffer after one refinement round: each centroid with
/// members moves to the truncated mean of their coordinates, and a
/// centroid without members stays in place.
pub open spec fn step_spec(ps: Seq<i64>, cs: Seq<i64>, k: int, n: int) -> Seq<i64> {
    Seq::new((2 * k) as nat, |j: int|
        {
            let c = j / 2;
            if cluster_count(ps, cs, k, c, n) > 0 {
                if j % 2 == 0 {
                    div_trunc(cluster_sum_x(ps, cs, k, c, n), cluster_count(ps, cs, k, c, n))
                        as i64
                } else {
                    div_trunc(cluster_sum_y(ps, cs, k, c, n), cluster_count(ps, cs, k, c, n))
                        as i64
                }
            } else {
                cs[j]
            }
        })
}

/// The centroid buffer after `iters` refinement rounds, starting from the
/// first `k` points.
pub open spec fn kmeans_spec(ps: Seq<i64>, k: int, n: int, iters: int) -> Seq<i64>
    decreases iters,
{
    if iters <= 0 {
        ps.subrange(0, 2 * k)
    } else {
        step_spec(ps, kmeans_spec(ps, k, n, iters - 1), k, n)
    }
}

/// A cluster never holds more members than there are points.
proof fn lemma_cluster_count_bound(ps: Seq<i64>, cs: Seq<i64>, k: int, c: int, n: int)
    ensures
        0 <= cluster_count(ps, cs, k, c, n) <= (if n <= 0 { 0int } else { n }),
    decreases n,
{
    if n > 0 {
        lemma_cluster_count_bound(ps, cs, k, c, n - 1);
    }
}

/// With every coordinate bounded by `COORD_LIMIT`, a cluster's coordinate
/// sum is bounded by its member count times `COORD_LIMIT`.
proof fn lemma_cluster_sum_bounds(ps: Seq<i64>, cs: Seq<i64>, k: int, c: int, n: int)
    requires
        2 * n <= ps.len(),
        forall|j: int| 0 <= j < ps.len() ==> -COORD_LIMIT <= #[trigger] ps[j] <= COORD_LIMIT,
    ensures
        -cluster_count(ps, cs, k, c, n) * (COORD_LIMIT as int) <= cluster_sum_x(ps, cs, k, c, n),
        cluster_sum_x(ps, cs, k, c, n) <= cluster_count(ps, cs, k, c, n) * (COORD_LIMIT as int),
        -cluster_count(ps, cs, k, c, n) * (COORD_LIMIT as int) <= cluster_sum_y(ps, cs, k, c, n),
        cluster_sum_y(ps, cs, k, c, n) <= cluster_count(ps, cs, k, c, n) * (COORD_LIMIT as int),
    decreases n,
{
    lemma_cluster_count_bound(ps, cs, k, c, n);
    if n > 0 {
        lemma_cluster_sum_bounds(ps, cs, k, c, n - 1);
        lemma_cluster_count_bound(ps, cs, k, c, n - 1);
    }
}

/// Law: a centroid that no point joined keeps its exact position through
/// a refinement round.
pub proof fn lemma_empty_cluster_keeps_centroid(
    ps: Seq<i64>,
    cs: Seq<i64>,
    k: int,
    n: int,
    c: int,
)
    requires
        0 <= c < k,
        cs.len() == 2 * k,
        cluster_count(ps, cs, k, c, n) == 0,
    ensures
        step_spec(ps, cs, k, n)[2 * c] == cs[2 * c],
        step_spec(ps, cs, k, n)[2 * c + 1] == cs[2 * c + 1],
{
    assert((2 * c) / 2 == c);
    assert((2 * c + 1) / 2 == c);
}

/// Runs `iterations` refinement rounds of k-means over `points` (flat
/// `(x, y)` pairs) with `k` clusters seeded from the first `k` points;
/// returns the flat centroid buffer. With zero iterations the centroids
/// are exactly the first `k` points. The coordinate and length bounds are
/// machine limits: they keep squared distances and coordinate sums inside
/// `i64`.
#[verifier::loop_isolation(false)]
#[verifier::rlimit(100)]
pub fn k_means_clustering(points: &Vec<i64>, k: usize, iterations: usize) -> (r: Vec<i64>)
    requires
        points@.len() % 2 == 0,
        1 <= k,
        2 * k <= points@.len(),
        points@.len() <= MAX_POINT_BUFFER,
        forall|j: int| 0 <= j < points@.len() ==> -COORD_LIMIT <= #[trigger] points@[j]
            <= COORD_LIMIT,
    ensures
        r@.len() == 2 * k,
        r@ == kmeans_spec(points@, k as int, points@.len() as int / 2, iterations as int),
        iterations == 0 ==> r@ == points@.subrange(0, 2 * k),
{
    let n = points.len() / 2;
    let mut centroids: Vec<i64> = Vec::new();
    let mut t: usize = 0;
    while t < 2 * k
        invariant
            t <= 2 * k,
            centroids@ =~= points@.subrange(0, t as int),
        decreases 2 * k - t,
    {
        centroids.push(points[t]);
        t = t + 1;
    }
    assert(centroids@ =~= kmeans_spec(points@, k as int, n as int, 0));

    let mut it: usize = 0;
    while it < iterations
        invariant
            it <= iterations,
            centroids@.len() == 2 * k,
            centroids@ == kmeans_spec(points@, k as int, n as int, it as int),
            forall|j: int| 0 <= j < 2 * k ==> -COORD_LIMIT <= #[trigger] centroids@[j]
                <= COORD_LIMIT,
        decreases iterations - it,
    {
        let ghost prev = centroids@;
        let mut sums: Vec<i64> = Vec::new();
        let mut counts: Vec<usize> = Vec::new();
        let mut t: usize = 0;
        while t < k
            invariant
                t <= k,
                sums@.len() == 2 * t,
                counts@.len() == t,
                forall|c: int| 0 <= c < t ==> (#[trigger] counts@[c]) == 0,
                forall|j: int| 0 <= j < 2 * t ==> (#[trigger] sums@[j]) == 0i64,
            decreases k - t,
        {
            sums.push(0);
            sums.push(0);
            counts.push(0);
            t = t + 1;
        }

        let mut i: usize = 0;
        while i < n
            invariant
                i <= n,
                sums@.len() == 2 * k,
                counts@.len() == k,
                forall|c: int| 0 <= c < k ==> (#[trigger] counts@[c]) as int == cluster_count(
                    points@, prev, k as int, c, i as int),
                forall|c: int| 0 <= c < k ==> (#[trigger] sums@[2 * c]) as int == cluster_sum_x(
                    points@, prev, k as int, c, i as int),
                forall|c: int| 0 <= c < k ==> (#[trigger] sums@[2 * c + 1]) as int
                    == cluster_sum_y(points@, prev, k as int, c, i as int),
            decreases n - i,
        {
            let pxv = points[2 * i];
            let pyv = points[2 * i + 1];
            let dx0 = pxv - centroids[0];
            let dy0 = pyv - centroids[1];
            proof {
                assert(0 <= dx0 * dx0 <= 4_000_000_000_000 && 0 <= dy0 * dy0
                    <= 4_000_000_000_000) by (nonlinear_arith)
                    requires
                        -2_000_000 <= dx0 <= 2_000_000,
                        -2_000_000 <= dy0 <= 2_000_000;
            }
            let mut best: usize = 0;
            let mut best_dist: i64 = dx0 * dx0 + dy0 * dy0;
            let mut c: usize = 1;
            while c < k
                invariant
                    1 <= c <= k,
                    best < c,
                    best as int == nearest_upto(points@, prev, i as int, c as int),
                    best_dist as int == dist_to(points@, prev, i as int, best as int),
                decreases k - c,
            {
                let dx = pxv - centroids[2 * c];
                let dy = pyv - centroids[2 * c + 1];
                proof {
                    assert(0 <= dx * dx <= 4_000_000_000_000 && 0 <= dy * dy
                        <= 4_000_000_000_000) by (nonlinear_arith)
                        requires
                            -2_000_000 <= dx <= 2_000_000,
                            -2_000_000 <= dy <= 2_000_000;
                }
                let dist = dx * dx + dy * dy;
                if dist < best_dist {
                    best_dist = dist;
                    best = c;
                }
                c = c + 1;
            }
            proof {
                lemma_cluster_count_bound(points@, prev, k as int, best as int, i as int);
                lemma_cluster_sum_bounds(points@, prev, k as int, best as int, i as int);
                assert(cluster_count(points@, prev, k as int, best as int, i as int)
                    * (COORD_LIMIT as int) <= MAX_POINT_BUFFER as int * (COORD_LIMIT as int));
            }
            let old_sx = sums[2 * best];
            let old_sy = sums[2 * best + 1];
            sums.set(2 * best, old_sx + pxv);
            sums.set(2 * best + 1, old_sy + pyv);
            let old_count = counts[best];
            counts.set(best, old_count + 1);
            proof {
                assert forall|cc: int| 0 <= cc < k implies (#[trigger] counts@[cc]) as int
                    == cluster_count(points@, prev, k as int, cc, i as int + 1)
                    && sums@[2 * cc] as int == cluster_sum_x(points@, prev, k as int, cc,
                    i as int + 1) && sums@[2 * cc + 1] as int == cluster_sum_y(points@, prev,
                    k as int, cc, i as int + 1) by {
                    assert(nearest_upto(points@, prev, i as int, k as int) == best as int);
                }
            }
            i = i + 1;
        }

        let mut c: usize = 0;
        while c < k
            invariant
                c <= k,
                centroids@.len() == 2 * k,
                counts@.len() == k,
                sums@.len() == 2 * k,
                forall|j: int| 0 <= j < 2 * c ==> (#[trigger] centroids@[j]) == step_spec(
                    points@, prev, k as int, n as int)[j],
                forall|j: int| 2 * c <= j < 2 * k ==> (#[trigger] centroids@[j]) == prev[j],
                forall|j: int| 0 <= j < 2 * k ==> -COORD_LIMIT <= #[trigger] centroids@[j]
                    <= COORD_LIMIT,
            decreases k - c,
        {
            let cnt = counts[c];
            proof {
                lemma_cluster_count_bound(points@, prev, k as int, c as int, n as int);
                lemma_cluster_sum_bounds(points@, prev, k as int, c as int, n as int);
            }
            if cnt > 0 {
                let sx = sums[2 * c];
                let sy = sums[2 * c + 1];
                let mx = mean_coordinate(sx, cnt);
                let my = mean_coordinate(sy, cnt);
                proof {
                    assert((2 * c as int) / 2 == c as int);
                    assert((2 * c as int + 1) / 2 == c as int);
                }
                centroids.set(2 * c, mx);
                centroids.set(2 * c + 1, my);
            } else {
                proof {
                    assert((2 * c as int) / 2 == c as int);
                    assert((2 * c as int + 1) / 2 == c as int);
                    assert(step_spec(points@, prev, k as int, n as int)[2 * c as int]
                        == prev[2 * c as int]);
                    assert(step_spec(points@, prev, k as int, n as int)[2 * c as int + 1]
                        == prev[2 * c as int + 1]);
                }
            }
            c = c + 1;
        }
        proof {
            assert(centroids@ =~= step_spec(points@, prev, k as int, n as int));
        }
        it = it + 1;
    }
    centroids
}

/// The truncated mean of a bounded coordinate sum: divides toward zero
/// and stays within the coordinate bound.
#[verifier::loop_isolation(false)]
fn mean_coordinate(sum: i64, count: usize) -> (m: i64)
    requires
        count >= 1,
        -(count as int) * (COORD_LIMIT as int) <= sum,
        sum <= (count as int) * (COORD_LIMIT as int),
        count <= MAX_POINT_BUFFER,
    ensures
        m as int == div_trunc(sum as int, count as int),
        -COORD_LIMIT <= m <= COORD_LIMIT,
{
    proof {
        lemma_div_multiples_vanish(COORD_LIMIT as int, count as int);
        if sum >= 0 {
            lemma_div_is_ordered(sum as int, (count as int) * (COORD_LIMIT as int),
                count as int);
        } else {
            lemma_div_is_ordered(-(sum as int), (count as int) * (COORD_LIMIT as int),
                count as int);
        }
    }
    if sum >= 0 {
        ((sum as u64) / (count as u64)) as i64
    } else {
        -(((-sum) as u64 / (count as u64)) as i64)
    }
}

} // verus!
