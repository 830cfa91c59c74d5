//! k-means clustering: seeding, assignment, centroid update, and the choice
//! of the best of several restarts.
use crate::geom::{
    distance, distance_squared, lemma_distance_symmetric, lemma_squared_distance_bounds,
    rounded_distance, squared_distance, Bounds, Point,
};
use crate::math::{average_f32, lemma_mean_within, mean};
use crate::random::{sample_between, sample_weighted, seeded, weight_sum};
use rand::rngs::StdRng;
use vstd::prelude::*;

verus! {

/// The most iterations that one restart performs beyond its first.
pub const MAX_ITERATIONS: u16 = 65535;

/// The most points that can be clustered: with more, sums of squared
/// distances could exceed 128 bits.
pub const MAX_POINTS: u64 = 0x4000_0000_0000_0000;

/// The `i`-th point of the set whose coordinates are `xs` and `ys`.
pub open spec fn point_at(xs: Seq<i32>, ys: Seq<i32>, i: int) -> Point {
    Point { x: xs[i], y: ys[i] }
}

/// The index of the centroid nearest to `p`; among equally near ones, the
/// lowest. Meaningful where there is at least one centroid.
pub open spec fn nearest(p: Point, centroids: Seq<Point>) -> int
    decreases centroids.len(),
{
    if centroids.len() <= 1 {
        0
    } else {
        let j = nearest(p, centroids.drop_last());
        if squared_distance(p, centroids.last()) < squared_distance(p, centroids[j]) {
            centroids.len() - 1
        } else {
            j
        }
    }
}

/// The label of every point: the index of its nearest centroid.
pub open spec fn assignment(xs: Seq<i32>, ys: Seq<i32>, centroids: Seq<Point>) -> Seq<usize> {
    Seq::new(xs.len(), |i: int| nearest(point_at(xs, ys, i), centroids) as usize)
}

/// What `nearest` names is an index of a centroid, no centroid is nearer than
/// it, and every centroid before it is strictly farther.
pub proof fn lemma_nearest(p: Point, centroids: Seq<Point>)
    requires
        centroids.len() > 0,
    ensures
        0 <= nearest(p, centroids) < centroids.len(),
        forall|i: int|
            0 <= i < centroids.len() ==> squared_distance(p, centroids[nearest(p, centroids)])
                <= squared_distance(p, #[trigger] centroids[i]),
        forall|i: int|
            0 <= i < nearest(p, centroids) ==> squared_distance(
                p,
                centroids[nearest(p, centroids)],
            ) < squared_distance(p, #[trigger] centroids[i]),
    decreases centroids.len(),
{
    if centroids.len() > 1 {
        let rest = centroids.drop_last();
        lemma_nearest(p, rest);
        assert forall|i: int| 0 <= i < rest.len() implies rest[i] == centroids[i] by {}
    }
}

/// Finds the centroid nearest to `p`, preferring the lowest index among
/// equally near ones, and the squared distance to it.
pub fn nearest_centroid(p: Point, centroids: &[Point]) -> (res: (usize, u128))
    requires
        centroids@.len() > 0,
    ensures
        res.0 == nearest(p, centroids@),
        res.0 < centroids@.len(),
        res.1 == squared_distance(p, centroids@[res.0 as int]),
{
    let k: usize = centroids.len();
    let mut best: usize = 0;
    let mut least: u128 = distance_squared(p, centroids[0]);
    let mut j: usize = 1;
    while j < k
        invariant
            1 <= j <= k,
            k == centroids@.len(),
            best == nearest(p, centroids@.take(j as int)),
            best < j,
            least == squared_distance(p, centroids@[best as int]),
        decreases k - j,
    {
        proof {
            assert(centroids@.take(j + 1).drop_last() =~= centroids@.take(j as int));
        }
        let d: u128 = distance_squared(p, centroids[j]);
        if d < least {
            best = j;
            least = d;
        }
        j = j + 1;
    }
    proof {
        assert(centroids@.take(k as int) =~= centroids@);
    }
    (best, least)
}

/// Gives every point the label of its nearest centroid.
pub fn label_points(xs: &[i32], ys: &[i32], labels: &mut Vec<usize>, centroids: &[Point])
    requires
        xs@.len() == ys@.len(),
        old(labels)@.len() == xs@.len(),
        centroids@.len() > 0,
    ensures
        final(labels)@ == assignment(xs@, ys@, centroids@),
        forall|i: int| 0 <= i < xs@.len() ==> final(labels)@[i] < centroids@.len(),
{
    let n: usize = xs.len();
    let mut i: usize = 0;
    while i < n
        invariant
            i <= n,
            n == xs@.len(),
            n == ys@.len(),
            n == labels@.len(),
            centroids@.len() > 0,
            forall|j: int|
                0 <= j < i ==> labels@[j] == nearest(point_at(xs@, ys@, j), centroids@)
                    && labels@[j] < centroids@.len(),
        decreases n - i,
    {
        let found: (usize, u128) = nearest_centroid(Point { x: xs[i], y: ys[i] }, centroids);
        labels.set(i, found.0);
        i = i + 1;
    }
}

/// The values of the first `upto` points that carry the label `c`, in order.
pub open spec fn cohort_upto(vals: Seq<i32>, labels: Seq<usize>, c: int, upto: nat) -> Seq<i64>
    decreases upto,
{
    if upto == 0 {
        Seq::empty()
    } else {
        let rest = cohort_upto(vals, labels, c, (upto - 1) as nat);
        if labels[upto - 1] == c {
            rest.push(vals[upto - 1] as i64)
        } else {
            rest
        }
    }
}

/// The values of the points that carry the label `c`, in order.
pub open spec fn cohort(vals: Seq<i32>, labels: Seq<usize>, c: int) -> Seq<i64> {
    cohort_upto(vals, labels, c, vals.len())
}

/// Where cluster `c` stands after an update: at the mean of its members, or
/// where it stood if it has none.
pub open spec fn recentered(
    xs: Seq<i32>,
    ys: Seq<i32>,
    labels: Seq<usize>,
    before: Point,
    c: int,
) -> Point {
    if cohort(xs, labels, c).len() == 0 {
        before
    } else {
        Point { x: mean(cohort(xs, labels, c)) as i32, y: mean(cohort(ys, labels, c)) as i32 }
    }
}

/// The centroids after one update.
pub open spec fn update(
    xs: Seq<i32>,
    ys: Seq<i32>,
    labels: Seq<usize>,
    centroids: Seq<Point>,
) -> Seq<Point> {
    Seq::new(centroids.len(), |c: int| recentered(xs, ys, labels, centroids[c], c))
}

/// The distance, summed over the first `upto` centroids, between where each
/// stood before and where it stands after.
pub open spec fn movement_upto(before: Seq<Point>, after: Seq<Point>, upto: nat) -> int
    decreases upto,
{
    if upto == 0 {
        0
    } else {
        movement_upto(before, after, (upto - 1) as nat) + rounded_distance(
            before[upto - 1],
            after[upto - 1],
        )
    }
}

/// The distance, summed over all centroids, between where each stood before
/// and where it stands after.
pub open spec fn movement(before: Seq<Point>, after: Seq<Point>) -> int {
    movement_upto(before, after, before.len())
}

/// A cohort holds as many x-coordinates as y-coordinates, and each of them
/// is a coordinate.
pub proof fn lemma_cohort_len(xs: Seq<i32>, ys: Seq<i32>, labels: Seq<usize>, c: int, upto: nat)
    ensures
        cohort_upto(xs, labels, c, upto).len() == cohort_upto(ys, labels, c, upto).len(),
        cohort_upto(xs, labels, c, upto).len() <= upto,
        forall|i: int|
            0 <= i < cohort_upto(xs, labels, c, upto).len() ==> i32::MIN <= (
            #[trigger] cohort_upto(xs, labels, c, upto)[i]) <= i32::MAX,
        forall|i: int|
            0 <= i < cohort_upto(ys, labels, c, upto).len() ==> i32::MIN <= (
            #[trigger] cohort_upto(ys, labels, c, upto)[i]) <= i32::MAX,
    decreases upto,
{
    if upto > 0 {
        lemma_cohort_len(xs, ys, labels, c, (upto - 1) as nat);
    }
}

/// Collects the values of the points that carry the label `c`.
pub fn gather(vals: &[i32], labels: &[usize], c: usize) -> (members: Vec<i64>)
    requires
        vals@.len() == labels@.len(),
    ensures
        members@ == cohort(vals@, labels@, c as int),
{
    let n: usize = vals.len();
    let mut members: Vec<i64> = Vec::new();
    let mut i: usize = 0;
    while i < n
        invariant
            i <= n,
            n == vals@.len(),
            n == labels@.len(),
            members@ == cohort_upto(vals@, labels@, c as int, i as nat),
        decreases n - i,
    {
        if labels[i] == c {
            members.push(vals[i] as i64);
        }
        i = i + 1;
    }
    members
}

/// Moves every centroid that has members to their mean and leaves the others
/// where they are. Returns the summed distance that the centroids moved.
pub fn update_centroids(
    xs: &[i32],
    ys: &[i32],
    labels: &[usize],
    centroids: &mut Vec<Point>,
) -> (delta: u128)
    requires
        xs@.len() == ys@.len(),
        xs@.len() == labels@.len(),
    ensures
        final(centroids)@ == update(xs@, ys@, labels@, old(centroids)@),
        delta == movement(old(centroids)@, final(centroids)@),
{
    let k: usize = centroids.len();
    let ghost before: Seq<Point> = centroids@;
    let ghost after: Seq<Point> = update(xs@, ys@, labels@, before);
    let mut delta: u128 = 0;
    let mut c: usize = 0;
    while c < k
        invariant
            c <= k,
            k == centroids@.len(),
            k == before.len(),
            xs@.len() == ys@.len(),
            xs@.len() == labels@.len(),
            after == update(xs@, ys@, labels@, before),
            forall|j: int| 0 <= j < c ==> centroids@[j] == after[j],
            forall|j: int| c <= j < k ==> centroids@[j] == before[j],
            delta == movement_upto(before, after, c as nat),
            delta <= c * 0x1_6A09_E667,
        decreases k - c,
    {
        let member_xs: Vec<i64> = gather(xs, labels, c);
        let member_ys: Vec<i64> = gather(ys, labels, c);
        proof {
            lemma_cohort_len(xs@, ys@, labels@, c as int, xs@.len());
            if member_xs@.len() > 0 {
                lemma_mean_within(member_xs@, i32::MIN as int, i32::MAX as int);
                lemma_mean_within(member_ys@, i32::MIN as int, i32::MAX as int);
            }
        }
        match (average_f32(member_xs.as_slice()), average_f32(member_ys.as_slice())) {
            (Some(x), Some(y)) => {
                let moved: Point = Point { x: x as i32, y: y as i32 };
                let step: u64 = distance(centroids[c], moved);
                delta = delta + step as u128;
                centroids.set(c, moved);
            },
            _ => {
                proof {
                    lemma_distance_symmetric(before[c as int], before[c as int]);
                }
            },
        }
        c = c + 1;
    }
    delta
}

/// The outcome of one restart, as a mathematical value.
pub struct Run {
    pub labels: Seq<usize>,
    pub centroids: Seq<Point>,
    pub iterations: int,
    pub delta: int,
}

/// The outcome of one restart: the label of each point, where the centroids
/// came to rest, how many iterations failed to converge before the last, and
/// how far the centroids moved in the last.
#[derive(Debug)]
pub struct Fit {
    pub labels: Vec<usize>,
    pub centroids: Vec<Point>,
    pub iterations: u16,
    pub delta: u128,
}

impl View for Fit {
    type V = Run;

    open spec fn view(&self) -> Run {
        Run {
            labels: self.labels@,
            centroids: self.centroids@,
            iterations: self.iterations as int,
            delta: self.delta as int,
        }
    }
}

/// Assignment and update, repeated from `centroids` until the centroids move
/// by less than `threshold` in all or `MAX_ITERATIONS` iterations have failed
/// to converge, `done` of them already behind.
pub open spec fn lloyd(
    xs: Seq<i32>,
    ys: Seq<i32>,
    centroids: Seq<Point>,
    threshold: int,
    done: nat,
) -> Run
    decreases MAX_ITERATIONS - done,
{
    let labels = assignment(xs, ys, centroids);
    let next = update(xs, ys, labels, centroids);
    if movement(centroids, next) < threshold || done >= MAX_ITERATIONS {
        Run { labels, centroids: next, iterations: done as int, delta: movement(centroids, next) }
    } else {
        lloyd(xs, ys, next, threshold, done + 1)
    }
}

/// The squared distance of each of the first `upto` points to the centroid
/// whose label it carries, summed.
pub open spec fn squared_error_upto(
    xs: Seq<i32>,
    ys: Seq<i32>,
    labels: Seq<usize>,
    centroids: Seq<Point>,
    upto: nat,
) -> int
    decreases upto,
{
    if upto == 0 {
        0
    } else {
        squared_error_upto(xs, ys, labels, centroids, (upto - 1) as nat) + squared_distance(
            point_at(xs, ys, upto - 1),
            centroids[labels[upto - 1] as int],
        )
    }
}

/// The squared distance of each point to the centroid whose label it carries,
/// summed.
pub open spec fn squared_error(
    xs: Seq<i32>,
    ys: Seq<i32>,
    labels: Seq<usize>,
    centroids: Seq<Point>,
) -> int {
    squared_error_upto(xs, ys, labels, centroids, xs.len())
}

/// A restart, whatever its seeds, labels every point with the index of one of
/// its centroids, keeps the number of centroids, and ends either with the
/// centroids moving by less than the threshold or at the iteration limit.
pub proof fn lemma_lloyd_shape(
    xs: Seq<i32>,
    ys: Seq<i32>,
    centroids: Seq<Point>,
    threshold: int,
    done: nat,
)
    requires
        centroids.len() > 0,
        done <= MAX_ITERATIONS,
    ensures
        lloyd(xs, ys, centroids, threshold, done).labels.len() == xs.len(),
        lloyd(xs, ys, centroids, threshold, done).centroids.len() == centroids.len(),
        forall|i: int|
            0 <= i < xs.len() ==> (#[trigger] lloyd(xs, ys, centroids, threshold, done).labels[i])
                < centroids.len(),
        done <= lloyd(xs, ys, centroids, threshold, done).iterations <= MAX_ITERATIONS,
        lloyd(xs, ys, centroids, threshold, done).delta < threshold || lloyd(
            xs,
            ys,
            centroids,
            threshold,
            done,
        ).iterations == MAX_ITERATIONS,
    decreases MAX_ITERATIONS - done,
{
    let labels = assignment(xs, ys, centroids);
    let next = update(xs, ys, labels, centroids);
    if movement(centroids, next) < threshold || done >= MAX_ITERATIONS {
        assert forall|i: int| 0 <= i < xs.len() implies (#[trigger] labels[i])
            < centroids.len() by {
            lemma_nearest(point_at(xs, ys, i), centroids);
        }
    } else {
        lemma_lloyd_shape(xs, ys, next, threshold, done + 1);
    }
}

/// A sum of squared distances over `upto` points is bounded by `upto` times
/// the largest squared distance there is.
pub proof fn lemma_squared_error_bounds(
    xs: Seq<i32>,
    ys: Seq<i32>,
    labels: Seq<usize>,
    centroids: Seq<Point>,
    upto: nat,
)
    ensures
        0 <= squared_error_upto(xs, ys, labels, centroids, upto) <= upto * 0x1_FFFF_FFFC_0000_0002,
    decreases upto,
{
    if upto > 0 {
        lemma_squared_error_bounds(xs, ys, labels, centroids, (upto - 1) as nat);
        lemma_squared_distance_bounds(
            point_at(xs, ys, upto - 1),
            centroids[labels[upto - 1] as int],
        );
    }
}

fn zeros(n: usize) -> (v: Vec<usize>)
    ensures
        v@ == Seq::new(n as nat, |i: int| 0usize),
{
    let mut v: Vec<usize> = Vec::new();
    let mut i: usize = 0;
    while i < n
        invariant
            i <= n,
            v@.len() == i,
            forall|j: int| 0 <= j < i ==> v@[j] == 0,
        decreases n - i,
    {
        v.push(0);
        i = i + 1;
    }
    v
}

/// One restart: from `seeds`, assigns and updates until the centroids move by
/// less than `threshold` in all, or the iteration limit is reached.
pub fn run(xs: &[i32], ys: &[i32], seeds: Vec<Point>, threshold: u64) -> (fit: Fit)
    requires
        xs@.len() == ys@.len(),
        seeds@.len() > 0,
    ensures
        fit@ == lloyd(xs@, ys@, seeds@, threshold as int, 0),
        fit.labels@.len() == xs@.len(),
        fit.centroids@.len() == seeds@.len(),
        forall|i: int| 0 <= i < xs@.len() ==> fit.labels@[i] < seeds@.len(),
        fit.delta < threshold || fit.iterations == MAX_ITERATIONS,
{
    let n: usize = xs.len();
    let ghost start: Seq<Point> = seeds@;
    let mut centroids: Vec<Point> = seeds;
    let mut labels: Vec<usize> = zeros(n);
    let mut i: u16 = 0;
    proof {
        lemma_lloyd_shape(xs@, ys@, start, threshold as int, 0);
    }
    loop
        invariant
            n == xs@.len(),
            n == ys@.len(),
            n == labels@.len(),
            start == seeds@,
            centroids@.len() == start.len(),
            start.len() > 0,
            i <= MAX_ITERATIONS,
            forall|j: int|
                0 <= j < xs@.len() ==> (#[trigger] lloyd(
                    xs@,
                    ys@,
                    start,
                    threshold as int,
                    0,
                ).labels[j]) < start.len(),
            lloyd(xs@, ys@, start, threshold as int, 0) == lloyd(
                xs@,
                ys@,
                centroids@,
                threshold as int,
                i as nat,
            ),
        decreases MAX_ITERATIONS - i,
    {
        label_points(xs, ys, &mut labels, centroids.as_slice());
        let delta: u128 = update_centroids(xs, ys, labels.as_slice(), &mut centroids);
        if delta < threshold as u128 || i == MAX_ITERATIONS {
            return Fit { labels, centroids, iterations: i, delta };
        }
        i = i + 1;
    }
}

/// The squared distance of each point to the centroid whose label it carries,
/// summed.
pub fn total_error(xs: &[i32], ys: &[i32], labels: &[usize], centroids: &[Point]) -> (e: u128)
    requires
        xs@.len() == ys@.len(),
        xs@.len() == labels@.len(),
        xs@.len() <= MAX_POINTS,
        forall|i: int| 0 <= i < labels@.len() ==> labels@[i] < centroids@.len(),
    ensures
        e == squared_error(xs@, ys@, labels@, centroids@),
        e <= xs@.len() * 0x1_FFFF_FFFC_0000_0002,
{
    let n: usize = xs.len();
    let mut e: u128 = 0;
    let mut i: usize = 0;
    while i < n
        invariant
            i <= n,
            n == xs@.len(),
            n == ys@.len(),
            n == labels@.len(),
            n <= MAX_POINTS,
            forall|j: int| 0 <= j < labels@.len() ==> labels@[j] < centroids@.len(),
            e == squared_error_upto(xs@, ys@, labels@, centroids@, i as nat),
        decreases n - i,
    {
        proof {
            lemma_squared_error_bounds(xs@, ys@, labels@, centroids@, i as nat);
            lemma_squared_error_bounds(xs@, ys@, labels@, centroids@, (i + 1) as nat);
        }
        let d: u128 = distance_squared(Point { x: xs[i], y: ys[i] }, centroids[labels[i]]);
        e = e + d;
        i = i + 1;
    }
    proof {
        lemma_squared_error_bounds(xs@, ys@, labels@, centroids@, n as nat);
    }
    e
}

/// The weight with which point `j` is drawn as the next seed: one while no
/// seed is chosen, then its squared distance to the nearest chosen seed.
pub open spec fn weight(xs: Seq<i32>, ys: Seq<i32>, chosen: Seq<Point>, j: int) -> int {
    if chosen.len() == 0 {
        1
    } else {
        squared_distance(point_at(xs, ys, j), chosen[nearest(point_at(xs, ys, j), chosen)])
    }
}

/// Point `j` may be drawn after `chosen`: its weight is not zero, or every
/// weight is zero and it is the first point.
pub open spec fn is_pick(xs: Seq<i32>, ys: Seq<i32>, chosen: Seq<Point>, j: int) -> bool {
    &&& 0 <= j < xs.len()
    &&& weight(xs, ys, chosen, j) > 0 || (j == 0 && forall|i: int|
        0 <= i < xs.len() ==> #[trigger] weight(xs, ys, chosen, i) == 0)
}

/// `p` is a point that may be drawn after `chosen`.
pub open spec fn is_seed_after(xs: Seq<i32>, ys: Seq<i32>, chosen: Seq<Point>, p: Point) -> bool {
    exists|j: int| #[trigger] is_pick(xs, ys, chosen, j) && p == point_at(xs, ys, j)
}

/// `seeds` are `k` of the points, each one a point that may be drawn after
/// the seeds before it.
pub open spec fn is_seeding(xs: Seq<i32>, ys: Seq<i32>, k: int, seeds: Seq<Point>) -> bool {
    &&& seeds.len() == k
    &&& forall|c: int| 0 <= c < k ==> #[trigger] is_seed_after(xs, ys, seeds.take(c), seeds[c])
}

/// A sum of weights of which none exceeds `limit` is at most their number
/// times `limit`.
pub proof fn lemma_weight_sum_bounds(w: Seq<u128>, limit: int)
    requires
        forall|i: int| 0 <= i < w.len() ==> w[i] <= limit,
    ensures
        0 <= weight_sum(w) <= w.len() * limit,
    decreases w.len(),
{
    if w.len() > 0 {
        lemma_weight_sum_bounds(w.drop_last(), limit);
        assert((w.len() - 1) * limit + limit == w.len() * limit) by (nonlinear_arith);
    }
}

/// The weight of every point, given the seeds chosen so far.
pub fn seed_weights(xs: &[i32], ys: &[i32], chosen: &[Point]) -> (weights: Vec<u128>)
    requires
        xs@.len() == ys@.len(),
    ensures
        weights@.len() == xs@.len(),
        forall|j: int| 0 <= j < xs@.len() ==> weights@[j] == weight(xs@, ys@, chosen@, j),
{
    let n: usize = xs.len();
    let mut weights: Vec<u128> = Vec::new();
    let mut j: usize = 0;
    while j < n
        invariant
            j <= n,
            n == xs@.len(),
            n == ys@.len(),
            weights@.len() == j,
            forall|i: int| 0 <= i < j ==> weights@[i] == weight(xs@, ys@, chosen@, i),
        decreases n - j,
    {
        if chosen.len() == 0 {
            weights.push(1);
        } else {
            let found: (usize, u128) = nearest_centroid(Point { x: xs[j], y: ys[j] }, chosen);
            weights.push(found.1);
        }
        j = j + 1;
    }
    weights
}

/// Every seed of a seeding is one of the points.
pub proof fn lemma_seeds_are_points(xs: Seq<i32>, ys: Seq<i32>, k: int, seeds: Seq<Point>, c: int)
    requires
        is_seeding(xs, ys, k, seeds),
        0 <= c < k,
    ensures
        exists|j: int| 0 <= j < xs.len() && seeds[c] == #[trigger] point_at(xs, ys, j),
{
    assert(is_seed_after(xs, ys, seeds.take(c), seeds[c]));
    let j: int = choose|j: int|
        #[trigger] is_pick(xs, ys, seeds.take(c), j) && seeds[c] == point_at(xs, ys, j);
    assert(0 <= j < xs.len() && seeds[c] == point_at(xs, ys, j));
}

/// A seeding extended by a point that may be drawn after it is a seeding.
pub proof fn lemma_seeding_extend(xs: Seq<i32>, ys: Seq<i32>, seeds: Seq<Point>, j: int)
    requires
        is_seeding(xs, ys, seeds.len() as int, seeds),
        is_pick(xs, ys, seeds, j),
    ensures
        is_seeding(xs, ys, seeds.len() as int + 1, seeds.push(point_at(xs, ys, j))),
{
    let longer = seeds.push(point_at(xs, ys, j));
    assert forall|c: int| 0 <= c < longer.len() implies #[trigger] is_seed_after(
        xs,
        ys,
        longer.take(c),
        longer[c],
    ) by {
        if c < seeds.len() {
            assert(longer.take(c) =~= seeds.take(c));
            assert(is_seed_after(xs, ys, seeds.take(c), seeds[c]));
        } else {
            assert(longer.take(c) =~= seeds);
            assert(is_pick(xs, ys, seeds, j));
        }
    }
}

/// Turns what a weighted draw gave into the index of the next seed: the index
/// drawn, or the first point where there was nothing to draw from.
pub fn resolve_draw(drawn: Option<usize>) -> (index: usize)
    ensures
        index == match drawn {
            Some(i) => i,
            None => 0,
        },
{
    match drawn {
        Some(i) => i,
        None => 0,
    }
}

/// Chooses `k` of the points as seeds. The first is drawn uniformly; each
/// further one with a probability proportional to its squared distance from
/// the nearest seed already chosen. Where every point coincides with a seed,
/// the first point is taken.
pub fn centroids_plus_plus(xs: &[i32], ys: &[i32], k: usize, rng: &mut StdRng) -> (seeds: Vec<
    Point,
>)
    requires
        xs@.len() == ys@.len(),
        0 < xs@.len() <= MAX_POINTS,
        k > 0,
    ensures
        is_seeding(xs@, ys@, k as int, seeds@),
{
    let mut seeds: Vec<Point> = Vec::new();
    let mut c: usize = 0;
    while c < k
        invariant
            c <= k,
            xs@.len() == ys@.len(),
            0 < xs@.len() <= MAX_POINTS,
            seeds@.len() == c,
            is_seeding(xs@, ys@, c as int, seeds@),
        decreases k - c,
    {
        let weights: Vec<u128> = seed_weights(xs, ys, seeds.as_slice());
        proof {
            assert forall|i: int| 0 <= i < weights@.len() implies weights@[i]
                <= 0x1_FFFF_FFFC_0000_0002 by {
                if seeds@.len() > 0 {
                    let p = point_at(xs@, ys@, i);
                    lemma_squared_distance_bounds(p, seeds@[nearest(p, seeds@)]);
                }
            }
            lemma_weight_sum_bounds(weights@, 0x1_FFFF_FFFC_0000_0002);
        }
        let drawn: Option<usize> = sample_weighted(&weights, rng);
        let index: usize = resolve_draw(drawn);
        proof {
            if drawn is None {
                assert forall|i: int| 0 <= i < xs@.len() implies #[trigger] weight(
                    xs@,
                    ys@,
                    seeds@,
                    i,
                ) == 0 by {
                    assert(weights@[i] == 0);
                }
            } else {
                assert(weights@[index as int] > 0);
            }
            assert(is_pick(xs@, ys@, seeds@, index as int));
            lemma_seeding_extend(xs@, ys@, seeds@, index as int);
        }
        seeds.push(Point { x: xs[index], y: ys[index] });
        c = c + 1;
    }
    seeds
}

/// Places `k` seeds at random inside `bounds`, each coordinate drawn uniformly
/// between the minimum and the maximum of its axis, the maximum excluded.
pub fn centroids(bounds: &Bounds, k: usize, rng: &mut StdRng) -> (seeds: Vec<Point>)
    requires
        k > 0 ==> bounds.min_x < bounds.max_x && bounds.min_y < bounds.max_y,
    ensures
        seeds@.len() == k,
        forall|c: int|
            0 <= c < k ==> {
                &&& bounds.min_x <= (#[trigger] seeds@[c]).x < bounds.max_x
                &&& bounds.min_y <= seeds@[c].y < bounds.max_y
            },
{
    let mut seeds: Vec<Point> = Vec::new();
    let mut c: usize = 0;
    while c < k
        invariant
            c <= k,
            k > 0 ==> bounds.min_x < bounds.max_x && bounds.min_y < bounds.max_y,
            seeds@.len() == c,
            forall|q: int|
                0 <= q < c ==> {
                    &&& bounds.min_x <= (#[trigger] seeds@[q]).x < bounds.max_x
                    &&& bounds.min_y <= seeds@[q].y < bounds.max_y
                },
        decreases k - c,
    {
        let x: i32 = sample_between(bounds.min_x, bounds.max_x, rng);
        let y: i32 = sample_between(bounds.min_y, bounds.max_y, rng);
        seeds.push(Point { x, y });
        c = c + 1;
    }
    seeds
}

/// What a clustering reports, as a mathematical value: the label of each
/// point, the iterations that failed to converge, and the squared error.
pub struct Outcome {
    pub labels: Seq<usize>,
    pub iterations: int,
    pub error: int,
}

/// What one restart from `seeds` reports.
pub open spec fn attempt(xs: Seq<i32>, ys: Seq<i32>, seeds: Seq<Point>, threshold: int) -> Outcome {
    let run = lloyd(xs, ys, seeds, threshold, 0);
    Outcome {
        labels: run.labels,
        iterations: run.iterations,
        error: squared_error(xs, ys, run.labels, run.centroids),
    }
}

/// What is reported before any restart has been made.
pub open spec fn nothing_tried(n: nat) -> Outcome {
    Outcome { labels: Seq::new(n, |i: int| 0usize), iterations: 0, error: u128::MAX as int }
}

/// The outcome kept after one restart from each of `seedings` in turn: a
/// restart replaces what is held only if its error is strictly lower.
pub open spec fn best_of(
    xs: Seq<i32>,
    ys: Seq<i32>,
    threshold: int,
    seedings: Seq<Seq<Point>>,
) -> Outcome
    decreases seedings.len(),
{
    if seedings.len() == 0 {
        nothing_tried(xs.len())
    } else {
        let held = best_of(xs, ys, threshold, seedings.drop_last());
        let next = attempt(xs, ys, seedings.last(), threshold);
        if next.error < held.error {
            next
        } else {
            held
        }
    }
}

/// `seedings` holds one seeding of `k` seeds for each of `loops` restarts.
pub open spec fn are_seedings(
    xs: Seq<i32>,
    ys: Seq<i32>,
    k: int,
    loops: int,
    seedings: Seq<Seq<Point>>,
) -> bool {
    &&& seedings.len() == loops
    &&& forall|r: int| 0 <= r < loops ==> is_seeding(xs, ys, k, #[trigger] seedings[r])
}

/// `kept` is what is kept after one restart from each of `seedings`; its error
/// is then no higher than that of any of these restarts.
pub open spec fn is_kept(
    xs: Seq<i32>,
    ys: Seq<i32>,
    threshold: int,
    seedings: Seq<Seq<Point>>,
    kept: Outcome,
) -> bool {
    &&& kept == best_of(xs, ys, threshold, seedings)
    &&& forall|r: int|
        0 <= r < seedings.len() ==> kept.error <= (#[trigger] attempt(
            xs,
            ys,
            seedings[r],
            threshold,
        )).error
}

/// The inputs that can be clustered: as many x- as y-coordinates, at least
/// one point and no more than `MAX_POINTS`, at least one cluster, and a
/// threshold above zero.
pub open spec fn valid_input(n: nat, m: nat, k: usize, threshold: u64) -> bool {
    &&& n == m
    &&& 0 < n <= MAX_POINTS
    &&& k > 0
    &&& threshold > 0
}

/// The error of what is kept is no higher than that of any single restart.
pub proof fn lemma_best_is_least(
    xs: Seq<i32>,
    ys: Seq<i32>,
    threshold: int,
    seedings: Seq<Seq<Point>>,
    r: int,
)
    requires
        0 <= r < seedings.len(),
    ensures
        best_of(xs, ys, threshold, seedings).error <= attempt(xs, ys, seedings[r], threshold).error,
    decreases seedings.len(),
{
    if r < seedings.len() - 1 {
        lemma_best_is_least(xs, ys, threshold, seedings.drop_last(), r);
    }
}

/// Further restarts never raise the error of what is kept: after all of
/// `seedings` it is no higher than after the first `m` of them.
pub proof fn lemma_more_restarts_are_no_worse(
    xs: Seq<i32>,
    ys: Seq<i32>,
    threshold: int,
    seedings: Seq<Seq<Point>>,
    m: int,
)
    requires
        0 <= m <= seedings.len(),
    ensures
        best_of(xs, ys, threshold, seedings).error <= best_of(
            xs,
            ys,
            threshold,
            seedings.take(m),
        ).error,
    decreases seedings.len(),
{
    if m == seedings.len() {
        assert(seedings.take(m) =~= seedings);
    } else {
        lemma_more_restarts_are_no_worse(xs, ys, threshold, seedings.drop_last(), m);
        assert(seedings.drop_last().take(m) =~= seedings.take(m));
    }
}

/// Where at least one restart is made, what is kept is the outcome of the
/// first restart whose error is the least.
pub proof fn lemma_best_is_first_least(
    xs: Seq<i32>,
    ys: Seq<i32>,
    threshold: int,
    seedings: Seq<Seq<Point>>,
)
    requires
        seedings.len() > 0,
        xs.len() <= MAX_POINTS,
    ensures
        exists|r: int|
            {
                &&& 0 <= r < seedings.len()
                &&& best_of(xs, ys, threshold, seedings) == #[trigger] attempt(
                    xs,
                    ys,
                    seedings[r],
                    threshold,
                )
                &&& forall|q: int|
                    0 <= q < r ==> best_of(xs, ys, threshold, seedings).error < (#[trigger] attempt(
                        xs,
                        ys,
                        seedings[q],
                        threshold,
                    )).error
            },
    decreases seedings.len(),
{
    let rest = seedings.drop_last();
    let last: int = seedings.len() - 1;
    let next = attempt(xs, ys, seedings.last(), threshold);
    let best = best_of(xs, ys, threshold, seedings);
    if rest.len() == 0 {
        let run = lloyd(xs, ys, seedings.last(), threshold, 0);
        lemma_squared_error_bounds(xs, ys, run.labels, run.centroids, xs.len());
        assert(best_of(xs, ys, threshold, rest) == nothing_tried(xs.len()));
        assert(best == attempt(xs, ys, seedings[last], threshold));
    } else {
        lemma_best_is_first_least(xs, ys, threshold, rest);
        let held = best_of(xs, ys, threshold, rest);
        let r0: int = choose|r: int|
            {
                &&& 0 <= r < rest.len()
                &&& held == #[trigger] attempt(xs, ys, rest[r], threshold)
                &&& forall|q: int|
                    0 <= q < r ==> held.error < (#[trigger] attempt(
                        xs,
                        ys,
                        rest[q],
                        threshold,
                    )).error
            };
        if next.error < held.error {
            assert forall|q: int| 0 <= q < last implies best.error < (#[trigger] attempt(
                xs,
                ys,
                seedings[q],
                threshold,
            )).error by {
                lemma_best_is_least(xs, ys, threshold, rest, q);
                assert(rest[q] == seedings[q]);
            }
            assert(best == attempt(xs, ys, seedings[last], threshold));
        } else {
            assert(rest[r0] == seedings[r0]);
            assert forall|q: int| 0 <= q < r0 implies best.error < (#[trigger] attempt(
                xs,
                ys,
                seedings[q],
                threshold,
            )).error by {
                assert(rest[q] == seedings[q]);
            }
            assert(best == attempt(xs, ys, seedings[r0], threshold));
        }
    }
}

/// What is kept depends on nothing but the points, the threshold and the
/// seeds of each restart: two clusterings that agree on these agree on what
/// they report.
pub proof fn lemma_outcome_is_determined(
    xs: Seq<i32>,
    ys: Seq<i32>,
    threshold: int,
    first: Seq<Seq<Point>>,
    second: Seq<Seq<Point>>,
)
    requires
        first.len() == second.len(),
        forall|r: int|
            0 <= r < first.len() ==> (#[trigger] first[r]).len() == second[r].len(),
        forall|r: int, c: int|
            0 <= r < first.len() && 0 <= c < first[r].len() ==> #[trigger] first[r][c]
                == second[r][c],
    ensures
        best_of(xs, ys, threshold, first) == best_of(xs, ys, threshold, second),
{
    assert forall|r: int| 0 <= r < first.len() implies #[trigger] first[r] == second[r] by {
        assert(first[r] =~= second[r]);
    }
    assert(first =~= second);
}

/// What is kept labels every point with the index of a cluster and stays
/// within the iteration limit, provided every restart starts from `k` seeds.
pub proof fn lemma_best_shape(
    xs: Seq<i32>,
    ys: Seq<i32>,
    k: int,
    threshold: int,
    seedings: Seq<Seq<Point>>,
)
    requires
        k > 0,
        forall|r: int| 0 <= r < seedings.len() ==> (#[trigger] seedings[r]).len() == k,
    ensures
        best_of(xs, ys, threshold, seedings).labels.len() == xs.len(),
        forall|i: int|
            0 <= i < xs.len() ==> (#[trigger] best_of(xs, ys, threshold, seedings).labels[i]) < k,
        0 <= best_of(xs, ys, threshold, seedings).iterations <= MAX_ITERATIONS,
    decreases seedings.len(),
{
    if seedings.len() > 0 {
        lemma_best_shape(xs, ys, k, threshold, seedings.drop_last());
        assert(seedings.last() == seedings[seedings.len() - 1]);
        lemma_lloyd_shape(xs, ys, seedings.last(), threshold, 0);
    }
}

/// Clusters the points whose coordinates are `xs` and `ys` into `k` groups.
///
/// Makes `loops` restarts, each from its own k-means++ seeding drawn from one
/// generator seeded with `seed`, and keeps the first of least squared error.
/// Reports the label of each point, the number of points, the iterations of
/// the kept restart that failed to converge, and its squared error. With no
/// restart at all, every label is zero and the error is the largest there is.
///
/// Fails, computing nothing, unless `valid_input` holds.
pub fn cluster(xs: &[i32], ys: &[i32], k: usize, threshold: u64, loops: usize, seed: u64) -> (res:
    Option<(Vec<usize>, usize, u16, u128)>)
    ensures
        res is Some <==> valid_input(xs@.len(), ys@.len(), k, threshold),
        res matches Some((labels, n, iterations, error)) ==> {
            &&& n == xs@.len()
            &&& labels@.len() == n
            &&& forall|i: int| 0 <= i < n ==> labels@[i] < k
            &&& iterations <= MAX_ITERATIONS
            &&& exists|seedings: Seq<Seq<Point>>|
                #[trigger] are_seedings(xs@, ys@, k as int, loops as int, seedings) && is_kept(
                    xs@,
                    ys@,
                    threshold as int,
                    seedings,
                    (Outcome {
                        labels: labels@,
                        iterations: iterations as int,
                        error: error as int,
                    }),
                )
        },
{
    let n: usize = xs.len();
    if n == 0 || n != ys.len() || k == 0 || threshold == 0 || n as u64 > MAX_POINTS {
        return None;
    }
    let mut labels: Vec<usize> = zeros(n);
    let mut iterations: u16 = 0;
    let mut error: u128 = u128::MAX;
    let mut rng: StdRng = seeded(seed);
    let ghost mut seedings: Seq<Seq<Point>> = Seq::empty();
    let mut r: usize = 0;
    while r < loops
        invariant
            r <= loops,
            n == xs@.len(),
            valid_input(xs@.len(), ys@.len(), k, threshold),
            are_seedings(xs@, ys@, k as int, r as int, seedings),
            best_of(xs@, ys@, threshold as int, seedings) == (Outcome {
                labels: labels@,
                iterations: iterations as int,
                error: error as int,
            }),
        decreases loops - r,
    {
        let seeds: Vec<Point> = centroids_plus_plus(xs, ys, k, &mut rng);
        let ghost longer: Seq<Seq<Point>> = seedings.push(seeds@);
        proof {
            assert(longer.drop_last() =~= seedings);
            assert forall|q: int| 0 <= q < r + 1 implies is_seeding(
                xs@,
                ys@,
                k as int,
                #[trigger] longer[q],
            ) by {
                if q < r {
                    assert(longer[q] == seedings[q]);
                }
            }
            seedings = longer;
        }
        let fit: Fit = run(xs, ys, seeds, threshold);
        let e: u128 = total_error(xs, ys, fit.labels.as_slice(), fit.centroids.as_slice());
        if e < error {
            labels = fit.labels;
            iterations = fit.iterations;
            error = e;
        }
        r = r + 1;
    }
    proof {
        assert forall|q: int| 0 <= q < seedings.len() implies (#[trigger] seedings[q]).len()
            == k by {
            assert(is_seeding(xs@, ys@, k as int, seedings[q]));
        }
        lemma_best_shape(xs@, ys@, k as int, threshold as int, seedings);
        assert forall|q: int| 0 <= q < seedings.len() implies error <= (#[trigger] attempt(
            xs@,
            ys@,
            seedings[q],
            threshold as int,
        )).error by {
            lemma_best_is_least(xs@, ys@, threshold as int, seedings, q);
        }
        assert(is_kept(
            xs@,
            ys@,
            threshold as int,
            seedings,
            Outcome { labels: labels@, iterations: iterations as int, error: error as int },
        ));
    }
    Some((labels, n, iterations, error))
}

} // verus!
