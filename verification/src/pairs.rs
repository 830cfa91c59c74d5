//! Two well-separated pairs of points, and what clustering makes of them.
use crate::geom::{squared_distance, Point};
use crate::kmeans::{
    assignment, attempt, best_of, cohort, cohort_upto, is_pick, is_seed_after, is_seeding,
    lemma_best_is_first_least, lemma_best_is_least, lloyd, movement, nearest, point_at,
    recentered, squared_error, squared_error_upto, update, weight, MAX_ITERATIONS,
};
use crate::math::lemma_mean_within;
use vstd::prelude::*;

verus! {

/// The points are the corners of a rectangle that is wider than high: a left
/// pair and a right pair, `h` apart within a pair and `w` apart across.
pub open spec fn is_two_pairs(xs: Seq<i32>, ys: Seq<i32>, w: int, h: int) -> bool {
    &&& xs.len() == 4
    &&& ys.len() == 4
    &&& 0 <= h < w
    &&& xs[1] == xs[0]
    &&& xs[2] == xs[0] + w
    &&& xs[3] == xs[0] + w
    &&& ys[1] == ys[0] + h
    &&& ys[2] == ys[0]
    &&& ys[3] == ys[0] + h
}

/// `c` stands between the two points of the pair that begins at `first`.
pub open spec fn stands_at(xs: Seq<i32>, ys: Seq<i32>, c: Point, first: int) -> bool {
    c.x == xs[first] && ys[first] <= c.y <= ys[first + 1]
}

/// The labels tell the pairs apart: equal within each pair, different across.
pub open spec fn tells_apart(labels: Seq<usize>) -> bool {
    labels.len() == 4 && labels[0] == labels[1] && labels[2] == labels[3] && labels[0] != labels[2]
}

/// With one centroid standing at each pair, every point is labelled with the
/// centroid of its own pair.
pub proof fn lemma_assignment_of_pairs(
    xs: Seq<i32>,
    ys: Seq<i32>,
    w: int,
    h: int,
    centroids: Seq<Point>,
    left: int,
)
    requires
        is_two_pairs(xs, ys, w, h),
        centroids.len() == 2,
        left == 0 || left == 1,
        stands_at(xs, ys, centroids[left], 0),
        stands_at(xs, ys, centroids[1 - left], 2),
    ensures
        assignment(xs, ys, centroids) =~= seq![
            left as usize,
            left as usize,
            (1 - left) as usize,
            (1 - left) as usize,
        ],
{
    let first = centroids.drop_last();
    assert(first.len() == 1);
    assert(centroids.last() == centroids[1]);
    assert forall|i: int| 0 <= i < 4 implies nearest(point_at(xs, ys, i), centroids) == (if i
        < 2 {
        left
    } else {
        1 - left
    }) by {
        let p = point_at(xs, ys, i);
        assert(nearest(p, first) == 0);
        assert(first[0] == centroids[0]);
        let own = if i < 2 {
            centroids[left]
        } else {
            centroids[1 - left]
        };
        let other = if i < 2 {
            centroids[1 - left]
        } else {
            centroids[left]
        };
        let dy: int = p.y - own.y;
        let ex: int = p.x - other.x;
        let ey: int = p.y - other.y;
        assert(p.x - own.x == 0);
        assert(dy * dy <= h * h) by (nonlinear_arith)
            requires
                -h <= dy <= h,
        ;
        assert(h * h < w * w) by (nonlinear_arith)
            requires
                0 <= h < w,
        ;
        assert(ex * ex == w * w) by (nonlinear_arith)
            requires
                ex == w || ex == -w,
        ;
        assert(0 <= ey * ey) by (nonlinear_arith);
        assert(squared_distance(p, own) < squared_distance(p, other));
    }
}

/// With the left pair labelled `left` and the right pair the other label, an
/// update puts the centroids one at each pair.
pub proof fn lemma_update_of_pairs(
    xs: Seq<i32>,
    ys: Seq<i32>,
    w: int,
    h: int,
    centroids: Seq<Point>,
    left: int,
)
    requires
        is_two_pairs(xs, ys, w, h),
        centroids.len() == 2,
        left == 0 || left == 1,
    ensures
        stands_at(
            xs,
            ys,
            update(
                xs,
                ys,
                seq![left as usize, left as usize, (1 - left) as usize, (1 - left) as usize],
                centroids,
            )[left],
            0,
        ),
        stands_at(
            xs,
            ys,
            update(
                xs,
                ys,
                seq![left as usize, left as usize, (1 - left) as usize, (1 - left) as usize],
                centroids,
            )[1 - left],
            2,
        ),
{
    let labels = seq![left as usize, left as usize, (1 - left) as usize, (1 - left) as usize];
    reveal_with_fuel(cohort_upto, 5);
    let right: int = 1 - left;
    assert(cohort(xs, labels, left) =~= seq![xs[0] as i64, xs[1] as i64]);
    assert(cohort(ys, labels, left) =~= seq![ys[0] as i64, ys[1] as i64]);
    assert(cohort(xs, labels, right) =~= seq![xs[2] as i64, xs[3] as i64]);
    assert(cohort(ys, labels, right) =~= seq![ys[2] as i64, ys[3] as i64]);
    lemma_mean_within(cohort(xs, labels, left), xs[0] as int, xs[0] as int);
    lemma_mean_within(cohort(ys, labels, left), ys[0] as int, ys[1] as int);
    lemma_mean_within(cohort(xs, labels, right), xs[2] as int, xs[2] as int);
    lemma_mean_within(cohort(ys, labels, right), ys[2] as int, ys[3] as int);
    assert(update(xs, ys, labels, centroids)[left] == recentered(
        xs,
        ys,
        labels,
        centroids[left],
        left,
    ));
    assert(update(xs, ys, labels, centroids)[right] == recentered(
        xs,
        ys,
        labels,
        centroids[right],
        right,
    ));
}

/// From centroids that stand one at each pair, a restart tells the pairs
/// apart, whatever the threshold and however long it runs.
pub proof fn lemma_lloyd_of_pairs(
    xs: Seq<i32>,
    ys: Seq<i32>,
    w: int,
    h: int,
    centroids: Seq<Point>,
    left: int,
    threshold: int,
    done: nat,
)
    requires
        is_two_pairs(xs, ys, w, h),
        centroids.len() == 2,
        left == 0 || left == 1,
        stands_at(xs, ys, centroids[left], 0),
        stands_at(xs, ys, centroids[1 - left], 2),
        done <= MAX_ITERATIONS,
    ensures
        tells_apart(lloyd(xs, ys, centroids, threshold, done).labels),
        squared_error(
            xs,
            ys,
            lloyd(xs, ys, centroids, threshold, done).labels,
            lloyd(xs, ys, centroids, threshold, done).centroids,
        ) <= 2 * (h * h),
    decreases MAX_ITERATIONS - done,
{
    let labels = assignment(xs, ys, centroids);
    let next = update(xs, ys, labels, centroids);
    lemma_assignment_of_pairs(xs, ys, w, h, centroids, left);
    lemma_update_of_pairs(xs, ys, w, h, centroids, left);
    if !(movement(centroids, next) < threshold || done >= MAX_ITERATIONS) {
        lemma_lloyd_of_pairs(xs, ys, w, h, next, left, threshold, done + 1);
    } else {
        reveal_with_fuel(squared_error_upto, 5);
        let a: int = next[left].y - ys[0];
        let b: int = next[1 - left].y - ys[2];
        assert(a * a + (a - h) * (a - h) <= h * h) by (nonlinear_arith)
            requires
                0 <= a <= h,
        ;
        assert(b * b + (b - h) * (b - h) <= h * h) by (nonlinear_arith)
            requires
                0 <= b <= h,
        ;
        assert((-a) * (-a) == a * a) by (nonlinear_arith);
        assert((h - a) * (h - a) == (a - h) * (a - h)) by (nonlinear_arith);
        assert((-b) * (-b) == b * b) by (nonlinear_arith);
        assert((h - b) * (h - b) == (b - h) * (b - h)) by (nonlinear_arith);
        assert(squared_distance(point_at(xs, ys, 0), next[left]) == a * a);
        assert(squared_distance(point_at(xs, ys, 1), next[left]) == (h - a) * (h - a));
        assert(squared_distance(point_at(xs, ys, 2), next[1 - left]) == b * b);
        assert(squared_distance(point_at(xs, ys, 3), next[1 - left]) == (h - b) * (h - b));
    }
}

/// With both centroids at one x, one level with the lower points and one
/// with the upper, every point is labelled by its level: the pairs are not
/// told apart, and after any number of updates the squared error is at least
/// the square of the distance between the pairs.
pub proof fn lemma_lloyd_of_levels(
    xs: Seq<i32>,
    ys: Seq<i32>,
    w: int,
    h: int,
    centroids: Seq<Point>,
    low: int,
    threshold: int,
    done: nat,
)
    requires
        is_two_pairs(xs, ys, w, h),
        0 < h,
        centroids.len() == 2,
        low == 0 || low == 1,
        centroids[low].y == ys[0],
        centroids[1 - low].y == ys[1],
        centroids[0].x == centroids[1].x,
        done <= MAX_ITERATIONS,
    ensures
        lloyd(xs, ys, centroids, threshold, done).labels =~= seq![
            low as usize,
            (1 - low) as usize,
            low as usize,
            (1 - low) as usize,
        ],
        w * w <= squared_error(
            xs,
            ys,
            lloyd(xs, ys, centroids, threshold, done).labels,
            lloyd(xs, ys, centroids, threshold, done).centroids,
        ),
    decreases MAX_ITERATIONS - done,
{
    let high: int = 1 - low;
    let labels = assignment(xs, ys, centroids);
    let next = update(xs, ys, labels, centroids);
    let expected = seq![low as usize, high as usize, low as usize, high as usize];
    let first = centroids.drop_last();
    assert(first.len() == 1);
    assert(centroids.last() == centroids[1]);
    assert forall|i: int| 0 <= i < 4 implies nearest(point_at(xs, ys, i), centroids) == (if i
        == 0 || i == 2 {
        low
    } else {
        high
    }) by {
        let p = point_at(xs, ys, i);
        assert(nearest(p, first) == 0);
        assert(first[0] == centroids[0]);
        let dx: int = p.x - centroids[0].x;
        assert(0 < h * h) by (nonlinear_arith)
            requires
                0 < h,
        ;
        assert((-h) * (-h) == h * h) by (nonlinear_arith);
        let own = if i == 0 || i == 2 {
            centroids[low]
        } else {
            centroids[high]
        };
        let other = if i == 0 || i == 2 {
            centroids[high]
        } else {
            centroids[low]
        };
        let dy: int = p.y - own.y;
        let ey: int = p.y - other.y;
        assert(dy * dy == 0) by (nonlinear_arith)
            requires
                dy == 0,
        ;
        assert(ey * ey == h * h) by (nonlinear_arith)
            requires
                ey == h || ey == -h,
        ;
        assert(squared_distance(p, own) == dx * dx);
        assert(squared_distance(p, other) == dx * dx + h * h);
    }
    assert(labels =~= expected);
    reveal_with_fuel(cohort_upto, 5);
    assert(cohort(xs, labels, low) =~= seq![xs[0] as i64, xs[2] as i64]);
    assert(cohort(xs, labels, high) =~= seq![xs[1] as i64, xs[3] as i64]);
    assert(cohort(xs, labels, low) =~= cohort(xs, labels, high));
    assert(cohort(ys, labels, low) =~= seq![ys[0] as i64, ys[2] as i64]);
    assert(cohort(ys, labels, high) =~= seq![ys[1] as i64, ys[3] as i64]);
    lemma_mean_within(cohort(xs, labels, low), xs[0] as int, xs[2] as int);
    lemma_mean_within(cohort(ys, labels, low), ys[0] as int, ys[0] as int);
    lemma_mean_within(cohort(ys, labels, high), ys[1] as int, ys[1] as int);
    assert(next[low] == recentered(xs, ys, labels, centroids[low], low));
    assert(next[high] == recentered(xs, ys, labels, centroids[high], high));
    if !(movement(centroids, next) < threshold || done >= MAX_ITERATIONS) {
        lemma_lloyd_of_levels(xs, ys, w, h, next, low, threshold, done + 1);
    } else {
        reveal_with_fuel(squared_error_upto, 5);
        let b: int = next[0].x - xs[0];
        assert((-b) * (-b) == b * b) by (nonlinear_arith);
        assert(w * w <= 2 * (b * b) + 2 * ((w - b) * (w - b))) by (nonlinear_arith);
        assert(squared_distance(point_at(xs, ys, 0), next[low]) == b * b);
        assert(squared_distance(point_at(xs, ys, 1), next[high]) == b * b);
        assert(squared_distance(point_at(xs, ys, 2), next[low]) == (w - b) * (w - b));
        assert(squared_distance(point_at(xs, ys, 3), next[high]) == (w - b) * (w - b));
    }
}

/// A seeding of two seeds for two pairs takes them from different pairs, or
/// from the two levels of one pair.
pub proof fn lemma_seeding_of_pairs(xs: Seq<i32>, ys: Seq<i32>, w: int, h: int, seeds: Seq<Point>)
    requires
        is_two_pairs(xs, ys, w, h),
        is_seeding(xs, ys, 2, seeds),
    ensures
        (seeds[0].x == xs[0] || seeds[0].x == xs[2]) && (seeds[1].x == xs[0] || seeds[1].x
            == xs[2]),
        (seeds[0].y == ys[0] || seeds[0].y == ys[1]) && (seeds[1].y == ys[0] || seeds[1].y
            == ys[1]),
        seeds[0].x == seeds[1].x ==> 0 < h && seeds[0].y != seeds[1].y,
{
    assert(is_seed_after(xs, ys, seeds.take(0), seeds[0]));
    assert(is_seed_after(xs, ys, seeds.take(1), seeds[1]));
    let j0: int = choose|j: int|
        #[trigger] is_pick(xs, ys, seeds.take(0), j) && seeds[0] == point_at(xs, ys, j);
    let j1: int = choose|j: int|
        #[trigger] is_pick(xs, ys, seeds.take(1), j) && seeds[1] == point_at(xs, ys, j);
    let chosen = seeds.take(1);
    assert(chosen.len() == 1 && chosen[0] == seeds[0]);
    assert forall|p: Point| nearest(p, chosen) == 0 by {}
    // The point across from the first seed has a weight that is not zero, so
    // the second seed was drawn and differs from the first.
    let across: int = if j0 < 2 {
        2
    } else {
        0
    };
    let ex: int = point_at(xs, ys, across).x - seeds[0].x;
    let ey: int = point_at(xs, ys, across).y - seeds[0].y;
    assert(0 < ex * ex) by (nonlinear_arith)
        requires
            ex == w || ex == -w,
            0 < w,
    ;
    assert(0 <= ey * ey) by (nonlinear_arith);
    assert(weight(xs, ys, chosen, across) > 0);
    assert(weight(xs, ys, chosen, j1) > 0);
    if seeds[0].x == seeds[1].x && seeds[0].y == seeds[1].y {
        assert(squared_distance(seeds[1], seeds[0]) == 0) by (nonlinear_arith)
            requires
                seeds[1].x - seeds[0].x == 0,
                seeds[1].y - seeds[0].y == 0,
                squared_distance(seeds[1], seeds[0]) == (seeds[1].x - seeds[0].x) * (seeds[1].x
                    - seeds[0].x) + (seeds[1].y - seeds[0].y) * (seeds[1].y - seeds[0].y),
        ;
    }
}

/// Of two pairs that are well separated, the square of the distance across
/// more than twice that within, the clustering kept after any restarts tells
/// the pairs apart, provided that one restart at least drew its two seeds
/// from different pairs.
pub proof fn lemma_best_tells_pairs_apart(
    xs: Seq<i32>,
    ys: Seq<i32>,
    w: int,
    h: int,
    threshold: int,
    seedings: Seq<Seq<Point>>,
    r: int,
)
    requires
        is_two_pairs(xs, ys, w, h),
        2 * (h * h) < w * w,
        forall|q: int| 0 <= q < seedings.len() ==> is_seeding(xs, ys, 2, #[trigger] seedings[q]),
        0 <= r < seedings.len(),
        seedings[r][0].x != seedings[r][1].x,
    ensures
        tells_apart(best_of(xs, ys, threshold, seedings).labels),
{
    lemma_best_is_first_least(xs, ys, threshold, seedings);
    let kept: int = choose|kept: int|
        0 <= kept < seedings.len() && best_of(xs, ys, threshold, seedings) == #[trigger] attempt(
            xs,
            ys,
            seedings[kept],
            threshold,
        );
    lemma_best_is_least(xs, ys, threshold, seedings, r);
    lemma_error_of_seeding(xs, ys, w, h, seedings[r], threshold);
    lemma_error_of_seeding(xs, ys, w, h, seedings[kept], threshold);
}

/// A restart from seeds of different pairs tells the pairs apart with a
/// squared error of at most twice the square of the distance within a pair;
/// one from seeds of one pair has a squared error of at least the square of
/// the distance across.
pub proof fn lemma_error_of_seeding(
    xs: Seq<i32>,
    ys: Seq<i32>,
    w: int,
    h: int,
    seeds: Seq<Point>,
    threshold: int,
)
    requires
        is_two_pairs(xs, ys, w, h),
        is_seeding(xs, ys, 2, seeds),
    ensures
        seeds[0].x != seeds[1].x ==> tells_apart(attempt(xs, ys, seeds, threshold).labels)
            && attempt(xs, ys, seeds, threshold).error <= 2 * (h * h),
        seeds[0].x == seeds[1].x ==> !tells_apart(attempt(xs, ys, seeds, threshold).labels) && w
            * w <= attempt(xs, ys, seeds, threshold).error,
{
    lemma_seeding_of_pairs(xs, ys, w, h, seeds);
    if seeds[0].x != seeds[1].x {
        let left: int = if seeds[0].x == xs[0] {
            0
        } else {
            1
        };
        lemma_lloyd_of_pairs(xs, ys, w, h, seeds, left, threshold, 0);
    } else {
        let low: int = if seeds[0].y == ys[0] {
            0
        } else {
            1
        };
        lemma_lloyd_of_levels(xs, ys, w, h, seeds, low, threshold, 0);
    }
}

} // verus!
