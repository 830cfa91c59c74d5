use kmeans::geom::{Bounds, Point};
use kmeans::kmeans::{
    centroids, centroids_plus_plus, cluster, gather, label_points, nearest_centroid, resolve_draw,
    run, seed_weights, total_error, update_centroids, MAX_ITERATIONS, MAX_POINTS,
};
use rand::rngs::StdRng;
use rand::SeedableRng;

const PAIRS_X: [i32; 4] = [0, 0, 10, 10];
const PAIRS_Y: [i32; 4] = [0, 1, 0, 1];

fn p(x: i32, y: i32) -> Point {
    Point { x, y }
}

#[test]
fn two_pairs_are_told_apart_whatever_the_seed() {
    for seed in 0..50u64 {
        let (labels, n, _, error) = cluster(&PAIRS_X, &PAIRS_Y, 2, 1, 8, seed).unwrap();
        assert_eq!(n, 4);
        assert_eq!(labels.len(), 4);
        assert_eq!(labels[0], labels[1]);
        assert_eq!(labels[2], labels[3]);
        assert_ne!(labels[0], labels[2]);
        // Each centre rounds down to y = 0, so one point of each pair is at
        // squared distance 1 and the other at 0.
        assert_eq!(error, 2);
    }
}

#[test]
fn two_pairs_in_fixed_point() {
    let xs: Vec<i32> = PAIRS_X.iter().map(|v| v * 65536).collect();
    let ys: Vec<i32> = PAIRS_Y.iter().map(|v| v * 65536).collect();
    for seed in 0..20u64 {
        let (labels, n, iterations, error) = cluster(&xs, &ys, 2, 1, 8, seed).unwrap();
        assert_eq!(n, 4);
        assert_eq!(labels[0], labels[1]);
        assert_eq!(labels[2], labels[3]);
        assert_ne!(labels[0], labels[2]);
        assert!(iterations <= 3);
        // Four points, each half a unit from its centre.
        assert_eq!(error, 4 * 32768 * 32768);
    }
}

#[test]
fn labels_are_in_range_and_one_per_point() {
    let xs = [3, -8, 15, 22, 4, 4, -19, 30, 7, 0, 12];
    let ys = [9, 2, -7, 14, 4, 5, 21, -30, 7, 1, -12];
    for k in 1..6usize {
        for seed in 0..10u64 {
            let (labels, n, iterations, _) = cluster(&xs, &ys, k, 1, 3, seed).unwrap();
            assert_eq!(n, xs.len());
            assert_eq!(labels.len(), n);
            assert!(labels.iter().all(|l| *l < k));
            assert!(iterations <= MAX_ITERATIONS);
        }
    }
}

#[test]
fn a_small_set_converges_within_a_few_iterations() {
    let xs = [0, 1, 2, 100, 101, 102];
    let ys = [0, 1, 0, 50, 51, 50];
    for seed in 0..20u64 {
        let (_, _, iterations, _) = cluster(&xs, &ys, 2, 1, 1, seed).unwrap();
        assert!(iterations < 10);
    }
}

#[test]
fn cluster_is_reproducible() {
    let xs = [3, -8, 15, 22, 4, 4, -19, 30, 7, 0, 12];
    let ys = [9, 2, -7, 14, 4, 5, 21, -30, 7, 1, -12];
    for seed in [0u64, 1, 7, 12345, u64::MAX] {
        let first = cluster(&xs, &ys, 3, 1, 4, seed);
        let second = cluster(&xs, &ys, 3, 1, 4, seed);
        assert!(first.is_some());
        assert_eq!(first, second);
    }
}

#[test]
fn the_best_restart_is_kept() {
    let xs = [3, -8, 15, 22, 4, 4, -19, 30, 7, 0, 12, 40, 41, -40];
    let ys = [9, 2, -7, 14, 4, 5, 21, -30, 7, 1, -12, 40, 39, -41];
    for seed in 0..10u64 {
        let loops = 6;
        let (labels, _, iterations, error) = cluster(&xs, &ys, 4, 1, loops, seed).unwrap();
        let mut rng = StdRng::seed_from_u64(seed);
        let mut least: Option<(Vec<usize>, u16, u128)> = None;
        for _ in 0..loops {
            let seeds = centroids_plus_plus(&xs, &ys, 4, &mut rng);
            let fit = run(&xs, &ys, seeds, 1);
            let e = total_error(&xs, &ys, &fit.labels, &fit.centroids);
            assert!(error <= e);
            let better = match &least {
                Some((_, _, held)) => e < *held,
                None => true,
            };
            if better {
                least = Some((fit.labels, fit.iterations, e));
            }
        }
        assert_eq!(least, Some((labels, iterations, error)));
    }
}

#[test]
fn no_restart_reports_nothing_tried() {
    assert_eq!(
        cluster(&PAIRS_X, &PAIRS_Y, 2, 1, 0, 9),
        Some((vec![0, 0, 0, 0], 4, 0, u128::MAX))
    );
}

#[test]
fn cluster_refuses_no_points() {
    assert_eq!(cluster(&[], &[], 2, 1, 1, 0), None);
}

#[test]
fn cluster_refuses_arrays_of_different_lengths() {
    assert_eq!(cluster(&[1, 2, 3], &[1, 2], 2, 1, 1, 0), None);
    assert_eq!(cluster(&[1, 2], &[1, 2, 3], 2, 1, 1, 0), None);
}

#[test]
fn cluster_refuses_no_clusters() {
    assert_eq!(cluster(&PAIRS_X, &PAIRS_Y, 0, 1, 1, 0), None);
}

#[test]
fn cluster_refuses_a_threshold_of_zero() {
    assert_eq!(cluster(&PAIRS_X, &PAIRS_Y, 2, 0, 1, 0), None);
}

#[test]
fn the_limit_on_points_is_beyond_any_array() {
    assert_eq!(MAX_POINTS, 1 << 62);
}

#[test]
fn more_clusters_than_distinct_points() {
    let xs = [5, 5, 5];
    let ys = [9, 9, 9];
    let (labels, n, iterations, error) = cluster(&xs, &ys, 4, 1, 2, 3).unwrap();
    assert_eq!(n, 3);
    assert_eq!(labels, vec![0, 0, 0]);
    assert_eq!(iterations, 0);
    assert_eq!(error, 0);
}

#[test]
fn one_cluster_is_centred_on_the_mean() {
    let xs = [0, 2, 4];
    let ys = [0, 0, 6];
    let (labels, _, iterations, error) = cluster(&xs, &ys, 1, 1, 1, 0).unwrap();
    assert_eq!(labels, vec![0, 0, 0]);
    // The centre comes to rest at (2, 2).
    assert_eq!(error, (4 + 4) + (0 + 4) + (4 + 16));
    assert!(iterations <= 1);
}

#[test]
fn seeds_are_distinct_points_of_the_set() {
    let xs = [1, 50, -30];
    let ys = [2, 60, -3];
    for seed in 0..30u64 {
        let mut rng = StdRng::seed_from_u64(seed);
        let seeds = centroids_plus_plus(&xs, &ys, 3, &mut rng);
        assert_eq!(seeds.len(), 3);
        for s in seeds.iter() {
            assert!((0..3).any(|j| s.x == xs[j] && s.y == ys[j]));
        }
        assert_ne!(seeds[0], seeds[1]);
        assert_ne!(seeds[0], seeds[2]);
        assert_ne!(seeds[1], seeds[2]);
    }
}

#[test]
fn seeds_fall_back_to_the_first_point() {
    let xs = [7, 7, 8, 7];
    let ys = [3, 3, 3, 3];
    for seed in 0..10u64 {
        let mut rng = StdRng::seed_from_u64(seed);
        let seeds = centroids_plus_plus(&xs, &ys, 4, &mut rng);
        assert_eq!(seeds.len(), 4);
        // Two distinct points: once both are seeds, the first point is taken.
        assert_ne!(seeds[0], seeds[1]);
        assert_eq!(seeds[2], p(7, 3));
        assert_eq!(seeds[3], p(7, 3));
    }
}

#[test]
fn seeding_is_reproducible() {
    let xs = [3, -8, 15, 22, 4, 4, -19, 30];
    let ys = [9, 2, -7, 14, 4, 5, 21, -30];
    let mut a = StdRng::seed_from_u64(11);
    let mut b = StdRng::seed_from_u64(11);
    assert_eq!(
        centroids_plus_plus(&xs, &ys, 5, &mut a),
        centroids_plus_plus(&xs, &ys, 5, &mut b)
    );
}

#[test]
fn seeds_vary_with_the_draw() {
    let xs = [0, 10, 20, 30, 40, 50, 60, 70];
    let ys = [0, 10, 20, 30, 40, 50, 60, 70];
    let mut seen = Vec::new();
    for seed in 0..40u64 {
        let mut rng = StdRng::seed_from_u64(seed);
        let first = centroids_plus_plus(&xs, &ys, 1, &mut rng)[0];
        if !seen.contains(&first) {
            seen.push(first);
        }
    }
    assert!(seen.len() > 1);
}

#[test]
fn uniform_seeds_lie_inside_the_box() {
    let b = Bounds { min_x: -3, max_x: 12, min_y: -1, max_y: 10 };
    let mut xs_seen = Vec::new();
    for seed in 0..20u64 {
        let mut rng = StdRng::seed_from_u64(seed);
        let seeds = centroids(&b, 5, &mut rng);
        assert_eq!(seeds.len(), 5);
        for s in seeds.iter() {
            assert!(-3 <= s.x && s.x < 12);
            assert!(-1 <= s.y && s.y < 10);
            if !xs_seen.contains(&s.x) {
                xs_seen.push(s.x);
            }
        }
    }
    assert!(xs_seen.len() > 1);
}

#[test]
fn no_uniform_seeds_from_any_box() {
    let b = Bounds { min_x: i32::MAX, max_x: i32::MIN, min_y: i32::MAX, max_y: i32::MIN };
    let mut rng = StdRng::seed_from_u64(0);
    assert_eq!(centroids(&b, 0, &mut rng), Vec::new());
}

#[test]
fn resolve_draw_takes_the_index_or_the_first_point() {
    assert_eq!(resolve_draw(Some(5)), 5);
    assert_eq!(resolve_draw(Some(0)), 0);
    assert_eq!(resolve_draw(None), 0);
}

#[test]
fn seed_weights_are_squared_distances_to_the_nearest_seed() {
    let xs = [0, 3, 10];
    let ys = [0, 4, 0];
    assert_eq!(seed_weights(&xs, &ys, &[]), vec![1, 1, 1]);
    assert_eq!(seed_weights(&xs, &ys, &[p(0, 0)]), vec![0, 25, 100]);
    assert_eq!(seed_weights(&xs, &ys, &[p(0, 0), p(10, 0)]), vec![0, 25, 0]);
}

#[test]
fn nearest_centroid_prefers_the_lowest_index() {
    let cs = [p(0, 0), p(10, 0), p(0, 10), p(10, 0)];
    assert_eq!(nearest_centroid(p(5, 0), &cs), (0, 25));
    assert_eq!(nearest_centroid(p(6, 0), &cs), (1, 16));
    assert_eq!(nearest_centroid(p(5, 5), &cs), (0, 50));
    assert_eq!(nearest_centroid(p(1, 9), &cs), (2, 2));
    assert_eq!(nearest_centroid(p(3, 3), &[p(7, 7)]), (0, 32));
}

#[test]
fn label_points_assigns_the_nearest_centroid() {
    let xs = [0, 1, 9, 10, 5];
    let ys = [0, 0, 0, 0, 0];
    let mut labels = vec![7; 5];
    label_points(&xs, &ys, &mut labels, &[p(0, 0), p(10, 0)]);
    assert_eq!(labels, vec![0, 0, 1, 1, 0]);
}

#[test]
fn gather_collects_a_cohort_in_order() {
    let vals = [10, 20, 30, 40, 50];
    let labels = [1, 0, 1, 2, 1];
    assert_eq!(gather(&vals, &labels, 1), vec![10, 30, 50]);
    assert_eq!(gather(&vals, &labels, 0), vec![20]);
    assert_eq!(gather(&vals, &labels, 3), Vec::<i64>::new());
}

#[test]
fn update_moves_centroids_to_the_mean_of_their_members() {
    let xs = [0, 2, 10, 14];
    let ys = [0, 4, 8, 8];
    let labels = [0, 0, 2, 2];
    let mut cs = vec![p(0, 0), p(100, 100), p(9, 8)];
    let delta = update_centroids(&xs, &ys, &labels, &mut cs);
    // The first moves from (0, 0) to (1, 2), the second has no member and
    // stays, the third moves from (9, 8) to (12, 8).
    assert_eq!(cs, vec![p(1, 2), p(100, 100), p(12, 8)]);
    assert_eq!(delta, 2 + 0 + 3);
}

#[test]
fn run_stops_once_the_centroids_rest() {
    let fit = run(&PAIRS_X, &PAIRS_Y, vec![p(0, 0), p(10, 1)], 1);
    assert_eq!(fit.labels, vec![0, 0, 1, 1]);
    assert_eq!(fit.centroids, vec![p(0, 0), p(10, 0)]);
    // The first pass moves the second centroid by one; the second moves none.
    assert_eq!(fit.iterations, 1);
    assert_eq!(total_error(&PAIRS_X, &PAIRS_Y, &fit.labels, &fit.centroids), 2);
}

#[test]
fn run_with_a_generous_threshold_stops_at_once() {
    let fit = run(&PAIRS_X, &PAIRS_Y, vec![p(0, 0), p(10, 1)], 1000);
    assert_eq!(fit.iterations, 0);
    assert_eq!(fit.labels, vec![0, 0, 1, 1]);
    assert_eq!(fit.centroids, vec![p(0, 0), p(10, 0)]);
}

#[test]
fn run_can_settle_in_a_poor_partition() {
    let fit = run(&PAIRS_X, &PAIRS_Y, vec![p(0, 0), p(0, 1)], 1);
    assert_eq!(fit.labels, vec![0, 1, 0, 1]);
    assert_eq!(fit.centroids, vec![p(5, 0), p(5, 1)]);
    assert_eq!(total_error(&PAIRS_X, &PAIRS_Y, &fit.labels, &fit.centroids), 100);
}

#[test]
fn total_error_sums_squared_distances() {
    let xs = [0, 3];
    let ys = [0, 4];
    assert_eq!(total_error(&xs, &ys, &[0, 0], &[p(0, 0)]), 25);
    assert_eq!(total_error(&xs, &ys, &[0, 1], &[p(0, 0), p(3, 3)]), 1);
    assert_eq!(total_error(&[], &[], &[], &[p(1, 1)]), 0);
}

#[test]
fn one_more_restart_is_no_worse() {
    let xs = [3, -8, 15, 22, 4, 4, -19, 30, 7, 0, 12, 40, 41, -40];
    let ys = [9, 2, -7, 14, 4, 5, 21, -30, 7, 1, -12, 40, 39, -41];
    for seed in 0..10u64 {
        let mut held = u128::MAX;
        for loops in 0..8usize {
            let (_, _, _, error) = cluster(&xs, &ys, 4, 1, loops, seed).unwrap();
            assert!(error <= held);
            held = error;
        }
    }
}

#[test]
fn seeds_from_different_pairs_tell_the_pairs_apart() {
    let xs = [-7, -7, 13, 13];
    let ys = [4, 23, 4, 23];
    for (a, b) in [(0usize, 2usize), (0, 3), (1, 2), (1, 3)] {
        let fit = run(&xs, &ys, vec![p(xs[a], ys[a]), p(xs[b], ys[b])], 1);
        assert_eq!(fit.labels, vec![0, 0, 1, 1]);
        assert!(total_error(&xs, &ys, &fit.labels, &fit.centroids) <= 2 * 19 * 19);
        let fit = run(&xs, &ys, vec![p(xs[b], ys[b]), p(xs[a], ys[a])], 1);
        assert_eq!(fit.labels, vec![1, 1, 0, 0]);
    }
}

#[test]
fn seeds_from_one_pair_do_not_tell_the_pairs_apart() {
    let xs = [-7, -7, 13, 13];
    let ys = [4, 23, 4, 23];
    for (a, b) in [(0usize, 1usize), (2, 3)] {
        let fit = run(&xs, &ys, vec![p(xs[a], ys[a]), p(xs[b], ys[b])], 1);
        assert_eq!(fit.labels, vec![0, 1, 0, 1]);
        assert!(total_error(&xs, &ys, &fit.labels, &fit.centroids) >= 20 * 20);
        let fit = run(&xs, &ys, vec![p(xs[b], ys[b]), p(xs[a], ys[a])], 1);
        assert_eq!(fit.labels, vec![1, 0, 1, 0]);
    }
}
