use huex::kmeans::{lloyd_clusters, palette_clusters, seed_centres};
use huex::merge::WeightedCentroid;
use huex::rng::Rng;

type Point = (f64, f64, f64);

fn distance_squared(a: &Point, b: &Point) -> f64 {
    let (dl, da, db) = (a.0 - b.0, a.1 - b.1, a.2 - b.2);
    dl * dl + da * da + db * db
}

fn key(point: &Point, centroid: &Point) -> u64 {
    let d = distance_squared(point, centroid);
    if d < f64::MAX {
        d.to_bits()
    } else {
        u64::MAX
    }
}

fn mean(points: &Vec<Point>, members: &Vec<usize>) -> Point {
    let mut sum = (0.0, 0.0, 0.0);
    for m in members {
        sum.0 += points[*m].0;
        sum.1 += points[*m].1;
        sum.2 += points[*m].2;
    }
    let n = members.len() as f64;
    (sum.0 / n, sum.1 / n, sum.2 / n)
}

/// A model of k-means++ seeding, written out with the library's generator.
fn model_seed_centres(points: &[Point], k: usize, seed: u64) -> Vec<Point> {
    let mut rng = Rng::new(seed);
    let mut centroids = vec![points[rng.index(points.len())]];
    while centroids.len() < k {
        let distances: Vec<f64> = points
            .iter()
            .map(|p| centroids.iter().map(|c| distance_squared(p, c)).fold(f64::MAX, f64::min))
            .collect();
        let total: f64 = distances.iter().sum();
        if total <= f64::EPSILON {
            centroids.push(points[rng.index(points.len())]);
            continue;
        }
        let mut target = ((rng.next_u64() >> 11) as f64 / (1u64 << 53) as f64) * total;
        let mut chosen = points[0];
        for (index, distance) in distances.iter().enumerate() {
            target -= distance;
            if target <= 0.0 {
                chosen = points[index];
                break;
            }
        }
        centroids.push(chosen);
    }
    centroids
}

fn nearest_distances(points: &[Point], centres: &[Point]) -> Vec<f64> {
    points
        .iter()
        .map(|p| centres.iter().map(|c| distance_squared(p, c)).fold(f64::MAX, f64::min))
        .collect()
}

fn library_seed_centres(points: &Vec<Point>, k: usize, seed: u64) -> Vec<Point> {
    seed_centres(
        points,
        k,
        seed,
        |centres: &Vec<Point>| !(nearest_distances(points, centres).iter().sum::<f64>() <= f64::EPSILON),
        |centres: &Vec<Point>, word: u64| {
            let distances = nearest_distances(points, centres);
            let total: f64 = distances.iter().sum();
            let mut target = ((word >> 11) as f64 / (1u64 << 53) as f64) * total;
            for (index, distance) in distances.iter().enumerate() {
                target -= distance;
                if target <= 0.0 {
                    return Some(index);
                }
            }
            None
        },
    )
}

fn fit(points: &Vec<Point>, k: usize, iterations: usize, seed: u64) -> Vec<WeightedCentroid<Point>> {
    let k = k.min(points.len()).max(1);
    let initial = library_seed_centres(points, k, seed);
    lloyd_clusters(points, initial, iterations, key, mean, |old: &Point, new: &Point| {
        distance_squared(old, new).sqrt() < 0.001
    })
}

#[test]
fn fits_two_clear_clusters() {
    let mut points = Vec::new();
    for _ in 0..50 {
        points.push((0.8, 0.1, 0.1));
        points.push((0.3, -0.1, -0.1));
    }

    let clusters = fit(&points, 2, 10, 42);
    assert_eq!(clusters.len(), 2);
    let total_weight: usize = clusters.iter().map(|cluster| cluster.weight).sum();
    assert_eq!(total_weight, points.len());
}

#[test]
fn lloyd_moves_centres_to_the_means() {
    let points = vec![(0.0, 0.0, 0.0), (0.2, 0.0, 0.0), (1.0, 0.0, 0.0), (1.2, 0.0, 0.0)];
    let clusters = lloyd_clusters(
        &points,
        vec![(0.0, 0.0, 0.0), (0.2, 0.0, 0.0)],
        20,
        key,
        mean,
        |old: &Point, new: &Point| distance_squared(old, new).sqrt() < 1e-9,
    );
    assert_eq!(clusters.len(), 2);
    assert_eq!(clusters[0].weight, 2);
    assert_eq!(clusters[1].weight, 2);
    assert!((clusters[0].centroid.0 - 0.1).abs() < 1e-12);
    assert!((clusters[1].centroid.0 - 1.1).abs() < 1e-12);
}

#[test]
fn lloyd_drops_centres_without_points() {
    let points = vec![(0.5, 0.0, 0.0); 6];
    let clusters = lloyd_clusters(
        &points,
        vec![(0.5, 0.0, 0.0), (0.5, 0.0, 0.0), (0.5, 0.0, 0.0)],
        5,
        key,
        mean,
        |old: &Point, new: &Point| distance_squared(old, new).sqrt() < 0.001,
    );
    assert_eq!(clusters.len(), 1);
    assert_eq!(clusters[0].weight, 6);
}

#[test]
fn lloyd_with_no_iterations_keeps_the_initial_centres_for_assignment() {
    let points = vec![(0.0, 0.0, 0.0), (0.9, 0.0, 0.0), (1.0, 0.0, 0.0)];
    let clusters = lloyd_clusters(
        &points,
        vec![(0.0, 0.0, 0.0), (2.0, 0.0, 0.0)],
        0,
        key,
        mean,
        |_: &Point, _: &Point| true,
    );
    assert_eq!(clusters.len(), 1);
    assert_eq!(clusters[0].weight, 3);
    assert!((clusters[0].centroid.0 - 1.9 / 3.0).abs() < 1e-12);
}

#[test]
fn seeding_matches_the_model() {
    let points: Vec<Point> = (0..40)
        .map(|i| ((i % 7) as f64 * 0.1, (i % 3) as f64 * 0.2, (i % 5) as f64 * -0.05))
        .collect();
    for seed in [0u64, 1, 42, 99] {
        for k in [1usize, 2, 5, 9] {
            assert_eq!(library_seed_centres(&points, k, seed), model_seed_centres(&points, k, seed));
        }
    }
}

#[test]
fn seeding_identical_points_draws_uniformly() {
    let points = vec![(0.25, 0.0, 0.0); 4];
    let centres = library_seed_centres(&points, 3, 7);
    assert_eq!(centres, vec![(0.25, 0.0, 0.0); 3]);
    let zero = library_seed_centres(&points, 0, 7);
    assert_eq!(zero.len(), 1);
}

#[test]
fn palette_ranks_centres_by_population() {
    let points = vec![
        (0.0, 0.0, 0.0),
        (1.0, 0.0, 0.0),
        (1.1, 0.0, 0.0),
        (0.9, 0.0, 0.0),
        (5.0, 0.0, 0.0),
    ];
    let centres = vec![(0.0, 0.0, 0.0), (3.0, 0.0, 0.0), (1.0, 0.0, 0.0), (9.0, 0.0, 0.0)];
    let palette = palette_clusters(&points, &centres, key, mean);
    let weights: Vec<usize> = palette.iter().map(|c| c.weight).collect();
    assert_eq!(weights, vec![3, 1, 1]);
    assert!((palette[0].centroid.0 - 1.0).abs() < 1e-12);
    assert_eq!(palette[1].centroid.0, 0.0);
    assert_eq!(palette[2].centroid.0, 5.0);
    assert_eq!(weights.iter().sum::<usize>(), points.len());
}

#[test]
fn palette_of_no_points_and_no_centres_is_empty() {
    let points: Vec<Point> = Vec::new();
    let centres: Vec<Point> = Vec::new();
    assert!(palette_clusters(&points, &centres, key, mean).is_empty());
}

#[test]
fn seeding_is_deterministic() {
    let points: Vec<Point> = (0..40).map(|i| ((i % 7) as f64, (i % 3) as f64 * 0.5, i as f64 * 0.01)).collect();
    for seed in [0u64, 1, 99] {
        assert_eq!(library_seed_centres(&points, 5, seed), library_seed_centres(&points, 5, seed));
    }
    assert_eq!(library_seed_centres(&points, 5, 0), library_seed_centres(&points, 5, 1));
}

#[test]
fn fitting_is_deterministic() {
    let points: Vec<Point> = (0..60).map(|i| ((i % 5) as f64 * 0.2, (i % 4) as f64 * 0.1, (i % 9) as f64 * 0.05)).collect();
    let view = |clusters: &Vec<WeightedCentroid<Point>>| -> Vec<(Point, usize)> {
        clusters.iter().map(|c| (c.centroid, c.weight)).collect()
    };
    for seed in [0u64, 3, 17] {
        assert_eq!(view(&fit(&points, 4, 20, seed)), view(&fit(&points, 4, 20, seed)));
    }
    assert_eq!(view(&fit(&points, 4, 20, 0)), view(&fit(&points, 4, 20, 1)));
}
