use huex::merge::{merge_close_clusters, WeightedCentroid};
use huex::rank::{
    count_populations, first_max_index, first_min_index, order_by_weight_desc,
    populated_clusters, rank_clusters, ClusterPopulation,
};

type Point = (f64, f64, f64);

fn distance(a: Point, b: Point) -> f64 {
    let (dl, da, db) = (a.0 - b.0, a.1 - b.1, a.2 - b.2);
    (dl * dl + da * da + db * db).sqrt()
}

fn merge_points(clusters: Vec<WeightedCentroid<Point>>, threshold: f64) -> Vec<WeightedCentroid<Point>> {
    merge_close_clusters(
        clusters,
        |a: &Point, b: &Point| {
            let d = distance(*a, *b);
            if d < threshold {
                Some(d.to_bits())
            } else {
                None
            }
        },
        |a: &Point, wa: usize, b: &Point, wb: usize| {
            let (wa, wb) = (wa as f64, wb as f64);
            let total = wa + wb;
            (
                (a.0 * wa + b.0 * wb) / total,
                (a.1 * wa + b.1 * wb) / total,
                (a.2 * wa + b.2 * wb) / total,
            )
        },
    )
}

#[test]
fn merges_close_clusters() {
    let clusters = vec![
        WeightedCentroid { centroid: (0.6, 0.1, 0.1), weight: 10 },
        WeightedCentroid { centroid: (0.6005, 0.1005, 0.0995), weight: 5 },
        WeightedCentroid { centroid: (0.2, -0.1, -0.1), weight: 3 },
    ];

    let merged = merge_points(clusters, 0.05);
    assert_eq!(merged.len(), 2);
    assert_eq!(merged[0].weight, 15);
}

#[test]
fn merge_sorts_by_weight_and_keeps_far_clusters() {
    let clusters = vec![
        WeightedCentroid { centroid: (0.1, 0.0, 0.0), weight: 2 },
        WeightedCentroid { centroid: (0.5, 0.0, 0.0), weight: 9 },
        WeightedCentroid { centroid: (0.9, 0.0, 0.0), weight: 2 },
    ];
    let merged = merge_points(clusters, 0.05);
    let weights: Vec<usize> = merged.iter().map(|c| c.weight).collect();
    assert_eq!(weights, vec![9, 2, 2]);
    assert_eq!(merged[1].centroid.0, 0.1);
    assert_eq!(merged[2].centroid.0, 0.9);
}

#[test]
fn merge_chains_until_nothing_is_close() {
    let clusters = vec![
        WeightedCentroid { centroid: (0.0, 0.0, 0.0), weight: 1 },
        WeightedCentroid { centroid: (0.03, 0.0, 0.0), weight: 1 },
        WeightedCentroid { centroid: (0.06, 0.0, 0.0), weight: 1 },
        WeightedCentroid { centroid: (0.5, 0.0, 0.0), weight: 4 },
    ];
    let merged = merge_points(clusters, 0.05);
    assert_eq!(merged.len(), 2);
    assert_eq!(merged[0].weight, 4);
    assert_eq!(merged[1].weight, 3);
    assert!((merged[1].centroid.0 - 0.03).abs() < 1e-12);
    for i in 0..merged.len() {
        for j in 0..merged.len() {
            if i != j {
                assert!(distance(merged[i].centroid, merged[j].centroid) >= 0.05);
            }
        }
    }
}

#[test]
fn merge_leaves_a_single_cluster_alone() {
    let one = vec![WeightedCentroid { centroid: (0.3, 0.0, 0.0), weight: 0 }];
    let merged = merge_points(one, 10.0);
    assert_eq!(merged.len(), 1);
    assert_eq!(merged[0].weight, 0);
    assert!(merge_points(Vec::new(), 1.0).is_empty());
}

#[test]
fn populations_are_counted_per_cluster() {
    let assignments = vec![2usize, 0, 2, 2, 1, 0];
    assert_eq!(count_populations(&assignments, 4), vec![2, 1, 3, 0]);
}

#[test]
fn ranking_is_by_population_then_cluster() {
    let assignments = vec![3usize, 0, 3, 1, 1, 0, 4, 4, 4];
    let ranked = rank_clusters(&assignments, 6);
    assert_eq!(
        ranked,
        vec![
            ClusterPopulation { cluster: 4, population: 3 },
            ClusterPopulation { cluster: 0, population: 2 },
            ClusterPopulation { cluster: 1, population: 2 },
            ClusterPopulation { cluster: 3, population: 2 },
        ]
    );
    let total: usize = ranked.iter().map(|p| p.population).sum();
    assert_eq!(total, assignments.len());
}

#[test]
fn populated_clusters_keep_cluster_order() {
    let assignments = vec![3usize, 0, 3, 3];
    assert_eq!(
        populated_clusters(&assignments, 5),
        vec![
            ClusterPopulation { cluster: 0, population: 1 },
            ClusterPopulation { cluster: 3, population: 3 },
        ]
    );
    assert!(populated_clusters(&Vec::new(), 3).is_empty());
}

#[test]
fn weight_order_is_stable() {
    assert_eq!(order_by_weight_desc(&vec![1, 5, 1, 7, 5, 0]), vec![3, 1, 4, 0, 2, 5]);
    assert!(order_by_weight_desc(&Vec::new()).is_empty());
}

#[test]
fn first_min_and_max_pick_the_first_extreme() {
    assert_eq!(first_min_index(&vec![5, 3, 9, 3], u64::MAX), 1);
    assert_eq!(first_min_index(&vec![5, 6], 5), 0);
    assert_eq!(first_min_index(&vec![7, 6], 5), 0);
    assert_eq!(first_min_index(&vec![7, 6, 4], 5), 2);
    assert_eq!(first_min_index(&Vec::new(), u64::MAX), 0);
    assert_eq!(first_max_index(&vec![1, 8, 3, 8]), 1);
    assert_eq!(first_max_index(&vec![4]), 0);
}

#[test]
fn merged_centre_is_the_weighted_mean() {
    let clusters = vec![
        WeightedCentroid { centroid: (0.5, 0.0, 0.0), weight: 1 },
        WeightedCentroid { centroid: (0.25, 0.0, 0.0), weight: 3 },
    ];
    let merged = merge_points(clusters, 0.5);
    assert_eq!(merged.len(), 1);
    assert_eq!(merged[0].weight, 4);
    assert_eq!(merged[0].centroid, (0.3125, 0.0, 0.0));
}

#[test]
fn merging_twice_is_merging_once() {
    let clusters = vec![
        WeightedCentroid { centroid: (0.0, 0.0, 0.0), weight: 2 },
        WeightedCentroid { centroid: (0.1, 0.0, 0.0), weight: 5 },
        WeightedCentroid { centroid: (1.0, 0.0, 0.0), weight: 3 },
        WeightedCentroid { centroid: (1.05, 0.0, 0.0), weight: 3 },
        WeightedCentroid { centroid: (3.0, 0.0, 0.0), weight: 1 },
    ];
    let once = merge_points(clusters, 0.2);
    let again: Vec<WeightedCentroid<Point>> =
        once.iter().map(|c| WeightedCentroid { centroid: c.centroid, weight: c.weight }).collect();
    let twice = merge_points(again, 0.2);
    let view = |list: &Vec<WeightedCentroid<Point>>| -> Vec<(Point, usize)> {
        list.iter().map(|c| (c.centroid, c.weight)).collect()
    };
    assert_eq!(view(&twice), view(&once));
    assert_eq!(once.len(), 3);
}

#[test]
fn merging_is_deterministic() {
    let build = || {
        vec![
            WeightedCentroid { centroid: (0.0, 0.0, 0.0), weight: 4 },
            WeightedCentroid { centroid: (0.15, 0.0, 0.0), weight: 1 },
            WeightedCentroid { centroid: (0.3, 0.0, 0.0), weight: 2 },
            WeightedCentroid { centroid: (2.0, 1.0, 0.0), weight: 2 },
        ]
    };
    let view = |list: &Vec<WeightedCentroid<Point>>| -> Vec<(Point, usize)> {
        list.iter().map(|c| (c.centroid, c.weight)).collect()
    };
    assert_eq!(view(&merge_points(build(), 0.2)), view(&merge_points(build(), 0.2)));
}
