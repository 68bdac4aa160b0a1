use ant_sort::prob::LinearProbability;
use ant_sort::prob::ProbabilityModel;
use ant_sort::prob::drop_probability;
use ant_sort::prob::pickup_probability;
use ant_sort::similarity::FeatureVec;
use ant_sort::similarity::density_similarity;
use ant_sort::similarity::feature_distance;
use ant_sort::similarity::feature_similarity;
use ant_sort::similarity::isqrt;

#[test]
fn integer_square_roots() {
    assert_eq!(isqrt(0), 0);
    assert_eq!(isqrt(1), 1);
    assert_eq!(isqrt(3), 1);
    assert_eq!(isqrt(4), 2);
    assert_eq!(isqrt(17), 4);
    assert_eq!(isqrt(1_000_000), 1000);
    assert_eq!(isqrt(8_000_000_000_000_000_000), 2_828_427_124);
}

#[test]
fn euclidean_distance_in_fixed_point() {
    // a 3-4-5 triangle in thousandths
    let a = FeatureVec { x: 0, y: 0 };
    let b = FeatureVec { x: 3000, y: 4000 };
    assert_eq!(feature_distance(&a, &b), 5000);
    assert_eq!(feature_distance(&a, &a), 0);
}

#[test]
fn density_form_half_occupied_window() {
    // eight-neighbor window, four occupied: ratio one half, threshold 1.25,
    // similarity 0.625; with steepness 2 the pickup probability clamps to 0
    let s = density_similarity(4, 4, 1250);
    assert_eq!(s, 625);
    assert_eq!(pickup_probability(s, 2000), 0);
}

#[test]
fn density_form_edge_cases() {
    assert_eq!(density_similarity(0, 0, 1250), 0);
    assert_eq!(density_similarity(0, 8, 1250), 0);
    // a fully occupied window caps at one
    assert_eq!(density_similarity(8, 0, 1250), 1000);
}

#[test]
fn feature_form_identical_neighbor() {
    // one occupied neighbor at distance zero: similarity one; with steepness
    // 2 the drop probability clamps to 1 — a deterministic drop
    let v = FeatureVec { x: 1000, y: 2000 };
    let ws = vec![FeatureVec { x: 1000, y: 2000 }];
    let s = feature_similarity(&v, &ws, 4500);
    assert_eq!(s, 1000);
    assert_eq!(drop_probability(s, 2000), 1000);
}

#[test]
fn feature_form_no_neighbors_scores_zero() {
    let v = FeatureVec { x: 1000, y: 2000 };
    let ws: Vec<FeatureVec> = Vec::new();
    assert_eq!(feature_similarity(&v, &ws, 4500), 0);
}

#[test]
fn feature_form_distant_neighbor_floors_at_zero() {
    // distance 9 with ALPHA 4.5: the contribution is negative, floored to 0
    let v = FeatureVec { x: 0, y: 0 };
    let ws = vec![FeatureVec { x: 9000, y: 0 }];
    assert_eq!(feature_similarity(&v, &ws, 4500), 0);
}

#[test]
fn feature_form_mean_over_neighbors() {
    // neighbors at distance 0 and distance 4.5: contributions 1 and 0, mean 0.5
    let v = FeatureVec { x: 0, y: 0 };
    let ws = vec![FeatureVec { x: 0, y: 0 }, FeatureVec { x: 4500, y: 0 }];
    assert_eq!(feature_similarity(&v, &ws, 4500), 500);
}

#[test]
fn linear_probability_pair() {
    assert_eq!(pickup_probability(0, 2000), 1000);
    assert_eq!(drop_probability(0, 2000), 0);
    assert_eq!(pickup_probability(250, 2000), 500);
    assert_eq!(drop_probability(250, 2000), 500);
    assert_eq!(pickup_probability(1000, 2000), 0);
    assert_eq!(drop_probability(1000, 2000), 1000);
    let model = LinearProbability { steepness: 2000 };
    assert_eq!(model.pickup(625), 0);
    assert_eq!(model.drop_carried(625), 1000);
}
