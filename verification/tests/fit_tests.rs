use kmeans::{Centroid, Config, Error, Init, KMeans, Point};

fn pts(v: &[(i64, i64)]) -> Vec<Point> {
    let mut out = Vec::new();
    for &(x, y) in v {
        out.push(Point::new(x, y));
    }
    out
}

fn cent_xy(c: &Centroid) -> (f64, f64) {
    (c.sx as f64 / c.den as f64, c.sy as f64 / c.den as f64)
}

#[test]
fn fit_fixed_init() {
    let config = Config::default().n_clusters(2).init(Init::Fixed(vec![
        Centroid::new(1, 2, 1),
        Centroid::new(4, 2, 1),
    ]));
    let kmeans = KMeans::new(config);
    let data = pts(&[(1, 2), (1, 4), (1, 0), (4, 2), (4, 4), (4, 0)]);
    let (labels, centers) = kmeans.fit(data).unwrap();

    assert_eq!(labels, vec![0, 0, 0, 1, 1, 1]);
    assert_eq!(centers.len(), 2);
    assert!(centers[0].eq_value(&Centroid::new(1, 2, 1)));
    assert!(centers[1].eq_value(&Centroid::new(4, 2, 1)));
}

#[test]
fn fit_two_bands() {
    let config = Config::default().n_clusters(2).init(Init::Fixed(vec![
        Centroid::new(0, 0, 1),
        Centroid::new(10, 0, 1),
    ]));
    let kmeans = KMeans::new(config);
    let data = pts(&[(0, 0), (0, 1), (10, 0), (10, 1)]);
    let (labels, centers) = kmeans.fit(data).unwrap();

    assert_eq!(labels, vec![0, 0, 1, 1]);
    assert_eq!(centers.len(), 2);
    // (0, 0.5) and (10, 0.5), exactly.
    assert!(centers[0].eq_value(&Centroid::new(0, 1, 2)));
    assert!(centers[1].eq_value(&Centroid::new(20, 1, 2)));
}

#[test]
fn fit_each_point_its_own_cluster() {
    let data = pts(&[(0, 0), (5, 5), (9, 1)]);
    let seeds = vec![
        Centroid::new(0, 0, 1),
        Centroid::new(5, 5, 1),
        Centroid::new(9, 1, 1),
    ];
    let config = Config::default().n_clusters(3).init(Init::Fixed(seeds.clone()));
    let (labels, centers) = KMeans::new(config).fit(data).unwrap();

    assert_eq!(labels, vec![0, 1, 2]);
    assert_eq!(centers.len(), 3);
    for i in 0..3 {
        assert!(centers[i].eq_value(&seeds[i]));
    }
}

#[test]
fn fit_single_cluster_moves_to_mean() {
    let config = Config::default()
        .n_clusters(1)
        .init(Init::Fixed(vec![Centroid::new(0, 0, 1)]));
    let data = pts(&[(7, 3)]);
    let (labels, centers) = KMeans::new(config).fit(data).unwrap();
    assert_eq!(labels, vec![0]);
    assert_eq!(centers.len(), 1);
    assert!(centers[0].eq_value(&Centroid::new(7, 3, 1)));
}

#[test]
fn fit_empty_cluster_keeps_previous_centroid() {
    let config = Config::default().n_clusters(2).init(Init::Fixed(vec![
        Centroid::new(1, 0, 1),
        Centroid::new(50, 0, 1),
    ]));
    let data = pts(&[(0, 0), (2, 0)]);
    let (labels, centers) = KMeans::new(config).fit(data).unwrap();
    assert_eq!(labels, vec![0, 0]);
    assert_eq!(centers.len(), 2);
    // Cluster 0 moves to the mean of its members; empty cluster 1 stays put.
    assert!(centers[0].eq_value(&Centroid::new(1, 0, 1)));
    assert!(centers[1].eq_value(&Centroid::new(50, 0, 1)));
}

#[test]
fn fit_deterministic_under_fixed_init() {
    let data_raw = [(3, 1), (1, 3), (8, 8), (9, 7), (0, 0), (7, 9)];
    let mut results = Vec::new();
    for _ in 0..2 {
        let config = Config::default().n_clusters(2).init(Init::Fixed(vec![
            Centroid::new(0, 0, 1),
            Centroid::new(9, 9, 1),
        ]));
        let r = KMeans::new(config).fit(pts(&data_raw)).unwrap();
        results.push(r);
    }
    let (l1, c1) = &results[0];
    let (l2, c2) = &results[1];
    assert_eq!(l1, l2);
    assert_eq!(c1.len(), c2.len());
    for i in 0..c1.len() {
        assert_eq!((c1[i].sx, c1[i].sy, c1[i].den), (c2[i].sx, c2[i].sy, c2[i].den));
    }
}

#[test]
fn fit_rejects_zero_clusters() {
    let config = Config::default().n_clusters(0);
    let r = KMeans::new(config).fit(pts(&[(1, 1), (2, 2)]));
    assert!(matches!(r, Err(Error::InvalidClusterCount)));
}

#[test]
fn fit_rejects_insufficient_data() {
    let config = Config::default().n_clusters(5);
    let r = KMeans::new(config).fit(pts(&[(1, 1), (2, 2), (3, 3)]));
    assert!(matches!(r, Err(Error::InsufficientData)));
}

#[test]
fn fit_rejects_empty_data_with_default_config() {
    // The default configuration asks for eight clusters.
    let config = Config::default();
    assert_eq!(config.n_clusters, 8);
    let r = KMeans::new(config).fit(Vec::new());
    assert!(matches!(r, Err(Error::InsufficientData)));
}

#[test]
fn fit_random_init_basic_invariants() {
    let data_raw = [(0, 0), (1, 0), (0, 1), (20, 20), (21, 20), (20, 21)];
    let config = Config::default().n_clusters(2);
    let (labels, centers) = KMeans::new(config).fit(pts(&data_raw)).unwrap();
    assert_eq!(labels.len(), data_raw.len());
    assert_eq!(centers.len(), 2);
    for &l in labels.iter() {
        assert!(l < 2);
    }
}

#[test]
fn fit_random_init_with_as_many_clusters_as_points() {
    // With as many clusters as (distinct) points, sampling without
    // replacement must seed every point as a centroid, and the run
    // converges with each point in its own cluster.
    let data_raw = [(0, 0), (10, 0), (0, 10), (10, 10)];
    let config = Config::default().n_clusters(4);
    let (labels, centers) = KMeans::new(config).fit(pts(&data_raw)).unwrap();
    assert_eq!(labels.len(), 4);
    assert_eq!(centers.len(), 4);
    for &(x, y) in data_raw.iter() {
        let expected = Centroid::new(x, y, 1);
        assert!(centers.iter().any(|c| c.eq_value(&expected)));
    }
}

fn ssd(data: &[(i64, i64)], labels: &[usize], centers: &[Centroid]) -> f64 {
    let mut total = 0.0;
    for (i, &(x, y)) in data.iter().enumerate() {
        let (cx, cy) = cent_xy(&centers[labels[i]]);
        let dx = x as f64 - cx;
        let dy = y as f64 - cy;
        total += dx * dx + dy * dy;
    }
    total
}

#[test]
fn fit_improves_on_initial_assignment() {
    // Monotonic improvement, observed end to end: the final sum of squared
    // distances is no larger than the one for the initial assignment.
    let data_raw = [(0, 0), (0, 1), (10, 0), (10, 1)];
    let seeds = vec![Centroid::new(0, 0, 1), Centroid::new(10, 0, 1)];
    let initial_labels = vec![0, 0, 1, 1];
    let initial = ssd(&data_raw, &initial_labels, &seeds);
    let config = Config::default().n_clusters(2).init(Init::Fixed(seeds));
    let (labels, centers) = KMeans::new(config).fit(pts(&data_raw)).unwrap();
    let final_cost = ssd(&data_raw, &labels, &centers);
    assert!(final_cost <= initial);
}

#[test]
fn fit_result_is_a_fixed_point_of_the_update_step() {
    // Recomputing each cluster's mean from the returned labels reproduces
    // the returned centroids.
    let data_raw = [(0, 0), (0, 1), (10, 0), (10, 1), (5, 9)];
    let seeds = vec![Centroid::new(0, 0, 1), Centroid::new(10, 0, 1)];
    let config = Config::default().n_clusters(2).init(Init::Fixed(seeds));
    let (labels, centers) = KMeans::new(config).fit(pts(&data_raw)).unwrap();
    for c in 0..centers.len() {
        let members: Vec<(i64, i64)> = data_raw
            .iter()
            .enumerate()
            .filter(|(i, _)| labels[*i] == c)
            .map(|(_, p)| *p)
            .collect();
        if !members.is_empty() {
            let n = members.len() as i64;
            let sx: i64 = members.iter().map(|p| p.0).sum();
            let sy: i64 = members.iter().map(|p| p.1).sum();
            assert!(centers[c].eq_value(&Centroid::new(sx, sy, n)));
        }
    }
}

#[test]
fn config_builder_chains() {
    let config = Config::default();
    assert_eq!(config.n_clusters, 8);
    assert!(matches!(config.init, Init::Random));
    let config = config.n_clusters(3);
    assert_eq!(config.n_clusters, 3);
    let config = config.init(Init::Fixed(vec![Centroid::new(0, 0, 1)]));
    assert!(matches!(config.init, Init::Fixed(_)));
    assert_eq!(config.n_clusters, 3);
}

#[test]
fn centroid_value_equality_ignores_representation() {
    assert!(Centroid::new(1, 2, 1).eq_value(&Centroid::new(3, 6, 3)));
    assert!(!Centroid::new(1, 2, 1).eq_value(&Centroid::new(3, 5, 3)));
    assert!(Centroid::new(0, 1, 2).eq_value(&Centroid::new(0, 2, 4)));
}
