use image_kmeans::color::{calc_squared_dist, Color};
use image_kmeans::engine::{Config, ImageKmeans, InitMethod, KmeansError};
use image_kmeans::rng::RandomSource;

fn plain_config() -> Config {
    Config { quantize_fact: Some(1), top_num: None }
}

#[test]
fn empty_input_is_rejected() {
    let mut km = ImageKmeans::new(vec![]);
    let mut rng = RandomSource::from_seed(1);
    let r = km.with_fixed_k_number(2, InitMethod::Random, plain_config(), &mut rng);
    assert_eq!(r.unwrap_err(), KmeansError::InvalidInput);
}

#[test]
fn empty_input_is_rejected_for_derived_k() {
    let mut km = ImageKmeans::new(vec![]);
    let mut rng = RandomSource::from_seed(1);
    let r = km.with_derived_k_number(InitMethod::KmeansPlusPlus, plain_config(), &mut rng);
    assert_eq!(r.unwrap_err(), KmeansError::InvalidInput);
}

#[test]
fn zero_k_yields_an_empty_cluster_list() {
    let mut km = ImageKmeans::new(vec![Color::new(1, 2, 3)]);
    let mut rng = RandomSource::from_seed(1);
    for method in [InitMethod::Random, InitMethod::KmeansPlusPlus] {
        let r = km.with_fixed_k_number(0, method, plain_config(), &mut rng).unwrap();
        assert_eq!(r.ks, 0);
        assert!(r.clusters.is_empty());
        assert_eq!(r.wcss, 0);
    }
}

#[test]
fn snapping_breaks_ties_toward_the_earlier_member() {
    // both working colors are equally far from the mean (5,0,0) and equally
    // frequent, so the earlier one in working-list order is the centroid
    let colors = vec![Color::new(0, 0, 0), Color::new(10, 0, 0)];
    let mut km = ImageKmeans::new(colors);
    let mut rng = RandomSource::from_seed(3);
    let r = km.with_fixed_k_number(1, InitMethod::Random, plain_config(), &mut rng).unwrap();
    assert_eq!(r.clusters, vec![Color::new(0, 0, 0)]);
    assert_eq!(r.wcss, 100);
}

#[test]
fn two_color_classes_with_two_clusters() {
    // four pixels in two color classes; both classes must come back as
    // centroids and the clustering is exact
    let black = Color::new(0, 0, 0);
    let white = Color::new(255, 255, 255);
    let colors = vec![black, white, black, white];
    for (method, seed) in [(InitMethod::Random, 5u64), (InitMethod::KmeansPlusPlus, 5u64)] {
        let mut km = ImageKmeans::new(colors.clone());
        let mut rng = RandomSource::from_seed(seed);
        let r = km.with_fixed_k_number(2, method, plain_config(), &mut rng).unwrap();
        assert_eq!(r.ks, 2);
        assert_eq!(r.clusters.len(), 2);
        assert!(r.clusters.contains(&black));
        assert!(r.clusters.contains(&white));
        assert_eq!(r.wcss, 0);
    }
}

#[test]
fn single_cluster_centroid_is_a_member_and_wcss_is_the_total() {
    let colors = vec![
        Color::new(10, 20, 30),
        Color::new(200, 100, 50),
        Color::new(10, 20, 30),
        Color::new(0, 255, 128),
        Color::new(77, 77, 77),
    ];
    let mut km = ImageKmeans::new(colors.clone());
    let mut rng = RandomSource::from_seed(11);
    let r = km.with_fixed_k_number(1, InitMethod::Random, plain_config(), &mut rng).unwrap();
    assert_eq!(r.clusters.len(), 1);
    let centroid = r.clusters[0];
    assert!(colors.contains(&centroid));
    let wl = km.working_colors.as_ref().expect("working list built");
    let expected: u128 = wl.iter().map(|e| calc_squared_dist(&e.0, &centroid) as u128).sum();
    assert_eq!(r.wcss, expected);
}

#[test]
fn cluster_count_degrades_to_the_distinct_colors() {
    let colors = vec![Color::new(5, 5, 5), Color::new(250, 250, 250), Color::new(5, 5, 5)];
    let mut km = ImageKmeans::new(colors);
    let mut rng = RandomSource::from_seed(2);
    let r = km.with_fixed_k_number(8, InitMethod::KmeansPlusPlus, plain_config(), &mut rng)
        .unwrap();
    assert_eq!(r.ks, 8);
    assert_eq!(r.clusters.len(), 2);
}

#[test]
fn enough_clusters_drive_wcss_to_zero() {
    let colors = vec![
        Color::new(0, 0, 0),
        Color::new(100, 0, 0),
        Color::new(0, 100, 0),
        Color::new(0, 0, 100),
    ];
    let mut km = ImageKmeans::new(colors);
    let mut rng = RandomSource::from_seed(13);
    let r = km.with_fixed_k_number(10, InitMethod::Random, plain_config(), &mut rng).unwrap();
    assert_eq!(r.clusters.len(), 4);
    assert_eq!(r.wcss, 0);
}

#[test]
fn centroids_come_from_the_working_colors() {
    let colors = vec![
        Color::new(10, 10, 10),
        Color::new(20, 20, 20),
        Color::new(30, 30, 30),
        Color::new(200, 200, 200),
        Color::new(220, 220, 220),
        Color::new(10, 10, 10),
    ];
    let mut km = ImageKmeans::new(colors);
    let mut rng = RandomSource::from_seed(17);
    let r = km.with_fixed_k_number(3, InitMethod::KmeansPlusPlus, plain_config(), &mut rng)
        .unwrap();
    let wl = km.working_colors.as_ref().unwrap();
    let fallback = Color::new(0, 0, 0);
    for c in &r.clusters {
        assert!(*c == fallback || wl.iter().any(|e| e.0 == *c));
    }
}

#[test]
fn same_seed_gives_the_same_result() {
    let colors: Vec<Color> = (0u8..60).map(|i| Color::new(i, 255 - i, i / 2)).collect();
    let mut km1 = ImageKmeans::new(colors.clone());
    let mut km2 = ImageKmeans::new(colors);
    let mut rng1 = RandomSource::from_seed(99);
    let mut rng2 = RandomSource::from_seed(99);
    let r1 = km1.with_fixed_k_number(4, InitMethod::KmeansPlusPlus, plain_config(), &mut rng1)
        .unwrap();
    let r2 = km2.with_fixed_k_number(4, InitMethod::KmeansPlusPlus, plain_config(), &mut rng2)
        .unwrap();
    assert_eq!(r1.clusters, r2.clusters);
    assert_eq!(r1.wcss, r2.wcss);
}

fn knee_dataset() -> Vec<Color> {
    // three tight, well-separated clusters of one hundred pixels each
    let mut colors = Vec::new();
    for (base, jitter) in [(10u8, [0u8, 2, 4, 2]), (120, [0, 2, 4, 2]), (240, [0, 2, 4, 2])] {
        for i in 0..100 {
            let d = jitter[i % 4];
            colors.push(Color::new(base + d, base + d, base + d));
        }
    }
    colors
}

#[test]
fn derived_k_finds_the_knee_at_three() {
    let mut km = ImageKmeans::new(knee_dataset());
    let mut rng = RandomSource::from_seed(42);
    let r = km.with_derived_k_number(InitMethod::KmeansPlusPlus, plain_config(), &mut rng)
        .unwrap();
    assert_eq!(r.ks, 3);
}

#[test]
fn derived_k_runs_the_full_sweep() {
    let mut km = ImageKmeans::new(knee_dataset());
    let mut rng = RandomSource::from_seed(42);
    let r = km.with_derived_k_number(InitMethod::Random, plain_config(), &mut rng).unwrap();
    assert_eq!(km.results.len(), 10);
    for (i, run) in km.results.iter().enumerate() {
        assert_eq!(run.ks, i + 1);
        assert!(run.clusters.len() <= i + 1);
    }
    assert!(km.results.iter().any(|run| run.ks == r.ks && run.wcss == r.wcss));
}

#[test]
fn sweep_wcss_shrinks_from_one_to_many_clusters() {
    let mut km = ImageKmeans::new(knee_dataset());
    let mut rng = RandomSource::from_seed(7);
    km.with_derived_k_number(InitMethod::KmeansPlusPlus, plain_config(), &mut rng).unwrap();
    let first = km.results[0].wcss;
    let last = km.results[9].wcss;
    assert!(first > last);
}
