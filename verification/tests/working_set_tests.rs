use image_kmeans::color::Color;
use image_kmeans::engine::ImageKmeans;
use image_kmeans::rng::RandomSource;

fn count_of(km: &ImageKmeans, c: Color) -> usize {
    let tally = km.working_colors_counts.as_ref().expect("tally built");
    tally.iter().find(|e| e.0 == c).map(|e| e.1).unwrap_or(0)
}

#[test]
fn unit_factor_tally_is_exact_frequency() {
    let red = Color::new(200, 0, 0);
    let blue = Color::new(0, 0, 200);
    let green = Color::new(0, 200, 0);
    let colors = vec![red, blue, red, green, red, blue];
    let mut km = ImageKmeans::new(colors);
    km.set_working_colors(Some(1), None);
    assert_eq!(count_of(&km, red), 3);
    assert_eq!(count_of(&km, blue), 2);
    assert_eq!(count_of(&km, green), 1);
    assert_eq!(count_of(&km, Color::new(1, 1, 1)), 0);
    let tally = km.working_colors_counts.as_ref().unwrap();
    assert_eq!(tally.len(), 3);
}

#[test]
fn quantization_merges_nearby_colors() {
    let colors = vec![Color::new(10, 10, 10), Color::new(12, 12, 12), Color::new(200, 200, 200)];
    let mut km = ImageKmeans::new(colors);
    km.set_working_colors(Some(16), None);
    // 10 and 12 both quantize to 0, 200 quantizes to 192
    assert_eq!(count_of(&km, Color::new(0, 0, 0)), 2);
    assert_eq!(count_of(&km, Color::new(192, 192, 192)), 1);
}

#[test]
fn working_list_is_sorted_by_descending_count() {
    let a = Color::new(1, 1, 1);
    let b = Color::new(2, 2, 2);
    let c = Color::new(3, 3, 3);
    let colors = vec![a, b, b, c, c, c];
    let mut km = ImageKmeans::new(colors);
    km.set_working_colors(None, None);
    let wl = km.working_colors.as_ref().expect("working list built");
    assert_eq!(wl.len(), 3);
    assert_eq!(wl[0], (c, 3));
    assert_eq!(wl[1], (b, 2));
    assert_eq!(wl[2], (a, 1));
}

#[test]
fn top_num_keeps_the_most_frequent_colors() {
    let a = Color::new(1, 1, 1);
    let b = Color::new(2, 2, 2);
    let c = Color::new(3, 3, 3);
    let colors = vec![a, b, b, c, c, c];
    let mut km = ImageKmeans::new(colors);
    km.set_working_colors(None, Some(2));
    let wl = km.working_colors.as_ref().unwrap();
    assert_eq!(wl.len(), 2);
    assert_eq!(wl[0], (c, 3));
    assert_eq!(wl[1], (b, 2));
}

#[test]
fn uniform_seeding_gives_distinct_working_colors() {
    let colors = vec![
        Color::new(1, 1, 1),
        Color::new(2, 2, 2),
        Color::new(3, 3, 3),
        Color::new(4, 4, 4),
        Color::new(5, 5, 5),
    ];
    let mut km = ImageKmeans::new(colors.clone());
    km.set_working_colors(None, None);
    let mut rng = RandomSource::from_seed(7);
    km.use_random_ks(3, &mut rng);
    assert_eq!(km.initial_ks.len(), 3);
    for (i, s) in km.initial_ks.iter().enumerate() {
        assert!(colors.contains(s));
        for t in &km.initial_ks[i + 1..] {
            assert_ne!(s, t);
        }
    }
}

#[test]
fn uniform_seeding_caps_at_the_working_set() {
    let colors = vec![Color::new(1, 1, 1), Color::new(2, 2, 2)];
    let mut km = ImageKmeans::new(colors);
    km.set_working_colors(None, None);
    let mut rng = RandomSource::from_seed(7);
    km.use_random_ks(10, &mut rng);
    assert_eq!(km.initial_ks.len(), 2);
}

#[test]
fn greedy_seeding_gives_distinct_working_colors() {
    let colors = vec![
        Color::new(0, 0, 0),
        Color::new(10, 10, 10),
        Color::new(100, 100, 100),
        Color::new(200, 200, 200),
        Color::new(255, 255, 255),
    ];
    let mut km = ImageKmeans::new(colors.clone());
    km.set_working_colors(None, None);
    let mut rng = RandomSource::from_seed(21);
    km.use_kmeans_plus_plus(4, &mut rng);
    assert_eq!(km.initial_ks.len(), 4);
    for (i, s) in km.initial_ks.iter().enumerate() {
        assert!(colors.contains(s));
        for t in &km.initial_ks[i + 1..] {
            assert_ne!(s, t);
        }
    }
}

#[test]
fn greedy_seeding_exhausts_a_small_pool() {
    let colors = vec![Color::new(1, 1, 1), Color::new(200, 200, 200)];
    let mut km = ImageKmeans::new(colors);
    km.set_working_colors(None, None);
    let mut rng = RandomSource::from_seed(3);
    km.use_kmeans_plus_plus(9, &mut rng);
    assert_eq!(km.initial_ks.len(), 2);
}

#[test]
fn from_rgba_reads_one_color_per_four_bytes() {
    let data = vec![1, 2, 3, 255, 4, 5, 6, 0, 7, 8, 9];
    let km = ImageKmeans::from_rgba(&data);
    assert_eq!(km.colors.len(), 2);
    assert_eq!(km.colors[0], Color::new(1, 2, 3));
    assert_eq!(km.colors[1], Color::new(4, 5, 6));
}
