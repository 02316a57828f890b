use film_simulation_lut_learning::sampling::{
    bucket_id, compute_bucket, group_by_bucket, sample_bucket, stratified_sample,
};
use film_simulation_lut_learning::tone::{nearest_filled_bins, smoothing_window};
use rand::rngs::StdRng;
use rand::SeedableRng;

fn float_bucket(l8: u8, a8: u8, b8: u8) -> (usize, usize, usize) {
    let l = l8 as f32 * 100.0 / 255.0;
    let a = a8 as f32 - 128.0;
    let b = b8 as f32 - 128.0;
    let l_bin = ((l / 12.5).floor() as usize).min(7);
    let a_bin = (((a + 128.0) / 32.0).floor() as usize).min(7);
    let b_bin = (((b + 128.0) / 32.0).floor() as usize).min(7);
    (l_bin, a_bin, b_bin)
}

#[test]
fn buckets_match_real_valued_binning() {
    for v in 0..=255u8 {
        assert_eq!(compute_bucket(v, v, v), float_bucket(v, v, v), "{}", v);
        assert_eq!(compute_bucket(v, 255 - v, 0), float_bucket(v, 255 - v, 0), "{}", v);
    }
    assert_eq!(compute_bucket(255, 0, 255), (7, 0, 7));
    assert_eq!(bucket_id((7, 0, 7)), 455);
}

#[test]
fn grouping_keeps_pixel_order() {
    let ids = vec![3, 0, 3, 511, 3];
    let groups = group_by_bucket(&ids);
    assert_eq!(groups.len(), 512);
    assert_eq!(groups[3], vec![0, 2, 4]);
    assert_eq!(groups[0], vec![1]);
    assert_eq!(groups[511], vec![3]);
    assert!(groups[1].is_empty());
}

#[test]
fn small_buckets_are_kept_whole() {
    let mut rng = StdRng::seed_from_u64(42);
    let pixels: Vec<u32> = (0..200).collect();
    assert_eq!(sample_bucket(pixels.clone(), &mut rng), pixels);
}

#[test]
fn large_buckets_are_cut_to_a_random_two_hundred() {
    let mut rng = StdRng::seed_from_u64(42);
    let pixels: Vec<u32> = (0..1000).collect();
    let kept = sample_bucket(pixels.clone(), &mut rng);
    assert_eq!(kept.len(), 200);
    let mut sorted = kept.clone();
    sorted.sort();
    sorted.dedup();
    assert_eq!(sorted.len(), 200);
    assert!(sorted.iter().all(|p| *p < 1000));
    // the shuffle moved elements
    assert_ne!(kept, (0..200).collect::<Vec<u32>>());
}

#[test]
fn stratified_sample_caps_each_bucket() {
    let mut rng = StdRng::seed_from_u64(42);
    let mut ids = vec![7usize; 450];
    ids.extend(vec![9usize; 30]);
    let samples = stratified_sample(group_by_bucket(&ids), &mut rng);
    assert_eq!(samples.len(), 512);
    assert_eq!(samples[7].len(), 200);
    assert!(samples[7].iter().all(|i| ids[*i] == 7));
    assert_eq!(samples[9], (450..480).collect::<Vec<usize>>());
    assert!(samples[0].is_empty());
}

#[test]
fn nearest_filled_bins_on_both_sides() {
    let counts = vec![0, 3, 0, 0, 5, 0];
    assert_eq!(nearest_filled_bins(&counts, 2), (Some(1), Some(4)));
    assert_eq!(nearest_filled_bins(&counts, 0), (None, Some(1)));
    assert_eq!(nearest_filled_bins(&counts, 5), (Some(4), None));
    assert_eq!(nearest_filled_bins(&vec![0, 0, 0], 1), (None, None));
}

#[test]
fn smoothing_windows_are_cut_at_the_ends() {
    assert_eq!(smoothing_window(0, 256, 5), (0, 3));
    assert_eq!(smoothing_window(1, 256, 5), (0, 4));
    assert_eq!(smoothing_window(100, 256, 5), (98, 103));
    assert_eq!(smoothing_window(255, 256, 5), (253, 256));
}
