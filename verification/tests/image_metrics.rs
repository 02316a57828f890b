use film_simulation_lut_learning::image::BasedImage;
use film_simulation_lut_learning::metrics::{
    channel_error_sums, create_custom_colormap, delta_e_squared_map, error_band,
    error_distribution, kth_smallest, l_diff_bin, l_difference_histogram, max_entry,
    squared_error_sum,
};

fn img(w: usize, h: usize, data: Vec<u8>) -> BasedImage {
    BasedImage { w, h, data }
}

#[test]
fn squared_error_sum_of_two_pixels() {
    let a = img(2, 1, vec![10, 20, 30, 0, 0, 255]);
    let b = img(2, 1, vec![13, 16, 30, 255, 0, 0]);
    assert_eq!(squared_error_sum(&a, &b), 9 + 16 + 0 + 65025 + 0 + 65025);
    assert_eq!(squared_error_sum(&a, &a), 0);
}

#[test]
fn channel_errors_signed_and_absolute() {
    let reference = img(2, 1, vec![10, 20, 30, 40, 50, 60]);
    let out = img(2, 1, vec![12, 15, 30, 38, 55, 61]);
    let e = channel_error_sums(&reference, &out);
    assert_eq!(e.signed, [0, 0, 1]);
    assert_eq!(e.abs, [4, 10, 1]);
}

#[test]
fn delta_e_map_and_bands() {
    // a* differences of 0, 1, 3 and 5 units: ΔE 0, 1, 3, 5
    let lab1 = img(4, 1, vec![100, 128, 128, 100, 128, 128, 100, 128, 128, 100, 128, 128]);
    let lab2 = img(4, 1, vec![100, 128, 128, 100, 129, 128, 100, 131, 128, 100, 133, 128]);
    let map = delta_e_squared_map(&lab1, &lab2);
    assert_eq!(map, vec![0, 65025, 9 * 65025, 25 * 65025]);
    assert_eq!(error_band(0), 0);
    assert_eq!(error_band(65024), 0);
    assert_eq!(error_band(65025), 1);
    assert_eq!(error_band(4 * 65025 - 1), 1);
    assert_eq!(error_band(4 * 65025), 2);
    assert_eq!(error_band(25 * 65025 - 1), 2);
    assert_eq!(error_band(25 * 65025), 3);
    let counts = error_distribution(&map);
    assert_eq!(counts, [1, 1, 1, 1]);
    assert_eq!(counts.iter().sum::<usize>(), map.len());
    let colored = create_custom_colormap(&map, 2, 2);
    assert_eq!(colored.w, 2);
    assert_eq!(colored.h, 2);
    assert_eq!(
        colored.data,
        vec![255, 100, 0, 100, 255, 0, 0, 255, 255, 50, 50, 255]
    );
}

#[test]
fn delta_e_uses_lightness_on_its_hundred_scale() {
    // white against black in OpenCV's 8-bit Lab: L 100 against 0, ΔE 100
    let white = img(1, 1, vec![255, 128, 128]);
    let black = img(1, 1, vec![0, 128, 128]);
    let map = delta_e_squared_map(&white, &black);
    assert_eq!(map, vec![100 * 100 * 65025]);
    assert_eq!(((map[0] as f64) / 65025.0).sqrt(), 100.0);
    // one 8-bit lightness step is 100/255 of an L* unit
    let a = img(1, 1, vec![10, 128, 128]);
    let b = img(1, 1, vec![11, 128, 128]);
    assert_eq!(delta_e_squared_map(&a, &b), vec![10000]);
}

#[test]
fn colormap_colours_match_distribution() {
    let lab1 = img(3, 2, vec![0; 18]);
    let lab2 = img(3, 2, vec![0, 0, 0, 0, 2, 0, 0, 0, 7, 255, 0, 0, 0, 1, 1, 3, 0, 0]);
    let map = delta_e_squared_map(&lab1, &lab2);
    let counts = error_distribution(&map);
    let colored = create_custom_colormap(&map, 3, 2);
    let colours = [[255u8, 100, 0], [100, 255, 0], [0, 255, 255], [50, 50, 255]];
    for k in 0..4 {
        let n = colored.data.chunks(3).filter(|p| *p == colours[k]).count();
        assert_eq!(n, counts[k], "band {}", k);
    }
}

#[test]
fn band_thresholds_match_square_roots() {
    for d2 in (0u64..30 * 65025).step_by(97).chain([65024, 65025, 260099, 260100, 1625624, 1625625]) {
        let de = (d2 as f64 / 65025.0).sqrt();
        let expected = if de < 1.0 {
            0
        } else if de < 2.0 {
            1
        } else if de < 5.0 {
            2
        } else {
            3
        };
        assert_eq!(error_band(d2), expected, "{}", d2);
    }
}

#[test]
fn l_bins_match_float_rounding() {
    for e in -255i32..=255 {
        let expected = ((e as f64 / 255.0 * 100.0).round() as i32 + 25).clamp(0, 50) as usize;
        assert_eq!(l_diff_bin(e), expected, "{}", e);
    }
}

#[test]
fn l_difference_histogram_counts() {
    let reference = img(3, 1, vec![100, 0, 0, 100, 0, 0, 0, 0, 0]);
    let out = img(3, 1, vec![100, 9, 9, 103, 0, 0, 255, 0, 0]);
    let hist = l_difference_histogram(&reference, &out);
    assert_eq!(hist.len(), 51);
    assert_eq!(hist[25], 1);
    assert_eq!(hist[26], 1); // +3 on the 8-bit scale is about +1.18 L*
    assert_eq!(hist[50], 1);
    assert_eq!(hist.iter().sum::<u64>(), 3);
}

#[test]
fn order_statistics_of_squared_maps() {
    let map = vec![9u64, 0, 25, 4, 4, 100, 1];
    let mut sorted = map.clone();
    sorted.sort();
    for k in 0..map.len() {
        assert_eq!(kth_smallest(&map, k), sorted[k]);
    }
    assert_eq!(kth_smallest(&map, map.len() / 2), 4);
    assert_eq!(max_entry(&map), 100);
    assert_eq!(max_entry(&vec![]), 0);
    assert_eq!(kth_smallest(&vec![u64::MAX, 3], 1), u64::MAX);
}

#[test]
fn median_of_square_roots_is_root_of_median() {
    let map: Vec<u64> = (0..101u64).map(|i| (i * 7919 * 65025) % 9106751250).collect();
    let mut roots: Vec<f64> = map.iter().map(|d| (*d as f64 / 65025.0).sqrt()).collect();
    roots.sort_by(|a, b| a.partial_cmp(b).unwrap());
    let median = (kth_smallest(&map, map.len() / 2) as f64 / 65025.0).sqrt();
    assert_eq!(median, roots[roots.len() / 2]);
}
