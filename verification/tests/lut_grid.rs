use film_simulation_lut_learning::lut_index::{get_lut_coords, get_lut_index, LUT_SIZE, LUT_TOTAL};
use film_simulation_lut_learning::residual_fill::{cell_counts, count_occupied, fill_empty_cells};

fn empty_counts() -> Vec<Vec<Vec<u32>>> {
    vec![vec![vec![0u32; LUT_SIZE]; LUT_SIZE]; LUT_SIZE]
}

#[test]
fn lut_index_worked_example() {
    // (r, g, b) = (7, 10, 6) -> 6·17² + 10·17 + 7
    assert_eq!(get_lut_index(7, 10, 6), 1911);
    assert_eq!(get_lut_coords(1911), (7, 10, 6));
}

#[test]
fn lut_index_corners() {
    assert_eq!(get_lut_index(0, 0, 0), 0);
    assert_eq!(get_lut_index(1, 0, 0), 1);
    assert_eq!(get_lut_index(0, 1, 0), 17);
    assert_eq!(get_lut_index(0, 0, 1), 289);
    assert_eq!(get_lut_index(16, 16, 16), LUT_TOTAL - 1);
}

#[test]
fn lut_index_round_trips_over_grid() {
    for b in 0..LUT_SIZE {
        for g in 0..LUT_SIZE {
            for r in 0..LUT_SIZE {
                assert_eq!(get_lut_coords(get_lut_index(r, g, b)), (r, g, b));
            }
        }
    }
    for idx in 0..LUT_TOTAL {
        let (r, g, b) = get_lut_coords(idx);
        assert_eq!(get_lut_index(r, g, b), idx);
    }
}

#[test]
fn cell_counts_and_occupancy() {
    let cells = vec![(0, 0, 0), (0, 0, 0), (3, 4, 5), (16, 16, 16)];
    let count = cell_counts(&cells);
    assert_eq!(count[0][0][0], 2);
    assert_eq!(count[3][4][5], 1);
    assert_eq!(count[16][16][16], 1);
    assert_eq!(count[5][4][3], 0);
    assert_eq!(count_occupied(&count), 3);
    assert_eq!(count_occupied(&empty_counts()), 0);
}

#[test]
fn fill_copies_nearest_occupied_cell() {
    let mut count = empty_counts();
    count[0][0][0] = 1;
    count[10][10][10] = 4;
    let mut lut = vec![[0.0f32; 3]; LUT_TOTAL];
    lut[get_lut_index(0, 0, 0)] = [1.0, 2.0, 3.0];
    lut[get_lut_index(10, 10, 10)] = [-1.0, -2.0, -3.0];
    fill_empty_cells(&mut lut, &count, [0.0f32; 3]);
    // occupied cells keep their values
    assert_eq!(lut[get_lut_index(0, 0, 0)], [1.0, 2.0, 3.0]);
    assert_eq!(lut[get_lut_index(10, 10, 10)], [-1.0, -2.0, -3.0]);
    // near the origin
    assert_eq!(lut[get_lut_index(2, 1, 0)], [1.0, 2.0, 3.0]);
    // near the far cell
    assert_eq!(lut[get_lut_index(16, 16, 16)], [-1.0, -2.0, -3.0]);
    assert_eq!(lut[get_lut_index(9, 11, 10)], [-1.0, -2.0, -3.0]);
}

#[test]
fn fill_tie_goes_to_first_cell_in_red_major_scan() {
    let mut count = empty_counts();
    // (0, 0, 2) and (2, 0, 0) are both at distance 2 from (1, 0, 1);
    // the red-major scan meets (0, 0, 2) first.
    count[0][0][2] = 1;
    count[2][0][0] = 1;
    let mut lut = vec![0u8; LUT_TOTAL];
    lut[get_lut_index(0, 0, 2)] = 7;
    lut[get_lut_index(2, 0, 0)] = 9;
    fill_empty_cells(&mut lut, &count, 0u8);
    assert_eq!(lut[get_lut_index(1, 0, 1)], 7);
    assert_eq!(lut[get_lut_index(2, 0, 1)], 9);
}

#[test]
fn fill_without_any_occupied_cell_uses_empty_value() {
    let count = empty_counts();
    let mut lut = vec![5i32; LUT_TOTAL];
    fill_empty_cells(&mut lut, &count, -1);
    assert!(lut.iter().all(|v| *v == -1));
}

#[test]
fn fill_leaves_cells_past_the_grid_alone() {
    let mut count = empty_counts();
    count[1][1][1] = 2;
    let mut lut = vec![0u32; LUT_TOTAL + 5];
    lut[get_lut_index(1, 1, 1)] = 3;
    for i in LUT_TOTAL..LUT_TOTAL + 5 {
        lut[i] = 100 + i as u32;
    }
    fill_empty_cells(&mut lut, &count, 0);
    assert_eq!(lut.len(), LUT_TOTAL + 5);
    assert!(lut[..LUT_TOTAL].iter().all(|v| *v == 3));
    for i in LUT_TOTAL..LUT_TOTAL + 5 {
        assert_eq!(lut[i], 100 + i as u32);
    }
}
