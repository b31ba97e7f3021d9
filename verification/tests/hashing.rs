use flocking::cells::hash_function;

fn whole_units(position: f32) -> i64 {
    position.floor() as i64
}

#[test]
fn position_in_first_cell_hashes_to_zero() {
    assert_eq!(hash_function(whole_units(25.0), whole_units(25.0), 50, 12, 12), 0);
}

#[test]
fn position_in_last_cell_hashes_to_last_index() {
    assert_eq!(hash_function(whole_units(599.0), whole_units(599.0), 50, 12, 12), 143);
    assert_eq!(11 + 11 * 12, 143);
}

#[test]
fn hash_is_column_plus_row_times_width() {
    assert_eq!(hash_function(120, 0, 50, 12, 12), 2);
    assert_eq!(hash_function(0, 120, 50, 12, 12), 24);
    assert_eq!(hash_function(175, 325, 50, 12, 12), 3 + 6 * 12);
    assert_eq!(hash_function(175, 325, 50, 7, 9), 3 + 6 * 7);
}

#[test]
fn cell_borders_belong_to_the_upper_cell() {
    assert_eq!(hash_function(49, 49, 50, 12, 12), 0);
    assert_eq!(hash_function(50, 49, 50, 12, 12), 1);
    assert_eq!(hash_function(49, 50, 50, 12, 12), 12);
    assert_eq!(hash_function(50, 50, 50, 12, 12), 13);
}

#[test]
fn positions_below_the_grid_are_clamped_to_the_first_cells() {
    assert_eq!(hash_function(-1, -1, 50, 12, 12), 0);
    assert_eq!(hash_function(-1, 75, 50, 12, 12), 12);
    assert_eq!(hash_function(75, -1000, 50, 12, 12), 1);
    assert_eq!(hash_function(i64::MIN, i64::MIN, 50, 12, 12), 0);
}

#[test]
fn positions_beyond_the_grid_are_clamped_to_the_last_cells() {
    assert_eq!(hash_function(600, 600, 50, 12, 12), 143);
    assert_eq!(hash_function(10_000, 25, 50, 12, 12), 11);
    assert_eq!(hash_function(25, 10_000, 50, 12, 12), 11 * 12);
    assert_eq!(hash_function(i64::MAX, i64::MAX, 50, 12, 12), 143);
    assert_eq!(hash_function(i64::MAX, i64::MAX, 1, 12, 12), 143);
}

#[test]
fn degenerate_cell_size_hashes_to_zero() {
    assert_eq!(hash_function(599, 599, 0, 12, 12), 0);
    assert_eq!(hash_function(599, 599, -50, 12, 12), 0);
    assert_eq!(hash_function(-7, 3, i64::MIN, 12, 12), 0);
}

#[test]
fn hash_stays_in_range_over_the_whole_ground() {
    let mut x = 0;
    while x <= 600 {
        let mut z = 0;
        while z <= 600 {
            assert!(hash_function(x, z, 50, 12, 12) < 12 * 12);
            z += 7;
        }
        x += 7;
    }
}

#[test]
fn hash_on_a_single_cell_grid_is_zero() {
    assert_eq!(hash_function(-5, 5, 10, 1, 1), 0);
    assert_eq!(hash_function(500, 500, 10, 1, 1), 0);
}

#[test]
fn hash_of_fractional_positions_goes_by_whole_units() {
    assert_eq!(hash_function(whole_units(49.99), whole_units(0.5), 50, 12, 12), 0);
    assert_eq!(hash_function(whole_units(50.01), whole_units(0.5), 50, 12, 12), 1);
    assert_eq!(hash_function(whole_units(-0.5), whole_units(-0.5), 50, 12, 12), 0);
}
