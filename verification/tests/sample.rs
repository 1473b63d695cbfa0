use mandy::sample::{area, intervals, point, super_sample, SampleError};

fn escape(real: f64, imag: f64, max_iters: u16) -> u16 {
    point(
        (0.0, 0.0),
        |z: (f64, f64)| ((z.0 * z.0) - (z.1 * z.1) + real, (2.0 * z.0 * z.1) + imag),
        |z: (f64, f64)| ((z.0 * z.0) + (z.1 * z.1)) < 4.0,
        max_iters,
    )
}

#[test]
fn point_counts_steps_until_the_test_fails() {
    let count = point(0u32, |z: u32| z + 1, |z: u32| z < 7, 100);
    assert_eq!(count, 7);
}

#[test]
fn point_stops_at_the_cap() {
    let count = point(0u32, |z: u32| z + 1, |z: u32| z < 7, 5);
    assert_eq!(count, 5);
    assert_eq!(point(0u32, |z: u32| z + 1, |z: u32| z < 7, 7), 7);
    assert_eq!(point(0u32, |z: u32| z + 1, |z: u32| z < 7, 0), 0);
}

#[test]
fn point_starting_outside_takes_no_step() {
    assert_eq!(point(9u32, |z: u32| z + 1, |z: u32| z < 7, 100), 0);
}

#[test]
fn origin_never_escapes() {
    assert_eq!(escape(0.0, 0.0, 0), 0);
    assert_eq!(escape(0.0, 0.0, 1), 1);
    assert_eq!(escape(0.0, 0.0, 1000), 1000);
    assert_eq!(escape(0.0, 0.0, u16::MAX), u16::MAX);
}

#[test]
fn far_point_escapes_with_its_first_step() {
    assert_eq!(escape(3.0, 0.0, 1000), 1);
    assert_eq!(escape(3.0, 0.0, 1), 1);
    assert_eq!(escape(3.0, 0.0, 0), 0);
    assert_eq!(escape(-2.0, -1.5, 1000), 1);
}

#[test]
fn point_inside_the_set_reaches_the_cap() {
    assert_eq!(escape(-0.5, 0.0, 1000), 1000);
}

#[test]
fn escape_counts_of_known_points() {
    // 1 -> 2: the orbit of c = 1 is 0, 1, 2, and |2|^2 is not below 4.
    assert_eq!(escape(1.0, 0.0, 1000), 2);
    // The orbit of c = 0.5 is 0, 0.5, 0.75, 1.0625, 1.62890625, 3.1533...
    assert_eq!(escape(0.5, 0.0, 1000), 5);
    // -2 stays on the circle of radius 2 after its first step.
    assert_eq!(escape(-2.0, 0.0, 1000), 1);
}

#[test]
fn raising_the_cap_never_lowers_the_count() {
    assert_eq!(escape(0.5, 0.0, 3), 3);
    assert_eq!(escape(0.5, 0.0, 5), 5);
    assert_eq!(escape(0.5, 0.0, 6), 5);
    assert_eq!(escape(0.5, 0.0, 60000), 5);
    assert_eq!(escape(-0.5, 0.0, 10), 10);
    assert_eq!(escape(-0.5, 0.0, 20), 20);
}

#[test]
fn super_sample_averages_and_drops_the_fraction() {
    let count_at = |_x: usize, _y: usize, i: u8, j: u8| 1 + u16::from(i) + 2 * u16::from(j);
    // samples 1, 2, 3, 4: the sum is 10, a quarter of it 2.5
    assert_eq!(super_sample(0, 0, 2, &count_at), 2);
}

#[test]
fn super_sample_asks_for_every_offset_once() {
    let count_at = |x: usize, y: usize, i: u8, j: u8| {
        assert_eq!((x, y), (5, 6));
        assert!(i < 3 && j < 3);
        // 9 times the mean of i + 3 j over the sub-grid is 0 + 1 + ... + 8
        9 * (u16::from(i) + 3 * u16::from(j))
    };
    assert_eq!(super_sample(5, 6, 3, &count_at), 36);
}

#[test]
fn super_sample_of_one_is_the_sample_at_the_corner() {
    let count_at = |x: usize, y: usize, i: u8, j: u8| {
        assert_eq!((i, j), (0, 0));
        (100 * x + y) as u16
    };
    assert_eq!(super_sample(3, 4, 1, &count_at), 304);
    let direct = escape(0.5, 0.0, 1000);
    let sampled = super_sample(0, 0, 1, &|_x: usize, _y: usize, i: u8, j: u8| {
        escape(0.5 + 0.25 * f64::from(i), 0.0 + 0.25 * f64::from(j), 1000)
    });
    assert_eq!(sampled, direct);
}

#[test]
fn super_sample_holds_the_largest_sum() {
    let count_at = |_x: usize, _y: usize, _i: u8, _j: u8| u16::MAX;
    assert_eq!(super_sample(0, 0, 255, &count_at), u16::MAX);
    assert_eq!(super_sample(0, 0, 16, &count_at), u16::MAX);
}

#[test]
fn area_stores_each_pixel_at_its_own_place() {
    let count_at = |x: usize, y: usize, _i: u8, _j: u8| (x + 10 * y) as u16;
    let grid = area([3, 2], 1, count_at).unwrap();
    assert_eq!(grid.dim(), (3, 2));
    for x in 0..3 {
        for y in 0..2 {
            assert_eq!(grid.get(x, y), Some((x + 10 * y) as u16));
        }
    }
}

#[test]
fn grid_has_no_cell_outside_its_shape() {
    let grid = area([3, 2], 1, |_x: usize, _y: usize, _i: u8, _j: u8| 1u16).unwrap();
    assert_eq!(grid.get(3, 0), None);
    assert_eq!(grid.get(0, 2), None);
    assert_eq!(grid.get(2, 1), Some(1));
}

#[test]
fn area_reduces_the_sub_samples_of_each_pixel() {
    let count_at = |x: usize, _y: usize, i: u8, j: u8| (10 * x) as u16 + u16::from(i + j);
    let grid = area([2, 1], 2, count_at).unwrap();
    // offsets sum to 0, 1, 1, 2: a mean of 1
    assert_eq!(grid.get(0, 0), Some(1));
    assert_eq!(grid.get(1, 0), Some(11));
}

#[test]
fn area_keeps_counts_below_the_cap() {
    let cap: u16 = 50;
    let grid = area([20, 10], 3, |x: usize, y: usize, i: u8, j: u8| {
        escape(
            -2.0 + 0.15 * x as f64 + 0.05 * f64::from(i),
            -1.0 + 0.2 * y as f64 + 0.05 * f64::from(j),
            cap,
        )
    })
    .unwrap();
    assert_eq!(grid.dim(), (20, 10));
    for x in 0..20 {
        for y in 0..10 {
            assert!(grid.get(x, y).unwrap() <= cap);
        }
    }
}

#[test]
fn area_refuses_an_empty_resolution() {
    let count_at = |_x: usize, _y: usize, _i: u8, _j: u8| 0u16;
    assert!(matches!(area([0, 4], 1, count_at), Err(SampleError::EmptyResolution)));
    assert!(matches!(area([4, 0], 1, count_at), Err(SampleError::EmptyResolution)));
    assert!(matches!(area([0, 0], 1, count_at), Err(SampleError::EmptyResolution)));
}

#[test]
fn intervals_is_one_less_than_the_width_and_at_least_one() {
    assert_eq!(intervals(0), 1);
    assert_eq!(intervals(1), 1);
    assert_eq!(intervals(2), 1);
    assert_eq!(intervals(3), 2);
    assert_eq!(intervals(100), 99);
    assert_eq!(intervals(1920), 1919);
}
