use mandy::colour::{encode, gradient, image, Rgb};
use mandy::sample::{area, intervals, point};
use palette::{Gradient, LinSrgb, Pixel};

fn escape(real: f64, imag: f64, max_iters: u16) -> u16 {
    point(
        (0.0, 0.0),
        |z: (f64, f64)| ((z.0 * z.0) - (z.1 * z.1) + real, (2.0 * z.0 * z.1) + imag),
        |z: (f64, f64)| ((z.0 * z.0) + (z.1 * z.1)) < 4.0,
        max_iters,
    )
}

fn blend(anchors: &[Rgb]) -> Gradient<LinSrgb> {
    Gradient::new(anchors.iter().map(|c| {
        LinSrgb::new(
            f32::from(c.red) / 255.0,
            f32::from(c.green) / 255.0,
            f32::from(c.blue) / 255.0,
        )
    }))
}

#[test]
fn region_around_the_set_is_deep_in_the_middle_and_shallow_at_the_corners() {
    let (real, imag, scale) = (-0.5f64, 0.0f64, 3.0f64);
    let res = [100usize, 100usize];
    let max_iters: u16 = 1000;
    let aspect_ratio = res[0] as f64 / res[1] as f64;
    let real_start = real - (scale * 0.5);
    let imag_start = imag - (scale / aspect_ratio * 0.5);
    let delta = scale / intervals(res[0]) as f64;
    let epsilon = delta / 1.0;
    let grid = area(res, 1, |xi: usize, yi: usize, i: u8, j: u8| {
        let imag = imag_start + (delta * yi as f64);
        let real = real_start + (delta * xi as f64);
        escape(real + (epsilon * f64::from(i)), imag + (epsilon * f64::from(j)), max_iters)
    })
    .unwrap();
    assert_eq!(grid.dim(), (100, 100));
    assert_eq!(grid.get(50, 50), Some(1000));
    assert_eq!(grid.get(49, 49), Some(1000));
    assert_eq!(grid.get(0, 0), Some(1));
    assert_eq!(grid.get(0, 99), Some(1));
    // The corners at real part 1 lie within the circle: they leave it with
    // their second step.
    assert_eq!(grid.get(99, 0), Some(2));
    assert_eq!(grid.get(99, 99), Some(2));

    let anchors = gradient(&["#000000", "#FFFFFF"]).unwrap();
    let cmap = blend(&anchors);
    let max_inv = 1.0 / f32::from(max_iters);
    let cols = image(&grid, |count: u16| {
        let u8s: [u8; 3] = cmap.get(f32::from(count) * max_inv).into_format().into_raw();
        Rgb { red: u8s[0], green: u8s[1], blue: u8s[2] }
    });
    // A count at the cap stands at the far end of the gradient, a count of
    // one a thousandth of the way along it.
    for c in 0..3 {
        assert_eq!(cols.get(50, 50, c), Some(255));
        assert_eq!(cols.get(0, 0, c), Some(0));
        assert!(cols.get(99, 99, c).unwrap() <= 1);
    }
    let img = encode(&cols);
    assert_eq!((img.width, img.height), (100, 100));
    assert_eq!(img.bytes.len(), 30000);
    let middle = (50 * 100 + 50) * 3;
    assert_eq!(&img.bytes[middle..middle + 3], &[255, 255, 255]);
    assert_eq!(&img.bytes[0..3], &[0, 0, 0]);
}

#[test]
fn gradient_of_one_anchor_colours_every_count_alike() {
    let anchors = gradient(&["#336699"]).unwrap();
    let cmap = blend(&anchors);
    let max_iters: u16 = 100;
    let max_inv = 1.0 / f32::from(max_iters);
    let grid = area([5, 4], 1, |x: usize, y: usize, _i: u8, _j: u8| (5 * x * y) as u16).unwrap();
    let cols = image(&grid, |count: u16| {
        let u8s: [u8; 3] = cmap.get(f32::from(count) * max_inv).into_format().into_raw();
        Rgb { red: u8s[0], green: u8s[1], blue: u8s[2] }
    });
    for x in 0..5 {
        for y in 0..4 {
            assert_eq!(cols.get(x, y, 0), Some(0x33));
            assert_eq!(cols.get(x, y, 1), Some(0x66));
            assert_eq!(cols.get(x, y, 2), Some(0x99));
        }
    }
}

#[test]
fn rectangular_region_keeps_its_axes() {
    let res = [6usize, 3usize];
    let max_iters: u16 = 40;
    let delta = 3.0 / intervals(res[0]) as f64;
    let grid = area(res, 2, |xi: usize, yi: usize, i: u8, j: u8| {
        let epsilon = delta / 2.0;
        escape(
            (-2.0 + delta * xi as f64) + epsilon * f64::from(i),
            (-0.75 + delta * yi as f64) + epsilon * f64::from(j),
            max_iters,
        )
    })
    .unwrap();
    assert_eq!(grid.dim(), (6, 3));
    let cols = image(&grid, |count: u16| Rgb { red: count as u8, green: 0, blue: 0 });
    let img = encode(&cols);
    assert_eq!((img.width, img.height), (6, 3));
    for x in 0..6 {
        for y in 0..3 {
            let count = grid.get(x, y).unwrap();
            assert!(count <= max_iters);
            assert_eq!(img.bytes[(y * 6 + x) * 3], count as u8);
        }
    }
}
