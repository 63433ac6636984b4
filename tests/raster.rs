use bifur::{map_indices, render_columns, render_grid, transpose_image, Rgb, RgbImage};

fn px(v: u8) -> Rgb {
    Rgb { r: v, g: v.wrapping_add(1), b: v.wrapping_add(2) }
}

fn sample_image(width: usize, height: usize) -> RgbImage {
    let pixels: Vec<Rgb> = (0..width * height).map(|i| px(i as u8)).collect();
    RgbImage::from_pixels(width, height, pixels).unwrap()
}

#[test]
fn new_image_is_black() {
    let img = RgbImage::new(3, 2);
    assert_eq!(img.width(), 3);
    assert_eq!(img.height(), 2);
    assert_eq!(img.pixels(), &vec![Rgb::black(); 6]);
}

#[test]
fn from_pixels_checks_the_size() {
    assert!(RgbImage::from_pixels(2, 3, vec![Rgb::black(); 5]).is_none());
    assert!(RgbImage::from_pixels(2, 3, vec![Rgb::black(); 7]).is_none());
    assert!(RgbImage::from_pixels(2, 3, vec![Rgb::black(); 6]).is_some());
    assert!(RgbImage::from_pixels(0, 3, vec![]).is_some());
    assert!(RgbImage::from_pixels(0, 3, vec![Rgb::black()]).is_none());
}

#[test]
fn transpose_swaps_rows_and_columns() {
    let img = sample_image(3, 2);
    let t = transpose_image(&img);
    assert_eq!(t.width(), 2);
    assert_eq!(t.height(), 3);
    for x in 0..2 {
        for y in 0..3 {
            assert_eq!(t.get_pixel(x, y), img.get_pixel(y, x));
        }
    }
    assert_eq!(t.pixels(), &vec![px(0), px(3), px(1), px(4), px(2), px(5)]);
}

#[test]
fn transpose_twice_is_identity() {
    for (w, h) in [(1, 1), (3, 2), (2, 5), (4, 4), (0, 3)] {
        let img = sample_image(w, h);
        let back = transpose_image(&transpose_image(&img));
        assert_eq!(back, img);
    }
}

#[test]
fn parallel_map_matches_sequential_map() {
    let f = |i: usize| (i * i) as u64 ^ 0x5a;
    let par = map_indices(1000, f, true);
    let seq = map_indices(1000, f, false);
    assert_eq!(par, seq);
    assert_eq!(par.len(), 1000);
    assert_eq!(par[0], 0x5a);
    assert_eq!(par[7], 49 ^ 0x5a);
}

#[test]
fn parallel_map_of_nothing_is_empty() {
    let v: Vec<u8> = map_indices(0, |i: usize| i as u8, true);
    assert!(v.is_empty());
}

#[test]
fn render_grid_places_each_pixel_once() {
    let pixel = |y: usize, x: usize| Rgb { r: y as u8, g: x as u8, b: (x * y) as u8 };
    let par = render_grid(5, 3, pixel, true);
    let seq = render_grid(5, 3, pixel, false);
    assert_eq!(par, seq);
    assert_eq!(par.width(), 5);
    assert_eq!(par.height(), 3);
    assert_eq!(par.get_pixel(4, 2), Rgb { r: 2, g: 4, b: 8 });
    assert_eq!(par.pixels()[7], Rgb { r: 1, g: 2, b: 2 });
}

#[test]
fn render_columns_lays_columns_out_vertically() {
    let column = |x: usize| vec![Rgb::gray(x as u8), Rgb::gray(10 + x as u8)];
    let par = render_columns(3, 2, column, true);
    let seq = render_columns(3, 2, column, false);
    assert_eq!(par, seq);
    assert_eq!(par.width(), 3);
    assert_eq!(par.height(), 2);
    assert_eq!(
        par.pixels(),
        &vec![Rgb::gray(0), Rgb::gray(1), Rgb::gray(2), Rgb::gray(10), Rgb::gray(11), Rgb::gray(12)]
    );
}
