use psicode_sim::image::Image;

/// Bilinear sample. The blend is floating point and stands here; what is put
/// to the test are the four pixels that the image hands out.
fn sample(img: &Image<[f32; 3]>, x: f64, y: f64) -> [f32; 3] {
    let xf = x.clamp(0.0, (img.w - 1) as f64);
    let yf = y.clamp(0.0, (img.h - 1) as f64);
    let (x0, y0) = (xf.floor() as usize, yf.floor() as usize);
    let (tx, ty) = ((xf - x0 as f64) as f32, (yf - y0 as f64) as f32);
    let (p00, p10, p01, p11) = img.corners(x0, y0);
    let mut out = [0.0f32; 3];
    for c in 0..3 {
        let top = p00[c] + (p10[c] - p00[c]) * tx;
        let bot = p01[c] + (p11[c] - p01[c]) * tx;
        out[c] = top + (bot - top) * ty;
    }
    out
}

#[test]
fn sample_hits_pixel_centers_exactly() {
    let mut img: Image<[f32; 3]> = Image::new(2, 2);
    img.set(0, 0, [0.1, 0.0, 0.0]);
    img.set(1, 0, [0.2, 0.0, 0.0]);
    img.set(0, 1, [0.3, 0.0, 0.0]);
    img.set(1, 1, [0.4, 0.0, 0.0]);
    assert!((sample(&img, 0.0, 0.0)[0] - 0.1).abs() < 1e-6);
    assert!((sample(&img, 1.0, 0.0)[0] - 0.2).abs() < 1e-6);
    assert!((sample(&img, 1.0, 1.0)[0] - 0.4).abs() < 1e-6);
    assert!((sample(&img, 0.5, 0.5)[0] - 0.25).abs() < 1e-6);
}

#[test]
fn sample_clamps_to_edge() {
    let mut img: Image<[f32; 3]> = Image::new(2, 2);
    img.set(0, 0, [0.5, 0.0, 0.0]);
    img.set(1, 0, [0.9, 0.0, 0.0]);
    assert!((sample(&img, -10.0, 0.0)[0] - 0.5).abs() < 1e-6);
    assert!((sample(&img, 100.0, 0.0)[0] - 0.9).abs() < 1e-6);
}

#[test]
fn pixels_lie_row_by_row() {
    let img = Image::from_fn(3, 2, |x, y| 10 * y + x);
    assert_eq!(img.data, vec![0, 1, 2, 10, 11, 12]);
    assert_eq!(img.at(2, 1), 12);
    assert_eq!(img.corners(2, 1), (12, 12, 12, 12));
    assert_eq!(img.corners(0, 0), (0, 1, 10, 11));
}

#[test]
fn cutting_and_inflating() {
    let img = Image::from_fn(4, 3, |x, y| 10 * y + x);
    assert_eq!(img.crop(1, 1, 2, 2).data, vec![11, 12, 21, 22]);
    assert!(img.crop(4, 3, 0, 0).data.is_empty());
    let small = Image::from_fn(2, 1, |x, _| x + 1);
    let big = small.inflate(2, 1, 0);
    assert_eq!((big.w, big.h), (8, 6));
    assert_eq!(big.data[2 * 8..3 * 8].to_vec(), vec![0, 0, 1, 1, 2, 2, 0, 0]);
    assert_eq!(big.data[1 * 8..2 * 8].to_vec(), vec![0; 8]);
}

#[test]
fn pasting_clips_at_the_edge() {
    let mut img = Image::filled(3, 3, 0);
    let patch = Image::from_fn(2, 2, |x, y| 1 + 2 * y + x);
    img.paste(&patch, 2, 2);
    assert_eq!(img.data, vec![0, 0, 0, 0, 0, 0, 0, 0, 1]);
    img.paste(&patch, 0, 1);
    assert_eq!(img.data, vec![0, 0, 0, 1, 2, 0, 3, 4, 1]);
    img.paste(&patch, 7, 0);
    assert_eq!(img.data, vec![0, 0, 0, 1, 2, 0, 3, 4, 1]);
    // What was cut out goes back without a trace.
    let cut = img.crop(1, 1, 2, 2);
    let before = img.data.clone();
    img.paste(&cut, 1, 1);
    assert_eq!(img.data, before);
}
