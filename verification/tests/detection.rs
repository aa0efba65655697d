use pixel_scale::{get_pixel_scale, get_pixel_scale_from_bytes, ImageData, RgbaComponents};

/// Builds a width×height RGBA byte buffer where the pixel at (x, y) takes
/// the color that `color_at` returns as (r, g, b, a).
fn image_bytes(width: u32, height: u32, color_at: impl Fn(u32, u32) -> [u8; 4]) -> Vec<u8> {
    let mut bytes = Vec::new();
    for y in 0..height {
        for x in 0..width {
            bytes.extend_from_slice(&color_at(x, y));
        }
    }
    bytes
}

fn solid_bytes(width: u32, height: u32, color: [u8; 4]) -> Vec<u8> {
    image_bytes(width, height, |_, _| color)
}

/// Distinct solid colors per block of the given block size, so that no
/// larger candidate can match.
fn blocky_bytes(width: u32, height: u32, block: u32) -> Vec<u8> {
    image_bytes(width, height, |x, y| {
        let bx = x / block;
        let by = y / block;
        let shade = ((bx + by) % 2 * 190 + 10) as u8;
        [shade, shade, shade, 255]
    })
}

#[test]
fn tiled_solid_block_detects_scale() {
    // A 3×3 solid tile across a 2×3 grid of tiles: 6×9 image, scale 3.
    let bytes = solid_bytes(6, 9, [40, 80, 120, 255]);
    assert_eq!(get_pixel_scale_from_bytes(&bytes, 6, 9, 0), 3);
    // A solid image detects the full GCD of its dimensions.
    let bytes = solid_bytes(8, 12, [0, 0, 0, 0]);
    assert_eq!(get_pixel_scale_from_bytes(&bytes, 8, 12, 0), 4);
}

#[test]
fn distinct_blocks_detect_their_size() {
    // 4×6 image of distinct 2×2 blocks: only the scale 2 grid is uniform.
    let bytes = blocky_bytes(4, 6, 2);
    assert_eq!(get_pixel_scale_from_bytes(&bytes, 4, 6, 0), 2);
    // 9×6 image of 3×3 blocks.
    let bytes = blocky_bytes(9, 6, 3);
    assert_eq!(get_pixel_scale_from_bytes(&bytes, 9, 6, 0), 3);
}

#[test]
fn coprime_dimensions_yield_zero() {
    let bytes = solid_bytes(101, 103, [7, 7, 7, 7]);
    assert_eq!(get_pixel_scale_from_bytes(&bytes, 101, 103, 0), 0);
}

#[test]
fn degenerate_dimension_yields_zero() {
    let bytes = solid_bytes(1, 8, [1, 2, 3, 4]);
    assert_eq!(get_pixel_scale_from_bytes(&bytes, 1, 8, 0), 0);
    let bytes = solid_bytes(8, 1, [1, 2, 3, 4]);
    assert_eq!(get_pixel_scale_from_bytes(&bytes, 8, 1, 0), 0);
}

#[test]
fn detection_is_idempotent() {
    let samples = [
        (solid_bytes(6, 9, [40, 80, 120, 255]), 6u32, 9u32, 0u8),
        (blocky_bytes(4, 6, 2), 4, 6, 0),
        (solid_bytes(101, 103, [7, 7, 7, 7]), 101, 103, 0),
        (blocky_bytes(4, 4, 2), 4, 4, 3),
    ];
    for (bytes, w, h, tol) in samples.iter() {
        let first = get_pixel_scale_from_bytes(bytes, *w, *h, *tol);
        let second = get_pixel_scale_from_bytes(bytes, *w, *h, *tol);
        assert_eq!(first, second);
    }
}

#[test]
fn exact_mode_rejects_a_perturbed_pixel() {
    let mut bytes = solid_bytes(4, 4, [100, 100, 100, 255]);
    assert_eq!(get_pixel_scale_from_bytes(&bytes, 4, 4, 0), 4);
    // One red channel off by one breaks every candidate grid in exact mode.
    bytes[0] = 101;
    assert_eq!(get_pixel_scale_from_bytes(&bytes, 4, 4, 0), 0);
}

#[test]
fn tolerance_boundary_is_inclusive() {
    // 4×4 image of 2×2 blocks; the scale 4 grid mixes shades 10 and 200 and
    // can never pass a small tolerance, so scale 2 is the only candidate.
    let tol: u8 = 1;
    let mut bytes = blocky_bytes(4, 4, 2);
    assert_eq!(get_pixel_scale_from_bytes(&bytes, 4, 4, tol), 2);
    // Perturbing one channel by exactly the tolerance keeps the match: the
    // block mean stays put, so the deviation is exactly `tol`.
    let base = bytes[0];
    bytes[0] = base + tol;
    assert_eq!(get_pixel_scale_from_bytes(&bytes, 4, 4, tol), 2);
    // One past the tolerance fails every candidate.
    bytes[0] = base + tol + 1;
    assert_eq!(get_pixel_scale_from_bytes(&bytes, 4, 4, tol), 0);
}

#[test]
fn invalid_inputs_yield_zero() {
    let bytes = solid_bytes(4, 4, [9, 9, 9, 9]);
    assert_eq!(get_pixel_scale_from_bytes(&bytes, 0, 4, 0), 0);
    assert_eq!(get_pixel_scale_from_bytes(&bytes, 4, 0, 0), 0);
    // A buffer one byte short of width×height×4 is rejected.
    assert_eq!(get_pixel_scale_from_bytes(&bytes[..63], 4, 4, 0), 0);
    // Excess bytes beyond width×height×4 are ignored.
    let mut longer = bytes.clone();
    longer.extend_from_slice(&[1, 2, 3]);
    assert_eq!(get_pixel_scale_from_bytes(&longer, 4, 4, 0), 4);
}

fn pixels_of(bytes: &[u8]) -> Vec<RgbaComponents> {
    bytes
        .chunks_exact(4)
        .map(|c| RgbaComponents { r: c[0], g: c[1], b: c[2], a: c[3] })
        .collect()
}

#[test]
fn get_pixel_scale_on_image_data() {
    let image = ImageData { rgba: pixels_of(&blocky_bytes(4, 6, 2)), width: 4, height: 6 };
    assert_eq!(get_pixel_scale(&image, None), 2);
    assert_eq!(get_pixel_scale(&image, Some(30)), 2);
    let coprime = ImageData { rgba: pixels_of(&solid_bytes(3, 5, [1, 1, 1, 1])), width: 3, height: 5 };
    assert_eq!(get_pixel_scale(&coprime, None), 0);
}

#[test]
fn is_matching_scale_checks_the_grid() {
    let image = ImageData { rgba: pixels_of(&blocky_bytes(4, 6, 2)), width: 4, height: 6 };
    assert!(image.is_matching_scale(2, 2, None));
    assert!(!image.is_matching_scale(2, 3, None));
    assert!(image.is_matching_scale(2, 2, Some(5)));
    // A buffer shorter than width×height never matches.
    let short = ImageData { rgba: pixels_of(&solid_bytes(4, 3, [5, 5, 5, 5])), width: 4, height: 4 };
    assert!(!short.is_matching_scale(2, 2, None));
    assert!(!short.is_matching_scale(2, 2, Some(3)));
}

#[test]
fn within_error_compares_each_channel() {
    let p = RgbaComponents { r: 10, g: 20, b: 30, a: 40 };
    let q = RgbaComponents { r: 15, g: 20, b: 30, a: 40 };
    assert!(p.is_matching_within_error(p, None));
    assert!(!p.is_matching_within_error(q, None));
    assert!(p.is_matching_within_error(q, Some(5)));
    assert!(!p.is_matching_within_error(q, Some(4)));
    let far = RgbaComponents { r: 10, g: 20, b: 30, a: 255 };
    assert!(!p.is_matching_within_error(far, Some(100)));
    assert!(p.is_matching_within_error(far, Some(215)));
}
