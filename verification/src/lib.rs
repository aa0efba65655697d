//! Pixel scale detector: finds the integer block size at which an image was
//! upscaled without interpolation, by probing the common divisors of its
//! dimensions and testing each candidate block grid for uniformity.

pub mod common_divisors;
pub mod divisibility;
pub mod matching;

use crate::common_divisors::find_common_divisors;
use crate::divisibility::{
    divides, euclid_gcd, lemma_divides_le, lemma_gcd_divides, lemma_gcd_greatest, lemma_gcd_scale,
};
use crate::matching::{block_uniform, pixel, scale_match};
use vstd::prelude::*;
use vstd::slice::slice_index_get;

verus! {

/// One pixel: four 8-bit channels in the order red, green, blue, alpha.
#[derive(Clone, Copy, PartialEq, Eq, Structural, Debug)]
pub struct RgbaComponents {
    pub r: u8,
    pub g: u8,
    pub b: u8,
    pub a: u8,
}

/// The per-channel bound that a pair of pixels may differ by; absence of a
/// tolerance means exact matching, hence a bound of zero.
pub open spec fn tolerance_of(max_color_diff: Option<u8>) -> int {
    match max_color_diff {
        None => 0,
        Some(t) => t as int,
    }
}

impl RgbaComponents {
    /// True when every channel of `self` is within the allowed difference of
    /// the corresponding channel of `other`.
    pub fn is_matching_within_error(&self, other: Self, max_color_diff: Option<u8>) -> (r: bool)
        ensures
            r == (crate::matching::abs_diff(self.r as int, other.r as int) <= tolerance_of(
                max_color_diff,
            ) && crate::matching::abs_diff(self.g as int, other.g as int) <= tolerance_of(
                max_color_diff,
            ) && crate::matching::abs_diff(self.b as int, other.b as int) <= tolerance_of(
                max_color_diff,
            ) && crate::matching::abs_diff(self.a as int, other.a as int) <= tolerance_of(
                max_color_diff,
            )),
    {
        let r_diff = if self.r >= other.r {
            self.r - other.r
        } else {
            other.r - self.r
        };
        let g_diff = if self.g >= other.g {
            self.g - other.g
        } else {
            other.g - self.g
        };
        let b_diff = if self.b >= other.b {
            self.b - other.b
        } else {
            other.b - self.b
        };
        let a_diff = if self.a >= other.a {
            self.a - other.a
        } else {
            other.a - self.a
        };
        let max_diff = match max_color_diff {
            Some(v) => v,
            None => 0,
        };
        r_diff <= max_diff && g_diff <= max_diff && b_diff <= max_diff && a_diff <= max_diff
    }
}

/// A width×height image over a row-major pixel buffer. The buffer may be
/// longer than width×height; the excess is ignored.
pub struct ImageData {
    pub rgba: Vec<RgbaComponents>,
    pub width: u32,
    pub height: u32,
}

/// A candidate block size for a w×h image: greater than 1 and dividing both
/// dimensions.
pub open spec fn candidate_scale(w: int, h: int, c: int) -> bool {
    1 < c && divides(c, w) && divides(c, h)
}

/// What the detector returns: 0 exactly when no candidate block size
/// matches; otherwise the largest matching candidate.
pub open spec fn is_scale_detection(
    px: Seq<RgbaComponents>,
    w: int,
    h: int,
    max_color_diff: Option<u8>,
    r: int,
) -> bool {
    if r == 0 {
        forall|c: int|
            #[trigger] candidate_scale(w, h, c) ==> !scale_match(px, w, h, c, c, max_color_diff)
    } else {
        &&& candidate_scale(w, h, r)
        &&& scale_match(px, w, h, r, r, max_color_diff)
        &&& forall|c: int|
            #[trigger] candidate_scale(w, h, c) && c > r ==> !scale_match(
                px,
                w,
                h,
                c,
                c,
                max_color_diff,
            )
    }
}

/// Detects the pixel scale of the image: the candidates are the common
/// divisors of width and height other than 1, probed from largest to
/// smallest; the first match wins, and 0 reports that none matched.
#[verifier::loop_isolation(false)]
pub fn get_pixel_scale(image: &ImageData, max_color_diff: Option<u8>) -> (r: u32)
    requires
        image.width > 0,
        image.height > 0,
    ensures
        is_scale_detection(
            image.rgba@,
            image.width as int,
            image.height as int,
            max_color_diff,
            r as int,
        ),
{
    let ghost px = image.rgba@;
    let ghost wi = image.width as int;
    let ghost hi = image.height as int;
    let divisors = find_common_divisors(image.width, image.height);
    if divisors.len() < 2 {
        proof {
            assert forall|c: int| #[trigger] candidate_scale(wi, hi, c) implies !scale_match(
                px,
                wi,
                hi,
                c,
                c,
                max_color_diff,
            ) by {
                lemma_divides_le(c, wi);
                assert(divisors@.contains(c as u32));
                let i = choose|i: int|
                    0 <= i < divisors@.len() && divisors@[i] == c as u32;
                assert(i == 0);
            }
        }
        return 0;
    }
    let mut i: usize = divisors.len();
    while i > 1
        invariant
            1 <= i <= divisors@.len(),
            forall|j: int|
                i <= j < divisors@.len() ==> !scale_match(
                    px,
                    wi,
                    hi,
                    #[trigger] divisors@[j] as int,
                    divisors@[j] as int,
                    max_color_diff,
                ),
        decreases i,
    {
        i = i - 1;
        let scale = divisors[i];
        if image.is_matching_scale(scale as usize, scale as usize, max_color_diff) {
            proof {
                assert(divisors@[0] < divisors@[i as int]);
                assert(candidate_scale(wi, hi, scale as int));
                assert forall|c: int|
                    #[trigger] candidate_scale(wi, hi, c) && c > scale as int implies !scale_match(
                    px,
                    wi,
                    hi,
                    c,
                    c,
                    max_color_diff,
                ) by {
                    lemma_divides_le(c, wi);
                    assert(divisors@.contains(c as u32));
                    let j = choose|j: int|
                        0 <= j < divisors@.len() && divisors@[j] == c as u32;
                    if j <= i as int {
                        if j < i as int {
                            assert(divisors@[j] < divisors@[i as int]);
                        }
                        assert(false);
                    }
                }
            }
            return scale;
        }
    }
    proof {
        assert forall|c: int| #[trigger] candidate_scale(wi, hi, c) implies !scale_match(
            px,
            wi,
            hi,
            c,
            c,
            max_color_diff,
        ) by {
            lemma_divides_le(c, wi);
            assert(divisors@.contains(c as u32));
            let j = choose|j: int| 0 <= j < divisors@.len() && divisors@[j] == c as u32;
            if j == 0 {
                assert(false);
            }
        }
    }
    0
}

/// The pixel sequence encoded in a byte buffer: 4 bytes per pixel in the
/// order red, green, blue, alpha, row-major.
pub open spec fn pixels_of_bytes(data: Seq<u8>, n: int) -> Seq<RgbaComponents> {
    Seq::new(
        n as nat,
        |i: int|
            RgbaComponents {
                r: data[4 * i],
                g: data[4 * i + 1],
                b: data[4 * i + 2],
                a: data[4 * i + 3],
            },
    )
}

/// Converts a raw tolerance byte: zero selects exact matching.
pub open spec fn tolerance_option(max_color_diff: u8) -> Option<u8> {
    if max_color_diff == 0 {
        None
    } else {
        Some(max_color_diff)
    }
}

/// Detect the pixel scale of an image given as raw RGBA bytes.
///
/// # Image format
///
/// `[r, g, b, a, r, g, b, a, ...]`, row-major, no padding between rows.
/// Zero dimensions and a buffer shorter than `width * height * 4` bytes are
/// rejected with the sentinel result 0.
#[verifier::loop_isolation(false)]
pub fn get_pixel_scale_from_bytes(
    data: &[u8],
    width: u32,
    height: u32,
    max_color_diff: u8,
) -> (r: u32)
    ensures
        width == 0 || height == 0 || (data@.len() as int) < 4 * (width as int) * (height as int)
            ==> r == 0,
        width > 0 && height > 0 && (data@.len() as int) >= 4 * (width as int) * (height as int)
            ==> is_scale_detection(
            pixels_of_bytes(data@, (width as int) * (height as int)),
            width as int,
            height as int,
            tolerance_option(max_color_diff),
            r as int,
        ),
{
    if width == 0 || height == 0 {
        return 0;
    }
    proof {
        assert((width as int) * (height as int) < 0x1_0000_0000_0000_0000 && (width as int) * (
        height as int) > 0) by (nonlinear_arith)
            requires
                0 < (width as int) && (width as int) < 0x1_0000_0000,
                0 < (height as int) && (height as int) < 0x1_0000_0000,
        ;
        assert(4 * (width as int) * (height as int) == 4 * ((width as int) * (height as int)))
            by (nonlinear_arith);
        assert((width as int) * (height as int) <= 4 * ((width as int) * (height as int)))
            by (nonlinear_arith)
            requires
                (width as int) >= 0 && (height as int) >= 0,
        ;
    }
    let wh64: u64 = (width as u64) * (height as u64);
    if (data.len() as u128) < 4 * (wh64 as u128) {
        return 0;
    }
    let count = (width as usize) * (height as usize);
    let ghost target = pixels_of_bytes(data@, count as int);
    let mut pixels: Vec<RgbaComponents> = Vec::new();
    let mut i: usize = 0;
    while i < count
        invariant
            i <= count,
            pixels@.len() == i,
            forall|j: int| 0 <= j < i ==> #[trigger] pixels@[j] == target[j],
        decreases count - i,
    {
        let px = RgbaComponents {
            r: *slice_index_get(data, 4 * i),
            g: *slice_index_get(data, 4 * i + 1),
            b: *slice_index_get(data, 4 * i + 2),
            a: *slice_index_get(data, 4 * i + 3),
        };
        pixels.push(px);
        i = i + 1;
    }
    proof {
        assert(pixels@ =~= target);
    }
    let image = ImageData { rgba: pixels, width: width, height: height };
    let tol = if max_color_diff == 0 {
        None
    } else {
        Some(max_color_diff)
    };
    get_pixel_scale(&image, tol)
}

/// Detection is a function of the image and tolerance alone: two results
/// that both satisfy the detection relation for the same inputs are equal,
/// so repeating the detection on an unmodified buffer repeats the result.
pub proof fn lemma_detection_unique(
    px: Seq<RgbaComponents>,
    w: int,
    h: int,
    max_color_diff: Option<u8>,
    r1: int,
    r2: int,
)
    requires
        is_scale_detection(px, w, h, max_color_diff, r1),
        is_scale_detection(px, w, h, max_color_diff, r2),
    ensures
        r1 == r2,
{
    if r1 != r2 {
        if r1 == 0 {
            assert(candidate_scale(w, h, r2));
            assert(scale_match(px, w, h, r2, r2, max_color_diff));
            assert(false);
        } else if r2 == 0 {
            assert(candidate_scale(w, h, r1));
            assert(scale_match(px, w, h, r1, r1, max_color_diff));
            assert(false);
        } else if r1 < r2 {
            assert(candidate_scale(w, h, r2));
            assert(false);
        } else {
            assert(candidate_scale(w, h, r1));
            assert(false);
        }
    }
}

/// Every pixel inside the width×height area carries the same color.
pub open spec fn solid_image(px: Seq<RgbaComponents>, w: int, h: int) -> bool {
    forall|i: int, j: int| 0 <= i < w * h && 0 <= j < w * h ==> px[i] == px[j]
}

/// A solid-color image whose dimensions share a divisor beyond 1 detects
/// exactly the GCD of its dimensions under exact matching: every candidate
/// matches a solid image, and the GCD is the largest candidate.
pub proof fn lemma_solid_image_detects_gcd(px: Seq<RgbaComponents>, w: int, h: int, r: int)
    requires
        w > 0,
        h > 0,
        px.len() >= w * h,
        solid_image(px, w, h),
        euclid_gcd(w as nat, h as nat) > 1,
        is_scale_detection(px, w, h, None, r),
    ensures
        r == euclid_gcd(w as nat, h as nat),
{
    let g = euclid_gcd(w as nat, h as nat) as int;
    lemma_gcd_divides(w as nat, h as nat);
    crate::matching::lemma_dim_splits(w, g);
    crate::matching::lemma_dim_splits(h, g);
    assert(scale_match(px, w, h, g, g, None)) by {
        assert forall|bx: int, by: int| 0 <= bx < w / g && 0 <= by < h / g implies #[trigger] block_uniform(
            px,
            w,
            g,
            g,
            bx * g,
            by * g,
        ) by {
            crate::matching::lemma_block_origin(w, g, bx);
            crate::matching::lemma_block_origin(h, g, by);
            let x0 = bx * g;
            let y0 = by * g;
            assert((y0 + g) * w <= h * w) by (nonlinear_arith)
                requires
                    y0 + g <= h,
                    w > 0,
            ;
            assert(h * w == w * h) by (nonlinear_arith);
            assert forall|dx: int, dy: int| 0 <= dx < g && 0 <= dy < g implies #[trigger] pixel(
                px,
                w,
                x0 + dx,
                y0 + dy,
            ) == pixel(px, w, x0, y0) by {
                crate::matching::lemma_block_pixel_index(w * h, w, g, g, x0, y0, dx, dy);
                assert(px[(y0 + dy) * w + (x0 + dx)] == px[y0 * w + x0]);
            }
        }
    }
    assert(candidate_scale(w, h, g));
    if r == 0 {
        assert(false);
    }
    lemma_gcd_greatest(w as nat, h as nat, r);
    lemma_divides_le(r, g);
    if r < g {
        assert(false);
    }
}

/// Tiling a solid K×K tile across an M×N grid of tiles with coprime M and N
/// yields a detected scale of exactly K under exact matching.
pub proof fn lemma_tiled_solid_detects_scale(
    px: Seq<RgbaComponents>,
    k: int,
    m: int,
    n: int,
    r: int,
)
    requires
        k > 1,
        m > 0,
        n > 0,
        euclid_gcd(m as nat, n as nat) == 1,
        px.len() >= (k * m) * (k * n),
        solid_image(px, k * m, k * n),
        is_scale_detection(px, k * m, k * n, None, r),
    ensures
        r == k,
{
    lemma_gcd_scale(k as nat, m as nat, n as nat);
    assert(k * m > 0 && k * n > 0) by (nonlinear_arith)
        requires
            k > 0,
            m > 0,
            n > 0,
    ;
    lemma_solid_image_detects_gcd(px, k * m, k * n, r);
}

/// Coprime dimensions admit no candidate block size, so detection yields 0.
pub proof fn lemma_coprime_dimensions_detect_zero(
    px: Seq<RgbaComponents>,
    w: int,
    h: int,
    max_color_diff: Option<u8>,
    r: int,
)
    requires
        w > 0,
        h > 0,
        euclid_gcd(w as nat, h as nat) == 1,
        is_scale_detection(px, w, h, max_color_diff, r),
    ensures
        r == 0,
{
    if r != 0 {
        assert(candidate_scale(w, h, r));
        lemma_gcd_greatest(w as nat, h as nat, r);
        lemma_divides_le(r, 1);
        assert(false);
    }
}

/// An image one pixel wide or one pixel tall has no divisor beyond 1 to
/// probe, so detection yields 0.
pub proof fn lemma_degenerate_dimension_detects_zero(
    px: Seq<RgbaComponents>,
    w: int,
    h: int,
    max_color_diff: Option<u8>,
    r: int,
)
    requires
        w > 0,
        h > 0,
        w == 1 || h == 1,
        is_scale_detection(px, w, h, max_color_diff, r),
    ensures
        r == 0,
{
    let g = euclid_gcd(w as nat, h as nat);
    lemma_gcd_divides(w as nat, h as nat);
    if w == 1 {
        assert(divides(g as int, 1));
    } else {
        assert(divides(g as int, 1));
    }
    lemma_divides_le(g as int, 1);
    lemma_coprime_dimensions_detect_zero(px, w, h, max_color_diff, r);
}

} // verus!
