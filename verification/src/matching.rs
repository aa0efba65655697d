//! The scale verifier: specifications for block uniformity, per-channel
//! block means and tolerance matching, and the verified scan that tests
//! whether an image tiles into uniform blocks of a candidate size.

use crate::divisibility::divides;
use crate::{ImageData, RgbaComponents};
use vstd::arithmetic::div_mod::{
    lemma_div_by_multiple, lemma_div_is_ordered, lemma_div_multiples_vanish,
};
use vstd::prelude::*;

verus! {

/// Absolute difference of two integers.
pub open spec fn abs_diff(a: int, b: int) -> int {
    if a >= b {
        a - b
    } else {
        b - a
    }
}

/// The pixel at column `x`, row `y` of a row-major buffer of width `w`.
pub open spec fn pixel(s: Seq<RgbaComponents>, w: int, x: int, y: int) -> RgbaComponents {
    s[y * w + x]
}

/// Channel `c` of a pixel, in the fixed order red, green, blue, alpha.
pub open spec fn channel(p: RgbaComponents, c: int) -> int {
    if c == 0 {
        p.r as int
    } else if c == 1 {
        p.g as int
    } else if c == 2 {
        p.b as int
    } else {
        p.a as int
    }
}

/// Every pixel of the `bw`×`bh` block with top-left corner `(x0, y0)` equals
/// that corner pixel.
pub open spec fn block_uniform(
    s: Seq<RgbaComponents>,
    w: int,
    bw: int,
    bh: int,
    x0: int,
    y0: int,
) -> bool {
    forall|dx: int, dy: int|
        0 <= dx < bw && 0 <= dy < bh ==> #[trigger] pixel(s, w, x0 + dx, y0 + dy) == pixel(
            s,
            w,
            x0,
            y0,
        )
}

/// Sum of channel `c` over the first `n` pixels of row `y` starting at
/// column `x0`.
pub open spec fn row_channel_sum(
    s: Seq<RgbaComponents>,
    w: int,
    y: int,
    x0: int,
    n: int,
    c: int,
) -> int
    decreases n,
{
    if n <= 0 {
        0
    } else {
        row_channel_sum(s, w, y, x0, n - 1, c) + channel(pixel(s, w, x0 + n - 1, y), c)
    }
}

/// Sum of channel `c` over the first `m` rows of a block of width `bw` with
/// top-left corner `(x0, y0)`.
pub open spec fn block_channel_sum(
    s: Seq<RgbaComponents>,
    w: int,
    x0: int,
    y0: int,
    bw: int,
    m: int,
    c: int,
) -> int
    decreases m,
{
    if m <= 0 {
        0
    } else {
        block_channel_sum(s, w, x0, y0, bw, m - 1, c) + row_channel_sum(s, w, y0 + m - 1, x0, bw, c)
    }
}

/// The truncating integer mean of channel `c` over a `bw`×`bh` block.
pub open spec fn block_channel_mean(
    s: Seq<RgbaComponents>,
    w: int,
    x0: int,
    y0: int,
    bw: int,
    bh: int,
    c: int,
) -> int {
    block_channel_sum(s, w, x0, y0, bw, bh, c) / (bw * bh)
}

/// Every channel of every pixel of the block is within `tol` of the block's
/// own per-channel mean.
pub open spec fn block_within_tolerance(
    s: Seq<RgbaComponents>,
    w: int,
    bw: int,
    bh: int,
    x0: int,
    y0: int,
    tol: int,
) -> bool {
    forall|dx: int, dy: int, c: int|
        0 <= dx < bw && 0 <= dy < bh && 0 <= c < 4 ==> abs_diff(
            #[trigger] channel(pixel(s, w, x0 + dx, y0 + dy), c),
            block_channel_mean(s, w, x0, y0, bw, bh, c),
        ) <= tol
}

/// Exact mode over the whole grid: every block is internally uniform.
pub open spec fn grid_uniform(s: Seq<RgbaComponents>, w: int, h: int, bw: int, bh: int) -> bool {
    forall|bx: int, by: int|
        0 <= bx < w / bw && 0 <= by < h / bh ==> #[trigger] block_uniform(
            s,
            w,
            bw,
            bh,
            bx * bw,
            by * bh,
        )
}

/// Tolerance mode over the whole grid: every block stays within `tol` of its
/// own per-channel mean.
pub open spec fn grid_within_tolerance(
    s: Seq<RgbaComponents>,
    w: int,
    h: int,
    bw: int,
    bh: int,
    tol: int,
) -> bool {
    forall|bx: int, by: int|
        0 <= bx < w / bw && 0 <= by < h / bh ==> #[trigger] block_within_tolerance(
            s,
            w,
            bw,
            bh,
            bx * bw,
            by * bh,
            tol,
        )
}

/// The image matches block size `bw`×`bh`: the buffer covers the image and
/// the block grid passes in the mode selected by the tolerance.
pub open spec fn scale_match(
    s: Seq<RgbaComponents>,
    w: int,
    h: int,
    bw: int,
    bh: int,
    max_color_diff: Option<u8>,
) -> bool {
    &&& s.len() >= w * h
    &&& match max_color_diff {
        None => grid_uniform(s, w, h, bw, bh),
        Some(t) => grid_within_tolerance(s, w, h, bw, bh, t as int),
    }
}

/// A dimension that a block size divides splits into exactly `v / bv` block
/// strips.
pub(crate) proof fn lemma_dim_splits(v: int, bv: int)
    requires
        bv > 0,
        v >= 0,
        divides(bv, v),
    ensures
        v == bv * (v / bv),
        (v / bv) * bv == v,
{
    let k = choose|k: int| v == #[trigger] (bv * k);
    lemma_div_multiples_vanish(k, bv);
    assert((v / bv) * bv == bv * (v / bv)) by (nonlinear_arith);
}

/// In-range block pixel coordinates address the row-major buffer below
/// `(y0 + bh) * w`, the end of the block's last row.
pub(crate) proof fn lemma_block_pixel_index(len: int, w: int, bw: int, bh: int, x0: int, y0: int, dx: int, dy: int)
    requires
        0 <= x0,
        0 <= y0,
        0 < bw,
        0 < bh,
        0 <= dx < bw,
        0 <= dy < bh,
        x0 + bw <= w,
        (y0 + bh) * w <= len,
    ensures
        0 <= (y0 + dy) * w + (x0 + dx) < len,
        (y0 + dy) * w <= len,
        y0 + dy < len,
        0 <= y0 * w + x0 < len,
{
    assert(0 <= (y0 + dy) * w + (x0 + dx) && (y0 + dy) * w + (x0 + dx) < (y0 + bh) * w && (y0 + dy)
        * w <= (y0 + bh) * w && y0 + dy <= (y0 + dy) * w + (x0 + dx) && 0 <= y0 * w + x0 && y0
        * w + x0 < (y0 + bh) * w) by (nonlinear_arith)
        requires
            0 <= x0,
            0 <= y0,
            0 < bw,
            0 < bh,
            0 <= dx < bw,
            0 <= dy < bh,
            x0 + bw <= w,
    ;
}

/// The coordinates of a block within the grid keep its pixels inside the
/// image dimensions.
pub(crate) proof fn lemma_block_origin(v: int, bv: int, i: int)
    requires
        bv > 0,
        v == bv * (v / bv),
        0 <= i < v / bv,
    ensures
        0 <= i * bv,
        i * bv + bv <= v,
{
    assert(0 <= i * bv && i * bv + bv <= bv * (v / bv)) by (nonlinear_arith)
        requires
            bv > 0,
            0 <= i < v / bv,
    ;
}

/// A channel sum over part of a row is between zero and 255 per pixel.
proof fn lemma_row_channel_sum_bounds(s: Seq<RgbaComponents>, w: int, y: int, x0: int, n: int, c: int)
    requires
        n >= 0,
    ensures
        0 <= row_channel_sum(s, w, y, x0, n, c) <= 255 * n,
    decreases n,
{
    if n > 0 {
        lemma_row_channel_sum_bounds(s, w, y, x0, n - 1, c);
    }
}

/// A channel sum over the first `m` rows of a block is between zero and 255
/// per pixel.
proof fn lemma_block_channel_sum_bounds(
    s: Seq<RgbaComponents>,
    w: int,
    x0: int,
    y0: int,
    bw: int,
    m: int,
    c: int,
)
    requires
        m >= 0,
        bw >= 0,
    ensures
        0 <= block_channel_sum(s, w, x0, y0, bw, m, c) <= 255 * (bw * m),
    decreases m,
{
    if m > 0 {
        lemma_block_channel_sum_bounds(s, w, x0, y0, bw, m - 1, c);
        lemma_row_channel_sum_bounds(s, w, y0 + m - 1, x0, bw, c);
        assert(255 * (bw * (m - 1)) + 255 * bw == 255 * (bw * m)) by (nonlinear_arith);
    }
}

/// Exact-mode check of one block: every pixel must equal the top-left
/// corner.
#[verifier::loop_isolation(false)]
fn block_is_uniform(
    rgba: &Vec<RgbaComponents>,
    w: usize,
    bw: usize,
    bh: usize,
    x0: usize,
    y0: usize,
) -> (r: bool)
    requires
        bw > 0,
        bh > 0,
        x0 + bw <= w,
        (y0 + bh) * w <= rgba@.len(),
    ensures
        r == block_uniform(rgba@, w as int, bw as int, bh as int, x0 as int, y0 as int),
{
    let ghost s = rgba@;
    let ghost wi = w as int;
    let n = rgba.len();
    proof {
        assert(n == s.len());
        lemma_block_pixel_index(s.len() as int, wi, bw as int, bh as int, x0 as int, y0 as int, 0, 0);
    }
    let corner = rgba[y0 * w + x0];
    let mut dy: usize = 0;
    while dy < bh
        invariant
            dy <= bh,
            forall|ddx: int, ddy: int|
                0 <= ddx < bw && 0 <= ddy < dy ==> #[trigger] pixel(s, wi, x0 + ddx, y0 + ddy)
                    == pixel(s, wi, x0 as int, y0 as int),
        decreases bh - dy,
    {
        let mut dx: usize = 0;
        while dx < bw
            invariant
                dx <= bw,
                dy < bh,
                forall|ddx: int, ddy: int|
                    0 <= ddx < bw && 0 <= ddy < dy ==> #[trigger] pixel(s, wi, x0 + ddx, y0 + ddy)
                        == pixel(s, wi, x0 as int, y0 as int),
                forall|ddx: int|
                    0 <= ddx < dx ==> #[trigger] pixel(s, wi, x0 + ddx, y0 + dy as int) == pixel(
                        s,
                        wi,
                        x0 as int,
                        y0 as int,
                    ),
            decreases bw - dx,
        {
            proof {
                lemma_block_pixel_index(
                    s.len() as int,
                    wi,
                    bw as int,
                    bh as int,
                    x0 as int,
                    y0 as int,
                    dx as int,
                    dy as int,
                );
            }
            let p = rgba[(y0 + dy) * w + (x0 + dx)];
            if p != corner {
                proof {
                    assert(pixel(s, wi, x0 + dx as int, y0 + dy as int) != pixel(
                        s,
                        wi,
                        x0 as int,
                        y0 as int,
                    ));
                }
                return false;
            }
            dx = dx + 1;
        }
        dy = dy + 1;
    }
    true
}

/// Tolerance-mode check of one block: the per-channel means are computed
/// first, then every pixel is compared against the mean pixel.
#[verifier::loop_isolation(false)]
fn block_matches_tolerance(
    rgba: &Vec<RgbaComponents>,
    w: usize,
    bw: usize,
    bh: usize,
    x0: usize,
    y0: usize,
    tol: u8,
) -> (r: bool)
    requires
        bw > 0,
        bh > 0,
        x0 + bw <= w,
        (y0 + bh) * w <= rgba@.len(),
    ensures
        r == block_within_tolerance(
            rgba@,
            w as int,
            bw as int,
            bh as int,
            x0 as int,
            y0 as int,
            tol as int,
        ),
{
    let ghost s = rgba@;
    let ghost wi = w as int;
    let n = rgba.len();
    proof {
        assert(n == s.len());
        assert(bw * bh <= (y0 + bh) * w) by (nonlinear_arith)
            requires
                0 < bw,
                0 < bh,
                0 <= x0,
                0 <= y0,
                x0 + bw <= w,
        ;
    }
    let mut sum_r: u128 = 0;
    let mut sum_g: u128 = 0;
    let mut sum_b: u128 = 0;
    let mut sum_a: u128 = 0;
    let mut dy: usize = 0;
    while dy < bh
        invariant
            dy <= bh,
            sum_r == block_channel_sum(s, wi, x0 as int, y0 as int, bw as int, dy as int, 0),
            sum_g == block_channel_sum(s, wi, x0 as int, y0 as int, bw as int, dy as int, 1),
            sum_b == block_channel_sum(s, wi, x0 as int, y0 as int, bw as int, dy as int, 2),
            sum_a == block_channel_sum(s, wi, x0 as int, y0 as int, bw as int, dy as int, 3),
        decreases bh - dy,
    {
        let mut dx: usize = 0;
        while dx < bw
            invariant
                dx <= bw,
                dy < bh,
                sum_r == block_channel_sum(s, wi, x0 as int, y0 as int, bw as int, dy as int, 0)
                    + row_channel_sum(s, wi, y0 + dy as int, x0 as int, dx as int, 0),
                sum_g == block_channel_sum(s, wi, x0 as int, y0 as int, bw as int, dy as int, 1)
                    + row_channel_sum(s, wi, y0 + dy as int, x0 as int, dx as int, 1),
                sum_b == block_channel_sum(s, wi, x0 as int, y0 as int, bw as int, dy as int, 2)
                    + row_channel_sum(s, wi, y0 + dy as int, x0 as int, dx as int, 2),
                sum_a == block_channel_sum(s, wi, x0 as int, y0 as int, bw as int, dy as int, 3)
                    + row_channel_sum(s, wi, y0 + dy as int, x0 as int, dx as int, 3),
            decreases bw - dx,
        {
            proof {
                lemma_block_pixel_index(
                    s.len() as int,
                    wi,
                    bw as int,
                    bh as int,
                    x0 as int,
                    y0 as int,
                    dx as int,
                    dy as int,
                );
                lemma_block_channel_sum_bounds(s, wi, x0 as int, y0 as int, bw as int, dy as int, 0);
                lemma_block_channel_sum_bounds(s, wi, x0 as int, y0 as int, bw as int, dy as int, 1);
                lemma_block_channel_sum_bounds(s, wi, x0 as int, y0 as int, bw as int, dy as int, 2);
                lemma_block_channel_sum_bounds(s, wi, x0 as int, y0 as int, bw as int, dy as int, 3);
                lemma_row_channel_sum_bounds(s, wi, y0 + dy as int, x0 as int, dx as int, 0);
                lemma_row_channel_sum_bounds(s, wi, y0 + dy as int, x0 as int, dx as int, 1);
                lemma_row_channel_sum_bounds(s, wi, y0 + dy as int, x0 as int, dx as int, 2);
                lemma_row_channel_sum_bounds(s, wi, y0 + dy as int, x0 as int, dx as int, 3);
                assert(255 * ((bw as int) * (dy as int)) + 255 * (dx as int) + 255 <= 255 * ((
                y0 as int + bh as int) * wi)) by (nonlinear_arith)
                    requires
                        0 <= dx < bw,
                        0 <= dy < bh,
                        0 <= x0,
                        0 <= y0,
                        x0 as int + bw as int <= wi,
                ;
            }
            let p = rgba[(y0 + dy) * w + (x0 + dx)];
            sum_r = sum_r + p.r as u128;
            sum_g = sum_g + p.g as u128;
            sum_b = sum_b + p.b as u128;
            sum_a = sum_a + p.a as u128;
            dx = dx + 1;
        }
        dy = dy + 1;
    }
    let rect = bw * bh;
    proof {
        lemma_block_channel_sum_bounds(s, wi, x0 as int, y0 as int, bw as int, bh as int, 0);
        lemma_block_channel_sum_bounds(s, wi, x0 as int, y0 as int, bw as int, bh as int, 1);
        lemma_block_channel_sum_bounds(s, wi, x0 as int, y0 as int, bw as int, bh as int, 2);
        lemma_block_channel_sum_bounds(s, wi, x0 as int, y0 as int, bw as int, bh as int, 3);
        assert(rect as int == (bw as int) * (bh as int));
        assert(rect > 0) by (nonlinear_arith)
            requires
                bw > 0,
                bh > 0,
                rect as int == (bw as int) * (bh as int),
        ;
        lemma_div_is_ordered(sum_r as int, 255 * (rect as int), rect as int);
        lemma_div_is_ordered(sum_g as int, 255 * (rect as int), rect as int);
        lemma_div_is_ordered(sum_b as int, 255 * (rect as int), rect as int);
        lemma_div_is_ordered(sum_a as int, 255 * (rect as int), rect as int);
        lemma_div_by_multiple(255, rect as int);
        vstd::arithmetic::div_mod::lemma_div_pos_is_pos(sum_r as int, rect as int);
        vstd::arithmetic::div_mod::lemma_div_pos_is_pos(sum_g as int, rect as int);
        vstd::arithmetic::div_mod::lemma_div_pos_is_pos(sum_b as int, rect as int);
        vstd::arithmetic::div_mod::lemma_div_pos_is_pos(sum_a as int, rect as int);
    }
    let mean = RgbaComponents {
        r: (sum_r / rect as u128) as u8,
        g: (sum_g / rect as u128) as u8,
        b: (sum_b / rect as u128) as u8,
        a: (sum_a / rect as u128) as u8,
    };
    let ghost bm = |c: int|
        block_channel_mean(s, wi, x0 as int, y0 as int, bw as int, bh as int, c);
    proof {
        assert(channel(mean, 0) == bm(0));
        assert(channel(mean, 1) == bm(1));
        assert(channel(mean, 2) == bm(2));
        assert(channel(mean, 3) == bm(3));
    }
    let mut dy: usize = 0;
    while dy < bh
        invariant
            dy <= bh,
            channel(mean, 0) == bm(0),
            channel(mean, 1) == bm(1),
            channel(mean, 2) == bm(2),
            channel(mean, 3) == bm(3),
            forall|ddx: int, ddy: int, c: int|
                0 <= ddx < bw && 0 <= ddy < dy && 0 <= c < 4 ==> abs_diff(
                    #[trigger] channel(pixel(s, wi, x0 + ddx, y0 + ddy), c),
                    bm(c),
                ) <= tol as int,
        decreases bh - dy,
    {
        let mut dx: usize = 0;
        while dx < bw
            invariant
                dx <= bw,
                dy < bh,
                forall|ddx: int, ddy: int, c: int|
                    0 <= ddx < bw && 0 <= ddy < dy && 0 <= c < 4 ==> abs_diff(
                        #[trigger] channel(pixel(s, wi, x0 + ddx, y0 + ddy), c),
                        bm(c),
                    ) <= tol as int,
                forall|ddx: int, c: int|
                    0 <= ddx < dx && 0 <= c < 4 ==> abs_diff(
                        #[trigger] channel(pixel(s, wi, x0 + ddx, y0 + dy as int), c),
                        bm(c),
                    ) <= tol as int,
            decreases bw - dx,
        {
            proof {
                lemma_block_pixel_index(
                    s.len() as int,
                    wi,
                    bw as int,
                    bh as int,
                    x0 as int,
                    y0 as int,
                    dx as int,
                    dy as int,
                );
            }
            let p = rgba[(y0 + dy) * w + (x0 + dx)];
            if !mean.is_matching_within_error(p, Some(tol)) {
                proof {
                    let ghost px = pixel(s, wi, x0 + dx as int, y0 + dy as int);
                    assert(channel(px, 0) == p.r as int);
                    assert(channel(px, 1) == p.g as int);
                    assert(channel(px, 2) == p.b as int);
                    assert(channel(px, 3) == p.a as int);
                    assert(!block_within_tolerance(
                        s,
                        wi,
                        bw as int,
                        bh as int,
                        x0 as int,
                        y0 as int,
                        tol as int,
                    )) by {
                        if block_within_tolerance(
                            s,
                            wi,
                            bw as int,
                            bh as int,
                            x0 as int,
                            y0 as int,
                            tol as int,
                        ) {
                            assert(abs_diff(channel(px, 0), bm(0)) <= tol as int);
                            assert(abs_diff(channel(px, 1), bm(1)) <= tol as int);
                            assert(abs_diff(channel(px, 2), bm(2)) <= tol as int);
                            assert(abs_diff(channel(px, 3), bm(3)) <= tol as int);
                        }
                    }
                }
                return false;
            }
            proof {
                let ghost px = pixel(s, wi, x0 + dx as int, y0 + dy as int);
                assert forall|c: int| 0 <= c < 4 implies abs_diff(channel(px, c), bm(c))
                    <= tol as int by {
                    if c == 0 {
                        assert(abs_diff(channel(px, 0), bm(0)) <= tol as int);
                    } else if c == 1 {
                        assert(abs_diff(channel(px, 1), bm(1)) <= tol as int);
                    } else if c == 2 {
                        assert(abs_diff(channel(px, 2), bm(2)) <= tol as int);
                    } else {
                        assert(abs_diff(channel(px, 3), bm(3)) <= tol as int);
                    }
                }
            }
            dx = dx + 1;
        }
        dy = dy + 1;
    }
    true
}

impl ImageData {
    /// Tests whether the image tiles exactly into `scale_width`×`scale_height`
    /// blocks that are each uniform (no tolerance) or within the per-channel
    /// tolerance of their own mean. A buffer shorter than width×height never
    /// matches.
    #[verifier::loop_isolation(false)]
    pub fn is_matching_scale(
        &self,
        scale_width: usize,
        scale_height: usize,
        max_color_diff: Option<u8>,
    ) -> (r: bool)
        requires
            self.width > 0,
            self.height > 0,
            scale_width > 0,
            scale_height > 0,
            divides(scale_width as int, self.width as int),
            divides(scale_height as int, self.height as int),
        ensures
            r == scale_match(
                self.rgba@,
                self.width as int,
                self.height as int,
                scale_width as int,
                scale_height as int,
                max_color_diff,
            ),
    {
        let ghost s = self.rgba@;
        let w = self.width as usize;
        let h = self.height as usize;
        let bw = scale_width;
        let bh = scale_height;
        let ghost wi = w as int;
        let ghost hi = h as int;
        proof {
            assert(wi * hi < 0x1_0000_0000_0000_0000) by (nonlinear_arith)
                requires
                    0 <= wi < 0x1_0000_0000,
                    0 <= hi < 0x1_0000_0000,
            ;
        }
        if (self.rgba.len() as u64) < (w as u64) * (h as u64) {
            proof {
                assert(s.len() < wi * hi);
            }
            return false;
        }
        proof {
            lemma_dim_splits(wi, bw as int);
            lemma_dim_splits(hi, bh as int);
        }
        let nbx = w / bw;
        let nby = h / bh;
        let exact = max_color_diff.is_none();
        let tol = match max_color_diff {
            Some(t) => t,
            None => 0,
        };
        let mut by: usize = 0;
        while by < nby
            invariant
                by <= nby,
                exact ==> forall|i: int, j: int|
                    0 <= i < nbx && 0 <= j < by ==> #[trigger] block_uniform(
                        s,
                        wi,
                        bw as int,
                        bh as int,
                        i * (bw as int),
                        j * (bh as int),
                    ),
                !exact ==> forall|i: int, j: int|
                    0 <= i < nbx && 0 <= j < by ==> #[trigger] block_within_tolerance(
                        s,
                        wi,
                        bw as int,
                        bh as int,
                        i * (bw as int),
                        j * (bh as int),
                        tol as int,
                    ),
            decreases nby - by,
        {
            let mut bx: usize = 0;
            while bx < nbx
                invariant
                    bx <= nbx,
                    by < nby,
                    exact ==> forall|i: int, j: int|
                        0 <= i < nbx && 0 <= j < by ==> #[trigger] block_uniform(
                            s,
                            wi,
                            bw as int,
                            bh as int,
                            i * (bw as int),
                            j * (bh as int),
                        ),
                    !exact ==> forall|i: int, j: int|
                        0 <= i < nbx && 0 <= j < by ==> #[trigger] block_within_tolerance(
                            s,
                            wi,
                            bw as int,
                            bh as int,
                            i * (bw as int),
                            j * (bh as int),
                            tol as int,
                        ),
                    exact ==> forall|i: int|
                        0 <= i < bx ==> #[trigger] block_uniform(
                            s,
                            wi,
                            bw as int,
                            bh as int,
                            i * (bw as int),
                            (by as int) * (bh as int),
                        ),
                    !exact ==> forall|i: int|
                        0 <= i < bx ==> #[trigger] block_within_tolerance(
                            s,
                            wi,
                            bw as int,
                            bh as int,
                            i * (bw as int),
                            (by as int) * (bh as int),
                            tol as int,
                        ),
                decreases nbx - bx,
            {
                proof {
                    lemma_block_origin(wi, bw as int, bx as int);
                    lemma_block_origin(hi, bh as int, by as int);
                    assert((by as int * (bh as int) + bh as int) * wi <= hi * wi)
                        by (nonlinear_arith)
                        requires
                            by as int * (bh as int) + bh as int <= hi,
                            wi > 0,
                    ;
                    assert(hi * wi == wi * hi) by (nonlinear_arith);
                }
                let x0 = bx * bw;
                let y0 = by * bh;
                let ok = if exact {
                    block_is_uniform(&self.rgba, w, bw, bh, x0, y0)
                } else {
                    block_matches_tolerance(&self.rgba, w, bw, bh, x0, y0, tol)
                };
                if !ok {
                    return false;
                }
                bx = bx + 1;
            }
            by = by + 1;
        }
        true
    }
}

} // verus!
