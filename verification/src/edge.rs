//! Edge detection: grayscale conversion, an optional 3x3 weighted-average
//! blur, then the 3x3 Sobel gradient magnitude.
//!
//! Two modes are supported. `BinaryThreshold` blurs the grayscale plane
//! first, then thresholds the Sobel magnitude at 170 into a 0/255 edge
//! mask with opaque alpha on the interior. `ContinuousMagnitude` skips the
//! blur, emits the magnitude itself, and carries the original alpha
//! through. The 3x3 window needs a full neighborhood, so the outermost
//! one-pixel border is left at zero magnitude in both modes (the blur
//! stage instead copies the grayscale value at the border, so that a
//! uniform image stays uniform after blurring).

use vstd::prelude::*;
use crate::TransformError;
use crate::dims_match;
use crate::color::sq;
use vstd::arithmetic::div_mod::lemma_fundamental_div_mod_converse;

verus! {

/// Magnitudes strictly above this become 255 in the binary mask.
pub const EDGE_THRESHOLD: u64 = 170;

/// How a detected edge is reported.
#[derive(Clone, Copy, Debug, PartialEq, Eq, Structural)]
pub enum EdgeMode {
    /// Blur the grayscale plane, then emit a 0/255 mask (threshold 170)
    /// with alpha forced to 255 on the interior.
    BinaryThreshold,
    /// No blur; emit the clamped Sobel magnitude and keep the original
    /// alpha.
    ContinuousMagnitude,
}

/// Grayscale of one pixel: the unweighted mean of R, G and B, rounded to
/// the nearest integer.
pub open spec fn gray_at(data: Seq<u8>, j: int) -> int {
    (2 * (data[4 * j] + data[4 * j + 1] + data[4 * j + 2]) + 3) / 6
}

/// The grayscale plane: one byte per pixel.
pub open spec fn gray_plane(data: Seq<u8>) -> Seq<u8> {
    Seq::new(data.len() / 4, |j: int| gray_at(data, j) as u8)
}

/// A pixel whose full 3x3 neighborhood lies inside the image.
pub open spec fn interior(w: int, h: int, x: int, y: int) -> bool {
    1 <= x < w - 1 && 1 <= y < h - 1
}

/// The 3x3 weighted-average blur (kernel 1-2-1 / 2-4-2 / 1-2-1 over 16)
/// of the grayscale plane at an interior pixel, rounded to nearest.
pub open spec fn blur_at(g: Seq<u8>, w: int, x: int, y: int) -> int {
    (g[(y - 1) * w + (x - 1)] + 2 * g[(y - 1) * w + x] + g[(y - 1) * w + (x + 1)] + 2 * g[y * w + (
    x - 1)] + 4 * g[y * w + x] + 2 * g[y * w + (x + 1)] + g[(y + 1) * w + (x - 1)] + 2 * g[(y + 1)
        * w + x] + g[(y + 1) * w + (x + 1)] + 8) / 16
}

/// One byte of the blurred plane: the weighted average on the interior;
/// the border keeps its grayscale value untouched.
pub open spec fn blurred_byte(g: Seq<u8>, w: int, h: int, i: int) -> u8 {
    if interior(w, h, i % w, i / w) {
        blur_at(g, w, i % w, i / w) as u8
    } else {
        g[i]
    }
}

pub open spec fn blur_plane(g: Seq<u8>, w: int, h: int) -> Seq<u8> {
    Seq::new(g.len(), |i: int| blurred_byte(g, w, h, i))
}

/// Horizontal Sobel gradient at an interior pixel.
pub open spec fn gx_at(g: Seq<u8>, w: int, x: int, y: int) -> int {
    -g[(y - 1) * w + (x - 1)] + g[(y - 1) * w + (x + 1)] - 2 * g[y * w + (x - 1)] + 2 * g[y * w + (
    x + 1)] - g[(y + 1) * w + (x - 1)] + g[(y + 1) * w + (x + 1)]
}

/// Vertical Sobel gradient at an interior pixel.
pub open spec fn gy_at(g: Seq<u8>, w: int, x: int, y: int) -> int {
    -g[(y - 1) * w + (x - 1)] - 2 * g[(y - 1) * w + x] - g[(y - 1) * w + (x + 1)] + g[(y + 1) * w
        + (x - 1)] + 2 * g[(y + 1) * w + x] + g[(y + 1) * w + (x + 1)]
}

/// `round(sqrt(v))`, scanning up from `m`: the result is the unique
/// integer `r` with `r*r - r < v <= r*r + r` (0 for v = 0).
pub open spec fn rsqrt_from(v: int, m: int) -> int
    decreases v - m,
{
    if m >= v {
        m
    } else if v <= m * m + m {
        m
    } else {
        rsqrt_from(v, m + 1)
    }
}

/// The square root of `v`, rounded to the nearest integer.
pub open spec fn rounded_sqrt(v: int) -> int {
    rsqrt_from(v, 0)
}

/// Sobel gradient magnitude `round(sqrt(gx^2 + gy^2))`, clamped to 255.
pub open spec fn magnitude_at(g: Seq<u8>, w: int, x: int, y: int) -> int {
    let v = sq(gx_at(g, w, x, y)) + sq(gy_at(g, w, x, y));
    if rounded_sqrt(v) > 255 {
        255
    } else {
        rounded_sqrt(v)
    }
}

/// The plane the Sobel stage reads: blurred grayscale in binary mode,
/// plain grayscale in continuous mode.
pub open spec fn edge_source(data: Seq<u8>, w: int, h: int, mode: EdgeMode) -> Seq<u8> {
    match mode {
        EdgeMode::BinaryThreshold => blur_plane(gray_plane(data), w, h),
        EdgeMode::ContinuousMagnitude => gray_plane(data),
    }
}

/// One byte of the edge-detected buffer.
pub open spec fn edge_byte(
    data: Seq<u8>,
    g: Seq<u8>,
    w: int,
    h: int,
    mode: EdgeMode,
    i: int,
) -> u8 {
    let j = i / 4;
    let ch = i % 4;
    let x = j % w;
    let y = j / w;
    if interior(w, h, x, y) {
        match mode {
            EdgeMode::BinaryThreshold => {
                if ch == 3 {
                    255u8
                } else if magnitude_at(g, w, x, y) > EDGE_THRESHOLD as int {
                    255u8
                } else {
                    0u8
                }
            },
            EdgeMode::ContinuousMagnitude => {
                if ch == 3 {
                    data[i]
                } else {
                    magnitude_at(g, w, x, y) as u8
                }
            },
        }
    } else {
        match mode {
            EdgeMode::BinaryThreshold => 0u8,
            EdgeMode::ContinuousMagnitude => {
                if ch == 3 {
                    data[i]
                } else {
                    0u8
                }
            },
        }
    }
}

/// The whole edge-detected buffer.
pub open spec fn edge_spec(data: Seq<u8>, w: int, h: int, mode: EdgeMode) -> Seq<u8> {
    Seq::new(data.len(), |i: int| edge_byte(data, edge_source(data, w, h, mode), w, h, mode, i))
}

/// A flat-color image: every pixel carries the same R, G and B values.
pub open spec fn uniform_rgb(data: Seq<u8>) -> bool {
    forall|j: int|
        0 <= j < data.len() / 4 ==> {
            &&& data[4 * j] == data[0]
            &&& #[trigger] data[4 * j + 1] == data[1]
            &&& data[4 * j + 2] == data[2]
        }
}

/// On a flat-color image the grayscale plane is constant.
proof fn lemma_uniform_gray(data: Seq<u8>, w: int, h: int)
    requires
        data.len() == 4 * (w * h),
        w >= 1,
        h >= 1,
        uniform_rgb(data),
    ensures
        forall|j: int|
            0 <= j < w * h ==> #[trigger] gray_plane(data)[j] == gray_plane(data)[0],
{
    assert(data.len() / 4 == w * h);
    assert forall|j: int| 0 <= j < w * h implies #[trigger] gray_plane(data)[j] == gray_plane(
        data,
    )[0] by {
        assert(data[4 * j + 1] == data[1]);
        assert(data[4 * 0int + 1] == data[1]);
        assert(gray_at(data, j) == gray_at(data, 0));
    }
}

/// Blurring a constant grayscale plane leaves it constant: the kernel
/// weights sum to 16, so the rounded weighted average of a constant is
/// that constant, and the border copies it.
proof fn lemma_blur_uniform(g: Seq<u8>, w: int, h: int)
    requires
        g.len() == w * h,
        w >= 3,
        h >= 3,
        forall|j: int| 0 <= j < g.len() ==> #[trigger] g[j] == g[0],
    ensures
        forall|i: int| 0 <= i < g.len() ==> #[trigger] blur_plane(g, w, h)[i] == g[0],
{
    assert forall|i: int| 0 <= i < g.len() implies #[trigger] blur_plane(g, w, h)[i] == g[0] by {
        let x = i % w;
        let y = i / w;
        vstd::arithmetic::div_mod::lemma_mod_bound(i, w);
        vstd::arithmetic::div_mod::lemma_div_pos_is_pos(i, w);
        assert(w * h == h * w) by (nonlinear_arith);
        vstd::arithmetic::div_mod::lemma_multiply_divide_lt(i, w, h);
        if interior(w, h, x, y) {
            lemma_grid_index(w, h, x - 1, y - 1);
            lemma_grid_index(w, h, x, y - 1);
            lemma_grid_index(w, h, x + 1, y - 1);
            lemma_grid_index(w, h, x - 1, y);
            lemma_grid_index(w, h, x + 1, y);
            lemma_grid_index(w, h, x - 1, y + 1);
            lemma_grid_index(w, h, x, y + 1);
            lemma_grid_index(w, h, x + 1, y + 1);
            assert(blur_at(g, w, x, y) == ((16 * (g[0] as int) + 8) / 16));
            assert(blur_at(g, w, x, y) == g[0] as int);
        }
    }
}

/// The square root of zero, rounded, is zero.
proof fn lemma_rounded_sqrt_zero()
    ensures
        rounded_sqrt(0) == 0,
{
    assert(rounded_sqrt(0) == rsqrt_from(0, 0));
}

/// Edge detection on a flat-color image produces an all-zero-magnitude
/// interior in either mode: every interior color byte of the output is
/// zero (the interior alpha is 255 in binary mode and the original alpha
/// otherwise).
pub proof fn lemma_edge_uniform_interior_zero(
    data: Seq<u8>,
    w: int,
    h: int,
    mode: EdgeMode,
    x: int,
    y: int,
    ch: int,
)
    requires
        data.len() == 4 * (w * h),
        w >= 3,
        h >= 3,
        uniform_rgb(data),
        interior(w, h, x, y),
        0 <= ch < 3,
    ensures
        edge_spec(data, w, h, mode)[4 * (y * w + x) + ch] == 0,
{
    let src = edge_source(data, w, h, mode);
    let g0 = gray_plane(data);
    lemma_uniform_gray(data, w, h);
    assert(g0.len() == w * h);
    assert forall|j: int| 0 <= j < g0.len() implies #[trigger] g0[j] == g0[0] by {}
    match mode {
        EdgeMode::BinaryThreshold => {
            lemma_blur_uniform(g0, w, h);
            assert forall|j: int| 0 <= j < src.len() implies #[trigger] src[j] == g0[0] by {}
        },
        EdgeMode::ContinuousMagnitude => {},
    }
    lemma_grid_index(w, h, x - 1, y - 1);
    lemma_grid_index(w, h, x, y - 1);
    lemma_grid_index(w, h, x + 1, y - 1);
    lemma_grid_index(w, h, x - 1, y);
    lemma_grid_index(w, h, x, y);
    lemma_grid_index(w, h, x + 1, y);
    lemma_grid_index(w, h, x - 1, y + 1);
    lemma_grid_index(w, h, x, y + 1);
    lemma_grid_index(w, h, x + 1, y + 1);
    assert(w * h == h * w) by (nonlinear_arith);
    assert(gx_at(src, w, x, y) == 0);
    assert(gy_at(src, w, x, y) == 0);
    lemma_rounded_sqrt_zero();
    assert(magnitude_at(src, w, x, y) == 0);
    lemma_byte_decomp(w, x, y, ch);
    let i = 4 * (y * w + x) + ch;
    assert(0 <= i < data.len());
    assert(edge_spec(data, w, h, mode)[i] == edge_byte(data, src, w, h, mode, i));
    assert(edge_byte(data, src, w, h, mode, i) == 0);
}

/// Edge detection is deterministic: the output is a function of the
/// buffer, the dimensions and the mode alone, so equal inputs give
/// byte-identical outputs.
pub proof fn lemma_edge_deterministic(
    a: Seq<u8>,
    b: Seq<u8>,
    w: int,
    h: int,
    mode: EdgeMode,
)
    requires
        a == b,
    ensures
        edge_spec(a, w, h, mode) == edge_spec(b, w, h, mode),
{
}

/// The horizontal mirror of an RGBA buffer of width `w`: pixel `(x, y)`
/// holds what pixel `(w - 1 - x, y)` held, channels in place.
pub open spec fn hmirrored(data: Seq<u8>, w: int) -> Seq<u8> {
    Seq::new(
        data.len(),
        |i: int|
            {
                let j = i / 4;
                let ch = i % 4;
                let x = j % w;
                let y = j / w;
                data[4 * (y * w + (w - 1 - x)) + ch]
            },
    )
}

/// A grayscale plane equal to its own horizontal mirror.
spec fn plane_sym(g: Seq<u8>, w: int, h: int) -> bool {
    forall|x: int, y: int|
        0 <= x < w && 0 <= y < h ==> g[y * w + (w - 1 - x)] == #[trigger] g[y * w + x]
}

proof fn lemma_data_sym_bytes(data: Seq<u8>, w: int, h: int)
    requires
        data.len() == 4 * (w * h),
        w >= 1,
        h >= 1,
        hmirrored(data, w) == data,
    ensures
        forall|x: int, y: int|
            0 <= x < w && 0 <= y < h ==> {
                &&& #[trigger] data[4 * (y * w + x)] == data[4 * (y * w + (w - 1 - x))]
                &&& data[4 * (y * w + x) + 1] == data[4 * (y * w + (w - 1 - x)) + 1]
                &&& data[4 * (y * w + x) + 2] == data[4 * (y * w + (w - 1 - x)) + 2]
                &&& data[4 * (y * w + x) + 3] == data[4 * (y * w + (w - 1 - x)) + 3]
            },
{
    assert(w * h == h * w) by (nonlinear_arith);
    assert forall|x: int, y: int| 0 <= x < w && 0 <= y < h implies {
        &&& #[trigger] data[4 * (y * w + x)] == data[4 * (y * w + (w - 1 - x))]
        &&& data[4 * (y * w + x) + 1] == data[4 * (y * w + (w - 1 - x)) + 1]
        &&& data[4 * (y * w + x) + 2] == data[4 * (y * w + (w - 1 - x)) + 2]
        &&& data[4 * (y * w + x) + 3] == data[4 * (y * w + (w - 1 - x)) + 3]
    } by {
        lemma_grid_index(w, h, x, y);
        lemma_byte_decomp(w, x, y, 0);
        lemma_byte_decomp(w, x, y, 1);
        lemma_byte_decomp(w, x, y, 2);
        lemma_byte_decomp(w, x, y, 3);
        assert(data[4 * (y * w + x)] == hmirrored(data, w)[4 * (y * w + x) + 0]);
        assert(data[4 * (y * w + x) + 1] == hmirrored(data, w)[4 * (y * w + x) + 1]);
        assert(data[4 * (y * w + x) + 2] == hmirrored(data, w)[4 * (y * w + x) + 2]);
        assert(data[4 * (y * w + x) + 3] == hmirrored(data, w)[4 * (y * w + x) + 3]);
    }
}

proof fn lemma_gray_sym(data: Seq<u8>, w: int, h: int)
    requires
        data.len() == 4 * (w * h),
        w >= 1,
        h >= 1,
        hmirrored(data, w) == data,
    ensures
        plane_sym(gray_plane(data), w, h),
{
    lemma_data_sym_bytes(data, w, h);
    assert(w * h == h * w) by (nonlinear_arith);
    assert(data.len() / 4 == w * h);
    assert forall|x: int, y: int| 0 <= x < w && 0 <= y < h implies gray_plane(data)[y * w + (w - 1
        - x)] == #[trigger] gray_plane(data)[y * w + x] by {
        lemma_grid_index(w, h, x, y);
        lemma_grid_index(w, h, w - 1 - x, y);
        assert(data[4 * (y * w + x)] == data[4 * (y * w + (w - 1 - x))]);
        assert(gray_at(data, y * w + (w - 1 - x)) == gray_at(data, y * w + x));
    }
}

proof fn lemma_blur_sym(g: Seq<u8>, w: int, h: int)
    requires
        g.len() == w * h,
        w >= 3,
        h >= 3,
        plane_sym(g, w, h),
    ensures
        plane_sym(blur_plane(g, w, h), w, h),
{
    assert(w * h == h * w) by (nonlinear_arith);
    assert forall|x: int, y: int| 0 <= x < w && 0 <= y < h implies blur_plane(g, w, h)[y * w + (w
        - 1 - x)] == #[trigger] blur_plane(g, w, h)[y * w + x] by {
        let x2 = w - 1 - x;
        lemma_grid_index(w, h, x, y);
        lemma_grid_index(w, h, x2, y);
        lemma_byte_decomp(w, x, y, 0);
        lemma_byte_decomp(w, x2, y, 0);
        if interior(w, h, x, y) {
            lemma_grid_index(w, h, x - 1, y - 1);
            lemma_grid_index(w, h, x + 1, y - 1);
            lemma_grid_index(w, h, x - 1, y + 1);
            lemma_grid_index(w, h, x + 1, y + 1);
            assert(g[(y - 1) * w + (x2 - 1)] == g[(y - 1) * w + (x + 1)]);
            assert(g[(y - 1) * w + x2] == g[(y - 1) * w + x]);
            assert(g[(y - 1) * w + (x2 + 1)] == g[(y - 1) * w + (x - 1)]);
            assert(g[y * w + (x2 - 1)] == g[y * w + (x + 1)]);
            assert(g[y * w + x2] == g[y * w + x]);
            assert(g[y * w + (x2 + 1)] == g[y * w + (x - 1)]);
            assert(g[(y + 1) * w + (x2 - 1)] == g[(y + 1) * w + (x + 1)]);
            assert(g[(y + 1) * w + x2] == g[(y + 1) * w + x]);
            assert(g[(y + 1) * w + (x2 + 1)] == g[(y + 1) * w + (x - 1)]);
            assert(blur_at(g, w, x2, y) == blur_at(g, w, x, y));
        } else {
            assert(g[y * w + x2] == g[y * w + x]);
        }
    }
}

/// Edge detection commutes with horizontal reflection; on an input that is
/// its own mirror image, the output is its own mirror image too, in either
/// mode.
pub proof fn lemma_edge_reflection_symmetric(data: Seq<u8>, w: int, h: int, mode: EdgeMode)
    requires
        data.len() == 4 * (w * h),
        w >= 3,
        h >= 3,
        hmirrored(data, w) == data,
    ensures
        hmirrored(edge_spec(data, w, h, mode), w) == edge_spec(data, w, h, mode),
{
    let src = edge_source(data, w, h, mode);
    let out = edge_spec(data, w, h, mode);
    assert(w * h == h * w) by (nonlinear_arith);
    lemma_gray_sym(data, w, h);
    lemma_data_sym_bytes(data, w, h);
    match mode {
        EdgeMode::BinaryThreshold => {
            lemma_blur_sym(gray_plane(data), w, h);
        },
        EdgeMode::ContinuousMagnitude => {},
    }
    assert(plane_sym(src, w, h));
    assert(src.len() == w * h);
    assert forall|i: int| 0 <= i < out.len() implies hmirrored(out, w)[i] == out[i] by {
        let j = i / 4;
        let ch = i % 4;
        vstd::arithmetic::div_mod::lemma_mod_bound(i, 4);
        vstd::arithmetic::div_mod::lemma_div_pos_is_pos(i, 4);
        assert(j < w * h);
        let x = j % w;
        let y = j / w;
        vstd::arithmetic::div_mod::lemma_mod_bound(j, w);
        vstd::arithmetic::div_mod::lemma_div_pos_is_pos(j, w);
        vstd::arithmetic::div_mod::lemma_multiply_divide_lt(j, w, h);
        vstd::arithmetic::div_mod::lemma_fundamental_div_mod(j, w);
        vstd::arithmetic::div_mod::lemma_fundamental_div_mod(i, 4);
        assert(w * y == y * w) by (nonlinear_arith);
        assert(j == y * w + x);
        assert(i == 4 * (y * w + x) + ch);
        let x2 = w - 1 - x;
        let j2 = y * w + x2;
        let i2 = 4 * j2 + ch;
        lemma_grid_index(w, h, x, y);
        lemma_grid_index(w, h, x2, y);
        lemma_byte_decomp(w, x, y, ch);
        lemma_byte_decomp(w, x2, y, ch);
        assert(hmirrored(out, w)[i] == out[i2]);
        assert(out[i] == edge_byte(data, src, w, h, mode, i));
        assert(out[i2] == edge_byte(data, src, w, h, mode, i2));
        assert(data[4 * (y * w + x)] == data[4 * (y * w + x2)]);
        if interior(w, h, x, y) && ch < 3 {
            lemma_grid_index(w, h, x - 1, y - 1);
            lemma_grid_index(w, h, x, y - 1);
            lemma_grid_index(w, h, x + 1, y - 1);
            lemma_grid_index(w, h, x - 1, y + 1);
            lemma_grid_index(w, h, x, y + 1);
            lemma_grid_index(w, h, x + 1, y + 1);
            assert(src[(y - 1) * w + (x2 - 1)] == src[(y - 1) * w + (x + 1)]);
            assert(src[(y - 1) * w + x2] == src[(y - 1) * w + x]);
            assert(src[(y - 1) * w + (x2 + 1)] == src[(y - 1) * w + (x - 1)]);
            assert(src[y * w + (x2 - 1)] == src[y * w + (x + 1)]);
            assert(src[y * w + (x2 + 1)] == src[y * w + (x - 1)]);
            assert(src[(y + 1) * w + (x2 - 1)] == src[(y + 1) * w + (x + 1)]);
            assert(src[(y + 1) * w + x2] == src[(y + 1) * w + x]);
            assert(src[(y + 1) * w + (x2 + 1)] == src[(y + 1) * w + (x - 1)]);
            let a = gx_at(src, w, x, y);
            assert(gx_at(src, w, x2, y) == -a);
            assert(gy_at(src, w, x2, y) == gy_at(src, w, x, y));
            assert((-a) * (-a) == a * a) by (nonlinear_arith);
            assert(sq(gx_at(src, w, x2, y)) == sq(a));
            assert(magnitude_at(src, w, x2, y) == magnitude_at(src, w, x, y));
        }
        assert(edge_byte(data, src, w, h, mode, i2) == edge_byte(data, src, w, h, mode, i));
    }
    assert(hmirrored(out, w) =~= out);
}

proof fn lemma_grid_index(w: int, h: int, x: int, y: int)
    by (nonlinear_arith)
    requires
        0 <= x < w,
        0 <= y < h,
    ensures
        0 <= y * w + x,
        y * w + x < h * w,
{
}

/// Recovers pixel coordinates and channel from a flat byte index.
proof fn lemma_byte_decomp(w: int, x: int, y: int, ch: int)
    requires
        0 <= x < w,
        0 <= y,
        0 <= ch < 4,
    ensures
        (4 * (y * w + x) + ch) / 4 == y * w + x,
        (4 * (y * w + x) + ch) % 4 == ch,
        (y * w + x) % w == x,
        (y * w + x) / w == y,
{
    lemma_fundamental_div_mod_converse(4 * (y * w + x) + ch, 4, y * w + x, ch);
    lemma_fundamental_div_mod_converse(y * w + x, w, y, x);
}

/// The grayscale plane of a buffer: per pixel the rounded mean of R, G
/// and B.
pub fn grayscale_plane(data: &Vec<u8>) -> (g: Vec<u8>)
    requires
        data@.len() % 4 == 0,
    ensures
        g@ == gray_plane(data@),
        g@.len() == data@.len() / 4,
{
    let n = data.len();
    let mut g: Vec<u8> = Vec::new();
    let mut j: usize = 0;
    while j < n / 4
        invariant
            n == data@.len(),
            n % 4 == 0,
            j <= n / 4,
            g@.len() == j,
            forall|jj: int| 0 <= jj < j ==> g@[jj] == gray_plane(data@)[jj],
        decreases n / 4 - j,
    {
        let base = 4 * j;
        let s: u32 = (data[base] as u32) + (data[base + 1] as u32) + (data[base + 2] as u32);
        g.push(((2 * s + 3) / 6) as u8);
        j = j + 1;
    }
    proof {
        assert(g@ =~= gray_plane(data@));
    }
    g
}

/// The 3x3 weighted-average blur of a grayscale plane; the one-pixel
/// border keeps its grayscale value.
pub fn blur(g: &Vec<u8>, width: usize, height: usize) -> (out: Vec<u8>)
    requires
        g@.len() == width * height,
        width >= 3,
        height >= 3,
    ensures
        out@ == blur_plane(g@, width as int, height as int),
{
    let w = width;
    let h = height;
    let n = g.len();
    let mut out: Vec<u8> = Vec::new();
    let mut y: usize = 0;
    while y < h
        invariant
            n == g@.len(),
            g@.len() == w * h,
            w >= 3,
            h >= 3,
            y <= h,
            out@.len() == y * w,
            forall|i: int| 0 <= i < y * w ==> out@[i] == blur_plane(g@, w as int, h as int)[i],
        decreases h - y,
    {
        let mut x: usize = 0;
        proof {
            lemma_grid_index(w as int, h as int, 0, y as int);
        }
        while x < w
            invariant
                n == g@.len(),
                g@.len() == w * h,
                w >= 3,
                h >= 3,
                y < h,
                x <= w,
                out@.len() == y * w + x,
                forall|i: int|
                    0 <= i < y * w + x ==> out@[i] == blur_plane(g@, w as int, h as int)[i],
            decreases w - x,
        {
            proof {
                lemma_grid_index(w as int, h as int, x as int, y as int);
                assert((h as int) * (w as int) == (w as int) * (h as int)) by (nonlinear_arith);
                lemma_fundamental_div_mod_converse(
                    (y * w + x) as int,
                    w as int,
                    y as int,
                    x as int,
                );
            }
            if x >= 1 && x + 1 < w && y >= 1 && y + 1 < h {
                proof {
                    lemma_grid_index(w as int, h as int, x as int - 1, y as int - 1);
                    lemma_grid_index(w as int, h as int, x as int, y as int - 1);
                    lemma_grid_index(w as int, h as int, x as int + 1, y as int - 1);
                    lemma_grid_index(w as int, h as int, x as int - 1, y as int);
                    lemma_grid_index(w as int, h as int, x as int + 1, y as int);
                    lemma_grid_index(w as int, h as int, x as int - 1, y as int + 1);
                    lemma_grid_index(w as int, h as int, x as int, y as int + 1);
                    lemma_grid_index(w as int, h as int, x as int + 1, y as int + 1);
                }
                let rm = (y - 1) * w;
                let r0 = y * w;
                let rp = (y + 1) * w;
                let acc: u32 = (g[rm + x - 1] as u32) + 2 * (g[rm + x] as u32) + (g[rm + x
                    + 1] as u32) + 2 * (g[r0 + x - 1] as u32) + 4 * (g[r0 + x] as u32) + 2 * (g[r0
                    + x + 1] as u32) + (g[rp + x - 1] as u32) + 2 * (g[rp + x] as u32) + (g[rp + x
                    + 1] as u32);
                proof {
                    assert(((acc + 8) / 16) as int == blur_at(g@, w as int, x as int, y as int));
                }
                out.push(((acc + 8) / 16) as u8);
            } else {
                out.push(g[y * w + x]);
            }
            x = x + 1;
        }
        y = y + 1;
        proof {
            assert(y * w == (y - 1) * w + w) by (nonlinear_arith);
        }
    }
    proof {
        assert((h as int) * (w as int) == (w as int) * (h as int)) by (nonlinear_arith);
        assert(out@ =~= blur_plane(g@, w as int, h as int));
    }
    out
}

/// `round(sqrt(v))` by upward scan; exact for every magnitude the Sobel
/// kernels can produce.
fn rounded_sqrt_exec(v: u64) -> (m: u64)
    requires
        v <= 2_080_800,
    ensures
        m as int == rounded_sqrt(v as int),
        m <= 1443,
{
    let mut m: u64 = 0;
    while m * m + m < v
        invariant
            v <= 2_080_800,
            m <= 1443,
            m * m <= 2_082_249,
            rsqrt_from(v as int, m as int) == rounded_sqrt(v as int),
        decreases v - m,
    {
        proof {
            assert(m <= 1442) by (nonlinear_arith)
                requires
                    m * m + m < 2_080_801,
                    0 <= m,
            ;
            assert(0 <= (m as int) * (m as int)) by (nonlinear_arith);
            assert(((m as int) + 1) * ((m as int) + 1) <= 2_082_249) by (nonlinear_arith)
                requires
                    0 <= m as int <= 1442,
            ;
        }
        m = m + 1;
    }
    m
}

/// Detects edges: grayscale, optional blur, 3x3 Sobel magnitude; the mode
/// picks thresholding and alpha handling. Rejects a buffer whose length
/// does not match the dimensions, and dimensions under 3, which leave no
/// pixel with a full 3x3 neighborhood.
pub fn edge_detection(data: &Vec<u8>, width: u32, height: u32, mode: EdgeMode) -> (out: Result<
    Vec<u8>,
    TransformError,
>)
    ensures
        match out {
            Ok(o) => dims_match(data@, width as int, height as int) && width >= 3 && height >= 3
                && o@ == edge_spec(data@, width as int, height as int, mode) && o@.len()
                == data@.len(),
            Err(e) => match e {
                TransformError::LengthMismatch => !dims_match(
                    data@,
                    width as int,
                    height as int,
                ),
                TransformError::ImageTooSmall => dims_match(data@, width as int, height as int)
                    && (width < 3 || height < 3),
            },
        },
{
    if !crate::check_dims(data, width, height) {
        return Err(TransformError::LengthMismatch);
    }
    if width < 3 || height < 3 {
        return Err(TransformError::ImageTooSmall);
    }
    proof {
        let wi = width as int;
        let hi = height as int;
        assert((4 * wi) * hi == 4 * (wi * hi)) by (nonlinear_arith);
        assert((4 * (wi * hi)) % 4 == 0);
        assert(data@.len() / 4 == wi * hi);
    }
    let w = width as usize;
    let h = height as usize;
    let n = data.len();
    let gray = grayscale_plane(data);
    let src = match mode {
        EdgeMode::BinaryThreshold => blur(&gray, w, h),
        EdgeMode::ContinuousMagnitude => gray,
    };
    let ghost srcv = edge_source(data@, w as int, h as int, mode);
    proof {
        assert(src@ == srcv);
        assert(srcv.len() == w * h);
    }
    let mut out: Vec<u8> = Vec::new();
    let mut y: usize = 0;
    while y < h
        invariant
            n == data@.len(),
            data@.len() == 4 * (w * h),
            w >= 3,
            h >= 3,
            src@ == srcv,
            srcv.len() == w * h,
            y <= h,
            out@.len() == 4 * (y * w),
            forall|i: int|
                0 <= i < 4 * (y * w) ==> out@[i] == edge_byte(
                    data@,
                    srcv,
                    w as int,
                    h as int,
                    mode,
                    i,
                ),
        decreases h - y,
    {
        let mut x: usize = 0;
        proof {
            lemma_grid_index(w as int, h as int, 0, y as int);
        }
        while x < w
            invariant
                n == data@.len(),
                data@.len() == 4 * (w * h),
                w >= 3,
                h >= 3,
                src@ == srcv,
                srcv.len() == w * h,
                y < h,
                x <= w,
                out@.len() == 4 * (y * w + x),
                forall|i: int|
                    0 <= i < 4 * (y * w + x) ==> out@[i] == edge_byte(
                        data@,
                        srcv,
                        w as int,
                        h as int,
                        mode,
                        i,
                    ),
            decreases w - x,
        {
            proof {
                lemma_grid_index(w as int, h as int, x as int, y as int);
                assert((h as int) * (w as int) == (w as int) * (h as int)) by (nonlinear_arith);
                lemma_byte_decomp(w as int, x as int, y as int, 0);
                lemma_byte_decomp(w as int, x as int, y as int, 1);
                lemma_byte_decomp(w as int, x as int, y as int, 2);
                lemma_byte_decomp(w as int, x as int, y as int, 3);
            }
            let j = y * w + x;
            if x >= 1 && x + 1 < w && y >= 1 && y + 1 < h {
                proof {
                    lemma_grid_index(w as int, h as int, x as int - 1, y as int - 1);
                    lemma_grid_index(w as int, h as int, x as int, y as int - 1);
                    lemma_grid_index(w as int, h as int, x as int + 1, y as int - 1);
                    lemma_grid_index(w as int, h as int, x as int - 1, y as int);
                    lemma_grid_index(w as int, h as int, x as int + 1, y as int);
                    lemma_grid_index(w as int, h as int, x as int - 1, y as int + 1);
                    lemma_grid_index(w as int, h as int, x as int, y as int + 1);
                    lemma_grid_index(w as int, h as int, x as int + 1, y as int + 1);
                }
                let rm = (y - 1) * w;
                let r0 = y * w;
                let rp = (y + 1) * w;
                let gx: i64 = -(src[rm + x - 1] as i64) + (src[rm + x + 1] as i64) - 2 * (src[r0 + x
                    - 1] as i64) + 2 * (src[r0 + x + 1] as i64) - (src[rp + x - 1] as i64) + (
                src[rp + x + 1] as i64);
                let gy: i64 = -(src[rm + x - 1] as i64) - 2 * (src[rm + x] as i64) - (src[rm + x
                    + 1] as i64) + (src[rp + x - 1] as i64) + 2 * (src[rp + x] as i64) + (src[rp + x
                    + 1] as i64);
                proof {
                    assert(gx as int == gx_at(srcv, w as int, x as int, y as int));
                    assert(gy as int == gy_at(srcv, w as int, x as int, y as int));
                    crate::color::lemma_sq_bounds(gx as int, 1020);
                    crate::color::lemma_sq_bounds(gy as int, 1020);
                }
                let v: u64 = ((gx * gx) as u64) + ((gy * gy) as u64);
                let rs = rounded_sqrt_exec(v);
                let mag: u64 = if rs > 255 {
                    255
                } else {
                    rs
                };
                proof {
                    assert(mag as int == magnitude_at(srcv, w as int, x as int, y as int));
                }
                match mode {
                    EdgeMode::BinaryThreshold => {
                        let e: u8 = if mag > EDGE_THRESHOLD {
                            255
                        } else {
                            0
                        };
                        out.push(e);
                        out.push(e);
                        out.push(e);
                        out.push(255);
                    },
                    EdgeMode::ContinuousMagnitude => {
                        out.push(mag as u8);
                        out.push(mag as u8);
                        out.push(mag as u8);
                        out.push(data[4 * j + 3]);
                    },
                }
            } else {
                match mode {
                    EdgeMode::BinaryThreshold => {
                        out.push(0);
                        out.push(0);
                        out.push(0);
                        out.push(0);
                    },
                    EdgeMode::ContinuousMagnitude => {
                        out.push(0);
                        out.push(0);
                        out.push(0);
                        out.push(data[4 * j + 3]);
                    },
                }
            }
            x = x + 1;
            proof {
                assert(4 * ((y * w + x - 1) + 1) == 4 * (y * w + x - 1) + 4);
            }
        }
        y = y + 1;
        proof {
            assert(y * w == (y - 1) * w + w) by (nonlinear_arith);
        }
    }
    proof {
        assert(h * w == w * h) by (nonlinear_arith);
        assert(out@.len() == data@.len());
        assert forall|i: int| 0 <= i < data@.len() implies out@[i] == edge_spec(
            data@,
            w as int,
            h as int,
            mode,
        )[i] by {
            assert(out@[i] == edge_byte(data@, srcv, w as int, h as int, mode, i));
        }
        assert(out@ =~= edge_spec(data@, w as int, h as int, mode));
    }
    Ok(out)
}

} // verus!
