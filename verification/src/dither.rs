//! The error-diffusion dithering engine.
//!
//! A run scans the image in raster order. For each pixel it corrects the
//! source color by the carried error, asks the tree for a palette index
//! (falling back to a brute-force nearest-color search on a miss), writes the
//! palette color out, and spreads the quantization residue over the
//! not-yet-visited neighbors according to the active kernel. Targets outside
//! the image are dropped; every fractional share truncates toward zero.

use vstd::prelude::*;

use vstd::arithmetic::div_mod::lemma_div_is_ordered;
use vstd::arithmetic::div_mod::lemma_fundamental_div_mod_converse;
use vstd::arithmetic::div_mod::lemma_div_multiples_vanish;
use vstd::arithmetic::mul::lemma_mul_inequality;

use crate::color::spec_clamp;
use crate::color::spec_color_diff;
use crate::color::trunc_div;
use crate::color::ErrRgb;
use crate::color::IRgb;

verus! {

/// The closed set of diffusion kernels a run can use.
#[derive(Clone, Copy, Debug, PartialEq, Eq, Structural)]
pub enum DitherMode {
    /// No dithering: each pixel maps straight to its palette color.
    Base,
    /// Floyd–Steinberg: right 7/16, below-left 3/16, below 5/16,
    /// below-right 1/16.
    FloydSteinberg,
    /// Sierra-Lite: right 2/4, below-left 1/4, below 1/4.
    SierraLite,
}

/// The kernel's numerator for each diffusion target: slot 0 is the pixel to
/// the right, 1 below-left, 2 below, 3 below-right.
pub open spec fn kernel_num(mode: DitherMode, slot: int) -> int {
    match mode {
        DitherMode::Base => 0,
        DitherMode::FloydSteinberg => (
        if slot == 0 {
            7int
        } else if slot == 1 {
            3int
        } else if slot == 2 {
            5int
        } else {
            1int
        }),
        DitherMode::SierraLite => (
        if slot == 0 {
            2int
        } else if slot == 1 {
            1int
        } else if slot == 2 {
            1int
        } else {
            0int
        }),
    }
}

/// The kernel's common denominator.
pub open spec fn kernel_den(mode: DitherMode) -> int {
    match mode {
        DitherMode::Base => 1,
        DitherMode::FloydSteinberg => 16,
        DitherMode::SierraLite => 4,
    }
}

/// The share of residual channel `e` that diffusion target `slot` receives.
pub open spec fn kernel_share(mode: DitherMode, e: int, slot: int) -> int {
    trunc_div(e * kernel_num(mode, slot), kernel_den(mode))
}

/// Everything a pixel injects into the error buffer, per channel: the four
/// targets' shares added up.
pub open spec fn injected_sum(mode: DitherMode, e: int) -> int {
    kernel_share(mode, e, 0) + kernel_share(mode, e, 1) + kernel_share(mode, e, 2) + kernel_share(
        mode,
        e,
        3,
    )
}

/// A truncated fraction keeps the sign of `e` and never exceeds it in
/// magnitude.
proof fn lemma_share_bounded(e: int, n: int, d: int)
    requires
        0 <= n <= d,
        0 < d,
    ensures
        e >= 0 ==> 0 <= trunc_div(e * n, d) <= e,
        e < 0 ==> e <= trunc_div(e * n, d) <= 0,
{
    if e >= 0 {
        lemma_mul_inequality(n, d, e);
        assert(e * n == n * e) by (nonlinear_arith);
        assert(e * d == d * e) by (nonlinear_arith);
        assert(e * n >= 0) by (nonlinear_arith)
            requires
                e >= 0,
                n >= 0,
        ;
        lemma_div_is_ordered(0, e * n, d);
        lemma_div_is_ordered(e * n, e * d, d);
        lemma_div_multiples_vanish(e, d);
    } else {
        let p = -e;
        lemma_mul_inequality(n, d, p);
        assert(p * n == n * p) by (nonlinear_arith);
        assert(p * d == d * p) by (nonlinear_arith);
        assert(p * n >= 0) by (nonlinear_arith)
            requires
                p >= 0,
                n >= 0,
        ;
        lemma_div_is_ordered(0, p * n, d);
        lemma_div_is_ordered(p * n, p * d, d);
        lemma_div_multiples_vanish(p, d);
        assert((-e) * n == -(e * n)) by (nonlinear_arith);
    }
}

/// What a pixel injects per channel stays between zero and its residual:
/// the truncated kernel fractions add up to at most one, so error diffusion
/// never amplifies the residual and never flips its sign.
pub proof fn lemma_diffusion_conserves(mode: DitherMode, e: int)
    ensures
        e >= 0 ==> 0 <= injected_sum(mode, e) <= e,
        e < 0 ==> e <= injected_sum(mode, e) <= 0,
{
    let d = kernel_den(mode);
    lemma_share_bounded(e, kernel_num(mode, 0), d);
    lemma_share_bounded(e, kernel_num(mode, 1), d);
    lemma_share_bounded(e, kernel_num(mode, 2), d);
    lemma_share_bounded(e, kernel_num(mode, 3), d);
    if e >= 0 {
        let q0 = (e * kernel_num(mode, 0)) / d;
        let q1 = (e * kernel_num(mode, 1)) / d;
        let q2 = (e * kernel_num(mode, 2)) / d;
        let q3 = (e * kernel_num(mode, 3)) / d;
        assert(e * kernel_num(mode, 0) + e * kernel_num(mode, 1) + e * kernel_num(mode, 2) + e
            * kernel_num(mode, 3) <= e * d) by (nonlinear_arith)
            requires
                e >= 0,
                kernel_num(mode, 0) + kernel_num(mode, 1) + kernel_num(mode, 2) + kernel_num(
                    mode,
                    3,
                ) <= d,
        ;
        assert(d * q0 <= e * kernel_num(mode, 0)) by {
            assert(e * kernel_num(mode, 0) == d * q0 + (e * kernel_num(mode, 0)) % d);
        }
        assert(d * q1 <= e * kernel_num(mode, 1)) by {
            assert(e * kernel_num(mode, 1) == d * q1 + (e * kernel_num(mode, 1)) % d);
        }
        assert(d * q2 <= e * kernel_num(mode, 2)) by {
            assert(e * kernel_num(mode, 2) == d * q2 + (e * kernel_num(mode, 2)) % d);
        }
        assert(d * q3 <= e * kernel_num(mode, 3)) by {
            assert(e * kernel_num(mode, 3) == d * q3 + (e * kernel_num(mode, 3)) % d);
        }
        assert(d * (q0 + q1 + q2 + q3) == d * q0 + d * q1 + d * q2 + d * q3) by (nonlinear_arith);
        assert(d * (q0 + q1 + q2 + q3) <= e * d);
        assert(q0 + q1 + q2 + q3 <= e) by (nonlinear_arith)
            requires
                d > 0,
                d * (q0 + q1 + q2 + q3) <= e * d,
        ;
    }
}

/// Adds the carried error to a source color and clamps every channel back
/// into the representable range: the *corrected color* of a pixel.
pub fn apply_error_with_dither(err_color: ErrRgb, color: IRgb) -> (corrected: IRgb)
    ensures
        corrected.r == spec_clamp(color.r + err_color.r, 0, 255),
        corrected.g == spec_clamp(color.g + err_color.g, 0, 255),
        corrected.b == spec_clamp(color.b + err_color.b, 0, 255),
{
    IRgb {
        r: clamp_to_u8(color.r as i32 + err_color.r as i32),
        g: clamp_to_u8(color.g as i32 + err_color.g as i32),
        b: clamp_to_u8(color.b as i32 + err_color.b as i32),
    }
}

fn clamp_to_u8(v: i32) -> (c: u8)
    ensures
        c == spec_clamp(v as int, 0, 255),
{
    if v < 0 {
        0
    } else if v > 255 {
        255
    } else {
        v as u8
    }
}

/// The index `nearest_color_from_palette` answers with.
pub open spec fn spec_nearest(palette: Seq<IRgb>, rgb: IRgb, close_enough: int) -> int
    decreases palette.len(),
{
    spec_nearest_from(palette, rgb, close_enough, 0, 0)
}

pub open spec fn spec_nearest_from(palette: Seq<IRgb>, rgb: IRgb, close_enough: int, i: int, best: int) -> int
    decreases palette.len() - i,
    when 0 <= i && 0 <= best
{
    if i >= palette.len() {
        best
    } else if spec_color_diff(palette[i], rgb) < close_enough {
        i
    } else if spec_color_diff(palette[i], rgb) < spec_color_diff(palette[best], rgb) {
        spec_nearest_from(palette, rgb, close_enough, i + 1, i)
    } else {
        spec_nearest_from(palette, rgb, close_enough, i + 1, best)
    }
}

/// Scans the palette for the entry perceptually closest to `rgb`: the first
/// entry within squared distance `close_enough` wins at once; otherwise the
/// first entry of smallest distance wins after a full scan. Exists because
/// diffused error can synthesize colors the tree never indexed.
pub fn nearest_color_from_palette(palette: &Vec<IRgb>, rgb: IRgb, close_enough: u32) -> (best: usize)
    requires
        palette@.len() > 0,
    ensures
        best < palette@.len(),
        best == spec_nearest(palette@, rgb, close_enough as int),
        spec_color_diff(palette@[best as int], rgb) < close_enough ==> forall|j: int|
            0 <= j < best ==> spec_color_diff(palette@[j], rgb) >= close_enough,
        spec_color_diff(palette@[best as int], rgb) >= close_enough ==> forall|j: int|
            0 <= j < palette@.len() ==> spec_color_diff(palette@[j], rgb) >= spec_color_diff(
                palette@[best as int],
                rgb,
            ) && spec_color_diff(palette@[j], rgb) >= close_enough,
{
    let mut smallest_diff: u32 = u32::MAX;
    let mut best: usize = 0;
    let mut i: usize = 0;
    // The scan keeps the first index of smallest distance seen so far and
    // leaves early the moment an entry falls within `close_enough`.
    while i < palette.len()
        invariant
            palette@.len() > 0,
            i <= palette@.len(),
            best <= i,
            best < palette@.len() || (i == 0 && best == 0),
            i > 0 ==> smallest_diff == spec_color_diff(palette@[best as int], rgb),
            i == 0 ==> smallest_diff == u32::MAX,
            forall|j: int| 0 <= j < i ==> spec_color_diff(palette@[j], rgb) >= close_enough,
            forall|j: int| 0 <= j < i ==> spec_color_diff(palette@[j], rgb) >= smallest_diff,
            forall|j: int| 0 <= j < best ==> spec_color_diff(palette@[j], rgb) > smallest_diff,
            spec_nearest(palette@, rgb, close_enough as int) == spec_nearest_from(
                palette@,
                rgb,
                close_enough as int,
                i as int,
                best as int,
            ),
        decreases palette@.len() - i,
    {
        let diff = palette[i].color_diff(rgb);
        if diff < close_enough {
            assert(spec_nearest_from(
                palette@,
                rgb,
                close_enough as int,
                i as int,
                best as int,
            ) == i);
            return i;
        }
        if diff < smallest_diff {
            smallest_diff = diff;
            best = i;
        }
        i = i + 1;
    }
    best
}

/// A carried-error triple as unbounded integers, for specification.
pub ghost struct ErrInt {
    pub r: int,
    pub g: int,
    pub b: int,
}

/// The error buffer's contents as unbounded integers.
pub open spec fn buf_ints(b: Seq<ErrRgb>) -> Seq<ErrInt> {
    Seq::new(b.len(), |j: int| ErrInt { r: b[j].r as int, g: b[j].g as int, b: b[j].b as int })
}

/// `e` with each channel grown by target `slot`'s share of residual `d`.
pub open spec fn spec_add_share(e: ErrInt, mode: DitherMode, d: ErrInt, slot: int) -> ErrInt {
    ErrInt {
        r: e.r + kernel_share(mode, d.r, slot),
        g: e.g + kernel_share(mode, d.g, slot),
        b: e.b + kernel_share(mode, d.b, slot),
    }
}

/// The error buffer after pixel `(x, y)` diffuses residual `e`: each
/// in-bounds kernel neighbor gains its share, targets outside the image are
/// dropped, and the pixel's own slot — its error now consumed — is zeroed.
pub open spec fn spec_diffuse(
    buf: Seq<ErrInt>,
    mode: DitherMode,
    w: int,
    h: int,
    x: int,
    y: int,
    e: ErrInt,
) -> Seq<ErrInt> {
    let i = y * w + x;
    Seq::new(
        buf.len(),
        |j: int|
            if j == i {
                ErrInt { r: 0, g: 0, b: 0 }
            } else if x + 1 < w && j == i + 1 {
                spec_add_share(buf[j], mode, e, 0)
            } else if y + 1 < h && x > 0 && j == i + w - 1 {
                spec_add_share(buf[j], mode, e, 1)
            } else if y + 1 < h && j == i + w {
                spec_add_share(buf[j], mode, e, 2)
            } else if y + 1 < h && x + 1 < w && j == i + w + 1 {
                spec_add_share(buf[j], mode, e, 3)
            } else {
                buf[j]
            },
    )
}

/// Diffusion never reaches outside the image: only the consumed pixel's own
/// slot and its in-bounds kernel neighbors change, and a pixel in the last
/// row and column changes no slot but its own.
pub proof fn lemma_diffusion_in_bounds(
    buf: Seq<ErrInt>,
    mode: DitherMode,
    w: int,
    h: int,
    x: int,
    y: int,
    e: ErrInt,
)
    requires
        0 <= x < w,
        0 <= y < h,
        buf.len() == w * h,
    ensures
        spec_diffuse(buf, mode, w, h, x, y, e).len() == buf.len(),
        forall|j: int|
            0 <= j < buf.len() && #[trigger] spec_diffuse(buf, mode, w, h, x, y, e)[j] != buf[j]
                ==> j == y * w + x || (x + 1 < w && j == y * w + x + 1) || (y + 1 < h && x > 0 && j
                == y * w + x + w - 1) || (y + 1 < h && j == y * w + x + w) || (y + 1 < h && x + 1
                < w && j == y * w + x + w + 1),
        x == w - 1 && y == h - 1 ==> forall|j: int|
            0 <= j < buf.len() && j != y * w + x ==> #[trigger] spec_diffuse(
                buf,
                mode,
                w,
                h,
                x,
                y,
                e,
            )[j] == buf[j],
{
}

/// The truncated share of each channel of `e`, numerator `n` over
/// denominator `d`.
fn share_of(e: ErrRgb, n: i32, d: i32, mode: DitherMode, Ghost(slot): Ghost<int>) -> (s: ErrRgb)
    requires
        -255 <= e.r <= 255,
        -255 <= e.g <= 255,
        -255 <= e.b <= 255,
        0 <= n <= d,
        0 < d,
        n == kernel_num(mode, slot),
        d == kernel_den(mode),
    ensures
        s.r == kernel_share(mode, e.r as int, slot),
        s.g == kernel_share(mode, e.g as int, slot),
        s.b == kernel_share(mode, e.b as int, slot),
        -255 <= s.r <= 255,
        -255 <= s.g <= 255,
        -255 <= s.b <= 255,
{
    proof {
        lemma_share_bounded(e.r as int, n as int, d as int);
        lemma_share_bounded(e.g as int, n as int, d as int);
        lemma_share_bounded(e.b as int, n as int, d as int);
    }
    ErrRgb {
        r: ((e.r as i32 * n) / d) as i16,
        g: ((e.g as i32 * n) / d) as i16,
        b: ((e.b as i32 * n) / d) as i16,
    }
}

/// Adds `s` into slot `t` of the buffer.
fn add_into(error_vec: &mut Vec<ErrRgb>, t: usize, s: ErrRgb)
    requires
        t < old(error_vec)@.len(),
        -1020 - 255 <= old(error_vec)@[t as int].r + s.r <= 1020 + 255,
        -1020 - 255 <= old(error_vec)@[t as int].g + s.g <= 1020 + 255,
        -1020 - 255 <= old(error_vec)@[t as int].b + s.b <= 1020 + 255,
    ensures
        final(error_vec)@ == old(error_vec)@.update(
            t as int,
            ErrRgb {
                r: (old(error_vec)@[t as int].r + s.r) as i16,
                g: (old(error_vec)@[t as int].g + s.g) as i16,
                b: (old(error_vec)@[t as int].b + s.b) as i16,
            },
        ),
{
    let mut v = error_vec[t];
    v.r = v.r + s.r;
    v.g = v.g + s.g;
    v.b = v.b + s.b;
    error_vec.set(t, v);
}

/// Spreads residual `error_color` of pixel `(x, y)` into the error buffer
/// according to the active kernel, dropping targets outside the image, and
/// zeroes the pixel's own slot.
pub fn diffuse_error(
    error_vec: &mut Vec<ErrRgb>,
    mode: DitherMode,
    width: usize,
    height: usize,
    x: usize,
    y: usize,
    error_color: ErrRgb,
)
    requires
        mode != DitherMode::Base,
        x < width,
        y < height,
        old(error_vec)@.len() == width * height,
        -255 <= error_color.r <= 255,
        -255 <= error_color.g <= 255,
        -255 <= error_color.b <= 255,
        forall|j: int|
            0 <= j < old(error_vec)@.len() ==> {
                &&& -1020 <= (#[trigger] old(error_vec)@[j]).r <= 1020
                &&& -1020 <= old(error_vec)@[j].g <= 1020
                &&& -1020 <= old(error_vec)@[j].b <= 1020
            },
    ensures
        final(error_vec)@.len() == old(error_vec)@.len(),
        buf_ints(final(error_vec)@) == spec_diffuse(
            buf_ints(old(error_vec)@),
            mode,
            width as int,
            height as int,
            x as int,
            y as int,
            ErrInt { r: error_color.r as int, g: error_color.g as int, b: error_color.b as int },
        ),
{
    let ghost pre = buf_ints(old(error_vec)@);
    let ghost e = ErrInt {
        r: error_color.r as int,
        g: error_color.g as int,
        b: error_color.b as int,
    };
    let n = error_vec.len();
    proof {
        assert(y * width + x < width * height && (x + 1 < width ==> y * width + x + 1 < width
            * height) && (y + 1 < height ==> y * width + x + width + 1 <= width * height) && (y + 1
            < height && x + 1 < width ==> y * width + x + width + 1 < width * height))
            by (nonlinear_arith)
            requires
                x < width,
                y < height,
        ;
        assert(y * width + x < n);
    }
    let i = y * width + x;
    let num0: i32;
    let num1: i32;
    let num2: i32;
    let num3: i32;
    let den: i32;
    match mode {
        DitherMode::FloydSteinberg => {
            num0 = 7;
            num1 = 3;
            num2 = 5;
            num3 = 1;
            den = 16;
        },
        DitherMode::SierraLite => {
            num0 = 2;
            num1 = 1;
            num2 = 1;
            num3 = 0;
            den = 4;
        },
        DitherMode::Base => {
            num0 = 0;
            num1 = 0;
            num2 = 0;
            num3 = 0;
            den = 1;
        },
    }
    if x + 1 < width {
        let s = share_of(error_color, num0, den, mode, Ghost(0));
        assert(error_vec@.len() == n);
        add_into(error_vec, i + 1, s);
    }
    if y + 1 < height {
        if x > 0 {
            let s = share_of(error_color, num1, den, mode, Ghost(1));
            assert(error_vec@.len() == n);
            add_into(error_vec, i + width - 1, s);
        }
        let s = share_of(error_color, num2, den, mode, Ghost(2));
        assert(error_vec@.len() == n);
        add_into(error_vec, i + width, s);
        if x + 1 < width {
            let s = share_of(error_color, num3, den, mode, Ghost(3));
            assert(error_vec@.len() == n);
            add_into(error_vec, i + width + 1, s);
        }
    }
    let z = ErrRgb { r: 0, g: 0, b: 0 };
    assert(error_vec@.len() == n);
    error_vec.set(i, z);
    proof {
        let post = spec_diffuse(
            pre,
            mode,
            width as int,
            height as int,
            x as int,
            y as int,
            e,
        );
        assert forall|j: int| 0 <= j < pre.len() implies buf_ints(error_vec@)[j] == post[j] by {
        }
        assert(buf_ints(error_vec@) =~= post);
    }
}

/// How many already-visited pixels can have diffused error into slot `j` by
/// the time the scan reaches pixel `i`: at most its left, upper-right,
/// upper, and upper-left neighbors, each counted once it lies before `i`.
pub open spec fn spec_sources_before(w: int, j: int, i: int) -> int {
    (if j % w != 0 && j - 1 < i {
        1int
    } else {
        0int
    }) + (if j >= w && j - w < i {
        1int
    } else {
        0int
    }) + (if j >= w && (j + 1) % w != 0 && j - w + 1 < i {
        1int
    } else {
        0int
    }) + (if j >= w && j % w != 0 && j - w - 1 < i {
        1int
    } else {
        0int
    })
}

/// The palette index chosen for a pixel: the tree answers the lookup of
/// `lookup_color` with fallback, an answer past the populated palette clamps
/// to the last entry, and a miss falls back to the nearest palette entry to
/// `miss_color`.
pub open spec fn spec_pick(
    tree: crate::octree::LeafOctree,
    palette: Seq<IRgb>,
    close_enough: int,
    lookup_color: IRgb,
    miss_color: IRgb,
) -> int {
    match tree.spec_palette_index(lookup_color, true) {
        Some(pi) => if pi < palette.len() {
            pi as int
        } else {
            palette.len() - 1
        },
        None => spec_nearest(palette, miss_color, close_enough),
    }
}

/// What a base-mode run writes: each source pixel mapped straight to its
/// palette color, with no error carried anywhere.
pub open spec fn spec_base_output(
    tree: crate::octree::LeafOctree,
    palette: Seq<IRgb>,
    close_enough: int,
    src: Seq<IRgb>,
) -> Seq<IRgb> {
    Seq::new(
        src.len(),
        |k: int| palette[spec_pick(tree, palette, close_enough, src[k], src[k])],
    )
}

/// The engine's state after some pixels of a dithering run: the colors
/// written so far and the carried-error buffer.
pub ghost struct DitherState {
    pub out: Seq<IRgb>,
    pub buf: Seq<ErrInt>,
}

/// The error-diffusion dithering engine: the active kernel, the
/// "close enough" early-exit threshold of the nearest-color fallback, and
/// whether the diffused residual is measured against the error-corrected
/// color rather than the source color.
pub struct DitherEngine {
    pub mode: DitherMode,
    pub close_enough: u32,
    pub residual_from_corrected: bool,
}

/// One step of a dithering run: pixel `i` is corrected by its carried error,
/// mapped through the palette, and its residual diffused onward.
pub open spec fn spec_dither_step(
    eng: DitherEngine,
    tree: crate::octree::LeafOctree,
    palette: Seq<IRgb>,
    src: Seq<IRgb>,
    w: int,
    h: int,
    st: DitherState,
    i: int,
) -> DitherState {
    let x = i % w;
    let y = i / w;
    let e = st.buf[i];
    let corrected = IRgb {
        r: spec_clamp(src[i].r + e.r, 0, 255) as u8,
        g: spec_clamp(src[i].g + e.g, 0, 255) as u8,
        b: spec_clamp(src[i].b + e.b, 0, 255) as u8,
    };
    let pi = spec_pick(tree, palette, eng.close_enough as int, corrected, src[i]);
    let chosen = palette[pi];
    let base = if eng.residual_from_corrected {
        corrected
    } else {
        src[i]
    };
    let resid = ErrInt {
        r: base.r - chosen.r,
        g: base.g - chosen.g,
        b: base.b - chosen.b,
    };
    DitherState {
        out: st.out.push(chosen),
        buf: spec_diffuse(st.buf, eng.mode, w, h, x, y, resid),
    }
}

/// The engine's state once the first `i` pixels of a dithering run are done,
/// starting from an empty output and an all-zero error buffer.
pub open spec fn spec_dither_upto(
    eng: DitherEngine,
    tree: crate::octree::LeafOctree,
    palette: Seq<IRgb>,
    src: Seq<IRgb>,
    w: int,
    h: int,
    i: int,
) -> DitherState
    decreases i,
{
    if i <= 0 {
        DitherState {
            out: Seq::empty(),
            buf: Seq::new(src.len(), |j: int| ErrInt { r: 0, g: 0, b: 0 }),
        }
    } else {
        spec_dither_step(
            eng,
            tree,
            palette,
            src,
            w,
            h,
            spec_dither_upto(eng, tree, palette, src, w, h, i - 1),
            i - 1,
        )
    }
}

/// Resolves one pixel to a palette index, recovering from a lookup miss with
/// the brute-force nearest-color search and clamping an index past the
/// populated palette to the last entry.
fn pick_index(
    tree: &crate::octree::LeafOctree,
    palette: &Vec<IRgb>,
    close_enough: u32,
    lookup_color: IRgb,
    miss_color: IRgb,
) -> (pi: usize)
    requires
        tree.wf(),
        palette@.len() > 0,
    ensures
        pi == spec_pick(*tree, palette@, close_enough as int, lookup_color, miss_color),
        pi < palette@.len(),
{
    match tree.get_palette_index(lookup_color, true) {
        Some(pi) => if pi < palette.len() {
            pi
        } else {
            palette.len() - 1
        },
        None => nearest_color_from_palette(palette, miss_color, close_enough),
    }
}

impl DitherEngine {
    /// An engine with the given kernel, the customary close-enough threshold
    /// of 10, and the residual measured against the source color.
    pub fn new(mode: DitherMode) -> (eng: DitherEngine)
        ensures
            eng.mode == mode,
            eng.close_enough == 10,
            !eng.residual_from_corrected,
    {
        DitherEngine { mode, close_enough: 10, residual_from_corrected: false }
    }

    /// Renders the image through the palette: a raster scan that maps every
    /// pixel to a palette color, in base mode directly, otherwise correcting
    /// each pixel by its carried error and diffusing the residual onward.
    pub fn run(
        &self,
        tree: &crate::octree::LeafOctree,
        palette: &Vec<IRgb>,
        source: &Vec<IRgb>,
        width: usize,
        height: usize,
    ) -> (out: Vec<IRgb>)
        requires
            tree.wf(),
            palette@.len() > 0,
            source@.len() == width * height,
        ensures
            out@.len() == source@.len(),
            self.mode == DitherMode::Base ==> out@ == spec_base_output(
                *tree,
                palette@,
                self.close_enough as int,
                source@,
            ),
            self.mode != DitherMode::Base ==> out@ == spec_dither_upto(
                *self,
                *tree,
                palette@,
                source@,
                width as int,
                height as int,
                source@.len() as int,
            ).out,
    {
        let n = source.len();
        let mut out: Vec<IRgb> = Vec::new();
        if matches!(self.mode, DitherMode::Base) {
            let mut k: usize = 0;
            while k < n
                invariant
                    tree.wf(),
                    palette@.len() > 0,
                    n == source@.len(),
                    k <= n,
                    out@.len() == k,
                    forall|m: int|
                        0 <= m < k ==> out@[m] == spec_base_output(
                            *tree,
                            palette@,
                            self.close_enough as int,
                            source@,
                        )[m],
                decreases n - k,
            {
                let pi = pick_index(tree, palette, self.close_enough, source[k], source[k]);
                out.push(palette[pi]);
                k = k + 1;
            }
            proof {
                assert(out@ =~= spec_base_output(
                    *tree,
                    palette@,
                    self.close_enough as int,
                    source@,
                ));
            }
            return out;
        }
        let mut error_vec: Vec<ErrRgb> = Vec::new();
        while error_vec.len() < n
            invariant
                forall|j: int|
                    0 <= j < error_vec@.len() ==> #[trigger] error_vec@[j] == (ErrRgb {
                        r: 0i16,
                        g: 0i16,
                        b: 0i16,
                    }),
                error_vec@.len() <= n,
            decreases n - error_vec@.len(),
        {
            error_vec.push(ErrRgb { r: 0, g: 0, b: 0 });
        }
        let ghost w = width as int;
        let ghost h = height as int;
        let mut i: usize = 0;
        proof {
            assert(buf_ints(error_vec@) =~= spec_dither_upto(
                *self,
                *tree,
                palette@,
                source@,
                w,
                h,
                0,
            ).buf);
        }
        while i < n
            invariant
                tree.wf(),
                palette@.len() > 0,
                n == source@.len(),
                n == width * height,
                w == width as int,
                h == height as int,
                self.mode != DitherMode::Base,
                i <= n,
                out@.len() == i,
                error_vec@.len() == n,
                out@ == spec_dither_upto(*self, *tree, palette@, source@, w, h, i as int).out,
                buf_ints(error_vec@) == spec_dither_upto(
                    *self,
                    *tree,
                    palette@,
                    source@,
                    w,
                    h,
                    i as int,
                ).buf,
                forall|j: int|
                    0 <= j < n ==> {
                        &&& -255 * spec_sources_before(w, j, i as int)
                            <= (#[trigger] error_vec@[j]).r <= 255 * spec_sources_before(
                            w,
                            j,
                            i as int,
                        )
                        &&& -255 * spec_sources_before(w, j, i as int) <= error_vec@[j].g <= 255
                            * spec_sources_before(w, j, i as int)
                        &&& -255 * spec_sources_before(w, j, i as int) <= error_vec@[j].b <= 255
                            * spec_sources_before(w, j, i as int)
                    },
            decreases n - i,
        {
            proof {
                assert(width > 0) by (nonlinear_arith)
                    requires
                        i < n,
                        n == width * height,
                ;
            }
            let x = i % width;
            let y = i / width;
            proof {
                vstd::arithmetic::div_mod::lemma_fundamental_div_mod(i as int, w);
                assert(y < height) by (nonlinear_arith)
                    requires
                        i == width * y + x,
                        0 <= x < width,
                        i < width * height,
                        0 <= y,
                ;
            }
            let err = error_vec[i];
            let src_color = source[i];
            let corrected = apply_error_with_dither(err, src_color);
            let pi = pick_index(tree, palette, self.close_enough, corrected, src_color);
            let chosen = palette[pi];
            out.push(chosen);
            let base = if self.residual_from_corrected {
                corrected
            } else {
                src_color
            };
            let residual = ErrRgb {
                r: base.r as i16 - chosen.r as i16,
                g: base.g as i16 - chosen.g as i16,
                b: base.b as i16 - chosen.b as i16,
            };
            let ghost st = spec_dither_upto(*self, *tree, palette@, source@, w, h, i as int);
            diffuse_error(&mut error_vec, self.mode, width, height, x, y, residual);
            proof {
                let i1 = i as int;
                assert(spec_dither_upto(*self, *tree, palette@, source@, w, h, i1 + 1)
                    == spec_dither_step(*self, *tree, palette@, source@, w, h, st, i1));
                assert(i1 == (y as int) * w + (x as int)) by (nonlinear_arith)
                    requires
                        i1 == w * (y as int) + (x as int),
                ;
                lemma_diffuse_keeps_bound(
                    st.buf,
                    buf_ints(error_vec@),
                    self.mode,
                    w,
                    h,
                    x as int,
                    y as int,
                    ErrInt { r: residual.r as int, g: residual.g as int, b: residual.b as int },
                    i1,
                );
                assert forall|j: int| 0 <= j < n implies {
                    &&& -255 * spec_sources_before(w, j, i1 + 1) <= (#[trigger] error_vec@[j]).r
                        <= 255 * spec_sources_before(w, j, i1 + 1)
                    &&& -255 * spec_sources_before(w, j, i1 + 1) <= error_vec@[j].g <= 255
                        * spec_sources_before(w, j, i1 + 1)
                    &&& -255 * spec_sources_before(w, j, i1 + 1) <= error_vec@[j].b <= 255
                        * spec_sources_before(w, j, i1 + 1)
                } by {
                    assert(buf_ints(error_vec@)[j].r == error_vec@[j].r);
                    assert(buf_ints(error_vec@)[j].g == error_vec@[j].g);
                    assert(buf_ints(error_vec@)[j].b == error_vec@[j].b);
                }
            }
            i = i + 1;
        }
        out
    }
}

/// After pixel `i` diffuses, every buffer slot still holds at most 255 per
/// source pixel that has reached it: each slot pixel `i` wrote gained one
/// source, every other slot is unchanged, and the count never shrinks.
proof fn lemma_diffuse_keeps_bound(
    old_buf: Seq<ErrInt>,
    new_buf: Seq<ErrInt>,
    mode: DitherMode,
    w: int,
    h: int,
    x: int,
    y: int,
    resid: ErrInt,
    i: int,
)
    requires
        w > 0,
        0 <= x < w,
        0 <= y < h,
        i == y * w + x,
        old_buf.len() == w * h,
        new_buf == spec_diffuse(old_buf, mode, w, h, x, y, resid),
        -255 <= resid.r <= 255,
        -255 <= resid.g <= 255,
        -255 <= resid.b <= 255,
        forall|j: int|
            0 <= j < old_buf.len() ==> {
                &&& -255 * spec_sources_before(w, j, i) <= (#[trigger] old_buf[j]).r <= 255
                    * spec_sources_before(w, j, i)
                &&& -255 * spec_sources_before(w, j, i) <= old_buf[j].g <= 255
                    * spec_sources_before(w, j, i)
                &&& -255 * spec_sources_before(w, j, i) <= old_buf[j].b <= 255
                    * spec_sources_before(w, j, i)
            },
    ensures
        forall|j: int|
            0 <= j < new_buf.len() ==> {
                &&& -255 * spec_sources_before(w, j, i + 1) <= (#[trigger] new_buf[j]).r <= 255
                    * spec_sources_before(w, j, i + 1)
                &&& -255 * spec_sources_before(w, j, i + 1) <= new_buf[j].g <= 255
                    * spec_sources_before(w, j, i + 1)
                &&& -255 * spec_sources_before(w, j, i + 1) <= new_buf[j].b <= 255
                    * spec_sources_before(w, j, i + 1)
            },
{
    assert(0 <= kernel_num(mode, 0) <= kernel_den(mode) && 0 <= kernel_num(mode, 1) <= kernel_den(
        mode,
    ) && 0 <= kernel_num(mode, 2) <= kernel_den(mode) && 0 <= kernel_num(mode, 3) <= kernel_den(
        mode,
    ) && 0 < kernel_den(mode));
    assert forall|j: int| 0 <= j < new_buf.len() implies {
        &&& -255 * spec_sources_before(w, j, i + 1) <= (#[trigger] new_buf[j]).r <= 255
            * spec_sources_before(w, j, i + 1)
        &&& -255 * spec_sources_before(w, j, i + 1) <= new_buf[j].g <= 255 * spec_sources_before(
            w,
            j,
            i + 1,
        )
        &&& -255 * spec_sources_before(w, j, i + 1) <= new_buf[j].b <= 255 * spec_sources_before(
            w,
            j,
            i + 1,
        )
    } by {

        lemma_share_bounded(resid.r, kernel_num(mode, 0), kernel_den(mode));
        lemma_share_bounded(resid.g, kernel_num(mode, 0), kernel_den(mode));
        lemma_share_bounded(resid.b, kernel_num(mode, 0), kernel_den(mode));
        lemma_share_bounded(resid.r, kernel_num(mode, 1), kernel_den(mode));
        lemma_share_bounded(resid.g, kernel_num(mode, 1), kernel_den(mode));
        lemma_share_bounded(resid.b, kernel_num(mode, 1), kernel_den(mode));
        lemma_share_bounded(resid.r, kernel_num(mode, 2), kernel_den(mode));
        lemma_share_bounded(resid.g, kernel_num(mode, 2), kernel_den(mode));
        lemma_share_bounded(resid.b, kernel_num(mode, 2), kernel_den(mode));
        lemma_share_bounded(resid.r, kernel_num(mode, 3), kernel_den(mode));
        lemma_share_bounded(resid.g, kernel_num(mode, 3), kernel_den(mode));
        lemma_share_bounded(resid.b, kernel_num(mode, 3), kernel_den(mode));
        assert((y + 1) * w == y * w + w) by (nonlinear_arith);
        if j == i {
        } else if x + 1 < w && j == i + 1 {
            lemma_fundamental_div_mod_converse(j, w, y, x + 1);
        } else if y + 1 < h && x > 0 && j == i + w - 1 {
            lemma_fundamental_div_mod_converse(j, w, y + 1, x - 1);
            lemma_fundamental_div_mod_converse(j + 1, w, y + 1, x);
        } else if y + 1 < h && j == i + w {
            lemma_fundamental_div_mod_converse(j, w, y + 1, x);
        } else if y + 1 < h && x + 1 < w && j == i + w + 1 {
            lemma_fundamental_div_mod_converse(j, w, y + 1, x + 1);
        }
    }
}

} // verus!
