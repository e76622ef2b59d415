//! Color triples at the three channel widths the pipeline needs:
//! unsigned 8-bit for source and palette colors, signed 16-bit for carried
//! dithering error, and unsigned 32-bit for accumulated channel sums.

use vstd::prelude::*;

verus! {

/// An RGB color with unsigned 8-bit channels: the form source pixels and
/// palette entries take.
#[derive(Clone, Copy, Debug, PartialEq, Eq, Structural)]
pub struct IRgb {
    pub r: u8,
    pub g: u8,
    pub b: u8,
}

/// The square of an integer.
pub open spec fn sq(x: int) -> int {
    x * x
}

/// The perceptual squared distance between two colors:
/// `3*dr^2 + 6*dg^2 + db^2`, weighting the channels by how sensitive human
/// vision is to each (green > red > blue).
pub open spec fn spec_color_diff(a: IRgb, b: IRgb) -> int {
    3 * sq(a.r - b.r) + 6 * sq(a.g - b.g) + sq(a.b - b.b)
}

impl IRgb {
    /// Builds a color from `[r, g, b]`.
    pub fn from_array(arr: [u8; 3]) -> (c: IRgb)
        ensures
            c.r == arr[0] && c.g == arr[1] && c.b == arr[2],
    {
        IRgb { r: arr[0], g: arr[1], b: arr[2] }
    }

    /// Hands the channels back as `[r, g, b]`.
    pub fn get_inner(&self) -> (arr: [u8; 3])
        ensures
            arr[0] == self.r && arr[1] == self.g && arr[2] == self.b,
    {
        [self.r, self.g, self.b]
    }

    /// The perceptual squared distance to `rhs`.
    pub fn color_diff(self, rhs: IRgb) -> (d: u32)
        ensures
            d == spec_color_diff(self, rhs),
    {
        let dr: i32 = self.r as i32 - rhs.r as i32;
        let dg: i32 = self.g as i32 - rhs.g as i32;
        let db: i32 = self.b as i32 - rhs.b as i32;
        proof {
            assert(0 <= dr * dr <= 255 * 255 && 0 <= dg * dg <= 255 * 255 && 0 <= db * db
                <= 255 * 255) by (nonlinear_arith)
                requires
                    -255 <= dr <= 255,
                    -255 <= dg <= 255,
                    -255 <= db <= 255,
            ;
        }
        let dr2: i32 = dr * dr;
        let dg2: i32 = dg * dg;
        let db2: i32 = db * db;
        (3 * dr2 + 6 * dg2 + db2) as u32
    }
}

/// Division truncating toward zero, the way machine division of signed
/// integers rounds.
pub open spec fn trunc_div(a: int, b: int) -> int {
    if a >= 0 {
        a / b
    } else {
        -((-a) / b)
    }
}

/// `x` forced into `[lo, hi]`.
pub open spec fn spec_clamp(x: int, lo: int, hi: int) -> int {
    if x < lo {
        lo
    } else if x > hi {
        hi
    } else {
        x
    }
}

/// An RGB value with signed 16-bit channels: the form the carried dithering
/// error takes, wide enough to hold sums and differences of 8-bit channels.
#[derive(Clone, Copy, Debug, PartialEq, Eq, Structural)]
pub struct ErrRgb {
    pub r: i16,
    pub g: i16,
    pub b: i16,
}

impl ErrRgb {
    /// Builds an error value from `[r, g, b]`.
    pub fn from_array(arr: [i16; 3]) -> (c: ErrRgb)
        ensures
            c.r == arr[0] && c.g == arr[1] && c.b == arr[2],
    {
        ErrRgb { r: arr[0], g: arr[1], b: arr[2] }
    }

    /// Widens a source color channel-for-channel; exact, since every 8-bit
    /// value fits in 16 signed bits.
    pub fn from_irgb(c: IRgb) -> (e: ErrRgb)
        ensures
            e.r == c.r && e.g == c.g && e.b == c.b,
    {
        ErrRgb { r: c.r as i16, g: c.g as i16, b: c.b as i16 }
    }

    /// Forces every channel into `[min, max]`.
    pub fn clamp(&mut self, min: i16, max: i16)
        requires
            min <= max,
        ensures
            final(self).r == spec_clamp(old(self).r as int, min as int, max as int),
            final(self).g == spec_clamp(old(self).g as int, min as int, max as int),
            final(self).b == spec_clamp(old(self).b as int, min as int, max as int),
    {
        self.r = clamp_channel(self.r, min, max);
        self.g = clamp_channel(self.g, min, max);
        self.b = clamp_channel(self.b, min, max);
    }

    /// Narrows to an 8-bit color; exact when every channel already lies in
    /// `[0, 255]`.
    pub fn to_irgb(self) -> (c: IRgb)
        requires
            0 <= self.r <= 255 && 0 <= self.g <= 255 && 0 <= self.b <= 255,
        ensures
            c.r == self.r && c.g == self.g && c.b == self.b,
    {
        IRgb { r: self.r as u8, g: self.g as u8, b: self.b as u8 }
    }

    /// Adds `rhs` to every channel.
    pub fn add_scalar(self, rhs: i16) -> (c: ErrRgb)
        requires
            i16::MIN <= self.r + rhs <= i16::MAX,
            i16::MIN <= self.g + rhs <= i16::MAX,
            i16::MIN <= self.b + rhs <= i16::MAX,
        ensures
            c.r == self.r + rhs && c.g == self.g + rhs && c.b == self.b + rhs,
    {
        ErrRgb { r: self.r + rhs, g: self.g + rhs, b: self.b + rhs }
    }

    /// Subtracts `rhs` from every channel.
    pub fn sub_scalar(self, rhs: i16) -> (c: ErrRgb)
        requires
            i16::MIN <= self.r - rhs <= i16::MAX,
            i16::MIN <= self.g - rhs <= i16::MAX,
            i16::MIN <= self.b - rhs <= i16::MAX,
        ensures
            c.r == self.r - rhs && c.g == self.g - rhs && c.b == self.b - rhs,
    {
        ErrRgb { r: self.r - rhs, g: self.g - rhs, b: self.b - rhs }
    }

    /// Scales every channel by `rhs`.
    pub fn mul_scalar(self, rhs: i16) -> (c: ErrRgb)
        requires
            i16::MIN <= self.r * rhs <= i16::MAX,
            i16::MIN <= self.g * rhs <= i16::MAX,
            i16::MIN <= self.b * rhs <= i16::MAX,
        ensures
            c.r == self.r * rhs && c.g == self.g * rhs && c.b == self.b * rhs,
    {
        ErrRgb { r: self.r * rhs, g: self.g * rhs, b: self.b * rhs }
    }

    /// Divides every channel by `rhs`, truncating toward zero.
    pub fn div_scalar(self, rhs: i16) -> (c: ErrRgb)
        requires
            rhs > 0,
        ensures
            c.r == trunc_div(self.r as int, rhs as int),
            c.g == trunc_div(self.g as int, rhs as int),
            c.b == trunc_div(self.b as int, rhs as int),
    {
        ErrRgb { r: self.r / rhs, g: self.g / rhs, b: self.b / rhs }
    }
}

fn clamp_channel(x: i16, min: i16, max: i16) -> (y: i16)
    requires
        min <= max,
    ensures
        y == spec_clamp(x as int, min as int, max as int),
{
    if x < min {
        min
    } else if x > max {
        max
    } else {
        x
    }
}

/// Adds `other_color` into `color`, channel by channel.
pub fn add_colors(color: &mut ErrRgb, other_color: &ErrRgb)
    requires
        i16::MIN <= old(color).r + other_color.r <= i16::MAX,
        i16::MIN <= old(color).g + other_color.g <= i16::MAX,
        i16::MIN <= old(color).b + other_color.b <= i16::MAX,
    ensures
        final(color).r == old(color).r + other_color.r,
        final(color).g == old(color).g + other_color.g,
        final(color).b == old(color).b + other_color.b,
{
    color.r = color.r + other_color.r;
    color.g = color.g + other_color.g;
    color.b = color.b + other_color.b;
}

/// The channel-wise difference `color - other_color`.
pub fn sub_colors(color: &ErrRgb, other_color: &ErrRgb) -> (c: ErrRgb)
    requires
        i16::MIN <= color.r - other_color.r <= i16::MAX,
        i16::MIN <= color.g - other_color.g <= i16::MAX,
        i16::MIN <= color.b - other_color.b <= i16::MAX,
    ensures
        c.r == color.r - other_color.r,
        c.g == color.g - other_color.g,
        c.b == color.b - other_color.b,
{
    ErrRgb { r: color.r - other_color.r, g: color.g - other_color.g, b: color.b - other_color.b }
}

/// The channel-wise product `color * other_color`.
pub fn mul_colors(color: &ErrRgb, other_color: &ErrRgb) -> (c: ErrRgb)
    requires
        i16::MIN <= color.r * other_color.r <= i16::MAX,
        i16::MIN <= color.g * other_color.g <= i16::MAX,
        i16::MIN <= color.b * other_color.b <= i16::MAX,
    ensures
        c.r == color.r * other_color.r,
        c.g == color.g * other_color.g,
        c.b == color.b * other_color.b,
{
    ErrRgb { r: color.r * other_color.r, g: color.g * other_color.g, b: color.b * other_color.b }
}

/// The channel-wise quotient `color / other_color`, truncating toward zero.
pub fn div_colors(color: &ErrRgb, other_color: &ErrRgb) -> (c: ErrRgb)
    requires
        other_color.r > 0 && other_color.g > 0 && other_color.b > 0,
    ensures
        c.r == trunc_div(color.r as int, other_color.r as int),
        c.g == trunc_div(color.g as int, other_color.g as int),
        c.b == trunc_div(color.b as int, other_color.b as int),
{
    ErrRgb { r: color.r / other_color.r, g: color.g / other_color.g, b: color.b / other_color.b }
}

/// An RGB value with unsigned 32-bit channels: the accumulated channel sums a
/// tree node carries.
#[derive(Clone, Copy, Debug, PartialEq, Eq, Structural)]
pub struct SumRgb {
    pub r: u32,
    pub g: u32,
    pub b: u32,
}

impl SumRgb {
    /// The all-zero sum.
    pub fn zero() -> (s: SumRgb)
        ensures
            s.r == 0 && s.g == 0 && s.b == 0,
    {
        SumRgb { r: 0, g: 0, b: 0 }
    }

    /// Accumulates one 8-bit source color into the sums.
    pub fn accumulate(&mut self, c: IRgb)
        requires
            old(self).r + c.r <= u32::MAX,
            old(self).g + c.g <= u32::MAX,
            old(self).b + c.b <= u32::MAX,
        ensures
            final(self).r == old(self).r + c.r,
            final(self).g == old(self).g + c.g,
            final(self).b == old(self).b + c.b,
    {
        self.r = self.r + c.r as u32;
        self.g = self.g + c.g as u32;
        self.b = self.b + c.b as u32;
    }

    /// Adds another sum into this one.
    pub fn merge(&mut self, other: SumRgb)
        requires
            old(self).r + other.r <= u32::MAX,
            old(self).g + other.g <= u32::MAX,
            old(self).b + other.b <= u32::MAX,
        ensures
            final(self).r == old(self).r + other.r,
            final(self).g == old(self).g + other.g,
            final(self).b == old(self).b + other.b,
    {
        self.r = self.r + other.r;
        self.g = self.g + other.g;
        self.b = self.b + other.b;
    }
}

} // verus!
