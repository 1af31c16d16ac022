//! Turning a linear colour into a packed display pixel.
//!
//! A channel of a linear colour lies in `[0, 255]`. Its display level is the
//! whole part of `sqrt(channel / 255) * 255`, that is of `sqrt(255 * channel)`,
//! kept inside `[0, 255]`. The level is computed exactly from the channel's bit
//! pattern: the whole part of a square root is the whole root of the whole
//! part.

use vstd::prelude::*;
use vstd::arithmetic::div_mod::lemma_div_is_ordered;
use vstd::arithmetic::power2::{lemma_pow2_pos, lemma_pow2_strictly_increases, pow2};
use crate::scalar::{lemma_scaled_monotone, Scalar, Vec3, HIDDEN_BIT, SIGN_BIT};

verus! {

/// A packed pixel: `blue | green << 8 | red << 16`.
pub type Color = u32;

/// The highest level of a channel.
pub const CHANNEL_MAX: u32 = 255;

/// Bit pattern of 255, the full channel.
pub const FULL_BITS: u32 = 0x437f_0000;

/// `255 * 255`: where the gamma curve reaches the highest level.
pub const GAMMA_TOP: u32 = 65025;

/// A linear colour: `x` is red, `y` is green, `z` is blue.
pub type ColorVec = Vec3;

/// The pixel with the given channel levels.
pub open spec fn packed(red: int, green: int, blue: int) -> int {
    blue + green * 256 + red * 65536
}

/// The greatest `r` with `r * r <= q`.
pub open spec fn whole_root(q: nat) -> nat
    decreases q,
{
    if q == 0 {
        0
    } else {
        let r = whole_root((q - 1) as nat);
        if (r + 1) * (r + 1) <= q {
            r + 1
        } else {
            r
        }
    }
}

/// Whether a channel counts as zero or less: a NaN, a negative number or a
/// zero of either sign.
pub open spec fn dark(x: Scalar) -> bool {
    x.nan() || x.bits >= SIGN_BIT || x.bits == 0
}

/// The channel kept inside `[0, 255]` and cut to its whole part; 0 for a NaN.
pub open spec fn truncated(x: Scalar) -> int {
    if dark(x) {
        0
    } else if x.floor_times(1) >= CHANNEL_MAX {
        CHANNEL_MAX as int
    } else {
        x.floor_times(1)
    }
}

/// The display level of a linear channel: the whole part of
/// `sqrt(255 * x)`, at most 255; 0 for a NaN and for every negative number.
pub open spec fn gamma_corrected(x: Scalar) -> int {
    if dark(x) {
        0
    } else if x.floor_times(255) >= GAMMA_TOP {
        CHANNEL_MAX as int
    } else {
        whole_root(x.floor_times(255) as nat) as int
    }
}

/// The pixel of a colour whose channels are display levels already.
pub open spec fn color_uncorrected(v: ColorVec) -> int {
    packed(truncated(v.x), truncated(v.y), truncated(v.z))
}

/// The pixel of a linear colour.
pub open spec fn color_of(v: ColorVec) -> int {
    packed(gamma_corrected(v.x), gamma_corrected(v.y), gamma_corrected(v.z))
}

pub(crate) fn pack(red: u32, green: u32, blue: u32) -> (color: Color)
    requires
        red <= CHANNEL_MAX,
        green <= CHANNEL_MAX,
        blue <= CHANNEL_MAX,
    ensures
        color == packed(red as int, green as int, blue as int),
        color <= 0xff_ffff,
{
    let color = blue | (green << 8) | (red << 16);
    assert(color == blue + green * 256 + red * 65536 && color <= 0xff_ffff) by (bit_vector)
        requires
            red <= 255,
            green <= 255,
            blue <= 255,
            color == blue | (green << 8) | (red << 16),
    ;
    color
}

/// The level of a channel that is a display level already.
pub fn clamp_channel(x: Scalar) -> (level: u32)
    ensures
        level == truncated(x),
        level <= CHANNEL_MAX,
{
    if x.is_nan() || x.to_bits() >= SIGN_BIT || x.to_bits() == 0 {
        return 0;
    }
    match x.floor_of_multiple(1) {
        None => CHANNEL_MAX,
        Some(whole) => if whole >= CHANNEL_MAX {
            CHANNEL_MAX
        } else {
            whole
        },
    }
}

/// The greatest `r` with `r * r <= q`, for `q` below `256 * 256`.
fn root_below_256(q: u32) -> (r: u32)
    requires
        q < 65536,
    ensures
        r == whole_root(q as nat),
        r <= CHANNEL_MAX,
{
    let mut low: u32 = 0;
    let mut high: u32 = 256;
    while high - low > 1
        invariant
            low < high <= 256,
            low * low <= q < high * high,
        decreases high - low,
    {
        let middle: u32 = (low + high) / 2;
        assert(middle * middle <= 65536) by (nonlinear_arith)
            requires
                middle <= 256,
        ;
        if middle * middle <= q {
            low = middle;
        } else {
            high = middle;
        }
    }
    proof {
        lemma_whole_root_is(q as nat, low as nat);
    }
    low
}

/// The display level of a linear channel.
pub fn gamma_channel(x: Scalar) -> (level: u32)
    ensures
        level == gamma_corrected(x),
        level <= CHANNEL_MAX,
{
    if x.is_nan() || x.to_bits() >= SIGN_BIT || x.to_bits() == 0 {
        return 0;
    }
    match x.floor_of_multiple(255) {
        None => {
            proof {
                lemma_floor_of_large(x);
            }
            CHANNEL_MAX
        },
        Some(whole) => {
            proof {
                lemma_floor_below(x);
            }
            if whole >= GAMMA_TOP {
                CHANNEL_MAX
            } else {
                root_below_256(whole)
            }
        },
    }
}

/// Packs a colour whose channels are display levels already, without gamma
/// correction.
pub fn vec3_to_color_uncorrected(v: &ColorVec) -> (color: Color)
    ensures
        color == color_uncorrected(*v),
        color <= 0xff_ffff,
{
    pack(clamp_channel(v.x), clamp_channel(v.y), clamp_channel(v.z))
}

/// Encodes a linear colour for display: gamma correction on each channel,
/// then packing.
pub fn vec3_to_color(v: &ColorVec) -> (color: Color)
    ensures
        color == color_of(*v),
        color <= 0xff_ffff,
{
    pack(gamma_channel(v.x), gamma_channel(v.y), gamma_channel(v.z))
}

/// `whole_root(q)` squared is at most `q`, and the next square is beyond `q`.
pub proof fn lemma_whole_root_bounds(q: nat)
    ensures
        whole_root(q) * whole_root(q) <= q < (whole_root(q) + 1) * (whole_root(q) + 1),
    decreases q,
{
    let w = whole_root(q);
    if q > 0 {
        lemma_whole_root_bounds((q - 1) as nat);
        let r = whole_root((q - 1) as nat);
        assert(r * r <= q - 1 < (r + 1) * (r + 1));
        if (r + 1) * (r + 1) <= q {
            assert(w == r + 1);
            assert(w * w == (r + 1) * (r + 1));
            assert((r + 1) * (r + 1) < (w + 1) * (w + 1)) by (nonlinear_arith)
                requires
                    w == r + 1,
                    r >= 0,
            ;
        } else {
            assert(w == r);
            assert(w * w == r * r);
            assert((w + 1) * (w + 1) == (r + 1) * (r + 1));
        }
    } else {
        assert(w == 0);
        assert(w * w == 0);
        assert((w + 1) * (w + 1) == 1) by (nonlinear_arith)
            requires
                w == 0,
        ;
    }
}

/// The only `r` whose square is at most `q` while the next square is beyond
/// `q` is `whole_root(q)`.
pub proof fn lemma_whole_root_is(q: nat, r: nat)
    requires
        r * r <= q < (r + 1) * (r + 1),
    ensures
        whole_root(q) == r,
{
    lemma_whole_root_bounds(q);
    let w = whole_root(q);
    if w < r {
        assert((w + 1) * (w + 1) <= r * r) by (nonlinear_arith)
            requires
                w + 1 <= r,
        ;
    }
    if r < w {
        assert((r + 1) * (r + 1) <= w * w) by (nonlinear_arith)
            requires
                r + 1 <= w,
        ;
    }
}

/// A greater number has no smaller whole root.
pub proof fn lemma_whole_root_monotone(p: nat, q: nat)
    requires
        p <= q,
    ensures
        whole_root(p) <= whole_root(q),
{
    lemma_whole_root_bounds(p);
    lemma_whole_root_bounds(q);
    let a = whole_root(p);
    let b = whole_root(q);
    if b < a {
        assert((b + 1) * (b + 1) <= a * a) by (nonlinear_arith)
            requires
                b + 1 <= a,
        ;
    }
}

/// From 256 on, 255 times the magnitude is beyond the top of the gamma curve.
proof fn lemma_floor_of_large(x: Scalar)
    requires
        x.floor_times(1) >= 256,
    ensures
        x.floor_times(255) >= 65280,
{
    let unit = pow2(149) as int;
    lemma_pow2_pos(149);
    vstd::arithmetic::div_mod::lemma_fundamental_div_mod(x.scaled(), unit);
    assert(1 * x.scaled() == x.scaled());
    assert(255 * x.scaled() >= 65280 * unit) by (nonlinear_arith)
        requires
            x.scaled() == unit * (x.scaled() / unit) + x.scaled() % unit,
            x.scaled() / unit >= 256,
            x.scaled() % unit >= 0,
            unit > 0,
    ;
    lemma_div_is_ordered(65280 * unit, 255 * x.scaled(), unit);
    vstd::arithmetic::div_mod::lemma_div_multiples_vanish(65280, unit);
    assert(65280 * unit == unit * 65280) by (nonlinear_arith);
}

/// Below 256, 255 times the magnitude is below `256 * 256`.
proof fn lemma_floor_below(x: Scalar)
    requires
        x.exponent_field() < 135,
    ensures
        0 <= x.floor_times(255) < 65536,
{
    let e = x.exponent_field();
    lemma_scaled_monotone(x, x);
    lemma_pow2_pos(149);
    vstd::arithmetic::power2::lemma2_to64();
    vstd::arithmetic::power2::lemma_pow2_adds(8, 149);
    vstd::arithmetic::power2::lemma_pow2_adds(24, 133);
    vstd::arithmetic::power2::lemma_pow2_adds(23, 126);
    assert(x.scaled() < 256 * pow2(149)) by {
        if e > 0 {
            let low = (e - 1) as nat;
            if low < 133 {
                lemma_pow2_strictly_increases(low, 133);
            }
            lemma_pow2_pos(low);
            assert((HIDDEN_BIT + x.fraction_field()) * pow2(low) < 0x100_0000 * pow2(133))
                by (nonlinear_arith)
                requires
                    0 <= x.fraction_field() < 0x80_0000,
                    0 < pow2(low) <= pow2(133),
            ;
        } else {
            lemma_pow2_strictly_increases(23, 149);
        }
    }
    assert(0 <= 255 * x.scaled() < 65536 * pow2(149)) by (nonlinear_arith)
        requires
            0 <= x.scaled() < 256 * pow2(149),
            pow2(149) > 0,
    ;
    vstd::arithmetic::div_mod::lemma_div_pos_is_pos(255 * x.scaled(), pow2(149) as int);
    vstd::arithmetic::div_mod::lemma_multiply_divide_lt(
        255 * x.scaled(),
        pow2(149) as int,
        65536,
    );
}

/// A greater magnitude gives no smaller whole part of its multiple.
proof fn lemma_floor_monotone(x: Scalar, y: Scalar, factor: int)
    requires
        x.magnitude() <= y.magnitude(),
        0 <= factor,
    ensures
        0 <= x.floor_times(factor) <= y.floor_times(factor),
{
    lemma_scaled_monotone(x, y);
    lemma_pow2_pos(149);
    assert(0 <= factor * x.scaled() <= factor * y.scaled()) by (nonlinear_arith)
        requires
            0 <= x.scaled() <= y.scaled(),
            0 <= factor,
    ;
    lemma_div_is_ordered(factor * x.scaled(), factor * y.scaled(), pow2(149) as int);
    vstd::arithmetic::div_mod::lemma_div_pos_is_pos(factor * x.scaled(), pow2(149) as int);
}

/// The gamma curve reaches the highest level at `255 * 255`.
proof fn lemma_root_of_top()
    ensures
        whole_root(GAMMA_TOP as nat) == CHANNEL_MAX,
{
    assert(255 * 255 == 65025 && 256 * 256 == 65536) by (nonlinear_arith);
    lemma_whole_root_is(65025, 255);
}

/// Neither encoding of a channel ever falls when the channel rises.
pub proof fn lemma_channel_monotone(x: Scalar, y: Scalar)
    requires
        x.at_most(y),
    ensures
        0 <= gamma_corrected(x) <= gamma_corrected(y) <= CHANNEL_MAX,
        0 <= truncated(x) <= truncated(y) <= CHANNEL_MAX,
{
    lemma_root_of_top();
    lemma_floor_monotone(y, y, 255);
    lemma_floor_monotone(y, y, 1);
    if y.floor_times(255) < GAMMA_TOP {
        lemma_whole_root_monotone(y.floor_times(255) as nat, GAMMA_TOP as nat);
    }
    if !dark(x) {
        lemma_floor_monotone(x, y, 255);
        lemma_floor_monotone(x, y, 1);
        if y.floor_times(255) < GAMMA_TOP {
            lemma_whole_root_monotone(x.floor_times(255) as nat, y.floor_times(255) as nat);
        } else if x.floor_times(255) < GAMMA_TOP {
            lemma_whole_root_monotone(x.floor_times(255) as nat, GAMMA_TOP as nat);
        }
    }
}

/// Encoding is monotonic in each channel: where no channel falls, the levels
/// of the pixel do not fall, and neither does the packed pixel. A channel may
/// also stay as it is, whatever it holds.
pub proof fn lemma_color_monotone(a: ColorVec, b: ColorVec)
    requires
        a.x == b.x || a.x.at_most(b.x),
        a.y == b.y || a.y.at_most(b.y),
        a.z == b.z || a.z.at_most(b.z),
    ensures
        gamma_corrected(a.x) <= gamma_corrected(b.x),
        gamma_corrected(a.y) <= gamma_corrected(b.y),
        gamma_corrected(a.z) <= gamma_corrected(b.z),
        color_of(a) <= color_of(b),
        color_uncorrected(a) <= color_uncorrected(b),
{
    if a.x != b.x {
        lemma_channel_monotone(a.x, b.x);
    }
    if a.y != b.y {
        lemma_channel_monotone(a.y, b.y);
    }
    if a.z != b.z {
        lemma_channel_monotone(a.z, b.z);
    }
}

/// The display level is the whole part of the square root of 255 times the
/// channel: its square is at most that product and the next square is beyond
/// it, unless the level is the highest. Both sides are times two to the
/// power 149 here, as `scaled` is.
pub proof fn lemma_gamma_is_root_of_product(x: Scalar)
    requires
        !dark(x),
    ensures
        ({
            let level = gamma_corrected(x);
            let unit = pow2(149) as int;
            &&& 0 <= level <= CHANNEL_MAX
            &&& level * level * unit <= 255 * x.scaled()
            &&& level < CHANNEL_MAX ==> 255 * x.scaled() < (level + 1) * (level + 1) * unit
        }),
{
    let level = gamma_corrected(x);
    let unit = pow2(149) as int;
    let product = 255 * x.scaled();
    let whole = x.floor_times(255);
    lemma_pow2_pos(149);
    lemma_scaled_monotone(x, x);
    lemma_root_of_top();
    vstd::arithmetic::div_mod::lemma_fundamental_div_mod(product, unit);
    vstd::arithmetic::div_mod::lemma_div_pos_is_pos(product, unit);
    assert(whole * unit <= product < (whole + 1) * unit) by (nonlinear_arith)
        requires
            product == unit * whole + product % unit,
            0 <= product % unit < unit,
    ;
    if whole >= GAMMA_TOP {
        assert(level * level * unit <= whole * unit) by (nonlinear_arith)
            requires
                level == 255,
                whole >= 65025,
                unit > 0,
        ;
    } else {
        lemma_whole_root_bounds(whole as nat);
        lemma_whole_root_monotone(whole as nat, GAMMA_TOP as nat);
        assert(level * level * unit <= whole * unit) by (nonlinear_arith)
            requires
                level * level <= whole,
                unit > 0,
        ;
        assert((whole + 1) * unit <= (level + 1) * (level + 1) * unit) by (nonlinear_arith)
            requires
                whole + 1 <= (level + 1) * (level + 1),
                unit > 0,
        ;
    }
}

/// The two ends of the scale: a channel of zero or less is encoded as 0,
/// and a channel of 255 or more as 255, with or without gamma correction. So
/// black is packed as 0 and full white as `0xFFFFFF`.
pub proof fn lemma_ends_of_the_scale(x: Scalar)
    ensures
        x.at_most(Scalar::zero()) ==> gamma_corrected(x) == 0 && truncated(x) == 0,
        (Scalar { bits: FULL_BITS }).at_most(x) ==> gamma_corrected(x) == CHANNEL_MAX && truncated(
            x,
        ) == CHANNEL_MAX,
        packed(0, 0, 0) == 0,
        packed(CHANNEL_MAX as int, CHANNEL_MAX as int, CHANNEL_MAX as int) == 0xff_ffff,
{
    let full = Scalar { bits: FULL_BITS };
    assert(full.magnitude() == FULL_BITS);
    assert(full.exponent_field() == 134);
    assert(full.fraction_field() == 0x7f_0000);
    vstd::arithmetic::power2::lemma2_to64();
    vstd::arithmetic::power2::lemma_pow2_adds(16, 133);
    lemma_pow2_pos(149);
    let unit = pow2(149) as int;
    assert(full.scaled() == unit * 255) by (nonlinear_arith)
        requires
            full.scaled() == (0x80_0000 + 0x7f_0000) * pow2(133),
            unit == 65536 * pow2(133),
    ;
    assert(255 * full.scaled() == unit * 65025) by (nonlinear_arith)
        requires
            full.scaled() == unit * 255,
    ;
    assert(1 * full.scaled() == unit * 255);
    vstd::arithmetic::div_mod::lemma_div_multiples_vanish(65025, unit);
    vstd::arithmetic::div_mod::lemma_div_multiples_vanish(255, unit);
    assert(gamma_corrected(full) == CHANNEL_MAX);
    assert(truncated(full) == CHANNEL_MAX);
    if full.at_most(x) {
        lemma_channel_monotone(full, x);
    }
}

} // verus!
