//! Pixels, fixed-point colour vectors, and the mapping between the two.
//!
//! A colour vector component counts units of `1 / (255 * ONE)` of full
//! intensity: an 8-bit sample `s` is the component `s * ONE`, and full
//! intensity is `FULL_SCALE`.

use vstd::prelude::*;

verus! {

/// The fixed-point representation of 1.0 for kernel weights, and the size of
/// one 8-bit level in a colour vector component: `2^60`.
pub const ONE: u64 = 1152921504606846976;

/// The colour vector component that stands for full intensity.
pub const FULL_SCALE: i128 = 293994983674745978880;

/// One pixel: four 8-bit samples, red, green, blue and alpha.
#[derive(Clone, Copy, Debug, PartialEq, Eq, Structural)]
pub struct Pixel {
    pub r: u8,
    pub g: u8,
    pub b: u8,
    pub a: u8,
}

/// A three-component colour in fixed point.
#[derive(Clone, Copy, Debug, PartialEq, Eq, Structural)]
pub struct ColorVector {
    pub x: i128,
    pub y: i128,
    pub z: i128,
}

/// `n` limited to the interval from `lo` to `hi`; `lo` wins where the
/// interval is empty and `n` lies below it.
pub open spec fn clamped(n: int, lo: int, hi: int) -> int {
    if n < lo {
        lo
    } else if n > hi {
        hi
    } else {
        n
    }
}

/// `c * w / ONE`, rounded toward zero.
pub open spec fn scaled(c: int, w: int) -> int {
    if c >= 0 {
        c * w / (ONE as int)
    } else {
        -((-c) * w / (ONE as int))
    }
}

/// The 8-bit level that a colour vector component maps to.
pub open spec fn component_level(c: int) -> int {
    clamped(c, 0, FULL_SCALE as int) / (ONE as int)
}

/// The colour of a pixel as a vector: each colour sample `s` becomes
/// `s * ONE`, which is `s / 255` of full intensity.
pub open spec fn vector_of(p: Pixel) -> ColorVector {
    ColorVector { x: (p.r * ONE) as i128, y: (p.g * ONE) as i128, z: (p.b * ONE) as i128 }
}

/// The opaque pixel of a vector: each component limited to the interval from
/// zero to full intensity, times 255, truncated.
pub open spec fn pixel_of(v: ColorVector) -> Pixel {
    Pixel {
        r: component_level(v.x as int) as u8,
        g: component_level(v.y as int) as u8,
        b: component_level(v.z as int) as u8,
        a: 255,
    }
}

/// Opaque black: the pixel of the zero vector.
pub open spec fn dark() -> Pixel {
    Pixel { r: 0, g: 0, b: 0, a: 255 }
}

/// The pixel with the same colour and full opacity.
pub open spec fn opaque(p: Pixel) -> Pixel {
    Pixel { r: p.r, g: p.g, b: p.b, a: 255 }
}

/// `min` where `n` lies below it, else `max` where `n` lies above it, else
/// `n`.
pub fn clamp(n: i128, min: i128, max: i128) -> (out: i128)
    ensures
        out == clamped(n as int, min as int, max as int),
{
    if n < min {
        min
    } else if n > max {
        max
    } else {
        n
    }
}

impl ColorVector {
    /// A component can hold `c`.
    pub open spec fn fits(c: int) -> bool {
        i128::MIN <= c <= i128::MAX
    }

    /// A component can hold `c * w` and its negative.
    pub open spec fn scales(c: int, w: int) -> bool {
        -i128::MAX <= c * w <= i128::MAX
    }

    /// The vector of no intensity.
    pub fn zero() -> (v: ColorVector)
        ensures
            v == (ColorVector { x: 0, y: 0, z: 0 }),
    {
        ColorVector { x: 0, y: 0, z: 0 }
    }

    /// Component-wise sum.
    pub fn add(self, other: ColorVector) -> (v: ColorVector)
        requires
            Self::fits(self.x + other.x),
            Self::fits(self.y + other.y),
            Self::fits(self.z + other.z),
        ensures
            v.x == self.x + other.x,
            v.y == self.y + other.y,
            v.z == self.z + other.z,
    {
        ColorVector { x: self.x + other.x, y: self.y + other.y, z: self.z + other.z }
    }

    /// Component-wise difference.
    pub fn sub(self, other: ColorVector) -> (v: ColorVector)
        requires
            Self::fits(self.x - other.x),
            Self::fits(self.y - other.y),
            Self::fits(self.z - other.z),
        ensures
            v.x == self.x - other.x,
            v.y == self.y - other.y,
            v.z == self.z - other.z,
    {
        ColorVector { x: self.x - other.x, y: self.y - other.y, z: self.z - other.z }
    }

    /// Every component multiplied by the fixed-point factor `weight / ONE`,
    /// rounded toward zero.
    pub fn scale(self, weight: u128) -> (v: ColorVector)
        requires
            weight <= i128::MAX,
            Self::scales(self.x as int, weight as int),
            Self::scales(self.y as int, weight as int),
            Self::scales(self.z as int, weight as int),
        ensures
            v.x == scaled(self.x as int, weight as int),
            v.y == scaled(self.y as int, weight as int),
            v.z == scaled(self.z as int, weight as int),
    {
        ColorVector {
            x: scale_component(self.x, weight),
            y: scale_component(self.y, weight),
            z: scale_component(self.z, weight),
        }
    }
}

fn scale_component(c: i128, weight: u128) -> (out: i128)
    requires
        weight <= i128::MAX,
        ColorVector::scales(c as int, weight as int),
    ensures
        out == scaled(c as int, weight as int),
{
    let w: i128 = weight as i128;
    if c >= 0 {
        assert(c * w >= 0) by (nonlinear_arith)
            requires
                c >= 0,
                w >= 0,
        ;
        (c * w) / (ONE as i128)
    } else if w == 0 {
        assert(c * w == 0 && (-c) * w == 0) by (nonlinear_arith)
            requires
                w == 0,
        ;
        0
    } else {
        assert((-c) * w == -(c * w) && -c <= (-c) * w) by (nonlinear_arith)
            requires
                c < 0,
                w >= 1,
        ;
        let q: i128 = ((-c) * w) / (ONE as i128);
        -q
    }
}

/// A colour sample as a vector component, scaled by a weight, is the plain
/// product of the sample and the weight.
pub proof fn lemma_scaled_sample(s: int, w: int)
    requires
        0 <= s,
        0 <= w,
    ensures
        scaled(s * ONE, w) == s * w,
{
    assert(s * ONE * w == (s * w) * ONE && 0 <= s * ONE) by (nonlinear_arith)
        requires
            0 <= s,
            0 <= w,
    ;
    vstd::arithmetic::div_mod::lemma_div_by_multiple(s * w, ONE as int);
}

/// The vector of a pixel scaled by the fixed-point factor `weight / ONE`.
/// The products of the samples and the weight are formed directly, so that
/// nothing larger than the result has to be held.
pub fn weigh(color: &Pixel, weight: u128) -> (v: ColorVector)
    requires
        255 * weight <= i128::MAX,
    ensures
        v.x == scaled(vector_of(*color).x as int, weight as int) == color.r * weight,
        v.y == scaled(vector_of(*color).y as int, weight as int) == color.g * weight,
        v.z == scaled(vector_of(*color).z as int, weight as int) == color.b * weight,
{
    proof {
        lemma_scaled_sample(color.r as int, weight as int);
        lemma_scaled_sample(color.g as int, weight as int);
        lemma_scaled_sample(color.b as int, weight as int);
        assert(color.r * weight <= 255 * weight && color.g * weight <= 255 * weight && color.b
            * weight <= 255 * weight) by (nonlinear_arith)
            requires
                color.r <= 255,
                color.g <= 255,
                color.b <= 255,
                weight >= 0,
        ;
    }
    let w: i128 = weight as i128;
    ColorVector { x: (color.r as i128) * w, y: (color.g as i128) * w, z: (color.b as i128) * w }
}

/// The colour of a pixel as a vector: each colour sample divided by 255, in
/// fixed point. The alpha sample is dropped.
pub fn color_to_vector(color: &Pixel) -> (v: ColorVector)
    ensures
        v == vector_of(*color),
{
    ColorVector {
        x: (color.r as i128) * (ONE as i128),
        y: (color.g as i128) * (ONE as i128),
        z: (color.b as i128) * (ONE as i128),
    }
}

/// The opaque pixel of a colour vector: each component is limited to the
/// interval from zero to full intensity, multiplied by 255 and truncated.
pub fn vector_to_color(vector: &ColorVector) -> (p: Pixel)
    ensures
        p == pixel_of(*vector),
{
    Pixel {
        r: level(vector.x),
        g: level(vector.y),
        b: level(vector.z),
        a: 255,
    }
}

fn level(c: i128) -> (out: u8)
    ensures
        out == component_level(c as int),
{
    let limited: i128 = clamp(c, 0, FULL_SCALE);
    (limited / (ONE as i128)) as u8
}

/// Mapping a pixel to a vector and back loses nothing but the alpha sample.
pub proof fn lemma_color_round_trip(p: Pixel)
    ensures
        pixel_of(vector_of(p)) == opaque(p),
{
}

} // verus!
