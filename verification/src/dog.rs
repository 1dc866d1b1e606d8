//! The difference of two Gaussian blurs of one raster.

use vstd::prelude::*;
use crate::blur::{blur, blur_fine, blurred, lemma_blurred_uniform, window_mass};
use crate::color::{
    color_to_vector, component_level, dark, pixel_of, vector_of, vector_to_color, ColorVector,
    Pixel, ONE,
};
use crate::error::DogError;
use crate::kernel::{fine_of, SIGMA_ONE};
use crate::raster::{lemma_index_in_range, push_pixel, unpack, unpacked, Grid, Image};

verus! {

/// The pixel of the difference of two colours: the vector of `a` minus the
/// vector of `b`, mapped back to 8-bit levels.
pub open spec fn difference_pixel(a: Pixel, b: Pixel) -> Pixel {
    pixel_of(
        ColorVector {
            x: (vector_of(a).x - vector_of(b).x) as i128,
            y: (vector_of(a).y - vector_of(b).y) as i128,
            z: (vector_of(a).z - vector_of(b).z) as i128,
        },
    )
}

/// `a - b`, or zero where `b` exceeds `a`.
pub open spec fn level_drop(a: u8, b: u8) -> u8 {
    if a >= b {
        (a - b) as u8
    } else {
        0
    }
}

/// The difference of two rasters of one extent, pixel by pixel.
pub open spec fn differenced(a: Grid, b: Grid) -> Grid {
    Grid {
        width: a.width,
        height: a.height,
        pixels: Seq::new(a.pixels.len(), |k: int| difference_pixel(a.pixels[k], b.pixels[k])),
    }
}

/// The standard deviation of the second blur in 65536ths of a pixel: the
/// product of `sigma` and `k`, both in 256ths, held exactly.
pub open spec fn wide_fine(sigma: int, k: int) -> int {
    k * sigma
}

/// The difference of Gaussians of a raster: its blur at `k * sigma` minus
/// its blur at `sigma`.
pub open spec fn dog_of(grid: Grid, sigma: int, k: int) -> Grid {
    differenced(blurred(grid, wide_fine(sigma, k)), blurred(grid, fine_of(sigma)))
}

/// A difference never wraps: each channel is the difference of the levels
/// where that is positive and zero elsewhere, and the result is opaque.
pub proof fn lemma_difference_saturates(a: Pixel, b: Pixel)
    ensures
        difference_pixel(a, b) == (Pixel {
            r: level_drop(a.r, b.r),
            g: level_drop(a.g, b.g),
            b: level_drop(a.b, b.b),
            a: 255,
        }),
{
}

/// Between equal scales there is no detail: where `k` is one, the difference
/// of Gaussians is dark throughout.
pub proof fn lemma_dog_equal_scales(grid: Grid, sigma: int)
    requires
        grid.wf(),
    ensures
        wide_fine(sigma, SIGMA_ONE as int) == fine_of(sigma),
        dog_of(grid, sigma, SIGMA_ONE as int) == (Grid {
            width: grid.width,
            height: grid.height,
            pixels: Seq::new(grid.pixels.len(), |k: int| dark()),
        }),
{
    let b = blurred(grid, fine_of(sigma));
    assert forall|k: int| 0 <= k < grid.pixels.len() implies #[trigger] dog_of(
        grid,
        sigma,
        SIGMA_ONE as int,
    ).pixels[k] == dark() by {
        lemma_difference_saturates(b.pixels[k], b.pixels[k]);
    }
    assert(dog_of(grid, sigma, SIGMA_ONE as int).pixels =~= Seq::new(
        grid.pixels.len(),
        |k: int| dark(),
    ));
}

/// The difference of Gaussians of a raster of one colour: at every position
/// each channel is the drop from the colour scaled by the part of the wide
/// kernel inside the raster to the colour scaled by that of the narrow one.
pub proof fn lemma_dog_uniform(grid: Grid, p: Pixel, x: int, y: int, sigma: int, k: int)
    requires
        grid.wf(),
        grid.uniform(p),
        grid.contains(x, y),
    ensures
        ({
            let wide = window_mass(grid.width, grid.height, x, y, wide_fine(sigma, k));
            let narrow = window_mass(grid.width, grid.height, x, y, fine_of(sigma));
            dog_of(grid, sigma, k).at(x, y) == (Pixel {
                r: level_drop(
                    component_level(p.r * wide) as u8,
                    component_level(p.r * narrow) as u8,
                ),
                g: level_drop(
                    component_level(p.g * wide) as u8,
                    component_level(p.g * narrow) as u8,
                ),
                b: level_drop(
                    component_level(p.b * wide) as u8,
                    component_level(p.b * narrow) as u8,
                ),
                a: 255,
            })
        }),
{
    lemma_index_in_range(grid.width as int, grid.height as int, x, y);
    lemma_blurred_uniform(grid, p, x, y, wide_fine(sigma, k));
    lemma_blurred_uniform(grid, p, x, y, fine_of(sigma));
    let a = blurred(grid, wide_fine(sigma, k));
    let b = blurred(grid, fine_of(sigma));
    lemma_difference_saturates(a.at(x, y), b.at(x, y));
}

/// A raster of one colour has no detail at any scale: wherever the part of
/// the wide kernel inside the raster exceeds that of the narrow kernel by no
/// more than a 255th, the difference of Gaussians is within one level of
/// dark, and where it does not exceed it at all, the difference is dark.
pub proof fn lemma_dog_uniform_flat(grid: Grid, p: Pixel, x: int, y: int, sigma: int, k: int)
    requires
        grid.wf(),
        grid.uniform(p),
        grid.contains(x, y),
        255 * (window_mass(grid.width, grid.height, x, y, wide_fine(sigma, k)) - window_mass(
            grid.width,
            grid.height,
            x,
            y,
            fine_of(sigma),
        )) <= ONE,
    ensures
        dog_of(grid, sigma, k).at(x, y).r <= 1,
        dog_of(grid, sigma, k).at(x, y).g <= 1,
        dog_of(grid, sigma, k).at(x, y).b <= 1,
        dog_of(grid, sigma, k).at(x, y).a == 255,
        window_mass(grid.width, grid.height, x, y, wide_fine(sigma, k)) <= window_mass(
            grid.width,
            grid.height,
            x,
            y,
            fine_of(sigma),
        ) ==> dog_of(grid, sigma, k).at(x, y) == dark(),
{
    let wide = window_mass(grid.width, grid.height, x, y, wide_fine(sigma, k));
    let narrow = window_mass(grid.width, grid.height, x, y, fine_of(sigma));
    lemma_dog_uniform(grid, p, x, y, sigma, k);
    lemma_level_gap(p.r as int, wide, narrow);
    lemma_level_gap(p.g as int, wide, narrow);
    lemma_level_gap(p.b as int, wide, narrow);
}

/// Masses that differ by at most a 255th give levels that differ by at most
/// one; a smaller mass gives no higher level.
pub proof fn lemma_level_gap(level: int, wide: int, narrow: int)
    requires
        0 <= level <= 255,
        255 * (wide - narrow) <= ONE,
    ensures
        component_level(level * wide) <= component_level(level * narrow) + 1,
        wide <= narrow ==> component_level(level * wide) <= component_level(level * narrow),
{
    if wide <= narrow {
        assert(level * wide <= level * narrow) by (nonlinear_arith)
            requires
                0 <= level,
                wide <= narrow,
        ;
    } else {
        assert(level * wide <= level * narrow + ONE) by (nonlinear_arith)
            requires
                0 <= level <= 255,
                0 < wide - narrow,
                255 * (wide - narrow) <= ONE,
        ;
    }
}

/// The difference `a - b` of two rasters, channel by channel and limited
/// to the range of a pixel. Rasters of different extent are refused.
pub fn difference(a: &Image, b: &Image) -> (res: Result<Image, DogError>)
    requires
        a.wf(),
        b.wf(),
    ensures
        (a@.width != b@.width || a@.height != b@.height) ==> (res matches Err(e) && e
            == DogError::DimensionMismatch),
        (a@.width == b@.width && a@.height == b@.height) ==> (res matches Ok(out) && out.wf()
            && out@ == differenced(a@, b@) && out@.width == a@.width && out@.height
            == a@.height),
{
    proof {
        a.lemma_view_wf();
        b.lemma_view_wf();
    }
    let width: u32 = a.width();
    let height: u32 = a.height();
    if width != b.width() || height != b.height() {
        return Err(DogError::DimensionMismatch);
    }
    let ghost ga = a@;
    let ghost gb = b@;
    let mut data: Vec<u8> = Vec::new();
    let mut y: u32 = 0;
    while y < height
        invariant
            a.wf(),
            b.wf(),
            ga == a@,
            gb == b@,
            ga.wf(),
            gb.wf(),
            width == ga.width == gb.width,
            height == ga.height == gb.height,
            y <= height,
            data@.len() == 4 * (y * width),
            forall|k: int|
                0 <= k < y * width ==> unpack(data@, k) == difference_pixel(
                    ga.pixels[k],
                    gb.pixels[k],
                ),
        decreases height - y,
    {
        let mut x: u32 = 0;
        while x < width
            invariant
                a.wf(),
                b.wf(),
                ga == a@,
                gb == b@,
                ga.wf(),
                gb.wf(),
                width == ga.width == gb.width,
                height == ga.height == gb.height,
                y < height,
                x <= width,
                data@.len() == 4 * (y * width + x),
                forall|k: int|
                    0 <= k < y * width + x ==> unpack(data@, k) == difference_pixel(
                        ga.pixels[k],
                        gb.pixels[k],
                    ),
            decreases width - x,
        {
            let pa: Pixel = a.get_pixel(x, y);
            let pb: Pixel = b.get_pixel(x, y);
            let p: Pixel = vector_to_color(&color_to_vector(&pa).sub(color_to_vector(&pb)));
            let ghost before = data@;
            push_pixel(&mut data, p);
            proof {
                lemma_index_in_range(width as int, height as int, x as int, y as int);
                assert forall|k: int| 0 <= k < y * width + x + 1 implies unpack(data@, k)
                    == difference_pixel(ga.pixels[k], gb.pixels[k]) by {
                    if k < y * width + x {
                        assert(unpack(before, k) == unpack(data@, k));
                    }
                }
            }
            x += 1;
        }
        proof {
            assert(y * width + width == (y + 1) * width) by (nonlinear_arith);
        }
        y += 1;
    }
    proof {
        assert(y * width == width * height) by (nonlinear_arith)
            requires
                y == height,
        ;
        assert(unpacked(data@, (width * height) as nat) =~= differenced(ga, gb).pixels);
    }
    Ok(Image::assemble(width, height, data))
}

/// The difference of Gaussians of a raster: its blur at the standard
/// deviation `k * sigma` minus its blur at `sigma`, each blur over the
/// window of its own standard deviation. Both `sigma` and `k` are in units
/// of `1 / SIGMA_ONE`; their product is taken exactly. A zero `sigma` and a
/// zero `k` are refused, and nothing else is.
pub fn difference_of_gaussian(image: &Image, sigma: u32, k: u32) -> (res: Result<Image, DogError>)
    requires
        image.wf(),
    ensures
        (sigma == 0 || k == 0) ==> (res matches Err(e) && e == DogError::InvalidParameter),
        (sigma > 0 && k > 0) ==> (res matches Ok(out) && out.wf() && out@ == dog_of(
            image@,
            sigma as int,
            k as int,
        ) && out@.width == image@.width && out@.height == image@.height),
{
    if sigma == 0 || k == 0 {
        return Err(DogError::InvalidParameter);
    }
    assert(0 < k * sigma <= 0xffff_ffff * 0xffff_ffff) by (nonlinear_arith)
        requires
            0 < k <= 0xffff_ffff,
            0 < sigma <= 0xffff_ffff,
    ;
    let wide: u64 = (k as u64) * (sigma as u64);
    let narrow_blur: Image = blur(image, sigma)?;
    let wide_blur: Image = blur_fine(image, wide)?;
    difference(&wide_blur, &narrow_blur)
}

} // verus!
