//! Rasters to and from the images of the `image` crate.
//!
//! Verus does not look inside a `DynamicImage`. What the functions of this
//! module need of one is named here and tied to the crate's methods by the
//! contracts of six small wrappers, which are believed, not proved.

use vstd::prelude::*;
use image::ColorType;
use image::DynamicImage;
use image::GenericImage;
use image::GenericImageView;
use image::Rgba;
use crate::color::{dark, opaque, Pixel};
use crate::raster::{
    before, lemma_index_in_range, lemma_position_of_index, push_pixel, unpack, unpacked, Grid,
    Image,
};

verus! {

/// `image::DynamicImage`, declared so that it may stand in signatures.
/// Nothing is known of what a value of it holds but through the names below.
#[verifier::external_type_specification]
#[verifier::external_body]
pub struct ExDynamicImage(DynamicImage);

/// How an image stores a pixel.
#[derive(Clone, Copy, Debug, PartialEq, Eq, Structural)]
pub enum SampleFormat {
    L8,
    La8,
    Rgb8,
    Rgba8,
    L16,
    La16,
    Rgb16,
    Rgba16,
    Rgb32F,
    Rgba32F,
    Other,
}

impl SampleFormat {
    /// The samples are integers of 8 or 16 bits.
    pub open spec fn integral(self) -> bool {
        self == SampleFormat::L8 || self == SampleFormat::La8 || self == SampleFormat::Rgb8 || self
            == SampleFormat::Rgba8 || self == SampleFormat::L16 || self == SampleFormat::La16
            || self == SampleFormat::Rgb16 || self == SampleFormat::Rgba16
    }

    pub fn is_integral(&self) -> (yes: bool)
        ensures
            yes == self.integral(),
    {
        match self {
            SampleFormat::L8 => true,
            SampleFormat::La8 => true,
            SampleFormat::Rgb8 => true,
            SampleFormat::Rgba8 => true,
            SampleFormat::L16 => true,
            SampleFormat::La16 => true,
            SampleFormat::Rgb16 => true,
            SampleFormat::Rgba16 => true,
            SampleFormat::Rgb32F => false,
            SampleFormat::Rgba32F => false,
            SampleFormat::Other => false,
        }
    }
}

/// The width of an image, as `DynamicImage::width` reports it.
pub uninterp spec fn dynamic_width(img: DynamicImage) -> int;

/// The height of an image, as `DynamicImage::height` reports it.
pub uninterp spec fn dynamic_height(img: DynamicImage) -> int;

/// The storage format of an image, as `DynamicImage::color` reports it.
pub uninterp spec fn dynamic_format(img: DynamicImage) -> SampleFormat;

/// The pixels of an image by position `(x, y)`, each as `get_pixel` reports
/// it: converted to 8-bit RGBA.
pub uninterp spec fn dynamic_pixels(img: DynamicImage) -> Map<(int, int), Pixel>;

/// `DynamicImage::width`. The contract only names the result.
#[verifier::external_body]
fn width_of(img: &DynamicImage) -> (w: u32)
    ensures
        w == dynamic_width(*img),
{
    img.width()
}

/// `DynamicImage::height`. The contract only names the result.
#[verifier::external_body]
fn height_of(img: &DynamicImage) -> (h: u32)
    ensures
        h == dynamic_height(*img),
{
    img.height()
}

/// `DynamicImage::color`, with the colour type written as a `SampleFormat`.
/// The contract only names the result.
#[verifier::external_body]
fn format_of(img: &DynamicImage) -> (format: SampleFormat)
    ensures
        format == dynamic_format(*img),
{
    match img.color() {
        ColorType::L8 => SampleFormat::L8,
        ColorType::La8 => SampleFormat::La8,
        ColorType::Rgb8 => SampleFormat::Rgb8,
        ColorType::Rgba8 => SampleFormat::Rgba8,
        ColorType::L16 => SampleFormat::L16,
        ColorType::La16 => SampleFormat::La16,
        ColorType::Rgb16 => SampleFormat::Rgb16,
        ColorType::Rgba16 => SampleFormat::Rgba16,
        ColorType::Rgb32F => SampleFormat::Rgb32F,
        ColorType::Rgba32F => SampleFormat::Rgba32F,
        _ => SampleFormat::Other,
    }
}

/// `GenericImageView::get_pixel` of a `DynamicImage`. It panics outside the
/// image, and its conversion of a floating-point sample panics on a NaN, so
/// both are left out. The contract only names the result.
#[verifier::external_body]
fn pixel_at(img: &DynamicImage, x: u32, y: u32) -> (p: Pixel)
    requires
        x < dynamic_width(*img),
        y < dynamic_height(*img),
        dynamic_format(*img).integral(),
    ensures
        p == dynamic_pixels(*img)[(x as int, y as int)],
{
    let Rgba([r, g, b, a]) = img.get_pixel(x, y);
    Pixel { r, g, b, a }
}

/// `DynamicImage::new_rgb8`: an image of the given extent in the format
/// `Rgb8` whose samples are all zero, so that every pixel reads as opaque
/// black. It panics where three samples for every position exceed what a
/// buffer can hold, which is left out.
#[verifier::external_body]
fn blank_rgb8(width: u32, height: u32) -> (img: DynamicImage)
    requires
        3 * (width * height) <= isize::MAX,
    ensures
        dynamic_width(img) == width,
        dynamic_height(img) == height,
        dynamic_format(img) == SampleFormat::Rgb8,
        forall|x: int, y: int|
            0 <= x < width && 0 <= y < height ==> #[trigger] dynamic_pixels(img)[(x, y)] == dark(),
{
    DynamicImage::new_rgb8(width, height)
}

/// `GenericImage::put_pixel` of a `DynamicImage` in the format `Rgb8`: the
/// three colour samples are stored and the alpha sample is dropped, so that
/// the pixel reads back opaque; nothing else changes. It panics outside the
/// image, which is left out.
#[verifier::external_body]
fn store_pixel(img: &mut DynamicImage, x: u32, y: u32, p: Pixel)
    requires
        x < dynamic_width(*old(img)),
        y < dynamic_height(*old(img)),
        dynamic_format(*old(img)) == SampleFormat::Rgb8,
    ensures
        dynamic_width(*final(img)) == dynamic_width(*old(img)),
        dynamic_height(*final(img)) == dynamic_height(*old(img)),
        dynamic_format(*final(img)) == SampleFormat::Rgb8,
        dynamic_pixels(*final(img)) == dynamic_pixels(*old(img)).insert(
            (x as int, y as int),
            opaque(p),
        ),
{
    img.put_pixel(x, y, Rgba([p.r, p.g, p.b, p.a]));
}

/// The content of an image as a raster.
pub open spec fn grid_of(img: DynamicImage) -> Grid {
    Grid {
        width: dynamic_width(img) as nat,
        height: dynamic_height(img) as nat,
        pixels: Seq::new(
            (dynamic_width(img) * dynamic_height(img)) as nat,
            |k: int| dynamic_pixels(img)[(k % dynamic_width(img), k / dynamic_width(img))],
        ),
    }
}

/// The raster with every pixel made opaque.
pub open spec fn opaque_grid(grid: Grid) -> Grid {
    Grid {
        width: grid.width,
        height: grid.height,
        pixels: Seq::new(grid.pixels.len(), |k: int| opaque(grid.pixels[k])),
    }
}

/// The raster of an image, pixel by pixel as the image reports them. There
/// is none for an image of floating-point samples, nor where four samples
/// for every position exceed what a buffer can hold.
pub fn from_dynamic(img: &DynamicImage) -> (res: Option<Image>)
    ensures
        res is Some <==> dynamic_format(*img).integral() && 4 * (dynamic_width(*img)
            * dynamic_height(*img)) <= isize::MAX,
        res matches Some(image) ==> image.wf() && image@ == grid_of(*img),
{
    let width: u32 = width_of(img);
    let height: u32 = height_of(img);
    assert(0 <= width * height <= 0xffff_ffff * 0xffff_ffff) by (nonlinear_arith)
        requires
            0 <= width <= 0xffff_ffff,
            0 <= height <= 0xffff_ffff,
    ;
    if !format_of(img).is_integral() {
        return None;
    }
    if 4 * ((width as u128) * (height as u128)) > isize::MAX as u128 {
        return None;
    }
    let mut data: Vec<u8> = Vec::new();
    let mut y: u32 = 0;
    while y < height
        invariant
            width == dynamic_width(*img),
            height == dynamic_height(*img),
            dynamic_format(*img).integral(),
            y <= height,
            data@.len() == 4 * (y * width),
            forall|k: int|
                0 <= k < y * width ==> unpack(data@, k) == dynamic_pixels(*img)[(
                    k % (width as int),
                    k / (width as int),
                )],
        decreases height - y,
    {
        let mut x: u32 = 0;
        while x < width
            invariant
                width == dynamic_width(*img),
                height == dynamic_height(*img),
                dynamic_format(*img).integral(),
                y < height,
                x <= width,
                data@.len() == 4 * (y * width + x),
                forall|k: int|
                    0 <= k < y * width + x ==> unpack(data@, k) == dynamic_pixels(*img)[(
                        k % (width as int),
                        k / (width as int),
                    )],
            decreases width - x,
        {
            let p: Pixel = pixel_at(img, x, y);
            let ghost earlier = data@;
            push_pixel(&mut data, p);
            proof {
                lemma_index_in_range(width as int, height as int, x as int, y as int);
                assert forall|k: int| 0 <= k < y * width + x + 1 implies unpack(data@, k)
                    == dynamic_pixels(*img)[(k % (width as int), k / (width as int))] by {
                    if k < y * width + x {
                        assert(unpack(earlier, k) == unpack(data@, k));
                    }
                }
            }
            x += 1;
        }
        proof {
            assert(y * width + width == (y + 1) * width) by (nonlinear_arith);
        }
        y += 1;
    }
    proof {
        assert(y * width == width * height) by (nonlinear_arith)
            requires
                y == height,
        ;
        assert(unpacked(data@, (width * height) as nat) =~= grid_of(*img).pixels);
    }
    Some(Image::assemble(width, height, data))
}

/// An image in the format `Rgb8` with the colours of a raster. The format
/// has no alpha sample, so every pixel of the image reads as opaque.
pub fn to_dynamic(image: &Image) -> (img: DynamicImage)
    requires
        image.wf(),
    ensures
        dynamic_format(img) == SampleFormat::Rgb8,
        grid_of(img) == opaque_grid(image@),
{
    proof {
        image.lemma_view_wf();
    }
    let width: u32 = image.width();
    let height: u32 = image.height();
    assert(0 <= width * height) by (nonlinear_arith)
        requires
            0 <= width,
            0 <= height,
    ;
    let ghost grid = image@;
    let mut img: DynamicImage = blank_rgb8(width, height);
    let mut y: u32 = 0;
    while y < height
        invariant
            image.wf(),
            grid == image@,
            grid.wf(),
            width == grid.width == dynamic_width(img),
            height == grid.height == dynamic_height(img),
            dynamic_format(img) == SampleFormat::Rgb8,
            y <= height,
            forall|u: int, v: int|
                0 <= u < width && 0 <= v < height && before(u, v, 0, y as int)
                    ==> #[trigger] dynamic_pixels(img)[(u, v)] == opaque(grid.at(u, v)),
        decreases height - y,
    {
        let mut x: u32 = 0;
        while x < width
            invariant
                image.wf(),
                grid == image@,
                grid.wf(),
                width == grid.width == dynamic_width(img),
                height == grid.height == dynamic_height(img),
                dynamic_format(img) == SampleFormat::Rgb8,
                y < height,
                x <= width,
                forall|u: int, v: int|
                    0 <= u < width && 0 <= v < height && before(u, v, x as int, y as int)
                        ==> #[trigger] dynamic_pixels(img)[(u, v)] == opaque(grid.at(u, v)),
            decreases width - x,
        {
            let p: Pixel = image.get_pixel(x, y);
            store_pixel(&mut img, x, y, p);
            x += 1;
        }
        y += 1;
    }
    proof {
        assert forall|k: int| 0 <= k < grid.pixels.len() implies #[trigger] grid_of(img).pixels[k]
            == opaque_grid(grid).pixels[k] by {
            lemma_position_of_index(width as int, height as int, k);
        }
        assert(grid_of(img).pixels =~= opaque_grid(grid).pixels);
    }
    img
}

} // verus!
