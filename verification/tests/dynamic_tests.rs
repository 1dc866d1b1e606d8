use dog_filter::color::Pixel;
use dog_filter::dynamic::{from_dynamic, to_dynamic, SampleFormat};
use dog_filter::raster::Image;
use image::{ColorType, DynamicImage, GenericImage, GenericImageView, Luma, Rgb, Rgba};

fn px(r: u8, g: u8, b: u8, a: u8) -> Pixel {
    Pixel { r, g, b, a }
}

#[test]
fn from_dynamic_reads_an_rgb_image() {
    let mut img = DynamicImage::new_rgb8(3, 2);
    for y in 0..2u32 {
        for x in 0..3u32 {
            img.put_pixel(x, y, Rgba([(10 * x) as u8, (20 * y) as u8, (x + y) as u8, 77]));
        }
    }
    let raster = from_dynamic(&img).unwrap();
    assert_eq!((raster.width(), raster.height()), (3, 2));
    for y in 0..2u32 {
        for x in 0..3u32 {
            assert_eq!(raster.get_pixel(x, y), px((10 * x) as u8, (20 * y) as u8, (x + y) as u8, 255));
        }
    }
}

#[test]
fn from_dynamic_keeps_the_alpha_of_an_rgba_image() {
    let mut img = DynamicImage::new_rgba8(2, 2);
    img.put_pixel(1, 0, Rgba([1, 2, 3, 4]));
    img.put_pixel(0, 1, Rgba([5, 6, 7, 8]));
    let raster = from_dynamic(&img).unwrap();
    assert_eq!(raster.get_pixel(0, 0), px(0, 0, 0, 0));
    assert_eq!(raster.get_pixel(1, 0), px(1, 2, 3, 4));
    assert_eq!(raster.get_pixel(0, 1), px(5, 6, 7, 8));
    assert_eq!(raster.get_pixel(1, 1), px(0, 0, 0, 0));
}

#[test]
fn from_dynamic_spreads_a_grey_sample() {
    let mut grey = image::GrayImage::new(2, 1);
    grey.put_pixel(0, 0, Luma([200]));
    grey.put_pixel(1, 0, Luma([3]));
    let raster = from_dynamic(&DynamicImage::ImageLuma8(grey)).unwrap();
    assert_eq!(raster.get_pixel(0, 0), px(200, 200, 200, 255));
    assert_eq!(raster.get_pixel(1, 0), px(3, 3, 3, 255));
}

#[test]
fn from_dynamic_narrows_sixteen_bit_samples() {
    let mut deep = image::ImageBuffer::<Rgb<u16>, Vec<u16>>::new(1, 1);
    deep.put_pixel(0, 0, Rgb([65535, 0, 32896]));
    let raster = from_dynamic(&DynamicImage::ImageRgb16(deep)).unwrap();
    assert_eq!(raster.get_pixel(0, 0), px(255, 0, 128, 255));
}

#[test]
fn from_dynamic_refuses_floating_point_samples() {
    assert!(from_dynamic(&DynamicImage::new_rgb32f(2, 2)).is_none());
    assert!(from_dynamic(&DynamicImage::new_rgba32f(1, 1)).is_none());
    assert!(from_dynamic(&DynamicImage::new_rgb32f(0, 0)).is_none());
}

#[test]
fn from_dynamic_takes_an_empty_image() {
    let raster = from_dynamic(&DynamicImage::new_rgb8(0, 5)).unwrap();
    assert_eq!((raster.width(), raster.height()), (0, 5));
}

#[test]
fn to_dynamic_writes_an_rgb_image() {
    let data: Vec<u8> = (0..24).collect();
    let raster = Image::from_raw(2, 3, data).unwrap();
    let img = to_dynamic(&raster);
    assert_eq!(img.color(), ColorType::Rgb8);
    assert_eq!((img.width(), img.height()), (2, 3));
    for y in 0..3u32 {
        for x in 0..2u32 {
            let first = (4 * (2 * y + x)) as u8;
            assert_eq!(img.get_pixel(x, y), Rgba([first, first + 1, first + 2, 255]));
        }
    }
}

#[test]
fn to_dynamic_takes_an_empty_raster() {
    let img = to_dynamic(&Image::filled(4, 0, px(1, 2, 3, 4)).unwrap());
    assert_eq!((img.width(), img.height()), (4, 0));
}

#[test]
fn there_and_back_makes_a_raster_opaque() {
    let raster = Image::from_raw(2, 2, (50..66).collect()).unwrap();
    let back = from_dynamic(&to_dynamic(&raster)).unwrap();
    for y in 0..2u32 {
        for x in 0..2u32 {
            let p = raster.get_pixel(x, y);
            assert_eq!(back.get_pixel(x, y), px(p.r, p.g, p.b, 255));
        }
    }
}

#[test]
fn only_integer_formats_are_integral() {
    let integral = [
        SampleFormat::L8,
        SampleFormat::La8,
        SampleFormat::Rgb8,
        SampleFormat::Rgba8,
        SampleFormat::L16,
        SampleFormat::La16,
        SampleFormat::Rgb16,
        SampleFormat::Rgba16,
    ];
    for format in integral {
        assert!(format.is_integral());
    }
    for format in [SampleFormat::Rgb32F, SampleFormat::Rgba32F, SampleFormat::Other] {
        assert!(!format.is_integral());
    }
}
