use dog_filter::blur::{blur, blur_fine};
use dog_filter::color::Pixel;
use dog_filter::error::DogError;
use dog_filter::kernel::gaussian_filter;
use dog_filter::raster::Image;

fn px(r: u8, g: u8, b: u8) -> Pixel {
    Pixel { r, g, b, a: 255 }
}

fn image_of(rows: &Vec<Vec<Pixel>>) -> Image {
    let mut data = Vec::new();
    for row in rows {
        for p in row {
            data.extend_from_slice(&[p.r, p.g, p.b, p.a]);
        }
    }
    Image::from_raw(rows[0].len() as u32, rows.len() as u32, data).unwrap()
}

fn rows_of(img: &Image) -> Vec<Vec<Pixel>> {
    (0..img.height()).map(|y| (0..img.width()).map(|x| img.get_pixel(x, y)).collect()).collect()
}

fn gradient() -> Vec<Vec<Pixel>> {
    (0..3u32)
        .map(|y| {
            (0..5u32)
                .map(|x| px(((x * 50) % 256) as u8, ((y * 80) % 256) as u8, ((x * y * 30) % 256) as u8))
                .collect()
        })
        .collect()
}

#[test]
fn blur_keeps_the_extent() {
    for (w, h) in [(1u32, 1u32), (4, 4), (7, 2), (2, 9), (0, 3), (3, 0), (0, 0)] {
        for sigma in [1u32, 100, 256, 700] {
            let img = Image::filled(w, h, px(10, 20, 30)).unwrap();
            let out = blur(&img, sigma).unwrap();
            assert_eq!((out.width(), out.height()), (w, h));
        }
    }
}

#[test]
fn blur_refuses_a_zero_sigma() {
    let img = Image::filled(4, 4, px(255, 0, 0)).unwrap();
    assert_eq!(blur(&img, 0).unwrap_err(), DogError::InvalidParameter);
    let empty = Image::filled(0, 0, px(0, 0, 0)).unwrap();
    assert_eq!(blur(&empty, 0).unwrap_err(), DogError::InvalidParameter);
}

#[test]
fn solid_red_darkens_toward_the_border() {
    let img = Image::filled(4, 4, px(255, 0, 0)).unwrap();
    let out = blur(&img, 256).unwrap();
    let want = vec![
        vec![px(123, 0, 0), px(166, 0, 0), px(166, 0, 0), px(123, 0, 0)],
        vec![px(166, 0, 0), px(223, 0, 0), px(223, 0, 0), px(167, 0, 0)],
        vec![px(166, 0, 0), px(223, 0, 0), px(223, 0, 0), px(167, 0, 0)],
        vec![px(123, 0, 0), px(167, 0, 0), px(167, 0, 0), px(124, 0, 0)],
    ];
    assert_eq!(rows_of(&out), want);
}

#[test]
fn solid_red_is_scaled_by_the_kernel_inside_the_raster() {
    let img = Image::filled(4, 4, px(255, 0, 0)).unwrap();
    let out = blur(&img, 256).unwrap();
    for y in 0..4i32 {
        for x in 0..4i32 {
            let mut mass: u128 = 0;
            for j in -3..3i32 {
                for i in -3..3i32 {
                    if 0 <= x + i && x + i < 4 && 0 <= y + j && y + j < 4 {
                        mass += gaussian_filter(i, j, 256).unwrap();
                    }
                }
            }
            let want = std::cmp::min(255, 255 * mass / (1u128 << 60)) as u8;
            assert_eq!(out.get_pixel(x as u32, y as u32), px(want, 0, 0));
        }
    }
}

#[test]
fn single_pixel_is_scaled_by_the_centre_weight() {
    let img = Image::filled(1, 1, px(255, 255, 255)).unwrap();
    assert_eq!(blur(&img, 256).unwrap().get_pixel(0, 0), px(40, 40, 40));
    assert_eq!(blur(&img, 768).unwrap().get_pixel(0, 0), px(4, 4, 4));
    assert_eq!(blur(&img, 384).unwrap().get_pixel(0, 0), px(18, 18, 18));
}

#[test]
fn single_pixel_comes_back_where_the_centre_weight_is_one() {
    for level in 0..=255u8 {
        let p = Pixel { r: level, g: 255 - level, b: 7, a: 9 };
        let img = Image::filled(1, 1, p).unwrap();
        let out = blur(&img, 102).unwrap();
        assert_eq!(out.get_pixel(0, 0), px(level, 255 - level, 7));
    }
}

#[test]
fn single_pixel_brightens_under_a_narrow_kernel() {
    let img = Image::filled(1, 1, Pixel { r: 100, g: 7, b: 254, a: 9 }).unwrap();
    assert_eq!(blur(&img, 101).unwrap().get_pixel(0, 0), px(102, 7, 255));
    assert_eq!(blur(&img, 1).unwrap().get_pixel(0, 0), px(255, 255, 255));
}

#[test]
fn blur_makes_every_pixel_opaque() {
    let img = Image::filled(3, 2, Pixel { r: 1, g: 2, b: 3, a: 0 }).unwrap();
    let out = blur(&img, 256).unwrap();
    for y in 0..2 {
        for x in 0..3 {
            assert_eq!(out.get_pixel(x, y).a, 255);
        }
    }
}

#[test]
fn blur_of_a_gradient() {
    let out = blur(&image_of(&gradient()), 256).unwrap();
    let want = vec![
        vec![px(12, 19, 3), px(36, 26, 10), px(68, 27, 20), px(93, 26, 28), px(84, 19, 25)],
        vec![px(15, 49, 9), px(46, 66, 27), px(87, 69, 52), px(119, 66, 71), px(107, 49, 64)],
        vec![px(12, 57, 10), px(36, 77, 32), px(68, 82, 61), px(93, 78, 84), px(84, 58, 75)],
    ];
    assert_eq!(rows_of(&out), want);
}

#[test]
fn blur_does_not_change_its_input() {
    let rows = gradient();
    let img = image_of(&rows);
    let _ = blur(&img, 500).unwrap();
    assert_eq!(rows_of(&img), rows);
}

#[test]
fn blur_is_dark_where_the_weights_vanish() {
    let img = Image::filled(5, 4, px(255, 255, 255)).unwrap();
    for fine in [1u64 << 45, (1 << 45) + 1, 1 << 50, u64::MAX] {
        let out = blur_fine(&img, fine).unwrap();
        assert_eq!(out.into_raw(), [0u8, 0, 0, 255].repeat(20));
    }
    let faint = blur(&img, u32::MAX).unwrap();
    assert_eq!(faint.into_raw(), [0u8, 0, 0, 255].repeat(20));
}

#[test]
fn blur_fine_agrees_with_blur() {
    let img = image_of(&gradient());
    for sigma in [1u32, 100, 256, 700] {
        let coarse = blur(&img, sigma).unwrap();
        let fine = blur_fine(&img, sigma as u64 * 256).unwrap();
        assert_eq!(coarse.into_raw(), fine.into_raw());
    }
    assert_eq!(blur_fine(&img, 0).unwrap_err(), DogError::InvalidParameter);
}

#[test]
fn blur_fine_takes_a_deviation_below_a_256th() {
    let img = Image::filled(2, 2, Pixel { r: 1, g: 0, b: 200, a: 0 }).unwrap();
    let out = blur_fine(&img, 1).unwrap();
    assert_eq!(out.into_raw(), [255u8, 0, 255, 255].repeat(4));
}

#[test]
fn blur_of_black_is_black() {
    let img = Image::filled(6, 6, px(0, 0, 0)).unwrap();
    for sigma in [1u32, 256, 1000] {
        assert_eq!(blur(&img, sigma).unwrap().into_raw(), [0u8, 0, 0, 255].repeat(36));
    }
}
