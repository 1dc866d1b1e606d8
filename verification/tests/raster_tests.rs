use dog_filter::color::Pixel;
use dog_filter::raster::{push_pixel, Image};

fn px(r: u8, g: u8, b: u8, a: u8) -> Pixel {
    Pixel { r, g, b, a }
}

#[test]
fn from_raw_reads_rows_from_the_top() {
    let data: Vec<u8> = (0..24).collect();
    let img = Image::from_raw(3, 2, data).unwrap();
    assert_eq!(img.width(), 3);
    assert_eq!(img.height(), 2);
    assert_eq!(img.get_pixel(0, 0), px(0, 1, 2, 3));
    assert_eq!(img.get_pixel(2, 0), px(8, 9, 10, 11));
    assert_eq!(img.get_pixel(0, 1), px(12, 13, 14, 15));
    assert_eq!(img.get_pixel(2, 1), px(20, 21, 22, 23));
}

#[test]
fn from_raw_refuses_a_buffer_of_the_wrong_length() {
    assert!(Image::from_raw(3, 2, vec![0; 23]).is_none());
    assert!(Image::from_raw(3, 2, vec![0; 25]).is_none());
    assert!(Image::from_raw(0, 2, vec![0; 1]).is_none());
    assert!(Image::from_raw(u32::MAX, u32::MAX, vec![0; 4]).is_none());
}

#[test]
fn from_raw_accepts_an_empty_raster() {
    let img = Image::from_raw(0, 7, Vec::new()).unwrap();
    assert_eq!(img.width(), 0);
    assert_eq!(img.height(), 7);
    assert_eq!(img.into_raw(), Vec::<u8>::new());
}

#[test]
fn filled_repeats_one_pixel() {
    let img = Image::filled(2, 3, px(9, 8, 7, 6)).unwrap();
    assert_eq!(img.width(), 2);
    assert_eq!(img.height(), 3);
    for y in 0..3 {
        for x in 0..2 {
            assert_eq!(img.get_pixel(x, y), px(9, 8, 7, 6));
        }
    }
    assert_eq!(img.into_raw(), [9u8, 8, 7, 6].repeat(6));
}

#[test]
fn filled_refuses_what_no_buffer_holds() {
    assert!(Image::filled(u32::MAX, u32::MAX, px(0, 0, 0, 0)).is_none());
}

#[test]
fn put_pixel_changes_one_position() {
    let mut img = Image::filled(3, 3, px(1, 1, 1, 1)).unwrap();
    img.put_pixel(2, 1, px(50, 60, 70, 80));
    for y in 0..3 {
        for x in 0..3 {
            let want = if (x, y) == (2, 1) { px(50, 60, 70, 80) } else { px(1, 1, 1, 1) };
            assert_eq!(img.get_pixel(x, y), want);
        }
    }
}

#[test]
fn into_raw_gives_the_samples_back() {
    let data: Vec<u8> = (100..116).collect();
    let img = Image::from_raw(2, 2, data.clone()).unwrap();
    assert_eq!(img.into_raw(), data);
}

#[test]
fn push_pixel_appends_four_samples() {
    let mut data = vec![1u8];
    push_pixel(&mut data, px(2, 3, 4, 5));
    assert_eq!(data, vec![1, 2, 3, 4, 5]);
}
