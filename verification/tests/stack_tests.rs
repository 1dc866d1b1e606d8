use dog_filter::color::Pixel;
use dog_filter::raster::Image;
use dog_filter::stack::stack;

const DARK: Pixel = Pixel { r: 0, g: 0, b: 0, a: 255 };

fn px(v: u8) -> Pixel {
    Pixel { r: v, g: v, b: v, a: v }
}

#[test]
fn stack_of_nothing_is_empty() {
    let out = stack(&Vec::new()).unwrap();
    assert_eq!((out.width(), out.height()), (0, 0));
}

#[test]
fn stack_of_one_raster_is_that_raster() {
    let data: Vec<u8> = (0..48).collect();
    let img = Image::from_raw(4, 3, data.clone()).unwrap();
    let out = stack(&vec![img]).unwrap();
    assert_eq!((out.width(), out.height()), (4, 3));
    assert_eq!(out.into_raw(), data);
}

#[test]
fn rasters_go_below_one_another_on_a_dark_ground() {
    let a = Image::filled(2, 1, px(1)).unwrap();
    let b = Image::filled(3, 2, px(2)).unwrap();
    let c = Image::filled(1, 1, px(3)).unwrap();
    let out = stack(&vec![a, b, c]).unwrap();
    assert_eq!((out.width(), out.height()), (3, 4));
    let want = vec![
        vec![px(1), px(1), DARK],
        vec![px(2), px(2), px(2)],
        vec![px(2), px(2), px(2)],
        vec![px(3), DARK, DARK],
    ];
    for y in 0..4u32 {
        for x in 0..3u32 {
            assert_eq!(out.get_pixel(x, y), want[y as usize][x as usize]);
        }
    }
}

#[test]
fn empty_rasters_take_no_room() {
    let a = Image::filled(5, 0, px(1)).unwrap();
    let b = Image::filled(0, 2, px(2)).unwrap();
    let c = Image::filled(1, 1, px(3)).unwrap();
    let out = stack(&vec![a, b, c]).unwrap();
    assert_eq!((out.width(), out.height()), (5, 3));
    for y in 0..3u32 {
        for x in 0..5u32 {
            let want = if (x, y) == (0, 2) { px(3) } else { DARK };
            assert_eq!(out.get_pixel(x, y), want);
        }
    }
}

#[test]
fn stack_keeps_its_inputs() {
    let images = vec![Image::filled(2, 2, px(7)).unwrap(), Image::filled(1, 1, px(9)).unwrap()];
    let _ = stack(&images).unwrap();
    assert_eq!(images[0].get_pixel(1, 1), px(7));
    assert_eq!(images[1].get_pixel(0, 0), px(9));
}

#[test]
fn there_is_no_stack_higher_than_32_bits() {
    let tall = || Image::filled(0, u32::MAX, px(0)).unwrap();
    assert!(stack(&vec![tall(), tall()]).is_none());
    let one = Image::filled(0, 1, px(0)).unwrap();
    assert!(stack(&vec![tall(), one]).is_none());
    let two = Image::filled(3, 2, px(0)).unwrap();
    assert!(stack(&vec![two, tall()]).is_none());
}

#[test]
fn there_is_no_stack_that_no_buffer_holds() {
    let wide = Image::filled(u32::MAX, 0, px(0)).unwrap();
    let tall = Image::filled(0, u32::MAX, px(0)).unwrap();
    assert!(stack(&vec![wide, tall]).is_none());
}
