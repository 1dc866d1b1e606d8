use dog_filter::color::{
    clamp, color_to_vector, vector_to_color, weigh, ColorVector, Pixel, FULL_SCALE, ONE,
};

#[test]
fn clamp_keeps_values_inside_the_interval() {
    assert_eq!(clamp(5, 0, 10), 5);
    assert_eq!(clamp(0, 0, 10), 0);
    assert_eq!(clamp(10, 0, 10), 10);
}

#[test]
fn clamp_limits_values_outside_the_interval() {
    assert_eq!(clamp(-1, 0, 10), 0);
    assert_eq!(clamp(11, 0, 10), 10);
    assert_eq!(clamp(i128::MIN, -3, 3), -3);
    assert_eq!(clamp(i128::MAX, -3, 3), 3);
}

#[test]
fn clamp_on_an_empty_interval_follows_the_lower_test_first() {
    assert_eq!(clamp(5, 10, 0), 10);
    assert_eq!(clamp(20, 10, 0), 0);
}

#[test]
fn color_to_vector_scales_each_sample_by_one_level() {
    let v = color_to_vector(&Pixel { r: 1, g: 2, b: 255, a: 17 });
    assert_eq!(
        v,
        ColorVector { x: 1152921504606846976, y: 2305843009213693952, z: 293994983674745978880 }
    );
    assert_eq!(v.z, FULL_SCALE);
    assert_eq!(ONE, 1 << 60);
}

#[test]
fn vector_to_color_truncates_to_a_level() {
    let one = ONE as i128;
    let p = vector_to_color(&ColorVector { x: 7 * one + (one - 1), y: 7 * one, z: one - 1 });
    assert_eq!(p, Pixel { r: 7, g: 7, b: 0, a: 255 });
}

#[test]
fn vector_to_color_limits_to_the_range_of_a_pixel() {
    let p = vector_to_color(&ColorVector { x: -1, y: FULL_SCALE + 1, z: i128::MAX });
    assert_eq!(p, Pixel { r: 0, g: 255, b: 255, a: 255 });
    let q = vector_to_color(&ColorVector { x: i128::MIN, y: FULL_SCALE, z: FULL_SCALE - 1 });
    assert_eq!(q, Pixel { r: 0, g: 255, b: 254, a: 255 });
}

#[test]
fn round_trip_keeps_every_level() {
    for level in 0..=255u8 {
        let p = Pixel { r: level, g: 255 - level, b: level / 2, a: 3 };
        let back = vector_to_color(&color_to_vector(&p));
        assert_eq!(back, Pixel { r: level, g: 255 - level, b: level / 2, a: 255 });
    }
}

#[test]
fn vectors_add_and_subtract_by_component() {
    let a = ColorVector { x: 5, y: -7, z: 11 };
    let b = ColorVector { x: 1, y: 2, z: -3 };
    assert_eq!(a.add(b), ColorVector { x: 6, y: -5, z: 8 });
    assert_eq!(a.sub(b), ColorVector { x: 4, y: -9, z: 14 });
    assert_eq!(ColorVector::zero().add(a), a);
}

#[test]
fn scale_multiplies_by_a_fixed_point_factor() {
    let v = ColorVector { x: 10, y: -10, z: 3 };
    let one = ONE as u128;
    assert_eq!(v.scale(one), v);
    assert_eq!(v.scale(one / 2), ColorVector { x: 5, y: -5, z: 1 });
    assert_eq!(v.scale(3 * one), ColorVector { x: 30, y: -30, z: 9 });
    assert_eq!(v.scale(0), ColorVector::zero());
}

#[test]
fn scale_rounds_toward_zero() {
    let v = ColorVector { x: 1, y: -1, z: 3 };
    assert_eq!(v.scale(ONE as u128 - 1), ColorVector { x: 0, y: 0, z: 2 });
    assert_eq!(ColorVector { x: i128::MIN, y: 0, z: 0 }.scale(0), ColorVector::zero());
}

#[test]
fn scaled_pixel_vector_is_the_plain_product() {
    let v = color_to_vector(&Pixel { r: 200, g: 3, b: 0, a: 0 }).scale(170891318);
    assert_eq!(v, ColorVector { x: 200 * 170891318, y: 3 * 170891318, z: 0 });
}

#[test]
fn weigh_is_the_scaled_vector_of_a_pixel() {
    let p = Pixel { r: 200, g: 3, b: 255, a: 9 };
    for weight in [0u128, 1, 170891318, 183493156462224064] {
        assert_eq!(weigh(&p, weight), color_to_vector(&p).scale(weight));
    }
    let large = 1u128 << 89;
    assert_eq!(
        weigh(&p, large),
        ColorVector { x: 200 * (1i128 << 89), y: 3 * (1i128 << 89), z: 255 * (1i128 << 89) }
    );
}
