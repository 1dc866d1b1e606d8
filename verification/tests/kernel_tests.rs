use dog_filter::color::ONE;
use dog_filter::error::DogError;
use dog_filter::kernel::{
    fine_radius, gaussian_filter, kernel_radius, squared_length, Kernel, FINE_STRICT,
    FINE_VANISHING, SIGMA_ONE, WEIGHT_LIMIT,
};

fn closed_form(dx: i32, dy: i32, sigma: f64) -> f64 {
    let d2 = (dx as f64) * (dx as f64) + (dy as f64) * (dy as f64);
    (-d2 / (2.0 * sigma * sigma)).exp() / (2.0 * std::f64::consts::PI * sigma * sigma)
}

fn as_real(weight: u128) -> f64 {
    weight as f64 / ONE as f64
}

#[test]
fn weights_of_the_unit_kernel() {
    assert_eq!(gaussian_filter(0, 0, 256), Ok(183493156462224064));
    assert_eq!(gaussian_filter(1, 0, 256), Ok(111294225215894023));
    assert_eq!(gaussian_filter(0, -1, 256), Ok(111294225215894023));
    assert_eq!(gaussian_filter(1, 1, 256), Ok(67503359826698188));
    assert_eq!(gaussian_filter(2, 0, 256), Ok(24833098278685856));
    assert_eq!(gaussian_filter(-2, 1, 256), Ok(15062035476422298));
    assert_eq!(gaussian_filter(3, 0, 256), Ok(2038424834474859));
}

#[test]
fn weights_of_the_unit_kernel_as_reals() {
    let want = [(0, 0, 0.159155), (1, 0, 0.096532), (1, 1, 0.058550), (2, 0, 0.021539)];
    let mut previous = f64::MAX;
    for (x, y, value) in want {
        let got = as_real(gaussian_filter(x, y, 256).unwrap());
        assert!((got - value).abs() < 1e-5, "{} {} {}", x, y, got);
        assert!(got < previous);
        previous = got;
    }
}

#[test]
fn window_of_the_unit_kernel_holds_almost_all_of_it() {
    let mut sum = 0.0;
    for i in -3..3 {
        for j in -3..3 {
            sum += as_real(gaussian_filter(i, j, 256).unwrap());
        }
    }
    assert!((sum - 0.99062).abs() < 1e-4, "{}", sum);
    assert!(sum < 1.0);
}

#[test]
fn weights_of_other_kernels() {
    assert_eq!(gaussian_filter(0, 0, 768), Ok(20388128495802673));
    assert_eq!(gaussian_filter(9, 0, 768), Ok(226491648274984));
    assert_eq!(gaussian_filter(0, 0, 102), Ok(1155844627249934282));
    assert_eq!(gaussian_filter(0, 0, 1), Ok(12025407501908316270690));
    assert_eq!(gaussian_filter(1, 0, 1), Ok(0));
}

#[test]
fn centre_weight_is_one_over_two_pi_sigma_squared() {
    for sigma in [1u32, 2, 77, 102, 256, 768, 100000, 4194303, u32::MAX] {
        let fine = sigma as u128 * 256;
        let want = (1u128 << 120) / (1686629713 * fine * fine);
        assert_eq!(gaussian_filter(0, 0, sigma), Ok(want));
    }
}

#[test]
fn zero_sigma_is_refused() {
    assert_eq!(gaussian_filter(0, 0, 0), Err(DogError::InvalidParameter));
    assert_eq!(gaussian_filter(5, -3, 0), Err(DogError::InvalidParameter));
    assert_eq!(Kernel::new(0, 4, 4).unwrap_err(), DogError::InvalidParameter);
}

#[test]
fn centre_weight_is_the_largest() {
    for sigma in [1u32, 64, 128, 256, 362, 768, 2560, 100000] {
        let centre = gaussian_filter(0, 0, sigma).unwrap();
        for dx in -12..=12 {
            for dy in -12..=12 {
                assert!(gaussian_filter(dx, dy, sigma).unwrap() <= centre);
            }
        }
    }
}

#[test]
fn weights_fall_with_the_distance() {
    for sigma in [64u32, 256, 500, 768, 5000] {
        let mut previous = gaussian_filter(0, 0, sigma).unwrap();
        for d in 1..60 {
            let w = gaussian_filter(d, 0, sigma).unwrap();
            assert!(w <= previous);
            let diagonal = gaussian_filter(d, d, sigma).unwrap();
            assert!(diagonal <= w);
            previous = w;
        }
    }
}

#[test]
fn a_wider_kernel_has_a_lower_peak() {
    let strict = (FINE_STRICT / 256) as u32;
    for sigma in [1u32, 2, 255, 256, 1000, 99999, 100000, 100001, strict - 2, strict - 1] {
        let narrow = gaussian_filter(0, 0, sigma).unwrap();
        let wide = gaussian_filter(0, 0, sigma + 1).unwrap();
        assert!(wide < narrow, "{}", sigma);
    }
    assert_eq!(gaussian_filter(0, 0, 100000), Ok(1202540750190));
    assert_eq!(gaussian_filter(0, 0, 100001), Ok(1202516699736));
}

#[test]
fn the_peak_never_rises_with_sigma() {
    let mut previous = gaussian_filter(0, 0, 1 << 22).unwrap();
    for step in 1..2000u32 {
        let w = gaussian_filter(0, 0, (1 << 22) + step * 2000000).unwrap();
        assert!(w <= previous);
        previous = w;
    }
    assert_eq!(gaussian_filter(0, 0, u32::MAX - 1), gaussian_filter(0, 0, u32::MAX));
}

#[test]
fn kernel_is_symmetric() {
    for sigma in [128u32, 256, 768] {
        for dx in 0..8 {
            for dy in 0..8 {
                let w = gaussian_filter(dx, dy, sigma);
                assert_eq!(gaussian_filter(-dx, dy, sigma), w);
                assert_eq!(gaussian_filter(dx, -dy, sigma), w);
                assert_eq!(gaussian_filter(dy, dx, sigma), w);
            }
        }
    }
}

#[test]
fn weights_follow_the_closed_form() {
    for sigma in [102u32, 128, 256, 362, 768, 2560, 25600] {
        let s = sigma as f64 / SIGMA_ONE as f64;
        let r = std::cmp::min(kernel_radius(sigma) as i32, 40);
        for dx in -r..r {
            for dy in -r..r {
                let got = as_real(gaussian_filter(dx, dy, sigma).unwrap());
                let want = closed_form(dx, dy, s);
                assert!((got - want).abs() <= want * 1e-6, "{} {} {}", sigma, dx, dy);
            }
        }
    }
}

#[test]
fn weights_stay_below_the_limit() {
    assert!(gaussian_filter(0, 0, 1).unwrap() < WEIGHT_LIMIT);
    assert!(gaussian_filter(i32::MIN, i32::MIN, 1).unwrap() < WEIGHT_LIMIT);
    assert_eq!(gaussian_filter(i32::MIN, i32::MAX, 1), Ok(0));
    assert!(Kernel::new(1, 1, 1).unwrap().weight(0, 0) < WEIGHT_LIMIT);
    assert_eq!(Kernel::new(1, 1, 1).unwrap().weight(0, 0), 788097106045063415115945523);
}

#[test]
fn weights_vanish_for_a_huge_sigma() {
    assert_eq!(Kernel::new(FINE_VANISHING, 1, 1).unwrap().weight(0, 0), 0);
    assert_eq!(Kernel::new(u64::MAX, 2, 2).unwrap().weight(1, 1), 0);
    assert_eq!(Kernel::new(FINE_VANISHING / 2, 1, 1).unwrap().weight(0, 0), 2);
    assert_eq!(gaussian_filter(0, 0, u32::MAX), Ok(651));
}

#[test]
fn squared_length_of_offsets() {
    assert_eq!(squared_length(0, 0), 0);
    assert_eq!(squared_length(3, -4), 25);
    assert_eq!(squared_length(-3, 4), 25);
    assert_eq!(squared_length(i64::MIN, i64::MIN), 1u128 << 127);
    assert_eq!(squared_length(i64::MAX, 0), (i64::MAX as u128) * (i64::MAX as u128));
}

#[test]
fn radius_is_three_sigma_rounded_up() {
    assert_eq!(kernel_radius(0), 0);
    assert_eq!(kernel_radius(1), 1);
    assert_eq!(kernel_radius(85), 1);
    assert_eq!(kernel_radius(86), 2);
    assert_eq!(kernel_radius(128), 2);
    assert_eq!(kernel_radius(256), 3);
    assert_eq!(kernel_radius(257), 4);
    assert_eq!(kernel_radius(384), 5);
    assert_eq!(kernel_radius(768), 9);
    assert_eq!(kernel_radius(u32::MAX), 50331648);
}

#[test]
fn fine_radius_agrees_with_the_radius() {
    for sigma in [0u32, 1, 85, 86, 256, 257, 768, 123456, u32::MAX] {
        assert_eq!(fine_radius(sigma as u64 * 256), kernel_radius(sigma) as u64);
    }
    assert_eq!(fine_radius(1), 1);
    assert_eq!(fine_radius(21845), 1);
    assert_eq!(fine_radius(21846), 2);
    assert_eq!(fine_radius(u64::MAX), 844424930131968);
}

#[test]
fn kernel_table_holds_the_weights() {
    let kernel = Kernel::new(65536, 4, 3).unwrap();
    assert_eq!(kernel.fine(), 65536);
    assert_eq!(kernel.radius(), 3);
    for a in 0..4u32 {
        for b in 0..3u32 {
            assert_eq!(Ok(kernel.weight(a, b)), gaussian_filter(a as i32, b as i32, 256));
        }
    }
    assert_eq!(kernel.weight(0, 0), 183493156462224064);
    assert_eq!(kernel.weight(3, 2), 275870801559311);
}

#[test]
fn kernel_table_may_be_empty() {
    let kernel = Kernel::new(76800, 0, 0).unwrap();
    assert_eq!(kernel.fine(), 76800);
    assert_eq!(kernel.radius(), 4);
}
