//! The kernel against the same computation in processor arithmetic.
use backdrop::kernel::{
    blur_sigma, downsample_step, gaussian_exponents, gaussian_weights, kernel_radius, padding,
};
use backdrop::single::F32;

fn soft(value: f32) -> F32 {
    F32::from_bits(value.to_bits())
}

fn hard(value: F32) -> f32 {
    f32::from_bits(value.to_bits())
}

fn taps(sigma: f32) -> Vec<F32> {
    gaussian_exponents(soft(sigma)).iter().map(|e| soft(hard(*e).exp())).collect()
}

fn expected_weights(sigma: f32) -> [[f32; 4]; 33] {
    let mut weights = [[0.; 4]; 33];
    let radius = (sigma * 3.).ceil() as usize;
    if radius > 128 {
        return weights;
    }
    let mut total = 0.;
    for k in -(radius as i32)..=radius as i32 {
        let weight = (-(k as f32) * k as f32 / (2. * sigma * sigma)).exp();
        total += weight;
        let k = k.unsigned_abs() as usize;
        weights[k / 4][k % 4] = weight;
    }
    for weight in weights.iter_mut().flatten() {
        *weight /= total;
    }
    weights
}

#[test]
fn weights_equal_the_direct_computation() {
    for step in 0..253 {
        let sigma = 1. + step as f32 * 0.25;
        let weights = gaussian_weights(soft(sigma), &taps(sigma));
        let expected = expected_weights(sigma);
        assert_eq!(weights.len(), 132);
        for k in 0..132 {
            assert_eq!(weights[k].to_bits(), expected[k / 4][k % 4].to_bits(), "{} {}", sigma, k);
        }
    }
}

#[test]
fn weights_sum_to_one_over_both_sides() {
    for sigma in [1., 2.5, 3., 16., 24., 32., 42.] {
        let weights = gaussian_weights(soft(sigma), &taps(sigma));
        let mut total = hard(weights[0]);
        for weight in weights[1..].iter() {
            total += 2. * hard(*weight);
        }
        assert!((total - 1.).abs() < 1e-4, "{}: {}", sigma, total);
    }
}

#[test]
fn wide_kernels_leave_the_table_empty() {
    for sigma in [43., 64.] {
        assert!(kernel_radius(soft(sigma)) > 128);
        assert!(gaussian_exponents(soft(sigma)).is_empty());
        let weights = gaussian_weights(soft(sigma), &Vec::new());
        assert!(weights.iter().all(|weight| weight.to_bits() == 0));
    }
    assert_eq!(kernel_radius(soft(42.5)), 128);
    assert_eq!(gaussian_exponents(soft(42.5)).len(), 129);
}

#[test]
fn weights_past_the_reach_are_zero() {
    let weights = gaussian_weights(soft(1.), &taps(1.));
    assert_eq!(kernel_radius(soft(1.)), 3);
    for k in 0..132 {
        assert_eq!(weights[k].to_bits() == 0, k > 3, "{}", k);
    }
}

#[test]
fn radii_are_kept_between_one_pixel_and_sixty_four() {
    let cases = [
        (0., 1.), (-5., 1.), (0.5, 1.), (1., 1.), (2.5, 2.5), (16., 16.), (24., 24.), (32., 32.),
        (64., 64.), (180., 64.), (f32::MAX, 64.), (f32::MIN, 1.),
    ];
    for (radius, sigma) in cases {
        assert_eq!(hard(blur_sigma(soft(radius))), sigma, "{}", radius);
    }
}

#[test]
fn reach_and_padding_follow_three_sigma() {
    let cases = [(1., 3), (2.5, 8), (3., 9), (16., 48), (24., 72), (32., 96), (64., 192)];
    for (sigma, reach) in cases {
        assert_eq!(kernel_radius(soft(sigma)), reach);
        assert_eq!(hard(padding(soft(sigma))), reach as f32 + 2.);
    }
}

#[test]
fn images_shrink_by_an_eighth_of_sigma() {
    let cases = [
        (1., 1), (2.5, 1), (8., 1), (15.9, 1), (16., 2), (23.9, 2), (24., 3), (31.9, 3), (32., 4),
        (40., 4), (64., 4),
    ];
    for (sigma, step) in cases {
        assert_eq!(downsample_step(soft(sigma)), step, "{}", sigma);
        assert_eq!(downsample_step(soft(sigma)), ((sigma / 8.) as u32).clamp(1, 4));
    }
}

#[test]
fn exponents_fall_from_zero() {
    for sigma in [1., 2.5, 16., 42.5] {
        let exponents = gaussian_exponents(soft(sigma));
        let values: Vec<f32> = exponents.iter().map(|e| f32::from_bits(e.to_bits())).collect();
        assert_eq!(values[0], 0.);
        assert!(values.windows(2).all(|pair| pair[1] < pair[0]));
    }
}

#[test]
fn weights_are_shares() {
    for sigma in [1., 2.5, 16., 42.5] {
        let taps: Vec<F32> = gaussian_exponents(soft(sigma))
            .iter()
            .map(|e| soft(f32::from_bits(e.to_bits()).exp()))
            .collect();
        let reach = taps.len() - 1;
        let weights: Vec<f32> = gaussian_weights(soft(sigma), &taps)
            .iter()
            .map(|weight| f32::from_bits(weight.to_bits()))
            .collect();
        assert!(weights.iter().all(|weight| (0. ..=1.).contains(weight)));
        assert!(weights[..=reach].windows(2).all(|pair| pair[1] <= pair[0]));
        assert!(weights[reach + 1..].iter().all(|weight| weight.to_bits() == 0));
        let total: f32 = weights[0] + 2. * weights[1..].iter().sum::<f32>();
        assert!((total - 1.).abs() < 1e-5);
    }
}
