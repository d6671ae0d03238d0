use window_decorations::binary32::Binary32;
use window_decorations::binary64::Binary64;
use window_decorations::decorations::CORNER_RADIUS;
use window_decorations::falloff::{
    blend, complementary_error_function, gaussian_exponent, gaussian_tail,
};
use window_decorations::kde_shadow::{
    attach_shadow, shadow_buffers, shadow_mask, shadow_masks, shadow_sample, shadow_samples,
    signed_distance, Falloff, KdeShadow, Piece, PixelFalloff, ShadowGeometry, ShadowProgress,
    ShadowSample, ShadowSetup, ShadowStep, Side, SignedDistance,
};

fn single(value: f32) -> Binary32 {
    Binary32::from_bits(value.to_bits())
}

fn value(number: Binary32) -> f32 {
    f32::from_bits(number.to_bits())
}

fn hypotenuse(distance: SignedDistance) -> Binary32 {
    match distance.legs() {
        Some((across, along)) => single(value(across).hypot(value(along))),
        None => single(0.),
    }
}

fn falloff(mask: Binary32, sample: ShadowSample) -> PixelFalloff {
    let (primary, secondary) = match sample {
        ShadowSample::Covered => (single(0.), single(0.)),
        ShadowSample::Lit { primary, secondary } => (hypotenuse(primary), hypotenuse(secondary)),
    };
    let (first, second) = match sample.exponents(primary, secondary) {
        Some((first, second)) => (single(value(first).exp()), single(value(second).exp())),
        None => (single(0.), single(0.)),
    };
    PixelFalloff {
        mask,
        primary: Falloff { hypotenuse: primary, exponential: first },
        secondary: Falloff { hypotenuse: secondary, exponential: second },
    }
}

fn mask_hypotenuses(
    index: usize,
    width: u32,
    height: u32,
    geometry: ShadowGeometry,
) -> Vec<Binary32> {
    shadow_masks(index, width, height, geometry).into_iter().map(hypotenuse).collect()
}

fn shadow_pixels(index: usize, width: u32, height: u32, geometry: ShadowGeometry) -> Vec<u8> {
    let masks = mask_hypotenuses(index, width, height, geometry);
    let samples = shadow_samples(index, width, height, geometry, &masks);
    let falloffs: Vec<PixelFalloff> =
        masks.into_iter().zip(samples).map(|(mask, sample)| falloff(mask, sample)).collect();
    window_decorations::kde_shadow::shadow_pixels(index, width, height, geometry, &falloffs)
}

/// One pixel's opacity, without its neighbours.
fn pixel_alpha(index: usize, x: u32, y: u32, geometry: ShadowGeometry) -> u8 {
    let mask = hypotenuse(shadow_mask(index, x, y, geometry));
    let sample = shadow_sample(index, x, y, geometry, mask);
    sample.alpha(falloff(mask, sample))
}

#[test]
fn shadow_fades_away_from_window() {
    let geometry = ShadowGeometry::new();
    let pixels = shadow_pixels(2, 1, geometry.top, geometry);
    let outer_alpha = pixels[3];
    let inner_alpha = pixels[((geometry.top - 1) * 4 + 3) as usize];
    assert!(inner_alpha > outer_alpha);
}

#[test]
fn corner_is_radial() {
    let geometry = ShadowGeometry::new();
    let width = geometry.left + geometry.corner_radius;
    let height = geometry.top + geometry.corner_radius;
    let pixels = shadow_pixels(1, width, height, geometry);
    let outer_alpha = pixels[3];
    let x = geometry.left - 1;
    let y = geometry.top - 1;
    let corner_alpha = pixels[((y * width + x) * 4 + 3) as usize];
    assert_eq!(outer_alpha, 0);
    assert!(corner_alpha > 0);
}

#[test]
fn corner_shadow_follows_window_rounding() {
    let geometry = ShadowGeometry::new();
    let width = geometry.left + geometry.corner_radius;
    let height = geometry.top + geometry.corner_radius;
    let edge = shadow_pixels(2, 1, geometry.top, geometry);
    let corner = shadow_pixels(1, width, height, geometry);
    let edge_inner_alpha = edge[((geometry.top - 1) * 4 + 3) as usize];
    let x = geometry.left - 1;
    let y = geometry.top - 1;
    let corner_at_sharp_point = corner[((y * width + x) * 4 + 3) as usize];
    assert!(corner_at_sharp_point < edge_inner_alpha);
}

#[test]
fn corner_shadow_does_not_overlap_translucent_window() {
    let geometry = ShadowGeometry::new();
    let width = geometry.left + geometry.corner_radius;
    let height = geometry.top + geometry.corner_radius;
    let corner = shadow_pixels(1, width, height, geometry);

    // This pixel is just inside the rounded surface boundary. Any shadow alpha here would
    // show through a translucent window as a dark fringe.
    let x = geometry.left;
    let y = geometry.top + geometry.corner_radius - 1;
    assert_eq!(corner[((y * width + x) * 4 + 3) as usize], 0);
}

#[test]
fn breeze_shadow_extends_further_below_window() {
    let geometry = ShadowGeometry::new();
    assert!(geometry.bottom > geometry.top);
    assert_eq!(geometry.left, geometry.right);
}

#[test]
fn shadow_geometry_uses_logical_surface_coordinates() {
    let geometry = ShadowGeometry::new();
    assert_eq!(geometry.corner_radius, CORNER_RADIUS as u32);
}

#[test]
fn shadow_geometry_has_these_lengths() {
    let geometry = ShadowGeometry::new();
    assert_eq!(
        geometry,
        ShadowGeometry { left: 65, top: 53, right: 65, bottom: 77, corner_radius: 8 }
    );
}

#[test]
fn buffers_hold_their_pixels() {
    let geometry = ShadowGeometry::new();
    let buffers = shadow_buffers(geometry);
    let sizes: Vec<(u32, u32)> = buffers.iter().map(|b| (b.width, b.height)).collect();
    assert_eq!(
        sizes,
        vec![(65, 1), (73, 61), (1, 53), (73, 61), (65, 1), (73, 85), (1, 77), (73, 85)]
    );
    for buffer in buffers {
        let pixels = shadow_pixels(buffer.index, buffer.width, buffer.height, geometry);
        assert_eq!(pixels.len(), buffer.size as usize);
        assert_eq!(buffer.stride, buffer.width * 4);
        assert_eq!(buffer.size, buffer.stride * buffer.height);
        for pixel in pixels.chunks(4) {
            assert_eq!(pixel[..3], [0, 0, 0]);
        }
    }
}

fn machine_distance(index: usize, x: f32, y: f32, radius: f32, offset_y: f32) -> f32 {
    match index {
        0 => -x,
        1 => (x - radius).hypot(y - radius - offset_y) - radius,
        2 => offset_y - y,
        3 => (x + radius).hypot(y - radius - offset_y) - radius,
        4 => x,
        5 => (x + radius).hypot(y + radius - offset_y) - radius,
        6 => y - offset_y,
        _ => (x - radius).hypot(y + radius - offset_y) - radius,
    }
}

fn machine_error_function(value: f32) -> f32 {
    let sign = value.signum();
    let value = value.abs();
    let t = 1. / value.mul_add(0.327_591_1, 1.);
    let polynomial = 1.061_405_4_f32
        .mul_add(t, -1.453_152_1)
        .mul_add(t, 1.421_413_8)
        .mul_add(t, -0.284_496_72)
        .mul_add(t, 0.254_829_6)
        * t;
    let error = 1. - polynomial * (-value * value).exp();
    1. - sign * error
}

fn machine_tail(distance: f32, blur_radius: f32) -> f32 {
    let standard_deviation = blur_radius * 0.5;
    let value = distance / (standard_deviation * std::f32::consts::SQRT_2);
    0.5 * machine_error_function(value)
}

/// The opacity of a pixel, in the machine's arithmetic.
fn machine_alpha(index: usize, x: u32, y: u32, geometry: ShadowGeometry) -> u8 {
    let x = x as f32 + 0.5;
    let y = y as f32 + 0.5;
    let radius = geometry.corner_radius as f32;
    let (x, y) = match index {
        0 => (x - geometry.left as f32, 0.),
        1 => (x - geometry.left as f32, y - geometry.top as f32),
        2 => (0., y - geometry.top as f32),
        3 => (x - radius, y - geometry.top as f32),
        4 => (x, 0.),
        5 => (x - radius, y - radius),
        6 => (0., y),
        _ => (x - geometry.left as f32, y - radius),
    };
    let alpha = if machine_distance(index, x, y, radius, 0.) < 0. {
        0.
    } else {
        let primary = 0.8 * machine_tail(machine_distance(index, x, y, radius, 12.), 48.);
        let secondary = 0.2 * machine_tail(machine_distance(index, x, y, radius, 6.), 24.);
        (primary + secondary).clamp(0., 1.)
    };
    (255. * alpha).round() as u8
}

#[test]
fn every_pixel_is_as_dark_as_the_machine_computes() {
    let geometry = ShadowGeometry::new();
    for buffer in shadow_buffers(geometry) {
        let pixels = shadow_pixels(buffer.index, buffer.width, buffer.height, geometry);
        for y in 0..buffer.height {
            for x in 0..buffer.width {
                let alpha = pixels[((y * buffer.width + x) * 4 + 3) as usize];
                assert_eq!(alpha, machine_alpha(buffer.index, x, y, geometry));
            }
        }
    }
}

#[test]
fn tails_are_those_of_the_machine() {
    let mut distance = -200.;
    while distance < 200. {
        for blur_radius in [48., 24., 7., 0.3, 1e-40, 3e38] {
            let exponent = gaussian_exponent(single(distance), single(blur_radius));
            let exponential = single(value(exponent).exp());
            let tail = gaussian_tail(single(distance), single(blur_radius), exponential);
            assert_eq!(value(tail).to_bits(), machine_tail(distance, blur_radius).to_bits());
        }
        let exponential = single((-distance.abs() * distance.abs()).exp());
        let error = complementary_error_function(single(distance), exponential);
        assert_eq!(value(error).to_bits(), machine_error_function(distance).to_bits());
        distance += 0.37;
    }
}

#[test]
fn half_of_the_tail_lies_beyond_the_edge() {
    let tail = gaussian_tail(single(0.), single(48.), single(1.));
    assert!((value(tail) - 0.5).abs() < 1e-6);
    assert_eq!(blend(single(0.5), single(0.5)), 128);
    assert_eq!(blend(single(0.), single(0.)), 0);
    assert_eq!(blend(single(1.), single(1.)), 255);
    assert_eq!(blend(single(2.), single(2.)), 255);
    assert_eq!(blend(single(-1.), single(0.)), 0);
}

#[test]
fn pixels_under_the_window_are_covered() {
    let geometry = ShadowGeometry::new();
    for buffer in shadow_buffers(geometry) {
        let masks = mask_hypotenuses(buffer.index, buffer.width, buffer.height, geometry);
        let samples = shadow_samples(buffer.index, buffer.width, buffer.height, geometry, &masks);
        for (i, sample) in samples.iter().enumerate() {
            let x = (i % buffer.width as usize) as f64 + 0.5;
            let y = (i / buffer.width as usize) as f64 + 0.5;
            let radius = f64::from(geometry.corner_radius);
            let (left, top) = (f64::from(geometry.left), f64::from(geometry.top));
            // How deep the pixel lies behind the two sides that meet in the corner.
            let (deep_x, deep_y) = match buffer.index {
                1 => (x - left, y - top),
                3 => (radius - x, y - top),
                5 => (radius - x, radius - y),
                7 => (x - left, radius - y),
                _ => (-1., -1.),
            };
            let round = (radius - deep_x).powi(2) + (radius - deep_y).powi(2) < radius * radius;
            let under = deep_x > 0. && deep_y > 0. && round;
            assert_eq!(matches!(sample, ShadowSample::Covered), under);
        }
    }
}

fn scale() -> Binary64 {
    Binary64::from_whole(1)
}

#[test]
fn attached_shadow_has_eight_pieces() {
    let steps = attach_shadow(ShadowGeometry::new());
    assert_eq!(steps[0], ShadowStep::CreateShadow);
    let pieces = [
        Piece::Left,
        Piece::TopLeft,
        Piece::Top,
        Piece::TopRight,
        Piece::Right,
        Piece::BottomRight,
        Piece::Bottom,
        Piece::BottomLeft,
    ];
    for (buffer, piece) in pieces.into_iter().enumerate() {
        assert_eq!(steps[1 + buffer], ShadowStep::Attach { piece, buffer });
    }
    assert_eq!(
        steps[9..],
        [
            ShadowStep::SetOffset { side: Side::Left, offset: 65 },
            ShadowStep::SetOffset { side: Side::Top, offset: 53 },
            ShadowStep::SetOffset { side: Side::Right, offset: 65 },
            ShadowStep::SetOffset { side: Side::Bottom, offset: 77 },
            ShadowStep::CommitShadow,
        ]
    );
}

#[test]
fn shadow_is_toggled() {
    let (mut shadow, steps) = KdeShadow::new(2, scale());
    assert_eq!(steps.len(), 16);
    assert_eq!(steps[14..], [ShadowStep::CommitSurface, ShadowStep::Flush]);
    assert_eq!(shadow.update(true, scale()), vec![ShadowStep::DispatchPending]);
    assert_eq!(
        shadow.update(false, scale()),
        vec![
            ShadowStep::UnsetShadow,
            ShadowStep::DestroyShadow,
            ShadowStep::CommitSurface,
            ShadowStep::Flush,
        ]
    );
    assert_eq!(shadow.update(false, scale()), vec![ShadowStep::DispatchPending]);
    assert_eq!(shadow.update(true, scale()), steps);
    assert!(shadow.enabled);
}

#[test]
fn closing_destroys_shadow_and_buffers() {
    let (shadow, _) = KdeShadow::new(1, scale());
    let mut expected =
        vec![ShadowStep::UnsetShadow, ShadowStep::CommitSurface, ShadowStep::DestroyShadow];
    expected.extend((0..8).map(|buffer| ShadowStep::DestroyBuffer { buffer }));
    expected.push(ShadowStep::Flush);
    assert_eq!(shadow.close(), expected);

    let (mut shadow, _) = KdeShadow::new(2, scale());
    shadow.update(false, scale());
    let steps = shadow.close();
    assert!(!steps.contains(&ShadowStep::DestroyShadow));
    assert_eq!(steps[steps.len() - 2..], [ShadowStep::DestroyManager, ShadowStep::Flush]);
}

#[test]
fn shadow_setup_needs_every_step() {
    let steps = [
        ShadowSetup::ImportSurface,
        ShadowSetup::WrapSurface,
        ShadowSetup::ReadGlobals,
        ShadowSetup::BindManager,
        ShadowSetup::BindSharedMemory,
        ShadowSetup::CreateBuffers,
    ];
    for (i, step) in steps.into_iter().enumerate() {
        let next =
            if i < 5 { ShadowProgress::Next(steps[i + 1]) } else { ShadowProgress::Ready };
        assert_eq!(step.advance(true), next);
        let warn = step != ShadowSetup::BindManager;
        assert_eq!(step.advance(false), ShadowProgress::Unavailable { warn });
    }
    assert_eq!(ShadowSetup::BindManager.versions(), Some((1, 2)));
    assert_eq!(ShadowSetup::BindSharedMemory.versions(), Some((1, 1)));
    assert_eq!(ShadowSetup::CreateBuffers.versions(), None);
}

#[test]
fn shadow_lifetime_destroys_what_it_creates() {
    let (mut shadow, mut steps) = KdeShadow::new(2, scale());
    for enabled in [true, false, false, true, false, true] {
        steps.extend(shadow.update(enabled, scale()));
    }
    steps.extend(shadow.close());
    let count = |step: ShadowStep| steps.iter().filter(|s| **s == step).count();
    assert_eq!(count(ShadowStep::CreateShadow), 3);
    assert_eq!(count(ShadowStep::DestroyShadow), 3);
    assert_eq!(count(ShadowStep::DestroyManager), 1);
    for buffer in 0..8 {
        assert_eq!(count(ShadowStep::DestroyBuffer { buffer }), 1);
    }
}

/// Some numbers with every kind of sign, size and validity.
const NUMBERS: [f32; 14] = [
    0.,
    -0.,
    0.5,
    -0.5,
    7.3,
    -8.,
    8.,
    12.,
    1e-40,
    3e9,
    -1e38,
    f32::INFINITY,
    f32::NEG_INFINITY,
    f32::NAN,
];

fn same(a: f32, b: f32) -> bool {
    a.to_bits() == b.to_bits() || (a.is_nan() && b.is_nan())
}

fn distance(index: usize, x: f32, y: f32, radius: f32, offset_y: f32) -> f32 {
    let distance =
        signed_distance(index, single(x), single(y), single(radius), single(offset_y));
    value(distance.length(hypotenuse(distance)))
}

#[test]
fn distances_are_those_of_the_machine() {
    for index in 0..9 {
        for x in NUMBERS {
            for y in NUMBERS {
                for (radius, offset_y) in [(8., 0.), (8., 12.), (0.3, -6.), (2e9, 1.5)] {
                    assert!(same(
                        distance(index, x, y, radius, offset_y),
                        machine_distance(index, x, y, radius, offset_y)
                    ));
                }
            }
        }
    }
}

#[test]
fn distances_flip_with_the_piece() {
    for x in NUMBERS {
        for y in NUMBERS {
            for (radius, offset_y) in [(8., 12.), (0.3, -6.), (2071., 6.)] {
                for (a, b) in [(0, 4), (1, 3), (7, 5)] {
                    assert!(same(
                        distance(a, x, y, radius, offset_y),
                        distance(b, -x, y, radius, offset_y)
                    ));
                }
                for (a, b) in [(2, 6), (1, 7), (3, 5)] {
                    assert!(same(
                        distance(a, x, y, radius, offset_y),
                        distance(b, x, -y, radius, -offset_y)
                    ));
                }
                for corner in [1, 3, 5, 7] {
                    assert!(!(distance(corner, x, y, radius, offset_y) < -radius));
                }
            }
        }
    }
}

#[test]
fn left_and_right_pieces_are_mirror_images() {
    let geometry =
        ShadowGeometry { left: 33, top: 20, right: 33, bottom: 41, corner_radius: 11 };
    let width = geometry.left + geometry.corner_radius;
    for (right, left, width) in [(3, 1, width), (5, 7, width), (4, 0, geometry.left)] {
        for x in 0..width {
            for y in 0..31 {
                assert_eq!(
                    pixel_alpha(right, x, y, geometry),
                    pixel_alpha(left, width - 1 - x, y, geometry)
                );
            }
        }
    }
}

#[test]
fn large_geometries_are_rounded_as_the_machine_does() {
    let round = ShadowGeometry { left: 65, top: 53, right: 65, bottom: 77, corner_radius: 2071 };
    let sample = |index, x, y, geometry| {
        let mask = hypotenuse(shadow_mask(index, x, y, geometry));
        shadow_sample(index, x, y, geometry, mask)
    };
    // The hypotenuse rounds to the radius, although the pixel lies just inside.
    assert!(matches!(sample(5, 2070, 45, round), ShadowSample::Lit { .. }));
    assert!(matches!(sample(5, 2069, 45, round), ShadowSample::Covered));
    assert_eq!(pixel_alpha(5, 2070, 45, round), machine_alpha(5, 2070, 45, round));

    let long = 16_777_219;
    let wide = ShadowGeometry { left: long, top: long, right: 65, bottom: 77, corner_radius: 8 };
    for index in 0..8 {
        for x in [0, 5, long - 70, long - 9, long - 1, long, long + 3] {
            for y in [0, 3, long - 30, long - 2, long + 1, long + 7] {
                assert_eq!(pixel_alpha(index, x, y, wide), machine_alpha(index, x, y, wide));
            }
        }
    }
}

#[test]
fn corner_radii_up_to_2048_are_masked_exactly() {
    for radius in [1_u32, 8, 100, 1023, 1024, 2047, 2048] {
        let geometry =
            ShadowGeometry { left: 1, top: 1, right: 1, bottom: 1, corner_radius: radius };
        let diameter = 2 * i64::from(radius);
        for y in 0..radius.min(300) {
            let along = diameter - (2 * i64::from(y) + 1);
            let exact = |x: u32| {
                let across = diameter - (2 * i64::from(x) + 1);
                across * across + along * along < diameter * diameter
            };
            // Around the first covered pixel of the row.
            let first = (0..radius).find(|x| exact(*x)).unwrap_or(radius - 1);
            for x in first.saturating_sub(2)..(first + 2).min(radius) {
                let (x, y) = (x + 1, y + 1);
                let mask = hypotenuse(shadow_mask(1, x, y, geometry));
                let covered = matches!(
                    shadow_sample(1, x, y, geometry, mask),
                    ShadowSample::Covered
                );
                assert_eq!(covered, exact(x - 1));
            }
        }
    }
}

#[test]
fn darker_layers_give_a_darker_pixel() {
    let layers = [-2., -0., 0., 1e-40, 0.1, 0.25, 0.5, 0.9, 1., 3., 3e38];
    for (i, primary) in layers.into_iter().enumerate() {
        for (j, secondary) in layers.into_iter().enumerate() {
            let pale = blend(single(primary), single(secondary));
            for darker_primary in &layers[i..] {
                for darker_secondary in &layers[j..] {
                    let dark = blend(single(*darker_primary), single(*darker_secondary));
                    assert!(pale <= dark);
                }
            }
        }
    }
}

#[test]
fn covered_pixels_have_no_exponents() {
    assert!(ShadowSample::Covered.exponents(single(1.), single(1.)).is_none());
    let geometry = ShadowGeometry::new();
    let sample = shadow_sample(0, 10, 0, geometry, single(0.));
    let (first, second) = sample.exponents(single(0.), single(0.)).unwrap();
    let exponent = |blur_radius| gaussian_exponent(single(54.5), single(blur_radius)).to_bits();
    assert_eq!(first.to_bits(), exponent(48.));
    assert_eq!(second.to_bits(), exponent(24.));
}

#[test]
fn side_pieces_fade_pixel_by_pixel() {
    let geometry = ShadowGeometry::new();
    for index in [0, 2, 4, 6] {
        let length = [geometry.left, geometry.top, geometry.right, geometry.bottom][index / 2];
        // From the window outward.
        let alphas: Vec<u8> = (0..length)
            .map(|away| match index {
                0 => pixel_alpha(0, length - 1 - away, 0, geometry),
                2 => pixel_alpha(2, 0, length - 1 - away, geometry),
                4 => pixel_alpha(4, away, 0, geometry),
                _ => pixel_alpha(6, 0, away, geometry),
            })
            .collect();
        for pair in alphas.windows(2) {
            assert!(pair[0] >= pair[1]);
        }
        assert!(alphas[0] > alphas[alphas.len() - 1]);
    }
}
