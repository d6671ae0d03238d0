use window_decorations::binary64::Binary64;
use window_decorations::kde_blur::{
    logical_length, BlurGeometry, BlurProgress, BlurSetup, BlurStep, KdeBlur,
};
use window_decorations::region::{rounded_region, Rectangle};

fn number(value: f64) -> Binary64 {
    Binary64::from_bits(value.to_bits())
}

#[test]
fn logical_geometry_respects_fractional_scale() {
    let width = logical_length(500, number(1.25));
    let height = logical_length(375, number(1.25));
    assert_eq!((width, height), (400, 300));
}

#[test]
fn logical_lengths_are_rounded_as_the_machine_does() {
    for scale in [1., 1.1, 1.25, 1.5, 4. / 3., 2., 0., -1., f64::NAN, f64::INFINITY, 1e-300] {
        for length in [0_u32, 1, 2, 3, 5, 7, 100, 333, 1919, 2560, 4_000_000_000, u32::MAX] {
            let expected = (f64::from(length) / scale).round().max(1.) as u32;
            assert_eq!(logical_length(length, number(scale)), expected);
        }
    }
}

#[test]
fn square_region_is_one_rectangle() {
    assert_eq!(
        rounded_region(400, 300, 0),
        vec![Rectangle { x: 0, y: 0, width: 400, height: 300 }]
    );
    assert_eq!(rounded_region(1, 300, 8), vec![Rectangle { x: 0, y: 0, width: 1, height: 300 }]);
}

/// The rows of a corner, in the machine's arithmetic.
fn expected_region(width: u32, height: u32, radius: u32) -> Vec<Rectangle> {
    let radius = radius.min(width / 2).min(height / 2);
    let mut rectangles = Vec::new();
    if radius == 0 {
        rectangles.push(Rectangle { x: 0, y: 0, width: width as i32, height: height as i32 });
        return rectangles;
    }
    if height > 2 * radius {
        rectangles.push(Rectangle {
            x: 0,
            y: radius as i32,
            width: width as i32,
            height: (height - 2 * radius) as i32,
        });
    }
    let radius_squared = f64::from(radius * radius);
    for row in 0..radius {
        let center_offset = f64::from(radius) - f64::from(row) - 0.5;
        let inside = (radius_squared - center_offset * center_offset).sqrt();
        let inset = (f64::from(radius) - inside).ceil() as u32;
        let row_width = (width - 2 * inset) as i32;
        rectangles.push(Rectangle { x: inset as i32, y: row as i32, width: row_width, height: 1 });
        rectangles.push(Rectangle {
            x: inset as i32,
            y: (height - row - 1) as i32,
            width: row_width,
            height: 1,
        });
    }
    rectangles
}

#[test]
fn rounded_regions_are_those_of_the_circle() {
    for radius in 0..300 {
        assert_eq!(rounded_region(1000, 800, radius), expected_region(1000, 800, radius));
    }
    for size in 1..40 {
        assert_eq!(rounded_region(size, 16, 8), expected_region(size, 16, 8));
        assert_eq!(rounded_region(21, size, 8), expected_region(21, size, 8));
    }
    for radius in [1000, 4096, 30_011, 65_535] {
        assert_eq!(
            rounded_region(u32::MAX, u32::MAX, radius),
            expected_region(u32::MAX, u32::MAX, radius)
        );
    }
}

#[test]
fn corner_rows_of_the_window_radius() {
    let insets: Vec<i32> =
        rounded_region(400, 300, 8).iter().skip(1).step_by(2).map(|row| row.x).collect();
    assert_eq!(insets, vec![6, 4, 3, 2, 1, 1, 1, 1]);
}

#[test]
fn rounded_region_covers_each_pixel_once() {
    let (width, height, radius) = (25, 19, 8);
    let rectangles = rounded_region(width, height, radius);
    let (width, height, radius) = (width as i32, height as i32, radius as i32);
    for y in -1..height + 1 {
        for x in -1..width + 1 {
            let covering = rectangles
                .iter()
                .filter(|r| {
                    r.x <= x && x < r.x + r.width && r.y <= y && y < r.y + r.height
                })
                .count();
            let column = x.min(width - 1 - x);
            let row = y.min(height - 1 - y);
            let across = 2 * (radius - column);
            let along = 2 * (radius - row) - 1;
            let inside = column >= 0
                && row >= 0
                && (column >= radius
                    || row >= radius
                    || across * across + along * along <= 4 * radius * radius);
            assert_eq!(covering, if inside { 1 } else { 0 });
        }
    }
}

fn count(steps: &[BlurStep], step: BlurStep) -> usize {
    steps.iter().filter(|s| **s == step).count()
}

#[test]
fn blur_needs_a_protocol() {
    assert!(KdeBlur::new(false, false).is_none());
    assert!(KdeBlur::new(true, false).is_some());
    assert!(KdeBlur::new(false, true).is_some());
}

#[test]
fn background_effect_is_preferred() {
    let mut blur = KdeBlur::new(true, true).unwrap();
    let steps = blur.update(true, 2, 2, number(1.), false);
    assert_eq!(
        steps,
        vec![
            BlurStep::CreateRegion,
            BlurStep::AddRectangle(Rectangle { x: 0, y: 0, width: 2, height: 2 }),
            BlurStep::CreateEffect,
            BlurStep::SetEffectRegion,
            BlurStep::CommitSurface,
            BlurStep::KeepRegion,
            BlurStep::Flush,
        ]
    );
    assert_eq!(blur.geometry, Some(BlurGeometry { width: 2, height: 2, radius: 0 }));
    // The same shape again asks for nothing.
    assert_eq!(blur.update(true, 2, 2, number(1.), false), vec![BlurStep::DispatchPending]);
    // A new shape keeps the effect and replaces the region.
    assert_eq!(
        blur.update(true, 4, 2, number(2.), false),
        vec![
            BlurStep::CreateRegion,
            BlurStep::AddRectangle(Rectangle { x: 0, y: 0, width: 2, height: 1 }),
            BlurStep::SetEffectRegion,
            BlurStep::CommitSurface,
            BlurStep::DestroyRegion,
            BlurStep::KeepRegion,
            BlurStep::Flush,
        ]
    );
    assert_eq!(
        blur.update(false, 4, 2, number(2.), false),
        vec![
            BlurStep::ClearEffectRegion,
            BlurStep::DestroyEffect,
            BlurStep::CommitSurface,
            BlurStep::DestroyRegion,
            BlurStep::Flush,
        ]
    );
    assert_eq!(blur.update(false, 4, 2, number(2.), false), vec![BlurStep::Flush]);
    assert_eq!(blur.close(), vec![BlurStep::Flush, BlurStep::DestroyEffectManager]);
}

#[test]
fn older_blur_is_used_alone() {
    let mut blur = KdeBlur::new(false, true).unwrap();
    let steps = blur.update(true, 400, 300, number(1.), true);
    assert_eq!(count(&steps, BlurStep::CreateBlur), 1);
    assert_eq!(count(&steps, BlurStep::CreateEffect), 0);
    assert_eq!(
        steps[steps.len() - 6..],
        [
            BlurStep::CreateBlur,
            BlurStep::SetBlurRegion,
            BlurStep::CommitBlur,
            BlurStep::CommitSurface,
            BlurStep::KeepRegion,
            BlurStep::Flush,
        ]
    );
    assert_eq!(
        blur.close(),
        vec![
            BlurStep::UnsetBlur,
            BlurStep::ReleaseBlur,
            BlurStep::CommitSurface,
            BlurStep::DestroyRegion,
            BlurStep::Flush,
        ]
    );
}

#[test]
fn blur_lifetime_destroys_what_it_creates() {
    for (ext_manager, legacy_manager) in [(true, false), (false, true), (true, true)] {
        let mut blur = KdeBlur::new(ext_manager, legacy_manager).unwrap();
        let mut steps = Vec::new();
        for (enabled, width) in
            [(true, 10), (true, 20), (false, 20), (true, 20), (true, 20), (true, 30)]
        {
            steps.extend(blur.update(enabled, width, 40, number(1.5), true));
        }
        steps.extend(blur.close());
        assert_eq!(count(&steps, BlurStep::CreateRegion), 4);
        assert_eq!(count(&steps, BlurStep::DestroyRegion), 4);
        assert_eq!(
            count(&steps, BlurStep::CreateEffect),
            count(&steps, BlurStep::DestroyEffect)
        );
        assert_eq!(count(&steps, BlurStep::CreateBlur), count(&steps, BlurStep::ReleaseBlur));
        assert_eq!(
            count(&steps, BlurStep::CreateEffect) + count(&steps, BlurStep::CreateBlur),
            2
        );
    }
}

fn set_up(outcomes: [bool; 6]) -> BlurProgress {
    let mut progress = BlurProgress::Next(BlurSetup::ImportSurface);
    for outcome in outcomes {
        if let BlurProgress::Next(setup) = progress {
            progress = setup.advance(outcome);
        }
    }
    progress
}

#[test]
fn blur_setup_needs_every_step_but_one_protocol() {
    assert_eq!(
        set_up([true; 6]),
        BlurProgress::Ready(KdeBlur::new(true, true).unwrap())
    );
    assert_eq!(
        set_up([true, true, true, true, false, true]),
        BlurProgress::Ready(KdeBlur::new(false, true).unwrap())
    );
    assert_eq!(set_up([true, true, true, true, false, false]), BlurProgress::Unavailable);
    for missing in 0..4 {
        let mut outcomes = [true; 6];
        outcomes[missing] = false;
        assert_eq!(set_up(outcomes), BlurProgress::Unavailable);
    }
    assert_eq!(BlurSetup::BindCompositor.versions(), Some((1, 1)));
    assert_eq!(BlurSetup::ReadGlobals.versions(), None);
}

#[test]
fn whole_logical_lengths_are_exact() {
    for (scale, denominator) in [(1.25, 4), (1.5, 2), (2., 1), (1.125, 8)] {
        for pixels in [1_u32, 2, 77, 1000, 1_000_000] {
            let pixels = pixels * denominator;
            let length = (f64::from(pixels) * scale) as u32;
            assert_eq!(logical_length(length, number(scale)), pixels);
        }
    }
}

#[test]
fn longer_lengths_are_no_shorter() {
    for scale in [0., 0.3, 1., 1.1, 1e9, f64::INFINITY, f64::NAN] {
        let mut last = 1;
        for length in 0..3000 {
            let logical = logical_length(length, number(scale));
            assert!(logical >= last);
            last = logical;
        }
    }
}
