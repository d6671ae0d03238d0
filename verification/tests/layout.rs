use window_decorations::binary64::Binary64;
use window_decorations::decorations::{Button, Hit, Layout, Position, ResizeDirection};

fn number(value: f64) -> Binary64 {
    Binary64::from_bits(value.to_bits())
}

fn layout(width: f64, height: f64, scale_factor: f64, resizable: bool) -> Layout {
    Layout::new(number(width), number(height), number(scale_factor), resizable)
}

fn position(x: f64, y: f64) -> Position {
    Position { x: number(x), y: number(y) }
}

fn value(number: Binary64) -> f64 {
    f64::from_bits(number.to_bits())
}

#[test]
fn hit_test_prioritizes_resize_edges() {
    let layout = layout(500., 300., 1., true);
    assert_eq!(layout.hit_test(position(499., 1.)), Hit::Resize(ResizeDirection::NorthEast));
    assert_eq!(layout.hit_test(position(480., 15.)), Hit::Button(Button::Close));
    assert_eq!(layout.hit_test(position(200., 15.)), Hit::Titlebar);
    assert_eq!(layout.hit_test(position(200., 100.)), Hit::Nothing);
}

#[test]
fn maximized_layout_has_no_resize_edges() {
    let layout = layout(500., 300., 1., false);
    assert_eq!(layout.hit_test(position(1., 1.)), Hit::Titlebar);
}

#[test]
fn sizes_follow_the_scale() {
    for scale in [1., 1.1, 1.25, 1.5, 2., 1. / 3.] {
        let layout = layout(500., 300., scale, true);
        assert_eq!(value(layout.titlebar_height()), 30. * scale);
        assert_eq!(value(layout.button_width()), 42. * scale);
        assert_eq!(value(layout.button_left(Button::Close)), 500. - 42. * scale);
        assert_eq!(value(layout.button_left(Button::Maximize)), 500. - 2. * (42. * scale));
        assert_eq!(value(layout.button_left(Button::Minimize)), 500. - 3. * (42. * scale));
    }
}

#[test]
fn buttons_stay_in_a_narrow_window() {
    let layout = layout(50., 300., 1., false);
    assert_eq!(value(layout.button_left(Button::Close)), 8.);
    assert_eq!(value(layout.button_left(Button::Maximize)), 0.);
    assert_eq!(value(layout.button_left(Button::Minimize)), 0.);
    assert_eq!(layout.hit_test(position(8., 10.)), Hit::Button(Button::Close));
    assert_eq!(layout.hit_test(position(7., 10.)), Hit::Button(Button::Maximize));
}

#[test]
fn edges_and_corners_have_their_directions() {
    let layout = layout(500., 300., 1., true);
    let cases = [
        (0., 0., ResizeDirection::NorthWest),
        (11.5, 11.5, ResizeDirection::NorthWest),
        (488., 11., ResizeDirection::NorthEast),
        (11., 288., ResizeDirection::SouthWest),
        (488., 288., ResizeDirection::SouthEast),
        (5., 150., ResizeDirection::West),
        (494., 150., ResizeDirection::East),
        (250., 5., ResizeDirection::North),
        (250., 294., ResizeDirection::South),
    ];
    for (x, y, direction) in cases {
        assert_eq!(layout.hit_test(position(x, y)), Hit::Resize(direction));
    }
    assert_eq!(layout.hit_test(position(250., 6.)), Hit::Titlebar);
    assert_eq!(layout.hit_test(position(6., 150.)), Hit::Nothing);
    assert_eq!(layout.hit_test(position(-0.1, 150.)), Hit::Nothing);
    assert_eq!(layout.hit_test(position(500., 150.)), Hit::Nothing);
    assert_eq!(layout.hit_test(position(250., 300.)), Hit::Nothing);
}

#[test]
fn invalid_position_counts_as_titlebar() {
    let layout = layout(500., 300., 1., true);
    assert_eq!(layout.hit_test(position(f64::NAN, f64::NAN)), Hit::Titlebar);
}

/// The rules of the hit test, in the machine's arithmetic.
fn expected_hit(width: f64, height: f64, scale: f64, resizable: bool, x: f64, y: f64) -> Hit {
    if x < 0. || y < 0. || x >= width || y >= height {
        return Hit::Nothing;
    }
    if resizable {
        let edge = 6. * scale;
        let corner = 12. * scale;
        let left = x < corner;
        let right = x >= width - corner;
        let top = y < corner;
        let bottom = y >= height - corner;
        let direction = match (left, right, top, bottom) {
            (true, _, true, _) => Some(ResizeDirection::NorthWest),
            (_, true, true, _) => Some(ResizeDirection::NorthEast),
            (true, _, _, true) => Some(ResizeDirection::SouthWest),
            (_, true, _, true) => Some(ResizeDirection::SouthEast),
            _ if x < edge => Some(ResizeDirection::West),
            _ if x >= width - edge => Some(ResizeDirection::East),
            _ if y < edge => Some(ResizeDirection::North),
            _ if y >= height - edge => Some(ResizeDirection::South),
            _ => None,
        };
        if let Some(direction) = direction {
            return Hit::Resize(direction);
        }
    }
    if y >= 30. * scale {
        return Hit::Nothing;
    }
    for (button, index) in [(Button::Close, 1.), (Button::Maximize, 2.), (Button::Minimize, 3.)] {
        if x >= (width - index * (42. * scale)).max(0.) {
            return Hit::Button(button);
        }
    }
    Hit::Titlebar
}

#[test]
fn every_point_is_hit_by_the_rules() {
    for scale in [1., 1.1, 1.25, 4. / 3., 0., -1.] {
        for resizable in [true, false] {
            for (width, height) in [(200., 90.), (20., 15.), (130.7, 61.3)] {
                let layout = layout(width, height, scale, resizable);
                let mut x = -3.;
                while x < width + 3. {
                    let mut y = -3.;
                    while y < height + 3. {
                        assert_eq!(
                            layout.hit_test(position(x, y)),
                            expected_hit(width, height, scale, resizable, x, y)
                        );
                        y += 3.3;
                    }
                    x += 3.3;
                }
            }
        }
    }
}

#[test]
fn buttons_are_in_order() {
    for width in [0., 10., 100., 126., 127.5, 1e300, f64::INFINITY] {
        for scale in [0., 1., 1.1, 3.7, 1e306, f64::INFINITY] {
            let layout = layout(width, 300., scale, false);
            let close = value(layout.button_left(Button::Close));
            let maximize = value(layout.button_left(Button::Maximize));
            let minimize = value(layout.button_left(Button::Minimize));
            assert!(width >= close && close >= maximize && maximize >= minimize && minimize >= 0.);
        }
    }
}

#[test]
fn whole_scale_is_laid_out_in_whole_pixels() {
    let layout = layout(1000., 600., 2., true);
    assert_eq!(layout.hit_test(position(916., 59.)), Hit::Button(Button::Close));
    assert_eq!(layout.hit_test(position(915., 59.)), Hit::Button(Button::Maximize));
    assert_eq!(layout.hit_test(position(832., 59.)), Hit::Button(Button::Maximize));
    assert_eq!(layout.hit_test(position(831., 59.)), Hit::Button(Button::Minimize));
    assert_eq!(layout.hit_test(position(748., 59.)), Hit::Button(Button::Minimize));
    assert_eq!(layout.hit_test(position(747., 59.)), Hit::Titlebar);
    assert_eq!(layout.hit_test(position(747., 60.)), Hit::Nothing);
    assert_eq!(layout.hit_test(position(11., 60.)), Hit::Resize(ResizeDirection::West));
    assert_eq!(layout.hit_test(position(12., 60.)), Hit::Nothing);
}

#[test]
fn doubled_layouts_are_hit_alike() {
    for (width, height, scale) in [(200., 90., 1.1), (61.3, 40.7, 4. / 3.), (300., 200., 0.7)] {
        for resizable in [true, false] {
            let once = layout(width, height, scale, resizable);
            let twice = layout(2. * width, 2. * height, 2. * scale, resizable);
            let mut x = -2.;
            while x < width + 2. {
                let mut y = -2.;
                while y < height + 2. {
                    assert_eq!(
                        once.hit_test(position(x, y)),
                        twice.hit_test(position(2. * x, 2. * y))
                    );
                    y += 1.7;
                }
                x += 1.7;
            }
        }
    }
}
