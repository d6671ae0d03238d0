use window_decorations::decorations::{
    Action, Button, CursorIcon, Decorations, Hit, ResizeDirection, Timestamp,
};

fn millis(millis: u128) -> Timestamp {
    Timestamp { nanos: 5_000_000_000 + millis * 1_000_000 }
}

#[test]
fn button_requires_release_over_same_button() {
    let mut decorations = Decorations::default();
    let close = Hit::Button(Button::Close);
    assert_eq!(decorations.press(close, false, millis(0)), None);
    assert_eq!(decorations.release(Hit::Titlebar, false), None);
}

#[test]
fn fullscreen_double_click_exits_fullscreen() {
    let mut decorations = Decorations::default();
    let now = millis(0);
    assert_eq!(decorations.press(Hit::Titlebar, true, now), Some(Action::Drag));
    assert_eq!(
        decorations.press(Hit::Titlebar, true, millis(100)),
        Some(Action::ExitFullscreen)
    );
}

#[test]
fn buttons_act_when_released_over_themselves() {
    let cases = [
        (Button::Minimize, false, Action::Minimize),
        (Button::Minimize, true, Action::Minimize),
        (Button::Maximize, false, Action::ToggleMaximized),
        (Button::Maximize, true, Action::ExitFullscreen),
        (Button::Close, false, Action::Close),
        (Button::Close, true, Action::Close),
    ];
    for (button, fullscreen, action) in cases {
        let mut decorations = Decorations::default();
        assert_eq!(decorations.press(Hit::Button(button), fullscreen, millis(0)), None);
        assert_eq!(decorations.pressed, Some(button));
        assert_eq!(decorations.release(Hit::Button(button), fullscreen), Some(action));
        assert_eq!(decorations.pressed, None);
        assert_eq!(decorations.release(Hit::Button(button), fullscreen), None);
    }
}

#[test]
fn another_button_does_nothing() {
    let mut decorations = Decorations::default();
    decorations.press(Hit::Button(Button::Close), false, millis(0));
    assert_eq!(decorations.release(Hit::Button(Button::Minimize), false), None);
    assert_eq!(decorations.release(Hit::Button(Button::Close), false), None);
}

#[test]
fn double_click_interval_is_exclusive() {
    let mut decorations = Decorations::default();
    assert_eq!(decorations.press(Hit::Titlebar, false, millis(0)), Some(Action::Drag));
    assert_eq!(decorations.press(Hit::Titlebar, false, millis(400)), Some(Action::Drag));
    assert_eq!(
        decorations.press(Hit::Titlebar, false, millis(799)),
        Some(Action::ToggleMaximized)
    );
    // The double click used up both clicks.
    assert_eq!(decorations.press(Hit::Titlebar, false, millis(800)), Some(Action::Drag));
}

#[test]
fn earlier_clock_counts_as_no_time() {
    let mut decorations = Decorations::default();
    decorations.press(Hit::Titlebar, false, millis(1000));
    assert_eq!(
        decorations.press(Hit::Titlebar, false, millis(0)),
        Some(Action::ToggleMaximized)
    );
}

#[test]
fn resize_starts_at_once() {
    let mut decorations = Decorations::default();
    let hit = Hit::Resize(ResizeDirection::SouthWest);
    assert_eq!(
        decorations.press(hit, false, millis(0)),
        Some(Action::Resize(ResizeDirection::SouthWest))
    );
    assert_eq!(decorations.press(Hit::Nothing, false, millis(0)), None);
    assert_eq!(decorations.last_titlebar_click, None);
}

#[test]
fn hover_reports_changes() {
    let mut decorations = Decorations::default();
    assert!(decorations.update_hover(Hit::Titlebar));
    assert!(!decorations.update_hover(Hit::Titlebar));
    assert!(decorations.clear_pointer_state());
    assert!(!decorations.clear_pointer_state());
    decorations.press(Hit::Button(Button::Close), false, millis(0));
    assert!(decorations.clear_pointer_state());
    assert_eq!(decorations.pressed, None);
}

#[test]
fn cursor_icons_match_the_window_system() {
    let directions = [
        (ResizeDirection::East, winit::window::ResizeDirection::East),
        (ResizeDirection::North, winit::window::ResizeDirection::North),
        (ResizeDirection::NorthEast, winit::window::ResizeDirection::NorthEast),
        (ResizeDirection::NorthWest, winit::window::ResizeDirection::NorthWest),
        (ResizeDirection::South, winit::window::ResizeDirection::South),
        (ResizeDirection::SouthEast, winit::window::ResizeDirection::SouthEast),
        (ResizeDirection::SouthWest, winit::window::ResizeDirection::SouthWest),
        (ResizeDirection::West, winit::window::ResizeDirection::West),
    ];
    for (direction, outside) in directions {
        let icon = Hit::Resize(direction).cursor_icon();
        let expected = winit::window::CursorIcon::from(outside);
        assert_eq!(format!("{:?}", icon), format!("{:?}", expected));
    }
    assert_eq!(Hit::Button(Button::Close).cursor_icon(), CursorIcon::Pointer);
    assert_eq!(Hit::Titlebar.cursor_icon(), CursorIcon::Default);
    assert_eq!(Hit::Nothing.cursor_icon(), CursorIcon::Default);
}

#[test]
fn hover_does_not_disturb_a_press() {
    let mut decorations = Decorations::default();
    let maximize = Hit::Button(Button::Maximize);
    decorations.update_hover(maximize);
    decorations.press(maximize, false, millis(0));
    assert_eq!(decorations.hovered, maximize);
    decorations.update_hover(Hit::Titlebar);
    decorations.update_hover(maximize);
    assert_eq!(decorations.release(maximize, false), Some(Action::ToggleMaximized));
    assert_eq!(decorations.hovered, maximize);
}

#[test]
fn cleared_pointer_releases_nothing() {
    let mut decorations = Decorations::default();
    decorations.press(Hit::Button(Button::Close), false, millis(0));
    decorations.clear_pointer_state();
    assert_eq!(decorations.release(Hit::Button(Button::Close), false), None);
}
