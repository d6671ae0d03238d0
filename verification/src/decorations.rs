//! Title bar, buttons and resize edges of a window that draws its own frame.

use vstd::prelude::*;

use crate::binary64::Binary64;
#[allow(unused_imports)]
use crate::number::{
    at_least, difference, doubled, is_below_power, is_short, lemma_difference_doubled,
    lemma_difference_ordered, lemma_doubled_ordered, lemma_multiple_doubled,
    lemma_multiple_ordered, lemma_whole_difference, lemma_whole_multiple, lemma_whole_ordered,
    less, multiple, or_zero, whole, zero, Format, Real,
};
#[allow(unused_imports)]
use crate::pattern::lemma_value_is_rounded;
#[allow(unused_imports)]
use crate::powers::lemma_pow2_ordered;

verus! {

/// Height of the title bar in logical pixels.
pub const TITLEBAR_HEIGHT: u32 = 30;

/// Width of a title bar button in logical pixels.
pub const BUTTON_WIDTH: u32 = 42;

/// Radius of the window's corners in logical pixels.
pub const CORNER_RADIUS: u32 = 8;

/// How far a resize edge reaches into the window, in logical pixels.
pub const RESIZE_EDGE: u32 = 6;

/// How far a resize corner reaches along both of its edges, in logical pixels.
pub const RESIZE_CORNER: u32 = 12;

/// Two title bar clicks closer than this, in nanoseconds, are a double click.
pub const DOUBLE_CLICK_INTERVAL: u128 = 400_000_000;

/// A title bar button.
#[derive(Debug, Copy, Clone, PartialEq, Eq, Structural)]
pub enum Button {
    Minimize,
    Maximize,
    Close,
}

/// The edge or corner that a resize drags.
#[derive(Debug, Copy, Clone, PartialEq, Eq, Structural)]
pub enum ResizeDirection {
    East,
    North,
    NorthEast,
    NorthWest,
    South,
    SouthEast,
    SouthWest,
    West,
}

/// The pointer shapes that the decorations ask for.
#[derive(Debug, Copy, Clone, PartialEq, Eq, Structural)]
pub enum CursorIcon {
    Default,
    Pointer,
    EResize,
    NResize,
    NeResize,
    NwResize,
    SResize,
    SeResize,
    SwResize,
    WResize,
}

/// What lies under the pointer.
#[derive(Debug, Copy, Clone, PartialEq, Eq, Structural)]
pub enum Hit {
    Nothing,
    Titlebar,
    Button(Button),
    Resize(ResizeDirection),
}

/// What the window is asked to do.
#[derive(Debug, Copy, Clone, PartialEq, Eq, Structural)]
pub enum Action {
    Minimize,
    ToggleMaximized,
    ExitFullscreen,
    Close,
    Drag,
    Resize(ResizeDirection),
}

/// The pointer shape for dragging an edge or a corner.
pub open spec fn resize_cursor(direction: ResizeDirection) -> CursorIcon {
    match direction {
        ResizeDirection::East => CursorIcon::EResize,
        ResizeDirection::North => CursorIcon::NResize,
        ResizeDirection::NorthEast => CursorIcon::NeResize,
        ResizeDirection::NorthWest => CursorIcon::NwResize,
        ResizeDirection::South => CursorIcon::SResize,
        ResizeDirection::SouthEast => CursorIcon::SeResize,
        ResizeDirection::SouthWest => CursorIcon::SwResize,
        ResizeDirection::West => CursorIcon::WResize,
    }
}

impl ResizeDirection {
    /// The pointer shape for dragging this edge or corner.
    pub fn cursor_icon(self) -> (icon: CursorIcon)
        ensures
            icon == resize_cursor(self),
    {
        match self {
            ResizeDirection::East => CursorIcon::EResize,
            ResizeDirection::North => CursorIcon::NResize,
            ResizeDirection::NorthEast => CursorIcon::NeResize,
            ResizeDirection::NorthWest => CursorIcon::NwResize,
            ResizeDirection::South => CursorIcon::SResize,
            ResizeDirection::SouthEast => CursorIcon::SeResize,
            ResizeDirection::SouthWest => CursorIcon::SwResize,
            ResizeDirection::West => CursorIcon::WResize,
        }
    }
}

impl Hit {
    /// The pointer shape to show over this part of the window.
    pub fn cursor_icon(self) -> (icon: CursorIcon)
        ensures
            icon == match self {
                Hit::Button(_) => CursorIcon::Pointer,
                Hit::Resize(direction) => resize_cursor(direction),
                Hit::Nothing | Hit::Titlebar => CursorIcon::Default,
            },
    {
        match self {
            Hit::Button(_) => CursorIcon::Pointer,
            Hit::Resize(direction) => direction.cursor_icon(),
            Hit::Nothing | Hit::Titlebar => CursorIcon::Default,
        }
    }
}

/// A point in physical pixels, from the window's top left corner.
#[derive(Debug, Copy, Clone)]
pub struct Position {
    pub x: Binary64,
    pub y: Binary64,
}

/// Where the parts of the frame lie in a window of a given size.
#[derive(Debug, Copy, Clone)]
pub struct Layout {
    pub width: Binary64,
    pub height: Binary64,
    pub scale_factor: Binary64,
    pub resizable: bool,
}

/// How many button widths the left side of a button lies from the window's right side.
pub open spec fn button_index(button: Button) -> nat {
    match button {
        Button::Minimize => 3,
        Button::Maximize => 2,
        Button::Close => 1,
    }
}

impl Layout {
    /// Height of the title bar in physical pixels.
    pub open spec fn spec_titlebar_height(self) -> Real {
        multiple(Format::Double, self.scale_factor@, TITLEBAR_HEIGHT as nat)
    }

    /// Width of a button in physical pixels.
    pub open spec fn spec_button_width(self) -> Real {
        multiple(Format::Double, self.scale_factor@, BUTTON_WIDTH as nat)
    }

    /// Left side of a button in physical pixels, not left of the window.
    pub open spec fn spec_button_left(self, button: Button) -> Real {
        or_zero(
            difference(
                Format::Double,
                self.width@,
                multiple(Format::Double, self.spec_button_width(), button_index(button)),
            ),
        )
    }

    /// Depth of the resize edges in physical pixels.
    pub open spec fn edge(self) -> Real {
        multiple(Format::Double, self.scale_factor@, RESIZE_EDGE as nat)
    }

    /// Depth of the resize corners in physical pixels.
    pub open spec fn corner(self) -> Real {
        multiple(Format::Double, self.scale_factor@, RESIZE_CORNER as nat)
    }

    /// The point is not in the window.
    pub open spec fn outside(self, x: Real, y: Real) -> bool {
        ||| less(x, zero())
        ||| less(y, zero())
        ||| at_least(x, self.width@)
        ||| at_least(y, self.height@)
    }

    /// The edge or corner that a point in a resizable window drags: a corner before an edge, and
    /// the sides before top and bottom.
    pub open spec fn resize_direction(self, x: Real, y: Real) -> Option<ResizeDirection> {
        let left = less(x, self.corner());
        let right = at_least(x, difference(Format::Double, self.width@, self.corner()));
        let top = less(y, self.corner());
        let bottom = at_least(y, difference(Format::Double, self.height@, self.corner()));
        if left && top {
            Some(ResizeDirection::NorthWest)
        } else if right && top {
            Some(ResizeDirection::NorthEast)
        } else if left && bottom {
            Some(ResizeDirection::SouthWest)
        } else if right && bottom {
            Some(ResizeDirection::SouthEast)
        } else if less(x, self.edge()) {
            Some(ResizeDirection::West)
        } else if at_least(x, difference(Format::Double, self.width@, self.edge())) {
            Some(ResizeDirection::East)
        } else if less(y, self.edge()) {
            Some(ResizeDirection::North)
        } else if at_least(y, difference(Format::Double, self.height@, self.edge())) {
            Some(ResizeDirection::South)
        } else {
            None
        }
    }

    /// The part of the title bar at a horizontal position.
    pub open spec fn titlebar_part(self, x: Real) -> Hit {
        if at_least(x, self.spec_button_left(Button::Close)) {
            Hit::Button(Button::Close)
        } else if at_least(x, self.spec_button_left(Button::Maximize)) {
            Hit::Button(Button::Maximize)
        } else if at_least(x, self.spec_button_left(Button::Minimize)) {
            Hit::Button(Button::Minimize)
        } else {
            Hit::Titlebar
        }
    }

    /// What lies at a point: resize edges before the title bar, nothing below the title bar.
    pub open spec fn hit_at(self, x: Real, y: Real) -> Hit {
        if self.outside(x, y) {
            Hit::Nothing
        } else if self.resizable && self.resize_direction(x, y) is Some {
            Hit::Resize(self.resize_direction(x, y)->0)
        } else if at_least(y, self.spec_titlebar_height()) {
            Hit::Nothing
        } else {
            self.titlebar_part(x)
        }
    }

    /// The layout of a window of the given size in physical pixels.
    pub fn new(
        width: Binary64,
        height: Binary64,
        scale_factor: Binary64,
        resizable: bool,
    ) -> (layout: Self)
        ensures
            layout == (Layout { width, height, scale_factor, resizable }),
    {
        Self { width, height, scale_factor, resizable }
    }

    /// Height of the title bar in physical pixels.
    pub fn titlebar_height(self) -> (height: Binary64)
        ensures
            height@ == self.spec_titlebar_height(),
    {
        self.scale_factor.times(TITLEBAR_HEIGHT)
    }

    /// Width of a button in physical pixels.
    pub fn button_width(self) -> (width: Binary64)
        ensures
            width@ == self.spec_button_width(),
    {
        self.scale_factor.times(BUTTON_WIDTH)
    }

    /// Left side of a button in physical pixels.
    pub fn button_left(self, button: Button) -> (left: Binary64)
        ensures
            left@ == self.spec_button_left(button),
    {
        let index: u32 = match button {
            Button::Minimize => 3,
            Button::Maximize => 2,
            Button::Close => 1,
        };
        self.width.minus(self.button_width().times(index)).or_zero()
    }

    /// What lies under the pointer.
    pub fn hit_test(self, position: Position) -> (hit: Hit)
        ensures
            hit == self.hit_at(position.x@, position.y@),
    {
        let x = position.x;
        let y = position.y;
        let zero = Binary64::zero();
        if x.less_than(zero) || y.less_than(zero) || x.is_at_least(self.width) || y.is_at_least(
            self.height,
        ) {
            return Hit::Nothing;
        }
        if self.resizable {
            let edge = self.scale_factor.times(RESIZE_EDGE);
            let corner = self.scale_factor.times(RESIZE_CORNER);
            let left_corner: bool = x.less_than(corner);
            let right_corner: bool = x.is_at_least(self.width.minus(corner));
            let top_corner: bool = y.less_than(corner);
            let bottom_corner: bool = y.is_at_least(self.height.minus(corner));
            let direction: Option<ResizeDirection> = if left_corner && top_corner {
                Some(ResizeDirection::NorthWest)
            } else if right_corner && top_corner {
                Some(ResizeDirection::NorthEast)
            } else if left_corner && bottom_corner {
                Some(ResizeDirection::SouthWest)
            } else if right_corner && bottom_corner {
                Some(ResizeDirection::SouthEast)
            } else if x.less_than(edge) {
                Some(ResizeDirection::West)
            } else if x.is_at_least(self.width.minus(edge)) {
                Some(ResizeDirection::East)
            } else if y.less_than(edge) {
                Some(ResizeDirection::North)
            } else if y.is_at_least(self.height.minus(edge)) {
                Some(ResizeDirection::South)
            } else {
                None
            };
            if let Some(direction) = direction {
                return Hit::Resize(direction);
            }
        }
        if y.is_at_least(self.titlebar_height()) {
            return Hit::Nothing;
        }
        if x.is_at_least(self.button_left(Button::Close)) {
            return Hit::Button(Button::Close);
        }
        if x.is_at_least(self.button_left(Button::Maximize)) {
            return Hit::Button(Button::Maximize);
        }
        if x.is_at_least(self.button_left(Button::Minimize)) {
            return Hit::Button(Button::Minimize);
        }
        Hit::Titlebar
    }
}

/// A moment on a clock that never goes back, in nanoseconds.
#[derive(Debug, Copy, Clone, PartialEq, Eq, Structural)]
pub struct Timestamp {
    pub nanos: u128,
}

/// A click now, after one at `last`, is the second of a double click. A clock that seems to have
/// gone back counts as no time.
pub open spec fn is_double_click(last: Option<Timestamp>, now: Timestamp) -> bool {
    last is Some && now.nanos < last->0.nanos + DOUBLE_CLICK_INTERVAL
}

/// Pointer state of the decorations.
#[derive(Debug)]
pub struct Decorations {
    pub hovered: Hit,
    pub pressed: Option<Button>,
    pub last_titlebar_click: Option<Timestamp>,
}

impl Default for Decorations {
    fn default() -> (result: Self)
        ensures
            result == (Decorations {
                hovered: Hit::Nothing,
                pressed: None,
                last_titlebar_click: None,
            }),
    {
        Self { hovered: Hit::Nothing, pressed: None, last_titlebar_click: None }
    }
}

/// The double click of the title bar, and the maximize button: leave full screen before anything
/// else.
pub open spec fn maximize_action(fullscreen: bool) -> Action {
    if fullscreen {
        Action::ExitFullscreen
    } else {
        Action::ToggleMaximized
    }
}

/// What a button does.
pub open spec fn button_action(button: Button, fullscreen: bool) -> Action {
    match button {
        Button::Minimize => Action::Minimize,
        Button::Maximize => maximize_action(fullscreen),
        Button::Close => Action::Close,
    }
}

impl Decorations {
    /// The state and the action after a press.
    pub open spec fn after_press(
        self,
        hit: Hit,
        fullscreen: bool,
        now: Timestamp,
    ) -> (Decorations, Option<Action>) {
        match hit {
            Hit::Button(button) => (Decorations { pressed: Some(button), ..self }, None),
            Hit::Resize(direction) => (self, Some(Action::Resize(direction))),
            Hit::Titlebar => if is_double_click(self.last_titlebar_click, now) {
                (
                    Decorations { last_titlebar_click: None, ..self },
                    Some(maximize_action(fullscreen)),
                )
            } else {
                (Decorations { last_titlebar_click: Some(now), ..self }, Some(Action::Drag))
            },
            Hit::Nothing => (self, None),
        }
    }

    /// The state and the action after a release.
    pub open spec fn after_release(self, hit: Hit, fullscreen: bool) -> (
        Decorations,
        Option<Action>,
    ) {
        (
            Decorations { pressed: None, ..self },
            if self.pressed is Some && hit == Hit::Button(self.pressed->0) {
                Some(button_action(self.pressed->0, fullscreen))
            } else {
                None
            },
        )
    }

    /// The state without a pointer.
    pub open spec fn cleared(self) -> Decorations {
        Decorations { hovered: Hit::Nothing, pressed: None, ..self }
    }

    /// The state with the pointer over a part of the window.
    pub open spec fn hovering(self, hit: Hit) -> Decorations {
        Decorations { hovered: hit, ..self }
    }

    /// Forget where the pointer is and what it holds; tells whether that changed anything.
    pub fn clear_pointer_state(&mut self) -> (changed: bool)
        ensures
            *final(self) == old(self).cleared(),
            changed == (*final(self) != *old(self)),
            final(self).hovered == Hit::Nothing,
            final(self).pressed is None,
            final(self).last_titlebar_click == old(self).last_titlebar_click,
            changed == (old(self).hovered != Hit::Nothing || old(self).pressed is Some),
    {
        let changed: bool = self.hovered != Hit::Nothing || self.pressed.is_some();
        self.hovered = Hit::Nothing;
        self.pressed = None;
        changed
    }

    /// Note what lies under the pointer; tells whether that changed.
    pub fn update_hover(&mut self, hit: Hit) -> (changed: bool)
        ensures
            *final(self) == old(self).hovering(hit),
            changed == (*final(self) != *old(self)),
            final(self).hovered == hit,
            final(self).pressed == old(self).pressed,
            final(self).last_titlebar_click == old(self).last_titlebar_click,
            changed == (old(self).hovered != hit),
    {
        if self.hovered == hit {
            return false;
        }
        self.hovered = hit;
        true
    }

    /// A press of the pointer.
    pub fn press(&mut self, hit: Hit, fullscreen: bool, now: Timestamp) -> (action: Option<Action>)
        ensures
            (*final(self), action) == old(self).after_press(hit, fullscreen, now),
            hit matches Hit::Resize(direction) ==> action == Some(Action::Resize(direction))
                && *final(self) == *old(self),
            final(self).hovered == old(self).hovered,
    {
        match hit {
            Hit::Button(button) => {
                self.pressed = Some(button);
                None
            },
            Hit::Resize(direction) => Some(Action::Resize(direction)),
            Hit::Titlebar => {
                let double_click: bool = match self.last_titlebar_click {
                    Some(last) => now.nanos < last.nanos || now.nanos - last.nanos
                        < DOUBLE_CLICK_INTERVAL,
                    None => false,
                };
                if double_click {
                    self.last_titlebar_click = None;
                    Some(
                        if fullscreen {
                            Action::ExitFullscreen
                        } else {
                            Action::ToggleMaximized
                        },
                    )
                } else {
                    self.last_titlebar_click = Some(now);
                    Some(Action::Drag)
                }
            },
            Hit::Nothing => None,
        }
    }

    /// A release of the pointer: a button acts where it is released over itself.
    pub fn release(&mut self, hit: Hit, fullscreen: bool) -> (action: Option<Action>)
        ensures
            (*final(self), action) == old(self).after_release(hit, fullscreen),
    {
        let pressed: Button = match self.pressed {
            Some(pressed) => pressed,
            None => {
                return None;
            },
        };
        self.pressed = None;
        if hit != Hit::Button(pressed) {
            return None;
        }
        Some(
            match pressed {
                Button::Minimize => Action::Minimize,
                Button::Maximize => if fullscreen {
                    Action::ExitFullscreen
                } else {
                    Action::ToggleMaximized
                },
                Button::Close => Action::Close,
            },
        )
    }
}

/// Every point of a resizable window that lies at an edge or in a corner resizes it, also where a
/// button or the title bar lies.
pub proof fn lemma_resize_edges_come_first(layout: Layout, x: Real, y: Real)
    requires
        layout.resizable,
        !layout.outside(x, y),
        less(x, layout.edge()) || less(y, layout.edge()) || at_least(
            x,
            difference(Format::Double, layout.width@, layout.edge()),
        ) || at_least(y, difference(Format::Double, layout.height@, layout.edge())) || ((less(
            x,
            layout.corner(),
        ) || at_least(x, difference(Format::Double, layout.width@, layout.corner()))) && (less(
            y,
            layout.corner(),
        ) || at_least(y, difference(Format::Double, layout.height@, layout.corner())))),
    ensures
        layout.hit_at(x, y) is Resize,
{
}

/// A window that is not resizable has no resize edges.
pub proof fn lemma_fixed_window_has_no_edges(layout: Layout, x: Real, y: Real)
    requires
        !layout.resizable,
    ensures
        !(layout.hit_at(x, y) is Resize),
{
}

/// Nothing is hit outside the window, and nothing but an edge below the title bar.
pub proof fn lemma_only_the_frame_is_hit(layout: Layout, x: Real, y: Real)
    ensures
        layout.outside(x, y) ==> layout.hit_at(x, y) is Nothing,
        at_least(y, layout.spec_titlebar_height()) ==> (layout.hit_at(x, y) is Nothing
            || layout.hit_at(x, y) is Resize),
        !layout.outside(x, y) && !at_least(y, layout.spec_titlebar_height()) ==> !(layout.hit_at(
            x,
            y,
        ) is Nothing),
{
}

/// From the right the buttons are close, maximize, minimize, and none starts outside the window.
pub proof fn lemma_buttons_in_order(layout: Layout)
    requires
        at_least(layout.scale_factor@, zero()),
        at_least(layout.width@, zero()),
    ensures
        at_least(layout.width@, layout.spec_button_left(Button::Close)),
        at_least(
            layout.spec_button_left(Button::Close),
            layout.spec_button_left(Button::Maximize),
        ),
        at_least(
            layout.spec_button_left(Button::Maximize),
            layout.spec_button_left(Button::Minimize),
        ),
        at_least(layout.spec_button_left(Button::Minimize), zero()),
{
    let format = Format::Double;
    let width = layout.width@;
    let button = layout.spec_button_width();
    lemma_multiple_ordered(format, layout.scale_factor@, BUTTON_WIDTH as nat, BUTTON_WIDTH as nat);
    lemma_multiple_ordered(format, button, 1, 2);
    lemma_multiple_ordered(format, button, 2, 3);
    let one = multiple(format, button, 1);
    let two = multiple(format, button, 2);
    let three = multiple(format, button, 3);
    lemma_difference_ordered(format, width, zero(), one);
    lemma_difference_ordered(format, width, one, two);
    lemma_difference_ordered(format, width, two, three);
    if width is Finite {
        lemma_value_is_rounded(format, layout.width.bits);
    }
}

/// What lies at a whole pixel of a window with a whole size and scale, counted in pixels.
pub open spec fn plain_hit(
    width: nat,
    height: nat,
    scale: nat,
    resizable: bool,
    x: nat,
    y: nat,
) -> Hit {
    let edge = RESIZE_EDGE * scale;
    let corner = RESIZE_CORNER * scale;
    let button = BUTTON_WIDTH * scale;
    let left = x < corner;
    let right = x >= width - corner;
    let top = y < corner;
    let bottom = y >= height - corner;
    if x >= width || y >= height {
        Hit::Nothing
    } else if resizable && left && top {
        Hit::Resize(ResizeDirection::NorthWest)
    } else if resizable && right && top {
        Hit::Resize(ResizeDirection::NorthEast)
    } else if resizable && left && bottom {
        Hit::Resize(ResizeDirection::SouthWest)
    } else if resizable && right && bottom {
        Hit::Resize(ResizeDirection::SouthEast)
    } else if resizable && x < edge {
        Hit::Resize(ResizeDirection::West)
    } else if resizable && x >= width - edge {
        Hit::Resize(ResizeDirection::East)
    } else if resizable && y < edge {
        Hit::Resize(ResizeDirection::North)
    } else if resizable && y >= height - edge {
        Hit::Resize(ResizeDirection::South)
    } else if y >= TITLEBAR_HEIGHT * scale {
        Hit::Nothing
    } else if x >= width - button {
        Hit::Button(Button::Close)
    } else if x >= width - 2 * button {
        Hit::Button(Button::Maximize)
    } else if x >= width - 3 * button {
        Hit::Button(Button::Minimize)
    } else {
        Hit::Titlebar
    }
}

proof fn lemma_past(x: nat, size: nat, depth: nat)
    requires
        is_short(Format::Double, size),
        is_short(Format::Double, depth),
    ensures
        ({
            let start = difference(
                Format::Double,
                whole(Format::Double, size),
                whole(Format::Double, depth),
            );
            &&& at_least(whole(Format::Double, x), start) <==> x >= size - depth
            &&& at_least(whole(Format::Double, x), or_zero(start)) <==> x >= size - depth
        }),
{
    let format = Format::Double;
    lemma_whole_difference(format, size, depth);
    lemma_pow2_ordered(0, 1074);
    let one = format.one();
    assert(x * one >= 0) by (nonlinear_arith)
        requires
            one > 0,
    ;
    assert(0 * one == 0);
    if size >= depth {
        lemma_whole_ordered(format, x, (size - depth) as nat);
        lemma_whole_ordered(format, 0, (size - depth) as nat);
    } else {
        let gap = (depth - size) as nat;
        assert(gap * one > 0) by (nonlinear_arith)
            requires
                gap > 0,
                one > 0,
        ;
    }
}

/// At a whole scale a window of a whole size is laid out in whole pixels: no rounding moves a
/// button, an edge or a corner.
pub proof fn lemma_whole_layout(
    layout: Layout,
    width: nat,
    height: nat,
    scale: nat,
    x: nat,
    y: nat,
)
    requires
        layout.width@ == whole(Format::Double, width),
        layout.height@ == whole(Format::Double, height),
        layout.scale_factor@ == whole(Format::Double, scale),
        is_short(Format::Double, width),
        is_short(Format::Double, height),
        is_short(Format::Double, 3 * (BUTTON_WIDTH as nat * scale)),
    ensures
        layout.hit_at(whole(Format::Double, x), whole(Format::Double, y)) == plain_hit(
            width,
            height,
            scale,
            layout.resizable,
            x,
            y,
        ),
{
    let format = Format::Double;
    lemma_pow2_ordered(0, 1074);
    assert(0 * format.one() == 0);
    assert(whole(format, 0) == zero());
    lemma_whole_ordered(format, x, 0);
    lemma_whole_ordered(format, y, 0);
    lemma_whole_ordered(format, x, width);
    lemma_whole_ordered(format, y, height);
    let edge = RESIZE_EDGE as nat * scale;
    let corner = RESIZE_CORNER as nat * scale;
    let button = BUTTON_WIDTH as nat * scale;
    let titlebar = TITLEBAR_HEIGHT as nat * scale;
    lemma_whole_multiple(format, scale, RESIZE_EDGE as nat);
    lemma_whole_multiple(format, scale, RESIZE_CORNER as nat);
    lemma_whole_multiple(format, scale, BUTTON_WIDTH as nat);
    lemma_whole_multiple(format, scale, TITLEBAR_HEIGHT as nat);
    lemma_whole_multiple(format, button, 1);
    lemma_whole_multiple(format, button, 2);
    lemma_whole_multiple(format, button, 3);
    lemma_whole_ordered(format, x, edge);
    lemma_whole_ordered(format, x, corner);
    lemma_whole_ordered(format, y, edge);
    lemma_whole_ordered(format, y, corner);
    lemma_whole_ordered(format, y, titlebar);
    lemma_past(x, width, edge);
    lemma_past(x, width, corner);
    lemma_past(y, height, edge);
    lemma_past(y, height, corner);
    lemma_past(x, width, 1 * button);
    lemma_past(x, width, 2 * button);
    lemma_past(x, width, 3 * button);
}

/// A button that is pressed acts when it is released over itself, and nothing acts when it is
/// released anywhere else; then nothing is held any more, so that a second release does nothing.
pub proof fn lemma_button_acts_on_release(
    decorations: Decorations,
    button: Button,
    hit: Hit,
    again: Hit,
    fullscreen: bool,
    now: Timestamp,
)
    ensures
        ({
            let (held, pressed) = decorations.after_press(Hit::Button(button), fullscreen, now);
            let (free, released) = held.after_release(hit, fullscreen);
            &&& pressed is None
            &&& released == if hit == Hit::Button(button) {
                Some(button_action(button, fullscreen))
            } else {
                None
            }
            &&& free.pressed is None
            &&& free.after_release(again, fullscreen) == (free, None::<Action>)
        }),
{
}

/// Of clicks on the title bar, each sooner than the interval after the one before, the first drags,
/// the second maximizes or leaves full screen, and the third drags again. A second click that
/// comes later drags, and is a first click for the one after it.
pub proof fn lemma_title_bar_clicks(
    decorations: Decorations,
    fullscreen: bool,
    first: Timestamp,
    second: Timestamp,
    third: Timestamp,
)
    requires
        !is_double_click(decorations.last_titlebar_click, first),
    ensures
        ({
            let (once, drag) = decorations.after_press(Hit::Titlebar, fullscreen, first);
            let (twice, next) = once.after_press(Hit::Titlebar, fullscreen, second);
            let last = twice.after_press(Hit::Titlebar, fullscreen, third).1;
            let maximize = Some(maximize_action(fullscreen));
            &&& drag == Some(Action::Drag)
            &&& if second.nanos < first.nanos + DOUBLE_CLICK_INTERVAL {
                next == maximize && last == Some(Action::Drag)
            } else {
                &&& next == Some(Action::Drag)
                &&& last == if third.nanos < second.nanos + DOUBLE_CLICK_INTERVAL {
                    maximize
                } else {
                    Some(Action::Drag)
                }
            }
        }),
{
}

/// Clearing twice is clearing once, and a release after it does nothing.
pub proof fn lemma_cleared_pointer(decorations: Decorations, hit: Hit, fullscreen: bool)
    ensures
        decorations.cleared().cleared() == decorations.cleared(),
        decorations.cleared().after_release(hit, fullscreen) == (
            decorations.cleared(),
            None::<Action>,
        ),
{
}

/// Presses and releases neither read nor change what the pointer hovers over, hovering changes
/// nothing else, and only a click on the title bar touches the last one.
pub proof fn lemma_hover_is_apart(
    decorations: Decorations,
    hover: Hit,
    hit: Hit,
    fullscreen: bool,
    now: Timestamp,
)
    ensures
        ({
            let (pressed, action) = decorations.after_press(hit, fullscreen, now);
            decorations.hovering(hover).after_press(hit, fullscreen, now) == (
                pressed.hovering(hover),
                action,
            )
        }),
        ({
            let (released, action) = decorations.after_release(hit, fullscreen);
            decorations.hovering(hover).after_release(hit, fullscreen) == (
                released.hovering(hover),
                action,
            )
        }),
        decorations.after_press(hit, fullscreen, now).0.hovered == decorations.hovered,
        decorations.after_release(hit, fullscreen).0.hovered == decorations.hovered,
        !(hit is Titlebar) ==> decorations.after_press(hit, fullscreen, now).0.last_titlebar_click
            == decorations.last_titlebar_click,
        decorations.after_release(hit, fullscreen).0.last_titlebar_click
            == decorations.last_titlebar_click,
{
}

/// The layout scales: a window of twice the size at twice the scale has the same part at twice the
/// coordinates, for sizes far from where numbers end.
#[verifier::spinoff_prover]
pub proof fn lemma_doubled_layout(layout: Layout, twice: Layout, x: Real, y: Real)
    requires
        is_below_power(layout.width@, 2080),
        is_below_power(layout.height@, 2080),
        is_below_power(layout.scale_factor@, 2080),
        twice.width@ == doubled(layout.width@),
        twice.height@ == doubled(layout.height@),
        twice.scale_factor@ == doubled(layout.scale_factor@),
        twice.resizable == layout.resizable,
    ensures
        twice.hit_at(doubled(x), doubled(y)) == layout.hit_at(x, y),
        twice.spec_titlebar_height() == doubled(layout.spec_titlebar_height()),
        twice.spec_button_width() == doubled(layout.spec_button_width()),
        forall|button: Button| #[trigger]
            twice.spec_button_left(button) == doubled(layout.spec_button_left(button)),
{
    let (width, height, scale) = (layout.width@, layout.height@, layout.scale_factor@);
    lemma_multiple_doubled(scale, TITLEBAR_HEIGHT as nat, 2080);
    lemma_multiple_doubled(scale, BUTTON_WIDTH as nat, 2080);
    lemma_multiple_doubled(scale, RESIZE_EDGE as nat, 2080);
    lemma_multiple_doubled(scale, RESIZE_CORNER as nat, 2080);
    lemma_pow2_ordered(2080, 2087);
    lemma_pow2_ordered(2087, 2094);
    lemma_difference_doubled(width, layout.edge(), 2087);
    lemma_difference_doubled(width, layout.corner(), 2087);
    lemma_difference_doubled(height, layout.edge(), 2087);
    lemma_difference_doubled(height, layout.corner(), 2087);
    assert forall|button: Button| #[trigger]
        twice.spec_button_left(button) == doubled(layout.spec_button_left(button)) by {
        let index = button_index(button);
        lemma_multiple_doubled(layout.spec_button_width(), index, 2087);
        let right = multiple(Format::Double, layout.spec_button_width(), index);
        lemma_difference_doubled(width, right, 2094);
        lemma_doubled_ordered(difference(Format::Double, width, right), zero());
    }
    lemma_same_hit(layout, twice, x, y);
}

/// Where every line of one layout lies at twice that of the other, the same parts are hit.
#[verifier::spinoff_prover]
proof fn lemma_same_hit(layout: Layout, twice: Layout, x: Real, y: Real)
    requires
        twice.resizable == layout.resizable,
        twice.width@ == doubled(layout.width@),
        twice.height@ == doubled(layout.height@),
        twice.edge() == doubled(layout.edge()),
        twice.corner() == doubled(layout.corner()),
        twice.spec_titlebar_height() == doubled(layout.spec_titlebar_height()),
        difference(Format::Double, twice.width@, twice.edge()) == doubled(
            difference(Format::Double, layout.width@, layout.edge()),
        ),
        difference(Format::Double, twice.width@, twice.corner()) == doubled(
            difference(Format::Double, layout.width@, layout.corner()),
        ),
        difference(Format::Double, twice.height@, twice.edge()) == doubled(
            difference(Format::Double, layout.height@, layout.edge()),
        ),
        difference(Format::Double, twice.height@, twice.corner()) == doubled(
            difference(Format::Double, layout.height@, layout.corner()),
        ),
        forall|button: Button| #[trigger]
            twice.spec_button_left(button) == doubled(layout.spec_button_left(button)),
    ensures
        twice.hit_at(doubled(x), doubled(y)) == layout.hit_at(x, y),
{
    let format = Format::Double;
    let (width, height) = (layout.width@, layout.height@);
    lemma_doubled_ordered(x, width);
    lemma_doubled_ordered(y, height);
    lemma_doubled_ordered(x, layout.edge());
    lemma_doubled_ordered(y, layout.edge());
    lemma_doubled_ordered(x, layout.corner());
    lemma_doubled_ordered(y, layout.corner());
    lemma_doubled_ordered(x, difference(format, width, layout.edge()));
    lemma_doubled_ordered(x, difference(format, width, layout.corner()));
    lemma_doubled_ordered(y, difference(format, height, layout.edge()));
    lemma_doubled_ordered(y, difference(format, height, layout.corner()));
    lemma_doubled_ordered(y, layout.spec_titlebar_height());
    lemma_doubled_ordered(x, layout.spec_button_left(Button::Close));
    lemma_doubled_ordered(x, layout.spec_button_left(Button::Maximize));
    lemma_doubled_ordered(x, layout.spec_button_left(Button::Minimize));
}

/// A press on a resize edge or corner resizes in the direction that was hit, and changes no state.
pub proof fn lemma_press_on_edge(
    decorations: Decorations,
    direction: ResizeDirection,
    fullscreen: bool,
    now: Timestamp,
)
    ensures
        decorations.after_press(Hit::Resize(direction), fullscreen, now) == (
            decorations,
            Some(Action::Resize(direction)),
        ),
{
}

/// A press on a button holds that button and does nothing else yet.
pub proof fn lemma_press_on_button(
    decorations: Decorations,
    button: Button,
    fullscreen: bool,
    now: Timestamp,
)
    ensures
        ({
            let (next, action) = decorations.after_press(Hit::Button(button), fullscreen, now);
            &&& action is None
            &&& next.pressed == Some(button)
            &&& next.hovered == decorations.hovered
            &&& next.last_titlebar_click == decorations.last_titlebar_click
        }),
{
}

/// A press on the title bar drags, or leaves full screen or toggles maximized where the last such
/// press is less than 400 milliseconds old. A press that drags is remembered, one that does not
/// forgets the one before; nothing else changes.
pub proof fn lemma_press_on_title_bar(
    decorations: Decorations,
    fullscreen: bool,
    now: Timestamp,
)
    ensures
        ({
            let (next, action) = decorations.after_press(Hit::Titlebar, fullscreen, now);
            let again = decorations.last_titlebar_click matches Some(last) && now.nanos - last.nanos
                < 400_000_000;
            &&& again && fullscreen ==> action == Some(Action::ExitFullscreen)
            &&& again && !fullscreen ==> action == Some(Action::ToggleMaximized)
            &&& !again ==> action == Some(Action::Drag)
            &&& again ==> next.last_titlebar_click is None
            &&& !again ==> next.last_titlebar_click == Some(now)
            &&& next.hovered == decorations.hovered
            &&& next.pressed == decorations.pressed
        }),
{
}

/// A press on nothing does nothing.
pub proof fn lemma_press_on_nothing(
    decorations: Decorations,
    fullscreen: bool,
    now: Timestamp,
)
    ensures
        decorations.after_press(Hit::Nothing, fullscreen, now) == (decorations, None::<Action>),
{
}

/// A release lets go of what was held. It acts only over the button that was held: minimize
/// minimizes, close closes, and maximize leaves full screen or toggles maximized.
pub proof fn lemma_release(decorations: Decorations, hit: Hit, fullscreen: bool)
    ensures
        ({
            let (next, action) = decorations.after_release(hit, fullscreen);
            let held = decorations.pressed;
            &&& next.pressed is None
            &&& next.hovered == decorations.hovered
            &&& next.last_titlebar_click == decorations.last_titlebar_click
            &&& action == Some(Action::Minimize) <==> held == Some(Button::Minimize) && hit
                == Hit::Button(Button::Minimize)
            &&& action == Some(Action::Close) <==> held == Some(Button::Close) && hit
                == Hit::Button(Button::Close)
            &&& action == Some(Action::ExitFullscreen) <==> held == Some(Button::Maximize) && hit
                == Hit::Button(Button::Maximize) && fullscreen
            &&& action == Some(Action::ToggleMaximized) <==> held == Some(Button::Maximize) && hit
                == Hit::Button(Button::Maximize) && !fullscreen
            &&& held is None ==> action is None
            &&& hit !is Button ==> action is None
            &&& action matches Some(Action::Resize(_)) ==> false
            &&& action != Some(Action::Drag)
        }),
{
}

/// Hovering notes the part that was hit and nothing else; clearing forgets it and what is held.
pub proof fn lemma_hover_and_clear(decorations: Decorations, hit: Hit)
    ensures
        decorations.hovering(hit).hovered == hit,
        decorations.hovering(hit).pressed == decorations.pressed,
        decorations.hovering(hit).last_titlebar_click == decorations.last_titlebar_click,
        decorations.cleared().hovered == Hit::Nothing,
        decorations.cleared().pressed is None,
        decorations.cleared().last_titlebar_click == decorations.last_titlebar_click,
{
}

/// Each edge and each corner has the pointer shape of its own name.
pub proof fn lemma_resize_cursors()
    ensures
        resize_cursor(ResizeDirection::East) == CursorIcon::EResize,
        resize_cursor(ResizeDirection::North) == CursorIcon::NResize,
        resize_cursor(ResizeDirection::NorthEast) == CursorIcon::NeResize,
        resize_cursor(ResizeDirection::NorthWest) == CursorIcon::NwResize,
        resize_cursor(ResizeDirection::South) == CursorIcon::SResize,
        resize_cursor(ResizeDirection::SouthEast) == CursorIcon::SeResize,
        resize_cursor(ResizeDirection::SouthWest) == CursorIcon::SwResize,
        resize_cursor(ResizeDirection::West) == CursorIcon::WResize,
{
}

/// The title bar is 30 logical pixels high, a button 42 wide, and the buttons stand side by side
/// at the right: close, maximize, minimize. None starts left of the window.
pub proof fn lemma_frame_lines(layout: Layout)
    ensures
        ({
            let format = Format::Double;
            let button = multiple(format, layout.scale_factor@, 42);
            let close = difference(format, layout.width@, multiple(format, button, 1));
            let maximize = difference(format, layout.width@, multiple(format, button, 2));
            let minimize = difference(format, layout.width@, multiple(format, button, 3));
            let start = Real::Finite { negative: false, units: 0 };
            &&& layout.spec_titlebar_height() == multiple(format, layout.scale_factor@, 30)
            &&& layout.spec_button_width() == button
            &&& layout.spec_button_left(Button::Close) == if less(start, close) {
                close
            } else {
                start
            }
            &&& layout.spec_button_left(Button::Maximize) == if less(start, maximize) {
                maximize
            } else {
                start
            }
            &&& layout.spec_button_left(Button::Minimize) == if less(start, minimize) {
                minimize
            } else {
                start
            }
        }),
{
}

/// Where each part of the frame lies. Corners reach 12 logical pixels along both edges, edges 6
/// into the window; the corners come first, a corner at the left or at the top before the one
/// across, the sides before top and bottom, and all of these before the title bar.
#[verifier::spinoff_prover]
#[verifier::rlimit(30)]
pub proof fn lemma_hit_regions(layout: Layout, x: Real, y: Real)
    ensures
        ({
            let format = Format::Double;
            let start = Real::Finite { negative: false, units: 0 };
            let (width, height, scale) = (layout.width@, layout.height@, layout.scale_factor@);
            let edge = multiple(format, scale, 6);
            let corner = multiple(format, scale, 12);
            let hit = layout.hit_at(x, y);
            let outside = less(x, start) || less(y, start) || at_least(x, width) || at_least(
                y,
                height,
            );
            let framed = !outside && layout.resizable;
            let left = less(x, corner);
            let right = at_least(x, difference(format, width, corner));
            let top = less(y, corner);
            let bottom = at_least(y, difference(format, height, corner));
            let cornered = (left || right) && (top || bottom);
            let west = less(x, edge);
            let east = at_least(x, difference(format, width, edge));
            let north = less(y, edge);
            let south = at_least(y, difference(format, height, edge));
            let inner = !outside && !(layout.resizable && (cornered || west || east || north
                || south));
            let title = inner && !at_least(y, multiple(format, scale, 30));
            &&& outside ==> hit == Hit::Nothing
            &&& hit == Hit::Resize(ResizeDirection::NorthWest) <==> framed && left && top
            &&& hit == Hit::Resize(ResizeDirection::NorthEast) <==> framed && !left && right && top
            &&& hit == Hit::Resize(ResizeDirection::SouthWest) <==> framed && left && !top && bottom
            &&& hit == Hit::Resize(ResizeDirection::SouthEast) <==> framed && !left && right && !top
                && bottom
            &&& hit == Hit::Resize(ResizeDirection::West) <==> framed && !cornered && west
            &&& hit == Hit::Resize(ResizeDirection::East) <==> framed && !cornered && !west && east
            &&& hit == Hit::Resize(ResizeDirection::North) <==> framed && !cornered && !west
                && !east && north
            &&& hit == Hit::Resize(ResizeDirection::South) <==> framed && !cornered && !west
                && !east && !north && south
            &&& hit == Hit::Nothing <==> outside || inner && !title
            &&& hit == Hit::Button(Button::Close) <==> title && at_least(
                x,
                layout.spec_button_left(Button::Close),
            )
            &&& hit == Hit::Button(Button::Maximize) <==> title && !at_least(
                x,
                layout.spec_button_left(Button::Close),
            ) && at_least(x, layout.spec_button_left(Button::Maximize))
            &&& hit == Hit::Button(Button::Minimize) <==> title && !at_least(
                x,
                layout.spec_button_left(Button::Close),
            ) && !at_least(x, layout.spec_button_left(Button::Maximize)) && at_least(
                x,
                layout.spec_button_left(Button::Minimize),
            )
        }),
{
}

/// At a whole scale the frame is plain arithmetic on pixels: 30 for the title bar, 42 for each
/// button, 6 for an edge and 12 for a corner, times the scale.
#[verifier::spinoff_prover]
#[verifier::rlimit(30)]
pub proof fn lemma_whole_frame(
    layout: Layout,
    width: nat,
    height: nat,
    scale: nat,
    x: nat,
    y: nat,
)
    requires
        layout.width@ == whole(Format::Double, width),
        layout.height@ == whole(Format::Double, height),
        layout.scale_factor@ == whole(Format::Double, scale),
        is_short(Format::Double, width),
        is_short(Format::Double, height),
        is_short(Format::Double, 126 * scale),
    ensures
        ({
            let hit = layout.hit_at(whole(Format::Double, x), whole(Format::Double, y));
            let inside = x < width && y < height;
            let framed = inside && layout.resizable;
            let left = x < 12 * scale;
            let right = x + 12 * scale >= width;
            let top = y < 12 * scale;
            let bottom = y + 12 * scale >= height;
            let cornered = (left || right) && (top || bottom);
            let edged = x < 6 * scale || x + 6 * scale >= width || y < 6 * scale || y + 6 * scale
                >= height;
            let title = inside && !(layout.resizable && (cornered || edged)) && y < 30 * scale;
            &&& !inside ==> hit == Hit::Nothing
            &&& hit == Hit::Resize(ResizeDirection::NorthWest) <==> framed && left && top
            &&& hit == Hit::Resize(ResizeDirection::NorthEast) <==> framed && !left && right && top
            &&& hit == Hit::Resize(ResizeDirection::SouthWest) <==> framed && left && !top && bottom
            &&& hit == Hit::Resize(ResizeDirection::SouthEast) <==> framed && !left && right && !top
                && bottom
            &&& hit is Resize <==> framed && (cornered || edged)
            &&& hit == Hit::Button(Button::Close) <==> title && x + 42 * scale >= width
            &&& hit == Hit::Button(Button::Maximize) <==> title && x + 42 * scale < width && x + 84
                * scale >= width
            &&& hit == Hit::Button(Button::Minimize) <==> title && x + 84 * scale < width && x + 126
                * scale >= width
            &&& hit == Hit::Titlebar <==> title && x + 126 * scale < width
        }),
{
    assert(3 * (BUTTON_WIDTH as nat * scale) == 126 * scale);
    lemma_whole_layout(layout, width, height, scale, x, y);
}

} // verus!
