//! The pixels of a window with rounded corners, as rectangles.

use vstd::prelude::*;

verus! {

/// A rectangle in logical pixels.
#[derive(Debug, Copy, Clone, PartialEq, Eq, Structural)]
pub struct Rectangle {
    pub x: i32,
    pub y: i32,
    pub width: i32,
    pub height: i32,
}

/// A pixel `inset` columns from the side, in a row `row` pixels from the end, has its outer side
/// in the corner's circle, taken at the middle of the row. Lengths are counted in half pixels.
pub open spec fn in_corner(radius: int, row: int, inset: int) -> bool {
    let across = 2 * (radius - inset);
    let along = 2 * (radius - row) - 1;
    across * across + along * along <= 4 * (radius * radius)
}

/// The least of `inset`, `inset - 1`, ... down to where the corner's circle ends.
pub open spec fn least_inset(radius: nat, row: nat, inset: nat) -> nat
    decreases inset,
{
    if inset > 0 && in_corner(radius as int, row as int, inset - 1) {
        least_inset(radius, row, (inset - 1) as nat)
    } else {
        inset
    }
}

/// How many pixels the corner cuts off a row.
pub open spec fn corner_inset(radius: nat, row: nat) -> nat {
    least_inset(radius, row, radius)
}

/// The radius that fits a window.
pub open spec fn fitting_radius(width: u32, height: u32, radius: u32) -> u32 {
    let half = if width / 2 < height / 2 {
        width / 2
    } else {
        height / 2
    };
    if radius < half {
        radius
    } else {
        half
    }
}

/// The rectangle of one row that a corner cuts.
pub open spec fn cut_row(width: u32, inset: nat, y: u32) -> Rectangle {
    Rectangle {
        x: inset as i32,
        y: y as i32,
        width: (width - 2 * inset) as u32 as i32,
        height: 1,
    }
}

/// The first `count` rows from the top and as many from the bottom, in pairs.
pub open spec fn corner_rows(width: u32, height: u32, radius: nat, count: nat) -> Seq<Rectangle>
    decreases count,
{
    if count == 0 {
        Seq::empty()
    } else {
        let row = (count - 1) as nat;
        let inset = corner_inset(radius, row);
        corner_rows(width, height, radius, row).push(cut_row(width, inset, row as u32)).push(
            cut_row(width, inset, (height - row - 1) as u32),
        )
    }
}

/// The rows between the corners.
pub open spec fn middle_rows(width: u32, height: u32, radius: u32) -> Seq<Rectangle> {
    if height > 2 * radius {
        seq![
            Rectangle {
                x: 0,
                y: radius as i32,
                width: width as i32,
                height: (height - 2 * radius) as u32 as i32,
            },
        ]
    } else {
        Seq::empty()
    }
}

/// The rectangles that make up a window with rounded corners.
pub open spec fn region_of(width: u32, height: u32, radius: u32) -> Seq<Rectangle> {
    let radius = fitting_radius(width, height, radius);
    if radius == 0 {
        seq![Rectangle { x: 0, y: 0, width: width as i32, height: height as i32 }]
    } else {
        middle_rows(width, height, radius) + corner_rows(
            width,
            height,
            radius as nat,
            radius as nat,
        )
    }
}

/// Moving inward keeps a pixel in the corner's circle.
proof fn lemma_in_corner_inward(radius: int, row: int, outer: int, inner: int)
    requires
        in_corner(radius, row, outer),
        outer <= inner <= radius,
    ensures
        in_corner(radius, row, inner),
{
    let a = 2 * (radius - outer);
    let b = 2 * (radius - inner);
    assert(b * b <= a * a) by (nonlinear_arith)
        requires
            0 <= b <= a,
    ;
}

/// Moving to a row nearer the middle keeps a pixel in the corner's circle.
proof fn lemma_in_corner_next_row(radius: int, row: int, inset: int)
    requires
        in_corner(radius, row, inset),
        row + 1 < radius,
    ensures
        in_corner(radius, row + 1, inset),
{
    let a = 2 * (radius - row) - 1;
    let b = 2 * (radius - row - 1) - 1;
    assert(b * b <= a * a) by (nonlinear_arith)
        requires
            0 <= b <= a,
    ;
}

proof fn lemma_in_corner_at_radius(radius: int, row: int)
    requires
        0 <= row < radius,
    ensures
        in_corner(radius, row, radius),
{
    let along = 2 * (radius - row) - 1;
    assert(along * along <= 4 * (radius * radius)) by (nonlinear_arith)
        requires
            0 <= along <= 2 * radius,
    ;
    assert((2 * (radius - radius)) * (2 * (radius - radius)) == 0) by (nonlinear_arith);
}

/// From any inset in the circle the search ends at the same place.
proof fn lemma_least_inset_agrees(radius: nat, row: nat, inset: nat, start: nat)
    requires
        inset <= start <= radius,
        in_corner(radius as int, row as int, inset as int),
    ensures
        least_inset(radius, row, start) == least_inset(radius, row, inset),
    decreases start,
{
    if inset < start {
        lemma_in_corner_inward(radius as int, row as int, inset as int, start - 1);
        lemma_least_inset_agrees(radius, row, inset, (start - 1) as nat);
    }
}

/// The inset of a row parts its pixels at the circle.
proof fn lemma_corner_inset_parts(radius: nat, row: nat, start: nat, inset: nat)
    requires
        inset <= start <= radius,
        in_corner(radius as int, row as int, start as int),
    ensures
        least_inset(radius, row, start) <= start,
        inset >= least_inset(radius, row, start) <==> in_corner(
            radius as int,
            row as int,
            inset as int,
        ),
    decreases start,
{
    let least = least_inset(radius, row, start);
    if start > 0 && in_corner(radius as int, row as int, start - 1) {
        if inset < start {
            lemma_corner_inset_parts(radius, row, (start - 1) as nat, inset);
        } else {
            lemma_corner_inset_parts(radius, row, (start - 1) as nat, (start - 1) as nat);
        }
    } else if inset < start {
        if in_corner(radius as int, row as int, inset as int) {
            lemma_in_corner_inward(radius as int, row as int, inset as int, start - 1);
        }
    }
}

/// Whether moving one pixel outward stays in the corner's circle.
fn next_fits(radius: u32, row: u32, inset: u32) -> (result: bool)
    requires
        row < radius <= 0xFFFF,
        0 < inset <= radius,
    ensures
        result == in_corner(radius as int, row as int, inset - 1),
{
    let across: u64 = 2 * (radius as u64 - (inset as u64 - 1));
    let along: u64 = 2 * (radius as u64 - row as u64) - 1;
    proof {
        assert(across * across <= 0x2_0000 * 0x2_0000) by (nonlinear_arith)
            requires
                0 <= across <= 0x2_0000,
        ;
        assert(along * along <= 0x2_0000 * 0x2_0000) by (nonlinear_arith)
            requires
                0 <= along <= 0x2_0000,
        ;
        assert(radius * radius <= 0xFFFF * 0xFFFF) by (nonlinear_arith)
            requires
                0 <= radius <= 0xFFFF,
        ;
    }
    across * across + along * along <= 4 * (radius as u64 * radius as u64)
}

/// The rectangles that make up a window with rounded corners. The radius is cut down to what
/// the window has room for.
pub fn rounded_region(width: u32, height: u32, radius: u32) -> (rectangles: Vec<Rectangle>)
    requires
        fitting_radius(width, height, radius) <= 0xFFFF,
    ensures
        rectangles@ == region_of(width, height, radius),
{
    let half: u32 = if width / 2 < height / 2 { width / 2 } else { height / 2 };
    let radius: u32 = if radius < half { radius } else { half };
    let mut rectangles: Vec<Rectangle> = Vec::new();
    if radius == 0 {
        rectangles.push(Rectangle { x: 0, y: 0, width: width as i32, height: height as i32 });
        return rectangles;
    }
    if height > 2 * radius {
        rectangles.push(
            Rectangle {
                x: 0,
                y: radius as i32,
                width: width as i32,
                height: (height - 2 * radius) as i32,
            },
        );
    }
    let ghost middle = rectangles@;
    let mut inset: u32 = radius;
    let mut row: u32 = 0;
    proof {
        lemma_in_corner_at_radius(radius as int, 0);
    }
    while row < radius
        invariant
            row <= radius <= 0xFFFF,
            0 < radius <= width / 2,
            radius <= height / 2,
            inset <= radius,
            row < radius ==> in_corner(radius as int, row as int, inset as int),
            rectangles@ == middle + corner_rows(width, height, radius as nat, row as nat),
        decreases radius - row,
    {
        let ghost start = inset;
        while inset > 0 && next_fits(radius, row, inset)
            invariant
                row < radius <= 0xFFFF,
                inset <= start <= radius,
                in_corner(radius as int, row as int, inset as int),
            decreases inset,
        {
            inset = inset - 1;
        }
        proof {
            lemma_least_inset_agrees(radius as nat, row as nat, inset as nat, radius as nat);
            assert(corner_inset(radius as nat, row as nat) == inset);
            if row + 1 < radius {
                lemma_in_corner_next_row(radius as int, row as int, inset as int);
            }
        }
        let row_width: i32 = (width - 2 * inset) as i32;
        rectangles.push(Rectangle { x: inset as i32, y: row as i32, width: row_width, height: 1 });
        rectangles.push(
            Rectangle {
                x: inset as i32,
                y: (height - row - 1) as i32,
                width: row_width,
                height: 1,
            },
        );
        row = row + 1;
        assert(rectangles@ =~= middle + corner_rows(width, height, radius as nat, row as nat));
    }
    rectangles
}

/// A pixel lies in a rectangle.
pub open spec fn contains(rectangle: Rectangle, x: int, y: int) -> bool {
    &&& rectangle.x <= x < rectangle.x + rectangle.width
    &&& rectangle.y <= y < rectangle.y + rectangle.height
}

/// A pixel lies in some rectangle.
pub open spec fn covers(rectangles: Seq<Rectangle>, x: int, y: int) -> bool {
    exists|i: int| 0 <= i < rectangles.len() && contains(#[trigger] rectangles[i], x, y)
}

/// A pixel lies in a window with rounded corners: it is not in a corner, or the corner's circle
/// holds its outer side at the middle of the row.
pub open spec fn in_rounded_window(width: int, height: int, radius: int, x: int, y: int) -> bool {
    let column = if x < width - 1 - x {
        x
    } else {
        width - 1 - x
    };
    let row = if y < height - 1 - y {
        y
    } else {
        height - 1 - y
    };
    &&& 0 <= x < width
    &&& 0 <= y < height
    &&& column >= radius || row >= radius || in_corner(radius, row, column)
}

proof fn lemma_corner_rows(width: u32, height: u32, radius: nat, count: nat, row: nat)
    requires
        row < count,
    ensures
        corner_rows(width, height, radius, count).len() == 2 * count,
        corner_rows(width, height, radius, count)[2 * row as int] == cut_row(
            width,
            corner_inset(radius, row),
            row as u32,
        ),
        corner_rows(width, height, radius, count)[2 * row as int + 1] == cut_row(
            width,
            corner_inset(radius, row),
            (height - row - 1) as u32,
        ),
    decreases count,
{
    let below = (count - 1) as nat;
    if row < below {
        lemma_corner_rows(width, height, radius, below, row);
    } else if below > 0 {
        lemma_corner_rows(width, height, radius, below, (below - 1) as nat);
    } else {
        assert(corner_rows(width, height, radius, 0) =~= Seq::empty());
    }
}

/// Every rectangle of the region: the rows between the corners, or a row that a corner cuts.
proof fn lemma_region_rectangle(width: u32, height: u32, radius: u32, index: int)
    requires
        width <= i32::MAX,
        height <= i32::MAX,
        0 < radius <= width / 2,
        radius <= height / 2,
        fitting_radius(width, height, radius) == radius,
        0 <= index < region_of(width, height, radius).len(),
    ensures
        ({
            let rectangle = region_of(width, height, radius)[index];
            let middle = middle_rows(width, height, radius).len();
            let row = (index - middle) / 2;
            let inset = corner_inset(radius as nat, row as nat) as int;
            if index < middle {
                rectangle == Rectangle {
                    x: 0,
                    y: radius as i32,
                    width: width as i32,
                    height: (height - 2 * radius) as i32,
                }
            } else {
                &&& 0 <= row < radius
                &&& 0 <= inset <= radius
                &&& rectangle.x == inset
                &&& rectangle.width == width - 2 * inset
                &&& rectangle.height == 1
                &&& rectangle.y == if (index - middle) % 2 == 0 {
                    row
                } else {
                    height - 1 - row
                }
            }
        }),
{
    let rows = corner_rows(width, height, radius as nat, radius as nat);
    let middle = middle_rows(width, height, radius);
    lemma_corner_rows(width, height, radius as nat, radius as nat, (radius - 1) as nat);
    assert(region_of(width, height, radius) == middle + rows);
    if index >= middle.len() {
        let row = (index - middle.len()) / 2;
        lemma_corner_rows(width, height, radius as nat, radius as nat, row as nat);
        lemma_in_corner_at_radius(radius as int, row);
        lemma_corner_inset_parts(radius as nat, row as nat, radius as nat, radius as nat);
    }
}

/// The region of a window is the window with its corners rounded, the radius cut down to what
/// the window has room for.
pub proof fn lemma_region_is_rounded_window(width: u32, height: u32, radius: u32, x: int, y: int)
    requires
        width <= i32::MAX,
        height <= i32::MAX,
    ensures
        covers(region_of(width, height, radius), x, y) <==> in_rounded_window(
            width as int,
            height as int,
            fitting_radius(width, height, radius) as int,
            x,
            y,
        ),
{
    let radius = fitting_radius(width, height, radius);
    let region = region_of(width, height, radius);
    assert(fitting_radius(width, height, radius) == radius);
    if radius == 0 {
        assert(contains(region[0], x, y) <==> 0 <= x < width && 0 <= y < height);
    } else {
        let middle = middle_rows(width, height, radius).len() as int;
        let column = if x < width - 1 - x {
            x
        } else {
            width - 1 - x
        };
        let row = if y < height - 1 - y {
            y
        } else {
            height - 1 - y
        };
        lemma_corner_rows(width, height, radius as nat, radius as nat, (radius - 1) as nat);
        if 0 <= row < radius {
            lemma_in_corner_at_radius(radius as int, row);
            if 0 <= column <= radius {
                lemma_corner_inset_parts(radius as nat, row as nat, radius as nat, column as nat);
            } else {
                lemma_corner_inset_parts(radius as nat, row as nat, radius as nat, radius as nat);
            }
        }
        if in_rounded_window(width as int, height as int, radius as int, x, y) {
            let index = if row >= radius {
                0
            } else if y == row {
                middle + 2 * row
            } else {
                middle + 2 * row + 1
            };
            lemma_region_rectangle(width, height, radius, index);
            assert(contains(region[index], x, y));
        }
        if covers(region, x, y) {
            let index = choose|i: int|
                0 <= i < region.len() && contains(#[trigger] region[i], x, y);
            lemma_region_rectangle(width, height, radius, index);
        }
    }
}

/// A pixel lies in a rectangle of the region exactly where it lies in the window, and not in a
/// corner outside its circle. The radius is the one asked for, but at most half of the width and
/// of the height; a pixel in a corner is measured from its outer side at the middle of its row, in
/// half pixels.
pub proof fn lemma_region_covers(width: u32, height: u32, radius: u32, x: int, y: int)
    requires
        width <= i32::MAX,
        height <= i32::MAX,
    ensures
        ({
            let region = region_of(width, height, radius);
            let small = if width < height {
                width / 2
            } else {
                height / 2
            };
            let round = if radius < small {
                radius as int
            } else {
                small as int
            };
            let column = if 2 * x < width - 1 {
                x
            } else {
                width - 1 - x
            };
            let row = if 2 * y < height - 1 {
                y
            } else {
                height - 1 - y
            };
            let across = 2 * (round - column);
            let along = 2 * (round - row) - 1;
            (exists|i: int|
                #![trigger region[i]]
                0 <= i < region.len() && region[i].x <= x < region[i].x + region[i].width
                    && region[i].y <= y < region[i].y + region[i].height) <==> (0 <= x < width && 0
                <= y < height && (column >= round || row >= round || across * across + along * along
                <= 4 * (round * round)))
        }),
{
    let region = region_of(width, height, radius);
    lemma_region_is_rounded_window(width, height, radius, x, y);
    if covers(region, x, y) {
        let i = choose|i: int| 0 <= i < region.len() && contains(#[trigger] region[i], x, y);
        assert(region[i].x <= x);
    }
    if exists|i: int|
        #![trigger region[i]]
        0 <= i < region.len() && region[i].x <= x < region[i].x + region[i].width && region[i].y
            <= y < region[i].y + region[i].height {
        let i = choose|i: int|
            #![trigger region[i]]
            0 <= i < region.len() && region[i].x <= x < region[i].x + region[i].width
                && region[i].y <= y < region[i].y + region[i].height;
        assert(contains(region[i], x, y));
    }
}

proof fn lemma_corner_rows_count(width: u32, height: u32, radius: nat, count: nat)
    ensures
        corner_rows(width, height, radius, count).len() == 2 * count,
    decreases count,
{
    if count > 0 {
        lemma_corner_rows_count(width, height, radius, (count - 1) as nat);
    }
}

/// A window without round corners is one rectangle. Otherwise each row that a corner cuts is one,
/// at the top and at the bottom, and what lies between, if anything, is one more.
pub proof fn lemma_region_count(width: u32, height: u32, radius: u32)
    ensures
        ({
            let count = region_of(width, height, radius).len();
            let small = if width < height {
                width / 2
            } else {
                height / 2
            };
            let round = if radius < small {
                radius as int
            } else {
                small as int
            };
            &&& round == 0 ==> count == 1
            &&& round > 0 && height > 2 * round ==> count == 2 * round + 1
            &&& round > 0 && height <= 2 * round ==> count == 2 * round
        }),
{
    let radius = fitting_radius(width, height, radius);
    lemma_corner_rows_count(width, height, radius as nat, radius as nat);
}

/// No pixel of the region lies in two of its rectangles.
pub proof fn lemma_region_is_disjoint(
    width: u32,
    height: u32,
    radius: u32,
    first: int,
    second: int,
    x: int,
    y: int,
)
    requires
        width <= i32::MAX,
        height <= i32::MAX,
        0 <= first < region_of(width, height, radius).len(),
        0 <= second < region_of(width, height, radius).len(),
        first != second,
    ensures
        !(contains(region_of(width, height, radius)[first], x, y) && contains(
            region_of(width, height, radius)[second],
            x,
            y,
        )),
{
    let radius = fitting_radius(width, height, radius);
    assert(fitting_radius(width, height, radius) == radius);
    if radius > 0 {
        lemma_region_rectangle(width, height, radius, first);
        lemma_region_rectangle(width, height, radius, second);
    }
}

} // verus!
