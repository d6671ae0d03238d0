//! Drop shadow around a window with rounded corners.
//!
//! The shadow is eight pieces: four sides, one pixel long and stretched by the compositor, and
//! four corners. What each pixel of a piece shows, and what is asked of the compositor, is
//! decided here.

use vstd::arithmetic::power2::pow2;
use vstd::prelude::*;

use crate::binary32::Binary32;
#[allow(unused_imports)]
use crate::binary32::{
    half_of, lemma_half_difference, lemma_half_exact, lemma_half_finite, lemma_half_negated,
    lemma_half_ordered, lemma_half_sign, lemma_half_sum, lemma_next_whole,
};
use crate::binary64::Binary64;
use crate::decorations::CORNER_RADIUS;
use crate::falloff::{blend, gaussian_exponent, gaussian_tail, PRIMARY_RADIUS, SECONDARY_RADIUS};
#[allow(unused_imports)]
use crate::fading::{darkness_at, farthest, is_decay, is_layer, lemma_darkness_falls};
#[allow(unused_imports)]
use crate::falloff::{
    blended, exponent_of, lemma_blended_ordered, stays_finite, tail_of_gaussian, tail_value,
};
#[allow(unused_imports)]
use crate::number::{
    at_least, difference, lemma_difference_sign, lemma_negated_rounded, lemma_not_above,
    lemma_rounded_at_most, lemma_sum_commutes, lemma_sum_opposite, lemma_sum_ordered, less,
    magnitude, negated, opposite, sum, zero, Format, Real,
};
#[allow(unused_imports)]
use crate::pattern::lemma_value_is_rounded;
#[allow(unused_imports)]
use crate::powers::{lemma_pow2_ordered, lemma_pow2_sum};
#[allow(unused_imports)]
use crate::steps::{
    lemma_occurrences_absent, lemma_occurrences_joined, lemma_occurrences_short, occurrences,
    one_if, step_if,
};

verus! {

/// How far the shadow reaches, in logical pixels.
pub const SHADOW_EXTENT: u32 = 68;

/// How much of that lies under the window.
pub const SHADOW_OVERLAP: u32 = 3;

/// How far the shadow lies below the window.
pub const SHADOW_VERTICAL_OFFSET: u32 = 12;

/// How far the second layer lies below the first one.
pub const SECONDARY_RELATIVE_OFFSET_Y: i32 = -6;

/// The longest side of the window's shadow.
pub const LONGEST_SIDE: u32 = 77;

/// How many pieces the shadow has.
pub const PIECES: usize = 8;

/// How far the shadow reaches on each side, and how the window is rounded, in logical pixels:
/// the compositor takes shadow buffers and offsets in surface coordinates, whatever the scale.
#[derive(Debug, Copy, Clone, PartialEq, Eq, Structural)]
pub struct ShadowGeometry {
    pub left: u32,
    pub top: u32,
    pub right: u32,
    pub bottom: u32,
    pub corner_radius: u32,
}

/// The shadow of a window.
pub open spec fn standard_geometry() -> ShadowGeometry {
    let side = (SHADOW_EXTENT - SHADOW_OVERLAP) as u32;
    ShadowGeometry {
        left: side,
        top: (side - SHADOW_VERTICAL_OFFSET) as u32,
        right: side,
        bottom: (side + SHADOW_VERTICAL_OFFSET) as u32,
        corner_radius: CORNER_RADIUS,
    }
}

/// The size of a piece, clockwise from the left side.
pub open spec fn piece_size(index: int, geometry: ShadowGeometry) -> (int, int) {
    let radius = geometry.corner_radius as int;
    let left = geometry.left as int;
    let top = geometry.top as int;
    let right = geometry.right as int;
    let bottom = geometry.bottom as int;
    if index == 0 {
        (left, 1)
    } else if index == 1 {
        (left + radius, top + radius)
    } else if index == 2 {
        (1, top)
    } else if index == 3 {
        (right + radius, top + radius)
    } else if index == 4 {
        (right, 1)
    } else if index == 5 {
        (right + radius, bottom + radius)
    } else if index == 6 {
        (1, bottom)
    } else {
        (left + radius, bottom + radius)
    }
}

proof fn lemma_standard_fits()
    ensures
        standard_geometry().fits(),
{
    assert forall|index: int| 0 <= index < PIECES implies {
        let size = #[trigger] piece_size(index, standard_geometry());
        &&& size.0 * 4 <= u32::MAX
        &&& size.1 <= u32::MAX
        &&& size.0 * size.1 * 4 <= u32::MAX
    } by {
        let (width, height) = piece_size(index, standard_geometry());
        assert(0 <= width <= 100 && 0 <= height <= 100);
        assert(width * height <= 100 * 100) by (nonlinear_arith)
            requires
                0 <= width <= 100,
                0 <= height <= 100,
        ;
    }
}

impl ShadowGeometry {
    /// The pixels of every piece can be counted in bytes.
    pub open spec fn fits(self) -> bool {
        forall|index: int|
            0 <= index < PIECES ==> {
                let size = #[trigger] piece_size(index, self);
                &&& size.0 * 4 <= u32::MAX
                &&& size.1 <= u32::MAX
                &&& size.0 * size.1 * 4 <= u32::MAX
            }
    }

    /// The shadow of a window.
    pub fn new() -> (geometry: Self)
        ensures
            geometry == standard_geometry(),
            geometry.fits(),
            geometry.bottom == LONGEST_SIDE,
            geometry.bottom > geometry.top,
            geometry.left == geometry.right,
            geometry.corner_radius == CORNER_RADIUS,
    {
        proof {
            lemma_standard_fits();
        }
        let side: u32 = SHADOW_EXTENT - SHADOW_OVERLAP;
        Self {
            left: side,
            top: side - SHADOW_VERTICAL_OFFSET,
            right: side,
            bottom: side + SHADOW_VERTICAL_OFFSET,
            corner_radius: CORNER_RADIUS,
        }
    }
}

/// A shared memory buffer that holds the pixels of a piece, four bytes each.
#[derive(Debug, Copy, Clone, PartialEq, Eq, Structural)]
pub struct ShadowBuffer {
    pub index: usize,
    pub width: u32,
    pub height: u32,
    pub stride: u32,
    pub size: u32,
}

/// The buffer of a piece.
pub open spec fn buffer_of(index: int, geometry: ShadowGeometry) -> ShadowBuffer {
    let (width, height) = piece_size(index, geometry);
    ShadowBuffer {
        index: index as usize,
        width: width as u32,
        height: height as u32,
        stride: (width * 4) as u32,
        size: (width * height * 4) as u32,
    }
}

fn new_buffer(index: usize, width: u32, height: u32, Ghost(geometry): Ghost<ShadowGeometry>) -> (
    buffer: ShadowBuffer)
    requires
        index < PIECES,
        geometry.fits(),
        (width as int, height as int) == piece_size(index as int, geometry),
    ensures
        buffer == buffer_of(index as int, geometry),
{
    proof {
        let size = piece_size(index as int, geometry);
        assert(size.0 * size.1 == width * height);
        assert(width * height >= 0) by (nonlinear_arith)
            requires
                width >= 0,
                height >= 0,
        ;
    }
    ShadowBuffer { index, width, height, stride: width * 4, size: width * height * 4 }
}

/// The buffers of the eight pieces.
pub fn shadow_buffers(geometry: ShadowGeometry) -> (buffers: Vec<ShadowBuffer>)
    requires
        geometry.fits(),
    ensures
        buffers@ == Seq::new(PIECES as nat, |index: int| buffer_of(index, geometry)),
{
    let radius: u32 = geometry.corner_radius;
    let ghost g = geometry;
    proof {
        assert(piece_size(0, g).0 <= u32::MAX);
        assert(piece_size(1, g).0 <= u32::MAX);
        assert(piece_size(2, g).0 <= u32::MAX);
        assert(piece_size(3, g).0 <= u32::MAX);
        assert(piece_size(5, g).0 <= u32::MAX);
        assert(piece_size(7, g).0 <= u32::MAX);
    }
    let mut buffers: Vec<ShadowBuffer> = Vec::new();
    buffers.push(new_buffer(0, geometry.left, 1, Ghost(g)));
    buffers.push(new_buffer(1, geometry.left + radius, geometry.top + radius, Ghost(g)));
    buffers.push(new_buffer(2, 1, geometry.top, Ghost(g)));
    buffers.push(new_buffer(3, geometry.right + radius, geometry.top + radius, Ghost(g)));
    buffers.push(new_buffer(4, geometry.right, 1, Ghost(g)));
    buffers.push(new_buffer(5, geometry.right + radius, geometry.bottom + radius, Ghost(g)));
    buffers.push(new_buffer(6, 1, geometry.bottom, Ghost(g)));
    buffers.push(new_buffer(7, geometry.left + radius, geometry.bottom + radius, Ghost(g)));
    assert(buffers@ =~= Seq::new(PIECES as nat, |index: int| buffer_of(index, geometry)));
    buffers
}

/// A signed distance from the window's outline, negative inside, in single precision: the machine
/// takes the hypotenuse that a corner needs.
#[derive(Debug, Copy, Clone)]
pub enum SignedDistance {
    /// From a straight side.
    Straight { length: Binary32 },
    /// From a round corner: the hypotenuse of the legs, less the radius.
    Corner { across: Binary32, along: Binary32, radius: Binary32 },
}

/// The numbers of a signed distance.
pub enum Distance {
    Straight { length: Real },
    Corner { across: Real, along: Real, radius: Real },
}

impl Distance {
    /// The distance, given the hypotenuse of the legs where it is from a corner.
    pub open spec fn length(self, hypotenuse: Real) -> Real {
        match self {
            Distance::Straight { length } => length,
            Distance::Corner { radius, .. } => difference(Format::Single, hypotenuse, radius),
        }
    }
}

impl View for SignedDistance {
    type V = Distance;

    open spec fn view(&self) -> Distance {
        match *self {
            SignedDistance::Straight { length } => Distance::Straight { length: length@ },
            SignedDistance::Corner { across, along, radius } => Distance::Corner {
                across: across@,
                along: along@,
                radius: radius@,
            },
        }
    }
}

impl SignedDistance {
    /// What the machine takes the hypotenuse of, where the distance is from a corner.
    pub fn legs(self) -> (legs: Option<(Binary32, Binary32)>)
        ensures
            legs == match self {
                SignedDistance::Straight { .. } => None,
                SignedDistance::Corner { across, along, .. } => Some((across, along)),
            },
    {
        match self {
            SignedDistance::Straight { .. } => None,
            SignedDistance::Corner { across, along, .. } => Some((across, along)),
        }
    }

    /// The distance, given the hypotenuse of the legs where it is from a corner.
    pub fn length(self, hypotenuse: Binary32) -> (length: Binary32)
        ensures
            length@ == self@.length(hypotenuse@),
    {
        match self {
            SignedDistance::Straight { length } => length,
            SignedDistance::Corner { radius, .. } => hypotenuse.minus(radius),
        }
    }
}

/// How far a point, seen from the corner of the window that a piece belongs to, lies from the
/// outline of the window, moved down by `offset_y`.
pub open spec fn distance_of(
    index: int,
    x: Real,
    y: Real,
    radius: Real,
    offset_y: Real,
) -> Distance {
    let format = Format::Single;
    let from_left = difference(format, x, radius);
    let from_right = sum(format, x, radius);
    let from_top = difference(format, difference(format, y, radius), offset_y);
    let from_bottom = difference(format, sum(format, y, radius), offset_y);
    if index == 0 {
        Distance::Straight { length: negated(x) }
    } else if index == 1 {
        Distance::Corner { across: from_left, along: from_top, radius }
    } else if index == 2 {
        Distance::Straight { length: difference(format, offset_y, y) }
    } else if index == 3 {
        Distance::Corner { across: from_right, along: from_top, radius }
    } else if index == 4 {
        Distance::Straight { length: x }
    } else if index == 5 {
        Distance::Corner { across: from_right, along: from_bottom, radius }
    } else if index == 6 {
        Distance::Straight { length: difference(format, y, offset_y) }
    } else {
        Distance::Corner { across: from_left, along: from_bottom, radius }
    }
}

/// How far a point lies from the outline of the window, moved down by `offset_y`.
pub fn signed_distance(
    index: usize,
    x: Binary32,
    y: Binary32,
    radius: Binary32,
    offset_y: Binary32,
) -> (distance: SignedDistance)
    ensures
        distance@ == distance_of(index as int, x@, y@, radius@, offset_y@),
{
    match index {
        0 => SignedDistance::Straight { length: x.negate() },
        1 => SignedDistance::Corner {
            across: x.minus(radius),
            along: y.minus(radius).minus(offset_y),
            radius,
        },
        2 => SignedDistance::Straight { length: offset_y.minus(y) },
        3 => SignedDistance::Corner {
            across: x.plus(radius),
            along: y.minus(radius).minus(offset_y),
            radius,
        },
        4 => SignedDistance::Straight { length: x },
        5 => SignedDistance::Corner {
            across: x.plus(radius),
            along: y.plus(radius).minus(offset_y),
            radius,
        },
        6 => SignedDistance::Straight { length: y.minus(offset_y) },
        _ => SignedDistance::Corner {
            across: x.minus(radius),
            along: y.plus(radius).minus(offset_y),
            radius,
        },
    }
}

/// Where the middle of a pixel of a piece lies, seen from the corner of the window that the piece
/// belongs to.
pub open spec fn pixel_middle(index: int, x: int, y: int, geometry: ShadowGeometry) -> (
    Real,
    Real,
) {
    let format = Format::Single;
    let x = sum(format, half_of(2 * x), half_of(1));
    let y = sum(format, half_of(2 * y), half_of(1));
    let radius = half_of(2 * geometry.corner_radius);
    let left = half_of(2 * geometry.left);
    let top = half_of(2 * geometry.top);
    let zero = half_of(0);
    if index == 0 {
        (difference(format, x, left), zero)
    } else if index == 1 {
        (difference(format, x, left), difference(format, y, top))
    } else if index == 2 {
        (zero, difference(format, y, top))
    } else if index == 3 {
        (difference(format, x, radius), difference(format, y, top))
    } else if index == 4 {
        (x, zero)
    } else if index == 5 {
        (difference(format, x, radius), difference(format, y, radius))
    } else if index == 6 {
        (zero, y)
    } else {
        (difference(format, x, left), difference(format, y, radius))
    }
}

/// How far the middle of a pixel lies from the outline of the window, moved down by a number of
/// pixels.
#[verifier::opaque]
pub open spec fn distance_at(
    index: int,
    x: int,
    y: int,
    geometry: ShadowGeometry,
    offset_y: int,
) -> Distance {
    let (right, down) = pixel_middle(index, x, y, geometry);
    distance_of(index, right, down, half_of(2 * geometry.corner_radius), half_of(2 * offset_y))
}

fn pixel_distance(index: usize, x: u32, y: u32, geometry: ShadowGeometry, offset_y: i32) -> (
    distance: SignedDistance)
    ensures
        distance@ == distance_at(index as int, x as int, y as int, geometry, offset_y as int),
{
    proof {
        reveal(distance_at);
    }
    let half = Binary32::from_halves(1);
    let x = Binary32::from_whole(x).plus(half);
    let y = Binary32::from_whole(y).plus(half);
    let radius = Binary32::from_whole(geometry.corner_radius);
    let left = Binary32::from_whole(geometry.left);
    let top = Binary32::from_whole(geometry.top);
    let zero = Binary32::from_halves(0);
    let (x, y): (Binary32, Binary32) = match index {
        0 => (x.minus(left), zero),
        1 => (x.minus(left), y.minus(top)),
        2 => (zero, y.minus(top)),
        3 => (x.minus(radius), y.minus(top)),
        4 => (x, zero),
        5 => (x.minus(radius), y.minus(radius)),
        6 => (zero, y),
        _ => (x.minus(left), y.minus(radius)),
    };
    signed_distance(index, x, y, radius, Binary32::from_halves(2 * offset_y as i64))
}

/// How far a pixel of a piece lies from the window: below zero, the window lies over it.
pub fn shadow_mask(index: usize, x: u32, y: u32, geometry: ShadowGeometry) -> (mask: SignedDistance)
    ensures
        mask@ == distance_at(index as int, x as int, y as int, geometry, 0),
{
    pixel_distance(index, x, y, geometry, 0)
}

/// What a pixel of a piece shows.
#[derive(Debug, Copy, Clone)]
pub enum ShadowSample {
    /// Nothing: the window lies over it, and would show a shadow through.
    Covered,
    /// Shadow, by the distances from the outlines that cast the two layers.
    Lit { primary: SignedDistance, secondary: SignedDistance },
}

/// The numbers of what a pixel shows.
pub enum Sample {
    Covered,
    Lit { primary: Distance, secondary: Distance },
}

impl View for ShadowSample {
    type V = Sample;

    open spec fn view(&self) -> Sample {
        match *self {
            ShadowSample::Covered => Sample::Covered,
            ShadowSample::Lit { primary, secondary } => Sample::Lit {
                primary: primary@,
                secondary: secondary@,
            },
        }
    }
}

/// What a pixel of a piece shows, given the hypotenuse of its mask.
#[verifier::opaque]
pub open spec fn sample_of(
    index: int,
    x: int,
    y: int,
    geometry: ShadowGeometry,
    mask: Real,
) -> Sample {
    if less(distance_at(index, x, y, geometry, 0).length(mask), zero()) {
        Sample::Covered
    } else {
        Sample::Lit {
            primary: distance_at(index, x, y, geometry, SHADOW_VERTICAL_OFFSET as int),
            secondary: distance_at(
                index,
                x,
                y,
                geometry,
                SHADOW_VERTICAL_OFFSET + SECONDARY_RELATIVE_OFFSET_Y,
            ),
        }
    }
}

/// What a pixel of a piece shows, given the hypotenuse of its mask, which is not read where that
/// has no legs.
pub fn shadow_sample(index: usize, x: u32, y: u32, geometry: ShadowGeometry, mask: Binary32) -> (
    sample: ShadowSample)
    ensures
        sample@ == sample_of(index as int, x as int, y as int, geometry, mask@),
{
    proof {
        reveal(sample_of);
    }
    let distance: Binary32 = shadow_mask(index, x, y, geometry).length(mask);
    if distance.is_below_zero() {
        return ShadowSample::Covered;
    }
    let offset: i32 = SHADOW_VERTICAL_OFFSET as i32;
    ShadowSample::Lit {
        primary: pixel_distance(index, x, y, geometry, offset),
        secondary: pixel_distance(index, x, y, geometry, offset + SECONDARY_RELATIVE_OFFSET_Y),
    }
}

/// How far the pixels of a piece lie from the window, row by row.
pub fn shadow_masks(index: usize, width: u32, height: u32, geometry: ShadowGeometry) -> (masks: Vec<
    SignedDistance,
>)
    requires
        width * height * 4 <= u32::MAX,
    ensures
        masks@.len() == width * height,
        forall|i: int|
            0 <= i < masks@.len() ==> (#[trigger] masks@[i])@ == distance_at(
                index as int,
                i % width as int,
                i / width as int,
                geometry,
                0,
            ),
{
    let count: u32 = width * height;
    let mut masks: Vec<SignedDistance> = Vec::new();
    let mut done: u32 = 0;
    while done < count
        invariant
            count == width * height,
            done <= count,
            masks@.len() == done,
            forall|i: int|
                0 <= i < done ==> (#[trigger] masks@[i])@ == distance_at(
                    index as int,
                    i % width as int,
                    i / width as int,
                    geometry,
                    0,
                ),
        decreases count - done,
    {
        proof {
            assert(width > 0) by (nonlinear_arith)
                requires
                    width * height > 0,
                    width >= 0,
            ;
        }
        masks.push(shadow_mask(index, done % width, done / width, geometry));
        done = done + 1;
    }
    masks
}

/// What the pixels of a piece show, row by row, given the hypotenuse of each mask.
pub fn shadow_samples(
    index: usize,
    width: u32,
    height: u32,
    geometry: ShadowGeometry,
    masks: &Vec<Binary32>,
) -> (samples: Vec<ShadowSample>)
    requires
        width * height * 4 <= u32::MAX,
        masks@.len() == width * height,
    ensures
        samples@.len() == width * height,
        forall|i: int|
            0 <= i < samples@.len() ==> (#[trigger] samples@[i])@ == sample_of(
                index as int,
                i % width as int,
                i / width as int,
                geometry,
                masks@[i]@,
            ),
{
    let count: u32 = width * height;
    let mut samples: Vec<ShadowSample> = Vec::new();
    let mut done: u32 = 0;
    while done < count
        invariant
            count == width * height,
            done <= count,
            masks@.len() == count,
            samples@.len() == done,
            forall|i: int|
                0 <= i < done ==> (#[trigger] samples@[i])@ == sample_of(
                    index as int,
                    i % width as int,
                    i / width as int,
                    geometry,
                    masks@[i]@,
                ),
        decreases count - done,
    {
        proof {
            assert(width > 0) by (nonlinear_arith)
                requires
                    width * height > 0,
                    width >= 0,
            ;
        }
        let mask: Binary32 = masks[done as usize];
        samples.push(shadow_sample(index, done % width, done / width, geometry, mask));
        done = done + 1;
    }
    samples
}

/// What the machine's functions gave for one layer of a pixel.
#[derive(Debug, Copy, Clone)]
pub struct Falloff {
    /// The hypotenuse of the distance's legs; not read where it has none.
    pub hypotenuse: Binary32,
    /// The exponential of the layer's exponent.
    pub exponential: Binary32,
}

/// What the machine's functions gave for a pixel.
#[derive(Debug, Copy, Clone)]
pub struct PixelFalloff {
    /// The hypotenuse of the mask's legs; not read where it has none.
    pub mask: Binary32,
    /// The first layer; not read where the window lies over the pixel, nor is the second one.
    pub primary: Falloff,
    pub secondary: Falloff,
}

/// The darkness of one layer.
pub open spec fn layer_of(distance: Distance, blur_radius: u32, falloff: Falloff) -> Real {
    tail_of_gaussian(
        distance.length(falloff.hypotenuse@),
        half_of(2 * blur_radius),
        falloff.exponential@,
    )
}

/// The opacity of a pixel.
pub open spec fn alpha_of(sample: Sample, falloff: PixelFalloff) -> u8 {
    match sample {
        Sample::Covered => 0,
        Sample::Lit { primary, secondary } => blended(
            layer_of(primary, PRIMARY_RADIUS, falloff.primary),
            layer_of(secondary, SECONDARY_RADIUS, falloff.secondary),
        ) as u8,
    }
}

/// What the exponential of a layer is taken of.
pub open spec fn layer_exponent(distance: Distance, blur_radius: u32, hypotenuse: Real) -> Real {
    exponent_of(tail_value(distance.length(hypotenuse), half_of(2 * blur_radius)))
}

impl ShadowSample {
    /// What the machine takes the exponentials of, for the two layers, given the hypotenuse of
    /// each; a pixel under the window needs none.
    pub fn exponents(self, primary: Binary32, secondary: Binary32) -> (exponents: Option<
        (Binary32, Binary32),
    >)
        ensures
            match self@ {
                Sample::Covered => exponents is None,
                Sample::Lit { primary: first, secondary: second } => match exponents {
                    Some((a, b)) => a@ == layer_exponent(first, PRIMARY_RADIUS, primary@) && b@
                        == layer_exponent(second, SECONDARY_RADIUS, secondary@),
                    None => false,
                },
            },
    {
        match self {
            ShadowSample::Covered => None,
            ShadowSample::Lit { primary: first, secondary: second } => Some(
                (
                    gaussian_exponent(
                        first.length(primary),
                        Binary32::from_whole(PRIMARY_RADIUS),
                    ),
                    gaussian_exponent(
                        second.length(secondary),
                        Binary32::from_whole(SECONDARY_RADIUS),
                    ),
                ),
            ),
        }
    }

    /// The opacity of a pixel.
    pub fn alpha(self, falloff: PixelFalloff) -> (alpha: u8)
        ensures
            alpha == alpha_of(self@, falloff),
    {
        match self {
            ShadowSample::Covered => 0,
            ShadowSample::Lit { primary, secondary } => {
                let first = gaussian_tail(
                    primary.length(falloff.primary.hypotenuse),
                    Binary32::from_whole(PRIMARY_RADIUS),
                    falloff.primary.exponential,
                );
                let second = gaussian_tail(
                    secondary.length(falloff.secondary.hypotenuse),
                    Binary32::from_whole(SECONDARY_RADIUS),
                    falloff.secondary.exponential,
                );
                blend(first, second)
            },
        }
    }
}

/// The opacity of a pixel of a piece.
pub open spec fn pixel_alpha(
    index: int,
    x: int,
    y: int,
    geometry: ShadowGeometry,
    falloff: PixelFalloff,
) -> u8 {
    alpha_of(sample_of(index, x, y, geometry, falloff.mask@), falloff)
}

/// The pixels of a piece, four bytes each and row by row. Only the fourth byte, the opacity, is
/// ever set.
pub open spec fn pixels_of(
    index: int,
    width: nat,
    height: nat,
    geometry: ShadowGeometry,
    falloffs: Seq<PixelFalloff>,
) -> Seq<u8> {
    Seq::new(
        4 * (width * height),
        |i: int|
            if i % 4 == 3 {
                pixel_alpha(
                    index,
                    (i / 4) % width as int,
                    (i / 4) / width as int,
                    geometry,
                    falloffs[i / 4],
                )
            } else {
                0
            },
    )
}

/// The pixels of a piece, given what the machine's functions gave for each, row by row.
pub fn shadow_pixels(
    index: usize,
    width: u32,
    height: u32,
    geometry: ShadowGeometry,
    falloffs: &Vec<PixelFalloff>,
) -> (pixels: Vec<u8>)
    requires
        width * height * 4 <= u32::MAX,
        falloffs@.len() == width * height,
    ensures
        pixels@ == pixels_of(index as int, width as nat, height as nat, geometry, falloffs@),
{
    let count: u32 = width * height;
    let ghost all = pixels_of(index as int, width as nat, height as nat, geometry, falloffs@);
    let mut pixels: Vec<u8> = Vec::new();
    let mut done: u32 = 0;
    while done < count
        invariant
            count == width * height,
            done <= count,
            falloffs@.len() == count,
            all == pixels_of(index as int, width as nat, height as nat, geometry, falloffs@),
            pixels@ == all.take(4 * done),
        decreases count - done,
    {
        proof {
            assert(width > 0) by (nonlinear_arith)
                requires
                    width * height > 0,
                    width >= 0,
            ;
        }
        let falloff: PixelFalloff = falloffs[done as usize];
        let sample = shadow_sample(index, done % width, done / width, geometry, falloff.mask);
        let alpha: u8 = sample.alpha(falloff);
        pixels.push(0);
        pixels.push(0);
        pixels.push(0);
        pixels.push(alpha);
        done = done + 1;
        assert(pixels@ =~= all.take(4 * done));
    }
    assert(pixels@ =~= all);
    pixels
}

/// A piece of the shadow.
#[derive(Debug, Copy, Clone, PartialEq, Eq, Structural)]
pub enum Piece {
    Left,
    TopLeft,
    Top,
    TopRight,
    Right,
    BottomRight,
    Bottom,
    BottomLeft,
}

/// A side of the window.
#[derive(Debug, Copy, Clone, PartialEq, Eq, Structural)]
pub enum Side {
    Left,
    Top,
    Right,
    Bottom,
}

/// One thing that the connection does.
#[derive(Debug, Copy, Clone, PartialEq, Eq, Structural)]
pub enum ShadowStep {
    /// Take in what the compositor has sent.
    DispatchPending,
    /// Make a shadow for the surface.
    CreateShadow,
    /// Let a piece of the shadow show the buffer with the given index.
    Attach { piece: Piece, buffer: usize },
    /// Let the shadow reach out from a side by a number of pixels.
    SetOffset { side: Side, offset: u32 },
    /// Apply the changes of the shadow.
    CommitShadow,
    /// Take the shadow off the surface.
    UnsetShadow,
    /// Destroy the shadow.
    DestroyShadow,
    /// Apply the changes of the surface.
    CommitSurface,
    /// Destroy the buffer with the given index.
    DestroyBuffer { buffer: usize },
    /// Destroy the manager of shadows.
    DestroyManager,
    /// Send what was asked for.
    Flush,
}

/// The steps that put a shadow on the surface.
pub open spec fn attach_steps(geometry: ShadowGeometry) -> Seq<ShadowStep> {
    seq![
        ShadowStep::CreateShadow,
        ShadowStep::Attach { piece: Piece::Left, buffer: 0 },
        ShadowStep::Attach { piece: Piece::TopLeft, buffer: 1 },
        ShadowStep::Attach { piece: Piece::Top, buffer: 2 },
        ShadowStep::Attach { piece: Piece::TopRight, buffer: 3 },
        ShadowStep::Attach { piece: Piece::Right, buffer: 4 },
        ShadowStep::Attach { piece: Piece::BottomRight, buffer: 5 },
        ShadowStep::Attach { piece: Piece::Bottom, buffer: 6 },
        ShadowStep::Attach { piece: Piece::BottomLeft, buffer: 7 },
        ShadowStep::SetOffset { side: Side::Left, offset: geometry.left },
        ShadowStep::SetOffset { side: Side::Top, offset: geometry.top },
        ShadowStep::SetOffset { side: Side::Right, offset: geometry.right },
        ShadowStep::SetOffset { side: Side::Bottom, offset: geometry.bottom },
        ShadowStep::CommitShadow,
    ]
}

/// The steps that put a shadow on the surface.
pub fn attach_shadow(geometry: ShadowGeometry) -> (steps: Vec<ShadowStep>)
    ensures
        steps@ == attach_steps(geometry),
{
    let mut steps: Vec<ShadowStep> = Vec::new();
    steps.push(ShadowStep::CreateShadow);
    steps.push(ShadowStep::Attach { piece: Piece::Left, buffer: 0 });
    steps.push(ShadowStep::Attach { piece: Piece::TopLeft, buffer: 1 });
    steps.push(ShadowStep::Attach { piece: Piece::Top, buffer: 2 });
    steps.push(ShadowStep::Attach { piece: Piece::TopRight, buffer: 3 });
    steps.push(ShadowStep::Attach { piece: Piece::Right, buffer: 4 });
    steps.push(ShadowStep::Attach { piece: Piece::BottomRight, buffer: 5 });
    steps.push(ShadowStep::Attach { piece: Piece::Bottom, buffer: 6 });
    steps.push(ShadowStep::Attach { piece: Piece::BottomLeft, buffer: 7 });
    steps.push(ShadowStep::SetOffset { side: Side::Left, offset: geometry.left });
    steps.push(ShadowStep::SetOffset { side: Side::Top, offset: geometry.top });
    steps.push(ShadowStep::SetOffset { side: Side::Right, offset: geometry.right });
    steps.push(ShadowStep::SetOffset { side: Side::Bottom, offset: geometry.bottom });
    steps.push(ShadowStep::CommitShadow);
    assert(steps@ =~= attach_steps(geometry));
    steps
}

/// Where the connecting stands: the next thing to try.
#[derive(Debug, Copy, Clone, PartialEq, Eq, Structural)]
pub enum ShadowSetup {
    ImportSurface,
    WrapSurface,
    ReadGlobals,
    BindManager,
    BindSharedMemory,
    CreateBuffers,
}

/// How the connecting goes on.
#[derive(Debug, Copy, Clone, PartialEq, Eq, Structural)]
pub enum ShadowProgress {
    Next(ShadowSetup),
    Ready,
    /// There is no shadow; `warn` where that is worth a warning.
    Unavailable { warn: bool },
}

impl ShadowSetup {
    /// How the connecting goes on after a step that worked or did not: every step is needed. That
    /// the compositor offers no shadow is worth no warning.
    pub open spec fn after(self, succeeded: bool) -> ShadowProgress {
        if !succeeded {
            ShadowProgress::Unavailable { warn: self != ShadowSetup::BindManager }
        } else {
            match self {
                ShadowSetup::ImportSurface => ShadowProgress::Next(ShadowSetup::WrapSurface),
                ShadowSetup::WrapSurface => ShadowProgress::Next(ShadowSetup::ReadGlobals),
                ShadowSetup::ReadGlobals => ShadowProgress::Next(ShadowSetup::BindManager),
                ShadowSetup::BindManager => ShadowProgress::Next(ShadowSetup::BindSharedMemory),
                ShadowSetup::BindSharedMemory => ShadowProgress::Next(ShadowSetup::CreateBuffers),
                ShadowSetup::CreateBuffers => ShadowProgress::Ready,
            }
        }
    }

    /// The lowest and the highest version of the protocol that a step binds.
    pub open spec fn spec_versions(self) -> Option<(u32, u32)> {
        match self {
            ShadowSetup::BindManager => Some((1, 2)),
            ShadowSetup::BindSharedMemory => Some((1, 1)),
            _ => None,
        }
    }

    /// The lowest and the highest version of the protocol that this step binds, if it binds one.
    pub fn versions(self) -> (versions: Option<(u32, u32)>)
        ensures
            versions == self.spec_versions(),
    {
        match self {
            ShadowSetup::BindManager => Some((1, 2)),
            ShadowSetup::BindSharedMemory => Some((1, 1)),
            _ => None,
        }
    }

    /// How the connecting goes on after a step that worked or did not.
    pub fn advance(self, succeeded: bool) -> (progress: ShadowProgress)
        ensures
            progress == self.after(succeeded),
    {
        if !succeeded {
            return ShadowProgress::Unavailable { warn: self != ShadowSetup::BindManager };
        }
        match self {
            ShadowSetup::ImportSurface => ShadowProgress::Next(ShadowSetup::WrapSurface),
            ShadowSetup::WrapSurface => ShadowProgress::Next(ShadowSetup::ReadGlobals),
            ShadowSetup::ReadGlobals => ShadowProgress::Next(ShadowSetup::BindManager),
            ShadowSetup::BindManager => ShadowProgress::Next(ShadowSetup::BindSharedMemory),
            ShadowSetup::BindSharedMemory => ShadowProgress::Next(ShadowSetup::CreateBuffers),
            ShadowSetup::CreateBuffers => ShadowProgress::Ready,
        }
    }
}

/// Shadow of one surface, whose eight buffers exist.
#[derive(Debug, Copy, Clone, PartialEq, Eq, Structural)]
pub struct KdeShadow {
    pub manager_version: u32,
    pub shadow: bool,
    pub enabled: bool,
}

/// The steps that make changes visible.
pub open spec fn show_steps() -> Seq<ShadowStep> {
    seq![ShadowStep::CommitSurface, ShadowStep::Flush]
}

/// The steps that destroy the first `count` buffers.
pub open spec fn destroy_steps(count: nat) -> Seq<ShadowStep> {
    Seq::new(count, |i: int| ShadowStep::DestroyBuffer { buffer: i as usize })
}

impl KdeShadow {
    /// A shadow is there exactly while it is asked for.
    pub open spec fn wf(self) -> bool {
        self.shadow == self.enabled
    }

    /// The state and the steps after an update.
    pub open spec fn after_update(self, enabled: bool) -> (KdeShadow, Seq<ShadowStep>) {
        if enabled == self.enabled {
            (self, seq![ShadowStep::DispatchPending])
        } else if enabled {
            (
                KdeShadow { shadow: true, enabled, ..self },
                attach_steps(standard_geometry()) + show_steps(),
            )
        } else {
            (
                KdeShadow { shadow: false, enabled, ..self },
                seq![ShadowStep::UnsetShadow] + step_if(self.shadow, ShadowStep::DestroyShadow)
                    + show_steps(),
            )
        }
    }

    /// The steps that give up the surface.
    pub open spec fn close_steps(self) -> Seq<ShadowStep> {
        seq![ShadowStep::UnsetShadow, ShadowStep::CommitSurface] + step_if(
            self.shadow,
            ShadowStep::DestroyShadow,
        ) + destroy_steps(PIECES as nat) + step_if(
            self.manager_version >= 2,
            ShadowStep::DestroyManager,
        ) + seq![ShadowStep::Flush]
    }

    /// Puts a shadow on a surface whose buffers exist, and gives the steps to carry out.
    pub fn new(manager_version: u32, _scale_factor: Binary64) -> (result: (Self, Vec<ShadowStep>))
        ensures
            result.0 == (KdeShadow { manager_version, shadow: true, enabled: true }),
            result.0.wf(),
            result.1@ == attach_steps(standard_geometry()) + show_steps(),
    {
        let mut steps: Vec<ShadowStep> = attach_shadow(ShadowGeometry::new());
        steps.push(ShadowStep::CommitSurface);
        steps.push(ShadowStep::Flush);
        assert(steps@ =~= attach_steps(standard_geometry()) + show_steps());
        (Self { manager_version, shadow: true, enabled: true }, steps)
    }

    /// Shows the shadow or takes it off, and gives the steps to carry out.
    pub fn update(&mut self, enabled: bool, _scale_factor: Binary64) -> (steps: Vec<ShadowStep>)
        requires
            old(self).wf(),
        ensures
            (*final(self), steps@) == old(self).after_update(enabled),
            final(self).wf(),
    {
        let geometry = ShadowGeometry::new();
        let mut steps: Vec<ShadowStep> = Vec::new();
        if enabled == self.enabled {
            steps.push(ShadowStep::DispatchPending);
            assert(steps@ =~= seq![ShadowStep::DispatchPending]);
            return steps;
        }
        if enabled {
            steps = attach_shadow(geometry);
            self.shadow = true;
        } else {
            steps.push(ShadowStep::UnsetShadow);
            if self.shadow {
                steps.push(ShadowStep::DestroyShadow);
            }
            self.shadow = false;
        }
        steps.push(ShadowStep::CommitSurface);
        steps.push(ShadowStep::Flush);
        self.enabled = enabled;
        assert(steps@ =~= old(self).after_update(enabled).1);
        steps
    }

    /// Gives up the surface, and gives the steps to carry out.
    pub fn close(self) -> (steps: Vec<ShadowStep>)
        requires
            self.wf(),
        ensures
            steps@ == self.close_steps(),
    {
        let mut steps: Vec<ShadowStep> = Vec::new();
        steps.push(ShadowStep::UnsetShadow);
        steps.push(ShadowStep::CommitSurface);
        if self.shadow {
            steps.push(ShadowStep::DestroyShadow);
        }
        let ghost before = steps@;
        let mut buffer: usize = 0;
        while buffer < PIECES
            invariant
                buffer <= PIECES,
                steps@ == before + destroy_steps(buffer as nat),
            decreases PIECES - buffer,
        {
            steps.push(ShadowStep::DestroyBuffer { buffer });
            buffer = buffer + 1;
            assert(steps@ =~= before + destroy_steps(buffer as nat));
        }
        if self.manager_version >= 2 {
            steps.push(ShadowStep::DestroyManager);
        }
        steps.push(ShadowStep::Flush);
        assert(steps@ =~= self.close_steps());
        steps
    }
}

/// The number of units with the given digits, scaled.
pub open spec fn scaled(digits: nat, shift: nat) -> nat {
    digits * pow2(shift)
}

/// A number stands for the hypotenuse of two legs: rounding has not carried it past any number of
/// the format, neither up nor down.
pub open spec fn is_hypotenuse(across: Real, along: Real, hypotenuse: Real) -> bool {
    let square = across->units * across->units + along->units * along->units;
    &&& across is Finite
    &&& along is Finite
    &&& hypotenuse matches Real::Finite { negative, units } && !negative && forall|
        digits: nat,
        shift: nat,
    |
        digits < Format::Single.end() ==> {
            let number = #[trigger] scaled(digits, shift);
            &&& number * number <= square ==> number <= units
            &&& number * number >= square ==> units <= number
        }
}

/// The distance from a corner has the sign of the exact one where a number lies between: the
/// radius itself, or one below it.
pub proof fn lemma_corner_sign(
    across: Real,
    along: Real,
    hypotenuse: Real,
    digits: nat,
    shift: nat,
    below_digits: nat,
    below_shift: nat,
)
    requires
        is_hypotenuse(across, along, hypotenuse),
        digits < Format::Single.end(),
        below_digits < Format::Single.end(),
        scaled(below_digits, below_shift) < scaled(digits, shift),
    ensures
        ({
            let square = across->units * across->units + along->units * along->units;
            let units = scaled(digits, shift);
            let below = scaled(below_digits, below_shift);
            let radius = Real::Finite { negative: false, units };
            let length = difference(Format::Single, hypotenuse, radius);
            &&& square >= units * units ==> !less(length, zero())
            &&& square <= below * below ==> less(length, zero())
        }),
{
    let radius = Real::Finite { negative: false, units: scaled(digits, shift) };
    lemma_difference_sign(Format::Single, hypotenuse, radius);
}

/// From the middles of pixels, at odd numbers of half pixels, the distance from a corner has the
/// sign of the exact one: always outside, half a pixel or more inside, and anywhere inside where
/// the radius is up to 2048 pixels. With a larger radius a pixel can lie inside by less than
/// single precision tells.
#[verifier::spinoff_prover]
proof fn lemma_corner_sign_in_halves(across: int, along: int, radius: u32, hypotenuse: Real)
    requires
        -0x100_0000 <= across <= 0x100_0000,
        -0x100_0000 <= along <= 0x100_0000,
        across % 2 == 1,
        along % 2 == 1,
        radius <= 0x80_0000,
        is_hypotenuse(half_of(across), half_of(along), hypotenuse),
    ensures
        ({
            let legs = across * across + along * along;
            let diameter = 2 * radius;
            let inside = less(
                difference(Format::Single, hypotenuse, half_of(diameter)),
                zero(),
            );
            &&& inside ==> legs < diameter * diameter
            &&& legs < diameter * diameter && radius <= 2048 ==> inside
            &&& diameter > 0 && legs <= (diameter - 1) * (diameter - 1) ==> inside
        }),
{
    let half = pow2(148);
    let legs = across * across + along * along;
    let diameter = 2 * radius as nat;
    lemma_half_exact(across);
    lemma_half_exact(along);
    lemma_half_exact(diameter as int);
    lemma_pow2_ordered(0, 148);
    let (a, b) = (magnitude(across), magnitude(along));
    let (ua, ub) = (a * half, b * half);
    let square = ua * ua + ub * ub;
    assert(a * a == across * across && b * b == along * along) by (nonlinear_arith)
        requires
            a == across || a == -across,
            b == along || b == -along,
    ;
    assert(square == legs * (half * half)) by (nonlinear_arith)
        requires
            square == (a * half) * (a * half) + (b * half) * (b * half),
            legs == a * a + b * b,
    ;
    let units = diameter * half;
    assert(half * half > 0) by (nonlinear_arith)
        requires
            half > 0,
    ;
    if radius == 0 {
        assert(legs >= 0) by (nonlinear_arith)
            requires
                legs == across * across + along * along,
        ;
        assert(diameter * diameter == 0 && diameter * half == 0) by (nonlinear_arith)
            requires
                diameter == 0,
        ;
        lemma_difference_sign(Format::Single, hypotenuse, half_of(0));
    } else {
        vstd::arithmetic::power2::lemma_pow2_unfold(149);
        let (digits, shift) = if diameter < 0x100_0000 {
            (diameter, 148nat)
        } else {
            (0x80_0000nat, 149nat)
        };
        assert(scaled(digits, shift) == units) by (nonlinear_arith)
            requires
                scaled(digits, shift) == digits * pow2(shift),
                units == diameter * half,
                (digits == diameter && pow2(shift) == half) || (diameter == 0x100_0000 && digits
                    == 0x80_0000 && pow2(shift) == 2 * half),
        ;
        lemma_squares(legs, diameter, 1, half, half);
        assert(legs * (1nat * 1nat) == legs) by (nonlinear_arith);
        assert(square >= units * units <==> legs >= diameter * diameter);
        let less_by_half = (diameter - 1) as nat;
        assert(scaled(less_by_half, 148) < units) by (nonlinear_arith)
            requires
                scaled(less_by_half, 148) == (diameter - 1) * half,
                units == diameter * half,
                half > 0,
        ;
        lemma_corner_sign(
            half_of(across),
            half_of(along),
            hypotenuse,
            digits,
            shift,
            less_by_half,
            148,
        );
        lemma_squares(legs, less_by_half, 1, half, half);
        if radius <= 2048 {
            lemma_odd_squares(across, along, diameter as int);
            lemma_pow2_sum(12, 136);
            vstd::arithmetic::power2::lemma2_to64();
            let small = pow2(136);
            let below_digits = (4096 * diameter - 1) as nat;
            assert(scaled(below_digits, 136) < units) by (nonlinear_arith)
                requires
                    scaled(below_digits, 136) == (4096 * diameter - 1) * small,
                    units == diameter * half,
                    half == 4096 * small,
                    small > 0,
            ;
            lemma_corner_sign(
                half_of(across),
                half_of(along),
                hypotenuse,
                digits,
                shift,
                below_digits,
                136,
            );
            lemma_squares(legs, below_digits, 4096, small, half);
            if legs < diameter * diameter {
                assert(below_digits * below_digits >= legs * (4096 * 4096)) by (nonlinear_arith)
                    requires
                        below_digits == 4096 * diameter - 1,
                        legs <= diameter * diameter - 2,
                        0 < diameter <= 4096,
                ;
            }
        }
    }
}

/// Squares compare alike in half pixels and in units.
proof fn lemma_squares(legs: int, digits: nat, parts: nat, small: nat, half: nat)
    requires
        half == parts * small,
        small > 0,
        legs >= 0,
    ensures
        legs * (parts * parts) <= digits * digits <==> legs * (half * half) <= (digits * small) * (
        digits * small),
        legs * (parts * parts) >= digits * digits <==> legs * (half * half) >= (digits * small) * (
        digits * small),
{
    let unit = small * small;
    let left = legs * (parts * parts);
    let right = digits * digits;
    assert(legs * (half * half) == left * unit) by (nonlinear_arith)
        requires
            half == parts * small,
            unit == small * small,
            left == legs * (parts * parts),
    ;
    assert((digits * small) * (digits * small) == right * unit) by (nonlinear_arith)
        requires
            unit == small * small,
            right == digits * digits,
    ;
    assert(unit > 0) by (nonlinear_arith)
        requires
            unit == small * small,
            small > 0,
    ;
    assert(left <= right <==> left * unit <= right * unit) by (nonlinear_arith)
        requires
            unit > 0,
    ;
    assert(left >= right <==> left * unit >= right * unit) by (nonlinear_arith)
        requires
            unit > 0,
    ;
}

/// The squares of two odd numbers add up to two more than a multiple of four, so that they miss an
/// even square by two.
proof fn lemma_odd_squares(a: int, b: int, even: int)
    requires
        a % 2 == 1,
        b % 2 == 1,
        even % 2 == 0,
    ensures
        a * a + b * b < even * even ==> a * a + b * b <= even * even - 2,
{
    let (i, j, k) = (a / 2, b / 2, even / 2);
    assert(a * a == 4 * (i * i + i) + 1) by (nonlinear_arith)
        requires
            a == 2 * i + 1,
    ;
    assert(b * b == 4 * (j * j + j) + 1) by (nonlinear_arith)
        requires
            b == 2 * j + 1,
    ;
    assert(even * even == 4 * (k * k)) by (nonlinear_arith)
        requires
            even == 2 * k,
    ;
}

impl ShadowGeometry {
    /// The lengths of every piece are short enough for single precision to tell half pixels apart,
    /// for a shadow moved down by no more than `offset_y`.
    pub open spec fn is_short(self, offset_y: int) -> bool {
        &&& self.left + self.corner_radius + offset_y <= 0x80_0000
        &&& self.top + self.corner_radius + offset_y <= 0x80_0000
        &&& self.right + self.corner_radius + offset_y <= 0x80_0000
        &&& self.bottom + self.corner_radius + offset_y <= 0x80_0000
    }
}

/// The pixel belongs to the piece.
pub open spec fn in_piece(index: int, x: int, y: int, geometry: ShadowGeometry) -> bool {
    &&& 0 <= index < PIECES
    &&& 0 <= x < piece_size(index, geometry).0
    &&& 0 <= y < piece_size(index, geometry).1
}

/// The pixel has a place in the piece or beyond it, not too far out for half pixels to be told
/// apart.
pub open spec fn in_reach(index: int, x: int, y: int) -> bool {
    &&& 0 <= index < PIECES
    &&& 0 <= x < 0x80_0000
    &&& 0 <= y < 0x80_0000
}

/// Where the middle of a pixel of a piece lies, counted in half pixels.
pub open spec fn middle_in_halves(index: int, x: int, y: int, geometry: ShadowGeometry) -> (
    int,
    int,
) {
    let x = 2 * x + 1;
    let y = 2 * y + 1;
    let radius = 2 * geometry.corner_radius;
    let left = 2 * geometry.left;
    let top = 2 * geometry.top;
    if index == 0 {
        (x - left, 0)
    } else if index == 1 {
        (x - left, y - top)
    } else if index == 2 {
        (0, y - top)
    } else if index == 3 {
        (x - radius, y - top)
    } else if index == 4 {
        (x, 0)
    } else if index == 5 {
        (x - radius, y - radius)
    } else if index == 6 {
        (0, y)
    } else {
        (x - left, y - radius)
    }
}

/// The distance of a pixel from the outline moved down by a number of pixels, counted in half
/// pixels: its length from a side, its legs from a corner.
pub open spec fn distance_in_halves(
    index: int,
    x: int,
    y: int,
    geometry: ShadowGeometry,
    offset_y: int,
) -> Distance {
    let (right, down) = middle_in_halves(index, x, y, geometry);
    let down = down - 2 * offset_y;
    let diameter = 2 * geometry.corner_radius;
    let across = if index == 1 || index == 7 {
        right - diameter
    } else {
        right + diameter
    };
    let along = if index == 1 || index == 3 {
        down - diameter
    } else {
        down + diameter
    };
    if index == 0 {
        Distance::Straight { length: half_of(-right) }
    } else if index == 2 {
        Distance::Straight { length: half_of(-down) }
    } else if index == 4 {
        Distance::Straight { length: half_of(right) }
    } else if index == 6 {
        Distance::Straight { length: half_of(down) }
    } else {
        Distance::Corner {
            across: half_of(across),
            along: half_of(along),
            radius: half_of(diameter),
        }
    }
}

proof fn lemma_middle_exact(index: int, x: int, y: int, geometry: ShadowGeometry)
    requires
        in_reach(index, x, y),
        geometry.is_short(0),
    ensures
        ({
            let (right, down) = middle_in_halves(index, x, y, geometry);
            pixel_middle(index, x, y, geometry) == (half_of(right), half_of(down))
        }),
{
    let radius = 2 * geometry.corner_radius;
    let left = 2 * geometry.left;
    let top = 2 * geometry.top;
    lemma_half_sum(2 * x, 1);
    lemma_half_sum(2 * y, 1);
    if index == 0 || index == 1 || index == 7 {
        lemma_half_difference(2 * x + 1, left);
    }
    if index == 3 || index == 5 {
        lemma_half_difference(2 * x + 1, radius);
    }
    if index == 1 || index == 2 || index == 3 {
        lemma_half_difference(2 * y + 1, top);
    }
    if index == 5 || index == 7 {
        lemma_half_difference(2 * y + 1, radius);
    }
}

/// While a piece is short, no distance of its pixels is rounded: counting half pixels gives what
/// single precision computes.
#[verifier::spinoff_prover]
pub proof fn lemma_distance_exact(
    index: int,
    x: int,
    y: int,
    geometry: ShadowGeometry,
    offset_y: int,
)
    requires
        in_reach(index, x, y),
        0 <= offset_y,
        geometry.is_short(offset_y),
    ensures
        distance_at(index, x, y, geometry, offset_y) == distance_in_halves(
            index,
            x,
            y,
            geometry,
            offset_y,
        ),
{
    reveal(distance_at);
    let (right, down) = middle_in_halves(index, x, y, geometry);
    let offset = 2 * offset_y;
    let diameter = 2 * geometry.corner_radius;
    lemma_middle_exact(index, x, y, geometry);
    if index == 0 {
        lemma_half_negated(right);
    } else if index == 2 {
        lemma_half_difference(offset, down);
    } else if index == 6 {
        lemma_half_difference(down, offset);
    } else if index != 4 {
        if index == 1 || index == 7 {
            lemma_half_difference(right, diameter);
        } else {
            lemma_half_sum(right, diameter);
        }
        if index == 1 || index == 3 {
            lemma_half_difference(down, diameter);
            lemma_half_difference(down - diameter, offset);
        } else {
            lemma_half_sum(down, diameter);
            lemma_half_difference(down + diameter, offset);
        }
    }
}

/// The machine gave the hypotenuse of a mask from a corner; a mask from a side has none.
pub open spec fn is_mask_hypotenuse(mask: Distance, hypotenuse: Real) -> bool {
    mask matches Distance::Corner { across, along, .. } ==> is_hypotenuse(across, along, hypotenuse)
}

/// The middle of a pixel of a piece lies under the window, whose corner is rounded. A side piece
/// lies at one side of the window, a corner piece at the two sides that meet in its corner.
pub open spec fn under_window(index: int, x: int, y: int, geometry: ShadowGeometry) -> bool {
    let (right, down) = middle_in_halves(index, x, y, geometry);
    let diameter = 2 * geometry.corner_radius;
    let inward = if index == 0 || index == 1 || index == 7 {
        right
    } else {
        -right
    };
    let deep = if index == 1 || index == 2 || index == 3 {
        down
    } else {
        -down
    };
    if index == 0 || index == 4 {
        inward > 0
    } else if index == 2 || index == 6 {
        deep > 0
    } else {
        &&& inward > 0
        &&& deep > 0
        &&& inward < diameter && deep < diameter ==> (diameter - inward) * (diameter - inward) + (
        diameter - deep) * (diameter - deep) < diameter * diameter
    }
}

/// The middle of a pixel lies under the window, half a pixel or more from a round corner.
pub open spec fn well_under_window(index: int, x: int, y: int, geometry: ShadowGeometry) -> bool {
    let (right, down) = middle_in_halves(index, x, y, geometry);
    let diameter = 2 * geometry.corner_radius;
    let across = diameter - (if index == 1 || index == 7 {
        right
    } else {
        -right
    });
    let along = diameter - (if index == 1 || index == 3 {
        down
    } else {
        -down
    });
    &&& under_window(index, x, y, geometry)
    &&& index % 2 == 1 ==> across * across + along * along <= (diameter - 1) * (diameter - 1)
}

/// In a short shadow only pixels under the window are left clear. All of those are that lie half a
/// pixel or more inside, and all of them where the corners have a radius of up to 2048 pixels.
#[verifier::spinoff_prover]
pub proof fn lemma_covered_under_window(
    index: int,
    x: int,
    y: int,
    geometry: ShadowGeometry,
    mask: Real,
)
    requires
        in_piece(index, x, y, geometry),
        geometry.is_short(0),
        is_mask_hypotenuse(distance_at(index, x, y, geometry, 0), mask),
    ensures
        ({
            let covered = sample_of(index, x, y, geometry, mask) is Covered;
            &&& covered ==> under_window(index, x, y, geometry)
            &&& under_window(index, x, y, geometry) && geometry.corner_radius <= 2048 ==> covered
            &&& well_under_window(index, x, y, geometry) ==> covered
        }),
{
    reveal(sample_of);
    lemma_distance_exact(index, x, y, geometry, 0);
    let (right, down) = middle_in_halves(index, x, y, geometry);
    let diameter = 2 * geometry.corner_radius;
    if index == 0 {
        lemma_half_sign(-right);
    } else if index == 2 {
        lemma_half_sign(-down);
    } else if index == 4 {
        lemma_half_sign(right);
    } else if index == 6 {
        lemma_half_sign(down);
    } else {
        let inward = if index == 1 || index == 7 {
            right
        } else {
            -right
        };
        let deep = if index == 1 || index == 3 {
            down
        } else {
            -down
        };
        let (across, along) = (
            if index == 1 || index == 7 {
                right - diameter
            } else {
                right + diameter
            },
            if index == 1 || index == 3 {
                down - diameter
            } else {
                down + diameter
            },
        );
        let a = diameter - inward;
        let b = diameter - deep;
        assert(across * across == a * a && along * along == b * b) by (nonlinear_arith)
            requires
                across == a || across == -a,
                along == b || along == -b,
        ;
        assert(a * a >= 0 && b * b >= 0) by (nonlinear_arith);
        if inward <= 0 {
            assert(a * a >= diameter * diameter) by (nonlinear_arith)
                requires
                    a >= diameter >= 0,
            ;
        }
        if deep <= 0 {
            assert(b * b >= diameter * diameter) by (nonlinear_arith)
                requires
                    b >= diameter >= 0,
            ;
        }
        lemma_corner_sign_in_halves(across, along, geometry.corner_radius, mask);
    }
}

/// Every pixel of a side piece is beside the window and none is left clear, however long the
/// piece is.
#[verifier::spinoff_prover]
pub proof fn lemma_sides_are_lit(
    index: int,
    x: int,
    y: int,
    geometry: ShadowGeometry,
    mask: Real,
)
    requires
        in_piece(index, x, y, geometry),
        index % 2 == 0,
    ensures
        !under_window(index, x, y, geometry),
        sample_of(index, x, y, geometry, mask) is Lit,
{
    reveal(sample_of);
    reveal(distance_at);
    lemma_half_exact(0);
    assert(magnitude(0) * pow2(148) == 0) by (nonlinear_arith)
        requires
            magnitude(0) == 0,
    ;
    if index == 0 {
        lemma_beside(x, geometry.left);
    } else if index == 2 {
        lemma_beside(y, geometry.top);
    } else if index == 4 {
        lemma_next_whole(x);
    } else {
        lemma_next_whole(y);
        let middle = sum(Format::Single, half_of(2 * y), half_of(1));
        lemma_difference_sign(Format::Single, middle, half_of(0));
    }
}

/// A pixel before a side lies before it also as single precision counts.
proof fn lemma_beside(along: int, side: u32)
    requires
        0 <= along < side,
    ensures
        ({
            let format = Format::Single;
            let middle = sum(format, half_of(2 * along), half_of(1));
            let past = difference(format, middle, half_of(2 * side));
            &&& !less(negated(past), zero())
            &&& !less(difference(format, half_of(0), past), zero())
        }),
{
    let format = Format::Single;
    let middle = sum(format, half_of(2 * along), half_of(1));
    let past = difference(format, middle, half_of(2 * side));
    lemma_next_whole(along);
    lemma_half_finite(2 * along + 2);
    lemma_half_finite(2 * side);
    lemma_half_ordered(2 * along + 2, 2 * side);
    lemma_not_above(format, middle, half_of(2 * side));
    lemma_half_finite(0);
    lemma_half_sign(0);
    if past is Finite {
        lemma_difference_sign(format, half_of(0), past);
        lemma_half_exact(0);
        assert(magnitude(0) * pow2(148) == 0) by (nonlinear_arith)
            requires
                magnitude(0) == 0,
        ;
    }
}

/// Whatever the machine gave for the layers, no pixel under the window holds any shadow, and no
/// pixel of a piece holds a colour.
pub proof fn lemma_no_shadow_under_window(
    index: int,
    x: int,
    y: int,
    geometry: ShadowGeometry,
    falloffs: Seq<PixelFalloff>,
)
    requires
        in_piece(index, x, y, geometry),
    ensures
        ({
            let (width, height) = piece_size(index, geometry);
            let pixels = pixels_of(index, width as nat, height as nat, geometry, falloffs);
            let i = y * width + x;
            &&& 0 <= 4 * i
            &&& 4 * i + 3 < pixels.len()
            &&& pixels[4 * i] == 0 && pixels[4 * i + 1] == 0 && pixels[4 * i + 2] == 0
            &&& pixels[4 * i + 3] == pixel_alpha(index, x, y, geometry, falloffs[i])
            &&& geometry.is_short(0) && is_mask_hypotenuse(
                distance_at(index, x, y, geometry, 0),
                falloffs[i].mask@,
            ) && (well_under_window(index, x, y, geometry) || (under_window(index, x, y, geometry)
                && geometry.corner_radius <= 2048)) ==> pixels[4 * i + 3] == 0
        }),
{
    let (width, height) = piece_size(index, geometry);
    let i = y * width + x;
    vstd::arithmetic::div_mod::lemma_fundamental_div_mod_converse(i, width, y, x);
    assert(0 <= i < width * height) by (nonlinear_arith)
        requires
            i == y * width + x,
            0 <= x < width,
            0 <= y < height,
    ;
    assert((4 * i + 3) / 4 == i && (4 * i + 3) % 4 == 3);
    if geometry.is_short(0) && is_mask_hypotenuse(
        distance_at(index, x, y, geometry, 0),
        falloffs[i].mask@,
    ) {
        lemma_covered_under_window(index, x, y, geometry, falloffs[i].mask@);
    }
}

/// The distance seen in a mirror beside the window: a leg across changes its sign.
pub open spec fn mirrored(distance: Distance) -> Distance {
    match distance {
        Distance::Straight { length } => Distance::Straight { length },
        Distance::Corner { across, along, radius } => Distance::Corner {
            across: negated(across),
            along,
            radius,
        },
    }
}

/// The pieces at the right are mirrored by the pieces at the left: top, bottom and side.
pub open spec fn is_mirrored_pair(right: int, left: int) -> bool {
    ||| right == 3 && left == 1
    ||| right == 5 && left == 7
    ||| right == 4 && left == 0
}

/// A shadow that reaches as far to the left as to the right has pieces that are mirror images,
/// however high they are drawn: the distances of the pixels are.
pub proof fn lemma_distances_mirrored(
    right: int,
    left: int,
    x: int,
    y: int,
    geometry: ShadowGeometry,
    offset_y: int,
)
    requires
        is_mirrored_pair(right, left),
        in_reach(right, x, y),
        x < piece_size(right, geometry).0,
        geometry.left == geometry.right,
        0 <= offset_y,
        geometry.is_short(offset_y),
    ensures
        distance_at(right, x, y, geometry, offset_y) == mirrored(
            distance_at(left, piece_size(left, geometry).0 - 1 - x, y, geometry, offset_y),
        ),
{
    let other = piece_size(left, geometry).0 - 1 - x;
    lemma_distance_exact(right, x, y, geometry, offset_y);
    lemma_distance_exact(left, other, y, geometry, offset_y);
    let (along_right, _) = middle_in_halves(left, other, y, geometry);
    lemma_half_negated(along_right - 2 * geometry.corner_radius);
}

/// Pixels at mirrored places for which the machine gave the same are equally dark.
pub proof fn lemma_pixels_mirrored(
    right: int,
    left: int,
    x: int,
    y: int,
    geometry: ShadowGeometry,
    falloff: PixelFalloff,
)
    requires
        is_mirrored_pair(right, left),
        in_reach(right, x, y),
        x < piece_size(right, geometry).0,
        geometry.left == geometry.right,
        geometry.is_short(SHADOW_VERTICAL_OFFSET as int),
    ensures
        pixel_alpha(right, x, y, geometry, falloff) == pixel_alpha(
            left,
            piece_size(left, geometry).0 - 1 - x,
            y,
            geometry,
            falloff,
        ),
{
    reveal(sample_of);
    lemma_distances_mirrored(right, left, x, y, geometry, 0);
    lemma_distances_mirrored(right, left, x, y, geometry, SHADOW_VERTICAL_OFFSET as int);
    lemma_distances_mirrored(
        right,
        left,
        x,
        y,
        geometry,
        SHADOW_VERTICAL_OFFSET + SECONDARY_RELATIVE_OFFSET_Y,
    );
}

/// What two functions for the hypotenuse and the exponential give for a layer.
pub open spec fn is_layer_falloff(
    falloff: Falloff,
    distance: Distance,
    blur_radius: u32,
    hypotenuse: spec_fn(Real, Real) -> Real,
    exponential: spec_fn(Real) -> Real,
) -> bool {
    &&& distance matches Distance::Corner { across, along, .. } ==> falloff.hypotenuse@
        == hypotenuse(across, along)
    &&& falloff.exponential@ == exponential(
        layer_exponent(distance, blur_radius, falloff.hypotenuse@),
    )
}

/// What two functions for the hypotenuse and the exponential give for a pixel.
pub open spec fn is_pixel_falloff(
    falloff: PixelFalloff,
    index: int,
    x: int,
    y: int,
    geometry: ShadowGeometry,
    hypotenuse: spec_fn(Real, Real) -> Real,
    exponential: spec_fn(Real) -> Real,
) -> bool {
    &&& distance_at(index, x, y, geometry, 0) matches Distance::Corner { across, along, .. }
        ==> falloff.mask@ == hypotenuse(across, along)
    &&& sample_of(index, x, y, geometry, falloff.mask@) matches Sample::Lit { primary, secondary }
        ==> is_layer_falloff(
        falloff.primary,
        primary,
        PRIMARY_RADIUS,
        hypotenuse,
        exponential,
    ) && is_layer_falloff(falloff.secondary, secondary, SECONDARY_RADIUS, hypotenuse, exponential)
}

/// The right pieces are mirror images of the left ones, whatever the machine's functions are, so
/// long as its hypotenuse does not look at the sign of a leg.
#[verifier::spinoff_prover]
pub proof fn lemma_pieces_mirrored(
    right: int,
    left: int,
    x: int,
    y: int,
    geometry: ShadowGeometry,
    right_falloff: PixelFalloff,
    left_falloff: PixelFalloff,
    hypotenuse: spec_fn(Real, Real) -> Real,
    exponential: spec_fn(Real) -> Real,
)
    requires
        is_mirrored_pair(right, left),
        in_reach(right, x, y),
        x < piece_size(right, geometry).0,
        geometry.left == geometry.right,
        geometry.is_short(SHADOW_VERTICAL_OFFSET as int),
        forall|a: Real, b: Real| #[trigger] hypotenuse(negated(a), b) == hypotenuse(a, b),
        is_pixel_falloff(right_falloff, right, x, y, geometry, hypotenuse, exponential),
        is_pixel_falloff(
            left_falloff,
            left,
            piece_size(left, geometry).0 - 1 - x,
            y,
            geometry,
            hypotenuse,
            exponential,
        ),
    ensures
        pixel_alpha(right, x, y, geometry, right_falloff) == pixel_alpha(
            left,
            piece_size(left, geometry).0 - 1 - x,
            y,
            geometry,
            left_falloff,
        ),
{
    reveal(sample_of);
    lemma_distances_mirrored(right, left, x, y, geometry, 0);
    lemma_distances_mirrored(right, left, x, y, geometry, SHADOW_VERTICAL_OFFSET as int);
    lemma_distances_mirrored(
        right,
        left,
        x,
        y,
        geometry,
        SHADOW_VERTICAL_OFFSET + SECONDARY_RELATIVE_OFFSET_Y,
    );
}

/// How far a pixel of a side piece lies from the window, counted in half pixels.
pub open spec fn outward(index: int, x: int, y: int, geometry: ShadowGeometry) -> int {
    let (right, down) = middle_in_halves(index, x, y, geometry);
    if index == 0 {
        -right
    } else if index == 2 {
        -down
    } else if index == 4 {
        right
    } else {
        down
    }
}

/// How far the outline moved down by a number of pixels lies from that of the window, seen from a
/// side piece, counted in half pixels.
spec fn moved(index: int, offset_y: int) -> int {
    if index == 2 {
        -2 * offset_y
    } else if index == 6 {
        2 * offset_y
    } else {
        0
    }
}

/// How far the outlines that cast the two layers are moved, seen from a side piece.
spec fn layer_offsets(index: int) -> (int, int) {
    (
        moved(index, SHADOW_VERTICAL_OFFSET as int),
        moved(index, SHADOW_VERTICAL_OFFSET + SECONDARY_RELATIVE_OFFSET_Y),
    )
}

/// A distance from a side, counted in half pixels.
spec fn straight(n: int) -> Distance {
    Distance::Straight { length: half_of(n) }
}

proof fn lemma_side_distance(
    index: int,
    x: int,
    y: int,
    geometry: ShadowGeometry,
    offset_y: int,
)
    requires
        in_piece(index, x, y, geometry),
        index % 2 == 0,
        piece_size(index, geometry).0 <= LONGEST_SIDE,
        piece_size(index, geometry).1 <= LONGEST_SIDE,
        0 <= offset_y <= SHADOW_VERTICAL_OFFSET,
    ensures
        distance_at(index, x, y, geometry, offset_y) == straight(
            outward(index, x, y, geometry) - moved(index, offset_y),
        ),
{
    let alone = ShadowGeometry {
        left: if index == 0 {
            geometry.left
        } else {
            0
        },
        top: if index == 2 {
            geometry.top
        } else {
            0
        },
        right: if index == 4 {
            geometry.right
        } else {
            0
        },
        bottom: if index == 6 {
            geometry.bottom
        } else {
            0
        },
        corner_radius: 0,
    };
    assert(distance_at(index, x, y, geometry, offset_y) == distance_at(
        index,
        x,
        y,
        alone,
        offset_y,
    )) by {
        reveal(distance_at);
    }
    lemma_distance_exact(index, x, y, alone, offset_y);
}

/// A pixel of a side piece shows two layers, at distances that are odd numbers of half pixels.
#[verifier::spinoff_prover]
proof fn lemma_side_sample(
    index: int,
    x: int,
    y: int,
    geometry: ShadowGeometry,
    falloff: PixelFalloff,
    hypotenuse: spec_fn(Real, Real) -> Real,
    exponential: spec_fn(Real) -> Real,
)
    requires
        in_piece(index, x, y, geometry),
        index % 2 == 0,
        piece_size(index, geometry).0 <= LONGEST_SIDE,
        piece_size(index, geometry).1 <= LONGEST_SIDE,
        is_pixel_falloff(falloff, index, x, y, geometry, hypotenuse, exponential),
    ensures
        ({
            let (first, second) = layer_offsets(index);
            let n = outward(index, x, y, geometry);
            &&& n % 2 == 1
            &&& first % 2 == 0
            &&& second % 2 == 0
            &&& -farthest() <= n - first <= farthest()
            &&& -farthest() <= n - second <= farthest()
            &&& is_layer_falloff(
                falloff.primary,
                straight(n - first),
                PRIMARY_RADIUS,
                hypotenuse,
                exponential,
            )
            &&& is_layer_falloff(
                falloff.secondary,
                straight(n - second),
                SECONDARY_RADIUS,
                hypotenuse,
                exponential,
            )
            &&& pixel_alpha(index, x, y, geometry, falloff) == blended(
                layer_of(straight(n - first), PRIMARY_RADIUS, falloff.primary),
                layer_of(straight(n - second), SECONDARY_RADIUS, falloff.secondary),
            ) as u8
        }),
{
    let n = outward(index, x, y, geometry);
    let (first, second) = layer_offsets(index);
    assert(sample_of(index, x, y, geometry, falloff.mask@) == (Sample::Lit {
        primary: straight(n - first),
        secondary: straight(n - second),
    })) by {
        reveal(sample_of);
        lemma_sides_are_lit(index, x, y, geometry, falloff.mask@);
        lemma_side_distance(index, x, y, geometry, SHADOW_VERTICAL_OFFSET as int);
        lemma_side_distance(
            index,
            x,
            y,
            geometry,
            SHADOW_VERTICAL_OFFSET + SECONDARY_RELATIVE_OFFSET_Y,
        );
    }
}

proof fn lemma_layer_fades(
    near: int,
    far: int,
    blur_radius: u32,
    near_falloff: Falloff,
    far_falloff: Falloff,
    hypotenuse: spec_fn(Real, Real) -> Real,
    exponential: spec_fn(Real) -> Real,
)
    requires
        is_layer(blur_radius),
        near % 2 == 1,
        far % 2 == 1,
        -farthest() <= near < far <= farthest(),
        is_decay(exponential),
        is_layer_falloff(near_falloff, straight(near), blur_radius, hypotenuse, exponential),
        is_layer_falloff(far_falloff, straight(far), blur_radius, hypotenuse, exponential),
    ensures
        ({
            let pale = layer_of(straight(far), blur_radius, far_falloff);
            let dark = layer_of(straight(near), blur_radius, near_falloff);
            stays_finite(pale) && stays_finite(dark) && at_least(dark, pale)
        }),
{
    reveal(darkness_at);
    lemma_darkness_falls(near, far, blur_radius, exponential);
    let pale = darkness_at(far, blur_radius, exponential);
    let dark = darkness_at(near, blur_radius, exponential);
    let format = Format::Single;
    assert((1 * format.one()) * 1 == format.one());
    lemma_rounded_at_most(format, false, pale->units, 1, 1);
    lemma_rounded_at_most(format, false, dark->units, 1, 1);
}

/// Away from a side of the window the shadow fades: farther out no pixel of a side piece is darker,
/// for any exponential that lies between zero and one and does not fall as its argument grows.
#[verifier::spinoff_prover]
#[verifier::rlimit(40)]
pub proof fn lemma_shadow_fades(
    index: int,
    near: (int, int),
    far: (int, int),
    geometry: ShadowGeometry,
    near_falloff: PixelFalloff,
    far_falloff: PixelFalloff,
    hypotenuse: spec_fn(Real, Real) -> Real,
    exponential: spec_fn(Real) -> Real,
)
    requires
        index % 2 == 0,
        in_piece(index, near.0, near.1, geometry),
        in_piece(index, far.0, far.1, geometry),
        piece_size(index, geometry).0 <= LONGEST_SIDE,
        piece_size(index, geometry).1 <= LONGEST_SIDE,
        outward(index, near.0, near.1, geometry) < outward(index, far.0, far.1, geometry),
        is_decay(exponential),
        is_pixel_falloff(
            near_falloff,
            index,
            near.0,
            near.1,
            geometry,
            hypotenuse,
            exponential,
        ),
        is_pixel_falloff(far_falloff, index, far.0, far.1, geometry, hypotenuse, exponential),
    ensures
        pixel_alpha(index, far.0, far.1, geometry, far_falloff) <= pixel_alpha(
            index,
            near.0,
            near.1,
            geometry,
            near_falloff,
        ),
{
    let (first, second) = layer_offsets(index);
    let a = outward(index, near.0, near.1, geometry);
    let b = outward(index, far.0, far.1, geometry);
    lemma_side_sample(index, near.0, near.1, geometry, near_falloff, hypotenuse, exponential);
    lemma_side_sample(index, far.0, far.1, geometry, far_falloff, hypotenuse, exponential);
    lemma_layer_fades(
        a - first,
        b - first,
        PRIMARY_RADIUS,
        near_falloff.primary,
        far_falloff.primary,
        hypotenuse,
        exponential,
    );
    lemma_layer_fades(
        a - second,
        b - second,
        SECONDARY_RADIUS,
        near_falloff.secondary,
        far_falloff.secondary,
        hypotenuse,
        exponential,
    );
    lemma_blended_ordered(
        layer_of(straight(b - first), PRIMARY_RADIUS, far_falloff.primary),
        layer_of(straight(b - second), SECONDARY_RADIUS, far_falloff.secondary),
        layer_of(straight(a - first), PRIMARY_RADIUS, near_falloff.primary),
        layer_of(straight(a - second), SECONDARY_RADIUS, near_falloff.secondary),
    );
}

/// The distances differ in the signs of their legs alone.
pub open spec fn same_but_for_signs(a: Distance, b: Distance) -> bool {
    match (a, b) {
        (Distance::Straight { length: first }, Distance::Straight { length: second }) => first
            == second,
        (
            Distance::Corner { across: across_a, along: along_a, radius: radius_a },
            Distance::Corner { across: across_b, along: along_b, radius: radius_b },
        ) => {
            &&& across_a == across_b || opposite(across_a, across_b)
            &&& along_a == along_b || opposite(along_a, along_b)
            &&& radius_a == radius_b
        },
        _ => false,
    }
}

/// Left and right are alike: a point at the other side, seen from the other piece, is as far away.
#[verifier::spinoff_prover]
pub proof fn lemma_left_right_flip(
    index: int,
    flipped: int,
    x: Real,
    y: Real,
    radius: Real,
    offset_y: Real,
    hypotenuse: Real,
)
    requires
        (index == 0 && flipped == 4) || (index == 1 && flipped == 3) || (index == 7 && flipped
            == 5),
    ensures
        same_but_for_signs(
            distance_of(index, x, y, radius, offset_y),
            distance_of(flipped, negated(x), y, radius, offset_y),
        ),
        distance_of(index, x, y, radius, offset_y).length(hypotenuse) == distance_of(
            flipped,
            negated(x),
            y,
            radius,
            offset_y,
        ).length(hypotenuse),
{
    lemma_sum_opposite(Format::Single, x, negated(radius), negated(x), radius);
}

/// Top and bottom are alike where the outline is moved up in place of down.
#[verifier::spinoff_prover]
pub proof fn lemma_top_bottom_flip(
    index: int,
    flipped: int,
    x: Real,
    y: Real,
    radius: Real,
    offset_y: Real,
    hypotenuse: Real,
)
    requires
        (index == 2 && flipped == 6) || (index == 1 && flipped == 7) || (index == 3 && flipped
            == 5),
    ensures
        same_but_for_signs(
            distance_of(index, x, y, radius, offset_y),
            distance_of(flipped, x, negated(y), radius, negated(offset_y)),
        ),
        distance_of(index, x, y, radius, offset_y).length(hypotenuse) == distance_of(
            flipped,
            x,
            negated(y),
            radius,
            negated(offset_y),
        ).length(hypotenuse),
{
    let format = Format::Single;
    if index == 2 {
        lemma_sum_commutes(format, offset_y, negated(y));
    } else {
        lemma_along_opposite(y, radius, offset_y);
    }
}

proof fn lemma_along_opposite(y: Real, radius: Real, offset_y: Real)
    ensures
        opposite(
            difference(Format::Single, difference(Format::Single, y, radius), offset_y),
            difference(
                Format::Single,
                sum(Format::Single, negated(y), radius),
                negated(offset_y),
            ),
        ),
{
    let format = Format::Single;
    lemma_sum_opposite(format, y, negated(radius), negated(y), radius);
    lemma_sum_opposite(
        format,
        difference(format, y, radius),
        negated(offset_y),
        sum(format, negated(y), radius),
        negated(negated(offset_y)),
    );
}

/// No point lies deeper inside a corner than the radius.
pub proof fn lemma_corner_length_bounded(
    index: int,
    x: Real,
    y: Real,
    radius: Binary32,
    offset_y: Real,
    hypotenuse: Real,
)
    requires
        index == 1 || index == 3 || index == 5 || index == 7,
        radius@ is Finite,
        at_least(hypotenuse, zero()),
    ensures
        at_least(
            distance_of(index, x, y, radius@, offset_y).length(hypotenuse),
            negated(radius@),
        ),
{
    let format = Format::Single;
    lemma_value_is_rounded(format, radius.bits as u64);
    let (negative, units) = (radius@->Finite_negative, radius@->units);
    lemma_sum_ordered(format, zero(), negated(radius@), hypotenuse, negated(radius@));
    lemma_negated_rounded(format, negative, units);
}

/// The buffer of a piece has room for its pixels and for nothing more.
pub proof fn lemma_buffer_holds_pixels(
    index: int,
    geometry: ShadowGeometry,
    falloffs: Seq<PixelFalloff>,
)
    requires
        0 <= index < PIECES,
        geometry.fits(),
    ensures
        ({
            let buffer = buffer_of(index, geometry);
            let (width, height) = (buffer.width as nat, buffer.height as nat);
            &&& buffer.index == index
            &&& buffer.size == pixels_of(index, width, height, geometry, falloffs).len()
            &&& buffer.size == buffer.stride * buffer.height
            &&& buffer.stride == 4 * buffer.width
        }),
{
    let (width, height) = piece_size(index, geometry);
    assert(width * height >= 0) by (nonlinear_arith)
        requires
            width >= 0,
            height >= 0,
    ;
    assert((width * 4) * height == width * height * 4) by (nonlinear_arith);
}

proof fn lemma_occurrences_in_attach(geometry: ShadowGeometry, step: ShadowStep)
    requires
        step is CreateShadow || step is DestroyShadow || step is DestroyBuffer
            || step is DestroyManager,
    ensures
        occurrences(attach_steps(geometry) + show_steps(), step) == one_if(step is CreateShadow),
{
    let steps = attach_steps(geometry) + show_steps();
    let first = seq![ShadowStep::CreateShadow];
    let rest = steps.subrange(1, steps.len() as int);
    assert(steps =~= first + rest);
    lemma_occurrences_joined(first, rest, step);
    lemma_occurrences_short(first, step);
    lemma_occurrences_absent(rest, step);
}

proof fn lemma_occurrences_in_destroy(count: nat, step: ShadowStep)
    requires
        count <= PIECES,
    ensures
        occurrences(destroy_steps(count), step) == one_if(
            step is DestroyBuffer && step->DestroyBuffer_buffer < count,
        ),
    decreases count,
{
    if count > 0 {
        let before = (count - 1) as nat;
        assert(destroy_steps(count).drop_last() =~= destroy_steps(before));
        lemma_occurrences_in_destroy(before, step);
    }
}

proof fn lemma_occurrences_in_update(shadow: KdeShadow, enabled: bool, step: ShadowStep)
    requires
        shadow.wf(),
        step is CreateShadow || step is DestroyShadow || step is DestroyBuffer
            || step is DestroyManager,
    ensures
        occurrences(shadow.after_update(enabled).1, step) == one_if(
            enabled && !shadow.enabled && step is CreateShadow,
        ) + one_if(!enabled && shadow.enabled && step is DestroyShadow),
{
    lemma_occurrences_in_attach(standard_geometry(), step);
    lemma_occurrences_short(seq![ShadowStep::DispatchPending], step);
    let unset = seq![ShadowStep::UnsetShadow];
    let destroy = step_if(shadow.shadow, ShadowStep::DestroyShadow);
    lemma_occurrences_short(unset, step);
    lemma_occurrences_short(destroy, step);
    lemma_occurrences_short(show_steps(), step);
    lemma_occurrences_joined(unset, destroy, step);
    lemma_occurrences_joined(unset + destroy, show_steps(), step);
}

/// An update makes a shadow where there was none and one is asked for, destroys the one there is
/// where none is asked for, and leaves the buffers and the manager.
pub proof fn lemma_update_keeps_account(shadow: KdeShadow, enabled: bool)
    requires
        shadow.wf(),
    ensures
        ({
            let (next, steps) = shadow.after_update(enabled);
            &&& next.wf()
            &&& next.enabled == enabled
            &&& next.manager_version == shadow.manager_version
            &&& occurrences(steps, ShadowStep::CreateShadow) - occurrences(
                steps,
                ShadowStep::DestroyShadow,
            ) == one_if(next.shadow) - one_if(shadow.shadow)
            &&& occurrences(steps, ShadowStep::DestroyManager) == 0
            &&& forall|buffer: usize|
                #[trigger] occurrences(steps, ShadowStep::DestroyBuffer { buffer }) == 0
        }),
{
    let steps = shadow.after_update(enabled).1;
    lemma_occurrences_in_update(shadow, enabled, ShadowStep::CreateShadow);
    lemma_occurrences_in_update(shadow, enabled, ShadowStep::DestroyShadow);
    lemma_occurrences_in_update(shadow, enabled, ShadowStep::DestroyManager);
    assert forall|buffer: usize|
        #[trigger] occurrences(steps, ShadowStep::DestroyBuffer { buffer }) == 0 by {
        lemma_occurrences_in_update(shadow, enabled, ShadowStep::DestroyBuffer { buffer });
    }
}

proof fn lemma_occurrences_in_close(shadow: KdeShadow, step: ShadowStep)
    requires
        step is CreateShadow || step is DestroyShadow || step is DestroyBuffer
            || step is DestroyManager,
    ensures
        occurrences(shadow.close_steps(), step) == one_if(
            shadow.shadow && step is DestroyShadow,
        ) + one_if(step is DestroyBuffer && step->DestroyBuffer_buffer < PIECES) + one_if(
            shadow.manager_version >= 2 && step is DestroyManager,
        ),
{
    let unset = seq![ShadowStep::UnsetShadow, ShadowStep::CommitSurface];
    let destroy = step_if(shadow.shadow, ShadowStep::DestroyShadow);
    let buffers = destroy_steps(PIECES as nat);
    let manager = step_if(shadow.manager_version >= 2, ShadowStep::DestroyManager);
    let flush = seq![ShadowStep::Flush];
    lemma_occurrences_short(unset, step);
    lemma_occurrences_short(destroy, step);
    lemma_occurrences_in_destroy(PIECES as nat, step);
    lemma_occurrences_short(manager, step);
    lemma_occurrences_short(flush, step);
    lemma_occurrences_joined(unset, destroy, step);
    lemma_occurrences_joined(unset + destroy, buffers, step);
    lemma_occurrences_joined(unset + destroy + buffers, manager, step);
    lemma_occurrences_joined(unset + destroy + buffers + manager, flush, step);
}

/// The state and the steps of a surface from the first one on, after a row of updates.
pub open spec fn after_updates(manager_version: u32, updates: Seq<bool>) -> (
    KdeShadow,
    Seq<ShadowStep>,
)
    decreases updates.len(),
{
    if updates.len() == 0 {
        (
            KdeShadow { manager_version, shadow: true, enabled: true },
            attach_steps(standard_geometry()) + show_steps(),
        )
    } else {
        let (before, steps) = after_updates(manager_version, updates.drop_last());
        let (after, more) = before.after_update(updates.last());
        (after, steps + more)
    }
}

proof fn lemma_updates_keep_account(manager_version: u32, updates: Seq<bool>)
    ensures
        ({
            let (next, steps) = after_updates(manager_version, updates);
            &&& next.wf()
            &&& next.manager_version == manager_version
            &&& occurrences(steps, ShadowStep::CreateShadow) == occurrences(
                steps,
                ShadowStep::DestroyShadow,
            ) + one_if(next.shadow)
            &&& occurrences(steps, ShadowStep::DestroyManager) == 0
            &&& forall|buffer: usize|
                #[trigger] occurrences(steps, ShadowStep::DestroyBuffer { buffer }) == 0
        }),
    decreases updates.len(),
{
    let all = after_updates(manager_version, updates).1;
    if updates.len() == 0 {
        lemma_occurrences_in_attach(standard_geometry(), ShadowStep::CreateShadow);
        lemma_occurrences_in_attach(standard_geometry(), ShadowStep::DestroyShadow);
        lemma_occurrences_in_attach(standard_geometry(), ShadowStep::DestroyManager);
        assert forall|buffer: usize|
            #[trigger] occurrences(all, ShadowStep::DestroyBuffer { buffer }) == 0 by {
            lemma_occurrences_in_attach(
                standard_geometry(),
                ShadowStep::DestroyBuffer { buffer },
            );
        }
    } else {
        lemma_updates_keep_account(manager_version, updates.drop_last());
        let (before, steps) = after_updates(manager_version, updates.drop_last());
        let more = before.after_update(updates.last()).1;
        lemma_update_keeps_account(before, updates.last());
        lemma_occurrences_joined(steps, more, ShadowStep::CreateShadow);
        lemma_occurrences_joined(steps, more, ShadowStep::DestroyShadow);
        lemma_occurrences_joined(steps, more, ShadowStep::DestroyManager);
        assert forall|buffer: usize|
            #[trigger] occurrences(all, ShadowStep::DestroyBuffer { buffer }) == 0 by {
            lemma_occurrences_joined(steps, more, ShadowStep::DestroyBuffer { buffer });
        }
    }
}

/// Whatever updates a surface sees, once it is given up every shadow that was made has been
/// destroyed, each of the eight buffers exactly once, and the manager where its version has a way
/// to do so.
pub proof fn lemma_lifetime_destroys_all(manager_version: u32, updates: Seq<bool>)
    ensures
        ({
            let (last, steps) = after_updates(manager_version, updates);
            let steps = steps + last.close_steps();
            &&& occurrences(steps, ShadowStep::CreateShadow) == occurrences(
                steps,
                ShadowStep::DestroyShadow,
            )
            &&& occurrences(steps, ShadowStep::DestroyManager) == one_if(manager_version >= 2)
            &&& forall|buffer: usize|
                #[trigger] occurrences(steps, ShadowStep::DestroyBuffer { buffer }) == one_if(
                    buffer < PIECES,
                )
        }),
{
    lemma_updates_keep_account(manager_version, updates);
    let (last, steps) = after_updates(manager_version, updates);
    let close = last.close_steps();
    lemma_occurrences_in_close(last, ShadowStep::CreateShadow);
    lemma_occurrences_in_close(last, ShadowStep::DestroyShadow);
    lemma_occurrences_in_close(last, ShadowStep::DestroyManager);
    lemma_occurrences_joined(steps, close, ShadowStep::CreateShadow);
    lemma_occurrences_joined(steps, close, ShadowStep::DestroyShadow);
    lemma_occurrences_joined(steps, close, ShadowStep::DestroyManager);
    assert forall|buffer: usize|
        #[trigger] occurrences(steps + close, ShadowStep::DestroyBuffer { buffer }) == one_if(
            buffer < PIECES,
        ) by {
        lemma_occurrences_in_close(last, ShadowStep::DestroyBuffer { buffer });
        lemma_occurrences_joined(steps, close, ShadowStep::DestroyBuffer { buffer });
    }
}

/// Asking for what is there already changes nothing: only what the compositor has sent is taken
/// in.
pub proof fn lemma_repeated_update(shadow: KdeShadow, enabled: bool)
    requires
        shadow.wf(),
    ensures
        ({
            let next = shadow.after_update(enabled).0;
            next.after_update(enabled) == (next, seq![ShadowStep::DispatchPending])
        }),
{
}

/// A shadow that is taken off and asked for again is put on by the same steps as the first one,
/// and leaves the same state.
pub proof fn lemma_shadow_comes_back(shadow: KdeShadow)
    requires
        shadow.wf(),
        shadow.enabled,
    ensures
        shadow.after_update(false).0.after_update(true) == (
            shadow,
            attach_steps(standard_geometry()) + show_steps(),
        ),
{
}

/// The shadow is ready where every step works. The first step that does not work ends the
/// connecting, with a warning unless it is that the compositor offers no shadow.
pub proof fn lemma_setup(
    surface: bool,
    proxy: bool,
    globals: bool,
    manager: bool,
    memory: bool,
    buffers: bool,
)
    ensures
        ({
            let progress = ShadowSetup::ImportSurface.after(surface);
            let progress = match progress {
                ShadowProgress::Next(setup) => setup.after(proxy),
                other => other,
            };
            let progress = match progress {
                ShadowProgress::Next(setup) => setup.after(globals),
                other => other,
            };
            let progress = match progress {
                ShadowProgress::Next(setup) => setup.after(manager),
                other => other,
            };
            let progress = match progress {
                ShadowProgress::Next(setup) => setup.after(memory),
                other => other,
            };
            let progress = match progress {
                ShadowProgress::Next(setup) => setup.after(buffers),
                other => other,
            };
            if surface && proxy && globals && manager && memory && buffers {
                progress == ShadowProgress::Ready
            } else {
                progress == (ShadowProgress::Unavailable {
                    warn: !(surface && proxy && globals && !manager),
                })
            }
        }),
{
}

} // verus!
