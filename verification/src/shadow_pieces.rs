//! What the pieces of the shadow show, counted in pixels.

use vstd::prelude::*;

#[allow(unused_imports)]
use crate::binary32::half_of;
#[allow(unused_imports)]
use crate::falloff::{
    blended, exponent_of, tail_of_gaussian, tail_value, PRIMARY_RADIUS, SECONDARY_RADIUS,
};
#[allow(unused_imports)]
use crate::kde_shadow::{
    buffer_of, distance_at, distance_of, is_mask_hypotenuse, layer_exponent,
    lemma_covered_under_window, lemma_distance_exact, lemma_sides_are_lit, piece_size, pixels_of,
    sample_of, standard_geometry, Distance, PixelFalloff, Sample, ShadowGeometry, ShadowProgress,
    ShadowSetup,
};
#[allow(unused_imports)]
use crate::number::{difference, negated, sum, Format, Real};

verus! {

/// The shadow reaches out 65 pixels to the left and to the right of the window, 53 pixels above it
/// and 77 pixels below, around corners with a radius of 8 pixels.
pub proof fn lemma_standard_geometry()
    ensures
        standard_geometry().left == 65,
        standard_geometry().top == 53,
        standard_geometry().right == 65,
        standard_geometry().bottom == 77,
        standard_geometry().corner_radius == 8,
{
}

/// A side piece is as thick as the shadow is on its side and one pixel long. A corner piece is as
/// large as the shadow is on its two sides, and holds the round corner of the window besides.
pub proof fn lemma_buffer_sizes(geometry: ShadowGeometry)
    requires
        geometry.fits(),
    ensures
        buffer_of(0, geometry).width == geometry.left,
        buffer_of(0, geometry).height == 1,
        buffer_of(1, geometry).width == geometry.left + geometry.corner_radius,
        buffer_of(1, geometry).height == geometry.top + geometry.corner_radius,
        buffer_of(2, geometry).width == 1,
        buffer_of(2, geometry).height == geometry.top,
        buffer_of(3, geometry).width == geometry.right + geometry.corner_radius,
        buffer_of(3, geometry).height == geometry.top + geometry.corner_radius,
        buffer_of(4, geometry).width == geometry.right,
        buffer_of(4, geometry).height == 1,
        buffer_of(5, geometry).width == geometry.right + geometry.corner_radius,
        buffer_of(5, geometry).height == geometry.bottom + geometry.corner_radius,
        buffer_of(6, geometry).width == 1,
        buffer_of(6, geometry).height == geometry.bottom,
        buffer_of(7, geometry).width == geometry.left + geometry.corner_radius,
        buffer_of(7, geometry).height == geometry.bottom + geometry.corner_radius,
{
    assert(piece_size(1, geometry).1 <= u32::MAX);
    assert(piece_size(3, geometry).1 <= u32::MAX);
    assert(piece_size(5, geometry).1 <= u32::MAX);
    assert(piece_size(7, geometry).1 <= u32::MAX);
}

/// Beside the window the distance is counted outward from the nearest side, from the middle of the
/// pixel. At a corner its legs lead from the middle of the pixel to the middle of the circle that
/// rounds the window, which is the innermost corner of the piece. Both are counted in half pixels,
/// and the outline is moved down by `offset_y` pixels.
pub proof fn lemma_distances(
    x: int,
    y: int,
    geometry: ShadowGeometry,
    offset_y: int,
)
    requires
        0 <= x < 0x80_0000,
        0 <= y < 0x80_0000,
        0 <= offset_y,
        geometry.left + geometry.corner_radius + offset_y <= 0x80_0000,
        geometry.top + geometry.corner_radius + offset_y <= 0x80_0000,
        geometry.right + geometry.corner_radius + offset_y <= 0x80_0000,
        geometry.bottom + geometry.corner_radius + offset_y <= 0x80_0000,
    ensures
        ({
            let left = 2 * (geometry.left - x) - 1;
            let top = 2 * (geometry.top + offset_y - y) - 1;
            let right = 2 * x + 1;
            let bottom = 2 * (y - offset_y) + 1;
            let diameter = 2 * geometry.corner_radius;
            &&& distance_at(0, x, y, geometry, offset_y) == (Distance::Straight {
                length: half_of(left),
            })
            &&& distance_at(1, x, y, geometry, offset_y) == (Distance::Corner {
                across: half_of(-left - diameter),
                along: half_of(-top - diameter),
                radius: half_of(diameter),
            })
            &&& distance_at(2, x, y, geometry, offset_y) == (Distance::Straight {
                length: half_of(top),
            })
            &&& distance_at(3, x, y, geometry, offset_y) == (Distance::Corner {
                across: half_of(right),
                along: half_of(-top - diameter),
                radius: half_of(diameter),
            })
            &&& distance_at(4, x, y, geometry, offset_y) == (Distance::Straight {
                length: half_of(right),
            })
            &&& distance_at(5, x, y, geometry, offset_y) == (Distance::Corner {
                across: half_of(right),
                along: half_of(bottom),
                radius: half_of(diameter),
            })
            &&& distance_at(6, x, y, geometry, offset_y) == (Distance::Straight {
                length: half_of(bottom),
            })
            &&& distance_at(7, x, y, geometry, offset_y) == (Distance::Corner {
                across: half_of(-left - diameter),
                along: half_of(bottom),
                radius: half_of(diameter),
            })
        }),
{
    lemma_distance_exact(0, x, y, geometry, offset_y);
    lemma_distance_exact(1, x, y, geometry, offset_y);
    lemma_distance_exact(2, x, y, geometry, offset_y);
    lemma_distance_exact(3, x, y, geometry, offset_y);
    lemma_distance_exact(4, x, y, geometry, offset_y);
    lemma_distance_exact(5, x, y, geometry, offset_y);
    lemma_distance_exact(6, x, y, geometry, offset_y);
    lemma_distance_exact(7, x, y, geometry, offset_y);
}

/// How far any point lies from the outline, seen from the corner of the window that its piece
/// belongs to: outward from a side, and from the middle of the circle in a corner. The outline is
/// moved down by `offset_y`.
pub proof fn lemma_point_distances(x: Real, y: Real, radius: Real, offset_y: Real)
    ensures
        ({
            let format = Format::Single;
            let left = difference(format, x, radius);
            let right = sum(format, x, radius);
            let top = difference(format, difference(format, y, radius), offset_y);
            let bottom = difference(format, sum(format, y, radius), offset_y);
            &&& distance_of(0, x, y, radius, offset_y) == (Distance::Straight {
                length: negated(x),
            })
            &&& distance_of(1, x, y, radius, offset_y) == (Distance::Corner {
                across: left,
                along: top,
                radius,
            })
            &&& distance_of(2, x, y, radius, offset_y) == (Distance::Straight {
                length: difference(format, offset_y, y),
            })
            &&& distance_of(3, x, y, radius, offset_y) == (Distance::Corner {
                across: right,
                along: top,
                radius,
            })
            &&& distance_of(4, x, y, radius, offset_y) == (Distance::Straight { length: x })
            &&& distance_of(5, x, y, radius, offset_y) == (Distance::Corner {
                across: right,
                along: bottom,
                radius,
            })
            &&& distance_of(6, x, y, radius, offset_y) == (Distance::Straight {
                length: difference(format, y, offset_y),
            })
            &&& distance_of(7, x, y, radius, offset_y) == (Distance::Corner {
                across: left,
                along: bottom,
                radius,
            })
        }),
{
}

/// The length of a distance from a side is that number. From a corner it is what the hypotenuse is
/// longer than the radius.
pub proof fn lemma_lengths(length: Real, across: Real, along: Real, radius: Real, hypotenuse: Real)
    ensures
        (Distance::Straight { length }).length(hypotenuse) == length,
        (Distance::Corner { across, along, radius }).length(hypotenuse) == difference(
            Format::Single,
            hypotenuse,
            radius,
        ),
{
}

/// The exponential of a layer is taken of the value at which the layer is looked up, squared and
/// negated: the length of the layer's distance over its blur radius, which is 48 pixels for the
/// first layer and 24 for the second.
pub proof fn lemma_exponents(distance: Distance, hypotenuse: Real)
    ensures
        PRIMARY_RADIUS == 48,
        SECONDARY_RADIUS == 24,
        layer_exponent(distance, PRIMARY_RADIUS, hypotenuse) == exponent_of(
            tail_value(distance.length(hypotenuse), half_of(96)),
        ),
        layer_exponent(distance, SECONDARY_RADIUS, hypotenuse) == exponent_of(
            tail_value(distance.length(hypotenuse), half_of(48)),
        ),
{
}

/// A pixel is left clear exactly where its middle lies inside the circle that rounds the corner of
/// its piece; no pixel of a side piece is. A pixel that is not clear shows two layers, cast by the
/// outline of the window moved down by 12 and by 6 pixels.
#[verifier::spinoff_prover]
#[verifier::rlimit(30)]
pub proof fn lemma_clear_pixels(index: int, x: int, y: int, geometry: ShadowGeometry, mask: Real)
    requires
        0 <= index < 8,
        0 <= x < buffer_of(index, geometry).width,
        0 <= y < buffer_of(index, geometry).height,
        geometry.fits(),
        geometry.left + geometry.corner_radius <= 0x80_0000,
        geometry.top + geometry.corner_radius <= 0x80_0000,
        geometry.right + geometry.corner_radius <= 0x80_0000,
        geometry.bottom + geometry.corner_radius <= 0x80_0000,
        geometry.corner_radius <= 2048,
        is_mask_hypotenuse(distance_at(index, x, y, geometry, 0), mask),
    ensures
        ({
            let across = if index == 1 || index == 7 {
                2 * (geometry.left + geometry.corner_radius - x) - 1
            } else {
                2 * x + 1
            };
            let along = if index == 1 || index == 3 {
                2 * (geometry.top + geometry.corner_radius - y) - 1
            } else {
                2 * y + 1
            };
            sample_of(index, x, y, geometry, mask) is Covered <==> index % 2 == 1 && across * across
                + along * along < 4 * (geometry.corner_radius * geometry.corner_radius)
        }),
        sample_of(index, x, y, geometry, mask) is Lit ==> sample_of(index, x, y, geometry, mask)
            == (Sample::Lit {
            primary: distance_at(index, x, y, geometry, 12),
            secondary: distance_at(index, x, y, geometry, 6),
        }),
{
    reveal(sample_of);
    lemma_buffer_sizes(geometry);
    if index % 2 == 0 {
        lemma_sides_are_lit(index, x, y, geometry, mask);
    } else {
        lemma_covered_under_window(index, x, y, geometry, mask);
        let r = geometry.corner_radius as int;
        let diameter = 2 * r;
        let across = if index == 1 || index == 7 {
            2 * (geometry.left + geometry.corner_radius - x) - 1
        } else {
            2 * x + 1
        };
        let along = if index == 1 || index == 3 {
            2 * (geometry.top + geometry.corner_radius - y) - 1
        } else {
            2 * y + 1
        };
        assert(diameter * diameter == 4 * (r * r)) by (nonlinear_arith)
            requires
                diameter == 2 * r,
        ;
        assert(across * across + along * along < diameter * diameter ==> across < diameter && along
            < diameter) by (nonlinear_arith)
            requires
                across > 0,
                along > 0,
                diameter >= 0,
        ;
        assert(across * across == (diameter - (diameter - across)) * (diameter - (diameter
            - across)));
        assert(along * along == (diameter - (diameter - along)) * (diameter - (diameter - along)));
    }
}

/// What each byte of a piece is, for pieces of any size: four bytes for each pixel, row by row, of
/// which the first three are zero. The fourth is zero where the pixel is left clear; else it blends
/// two tails of Gaussians at the lengths of the two distances, with blur radii of 96 and 48 half
/// pixels.
pub proof fn lemma_bytes(
    index: int,
    width: nat,
    height: nat,
    x: int,
    y: int,
    geometry: ShadowGeometry,
    falloffs: Seq<PixelFalloff>,
)
    requires
        0 <= x < width,
        0 <= y < height,
    ensures
        ({
            let pixels = pixels_of(index, width, height, geometry, falloffs);
            let pixel = y * width + x;
            let falloff = falloffs[pixel];
            &&& pixels.len() == 4 * (width * height)
            &&& 0 <= 4 * pixel
            &&& 4 * pixel + 3 < pixels.len()
            &&& pixels[4 * pixel] == 0
            &&& pixels[4 * pixel + 1] == 0
            &&& pixels[4 * pixel + 2] == 0
            &&& pixels[4 * pixel + 3] == match sample_of(index, x, y, geometry, falloff.mask@) {
                Sample::Covered => 0,
                Sample::Lit { primary, secondary } => blended(
                    tail_of_gaussian(
                        primary.length(falloff.primary.hypotenuse@),
                        half_of(96),
                        falloff.primary.exponential@,
                    ),
                    tail_of_gaussian(
                        secondary.length(falloff.secondary.hypotenuse@),
                        half_of(48),
                        falloff.secondary.exponential@,
                    ),
                ) as u8,
            }
        }),
{
    let pixel = y * width + x;
    vstd::arithmetic::div_mod::lemma_fundamental_div_mod_converse(pixel, width as int, y, x);
    assert(0 <= pixel < width * height) by (nonlinear_arith)
        requires
            pixel == y * width + x,
            0 <= x < width,
            0 <= y < height,
    ;
    assert((4 * pixel + 3) / 4 == pixel && (4 * pixel + 3) % 4 == 3);
}

/// The surface is imported and wrapped first, then the globals are read, the manager and the shared
/// memory are bound, and the buffers made. The manager is bound at version 1 or 2, the shared
/// memory at version 1. A step that fails ends it, with a warning unless that step binds the
/// manager.
pub proof fn lemma_setup_order(setup: ShadowSetup)
    ensures
        ShadowSetup::ImportSurface.after(true) == ShadowProgress::Next(ShadowSetup::WrapSurface),
        ShadowSetup::WrapSurface.after(true) == ShadowProgress::Next(ShadowSetup::ReadGlobals),
        ShadowSetup::ReadGlobals.after(true) == ShadowProgress::Next(ShadowSetup::BindManager),
        ShadowSetup::BindManager.after(true) == ShadowProgress::Next(ShadowSetup::BindSharedMemory),
        ShadowSetup::BindSharedMemory.after(true) == ShadowProgress::Next(
            ShadowSetup::CreateBuffers,
        ),
        ShadowSetup::CreateBuffers.after(true) == ShadowProgress::Ready,
        setup.after(false) == (ShadowProgress::Unavailable { warn: !(setup is BindManager) }),
        setup is BindManager ==> setup.spec_versions() == Some((1u32, 2u32)),
        setup is BindSharedMemory ==> setup.spec_versions() == Some((1u32, 1u32)),
        setup.spec_versions() is Some ==> setup is BindManager || setup is BindSharedMemory,
{
}

} // verus!
