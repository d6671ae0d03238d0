//! Background blur behind a window with rounded corners.
//!
//! The compositor offers one of two protocols: background effects, or the older blur. What is
//! to be asked of it, and in what order, is decided here; the connection carries it out.

use vstd::prelude::*;

use crate::binary64::Binary64;
use crate::decorations::CORNER_RADIUS;
#[allow(unused_imports)]
use crate::number::{
    lemma_rounded_at_most, lemma_rounded_near, lemma_rounded_ordered, lemma_rounded_whole,
    lemma_whole_between, lemma_whole_between_is_nearest, lemma_whole_between_ordered, less,
    magnitude, quotient, rounded, whole, whole_between, zero, Format, Real,
};
#[allow(unused_imports)]
use crate::powers::{lemma_pow2_ordered, lemma_pow2_values};
#[allow(unused_imports)]
use crate::region::{lemma_region_covers, region_of};
use crate::region::{rounded_region, Rectangle};
#[allow(unused_imports)]
use crate::steps::{
    lemma_occurrences_absent, lemma_occurrences_joined, lemma_occurrences_short, occurrences,
    one_if, step_if,
};

verus! {

/// One thing that the connection does.
#[derive(Debug, Copy, Clone, PartialEq, Eq, Structural)]
pub enum BlurStep {
    /// Take in what the compositor has sent.
    DispatchPending,
    /// Make a new region, next to the one in use.
    CreateRegion,
    /// Add a rectangle to the new region.
    AddRectangle(Rectangle),
    /// Get the background effect of the surface.
    CreateEffect,
    /// Blur the background effect behind the new region.
    SetEffectRegion,
    /// Make the blur of the surface.
    CreateBlur,
    /// Let the blur cover the new region.
    SetBlurRegion,
    /// Apply the changes of the blur.
    CommitBlur,
    /// Apply the changes of the surface.
    CommitSurface,
    /// Destroy the region in use.
    DestroyRegion,
    /// Let the new region be the one in use.
    KeepRegion,
    /// Let the background effect blur nothing.
    ClearEffectRegion,
    /// Destroy the background effect.
    DestroyEffect,
    /// Take the blur off the surface.
    UnsetBlur,
    /// Release the blur.
    ReleaseBlur,
    /// Destroy the manager of background effects.
    DestroyEffectManager,
    /// Send what was asked for.
    Flush,
}

/// The shape that is blurred, in logical pixels.
#[derive(Debug, Copy, Clone, PartialEq, Eq, Structural)]
pub struct BlurGeometry {
    pub width: u32,
    pub height: u32,
    pub radius: u32,
}

/// A length in physical pixels, as logical pixels: divided by the scale, rounded to a whole number,
/// and at least one.
pub open spec fn logical(length: u32, scale: Binary64) -> u32 {
    let exact = quotient(Format::Double, whole(Format::Double, length as nat), scale@);
    whole_between(Format::Double, exact, 1, u32::MAX as nat, 1) as u32
}

/// A length in logical pixels, rounded to a whole number and at least one.
pub fn logical_length(length: u32, scale: Binary64) -> (result: u32)
    ensures
        result == logical(length, scale),
        result >= 1,
{
    Binary64::from_whole(length).over(scale).whole_length()
}

/// What is blurred in a window of the given size in physical pixels.
pub open spec fn geometry_of(
    width: u32,
    height: u32,
    scale: Binary64,
    rounded: bool,
) -> BlurGeometry {
    BlurGeometry {
        width: logical(width, scale),
        height: logical(height, scale),
        radius: if rounded {
            CORNER_RADIUS
        } else {
            0
        },
    }
}

/// Blur of one surface: what the compositor offers, and what is in use.
#[derive(Debug, Copy, Clone, PartialEq, Eq, Structural)]
pub struct KdeBlur {
    pub ext_manager: bool,
    pub legacy_manager: bool,
    pub ext_blur: bool,
    pub legacy_blur: bool,
    pub region: bool,
    pub geometry: Option<BlurGeometry>,
}

/// Where the connecting stands: the next thing to try.
#[derive(Debug, Copy, Clone, PartialEq, Eq, Structural)]
pub enum BlurSetup {
    ImportSurface,
    WrapSurface,
    ReadGlobals,
    BindCompositor,
    BindEffectManager,
    BindBlurManager { ext_manager: bool },
}

/// How the connecting goes on.
#[derive(Debug, Copy, Clone, PartialEq, Eq, Structural)]
pub enum BlurProgress {
    Next(BlurSetup),
    Ready(KdeBlur),
    Unavailable,
}

/// The blur of a surface that is not blurred yet, where the compositor offers a protocol for it.
pub open spec fn offered(ext_manager: bool, legacy_manager: bool) -> Option<KdeBlur> {
    if ext_manager || legacy_manager {
        Some(
            KdeBlur {
                ext_manager,
                legacy_manager,
                ext_blur: false,
                legacy_blur: false,
                region: false,
                geometry: None,
            },
        )
    } else {
        None
    }
}

impl BlurSetup {
    /// How the connecting goes on after a step that worked or did not: every step but the two
    /// protocols is needed, and one of these.
    pub open spec fn after(self, succeeded: bool) -> BlurProgress {
        match self {
            BlurSetup::BindEffectManager => BlurProgress::Next(
                BlurSetup::BindBlurManager { ext_manager: succeeded },
            ),
            BlurSetup::BindBlurManager { ext_manager } => match offered(ext_manager, succeeded) {
                Some(blur) => BlurProgress::Ready(blur),
                None => BlurProgress::Unavailable,
            },
            _ => if !succeeded {
                BlurProgress::Unavailable
            } else {
                BlurProgress::Next(
                    match self {
                        BlurSetup::ImportSurface => BlurSetup::WrapSurface,
                        BlurSetup::WrapSurface => BlurSetup::ReadGlobals,
                        BlurSetup::ReadGlobals => BlurSetup::BindCompositor,
                        _ => BlurSetup::BindEffectManager,
                    },
                )
            },
        }
    }

    /// The lowest and the highest version of the protocol that a step binds.
    pub open spec fn spec_versions(self) -> Option<(u32, u32)> {
        match self {
            BlurSetup::BindCompositor => Some((1, 1)),
            BlurSetup::BindEffectManager => Some((1, 1)),
            BlurSetup::BindBlurManager { .. } => Some((1, 1)),
            _ => None,
        }
    }

    /// The lowest and the highest version of the protocol that this step binds, if it binds one.
    pub fn versions(self) -> (versions: Option<(u32, u32)>)
        ensures
            versions == self.spec_versions(),
    {
        match self {
            BlurSetup::BindCompositor => Some((1, 1)),
            BlurSetup::BindEffectManager => Some((1, 1)),
            BlurSetup::BindBlurManager { .. } => Some((1, 1)),
            _ => None,
        }
    }

    /// How the connecting goes on after a step that worked or did not.
    pub fn advance(self, succeeded: bool) -> (progress: BlurProgress)
        ensures
            progress == self.after(succeeded),
    {
        match self {
            BlurSetup::BindEffectManager => {
                return BlurProgress::Next(BlurSetup::BindBlurManager { ext_manager: succeeded });
            },
            BlurSetup::BindBlurManager { ext_manager } => {
                return match KdeBlur::new(ext_manager, succeeded) {
                    Some(blur) => BlurProgress::Ready(blur),
                    None => BlurProgress::Unavailable,
                };
            },
            _ => {},
        }
        if !succeeded {
            return BlurProgress::Unavailable;
        }
        BlurProgress::Next(
            match self {
                BlurSetup::ImportSurface => BlurSetup::WrapSurface,
                BlurSetup::WrapSurface => BlurSetup::ReadGlobals,
                BlurSetup::ReadGlobals => BlurSetup::BindCompositor,
                _ => BlurSetup::BindEffectManager,
            },
        )
    }
}

/// The steps that add a region's rectangles.
pub open spec fn add_steps(rectangles: Seq<Rectangle>) -> Seq<BlurStep> {
    rectangles.map_values(|rectangle: Rectangle| BlurStep::AddRectangle(rectangle))
}

impl KdeBlur {
    /// One protocol at most is in use, one that is offered, background effects before the older
    /// one; and a region and its shape are kept while one is.
    pub open spec fn wf(self) -> bool {
        &&& self.ext_manager || self.legacy_manager
        &&& self.ext_blur ==> self.ext_manager
        &&& self.legacy_blur ==> self.legacy_manager && !self.ext_manager
        &&& self.region == (self.ext_blur || self.legacy_blur)
        &&& self.region == (self.geometry is Some)
    }

    /// The surface without blur.
    pub open spec fn disabled(self) -> KdeBlur {
        KdeBlur { ext_blur: false, legacy_blur: false, region: false, geometry: None, ..self }
    }

    /// The steps that take the blur off the surface.
    pub open spec fn disable_steps(self) -> Seq<BlurStep> {
        (if self.ext_blur {
            seq![BlurStep::ClearEffectRegion, BlurStep::DestroyEffect, BlurStep::CommitSurface]
        } else {
            Seq::empty()
        }) + (if self.legacy_blur {
            seq![BlurStep::UnsetBlur, BlurStep::ReleaseBlur, BlurStep::CommitSurface]
        } else {
            Seq::empty()
        }) + step_if(self.region, BlurStep::DestroyRegion) + seq![BlurStep::Flush]
    }

    /// The shape is blurred already.
    pub open spec fn shows(self, geometry: BlurGeometry) -> bool {
        (self.ext_blur || self.legacy_blur) && self.geometry == Some(geometry)
    }

    /// The surface with the shape blurred.
    pub open spec fn enabled(self, geometry: BlurGeometry) -> KdeBlur {
        KdeBlur {
            ext_blur: self.ext_blur || self.ext_manager,
            legacy_blur: self.legacy_blur || (!self.ext_manager && self.legacy_manager),
            region: true,
            geometry: Some(geometry),
            ..self
        }
    }

    /// The steps that tell the compositor to blur the new region.
    pub open spec fn apply_steps(self) -> Seq<BlurStep> {
        if self.ext_manager {
            step_if(!self.ext_blur, BlurStep::CreateEffect) + seq![BlurStep::SetEffectRegion]
        } else if self.legacy_manager {
            step_if(!self.legacy_blur, BlurStep::CreateBlur) + seq![
                BlurStep::SetBlurRegion,
                BlurStep::CommitBlur,
            ]
        } else {
            Seq::empty()
        }
    }

    /// The steps that blur a shape that is not blurred yet.
    pub open spec fn enable_steps(self, geometry: BlurGeometry) -> Seq<BlurStep> {
        seq![BlurStep::CreateRegion] + add_steps(
            region_of(geometry.width, geometry.height, geometry.radius),
        ) + self.apply_steps() + seq![BlurStep::CommitSurface] + step_if(
            self.region,
            BlurStep::DestroyRegion,
        ) + seq![BlurStep::KeepRegion, BlurStep::Flush]
    }

    /// The state and the steps after an update.
    pub open spec fn after_update(self, enabled: bool, geometry: BlurGeometry) -> (
        KdeBlur,
        Seq<BlurStep>,
    ) {
        if !enabled {
            (self.disabled(), self.disable_steps())
        } else if self.shows(geometry) {
            (self, seq![BlurStep::DispatchPending])
        } else {
            (self.enabled(geometry), self.enable_steps(geometry))
        }
    }

    /// The steps that give up the surface.
    pub open spec fn close_steps(self) -> Seq<BlurStep> {
        self.disable_steps() + step_if(self.ext_manager, BlurStep::DestroyEffectManager)
    }

    /// The blur of a surface, given which protocols the compositor offers; none where it offers
    /// neither.
    pub fn new(ext_manager: bool, legacy_manager: bool) -> (result: Option<Self>)
        ensures
            result == offered(ext_manager, legacy_manager),
            result is Some ==> result->0.wf(),
            result is Some <==> ext_manager || legacy_manager,
            result is Some ==> result->0.ext_manager == ext_manager && result->0.legacy_manager
                == legacy_manager,
    {
        if !ext_manager && !legacy_manager {
            return None;
        }
        Some(
            Self {
                ext_manager,
                legacy_manager,
                ext_blur: false,
                legacy_blur: false,
                region: false,
                geometry: None,
            },
        )
    }

    /// Blurs the window, or takes the blur off it, and gives the steps to carry out.
    #[verifier::rlimit(40)]
    pub fn update(
        &mut self,
        enabled: bool,
        width: u32,
        height: u32,
        scale: Binary64,
        rounded: bool,
    ) -> (steps: Vec<BlurStep>)
        requires
            old(self).wf(),
        ensures
            (*final(self), steps@) == old(self).after_update(
                enabled,
                geometry_of(width, height, scale, rounded),
            ),
            final(self).wf(),
            final(self).geometry is Some <==> enabled,
            enabled ==> final(self).geometry->0.radius == if rounded {
                8u32
            } else {
                0
            },
    {
        let logical_width: u32 = logical_length(width, scale);
        let logical_height: u32 = logical_length(height, scale);
        let radius: u32 = if rounded { CORNER_RADIUS } else { 0 };
        let geometry = BlurGeometry { width: logical_width, height: logical_height, radius };
        if !enabled {
            return self.disable();
        }
        let mut steps: Vec<BlurStep> = Vec::new();
        let same: bool = match self.geometry {
            Some(shown) => shown == geometry,
            None => false,
        };
        if (self.ext_blur || self.legacy_blur) && same {
            steps.push(BlurStep::DispatchPending);
            assert(steps@ =~= seq![BlurStep::DispatchPending]);
            return steps;
        }
        steps.push(BlurStep::CreateRegion);
        let rectangles: Vec<Rectangle> = rounded_region(logical_width, logical_height, radius);
        let mut index: usize = 0;
        while index < rectangles.len()
            invariant
                index <= rectangles@.len(),
                steps@ == seq![BlurStep::CreateRegion] + add_steps(rectangles@.take(index as int)),
            decreases rectangles@.len() - index,
        {
            steps.push(BlurStep::AddRectangle(rectangles[index]));
            index = index + 1;
            assert(steps@ =~= seq![BlurStep::CreateRegion] + add_steps(
                rectangles@.take(index as int),
            ));
        }
        assert(rectangles@.take(index as int) =~= rectangles@);
        if self.ext_manager {
            if !self.ext_blur {
                steps.push(BlurStep::CreateEffect);
            }
            steps.push(BlurStep::SetEffectRegion);
            self.ext_blur = true;
        } else if self.legacy_manager {
            if !self.legacy_blur {
                steps.push(BlurStep::CreateBlur);
            }
            steps.push(BlurStep::SetBlurRegion);
            steps.push(BlurStep::CommitBlur);
            self.legacy_blur = true;
        }
        steps.push(BlurStep::CommitSurface);
        if self.region {
            steps.push(BlurStep::DestroyRegion);
        }
        steps.push(BlurStep::KeepRegion);
        self.region = true;
        self.geometry = Some(geometry);
        steps.push(BlurStep::Flush);
        assert(steps@ =~= old(self).enable_steps(geometry));
        steps
    }

    /// Takes the blur off the surface, and gives the steps to carry out.
    pub fn disable(&mut self) -> (steps: Vec<BlurStep>)
        requires
            old(self).wf(),
        ensures
            *final(self) == old(self).disabled(),
            steps@ == old(self).disable_steps(),
            final(self).wf(),
    {
        let mut steps: Vec<BlurStep> = Vec::new();
        if self.ext_blur {
            steps.push(BlurStep::ClearEffectRegion);
            steps.push(BlurStep::DestroyEffect);
            steps.push(BlurStep::CommitSurface);
        }
        if self.legacy_blur {
            steps.push(BlurStep::UnsetBlur);
            steps.push(BlurStep::ReleaseBlur);
            steps.push(BlurStep::CommitSurface);
        }
        if self.region {
            steps.push(BlurStep::DestroyRegion);
        }
        self.ext_blur = false;
        self.legacy_blur = false;
        self.region = false;
        self.geometry = None;
        steps.push(BlurStep::Flush);
        assert(steps@ =~= old(self).disable_steps());
        steps
    }

    /// Gives up the surface, and gives the steps to carry out.
    pub fn close(self) -> (steps: Vec<BlurStep>)
        requires
            self.wf(),
        ensures
            steps@ == self.close_steps(),
    {
        let mut blur = self;
        let mut steps: Vec<BlurStep> = blur.disable();
        if blur.ext_manager {
            steps.push(BlurStep::DestroyEffectManager);
        }
        assert(steps@ =~= self.close_steps());
        steps
    }
}

proof fn lemma_occurrences_in_disable(blur: KdeBlur, step: BlurStep)
    ensures
        occurrences(blur.disable_steps(), step) == one_if(step == BlurStep::Flush) + one_if(
            blur.region && step == BlurStep::DestroyRegion,
        ) + one_if(blur.ext_blur && step == BlurStep::ClearEffectRegion) + one_if(
            blur.ext_blur && step == BlurStep::DestroyEffect,
        ) + one_if(blur.ext_blur && step == BlurStep::CommitSurface) + one_if(
            blur.legacy_blur && step == BlurStep::UnsetBlur,
        ) + one_if(blur.legacy_blur && step == BlurStep::ReleaseBlur) + one_if(
            blur.legacy_blur && step == BlurStep::CommitSurface,
        ),
{
    let effect = if blur.ext_blur {
        seq![BlurStep::ClearEffectRegion, BlurStep::DestroyEffect, BlurStep::CommitSurface]
    } else {
        Seq::empty()
    };
    let older = if blur.legacy_blur {
        seq![BlurStep::UnsetBlur, BlurStep::ReleaseBlur, BlurStep::CommitSurface]
    } else {
        Seq::empty()
    };
    let region = step_if(blur.region, BlurStep::DestroyRegion);
    let flush = seq![BlurStep::Flush];
    lemma_occurrences_short(effect, step);
    lemma_occurrences_short(older, step);
    lemma_occurrences_short(region, step);
    lemma_occurrences_short(flush, step);
    lemma_occurrences_joined(effect, older, step);
    lemma_occurrences_joined(effect + older, region, step);
    lemma_occurrences_joined(effect + older + region, flush, step);
}

proof fn lemma_occurrences_in_enable(blur: KdeBlur, geometry: BlurGeometry, step: BlurStep)
    requires
        !(step is AddRectangle),
    ensures
        occurrences(blur.enable_steps(geometry), step) == one_if(step == BlurStep::CreateRegion)
            + occurrences(blur.apply_steps(), step) + one_if(step == BlurStep::CommitSurface)
            + one_if(blur.region && step == BlurStep::DestroyRegion) + one_if(
            step == BlurStep::KeepRegion,
        ) + one_if(step == BlurStep::Flush),
{
    let rectangles = region_of(geometry.width, geometry.height, geometry.radius);
    let create = seq![BlurStep::CreateRegion];
    let adds = add_steps(rectangles);
    let apply = blur.apply_steps();
    let commit = seq![BlurStep::CommitSurface];
    let region = step_if(blur.region, BlurStep::DestroyRegion);
    let keep = seq![BlurStep::KeepRegion, BlurStep::Flush];
    lemma_occurrences_absent(adds, step);
    lemma_occurrences_short(create, step);
    lemma_occurrences_short(commit, step);
    lemma_occurrences_short(region, step);
    lemma_occurrences_short(keep, step);
    lemma_occurrences_joined(create, adds, step);
    lemma_occurrences_joined(create + adds, apply, step);
    lemma_occurrences_joined(create + adds + apply, commit, step);
    lemma_occurrences_joined(create + adds + apply + commit, region, step);
    lemma_occurrences_joined(create + adds + apply + commit + region, keep, step);
}

proof fn lemma_occurrences_in_apply(blur: KdeBlur, step: BlurStep)
    ensures
        occurrences(blur.apply_steps(), step) == if blur.ext_manager {
            one_if(!blur.ext_blur && step == BlurStep::CreateEffect) + one_if(
                step == BlurStep::SetEffectRegion,
            )
        } else if blur.legacy_manager {
            one_if(!blur.legacy_blur && step == BlurStep::CreateBlur) + one_if(
                step == BlurStep::SetBlurRegion,
            ) + one_if(step == BlurStep::CommitBlur)
        } else {
            0
        },
{
    lemma_occurrences_short(blur.apply_steps(), step);
}

/// What is created is what is in use and was not: after every update the regions, effects and
/// blurs created and not destroyed are those that the state says are in use.
pub proof fn lemma_update_keeps_account(blur: KdeBlur, enabled: bool, geometry: BlurGeometry)
    requires
        blur.wf(),
    ensures
        ({
            let (next, steps) = blur.after_update(enabled, geometry);
            &&& next.wf()
            &&& occurrences(steps, BlurStep::CreateRegion) - occurrences(
                steps,
                BlurStep::DestroyRegion,
            ) == one_if(next.region) - one_if(blur.region)
            &&& occurrences(steps, BlurStep::CreateEffect) - occurrences(
                steps,
                BlurStep::DestroyEffect,
            ) == one_if(next.ext_blur) - one_if(blur.ext_blur)
            &&& occurrences(steps, BlurStep::CreateBlur) - occurrences(
                steps,
                BlurStep::ReleaseBlur,
            ) == one_if(next.legacy_blur) - one_if(blur.legacy_blur)
        }),
{
    lemma_account_of(blur, enabled, geometry, BlurStep::CreateRegion);
    lemma_account_of(blur, enabled, geometry, BlurStep::DestroyRegion);
    lemma_account_of(blur, enabled, geometry, BlurStep::CreateEffect);
    lemma_account_of(blur, enabled, geometry, BlurStep::DestroyEffect);
    lemma_account_of(blur, enabled, geometry, BlurStep::CreateBlur);
    lemma_account_of(blur, enabled, geometry, BlurStep::ReleaseBlur);
}

proof fn lemma_account_of(blur: KdeBlur, enabled: bool, geometry: BlurGeometry, step: BlurStep)
    requires
        blur.wf(),
        step is CreateRegion || step is DestroyRegion || step is CreateEffect
            || step is DestroyEffect || step is CreateBlur || step is ReleaseBlur,
    ensures
        occurrences(blur.after_update(enabled, geometry).1, step) == if !enabled {
            one_if(blur.region && step is DestroyRegion) + one_if(
                blur.ext_blur && step is DestroyEffect,
            ) + one_if(blur.legacy_blur && step is ReleaseBlur)
        } else if blur.shows(geometry) {
            0
        } else {
            one_if(step is CreateRegion) + one_if(blur.region && step is DestroyRegion) + one_if(
                blur.ext_manager && !blur.ext_blur && step is CreateEffect,
            ) + one_if(
                !blur.ext_manager && blur.legacy_manager && !blur.legacy_blur && step is CreateBlur,
            )
        },
{
    lemma_occurrences_in_disable(blur, step);
    lemma_occurrences_in_enable(blur, geometry, step);
    lemma_occurrences_in_apply(blur, step);
    lemma_occurrences_short(seq![BlurStep::DispatchPending], step);
}

/// Giving up the surface destroys everything in use, and creates nothing.
pub proof fn lemma_close_destroys_all(blur: KdeBlur)
    requires
        blur.wf(),
    ensures
        occurrences(blur.close_steps(), BlurStep::DestroyRegion) == one_if(blur.region),
        occurrences(blur.close_steps(), BlurStep::DestroyEffect) == one_if(blur.ext_blur),
        occurrences(blur.close_steps(), BlurStep::ReleaseBlur) == one_if(blur.legacy_blur),
        occurrences(blur.close_steps(), BlurStep::DestroyEffectManager) == one_if(
            blur.ext_manager,
        ),
        occurrences(blur.close_steps(), BlurStep::CreateRegion) == 0,
        occurrences(blur.close_steps(), BlurStep::CreateEffect) == 0,
        occurrences(blur.close_steps(), BlurStep::CreateBlur) == 0,
{
    assert forall|step: BlurStep|
        #![trigger occurrences(blur.close_steps(), step)]
        occurrences(blur.close_steps(), step) == occurrences(blur.disable_steps(), step) + one_if(
            blur.ext_manager && step is DestroyEffectManager,
        ) by {
        let manager = step_if(blur.ext_manager, BlurStep::DestroyEffectManager);
        lemma_occurrences_short(manager, step);
        lemma_occurrences_joined(blur.disable_steps(), manager, step);
    }
    lemma_occurrences_in_disable(blur, BlurStep::DestroyRegion);
    lemma_occurrences_in_disable(blur, BlurStep::DestroyEffect);
    lemma_occurrences_in_disable(blur, BlurStep::ReleaseBlur);
    lemma_occurrences_in_disable(blur, BlurStep::DestroyEffectManager);
    lemma_occurrences_in_disable(blur, BlurStep::CreateRegion);
    lemma_occurrences_in_disable(blur, BlurStep::CreateEffect);
    lemma_occurrences_in_disable(blur, BlurStep::CreateBlur);
}

/// The state and the steps after a row of updates, each with what it asks for.
pub open spec fn after_updates(blur: KdeBlur, updates: Seq<(bool, BlurGeometry)>) -> (
    KdeBlur,
    Seq<BlurStep>,
)
    decreases updates.len(),
{
    if updates.len() == 0 {
        (blur, Seq::empty())
    } else {
        let (before, steps) = after_updates(blur, updates.drop_last());
        let (after, more) = before.after_update(updates.last().0, updates.last().1);
        (after, steps + more)
    }
}

proof fn lemma_updates_keep_account(blur: KdeBlur, updates: Seq<(bool, BlurGeometry)>)
    requires
        blur.wf(),
        !blur.region,
    ensures
        ({
            let (next, steps) = after_updates(blur, updates);
            &&& next.wf()
            &&& occurrences(steps, BlurStep::CreateRegion) == occurrences(
                steps,
                BlurStep::DestroyRegion,
            ) + one_if(next.region)
            &&& occurrences(steps, BlurStep::CreateEffect) == occurrences(
                steps,
                BlurStep::DestroyEffect,
            ) + one_if(next.ext_blur)
            &&& occurrences(steps, BlurStep::CreateBlur) == occurrences(
                steps,
                BlurStep::ReleaseBlur,
            ) + one_if(next.legacy_blur)
        }),
    decreases updates.len(),
{
    if updates.len() > 0 {
        lemma_updates_keep_account(blur, updates.drop_last());
        let (before, steps) = after_updates(blur, updates.drop_last());
        let (enabled, geometry) = updates.last();
        let more = before.after_update(enabled, geometry).1;
        lemma_update_keeps_account(before, enabled, geometry);
        lemma_occurrences_joined(steps, more, BlurStep::CreateRegion);
        lemma_occurrences_joined(steps, more, BlurStep::DestroyRegion);
        lemma_occurrences_joined(steps, more, BlurStep::CreateEffect);
        lemma_occurrences_joined(steps, more, BlurStep::DestroyEffect);
        lemma_occurrences_joined(steps, more, BlurStep::CreateBlur);
        lemma_occurrences_joined(steps, more, BlurStep::ReleaseBlur);
    }
}

/// Whatever updates a surface sees, once it is given up every region, effect and blur that was
/// created has been destroyed.
pub proof fn lemma_lifetime_destroys_all(
    ext_manager: bool,
    legacy_manager: bool,
    updates: Seq<(bool, BlurGeometry)>,
)
    requires
        ext_manager || legacy_manager,
    ensures
        ({
            let (last, steps) = after_updates(offered(ext_manager, legacy_manager)->0, updates);
            let steps = steps + last.close_steps();
            &&& occurrences(steps, BlurStep::CreateRegion) == occurrences(
                steps,
                BlurStep::DestroyRegion,
            )
            &&& occurrences(steps, BlurStep::CreateEffect) == occurrences(
                steps,
                BlurStep::DestroyEffect,
            )
            &&& occurrences(steps, BlurStep::CreateBlur) == occurrences(
                steps,
                BlurStep::ReleaseBlur,
            )
        }),
{
    let blur = offered(ext_manager, legacy_manager)->0;
    lemma_updates_keep_account(blur, updates);
    let (last, steps) = after_updates(blur, updates);
    lemma_close_destroys_all(last);
    lemma_occurrences_joined(steps, last.close_steps(), BlurStep::CreateRegion);
    lemma_occurrences_joined(steps, last.close_steps(), BlurStep::DestroyRegion);
    lemma_occurrences_joined(steps, last.close_steps(), BlurStep::CreateEffect);
    lemma_occurrences_joined(steps, last.close_steps(), BlurStep::DestroyEffect);
    lemma_occurrences_joined(steps, last.close_steps(), BlurStep::CreateBlur);
    lemma_occurrences_joined(steps, last.close_steps(), BlurStep::ReleaseBlur);
}

/// Asking for the shape that is shown already changes nothing: only what the compositor has
/// sent is taken in.
pub proof fn lemma_repeated_update(blur: KdeBlur, geometry: BlurGeometry)
    requires
        blur.wf(),
    ensures
        ({
            let shown = blur.after_update(true, geometry).0;
            shown.after_update(true, geometry) == (shown, seq![BlurStep::DispatchPending])
        }),
{
}

/// Taking off a blur that is off already only flushes.
pub proof fn lemma_repeated_disable(blur: KdeBlur, geometry: BlurGeometry)
    requires
        blur.wf(),
    ensures
        ({
            let off = blur.after_update(false, geometry).0;
            off.after_update(false, geometry) == (off, seq![BlurStep::Flush])
        }),
{
    let off = blur.disabled();
    assert(off.disable_steps() =~= seq![BlurStep::Flush]);
}

/// The blur is ready where every needed step works and one of the two protocols is there, and
/// then no part of it is in use.
pub proof fn lemma_setup(
    surface: bool,
    proxy: bool,
    globals: bool,
    compositor: bool,
    ext_manager: bool,
    legacy_manager: bool,
)
    ensures
        ({
            let progress = BlurSetup::ImportSurface.after(surface);
            let progress = match progress {
                BlurProgress::Next(setup) => setup.after(proxy),
                other => other,
            };
            let progress = match progress {
                BlurProgress::Next(setup) => setup.after(globals),
                other => other,
            };
            let progress = match progress {
                BlurProgress::Next(setup) => setup.after(compositor),
                other => other,
            };
            let progress = match progress {
                BlurProgress::Next(setup) => setup.after(ext_manager),
                other => other,
            };
            let progress = match progress {
                BlurProgress::Next(setup) => setup.after(legacy_manager),
                other => other,
            };
            if surface && proxy && globals && compositor && (ext_manager || legacy_manager) {
                &&& progress == BlurProgress::Ready(offered(ext_manager, legacy_manager)->0)
                &&& offered(ext_manager, legacy_manager)->0.wf()
            } else {
                progress == BlurProgress::Unavailable
            }
        }),
{
}

/// A length that is a whole number of logical pixels at the scale, be the scale whole or
/// fractional, is that many logical pixels.
pub proof fn lemma_logical_exact(length: u32, scale: Binary64, pixels: nat)
    requires
        1 <= pixels <= u32::MAX,
        scale@ matches Real::Finite { negative, units } && !negative && units > 0 && length
            * Format::Double.one() == pixels * units,
    ensures
        logical(length, scale) == pixels,
{
    let format = Format::Double;
    let one = format.one();
    let units = scale@->units;
    let p = (length as nat * one) * one;
    assert(p == (pixels * one) * units) by (nonlinear_arith)
        requires
            p == (length * one) * one,
            length * one == pixels * units,
    ;
    lemma_rounded_whole(format, false, pixels, units);
    lemma_whole_between(format, pixels, 1, u32::MAX as nat, 1);
}

/// A longer length has no fewer logical pixels.
pub proof fn lemma_logical_ordered(shorter: u32, longer: u32, scale: Binary64)
    requires
        shorter <= longer,
        !less(scale@, zero()),
    ensures
        logical(shorter, scale) <= logical(longer, scale),
{
    let format = Format::Double;
    let one = format.one();
    let a = quotient(format, whole(format, shorter as nat), scale@);
    let b = quotient(format, whole(format, longer as nat), scale@);
    match scale@ {
        Real::Finite { negative, units } => {
            if units > 0 {
                let pa = (shorter as nat * one) * one;
                let pb = (longer as nat * one) * one;
                assert(pa * units <= pb * units) by (nonlinear_arith)
                    requires
                        pa == (shorter * one) * one,
                        pb == (longer * one) * one,
                        shorter <= longer,
                        one >= 0,
                        units > 0,
                ;
                lemma_rounded_ordered(format, pa, units, pb, units);
                lemma_whole_between_ordered(format, a, b, 1, u32::MAX as nat, 1);
            } else {
                lemma_pow2_ordered(0, 1074);
                assert(longer * one > 0 || longer == 0) by (nonlinear_arith)
                    requires
                        one > 0,
                        longer >= 0,
                ;
                assert(0 * one == 0);
            }
        },
        _ => {},
    }
}

/// There is a blur exactly where a protocol is offered. It records each protocol as offered where
/// it was bound, and nothing is in use yet.
pub proof fn lemma_new_blur(ext_manager: bool, legacy_manager: bool)
    ensures
        offered(ext_manager, legacy_manager) is Some <==> ext_manager || legacy_manager,
        offered(ext_manager, legacy_manager) matches Some(blur) ==> {
            &&& blur.ext_manager == ext_manager
            &&& blur.legacy_manager == legacy_manager
            &&& !blur.ext_blur
            &&& !blur.legacy_blur
            &&& !blur.region
            &&& blur.geometry is None
        },
{
}

/// The steps of connecting follow each other: the surface is imported and wrapped, the globals are
/// read, and the compositor, background effects and the older blur are bound, each in version one.
/// Of the two protocols one is enough, and what each of them gave is recorded.
pub proof fn lemma_setup_order(succeeded: bool, ext_manager: bool)
    ensures
        BlurSetup::ImportSurface.after(true) == BlurProgress::Next(BlurSetup::WrapSurface),
        BlurSetup::WrapSurface.after(true) == BlurProgress::Next(BlurSetup::ReadGlobals),
        BlurSetup::ReadGlobals.after(true) == BlurProgress::Next(BlurSetup::BindCompositor),
        BlurSetup::BindCompositor.after(true) == BlurProgress::Next(BlurSetup::BindEffectManager),
        BlurSetup::BindEffectManager.after(succeeded) == BlurProgress::Next(
            BlurSetup::BindBlurManager { ext_manager: succeeded },
        ),
        BlurSetup::ImportSurface.after(false) == BlurProgress::Unavailable,
        BlurSetup::WrapSurface.after(false) == BlurProgress::Unavailable,
        BlurSetup::ReadGlobals.after(false) == BlurProgress::Unavailable,
        BlurSetup::BindCompositor.after(false) == BlurProgress::Unavailable,
        match (BlurSetup::BindBlurManager { ext_manager }).after(succeeded) {
            BlurProgress::Ready(blur) => (ext_manager || succeeded) && blur.ext_manager
                == ext_manager && blur.legacy_manager == succeeded,
            BlurProgress::Unavailable => !ext_manager && !succeeded,
            BlurProgress::Next(_) => false,
        },
        BlurSetup::BindCompositor.spec_versions() == Some((1u32, 1u32)),
        BlurSetup::BindEffectManager.spec_versions() == Some((1u32, 1u32)),
        (BlurSetup::BindBlurManager { ext_manager }).spec_versions() == Some((1u32, 1u32)),
        BlurSetup::ImportSurface.spec_versions() is None,
        BlurSetup::WrapSurface.spec_versions() is None,
        BlurSetup::ReadGlobals.spec_versions() is None,
{
}

/// The shape has the window's logical width and height, and corners of 8 pixels where it is
/// rounded, else none.
pub proof fn lemma_geometry(width: u32, height: u32, scale: Binary64, rounded: bool)
    ensures
        ({
            let geometry = geometry_of(width, height, scale, rounded);
            &&& geometry.width == logical(width, scale)
            &&& geometry.height == logical(height, scale)
            &&& rounded ==> geometry.radius == 8
            &&& !rounded ==> geometry.radius == 0
        }),
{
}

/// A logical length is at least one, and the whole number nearest to the length divided by the
/// scale, up to what double precision rounds: times the scale it misses the length by half a scale
/// at most, but that less than half a scale gives one too. So does a scale that is no number, and
/// no length at no scale.
pub proof fn lemma_logical_is_nearest(length: u32, scale: Binary64)
    ensures
        1 <= logical(length, scale) <= u32::MAX,
        scale@ is Nan ==> logical(length, scale) == 1,
        scale@ is Infinite ==> logical(length, scale) == 1,
        scale@ matches Real::Finite { negative, units } ==> {
            let exact = length * Format::Double.one();
            let result = logical(length, scale);
            &&& negative ==> result == 1
            &&& units == 0 && length == 0 ==> result == 1
            &&& units == 0 && length > 0 && !negative ==> result == u32::MAX
            &&& units > 0 && !negative && 1 < result ==> 0x10_0000_0000_0000 * (2 * (result * units)
                - 2 * exact) <= 0x10_0000_0000_0000 * units + exact
            &&& units > 0 && !negative && 1 < result < u32::MAX ==> 0x10_0000_0000_0000 * (2 * exact
                - 2 * (result * units)) <= 0x10_0000_0000_0000 * units + exact
            &&& units > 0 && !negative && 2 * exact < units ==> result == 1
            &&& units > 0 && !negative && result == 1 ==> 0x10_0000_0000_0000 * (2 * exact - 3
                * units) <= exact + units
        },
{
    let format = Format::Double;
    let one = format.one();
    lemma_pow2_values();
    lemma_pow2_ordered(53, 1074);
    vstd::arithmetic::div_mod::lemma_basic_div(one as int, (2 * one) as int);
    match scale@ {
        Real::Finite { negative, units } => {
            let exact = length as nat * one;
            let p = exact * one;
            let a = quotient(format, whole(format, length as nat), scale@);
            if units > 0 {
                if !negative {
                    lemma_logical_near(length, units);
                }
            } else {
                assert(exact > 0 <==> length > 0) by (nonlinear_arith)
                    requires
                        exact == length * one,
                        one > 0,
                        length >= 0,
                ;
            }
        },
        _ => {},
    }
}

#[verifier::spinoff_prover]
#[verifier::rlimit(30)]
proof fn lemma_logical_near(length: u32, units: nat)
    requires
        units > 0,
    ensures
        ({
            let format = Format::Double;
            let exact = length * format.one();
            let a = quotient(
                format,
                whole(format, length as nat),
                Real::Finite { negative: false, units },
            );
            let result = whole_between(format, a, 1, u32::MAX as nat, 1);
            &&& 1 <= result <= u32::MAX
            &&& 1 < result ==> 0x10_0000_0000_0000 * (2 * (result * units) - 2 * exact)
                <= 0x10_0000_0000_0000 * units + exact
            &&& result < u32::MAX && 1 < result ==> 0x10_0000_0000_0000 * (2 * exact - 2 * (result
                * units)) <= 0x10_0000_0000_0000 * units + exact
            &&& 2 * exact < units ==> result == 1
            &&& result == 1 ==> 0x10_0000_0000_0000 * (2 * exact - 3 * units) <= exact + units
        }),
{
    let format = Format::Double;
    let one = format.one();
    lemma_pow2_values();
    lemma_pow2_ordered(53, 1074);
    let exact = length as nat * one;
    let p = exact * one;
    let a = rounded(format, false, p, units);
    let result = whole_between(format, a, 1, u32::MAX as nat, 1);
    lemma_rounded_near(format, false, p, units);
    if 2 * exact < units {
        assert(p <= (1 * one) * units) by (nonlinear_arith)
            requires
                p == exact * one,
                2 * exact < units,
                one > 0,
        ;
        lemma_rounded_at_most(format, false, p, units, 1);
        lemma_whole_between_is_nearest(format, a->units, 1, u32::MAX as nat, 1);
        assert(1 * one == one);
        if 1 < result {
            assert(2 * one <= result * one) by (nonlinear_arith)
                requires
                    2 <= result,
                    one > 0,
            ;
        }
    }
    match a {
        Real::Finite { units: value, .. } => {
            lemma_whole_between_is_nearest(format, value, 1, u32::MAX as nat, 1);
            let moved = magnitude(value * units - p);
            if result == 1 {
                assert(1 * one == one);
                lemma_logical_one(value as int, units as int, exact as int, one as int);
            }
            if 1 < result {
                assert(2 * one <= result * one) by (nonlinear_arith)
                    requires
                        2 <= result,
                        one > 0,
                ;
                assert(value >= one);
                if 2 * moved <= units {
                    assert(2 * p >= one * units) by (nonlinear_arith)
                        requires
                            2 * (value * units - p) <= units,
                            value >= one,
                            one >= 1,
                            units > 0,
                    ;
                    assert(0x20_0000_0000_0000 * moved <= p) by (nonlinear_arith)
                        requires
                            2 * moved <= units,
                            2 * p >= one * units,
                            one >= 0x20_0000_0000_0000,
                            units > 0,
                    ;
                }
                assert(0x20_0000_0000_0000 * moved <= p);
                let together = value * units;
                assert(0x20_0000_0000_0000 * (together - p) <= p);
                assert(0x20_0000_0000_0000 * (p - together) <= p);
                let (r, v, u) = (result as int, value as int, units as int);
                lemma_logical_scaled(r, v, u, exact as int, one as int);
            }
        },
        Real::Infinite { .. } => {
            if p <= (0x1_0000_0000 * one) * units {
                lemma_rounded_at_most(format, false, p, units, 0x1_0000_0000);
            }
            assert(exact > 0x1_0000_0000 * units) by (nonlinear_arith)
                requires
                    exact * one > (0x1_0000_0000 * one) * units,
                    one > 0,
            ;
            assert(result * units <= 0x1_0000_0000 * units) by (nonlinear_arith)
                requires
                    result <= 0x1_0000_0000,
                    units > 0,
            ;
        },
        Real::Nan => {},
    }
}

proof fn lemma_logical_one(value: int, units: int, exact: int, one: int)
    requires
        one >= 0x10_0000_0000_0000,
        units > 0,
        exact >= 0,
        2 * value < 3 * one,
        2 * (exact * one - value * units) <= units || 0x20_0000_0000_0000 * (exact * one - value
            * units) <= exact * one,
    ensures
        0x10_0000_0000_0000 * (2 * exact - 3 * units) <= exact + units,
{
    let together = value * units;
    let p = exact * one;
    let wide = units * one;
    assert(2 * together <= 3 * wide && wide >= 0x10_0000_0000_0000 * units) by (nonlinear_arith)
        requires
            together == value * units,
            wide == units * one,
            2 * value < 3 * one,
            one >= 0x10_0000_0000_0000,
            units > 0,
    ;
    assert(p >= 0) by (nonlinear_arith)
        requires
            p == exact * one,
            exact >= 0,
            one > 0,
    ;
    assert((0x10_0000_0000_0000 * (2 * exact - 3 * units)) * one == 0x10_0000_0000_0000 * (2 * p - 3
        * wide) && (exact + units) * one == p + wide) by (nonlinear_arith)
        requires
            p == exact * one,
            wide == units * one,
    ;
    assert(0x10_0000_0000_0000 * (2 * exact - 3 * units) <= exact + units) by (nonlinear_arith)
        requires
            (0x10_0000_0000_0000 * (2 * exact - 3 * units)) * one <= (exact + units) * one,
            one > 0,
    ;
}

proof fn lemma_logical_scaled(result: int, value: int, units: int, exact: int, one: int)
    requires
        one > 0,
        units > 0,
        2 * (result * one) <= 2 * value + one,
        0x20_0000_0000_0000 * (value * units - exact * one) <= exact * one,
        0x20_0000_0000_0000 * (exact * one - value * units) <= exact * one,
    ensures
        0x10_0000_0000_0000 * (2 * (result * units) - 2 * exact) <= 0x10_0000_0000_0000 * units
            + exact,
        2 * value < 2 * (result * one) + one ==> 0x10_0000_0000_0000 * (2 * exact - 2 * (result
            * units)) <= 0x10_0000_0000_0000 * units + exact,
{
    let together = value * units;
    let p = exact * one;
    let product = result * units;
    assert(2 * (product * one) <= 2 * together + units * one) by (nonlinear_arith)
        requires
            2 * (result * one) <= 2 * value + one,
            product == result * units,
            together == value * units,
            units > 0,
    ;
    assert((0x10_0000_0000_0000 * (2 * product - 2 * exact)) * one <= (0x10_0000_0000_0000 * units
        + exact) * one) by (nonlinear_arith)
        requires
            2 * (product * one) <= 2 * together + units * one,
            0x20_0000_0000_0000 * (together - p) <= p,
            p == exact * one,
    ;
    assert(0x10_0000_0000_0000 * (2 * product - 2 * exact) <= 0x10_0000_0000_0000 * units + exact)
        by (nonlinear_arith)
        requires
            (0x10_0000_0000_0000 * (2 * product - 2 * exact)) * one <= (0x10_0000_0000_0000 * units
                + exact) * one,
            one > 0,
    ;
    if 2 * value < 2 * (result * one) + one {
        assert(2 * together <= 2 * (product * one) + units * one) by (nonlinear_arith)
            requires
                2 * value < 2 * (result * one) + one,
                product == result * units,
                together == value * units,
                units > 0,
        ;
        assert((0x10_0000_0000_0000 * (2 * exact - 2 * product)) * one <= (0x10_0000_0000_0000
            * units + exact) * one) by (nonlinear_arith)
            requires
                2 * together <= 2 * (product * one) + units * one,
                0x20_0000_0000_0000 * (p - together) <= p,
                p == exact * one,
        ;
        assert(0x10_0000_0000_0000 * (2 * exact - 2 * product) <= 0x10_0000_0000_0000 * units
            + exact) by (nonlinear_arith)
            requires
                (0x10_0000_0000_0000 * (2 * exact - 2 * product)) * one <= (0x10_0000_0000_0000
                    * units + exact) * one,
                one > 0,
        ;
    }
}

/// The rectangles of the region are added right after the region is made, and no others.
#[verifier::spinoff_prover]
proof fn lemma_added(blur: KdeBlur, geometry: BlurGeometry, i: int)
    ensures
        ({
            let steps = blur.enable_steps(geometry);
            let region = region_of(geometry.width, geometry.height, geometry.radius);
            &&& region.len() < steps.len()
            &&& 0 <= i < steps.len() && steps[i] is AddRectangle ==> 1 <= i <= region.len()
            &&& 1 <= i <= region.len() ==> steps[i] == BlurStep::AddRectangle(region[i - 1])
        }),
{
    let region = region_of(geometry.width, geometry.height, geometry.radius);
    let first = seq![BlurStep::CreateRegion] + add_steps(region);
    let rest = blur.apply_steps() + seq![BlurStep::CommitSurface] + step_if(
        blur.region,
        BlurStep::DestroyRegion,
    ) + seq![BlurStep::KeepRegion, BlurStep::Flush];
    assert(blur.enable_steps(geometry) =~= first + rest);
    let after = i - first.len();
    assert(0 <= after < rest.len() ==> !(rest[after] is AddRectangle));
}

/// Where the window is blurred anew, the rectangles that are added cover a pixel exactly when it
/// lies in the window of logical size, rounded with a radius of 8 pixels, or of half the width or
/// height where that is less; where it is not rounded, exactly when it lies in the window.
#[verifier::spinoff_prover]
#[verifier::rlimit(30)]
pub proof fn lemma_update_covers_window(
    blur: KdeBlur,
    width: u32,
    height: u32,
    scale: Binary64,
    rounded: bool,
    x: int,
    y: int,
)
    requires
        blur.wf(),
        logical(width, scale) <= i32::MAX,
        logical(height, scale) <= i32::MAX,
        !blur.shows(geometry_of(width, height, scale, rounded)),
    ensures
        ({
            let steps = blur.after_update(true, geometry_of(width, height, scale, rounded)).1;
            let wide = logical(width, scale) as int;
            let high = logical(height, scale) as int;
            let small = if wide < high {
                wide / 2
            } else {
                high / 2
            };
            let radius = if !rounded {
                0
            } else if small < 8 {
                small
            } else {
                8
            };
            let column = if 2 * x < wide - 1 {
                x
            } else {
                wide - 1 - x
            };
            let row = if 2 * y < high - 1 {
                y
            } else {
                high - 1 - y
            };
            let across = 2 * (radius - column);
            let along = 2 * (radius - row) - 1;
            (exists|i: int|
                #![trigger steps[i]]
                0 <= i < steps.len() && (steps[i] matches BlurStep::AddRectangle(part) && part.x
                    <= x < part.x + part.width && part.y <= y < part.y + part.height)) <==> (0 <= x
                < wide && 0 <= y < high && (column >= radius || row >= radius || across * across
                + along * along <= 4 * (radius * radius)))
        }),
{
    let geometry = geometry_of(width, height, scale, rounded);
    let steps = blur.enable_steps(geometry);
    let region = region_of(geometry.width, geometry.height, geometry.radius);
    lemma_region_covers(geometry.width, geometry.height, geometry.radius, x, y);
    if exists|i: int|
        #![trigger region[i]]
        0 <= i < region.len() && region[i].x <= x < region[i].x + region[i].width && region[i].y
            <= y < region[i].y + region[i].height {
        let i = choose|i: int|
            #![trigger region[i]]
            0 <= i < region.len() && region[i].x <= x < region[i].x + region[i].width
                && region[i].y <= y < region[i].y + region[i].height;
        lemma_added(blur, geometry, i + 1);
        assert(steps[i + 1] == BlurStep::AddRectangle(region[i]));
    }
    if exists|i: int|
        #![trigger steps[i]]
        0 <= i < steps.len() && (steps[i] matches BlurStep::AddRectangle(part) && part.x <= x
            < part.x + part.width && part.y <= y < part.y + part.height) {
        let i = choose|i: int|
            #![trigger steps[i]]
            0 <= i < steps.len() && (steps[i] matches BlurStep::AddRectangle(part) && part.x <= x
                < part.x + part.width && part.y <= y < part.y + part.height);
        lemma_added(blur, geometry, i);
        assert(steps[i] == BlurStep::AddRectangle(region[i - 1]));
    }
}

/// Asked for a shape, the surface shows that shape by the protocol that it prefers; asked for none,
/// it shows none.
pub proof fn lemma_update_state(blur: KdeBlur, enabled: bool, geometry: BlurGeometry)
    requires
        blur.wf(),
    ensures
        ({
            let next = blur.after_update(enabled, geometry).0;
            &&& next.ext_manager == blur.ext_manager
            &&& next.legacy_manager == blur.legacy_manager
            &&& next.ext_blur == (enabled && blur.ext_manager)
            &&& next.legacy_blur == (enabled && !blur.ext_manager)
            &&& next.region == enabled
            &&& next.geometry == if enabled {
                Some(geometry)
            } else {
                None
            }
        }),
{
}

} // verus!
