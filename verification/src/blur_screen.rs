//! What the steps of the blur do to a surface.
//!
//! The model follows the two protocols: which objects exist, which region each of them has been
//! given, and what the compositor blurs since the surface was last committed. A step that uses an
//! object that is not there has no outcome.

use vstd::prelude::*;

use crate::binary64::Binary64;
#[allow(unused_imports)]
use crate::kde_blur::{
    add_steps, geometry_of, logical, offered, BlurGeometry, BlurStep, KdeBlur,
};
#[allow(unused_imports)]
use crate::region::{lemma_region_covers, region_of, Rectangle};
#[allow(unused_imports)]
use crate::steps::step_if;

verus! {

/// A surface, and the objects that blur it.
pub struct BlurScreen {
    /// The compositor offers background effects.
    pub effects: bool,
    /// The compositor offers the older blur.
    pub blurs: bool,
    /// The region that is being made.
    pub draft: Option<Seq<Rectangle>>,
    /// The region in use.
    pub kept: Option<Seq<Rectangle>>,
    /// The background effect, and the region that it was given.
    pub effect: Option<Option<Seq<Rectangle>>>,
    /// The older blur, and the region that it was given.
    pub blur: Option<Option<Seq<Rectangle>>>,
    /// The region of the older blur that was applied to the surface.
    pub applied: Option<Seq<Rectangle>>,
    /// What is blurred since the surface was last committed.
    pub shown: Option<Seq<Rectangle>>,
    /// All of it was sent to the compositor.
    pub sent: bool,
}

/// What a step does; nothing where it cannot be carried out.
pub open spec fn perform(screen: BlurScreen, step: BlurStep) -> Option<BlurScreen> {
    let asked = BlurScreen { sent: false, ..screen };
    match step {
        BlurStep::DispatchPending => Some(screen),
        BlurStep::CreateRegion => if screen.draft is None {
            Some(BlurScreen { draft: Some(Seq::empty()), ..asked })
        } else {
            None
        },
        BlurStep::AddRectangle(rectangle) => match screen.draft {
            Some(region) => Some(BlurScreen { draft: Some(region.push(rectangle)), ..asked }),
            None => None,
        },
        BlurStep::CreateEffect => if screen.effects && screen.effect is None {
            Some(BlurScreen { effect: Some(None), ..asked })
        } else {
            None
        },
        BlurStep::SetEffectRegion => if screen.effect is Some && screen.draft is Some {
            Some(BlurScreen { effect: Some(screen.draft), ..asked })
        } else {
            None
        },
        BlurStep::ClearEffectRegion => if screen.effect is Some {
            Some(BlurScreen { effect: Some(None), ..asked })
        } else {
            None
        },
        BlurStep::DestroyEffect => if screen.effect is Some {
            Some(BlurScreen { effect: None, ..asked })
        } else {
            None
        },
        BlurStep::CreateBlur => if screen.blurs && screen.blur is None {
            Some(BlurScreen { blur: Some(None), ..asked })
        } else {
            None
        },
        BlurStep::SetBlurRegion => if screen.blur is Some && screen.draft is Some {
            Some(BlurScreen { blur: Some(screen.draft), ..asked })
        } else {
            None
        },
        BlurStep::CommitBlur => match screen.blur {
            Some(region) => Some(BlurScreen { applied: region, ..asked }),
            None => None,
        },
        BlurStep::UnsetBlur => if screen.blurs {
            Some(BlurScreen { applied: None, ..asked })
        } else {
            None
        },
        BlurStep::ReleaseBlur => if screen.blur is Some {
            Some(BlurScreen { blur: None, ..asked })
        } else {
            None
        },
        BlurStep::CommitSurface => Some(
            BlurScreen {
                shown: match screen.effect {
                    Some(Some(region)) => Some(region),
                    _ => screen.applied,
                },
                ..asked
            },
        ),
        BlurStep::DestroyRegion => if screen.kept is Some {
            Some(BlurScreen { kept: None, ..asked })
        } else {
            None
        },
        BlurStep::KeepRegion => if screen.draft is Some && screen.kept is None {
            Some(BlurScreen { draft: None, kept: screen.draft, ..screen })
        } else {
            None
        },
        BlurStep::DestroyEffectManager => if screen.effects && screen.effect is None {
            Some(BlurScreen { effects: false, ..asked })
        } else {
            None
        },
        BlurStep::Flush => Some(BlurScreen { sent: true, ..screen }),
    }
}

/// What a list of steps does, from the first one on.
pub open spec fn perform_all(screen: BlurScreen, steps: Seq<BlurStep>) -> Option<BlurScreen>
    decreases steps.len(),
{
    if steps.len() == 0 {
        Some(screen)
    } else {
        match perform_all(screen, steps.drop_last()) {
            Some(before) => perform(before, steps.last()),
            None => None,
        }
    }
}

/// A surface that nothing has been done to.
pub open spec fn fresh_screen(effects: bool, blurs: bool) -> BlurScreen {
    BlurScreen {
        effects,
        blurs,
        draft: None,
        kept: None,
        effect: None,
        blur: None,
        applied: None,
        shown: None,
        sent: true,
    }
}

/// The surface is as the state says: the objects in use are there, and the shape is what is
/// blurred.
pub open spec fn agrees(blur: KdeBlur, screen: BlurScreen) -> bool {
    &&& screen.effects == blur.ext_manager
    &&& screen.blurs == blur.legacy_manager
    &&& screen.draft is None
    &&& screen.sent
    &&& screen.kept == screen.shown
    &&& screen.effect is Some <==> blur.ext_blur
    &&& screen.blur is Some <==> blur.legacy_blur
    &&& screen.effect is Some ==> screen.effect == Some(screen.shown)
    &&& screen.applied == if blur.legacy_blur {
        screen.shown
    } else {
        None
    }
    &&& match blur.geometry {
        Some(geometry) => screen.shown == Some(
            region_of(geometry.width, geometry.height, geometry.radius),
        ),
        None => screen.shown is None,
    }
}

proof fn lemma_perform_joined(screen: BlurScreen, first: Seq<BlurStep>, second: Seq<BlurStep>)
    ensures
        perform_all(screen, first + second) == match perform_all(screen, first) {
            Some(between) => perform_all(between, second),
            None => None,
        },
    decreases second.len(),
{
    if second.len() == 0 {
        assert(first + second =~= first);
    } else {
        lemma_perform_joined(screen, first, second.drop_last());
        assert((first + second).drop_last() =~= first + second.drop_last());
    }
}

proof fn lemma_perform_one(screen: BlurScreen, step: BlurStep)
    ensures
        perform_all(screen, seq![step]) == perform(screen, step),
        perform_all(screen, Seq::empty()) == Some(screen),
{
    assert(seq![step].drop_last() =~= Seq::empty());
}

proof fn lemma_perform_two(screen: BlurScreen, first: BlurStep, second: BlurStep)
    ensures
        perform_all(screen, seq![first, second]) == match perform(screen, first) {
            Some(between) => perform(between, second),
            None => None,
        },
{
    lemma_perform_one(screen, first);
    assert(seq![first, second].drop_last() =~= seq![first]);
}

proof fn lemma_perform_three(
    screen: BlurScreen,
    first: BlurStep,
    second: BlurStep,
    third: BlurStep,
)
    ensures
        perform_all(screen, seq![first, second, third]) == match perform_all(
            screen,
            seq![first, second],
        ) {
            Some(between) => perform(between, third),
            None => None,
        },
{
    assert(seq![first, second, third].drop_last() =~= seq![first, second]);
}

proof fn lemma_perform_adds(screen: BlurScreen, region: Seq<Rectangle>)
    requires
        screen.draft == Some(Seq::<Rectangle>::empty()),
        !screen.sent,
    ensures
        perform_all(screen, add_steps(region)) == Some(
            BlurScreen { draft: Some(region), ..screen },
        ),
    decreases region.len(),
{
    if region.len() == 0 {
        assert(add_steps(region) =~= Seq::empty());
        assert(region =~= Seq::empty());
    } else {
        assert(add_steps(region).drop_last() =~= add_steps(region.drop_last()));
        lemma_perform_adds(screen, region.drop_last());
        assert(region.drop_last().push(region.last()) =~= region);
    }
}

#[verifier::spinoff_prover]
proof fn lemma_disable_shows(blur: KdeBlur, screen: BlurScreen)
    requires
        blur.wf(),
        agrees(blur, screen),
    ensures
        perform_all(screen, blur.disable_steps()) matches Some(next) && agrees(
            blur.disabled(),
            next,
        ) && next.shown is None && next.kept is None && next.effect is None && next.blur is None,
{
    let effect = if blur.ext_blur {
        seq![BlurStep::ClearEffectRegion, BlurStep::DestroyEffect, BlurStep::CommitSurface]
    } else {
        Seq::empty()
    };
    let older = if blur.legacy_blur {
        seq![BlurStep::UnsetBlur, BlurStep::ReleaseBlur, BlurStep::CommitSurface]
    } else {
        Seq::empty()
    };
    let region = step_if(blur.region, BlurStep::DestroyRegion);
    let flush = seq![BlurStep::Flush];
    lemma_perform_joined(screen, effect + older + region, flush);
    lemma_perform_joined(screen, effect + older, region);
    lemma_perform_joined(screen, effect, older);
    if blur.ext_blur {
        lemma_perform_two(screen, BlurStep::ClearEffectRegion, BlurStep::DestroyEffect);
        lemma_perform_three(
            screen,
            BlurStep::ClearEffectRegion,
            BlurStep::DestroyEffect,
            BlurStep::CommitSurface,
        );
    }
    let first = perform_all(screen, effect)->0;
    if blur.legacy_blur {
        lemma_perform_two(first, BlurStep::UnsetBlur, BlurStep::ReleaseBlur);
        lemma_perform_three(
            first,
            BlurStep::UnsetBlur,
            BlurStep::ReleaseBlur,
            BlurStep::CommitSurface,
        );
    }
    let second = perform_all(first, older)->0;
    lemma_perform_one(second, BlurStep::DestroyRegion);
    let third = perform_all(second, region)->0;
    lemma_perform_one(third, BlurStep::Flush);
}

#[verifier::spinoff_prover]
proof fn lemma_enable_shows(blur: KdeBlur, screen: BlurScreen, geometry: BlurGeometry)
    requires
        blur.wf(),
        agrees(blur, screen),
    ensures
        perform_all(screen, blur.enable_steps(geometry)) matches Some(next) && agrees(
            blur.enabled(geometry),
            next,
        ),
{
    let rectangles = region_of(geometry.width, geometry.height, geometry.radius);
    let create = seq![BlurStep::CreateRegion];
    let adds = add_steps(rectangles);
    let apply = blur.apply_steps();
    let commit = seq![BlurStep::CommitSurface];
    let region = step_if(blur.region, BlurStep::DestroyRegion);
    let keep = seq![BlurStep::KeepRegion, BlurStep::Flush];
    lemma_perform_joined(screen, create + adds + apply + commit + region, keep);
    lemma_perform_joined(screen, create + adds + apply + commit, region);
    lemma_perform_joined(screen, create + adds + apply, commit);
    lemma_perform_joined(screen, create + adds, apply);
    lemma_perform_joined(screen, create, adds);
    lemma_perform_one(screen, BlurStep::CreateRegion);
    let created = perform(screen, BlurStep::CreateRegion)->0;
    lemma_perform_adds(created, rectangles);
    let drafted = perform_all(created, adds)->0;
    lemma_apply(blur, drafted);
    let applied = perform_all(drafted, apply)->0;
    lemma_perform_one(applied, BlurStep::CommitSurface);
    let committed = perform(applied, BlurStep::CommitSurface)->0;
    lemma_perform_one(committed, BlurStep::DestroyRegion);
    let cleared = perform_all(committed, region)->0;
    lemma_perform_two(cleared, BlurStep::KeepRegion, BlurStep::Flush);
}

proof fn lemma_apply(blur: KdeBlur, screen: BlurScreen)
    requires
        blur.wf(),
        screen.effects == blur.ext_manager,
        screen.blurs == blur.legacy_manager,
        screen.draft is Some,
        screen.effect is Some <==> blur.ext_blur,
        screen.blur is Some <==> blur.legacy_blur,
        !screen.sent,
    ensures
        perform_all(screen, blur.apply_steps()) == Some(
            if blur.ext_manager {
                BlurScreen { effect: Some(screen.draft), ..screen }
            } else {
                BlurScreen { blur: Some(screen.draft), applied: screen.draft, ..screen }
            },
        ),
{
    if blur.ext_manager {
        let create = step_if(!blur.ext_blur, BlurStep::CreateEffect);
        lemma_perform_joined(screen, create, seq![BlurStep::SetEffectRegion]);
        lemma_perform_one(screen, BlurStep::CreateEffect);
        let created = perform_all(screen, create)->0;
        lemma_perform_one(created, BlurStep::SetEffectRegion);
    } else {
        let create = step_if(!blur.legacy_blur, BlurStep::CreateBlur);
        lemma_perform_joined(
            screen,
            create,
            seq![BlurStep::SetBlurRegion, BlurStep::CommitBlur],
        );
        lemma_perform_one(screen, BlurStep::CreateBlur);
        let created = perform_all(screen, create)->0;
        lemma_perform_two(created, BlurStep::SetBlurRegion, BlurStep::CommitBlur);
    }
}

/// After an update that asks for blur the compositor blurs the window, and after one that does not
/// it blurs nothing; every step can be carried out, and all of them are sent. The window is the one
/// of logical size, rounded with a radius of 8 pixels, or of half the width or height where that is
/// less, where it is asked to be rounded.
#[verifier::spinoff_prover]
#[verifier::rlimit(30)]
pub proof fn lemma_update_shows(
    blur: KdeBlur,
    screen: BlurScreen,
    enabled: bool,
    width: u32,
    height: u32,
    scale: Binary64,
    rounded: bool,
    x: int,
    y: int,
)
    requires
        blur.wf(),
        agrees(blur, screen),
        logical(width, scale) <= i32::MAX,
        logical(height, scale) <= i32::MAX,
    ensures
        ({
            let (next, steps) = blur.after_update(
                enabled,
                geometry_of(width, height, scale, rounded),
            );
            let wide = logical(width, scale) as int;
            let high = logical(height, scale) as int;
            let small = if wide < high {
                wide / 2
            } else {
                high / 2
            };
            let radius = if !rounded {
                0
            } else if small < 8 {
                small
            } else {
                8
            };
            let column = if 2 * x < wide - 1 {
                x
            } else {
                wide - 1 - x
            };
            let row = if 2 * y < high - 1 {
                y
            } else {
                high - 1 - y
            };
            let across = 2 * (radius - column);
            let along = 2 * (radius - row) - 1;
            perform_all(screen, steps) matches Some(after) && {
                &&& agrees(next, after)
                &&& after.sent
                &&& !enabled ==> after.shown is None
                &&& enabled ==> after.shown is Some && ((exists|i: int|
                    #![trigger after.shown->0[i]]
                    0 <= i < after.shown->0.len() && after.shown->0[i].x <= x < after.shown->0[i].x
                        + after.shown->0[i].width && after.shown->0[i].y <= y
                        < after.shown->0[i].y + after.shown->0[i].height) <==> (0 <= x < wide && 0
                    <= y < high && (column >= radius || row >= radius || across * across + along
                    * along <= 4 * (radius * radius))))
            }
        }),
{
    let geometry = geometry_of(width, height, scale, rounded);
    if !enabled {
        lemma_disable_shows(blur, screen);
    } else {
        if blur.shows(geometry) {
            lemma_perform_one(screen, BlurStep::DispatchPending);
        } else {
            lemma_enable_shows(blur, screen, geometry);
        }
        let (next, steps) = blur.after_update(enabled, geometry);
        let after = perform_all(screen, steps)->0;
        let region = region_of(geometry.width, geometry.height, geometry.radius);
        assert(agrees(next, after));
        let shown = after.shown->0;
        assert(shown == region);
        lemma_region_covers(geometry.width, geometry.height, geometry.radius, x, y);
        if exists|i: int|
            #![trigger region[i]]
            0 <= i < region.len() && region[i].x <= x < region[i].x + region[i].width
                && region[i].y <= y < region[i].y + region[i].height {
            let i = choose|i: int|
                #![trigger region[i]]
                0 <= i < region.len() && region[i].x <= x < region[i].x + region[i].width
                    && region[i].y <= y < region[i].y + region[i].height;
            assert(shown[i].x <= x);
        }
        if exists|i: int|
            #![trigger shown[i]]
            0 <= i < shown.len() && shown[i].x <= x < shown[i].x + shown[i].width && shown[i].y <= y
                < shown[i].y + shown[i].height {
            let i = choose|i: int|
                #![trigger shown[i]]
                0 <= i < shown.len() && shown[i].x <= x < shown[i].x + shown[i].width && shown[i].y
                    <= y < shown[i].y + shown[i].height;
            assert(region[i].x <= x);
        }
    }
}

/// A new blur agrees with a surface that nothing has been done to.
pub proof fn lemma_new_agrees(ext_manager: bool, legacy_manager: bool)
    requires
        ext_manager || legacy_manager,
    ensures
        offered(ext_manager, legacy_manager) is Some,
        agrees(offered(ext_manager, legacy_manager)->0, fresh_screen(ext_manager, legacy_manager)),
{
}

/// Giving up the surface leaves nothing blurred and no object behind.
pub proof fn lemma_close_leaves_nothing(blur: KdeBlur, screen: BlurScreen)
    requires
        blur.wf(),
        agrees(blur, screen),
    ensures
        perform_all(screen, blur.close_steps()) matches Some(after) && after.shown is None
            && after.applied is None && after.effect is None && after.blur is None
            && after.kept is None && after.draft is None && !after.effects,
{
    lemma_disable_shows(blur, screen);
    let manager = step_if(blur.ext_manager, BlurStep::DestroyEffectManager);
    lemma_perform_joined(screen, blur.disable_steps(), manager);
    let off = perform_all(screen, blur.disable_steps())->0;
    lemma_perform_one(off, BlurStep::DestroyEffectManager);
}

/// No step is spent in vain: nothing is asked for beyond what the blur needs. A shape that is shown
/// already takes one step. A new one takes a region, its rectangles, the object that blurs where
/// there is none yet, its region, and a commit of each; the region before it is given up.
pub proof fn lemma_update_is_short(state: KdeBlur, enabled: bool, geometry: BlurGeometry)
    requires
        state.wf(),
    ensures
        ({
            let steps = state.after_update(enabled, geometry).1;
            let blurred = state.ext_blur || state.legacy_blur;
            let count = region_of(geometry.width, geometry.height, geometry.radius).len();
            &&& enabled && state.geometry == Some(geometry) ==> steps
                == seq![BlurStep::DispatchPending]
            &&& enabled && state.geometry != Some(geometry) && state.ext_manager ==> steps.len()
                == count + 6
            &&& enabled && state.geometry != Some(geometry) && !state.ext_manager ==> steps.len()
                == count + 7
            &&& !enabled && blurred ==> steps.len() == 5
            &&& !enabled && !blurred ==> steps == seq![BlurStep::Flush]
            &&& state.close_steps().len() == (if blurred {
                5int
            } else {
                1
            }) + (if state.ext_manager {
                1int
            } else {
                0
            })
        }),
{
    assert(!enabled && !(state.ext_blur || state.legacy_blur) ==> state.after_update(
        enabled,
        geometry,
    ).1 =~= seq![BlurStep::Flush]);
}

} // verus!
