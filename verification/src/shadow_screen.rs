//! What the steps of the shadow do to a surface.
//!
//! The model follows the protocol: a shadow is given a buffer for each piece and an offset for each
//! side, which count once it is committed and are shown once the surface is. A step that uses an
//! object that is not there has no outcome, nor has one that destroys a buffer that is shown.

use vstd::prelude::*;

#[allow(unused_imports)]
use crate::kde_shadow::{
    attach_steps, destroy_steps, show_steps, standard_geometry, KdeShadow, Piece, ShadowStep, Side,
    PIECES,
};
#[allow(unused_imports)]
use crate::steps::step_if;

verus! {

/// Which buffer each piece shows, and how far the shadow reaches out from each side.
pub struct ShadowLook {
    pub pieces: Map<Piece, usize>,
    pub offsets: Map<Side, u32>,
}

/// A surface, and the objects that give it a shadow.
pub struct ShadowScreen {
    /// The manager of shadows, and its version.
    pub manager: Option<u32>,
    /// The buffers that exist.
    pub buffers: Set<usize>,
    /// The shadow, and what it was given.
    pub shadow: Option<ShadowLook>,
    /// What was committed of the shadow.
    pub committed: Option<ShadowLook>,
    /// What is shown since the surface was last committed.
    pub shown: Option<ShadowLook>,
    /// All of it was sent to the compositor.
    pub sent: bool,
}

/// A shadow that was given nothing yet.
pub open spec fn bare_look() -> ShadowLook {
    ShadowLook { pieces: Map::empty(), offsets: Map::empty() }
}

/// What a step does; nothing where it cannot be carried out.
pub open spec fn perform(screen: ShadowScreen, step: ShadowStep) -> Option<ShadowScreen> {
    let asked = ShadowScreen { sent: false, ..screen };
    match step {
        ShadowStep::DispatchPending => Some(screen),
        ShadowStep::CreateShadow => if screen.manager is Some && screen.shadow is None {
            Some(ShadowScreen { shadow: Some(bare_look()), ..asked })
        } else {
            None
        },
        ShadowStep::Attach { piece, buffer } => match screen.shadow {
            Some(look) => if screen.buffers.contains(buffer) {
                Some(
                    ShadowScreen {
                        shadow: Some(
                            ShadowLook { pieces: look.pieces.insert(piece, buffer), ..look },
                        ),
                        ..asked
                    },
                )
            } else {
                None
            },
            None => None,
        },
        ShadowStep::SetOffset { side, offset } => match screen.shadow {
            Some(look) => Some(
                ShadowScreen {
                    shadow: Some(
                        ShadowLook { offsets: look.offsets.insert(side, offset), ..look },
                    ),
                    ..asked
                },
            ),
            None => None,
        },
        ShadowStep::CommitShadow => if screen.shadow is Some {
            Some(ShadowScreen { committed: screen.shadow, ..asked })
        } else {
            None
        },
        ShadowStep::UnsetShadow => if screen.manager is Some {
            Some(ShadowScreen { committed: None, ..asked })
        } else {
            None
        },
        ShadowStep::DestroyShadow => if screen.shadow is Some {
            Some(ShadowScreen { shadow: None, ..asked })
        } else {
            None
        },
        ShadowStep::CommitSurface => Some(ShadowScreen { shown: screen.committed, ..asked }),
        ShadowStep::DestroyBuffer { buffer } => if screen.buffers.contains(buffer)
            && screen.shown is None && screen.shadow is None {
            Some(ShadowScreen { buffers: screen.buffers.remove(buffer), ..asked })
        } else {
            None
        },
        ShadowStep::DestroyManager => match screen.manager {
            Some(version) => if version >= 2 {
                Some(ShadowScreen { manager: None, ..asked })
            } else {
                None
            },
            None => None,
        },
        ShadowStep::Flush => Some(ShadowScreen { sent: true, ..screen }),
    }
}

/// What a list of steps does, from the first one on.
pub open spec fn perform_all(screen: ShadowScreen, steps: Seq<ShadowStep>) -> Option<ShadowScreen>
    decreases steps.len(),
{
    if steps.len() == 0 {
        Some(screen)
    } else {
        match perform_all(screen, steps.drop_last()) {
            Some(before) => perform(before, steps.last()),
            None => None,
        }
    }
}

/// The look of the window's shadow: each piece shows the buffer that holds it, counted clockwise
/// from the left side, and the shadow reaches out 65 pixels to the left and the right, 53 to the
/// top and 77 to the bottom.
pub open spec fn is_window_shadow(look: ShadowLook) -> bool {
    &&& look.pieces[Piece::Left] == 0 && look.pieces.contains_key(Piece::Left)
    &&& look.pieces[Piece::TopLeft] == 1 && look.pieces.contains_key(Piece::TopLeft)
    &&& look.pieces[Piece::Top] == 2 && look.pieces.contains_key(Piece::Top)
    &&& look.pieces[Piece::TopRight] == 3 && look.pieces.contains_key(Piece::TopRight)
    &&& look.pieces[Piece::Right] == 4 && look.pieces.contains_key(Piece::Right)
    &&& look.pieces[Piece::BottomRight] == 5 && look.pieces.contains_key(Piece::BottomRight)
    &&& look.pieces[Piece::Bottom] == 6 && look.pieces.contains_key(Piece::Bottom)
    &&& look.pieces[Piece::BottomLeft] == 7 && look.pieces.contains_key(Piece::BottomLeft)
    &&& look.offsets[Side::Left] == 65 && look.offsets.contains_key(Side::Left)
    &&& look.offsets[Side::Top] == 53 && look.offsets.contains_key(Side::Top)
    &&& look.offsets[Side::Right] == 65 && look.offsets.contains_key(Side::Right)
    &&& look.offsets[Side::Bottom] == 77 && look.offsets.contains_key(Side::Bottom)
}

/// The eight buffers.
pub open spec fn all_buffers() -> Set<usize> {
    Set::new(|buffer: usize| buffer < 8)
}

/// A surface that nothing has been done to, and eight buffers.
pub open spec fn fresh_screen(version: u32) -> ShadowScreen {
    ShadowScreen {
        manager: Some(version),
        buffers: all_buffers(),
        shadow: None,
        committed: None,
        shown: None,
        sent: true,
    }
}

/// The surface is as the state says: where the shadow is on, the window's shadow is shown, else
/// none.
pub open spec fn agrees(state: KdeShadow, screen: ShadowScreen) -> bool {
    &&& screen.manager == Some(state.manager_version)
    &&& screen.buffers == all_buffers()
    &&& screen.sent
    &&& screen.shadow is Some <==> state.shadow
    &&& screen.committed == screen.shown
    &&& screen.shown is Some <==> state.enabled
    &&& state.enabled ==> is_window_shadow(screen.shown->0)
}

proof fn lemma_perform_joined(screen: ShadowScreen, first: Seq<ShadowStep>, second: Seq<ShadowStep>)
    ensures
        perform_all(screen, first + second) == match perform_all(screen, first) {
            Some(between) => perform_all(between, second),
            None => None,
        },
    decreases second.len(),
{
    if second.len() == 0 {
        assert(first + second =~= first);
    } else {
        lemma_perform_joined(screen, first, second.drop_last());
        assert((first + second).drop_last() =~= first + second.drop_last());
    }
}

proof fn lemma_perform_one(screen: ShadowScreen, step: ShadowStep)
    ensures
        perform_all(screen, seq![step]) == perform(screen, step),
        perform_all(screen, Seq::empty()) == Some(screen),
{
    assert(seq![step].drop_last() =~= Seq::empty());
}

proof fn lemma_perform_two(screen: ShadowScreen, first: ShadowStep, second: ShadowStep)
    ensures
        perform_all(screen, seq![first, second]) == match perform(screen, first) {
            Some(between) => perform(between, second),
            None => None,
        },
{
    lemma_perform_one(screen, first);
    assert(seq![first, second].drop_last() =~= seq![first]);
}

proof fn lemma_perform_next(screen: ShadowScreen, steps: Seq<ShadowStep>, count: int)
    requires
        0 < count <= steps.len(),
    ensures
        perform_all(screen, steps.take(count)) == match perform_all(
            screen,
            steps.take(count - 1),
        ) {
            Some(before) => perform(before, steps[count - 1]),
            None => None,
        },
        perform_all(screen, steps.take(0)) == Some(screen),
{
    assert(steps.take(count).drop_last() =~= steps.take(count - 1));
}

#[verifier::spinoff_prover]
#[verifier::rlimit(30)]
proof fn lemma_attach_gives(screen: ShadowScreen)
    requires
        screen.manager is Some,
        screen.shadow is None,
        screen.buffers == all_buffers(),
    ensures
        perform_all(screen, attach_steps(standard_geometry())) matches Some(next) && next.manager
            == screen.manager && next.buffers == screen.buffers && next.shown == screen.shown
            && next.shadow is Some && next.committed == next.shadow && is_window_shadow(
            next.shadow->0,
        ),
{
    let steps = attach_steps(standard_geometry());
    lemma_perform_next(screen, steps, 1);
    lemma_perform_next(screen, steps, 2);
    lemma_perform_next(screen, steps, 3);
    lemma_perform_next(screen, steps, 4);
    lemma_perform_next(screen, steps, 5);
    lemma_perform_next(screen, steps, 6);
    lemma_perform_next(screen, steps, 7);
    lemma_perform_next(screen, steps, 8);
    lemma_perform_next(screen, steps, 9);
    lemma_perform_next(screen, steps, 10);
    lemma_perform_next(screen, steps, 11);
    lemma_perform_next(screen, steps, 12);
    lemma_perform_next(screen, steps, 13);
    lemma_perform_next(screen, steps, 14);
    assert(steps.take(14) =~= steps);
}

proof fn lemma_attach_shows(screen: ShadowScreen)
    requires
        screen.manager is Some,
        screen.shadow is None,
        screen.buffers == all_buffers(),
    ensures
        perform_all(screen, attach_steps(standard_geometry()) + show_steps()) matches Some(next)
            && next.manager == screen.manager && next.buffers == screen.buffers
            && next.shadow is Some && next.committed == next.shadow && next.shown == next.shadow
            && next.sent && is_window_shadow(next.shown->0),
{
    lemma_attach_gives(screen);
    let attached = perform_all(screen, attach_steps(standard_geometry()))->0;
    lemma_perform_joined(screen, attach_steps(standard_geometry()), show_steps());
    lemma_perform_two(attached, ShadowStep::CommitSurface, ShadowStep::Flush);
}

/// A new shadow shows the window's shadow: every step can be carried out, and all are sent.
pub proof fn lemma_new_shows(version: u32)
    ensures
        perform_all(
            fresh_screen(version),
            attach_steps(standard_geometry()) + show_steps(),
        ) matches Some(after) && agrees(
            KdeShadow { manager_version: version, shadow: true, enabled: true },
            after,
        ),
{
    lemma_attach_shows(fresh_screen(version));
}

/// After an update that asks for a shadow the window's shadow is shown, and after one that does not
/// none is; every step can be carried out, and all of them are sent.
pub proof fn lemma_update_shows(state: KdeShadow, screen: ShadowScreen, enabled: bool)
    requires
        state.wf(),
        agrees(state, screen),
    ensures
        ({
            let (next, steps) = state.after_update(enabled);
            perform_all(screen, steps) matches Some(after) && {
                &&& agrees(next, after)
                &&& next.enabled == enabled
                &&& next.manager_version == state.manager_version
                &&& after.sent
                &&& after.shown is Some <==> enabled
                &&& enabled ==> is_window_shadow(after.shown->0)
            }
        }),
{
    if enabled == state.enabled {
        lemma_perform_one(screen, ShadowStep::DispatchPending);
    } else if enabled {
        lemma_attach_shows(screen);
    } else {
        let unset = seq![ShadowStep::UnsetShadow];
        let destroy = step_if(state.shadow, ShadowStep::DestroyShadow);
        lemma_perform_joined(screen, unset + destroy, show_steps());
        lemma_perform_joined(screen, unset, destroy);
        lemma_perform_one(screen, ShadowStep::UnsetShadow);
        let off = perform(screen, ShadowStep::UnsetShadow)->0;
        lemma_perform_one(off, ShadowStep::DestroyShadow);
        let gone = perform_all(off, destroy)->0;
        lemma_perform_two(gone, ShadowStep::CommitSurface, ShadowStep::Flush);
    }
}

proof fn lemma_destroy(screen: ShadowScreen, count: nat)
    requires
        screen.buffers == all_buffers(),
        screen.shown is None,
        screen.shadow is None,
        !screen.sent,
        count <= 8,
    ensures
        perform_all(screen, destroy_steps(count)) matches Some(next) && next == (ShadowScreen {
            buffers: Set::new(|buffer: usize| count <= buffer < 8),
            ..screen
        }),
    decreases count,
{
    if count == 0 {
        assert(destroy_steps(0) =~= Seq::empty());
        assert(all_buffers() =~= Set::new(|buffer: usize| 0 <= buffer < 8));
    } else {
        let before = (count - 1) as nat;
        assert(destroy_steps(count).drop_last() =~= destroy_steps(before));
        lemma_destroy(screen, before);
        let left = Set::new(|buffer: usize| before <= buffer < 8);
        assert(left.remove(before as usize) =~= Set::new(|buffer: usize| count <= buffer < 8));
    }
}

/// Giving up the surface leaves no shadow, no buffer and nothing shown, and no manager where its
/// version has a way to destroy it. A buffer goes only once it is not shown any more.
#[verifier::spinoff_prover]
#[verifier::rlimit(30)]
pub proof fn lemma_close_leaves_nothing(state: KdeShadow, screen: ShadowScreen)
    requires
        state.wf(),
        agrees(state, screen),
    ensures
        perform_all(screen, state.close_steps()) matches Some(after) && after.shown is None
            && after.shadow is None && after.committed is None && after.buffers == Set::<
            usize,
        >::empty() && after.sent && (after.manager is None <==> state.manager_version >= 2),
{
    let unset = seq![ShadowStep::UnsetShadow, ShadowStep::CommitSurface];
    let destroy = step_if(state.shadow, ShadowStep::DestroyShadow);
    let buffers = destroy_steps(PIECES as nat);
    let manager = step_if(state.manager_version >= 2, ShadowStep::DestroyManager);
    let flush = seq![ShadowStep::Flush];
    lemma_perform_joined(screen, unset + destroy + buffers + manager, flush);
    lemma_perform_joined(screen, unset + destroy + buffers, manager);
    lemma_perform_joined(screen, unset + destroy, buffers);
    lemma_perform_joined(screen, unset, destroy);
    lemma_perform_two(screen, ShadowStep::UnsetShadow, ShadowStep::CommitSurface);
    let off = perform_all(screen, unset)->0;
    lemma_perform_one(off, ShadowStep::DestroyShadow);
    let gone = perform_all(off, destroy)->0;
    lemma_destroy(gone, PIECES as nat);
    let freed = perform_all(gone, buffers)->0;
    assert(freed.buffers =~= Set::empty());
    lemma_perform_one(freed, ShadowStep::DestroyManager);
    let last = perform_all(freed, manager)->0;
    lemma_perform_one(last, ShadowStep::Flush);
}

/// No step is spent in vain: an update that changes nothing takes one step, one that puts the
/// shadow on sixteen, one that takes it off four. Giving up the surface takes eight for the buffers
/// and as many more as there are objects to take off, commit, destroy and send.
pub proof fn lemma_steps_are_few(state: KdeShadow, enabled: bool)
    requires
        state.wf(),
    ensures
        ({
            let steps = state.after_update(enabled).1;
            &&& enabled == state.enabled ==> steps == seq![ShadowStep::DispatchPending]
            &&& enabled && !state.enabled ==> steps.len() == 16
            &&& !enabled && state.enabled ==> steps.len() == 4
            &&& (attach_steps(standard_geometry()) + show_steps()).len() == 16
            &&& state.close_steps().len() == 11 + (if state.enabled {
                1int
            } else {
                0
            }) + (if state.manager_version >= 2 {
                1int
            } else {
                0
            })
        }),
{
}

} // verus!
