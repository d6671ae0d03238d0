//! Counting what a list of steps does.

use vstd::prelude::*;

verus! {

/// The step alone where the condition holds, else nothing.
pub open spec fn step_if<S>(condition: bool, step: S) -> Seq<S> {
    if condition {
        seq![step]
    } else {
        Seq::empty()
    }
}

/// How often a step occurs.
pub open spec fn occurrences<S>(steps: Seq<S>, step: S) -> nat
    decreases steps.len(),
{
    if steps.len() == 0 {
        0
    } else {
        occurrences(steps.drop_last(), step) + if steps.last() == step {
            1nat
        } else {
            0nat
        }
    }
}

/// One for true, zero for false.
pub open spec fn one_if(condition: bool) -> int {
    if condition {
        1
    } else {
        0
    }
}

/// Two lists one after the other hold what each of them holds.
pub proof fn lemma_occurrences_joined<S>(first: Seq<S>, second: Seq<S>, step: S)
    ensures
        occurrences(first + second, step) == occurrences(first, step) + occurrences(second, step),
    decreases second.len(),
{
    if second.len() == 0 {
        assert(first + second =~= first);
    } else {
        lemma_occurrences_joined(first, second.drop_last(), step);
        assert((first + second).drop_last() =~= first + second.drop_last());
    }
}

/// A short list, step by step.
pub proof fn lemma_occurrences_short<S>(steps: Seq<S>, step: S)
    requires
        steps.len() <= 3,
    ensures
        steps.len() == 0 ==> occurrences(steps, step) == 0,
        steps.len() == 1 ==> occurrences(steps, step) == one_if(steps[0] == step),
        steps.len() == 2 ==> occurrences(steps, step) == one_if(steps[0] == step) + one_if(
            steps[1] == step,
        ),
        steps.len() == 3 ==> occurrences(steps, step) == one_if(steps[0] == step) + one_if(
            steps[1] == step,
        ) + one_if(steps[2] == step),
{
    reveal_with_fuel(occurrences, 4);
}

/// A step that is not in a list occurs in it zero times.
pub proof fn lemma_occurrences_absent<S>(steps: Seq<S>, step: S)
    requires
        forall|i: int| 0 <= i < steps.len() ==> steps[i] != step,
    ensures
        occurrences(steps, step) == 0,
    decreases steps.len(),
{
    if steps.len() > 0 {
        lemma_occurrences_absent(steps.drop_last(), step);
    }
}

} // verus!
