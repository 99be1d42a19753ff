//! Which pattern the sequencer plays for the current parameter values.
use vstd::prelude::*;
use crate::euclid::{bjorklund, euclidean_pattern, rotate, rotated};
use crate::laws::{euclidean_length_and_density, hits, rotation_full_cycle, rotation_keeps_density};

verus! {

/// The pattern played for the given parameters: the custom pattern while
/// the user's hand edits are in force, otherwise the Euclidean pattern for
/// `steps` steps with the pulses clamped to the steps, rotated by `rotation`.
pub open spec fn played_pattern(
    pulses: nat,
    steps: nat,
    rotation: nat,
    custom_pattern_mode: bool,
    custom_pattern: Seq<bool>,
) -> Seq<bool> {
    if custom_pattern_mode {
        custom_pattern
    } else {
        rotated(euclidean_pattern(if pulses < steps { pulses } else { steps }, steps), rotation)
    }
}

/// Recalculate the pattern to play: the custom pattern when the user has
/// toggled steps by hand, else the Euclidean pattern for the pulse, step
/// and rotation parameters, with the pulses never exceeding the steps.
pub fn playback_pattern(
    pulses: usize,
    steps: usize,
    rotation: usize,
    custom_pattern_mode: bool,
    custom_pattern: &Vec<bool>,
) -> (pattern: Vec<bool>)
    ensures
        pattern@ == played_pattern(
            pulses as nat,
            steps as nat,
            rotation as nat,
            custom_pattern_mode,
            custom_pattern@,
        ),
{
    if custom_pattern_mode {
        let pattern = custom_pattern.clone();
        assert(pattern@ =~= custom_pattern@);
        pattern
    } else {
        let clamped = if pulses < steps {
            pulses
        } else {
            steps
        };
        let pat = bjorklund(clamped, steps);
        rotate(pat.as_slice(), rotation)
    }
}

/// Unless the user's hand edits are in force, the played pattern has one
/// entry per step and as many hits as pulses, the pulses being clamped so
/// that they never exceed the steps, whatever the rotation.
pub proof fn played_pattern_density(pulses: nat, steps: nat, rotation: nat, custom_pattern: Seq<bool>)
    ensures
        played_pattern(pulses, steps, rotation, false, custom_pattern).len() == steps,
        hits(played_pattern(pulses, steps, rotation, false, custom_pattern)) == if pulses
            < steps {
            pulses
        } else {
            steps
        },
{
    let clamped = if pulses < steps { pulses } else { steps };
    euclidean_length_and_density(clamped, steps);
    rotation_keeps_density(euclidean_pattern(clamped, steps), rotation);
}

/// While the user's hand edits are in force, the played pattern is the
/// custom pattern exactly as edited, whatever the pulses, steps and rotation.
pub proof fn custom_pattern_played_as_is(
    pulses: nat,
    steps: nat,
    rotation: nat,
    custom_pattern: Seq<bool>,
)
    ensures
        played_pattern(pulses, steps, rotation, true, custom_pattern) == custom_pattern,
{
}

/// Outside custom mode the rotation turns the pattern round the cycle: with
/// rotation 0 the played pattern is E(min(pulses, steps), steps); with
/// rotation `r`, step `i` plays what step `(i + r) mod steps` plays with
/// rotation 0, so a rotation of `steps` or more wraps round modulo `steps`.
pub proof fn rotation_parameter_wraps(
    pulses: nat,
    steps: nat,
    rotation: nat,
    custom_pattern: Seq<bool>,
)
    requires
        steps > 0,
    ensures
        played_pattern(pulses, steps, 0, false, custom_pattern) == euclidean_pattern(
            if pulses < steps { pulses } else { steps },
            steps,
        ),
        played_pattern(pulses, steps, rotation, false, custom_pattern).len() == steps,
        forall|i: int|
            0 <= i < steps ==> #[trigger] played_pattern(
                pulses,
                steps,
                rotation,
                false,
                custom_pattern,
            )[i] == played_pattern(pulses, steps, 0, false, custom_pattern)[(i + rotation)
                % (steps as int)],
        played_pattern(pulses, steps, rotation, false, custom_pattern) == played_pattern(
            pulses,
            steps,
            rotation % steps,
            false,
            custom_pattern,
        ),
{
    let clamped = if pulses < steps { pulses } else { steps };
    let e = euclidean_pattern(clamped, steps);
    euclidean_length_and_density(clamped, steps);
    rotation_full_cycle(e, 0);
    assert(0 * e.len() == 0);
    let turned = rotated(e, rotation);
    let wrapped = rotated(e, rotation % steps);
    assert forall|i: int| 0 <= i < steps implies #[trigger] turned[i] == wrapped[i] by {
        vstd::arithmetic::div_mod::lemma_add_mod_noop_right(i, rotation as int, steps as int);
    }
    assert(turned =~= wrapped);
}

} // verus!
