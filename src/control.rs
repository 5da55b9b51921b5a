//! Gameplay decisions drawn from the sensors: climbing, jumping, and
//! reaching the chest.

use crate::sensor::OverlapEvent;
use vstd::prelude::*;

verus! {

/// What the avatar does this tick.
#[derive(Clone, Copy, Debug, PartialEq, Eq, Structural)]
pub struct ClimbStep {
    /// It holds on to a climbable.
    pub climbing: bool,
    /// It jumps (and so lets go).
    pub jump: bool,
}

/// One tick of the climbing rules. Away from anything climbable the avatar
/// lets go; next to a climbable, pressing up or down grabs it. A jump is
/// allowed on the ground or while climbing, and ends the climb.
pub fn climb_step(
    climbing: bool,
    climbable_nearby: bool,
    up_or_down_pressed: bool,
    jump_pressed: bool,
    on_ground: bool,
) -> (s: ClimbStep)
    ensures
        ({
            let holding = climbable_nearby && (up_or_down_pressed || climbing);
            &&& s.jump == (jump_pressed && (on_ground || holding))
            &&& s.climbing == (holding && !s.jump)
        }),
{
    let holding = if !climbable_nearby {
        false
    } else if up_or_down_pressed {
        true
    } else {
        climbing
    };
    let jump = jump_pressed && (on_ground || holding);
    ClimbStep { climbing: holding && !jump, jump }
}

/// Whether the event is the player starting to touch the chest, which wins
/// the level.
pub fn reaches_chest(ev: &OverlapEvent, player: u64, chest: u64) -> (r: bool)
    ensures
        r == (ev.started && ((ev.a == player && ev.b == chest) || (ev.a == chest && ev.b
            == player))),
{
    ev.started && ((ev.a == player && ev.b == chest) || (ev.a == chest && ev.b == player))
}

} // verus!
