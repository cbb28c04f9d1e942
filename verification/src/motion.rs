//! The circular motion of the player's record: the captured circle, the
//! phase that advances with every step, and the write of each new point.

use vstd::prelude::*;
use crate::entity::{same_links, with_position, Entity, EntityList, Slot};

verus! {

/// Steps in one full turn; the phase wraps here.
pub const STEPS_PER_TURN: u32 = 360;

/// Milliseconds that one full turn takes.
pub const TURN_MILLIS: u64 = 3000;

/// Milliseconds to pause between two steps: the turn's duration spread over
/// its steps, rounded down.
pub const PAUSE_MILLIS: u64 = TURN_MILLIS / 360;

/// Bit pattern of the circle's radius: 100.0 as a 32-bit float.
pub const RADIUS_BITS: u32 = 0x42c8_0000;

/// Bit pattern of the angle covered by one step: 0.01745 as a 32-bit float.
pub const STEP_ANGLE_BITS: u32 = 0x3c8e_f34d;

/// The circle to trace, fixed when the motion starts. All three fields are
/// bit patterns of 32-bit floats.
#[derive(Clone, Copy, Debug, PartialEq, Eq, Structural)]
pub struct PlayerCircle {
    pub origin_x: u32,
    pub origin_y: u32,
    pub radius: u32,
}

/// The phase reached from phase `p` after `n` more steps.
pub open spec fn phase_after(p: int, n: int) -> int {
    (p + n) % (STEPS_PER_TURN as int)
}

/// Steps add up, and a full turn of steps leads back to the same phase.
pub proof fn lemma_phase_wraps(p: int, a: int, b: int)
    requires
        0 <= p < STEPS_PER_TURN,
        0 <= a,
        0 <= b,
    ensures
        0 <= phase_after(p, a) < STEPS_PER_TURN,
        phase_after(phase_after(p, a), b) == phase_after(p, a + b),
        phase_after(p, STEPS_PER_TURN as int) == p,
        phase_after(p, 0) == p,
{
    assert(((p + a) % 360 + b) % 360 == (p + a + b) % 360) by (nonlinear_arith)
        requires
            0 <= p,
            0 <= a,
            0 <= b,
    ;
}

/// A motion in progress: the circle, the record that is moved, and the phase
/// of the next step.
#[derive(Debug)]
pub struct MotionController {
    pub circle: PlayerCircle,
    pub player: usize,
    pub phase: u32,
}

impl MotionController {
    /// The phase stays below a full turn.
    pub open spec fn well_formed(self) -> bool {
        self.phase < STEPS_PER_TURN
    }

    /// Captures the player's record and its position as the circle's origin.
    pub fn start(list: &EntityList) -> (r: MotionController)
        requires
            list.well_formed(),
        ensures
            r.well_formed(),
            r.phase == 0,
            r.player == list.player_slot(),
            r.player < list.slots@.len(),
            r.circle == (PlayerCircle {
                origin_x: list.slots@[list.player_slot()].entity.x_bits,
                origin_y: list.slots@[list.player_slot()].entity.y_bits,
                radius: RADIUS_BITS,
            }),
    {
        let player = list.locate_player();
        let e: Entity = list.slots[player].entity;
        MotionController {
            circle: PlayerCircle { origin_x: e.x_bits, origin_y: e.y_bits, radius: RADIUS_BITS },
            player,
            phase: 0,
        }
    }

    /// One step: `point` gives the coordinates for the current phase, they are
    /// written to the captured record, whatever it holds by now, and the phase
    /// moves on. Nothing else in the list changes.
    pub fn tick<F: Fn(PlayerCircle, u32) -> (u32, u32)>(&mut self, list: &mut EntityList, point: F)
        requires
            old(self).well_formed(),
            old(self).player < old(list).slots@.len(),
            forall|c: PlayerCircle, p: u32| p < STEPS_PER_TURN ==> #[trigger] point.requires((c, p)),
        ensures
            final(self).well_formed(),
            final(self).circle == old(self).circle,
            final(self).player == old(self).player,
            final(self).phase == phase_after(old(self).phase as int, 1),
            final(list).root == old(list).root,
            final(list).slots@.len() == old(list).slots@.len(),
            same_links(old(list).slots@, final(list).slots@),
            forall|i: int|
                0 <= i < old(list).slots@.len() && i != old(self).player ==> final(list).slots@[i]
                    == old(list).slots@[i],
            final(list).slots@[old(self).player as int].address == old(list).slots@[old(
                self,
            ).player as int].address,
            final(list).slots@[old(self).player as int].entity == with_position(
                old(list).slots@[old(self).player as int].entity,
                final(list).slots@[old(self).player as int].entity.x_bits,
                final(list).slots@[old(self).player as int].entity.y_bits,
            ),
            point.ensures(
                (old(self).circle, old(self).phase),
                (
                    final(list).slots@[old(self).player as int].entity.x_bits,
                    final(list).slots@[old(self).player as int].entity.y_bits,
                ),
            ),
    {
        let (x, y) = point(self.circle, self.phase);
        let slot: Slot = list.slots[self.player];
        let mut entity: Entity = slot.entity;
        entity.x_bits = x;
        entity.y_bits = y;
        list.slots.set(self.player, Slot { address: slot.address, entity });
        self.phase = if self.phase + 1 == STEPS_PER_TURN {
            0
        } else {
            self.phase + 1
        };
    }
}

} // verus!
