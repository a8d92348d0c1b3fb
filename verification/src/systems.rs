use vstd::prelude::*;
use crate::controller::PlayerMovement;

verus! {

/// Number of frames after touching the ground during which the player may still jump.
pub const GROUND_TIME: u32 = 20;

/// Frames left during which the entity counts as standing on the ground.
#[derive(Clone, Copy, Debug, PartialEq, Eq, Structural)]
pub struct Grounded(pub u32);

impl Grounded {
    /// Landing on something: the ground timer is reset to `GROUND_TIME`.
    pub fn land(&mut self)
        ensures
            final(self).0 == GROUND_TIME,
    {
        self.0 = GROUND_TIME;
    }

    /// One frame passes: the timer counts down and stops at zero.
    pub fn tick(&mut self)
        ensures
            final(self).0 == if old(self).0 == 0 { 0 } else { (old(self).0 - 1) as u32 },
            final(self).0 == ticked(old(self).0, 1),
    {
        assert(ticked(self.0, 0) == self.0);
        if self.0 != 0 {
            self.0 -= 1;
        }
    }
}

/// The ground timer after `n` frames of `tick` from `t`.
pub open spec fn ticked(t: u32, n: nat) -> u32
    decreases n,
{
    if n == 0 {
        t
    } else {
        let before = ticked(t, (n - 1) as nat);
        if before == 0 {
            0
        } else {
            (before - 1) as u32
        }
    }
}

/// The ground timer runs out exactly: `n` ticks take `t` down to `t - n`, and to zero once
/// `n` reaches `t`; so after landing the player may jump for `GROUND_TIME` frames.
pub proof fn lemma_ground_timer_runs_out(t: u32, n: nat)
    ensures
        n <= t ==> ticked(t, n) == t - n,
        n >= t ==> ticked(t, n) == 0,
    decreases n,
{
    if n > 0 {
        lemma_ground_timer_runs_out(t, (n - 1) as nat);
    }
}

/// Where the player's horizontal speed is set.
#[derive(Clone, Copy, Debug, PartialEq, Eq, Structural)]
pub enum Stride {
    Left,
    Right,
    Still,
}

/// What the player-movement system does to a player's velocity this frame.
#[derive(Clone, Copy, Debug, PartialEq, Eq, Structural)]
pub struct MoveCommand {
    pub stride: Stride,
    pub jump: bool,
}

/// The command for a player with the given movement state and ground timer: right wins
/// over left, no direction stops, and a jump happens only while the timer runs.
pub open spec fn spec_move_command(movement: PlayerMovement, grounded: Grounded) -> MoveCommand {
    MoveCommand {
        stride: if movement.right {
            Stride::Right
        } else if movement.left {
            Stride::Left
        } else {
            Stride::Still
        },
        jump: movement.jumping && grounded.0 > 0,
    }
}

/// The player-movement system's decision for one player.
pub fn move_command(movement: &PlayerMovement, grounded: &Grounded) -> (cmd: MoveCommand)
    ensures
        cmd == spec_move_command(*movement, *grounded),
{
    let mut stride = Stride::Still;
    if movement.left {
        stride = Stride::Left;
    }
    if movement.right {
        stride = Stride::Right;
    }
    MoveCommand { stride, jump: movement.jumping && grounded.0 > 0 }
}

/// The player jumps exactly when it holds the jump key while the ground timer runs: never
/// without the key, never once the timer is out, and within `GROUND_TIME` frames of landing
/// whenever the key is held. It strides right whenever right is held, left when only left
/// is, and stands still when neither is.
pub proof fn lemma_move_command(movement: PlayerMovement, grounded: Grounded, n: nat)
    ensures
        spec_move_command(movement, grounded).jump ==> movement.jumping,
        spec_move_command(movement, grounded).jump ==> grounded.0 > 0,
        movement.jumping && grounded.0 > 0 ==> spec_move_command(movement, grounded).jump,
        movement.jumping && n < GROUND_TIME ==> spec_move_command(
            movement,
            Grounded(ticked(GROUND_TIME, n)),
        ).jump,
        n >= GROUND_TIME ==> !spec_move_command(movement, Grounded(ticked(GROUND_TIME, n))).jump,
        (spec_move_command(movement, grounded).stride == Stride::Right) == movement.right,
        (spec_move_command(movement, grounded).stride == Stride::Left) == (movement.left
            && !movement.right),
        (spec_move_command(movement, grounded).stride == Stride::Still) == (!movement.left
            && !movement.right),
{
    lemma_ground_timer_runs_out(GROUND_TIME, n);
}

} // verus!
