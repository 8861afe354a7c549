//! The walk animation of a player: which picture of the sprite sheet shows
//! after each tick of the animation timer.

use vstd::prelude::*;

verus! {

/// The number of pictures in a walk cycle.
pub const WALK_FRAMES: usize = 4;

/// Where the pictures of the walk to the right start in the sprite sheet.
pub const ANIMATION_RIGHT_INDEX: usize = 4;

/// Where the pictures of the walk to the left start in the sprite sheet.
pub const ANIMATION_LEFT_INDEX: usize = 8;

/// What the player is shown doing, and with which picture.
#[derive(Clone, Copy, Debug, PartialEq, Eq, Structural)]
pub enum PlayerAnimationState {
    /// Standing; the number is the picture's place in the sprite sheet.
    StandStill(usize),
    /// Walking to the right; the number is the picture's place in the cycle.
    WalkRight(usize),
    /// Walking to the left; the number is the picture's place in the cycle.
    WalkLeft(usize),
}

/// How the player moved along `x` since the last tick.
#[derive(Clone, Copy, Debug, PartialEq, Eq, Structural)]
pub enum Motion {
    /// Towards lesser `x`.
    Left,
    /// Not at all.
    Still,
    /// Towards greater `x`.
    Right,
    /// The difference is no number, so that it compares with nothing.
    Unknown,
}

impl PlayerAnimationState {
    /// Whether the state can be shown: a walk's picture lies in its cycle.
    pub open spec fn wf(self) -> bool {
        match self {
            PlayerAnimationState::StandStill(_) => true,
            PlayerAnimationState::WalkRight(frame) => frame < WALK_FRAMES,
            PlayerAnimationState::WalkLeft(frame) => frame < WALK_FRAMES,
        }
    }

    /// The state after a tick in which the player moved as `motion` says. A
    /// standing player starts to walk the way it moved, from the first
    /// picture of the cycle. A walking player that still moves that way
    /// takes the next picture of the cycle; otherwise it stands, facing the
    /// way it walked.
    pub open spec fn next_spec(self, motion: Motion) -> PlayerAnimationState {
        match self {
            PlayerAnimationState::StandStill(frame) => match motion {
                Motion::Left => PlayerAnimationState::WalkLeft(0),
                Motion::Right => PlayerAnimationState::WalkRight(0),
                _ => PlayerAnimationState::StandStill(frame),
            },
            PlayerAnimationState::WalkLeft(frame) => match motion {
                Motion::Still | Motion::Right => PlayerAnimationState::StandStill(
                    ANIMATION_LEFT_INDEX,
                ),
                _ => PlayerAnimationState::WalkLeft(((frame + 1) % WALK_FRAMES as int) as usize),
            },
            PlayerAnimationState::WalkRight(frame) => match motion {
                Motion::Still | Motion::Left => PlayerAnimationState::StandStill(
                    ANIMATION_RIGHT_INDEX,
                ),
                _ => PlayerAnimationState::WalkRight(((frame + 1) % WALK_FRAMES as int) as usize),
            },
        }
    }

    /// The place in the sprite sheet of the picture that shows the state.
    pub open spec fn atlas_index_spec(self) -> int {
        match self {
            PlayerAnimationState::StandStill(frame) => frame as int,
            PlayerAnimationState::WalkLeft(frame) => frame + ANIMATION_LEFT_INDEX,
            PlayerAnimationState::WalkRight(frame) => frame + ANIMATION_RIGHT_INDEX,
        }
    }

    /// Steps the animation by one tick of its timer.
    pub fn next(self, motion: Motion) -> (after: PlayerAnimationState)
        requires
            self.wf(),
        ensures
            after == self.next_spec(motion),
            after.wf(),
    {
        match self {
            PlayerAnimationState::StandStill(frame) => match motion {
                Motion::Left => PlayerAnimationState::WalkLeft(0),
                Motion::Right => PlayerAnimationState::WalkRight(0),
                _ => PlayerAnimationState::StandStill(frame),
            },
            PlayerAnimationState::WalkLeft(frame) => match motion {
                Motion::Still | Motion::Right => PlayerAnimationState::StandStill(
                    ANIMATION_LEFT_INDEX,
                ),
                _ => PlayerAnimationState::WalkLeft((frame + 1) % WALK_FRAMES),
            },
            PlayerAnimationState::WalkRight(frame) => match motion {
                Motion::Still | Motion::Left => PlayerAnimationState::StandStill(
                    ANIMATION_RIGHT_INDEX,
                ),
                _ => PlayerAnimationState::WalkRight((frame + 1) % WALK_FRAMES),
            },
        }
    }

    /// Picks the picture that shows the state.
    pub fn atlas_index(self) -> (index: usize)
        requires
            self.wf(),
        ensures
            index == self.atlas_index_spec(),
    {
        match self {
            PlayerAnimationState::StandStill(frame) => frame,
            PlayerAnimationState::WalkLeft(frame) => frame + ANIMATION_LEFT_INDEX,
            PlayerAnimationState::WalkRight(frame) => frame + ANIMATION_RIGHT_INDEX,
        }
    }
}

/// A player that walks on shows the four pictures of its cycle in turn, and
/// none outside the cycle's part of the sprite sheet.
pub proof fn lemma_walk_cycles(frame: usize)
    requires
        frame < WALK_FRAMES,
    ensures
        PlayerAnimationState::WalkRight(frame).next_spec(Motion::Right).next_spec(
            Motion::Right,
        ).next_spec(Motion::Right).next_spec(Motion::Right) == PlayerAnimationState::WalkRight(frame),
        PlayerAnimationState::WalkLeft(frame).next_spec(Motion::Left).next_spec(
            Motion::Left,
        ).next_spec(Motion::Left).next_spec(Motion::Left) == PlayerAnimationState::WalkLeft(frame),
        ANIMATION_RIGHT_INDEX <= PlayerAnimationState::WalkRight(frame).atlas_index_spec()
            < ANIMATION_LEFT_INDEX,
        ANIMATION_LEFT_INDEX <= PlayerAnimationState::WalkLeft(frame).atlas_index_spec()
            < ANIMATION_LEFT_INDEX + WALK_FRAMES,
{
}

} // verus!
