//! Decisions taken on keyboard input.

use vstd::prelude::*;
use crate::gamestate::InGameState;

verus! {

/// The keys that are held down.
#[derive(Clone, Copy, Debug, PartialEq, Eq, Structural)]
pub struct KeyState {
    /// W
    pub up: bool,
    /// A
    pub left: bool,
    /// S
    pub down: bool,
    /// D
    pub right: bool,
    /// Delete: leave the game.
    pub delete: bool,
    /// Escape: pause or resume.
    pub escape: bool,
}

/// A request to pause or to resume the game.
#[derive(Clone, Copy, Debug, PartialEq, Eq, Structural)]
pub enum PauseRequest {
    Pause,
    ExitPause,
}

/// What the keyboard asks for in one frame.
#[derive(Clone, Copy, Debug, PartialEq, Eq, Structural)]
pub struct KeyboardOutcome {
    /// Movement direction before normalisation, to the right.
    pub dx: i8,
    /// Movement direction before normalisation, downwards.
    pub dy: i8,
    pub exit_requested: bool,
    pub pause: Option<PauseRequest>,
    /// Whether escape is held, for the next frame.
    pub escape_was_pressed: bool,
}

/// A key that is held now and was not held before.
pub open spec fn rising_edge(pressed: bool, was_pressed: bool) -> bool {
    pressed && !was_pressed
}

/// The contribution of a pair of opposite keys: -1, 0 or 1.
pub open spec fn axis(negative: bool, positive: bool) -> int {
    (if positive {
        1int
    } else {
        0int
    }) - (if negative {
        1int
    } else {
        0int
    })
}

/// Law: a pair of opposite keys moves one step towards the key held alone,
/// and not at all when both or neither are held.
pub proof fn lemma_axis(negative: bool, positive: bool)
    ensures
        positive && !negative ==> axis(negative, positive) == 1,
        negative && !positive ==> axis(negative, positive) == -1,
        positive == negative ==> axis(negative, positive) == 0,
{
}

/// Law: holding a key is noticed in the frame it goes down and in no later
/// frame while it stays down; a key that is up is never noticed.
pub proof fn lemma_rising_edge(was_pressed: bool)
    ensures
        rising_edge(true, false),
        !rising_edge(true, true),
        !rising_edge(false, was_pressed),
{
}

/// A key press is noticed once, when the key goes down.
pub fn key_just_pressed(pressed: bool, was_pressed: bool) -> (r: bool)
    ensures
        r == rising_edge(pressed, was_pressed),
{
    pressed && !was_pressed
}

fn axis_value(negative: bool, positive: bool) -> (v: i8)
    ensures
        v == axis(negative, positive),
{
    let mut v: i8 = 0;
    if negative {
        v -= 1;
    }
    if positive {
        v += 1;
    }
    v
}

/// Reads the keyboard of one frame: the movement keys give the direction,
/// delete asks to leave, and pressing escape pauses a running game or
/// resumes otherwise.
pub fn handle_keyboard(keys: KeyState, escape_was_pressed: bool, state: InGameState) -> (out:
    KeyboardOutcome)
    ensures
        out.dx == axis(keys.left, keys.right),
        out.dy == axis(keys.up, keys.down),
        keys.right && !keys.left ==> out.dx == 1,
        keys.left && !keys.right ==> out.dx == -1,
        keys.left == keys.right ==> out.dx == 0,
        keys.down && !keys.up ==> out.dy == 1,
        keys.up && !keys.down ==> out.dy == -1,
        keys.up == keys.down ==> out.dy == 0,
        out.exit_requested == keys.delete,
        out.pause == if rising_edge(keys.escape, escape_was_pressed) {
            Some(
                if state == InGameState::RUNNING {
                    PauseRequest::Pause
                } else {
                    PauseRequest::ExitPause
                },
            )
        } else {
            None
        },
        out.escape_was_pressed == keys.escape,
{
    let x = axis_value(keys.left, keys.right);
    let y = axis_value(keys.up, keys.down);
    let pause = if key_just_pressed(keys.escape, escape_was_pressed) {
        if state == InGameState::RUNNING {
            Some(PauseRequest::Pause)
        } else {
            Some(PauseRequest::ExitPause)
        }
    } else {
        None
    };
    KeyboardOutcome {
        dx: x,
        dy: y,
        exit_requested: keys.delete,
        pause,
        escape_was_pressed: keys.escape,
    }
}

} // verus!
