//! Per-frame decisions of the game loop: quit, toggle the mouse grab, or go
//! on.
use crate::input::{GameController, Gesture, Signal};
use vstd::prelude::*;

verus! {

/// Scan code of the Escape key.
pub const SCANCODE_ESCAPE: u32 = 41;

/// Scan code of the grave-accent key.
pub const SCANCODE_GRAVE: u32 = 53;

/// What the loop does after the input of a frame.
#[derive(Clone, Copy, Debug, PartialEq, Eq, Structural)]
pub enum FrameAction {
    Quit,
    ToggleGrab,
    Continue,
}

/// Quit on a quit request or on Escape.
pub fn quit_gesture() -> (g: Gesture)
    ensures
        g matches Gesture::AnyOf(v) && v@ == seq![Signal::QuitTrigger, Signal::KeyTrigger(SCANCODE_ESCAPE)],
{
    let v: Vec<Signal> = vec![Signal::QuitTrigger, Signal::KeyTrigger(SCANCODE_ESCAPE)];
    proof {
        assert(v@ =~= seq![Signal::QuitTrigger, Signal::KeyTrigger(SCANCODE_ESCAPE)]);
    }
    Gesture::AnyOf(v)
}

/// Toggle the mouse grab on the grave-accent key.
pub fn grab_toggle_gesture() -> (g: Gesture)
    ensures
        g == Gesture::KeyTrigger(SCANCODE_GRAVE),
{
    Gesture::KeyTrigger(SCANCODE_GRAVE)
}

/// The decision of one frame: quitting wins over toggling the grab.
pub fn frame_action(control: &GameController, quit: &Gesture, grab_toggle: &Gesture) -> (r: FrameAction)
    requires
        control.wf(),
    ensures
        control.active(*quit) ==> r == FrameAction::Quit,
        !control.active(*quit) && control.active(*grab_toggle) ==> r == FrameAction::ToggleGrab,
        !control.active(*quit) && !control.active(*grab_toggle) ==> r == FrameAction::Continue,
{
    if control.poll_gesture(quit) {
        FrameAction::Quit
    } else if control.poll_gesture(grab_toggle) {
        FrameAction::ToggleGrab
    } else {
        FrameAction::Continue
    }
}

/// Applies a frame's action to the grab state: toggled on `ToggleGrab`,
/// kept otherwise.
pub fn next_grab(action: FrameAction, grabbed: bool) -> (r: bool)
    ensures
        r == if action == FrameAction::ToggleGrab { !grabbed } else { grabbed },
{
    match action {
        FrameAction::ToggleGrab => !grabbed,
        _ => grabbed,
    }
}

} // verus!
