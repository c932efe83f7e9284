use doom_engine::game::{
    frame_action, grab_toggle_gesture, next_grab, quit_gesture, FrameAction, SCANCODE_ESCAPE,
    SCANCODE_GRAVE,
};
use doom_engine::input::{AxisDirections, GameController, Gesture, InputEvent, Signal};

#[test]
fn key_trigger_holds_only_in_its_update_and_hold_persists() {
    let mut c = GameController::new();
    c.update(&vec![InputEvent::KeyDown(4)]);
    assert!(c.poll_gesture(&Gesture::KeyTrigger(4)));
    assert!(c.poll_gesture(&Gesture::KeyHold(4)));
    c.update(&vec![]);
    assert!(!c.poll_gesture(&Gesture::KeyTrigger(4)));
    assert!(c.poll_gesture(&Gesture::KeyHold(4)));
    c.update(&vec![InputEvent::KeyUp(4)]);
    assert!(!c.poll_gesture(&Gesture::KeyHold(4)));
}

#[test]
fn quit_and_combined_gestures() {
    let mut c = GameController::new();
    let quit = Gesture::AnyOf(vec![Signal::QuitTrigger, Signal::KeyTrigger(41)]);
    c.update(&vec![]);
    assert!(!c.poll_gesture(&quit));
    c.update(&vec![InputEvent::KeyDown(41)]);
    assert!(c.poll_gesture(&quit));
    c.update(&vec![InputEvent::Quit]);
    assert!(c.poll_gesture(&quit));
    assert!(c.poll_gesture(&Gesture::QuitTrigger));
    let both = Gesture::AllOf(vec![Signal::KeyHold(41), Signal::ButtonHold(1)]);
    assert!(!c.poll_gesture(&both));
    c.update(&vec![InputEvent::ButtonDown(1)]);
    assert!(c.poll_gesture(&both));
    assert!(c.poll_gesture(&Gesture::ButtonTrigger(1)));
    assert!(!c.poll_gesture(&Gesture::NoGesture));
    assert!(c.poll_gesture(&Gesture::AllOf(vec![])));
    assert!(!c.poll_gesture(&Gesture::AnyOf(vec![])));
}

#[test]
fn out_of_range_codes_are_ignored() {
    let mut c = GameController::new();
    c.update(&vec![InputEvent::KeyDown(100000), InputEvent::ButtonDown(200)]);
    assert!(!c.poll_gesture(&Gesture::KeyHold(100000)));
    assert!(!c.poll_gesture(&Gesture::ButtonHold(200)));
}

#[test]
fn mouse_motion_flips_y_and_respects_enable() {
    let mut c = GameController::new();
    c.update(&vec![InputEvent::MouseMotion(3, 4), InputEvent::MouseMotion(5, 6)]);
    assert_eq!(c.mouse_motion(), (5, -6));
    c.update(&vec![]);
    assert_eq!(c.mouse_motion(), (0, 0));
    c.set_mouse_enabled(false);
    c.update(&vec![InputEvent::MouseMotion(5, 6)]);
    assert_eq!(c.mouse_motion(), (0, 0));
}

#[test]
fn axes_prefer_positive_then_negative() {
    let mut c = GameController::new();
    c.update(&vec![InputEvent::KeyDown(7), InputEvent::KeyDown(4), InputEvent::KeyDown(26)]);
    let r = c.poll_axes(
        &Gesture::KeyHold(7),
        &Gesture::KeyHold(4),
        &Gesture::KeyHold(22),
        &Gesture::KeyHold(26),
    );
    assert_eq!(r, AxisDirections { x: 1, y: -1 });
    let idle = c.poll_axes(
        &Gesture::NoGesture,
        &Gesture::NoGesture,
        &Gesture::NoGesture,
        &Gesture::NoGesture,
    );
    assert_eq!(idle, AxisDirections { x: 0, y: 0 });
}

#[test]
fn two_directional_sources_on_one_axis_add_up() {
    let mut c = GameController::new();
    c.update(&vec![InputEvent::KeyDown(79), InputEvent::KeyDown(7)]);
    let arrows = c.poll_axes(
        &Gesture::KeyHold(79),
        &Gesture::KeyHold(80),
        &Gesture::KeyHold(81),
        &Gesture::KeyHold(82),
    );
    let keys = c.poll_axes(
        &Gesture::KeyHold(7),
        &Gesture::KeyHold(4),
        &Gesture::KeyHold(22),
        &Gesture::KeyHold(26),
    );
    let x = arrows.x as f32 * 0.015 + keys.x as f32 * 1.0;
    let y = arrows.y as f32 * 0.015 + keys.y as f32 * 1.0;
    assert!((x - 1.015).abs() < 1e-6);
    assert_eq!(y, 0.0);
}

#[test]
fn frame_action_prefers_quit_over_grab_toggle() {
    let quit = quit_gesture();
    let grab = grab_toggle_gesture();
    let mut c = GameController::new();
    c.update(&vec![]);
    assert_eq!(frame_action(&c, &quit, &grab), FrameAction::Continue);
    c.update(&vec![InputEvent::KeyDown(SCANCODE_GRAVE)]);
    assert_eq!(frame_action(&c, &quit, &grab), FrameAction::ToggleGrab);
    assert!(!next_grab(FrameAction::ToggleGrab, true));
    assert!(next_grab(FrameAction::Continue, true));
    c.update(&vec![InputEvent::KeyDown(SCANCODE_ESCAPE)]);
    assert_eq!(frame_action(&c, &quit, &grab), FrameAction::Quit);
}

#[test]
fn extreme_vertical_motion_flips_exactly() {
    let mut c = GameController::new();
    c.update(&vec![InputEvent::MouseMotion(i32::MIN, i32::MIN)]);
    assert_eq!(c.mouse_motion(), (i32::MIN as i64, 2147483648i64));
}
