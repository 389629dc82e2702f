use vulkano_template::app::{handle_keyboard_input, level_for, wrap_debug_depth, AppCommand, GameState, Level};
use vulkano_template::input::{ButtonState, InputState, Key, KeyState};

#[test]
fn button_rising_edge_once() {
    let mut b = ButtonState::new();
    assert!(b.update_state(true));
    assert!(b.get_just_pressed());
    assert!(b.get_was_pressed());
    // still held: no new press
    assert!(!b.update_state(true));
    assert!(b.get_was_pressed());
    assert!(!b.update_state(false));
    assert!(!b.get_was_pressed());
    assert!(b.update_state(true));
}

#[test]
fn button_consume_takes_press() {
    let mut b = ButtonState::default();
    assert!(!b.consume_button_down());
    b.update_state(true);
    assert!(b.consume_button_down());
    assert!(!b.consume_button_down());
    assert!(b.get_was_pressed());
}

#[test]
fn input_state_follows_keys() {
    let mut inputs = InputState::default();
    inputs.handle_keyboard_input(Key::KeyW, true);
    inputs.handle_keyboard_input(Key::Other, true);
    assert!(inputs.w.get_was_pressed());
    assert!(!inputs.s.get_was_pressed());
    inputs.handle_keyboard_input(Key::KeyW, false);
    assert!(!inputs.w.get_was_pressed());
}

#[test]
fn move_intent_priorities() {
    let mut inputs = InputState::new();
    let m = inputs.move_intent();
    assert_eq!((m.x, m.y, m.z, m.slow), (0, 0, 0, false));
    inputs.handle_keyboard_input(Key::KeyW, true);
    inputs.handle_keyboard_input(Key::KeyS, true);
    inputs.handle_keyboard_input(Key::KeyD, true);
    inputs.handle_keyboard_input(Key::ShiftLeft, true);
    inputs.handle_keyboard_input(Key::ControlLeft, true);
    let m = inputs.move_intent();
    // W wins over S: forward is -z
    assert_eq!((m.x, m.y, m.z, m.slow), (1, -1, -1, true));
    inputs.handle_keyboard_input(Key::KeyA, true);
    inputs.handle_keyboard_input(Key::Space, true);
    let m = inputs.move_intent();
    assert_eq!((m.x, m.y), (-1, 1));
}

#[test]
fn key_state_defaults_released() {
    assert!(KeyState::default() == KeyState::Released);
    assert!(KeyState::Pressed != KeyState::Released);
}

#[test]
fn escape_pauses_and_resumes() {
    let mut inputs = InputState::default();
    let mut state = GameState::Playing;
    let mut depth: Option<usize> = None;
    let c = handle_keyboard_input(&mut inputs, &mut state, &mut depth, Key::Escape, true, false);
    assert_eq!(c, Some(AppCommand::Pause));
    assert_eq!(state, GameState::Paused);
    // held: nothing more
    let c = handle_keyboard_input(&mut inputs, &mut state, &mut depth, Key::Escape, true, false);
    assert_eq!(c, None);
    handle_keyboard_input(&mut inputs, &mut state, &mut depth, Key::Escape, false, false);
    let c = handle_keyboard_input(&mut inputs, &mut state, &mut depth, Key::Escape, true, false);
    assert_eq!(c, Some(AppCommand::Resume));
    assert_eq!(state, GameState::Playing);
}

#[test]
fn escape_in_main_menu_does_nothing() {
    let mut inputs = InputState::default();
    let mut state = GameState::default();
    let mut depth: Option<usize> = None;
    let c = handle_keyboard_input(&mut inputs, &mut state, &mut depth, Key::Escape, true, false);
    assert_eq!(c, None);
    assert_eq!(state, GameState::MainMenu);
}

#[test]
fn reload_only_while_playing() {
    let mut inputs = InputState::default();
    let mut state = GameState::Paused;
    let mut depth: Option<usize> = None;
    let c = handle_keyboard_input(&mut inputs, &mut state, &mut depth, Key::KeyR, true, false);
    assert_eq!(c, None);
    // the key is not followed while paused
    assert!(!inputs.r.get_was_pressed());
    state = GameState::Playing;
    let c = handle_keyboard_input(&mut inputs, &mut state, &mut depth, Key::KeyR, true, false);
    assert_eq!(c, Some(AppCommand::ReloadLevel));
}

#[test]
fn pause_logic_and_step() {
    let mut inputs = InputState::default();
    let mut state = GameState::Playing;
    let mut depth: Option<usize> = None;
    let c = handle_keyboard_input(&mut inputs, &mut state, &mut depth, Key::KeyP, true, false);
    assert_eq!(c, Some(AppCommand::SetLogicPaused(true)));
    handle_keyboard_input(&mut inputs, &mut state, &mut depth, Key::KeyP, false, true);
    let c = handle_keyboard_input(&mut inputs, &mut state, &mut depth, Key::KeyP, true, true);
    assert_eq!(c, Some(AppCommand::SetLogicPaused(false)));
    let c = handle_keyboard_input(&mut inputs, &mut state, &mut depth, Key::Equal, true, true);
    assert_eq!(c, Some(AppCommand::StepLogic));
    assert_eq!(state, GameState::Playing);
}

#[test]
fn debug_depth_scrolls_and_wraps() {
    let mut inputs = InputState::default();
    let mut state = GameState::Playing;
    let mut depth: Option<usize> = None;
    handle_keyboard_input(&mut inputs, &mut state, &mut depth, Key::KeyI, true, false);
    assert_eq!(depth, Some(0));
    handle_keyboard_input(&mut inputs, &mut state, &mut depth, Key::KeyI, false, false);
    handle_keyboard_input(&mut inputs, &mut state, &mut depth, Key::KeyI, true, false);
    assert_eq!(depth, Some(1));
    assert_eq!(wrap_debug_depth(depth, 3), Some(1));
    assert_eq!(wrap_debug_depth(Some(3), 3), None);
    assert_eq!(wrap_debug_depth(None, 0), None);
}

#[test]
fn levels_by_id() {
    assert_eq!(level_for(0), Some(Level::World));
    assert_eq!(level_for(1), Some(Level::UiTest));
    assert_eq!(level_for(2), Some(Level::PhysTest));
    assert_eq!(level_for(3), Some(Level::CharTest));
    assert_eq!(level_for(4), None);
    assert_eq!(level_for(-1), None);
}
