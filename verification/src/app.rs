use vstd::prelude::*;
use crate::input::{ButtonState, InputState, Key};

verus! {

/// Which screen the game is on.
#[derive(Clone, Copy, Debug, PartialEq, Eq, Structural)]
pub enum GameState {
    MainMenu,
    Playing,
    Paused,
}

impl Default for GameState {
    fn default() -> (r: Self)
        ensures
            r == GameState::MainMenu,
    {
        GameState::MainMenu
    }
}

/// What the application must do in answer to a key.
#[derive(Clone, Copy, Debug, PartialEq, Eq, Structural)]
pub enum AppCommand {
    /// load the current level again
    ReloadLevel,
    /// free the cursor and pause the logic loop
    Pause,
    /// capture the cursor and resume the logic loop
    Resume,
    /// pause (`true`) or resume the logic loop, leaving the game state as it is
    SetLogicPaused(bool),
    /// advance the logic loop by one frame, when it is paused
    StepLogic,
}

/// The levels that can be loaded.
#[derive(Clone, Copy, Debug, PartialEq, Eq, Structural)]
pub enum Level {
    World,
    UiTest,
    PhysTest,
    CharTest,
}

/// The buttons after `key` went to `pressed`; the reload key is followed only while playing.
pub open spec fn inputs_after(s: InputState, key: Key, pressed: bool, playing: bool) -> InputState {
    match key {
        Key::KeyW => InputState { w: s.w.updated(pressed), ..s },
        Key::KeyA => InputState { a: s.a.updated(pressed), ..s },
        Key::KeyS => InputState { s: s.s.updated(pressed), ..s },
        Key::KeyD => InputState { d: s.d.updated(pressed), ..s },
        Key::Space => InputState { space: s.space.updated(pressed), ..s },
        Key::ShiftLeft => InputState { lshift: s.lshift.updated(pressed), ..s },
        Key::ControlLeft => InputState { lctrl: s.lctrl.updated(pressed), ..s },
        Key::KeyQ => InputState { q: s.q.updated(pressed), ..s },
        Key::KeyR => if playing {
            InputState { r: s.r.updated(pressed), ..s }
        } else {
            s
        },
        Key::KeyI => InputState { i: s.i.updated(pressed), ..s },
        Key::KeyO => InputState { o: s.o.updated(pressed), ..s },
        Key::KeyP => InputState { p: s.p.updated(pressed), ..s },
        Key::Escape => InputState { escape: s.escape.updated(pressed), ..s },
        Key::Equal => InputState { equal: s.equal.updated(pressed), ..s },
        Key::Other => s,
    }
}

/// `key` was just pressed down (a rising edge of its button).
pub open spec fn press_of(s: InputState, key: Key, pressed: bool) -> bool {
    pressed && match s.button(key) {
        Some(b) => !b.pressed(),
        None => false,
    }
}

/// The game state after `key`: escape switches between playing and paused.
pub open spec fn game_state_after(state: GameState, key: Key, rising: bool) -> GameState {
    if key == Key::Escape && rising {
        match state {
            GameState::Playing => GameState::Paused,
            GameState::Paused => GameState::Playing,
            GameState::MainMenu => GameState::MainMenu,
        }
    } else {
        state
    }
}

/// The depth of bounds shown after `key`: `I` shows the next depth down.
pub open spec fn debug_depth_after(depth: Option<usize>, key: Key, rising: bool) -> Option<usize> {
    if key == Key::KeyI && rising {
        match depth {
            Some(d) => Some((d + 1) as usize),
            None => Some(0usize),
        }
    } else {
        depth
    }
}

/// The command that `key` calls for.
pub open spec fn command_for(state: GameState, key: Key, rising: bool, logic_paused: bool) -> Option<
    AppCommand,
> {
    if !rising {
        None
    } else {
        match key {
            Key::KeyR => if state == GameState::Playing {
                Some(AppCommand::ReloadLevel)
            } else {
                None
            },
            Key::Escape => match state {
                GameState::Playing => Some(AppCommand::Pause),
                GameState::Paused => Some(AppCommand::Resume),
                GameState::MainMenu => None,
            },
            Key::KeyP => if state == GameState::Playing {
                Some(AppCommand::SetLogicPaused(!logic_paused))
            } else {
                None
            },
            Key::Equal => Some(AppCommand::StepLogic),
            _ => None,
        }
    }
}

/// Answers a key going up or down: updates the buttons, the game state and the depth of
/// bounds shown, and returns the command for the application to carry out.
pub fn handle_keyboard_input(
    inputs: &mut InputState,
    game_state: &mut GameState,
    bounds_debug_depth: &mut Option<usize>,
    key: Key,
    pressed: bool,
    logic_paused: bool,
) -> (r: Option<AppCommand>)
    requires
        key == Key::KeyI ==> (*old(bounds_debug_depth) matches Some(d) ==> d < usize::MAX),
    ensures
        *final(inputs) == inputs_after(*old(inputs), key, pressed, *old(game_state)
            == GameState::Playing),
        *final(game_state) == game_state_after(*old(game_state), key, press_of(*old(inputs), key, pressed)),
        *final(bounds_debug_depth) == debug_depth_after(*old(bounds_debug_depth), key, press_of(*old(inputs), key, pressed)),
        r == command_for(*old(game_state), key, press_of(*old(inputs), key, pressed), logic_paused),
{
    match key {
        Key::KeyQ => {
            inputs.q.update_state(pressed);
            None
        },
        Key::KeyR => {
            if *game_state == GameState::Playing && inputs.r.update_state(pressed) {
                Some(AppCommand::ReloadLevel)
            } else {
                None
            }
        },
        Key::KeyW => {
            inputs.w.update_state(pressed);
            None
        },
        Key::KeyA => {
            inputs.a.update_state(pressed);
            None
        },
        Key::KeyS => {
            inputs.s.update_state(pressed);
            None
        },
        Key::KeyD => {
            inputs.d.update_state(pressed);
            None
        },
        Key::Space => {
            inputs.space.update_state(pressed);
            None
        },
        Key::ShiftLeft => {
            inputs.lshift.update_state(pressed);
            None
        },
        Key::ControlLeft => {
            inputs.lctrl.update_state(pressed);
            None
        },
        Key::Escape => {
            // pause and unpause
            if inputs.escape.update_state(pressed) {
                match *game_state {
                    GameState::Playing => {
                        *game_state = GameState::Paused;
                        Some(AppCommand::Pause)
                    },
                    GameState::Paused => {
                        *game_state = GameState::Playing;
                        Some(AppCommand::Resume)
                    },
                    GameState::MainMenu => None,
                }
            } else {
                None
            }
        },
        Key::KeyP => {
            // pause logic loop
            if inputs.p.update_state(pressed) && *game_state == GameState::Playing {
                Some(AppCommand::SetLogicPaused(!logic_paused))
            } else {
                None
            }
        },
        Key::Equal => {
            // step logic loop
            if inputs.equal.update_state(pressed) {
                Some(AppCommand::StepLogic)
            } else {
                None
            }
        },
        Key::KeyO => {
            inputs.o.update_state(pressed);
            None
        },
        Key::KeyI => {
            // scroll through depths
            if inputs.i.update_state(pressed) {
                match *bounds_debug_depth {
                    Some(depth) => {
                        *bounds_debug_depth = Some(depth + 1);
                    },
                    None => {
                        *bounds_debug_depth = Some(0);
                    },
                }
            }
            None
        },
        Key::Other => None,
    }
}

/// The loader of level `id`, if there is such a level.
pub fn level_for(id: i32) -> (r: Option<Level>)
    ensures
        r == match id {
            0 => Some(Level::World),
            1 => Some(Level::UiTest),
            2 => Some(Level::PhysTest),
            3 => Some(Level::CharTest),
            _ => None::<Level>,
        },
{
    match id {
        0 => Some(Level::World),
        1 => Some(Level::UiTest),
        2 => Some(Level::PhysTest),
        3 => Some(Level::CharTest),
        _ => None,
    }
}

/// The depth of bounds to show once the tree is `tree_depth` deep: scrolling past the
/// deepest level goes back to showing every depth.
pub fn wrap_debug_depth(depth: Option<usize>, tree_depth: usize) -> (r: Option<usize>)
    ensures
        r == if depth == Some(tree_depth) {
            None
        } else {
            depth
        },
{
    match depth {
        Some(d) => {
            if d == tree_depth {
                None
            } else {
                depth
            }
        },
        None => None,
    }
}

/// Handling a key that has a button updates exactly that key's button to the new key state,
/// and leaves every other button (and the mouse button) as it was; the reload key is followed
/// only while playing, and a key without a button changes nothing.
pub proof fn law_key_updates_own_button(s: InputState, key: Key, pressed: bool, playing: bool)
    ensures
        ({
            let after = inputs_after(s, key, pressed, playing);
            &&& after.lmb == s.lmb
            &&& forall|k: Key| k != key ==> #[trigger] after.button(k) == s.button(k)
            &&& (key != Key::KeyR || playing) ==> match s.button(key) {
                Some(b) => {
                    &&& after.button(key) == Some(b.updated(pressed))
                    &&& after.button(key).unwrap().pressed() == pressed
                    &&& after.button(key).unwrap().rising() == (pressed && !b.pressed())
                },
                None => after == s,
            }
            &&& (key == Key::KeyR && !playing) ==> after == s
        }),
{
    ButtonState::law_update(s.button(key).unwrap_or(s.lmb), pressed);
}

/// The movement keys drive the movement buttons: pressing S (W released) holds S and leaves
/// W released, so the player moves backwards; pressing W holds W and leaves S as it was.
pub proof fn law_movement_keys(s: InputState, playing: bool)
    ensures
        inputs_after(s, Key::KeyS, true, playing).s.pressed(),
        inputs_after(s, Key::KeyS, true, playing).w == s.w,
        inputs_after(s, Key::KeyW, true, playing).w.pressed(),
        inputs_after(s, Key::KeyW, true, playing).s == s.s,
        inputs_after(s, Key::KeyA, true, playing).a.pressed(),
        inputs_after(s, Key::KeyA, true, playing).d == s.d,
        inputs_after(s, Key::KeyD, true, playing).d.pressed(),
        inputs_after(s, Key::KeyD, true, playing).a == s.a,
        inputs_after(s, Key::Space, true, playing).space.pressed(),
        inputs_after(s, Key::Space, true, playing).lshift == s.lshift,
        inputs_after(s, Key::ShiftLeft, true, playing).lshift.pressed(),
        inputs_after(s, Key::ShiftLeft, true, playing).space == s.space,
        inputs_after(s, Key::ControlLeft, true, playing).lctrl.pressed(),
{
    law_key_updates_own_button(s, Key::KeyS, true, playing);
    law_key_updates_own_button(s, Key::KeyW, true, playing);
    law_key_updates_own_button(s, Key::KeyA, true, playing);
    law_key_updates_own_button(s, Key::KeyD, true, playing);
    law_key_updates_own_button(s, Key::Space, true, playing);
    law_key_updates_own_button(s, Key::ShiftLeft, true, playing);
    law_key_updates_own_button(s, Key::ControlLeft, true, playing);
    assert(inputs_after(s, Key::KeyS, true, playing).button(Key::KeyW) == s.button(Key::KeyW));
    assert(inputs_after(s, Key::KeyW, true, playing).button(Key::KeyS) == s.button(Key::KeyS));
    assert(inputs_after(s, Key::KeyA, true, playing).button(Key::KeyD) == s.button(Key::KeyD));
    assert(inputs_after(s, Key::KeyD, true, playing).button(Key::KeyA) == s.button(Key::KeyA));
    assert(inputs_after(s, Key::Space, true, playing).button(Key::ShiftLeft) == s.button(Key::ShiftLeft));
    assert(inputs_after(s, Key::ShiftLeft, true, playing).button(Key::Space) == s.button(Key::Space));
}

/// The step key advances the logic loop on every press, whatever screen the game is on; the
/// logic pause key toggles the logic pause while playing and does nothing on any other
/// screen; a key that is not just pressed down calls for nothing.
pub proof fn law_step_and_logic_pause(
    s: InputState,
    state: GameState,
    key: Key,
    pressed: bool,
    logic_paused: bool,
)
    ensures
        press_of(s, Key::Equal, pressed) ==> command_for(
            state,
            Key::Equal,
            press_of(s, Key::Equal, pressed),
            logic_paused,
        ) == Some(AppCommand::StepLogic),
        state != GameState::Playing ==> command_for(state, Key::KeyP, press_of(s, Key::KeyP, pressed), logic_paused) is None,
        state == GameState::Playing && press_of(s, Key::KeyP, pressed) ==> command_for(
            state,
            Key::KeyP,
            true,
            logic_paused,
        ) == Some(AppCommand::SetLogicPaused(!logic_paused)),
        !press_of(s, key, pressed) ==> command_for(state, key, press_of(s, key, pressed), logic_paused) is None,
        game_state_after(state, Key::KeyP, press_of(s, Key::KeyP, pressed)) == state,
        game_state_after(state, Key::Equal, press_of(s, Key::Equal, pressed)) == state,
{
}

/// The other commands: the reload key reloads only while playing, escape pauses a running
/// game and resumes a paused one, every other key calls for nothing; only escape changes the
/// screen, and only a press of `I` moves the depth of bounds shown, one level down.
pub proof fn law_other_commands(
    s: InputState,
    state: GameState,
    key: Key,
    pressed: bool,
    logic_paused: bool,
    depth: Option<usize>,
)
    ensures
        ({
            let rising = press_of(s, key, pressed);
            &&& key == Key::KeyR && rising ==> command_for(state, key, rising, logic_paused) == (if state
                == GameState::Playing {
                Some(AppCommand::ReloadLevel)
            } else {
                None
            })
            &&& key == Key::Escape && rising ==> command_for(state, key, rising, logic_paused) == match state {
                GameState::Playing => Some(AppCommand::Pause),
                GameState::Paused => Some(AppCommand::Resume),
                GameState::MainMenu => None,
            }
            &&& key != Key::KeyR && key != Key::Escape && key != Key::KeyP && key != Key::Equal
                ==> command_for(state, key, rising, logic_paused) is None
            &&& key != Key::Escape ==> game_state_after(state, key, rising) == state
            &&& key == Key::Escape && rising && state != GameState::MainMenu ==> game_state_after(
                state,
                key,
                rising,
            ) != state
            &&& key != Key::KeyI ==> debug_depth_after(depth, key, rising) == depth
            &&& (key == Key::KeyI && rising && depth is Some && depth.unwrap() < usize::MAX)
                ==> debug_depth_after(depth, key, rising) == Some((depth.unwrap() + 1) as usize)
            &&& key == Key::KeyI && rising && depth is None ==> debug_depth_after(depth, key, rising) == Some(0usize)
        }),
{
}

/// Escape pressed twice (released in between) while playing pauses and then resumes.
pub proof fn law_escape_toggles(s: InputState)
    requires
        !s.escape.pressed(),
    ensures
        ({
            let s1 = inputs_after(s, Key::Escape, true, true);
            let s2 = inputs_after(s1, Key::Escape, false, false);
            let g1 = game_state_after(GameState::Playing, Key::Escape, press_of(s, Key::Escape, true));
            let g2 = game_state_after(g1, Key::Escape, press_of(s1, Key::Escape, false));
            let g3 = game_state_after(g2, Key::Escape, press_of(s2, Key::Escape, true));
            g1 == GameState::Paused && g2 == GameState::Paused && g3 == GameState::Playing
        }),
{
    ButtonState::law_update(s.escape, true);
    ButtonState::law_update(s.escape.updated(true), false);
}

} // verus!
