use not_asteroids::controller::{
    Button, ButtonArgs, ButtonState, ControllerState, GameKey, Key,
};

const IDLE: ControllerState = ControllerState {
    up: false,
    down: false,
    left: false,
    right: false,
    fire: false,
};

fn event(state: ButtonState, key: Key) -> ButtonArgs {
    ButtonArgs { state, button: Button::Keyboard(key) }
}

fn apply(state: &mut ControllerState, ev: &ButtonArgs) {
    if let Some((is_down, key)) = state.to_game_key(ev) {
        state.update(key, is_down);
    }
}

#[test]
fn nothing_is_held_at_first() {
    let state = ControllerState::default();
    assert_eq!(state, IDLE);
    assert!(!state.is_firing());
    assert_eq!(state.desired_rotation(), 0);
    assert_eq!(state.desired_thrust(), 0);
}

#[test]
fn each_key_is_bound_to_its_control() {
    let bindings = vec![
        (Key::W, GameKey::Up),
        (Key::S, GameKey::Down),
        (Key::A, GameKey::Left),
        (Key::D, GameKey::Right),
        (Key::Space, GameKey::Fire),
    ];
    for (key, control) in bindings {
        assert_eq!(
            IDLE.to_game_key(&event(ButtonState::Press, key)),
            Some((true, control))
        );
        assert_eq!(IDLE.to_game_key(&event(ButtonState::Release, key)), None);
        let mut held = IDLE;
        held.update(control, true);
        assert_eq!(held.to_game_key(&event(ButtonState::Press, key)), None);
        assert_eq!(
            held.to_game_key(&event(ButtonState::Release, key)),
            Some((false, control))
        );
    }
}

#[test]
fn other_buttons_ask_for_nothing() {
    assert_eq!(IDLE.to_game_key(&event(ButtonState::Press, Key::Other)), None);
    let mouse = ButtonArgs { state: ButtonState::Press, button: Button::Other };
    assert_eq!(IDLE.to_game_key(&mouse), None);
}

#[test]
fn update_sets_one_control() {
    let mut state = IDLE;
    state.update(GameKey::Up, true);
    assert_eq!(state, ControllerState { up: true, ..IDLE });
    state.update(GameKey::Down, true);
    state.update(GameKey::Left, true);
    state.update(GameKey::Right, true);
    state.update(GameKey::Fire, true);
    assert_eq!(
        state,
        ControllerState { up: true, down: true, left: true, right: true, fire: true }
    );
    state.update(GameKey::Left, false);
    assert_eq!(
        state,
        ControllerState { up: true, down: true, left: false, right: true, fire: true }
    );
    assert!(state.is_firing());
}

#[test]
fn opposite_controls_cancel() {
    let left = ControllerState { left: true, ..IDLE };
    let right = ControllerState { right: true, ..IDLE };
    let both = ControllerState { left: true, right: true, ..IDLE };
    assert_eq!(left.desired_rotation(), 1);
    assert_eq!(right.desired_rotation(), -1);
    assert_eq!(both.desired_rotation(), 0);
    let up = ControllerState { up: true, ..IDLE };
    let down = ControllerState { down: true, ..IDLE };
    let up_and_down = ControllerState { up: true, down: true, ..IDLE };
    assert_eq!(up.desired_thrust(), 1);
    assert_eq!(down.desired_thrust(), -1);
    assert_eq!(up_and_down.desired_thrust(), 0);
}

#[test]
fn a_button_event_sets_only_its_control() {
    let mut state = ControllerState { left: true, ..IDLE };
    apply(&mut state, &event(ButtonState::Press, Key::W));
    assert_eq!(state, ControllerState { up: true, left: true, ..IDLE });
    let before = state;
    apply(&mut state, &event(ButtonState::Press, Key::W));
    assert_eq!(state, before);
    apply(&mut state, &event(ButtonState::Release, Key::W));
    assert_eq!(state, ControllerState { left: true, ..IDLE });
}

#[test]
fn events_of_two_buttons_commute() {
    let first = event(ButtonState::Press, Key::Space);
    let second = event(ButtonState::Release, Key::A);
    let start = ControllerState { left: true, ..IDLE };
    let mut one = start;
    apply(&mut one, &first);
    apply(&mut one, &second);
    let mut other = start;
    apply(&mut other, &second);
    apply(&mut other, &first);
    assert_eq!(one, other);
    assert_eq!(one, ControllerState { fire: true, ..IDLE });
}
