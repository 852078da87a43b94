//! What a player holds down, and how button events change it.
use vstd::prelude::*;

verus! {

/// The controls of a ship.
#[derive(Clone, Copy, Debug, PartialEq, Eq, Structural)]
pub enum GameKey {
    Up,
    Down,
    Left,
    Right,
    Fire,
}

/// The keyboard keys that the game knows, and all others together.
#[derive(Clone, Copy, Debug, PartialEq, Eq, Structural)]
pub enum Key {
    W,
    S,
    A,
    D,
    Space,
    Other,
}

/// A button of any input device.
#[derive(Clone, Copy, Debug, PartialEq, Eq, Structural)]
pub enum Button {
    Keyboard(Key),
    /// A mouse, controller or hat button.
    Other,
}

/// Whether a button went down or came up.
#[derive(Clone, Copy, Debug, PartialEq, Eq, Structural)]
pub enum ButtonState {
    Press,
    Release,
}

/// A button event.
#[derive(Clone, Copy, Debug, PartialEq, Eq, Structural)]
pub struct ButtonArgs {
    pub state: ButtonState,
    pub button: Button,
}

/// The controls that are held down.
#[derive(Clone, Copy, Debug, PartialEq, Eq, Structural)]
pub struct ControllerState {
    pub up: bool,
    pub down: bool,
    pub left: bool,
    pub right: bool,
    pub fire: bool,
}

/// The control that a button is bound to.
pub open spec fn bound_key(button: Button) -> Option<GameKey> {
    match button {
        Button::Keyboard(Key::W) => Some(GameKey::Up),
        Button::Keyboard(Key::S) => Some(GameKey::Down),
        Button::Keyboard(Key::A) => Some(GameKey::Left),
        Button::Keyboard(Key::D) => Some(GameKey::Right),
        Button::Keyboard(Key::Space) => Some(GameKey::Fire),
        _ => None,
    }
}

/// 1 for a control that is held down, 0 for one that is not.
pub open spec fn weight(held: bool) -> int {
    if held {
        1
    } else {
        0
    }
}

impl ControllerState {
    /// The state in which nothing is held down.
    pub open spec fn idle() -> ControllerState {
        ControllerState { up: false, down: false, left: false, right: false, fire: false }
    }

    /// Whether a control is held down.
    pub open spec fn holds(self, key: GameKey) -> bool {
        match key {
            GameKey::Up => self.up,
            GameKey::Down => self.down,
            GameKey::Left => self.left,
            GameKey::Right => self.right,
            GameKey::Fire => self.fire,
        }
    }

    /// This state with one control held down or let go.
    pub open spec fn with(self, key: GameKey, state: bool) -> ControllerState {
        match key {
            GameKey::Up => ControllerState { up: state, ..self },
            GameKey::Down => ControllerState { down: state, ..self },
            GameKey::Left => ControllerState { left: state, ..self },
            GameKey::Right => ControllerState { right: state, ..self },
            GameKey::Fire => ControllerState { fire: state, ..self },
        }
    }

    /// The change that a button event asks for, if it asks for one: the button is bound to a
    /// control, and the control is not yet in the state of the button.
    pub open spec fn change_for(self, ev: ButtonArgs) -> Option<(bool, GameKey)> {
        match bound_key(ev.button) {
            Some(key) => if self.holds(key) == (ev.state is Press) {
                None
            } else {
                Some((ev.state is Press, key))
            },
            None => None,
        }
    }

    /// The state after a button event.
    pub open spec fn after(self, ev: ButtonArgs) -> ControllerState {
        match self.change_for(ev) {
            Some((is_down, key)) => self.with(key, is_down),
            None => self,
        }
    }

    /// Holds one control down or lets it go.
    pub fn update(&mut self, key: GameKey, state: bool)
        ensures
            *final(self) == old(self).with(key, state),
    {
        match key {
            GameKey::Up => self.up = state,
            GameKey::Down => self.down = state,
            GameKey::Left => self.left = state,
            GameKey::Right => self.right = state,
            GameKey::Fire => self.fire = state,
        }
    }

    /// The change that a button event asks for, if it asks for one.
    pub fn to_game_key(&self, ev: &ButtonArgs) -> (change: Option<(bool, GameKey)>)
        ensures
            change == self.change_for(*ev),
    {
        let is_down = match ev.state {
            ButtonState::Press => true,
            ButtonState::Release => false,
        };
        let key = match ev.button {
            Button::Keyboard(Key::W) => {
                if self.up == is_down {
                    return None;
                }
                GameKey::Up
            },
            Button::Keyboard(Key::S) => {
                if self.down == is_down {
                    return None;
                }
                GameKey::Down
            },
            Button::Keyboard(Key::A) => {
                if self.left == is_down {
                    return None;
                }
                GameKey::Left
            },
            Button::Keyboard(Key::D) => {
                if self.right == is_down {
                    return None;
                }
                GameKey::Right
            },
            Button::Keyboard(Key::Space) => {
                if self.fire == is_down {
                    return None;
                }
                GameKey::Fire
            },
            _ => return None,
        };
        Some((is_down, key))
    }

    /// Whether the trigger is held down.
    pub fn is_firing(&self) -> (firing: bool)
        ensures
            firing == self.fire,
    {
        self.fire
    }

    /// The turn that is asked for: 1 to the left, -1 to the right, 0 for neither or both.
    pub fn desired_rotation(&self) -> (turn: i8)
        ensures
            turn == weight(self.left) - weight(self.right),
    {
        let left: i8 = if self.left { 1 } else { 0 };
        let right: i8 = if self.right { 1 } else { 0 };
        left - right
    }

    /// The thrust that is asked for: 1 forward, -1 backward, 0 for neither or both.
    pub fn desired_thrust(&self) -> (thrust: i8)
        ensures
            thrust == weight(self.up) - weight(self.down),
    {
        let up: i8 = if self.up { 1 } else { 0 };
        let down: i8 = if self.down { 1 } else { 0 };
        up - down
    }
}

impl Default for ControllerState {
    fn default() -> (state: ControllerState)
        ensures
            state == ControllerState::idle(),
    {
        ControllerState { up: false, down: false, left: false, right: false, fire: false }
    }
}

/// A button event leaves a bound control in the state of the button and every other control
/// as it was.
pub proof fn event_sets_only_its_control(state: ControllerState, ev: ButtonArgs, key: GameKey)
    ensures
        bound_key(ev.button) == Some(key) ==> state.after(ev).holds(key) == (ev.state is Press),
        bound_key(ev.button) != Some(key) ==> state.after(ev).holds(key) == state.holds(key),
{
}

/// A repeated button event asks for nothing: once it has been applied, the same event is no
/// change.
pub proof fn repeated_event_is_no_change(state: ControllerState, ev: ButtonArgs)
    ensures
        state.after(ev).change_for(ev) is None,
        state.after(ev).after(ev) == state.after(ev),
{
}

/// Pressing a bound button that was up and releasing it again gives back the state.
pub proof fn release_undoes_press(state: ControllerState, button: Button)
    requires
        bound_key(button) matches Some(key) ==> !state.holds(key),
    ensures
        state.after(ButtonArgs { state: ButtonState::Press, button }).after(
            ButtonArgs { state: ButtonState::Release, button },
        ) == state,
{
}

/// Events of different buttons can be applied in either order.
pub proof fn events_of_different_buttons_commute(
    state: ControllerState,
    first: ButtonArgs,
    second: ButtonArgs,
)
    requires
        first.button != second.button,
    ensures
        state.after(first).after(second) == state.after(second).after(first),
{
}

} // verus!
