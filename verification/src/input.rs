use vstd::prelude::*;

use std::collections::{HashMap, HashSet};
use vstd::std_specs::iter::IteratorSpec;

verus! {

broadcast use vstd::std_specs::hash::group_hash_axioms;

/// Identifier of a physical keyboard key.
pub type KeyCode = u32;

/// Left arrow key.
pub const KEY_ARROW_LEFT: KeyCode = 1;

/// Right arrow key.
pub const KEY_ARROW_RIGHT: KeyCode = 2;

/// The W key.
pub const KEY_W: KeyCode = 3;

/// The S key.
pub const KEY_S: KeyCode = 4;

/// The A key.
pub const KEY_A: KeyCode = 5;

/// The D key.
pub const KEY_D: KeyCode = 6;

/// The space bar.
pub const KEY_SPACE: KeyCode = 7;

/// The left shift key.
pub const KEY_SHIFT_LEFT: KeyCode = 8;

/// The escape key.
pub const KEY_ESCAPE: KeyCode = 9;

/// The E key.
pub const KEY_E: KeyCode = 10;

/// What a key binding does.
#[derive(Debug, Copy, Clone, PartialEq, Eq, Hash, Structural)]
pub enum Action {
    DecreaseModels,
    IncreaseModels,
    MoveForward,
    MoveBackward,
    MoveLeft,
    MoveRight,
    MoveUp,
    MoveDown,
    SetMenuMode,
    Quit,
}

impl Action {
    /// Actions that last as long as their key is held: the six movements.
    pub open spec fn continuous(self) -> bool {
        ||| self == Action::MoveForward
        ||| self == Action::MoveBackward
        ||| self == Action::MoveLeft
        ||| self == Action::MoveRight
        ||| self == Action::MoveUp
        ||| self == Action::MoveDown
    }

    /// Actions that fire once per key press.
    pub open spec fn single(self) -> bool {
        self == Action::SetMenuMode || self == Action::Quit
    }

    fn is_continuous_press(self) -> (b: bool)
        ensures
            b == self.continuous(),
    {
        match self {
            Action::MoveForward | Action::MoveBackward | Action::MoveLeft | Action::MoveRight
            | Action::MoveUp | Action::MoveDown => true,
            _ => false,
        }
    }

    fn is_single_press(self) -> (b: bool)
        ensures
            b == self.single(),
    {
        match self {
            Action::SetMenuMode | Action::Quit => true,
            _ => false,
        }
    }
}

/// Whether a key went down or up.
#[derive(Debug, Copy, Clone, PartialEq, Eq)]
pub enum ElementState {
    Pressed,
    Released,
}

/// A keyboard event: the physical key, if it could be identified, and
/// whether it was pressed or released.
#[derive(Debug, Copy, Clone)]
pub struct KeyEvent {
    pub physical_key: Option<KeyCode>,
    pub state: ElementState,
}

/// Keys currently held for continuous actions, and keys pressed for
/// single actions that have not been handled yet.
pub struct InputState {
    pub continuous_pressed_keys: HashSet<KeyCode>,
    pub single_pressed_keys: HashSet<KeyCode>,
}

impl InputState {
    /// No key held or pending.
    pub fn new() -> (s: Self)
        ensures
            s.continuous_pressed_keys@ == Set::<KeyCode>::empty(),
            s.single_pressed_keys@ == Set::<KeyCode>::empty(),
    {
        let continuous_pressed_keys: HashSet<KeyCode> = HashSet::new();
        let single_pressed_keys: HashSet<KeyCode> = HashSet::new();
        InputState { continuous_pressed_keys, single_pressed_keys }
    }
}

/// Key bindings.
pub struct InputMap {
    pub bindings: HashMap<KeyCode, Action>,
}

/// The engine's default key bindings.
pub open spec fn default_bindings() -> Map<KeyCode, Action> {
    map![
        KEY_ARROW_LEFT => Action::DecreaseModels,
        KEY_ARROW_RIGHT => Action::IncreaseModels,
        KEY_W => Action::MoveForward,
        KEY_S => Action::MoveBackward,
        KEY_A => Action::MoveLeft,
        KEY_D => Action::MoveRight,
        KEY_SPACE => Action::MoveUp,
        KEY_SHIFT_LEFT => Action::MoveDown,
        KEY_ESCAPE => Action::Quit,
        KEY_E => Action::SetMenuMode,
    ]
}

impl InputMap {
    /// The default bindings: arrows change the model count, WASD, space and
    /// left shift move, escape quits and E toggles the menu.
    pub fn new() -> (m: Self)
        ensures
            m.bindings@ == default_bindings(),
    {
        let mut bindings: HashMap<KeyCode, Action> = HashMap::new();

        bindings.insert(KEY_ARROW_LEFT, Action::DecreaseModels);
        bindings.insert(KEY_ARROW_RIGHT, Action::IncreaseModels);

        bindings.insert(KEY_W, Action::MoveForward);
        bindings.insert(KEY_S, Action::MoveBackward);
        bindings.insert(KEY_A, Action::MoveLeft);
        bindings.insert(KEY_D, Action::MoveRight);
        bindings.insert(KEY_SPACE, Action::MoveUp);
        bindings.insert(KEY_SHIFT_LEFT, Action::MoveDown);

        bindings.insert(KEY_ESCAPE, Action::Quit);
        bindings.insert(KEY_E, Action::SetMenuMode);

        let m = InputMap { bindings };
        assert(m.bindings@ =~= default_bindings());
        m
    }

    /// The action bound to `key`, if any.
    pub fn get_action(&self, key: &KeyCode) -> (r: Option<Action>)
        ensures
            r == (if self.bindings@.contains_key(*key) {
                Some(self.bindings@[*key])
            } else {
                None
            }),
    {
        match self.bindings.get(key) {
            Some(a) => Some(*a),
            None => None,
        }
    }
}

/// The held continuous keys after an event for `code`, bound to `a`.
pub open spec fn held_after(held: Set<KeyCode>, code: KeyCode, a: Action, state: ElementState) -> Set<
    KeyCode,
> {
    if a.continuous() {
        match state {
            ElementState::Pressed => held.insert(code),
            ElementState::Released => held.remove(code),
        }
    } else {
        held
    }
}

/// The queued single-press keys after an event for `code`, bound to `a`.
pub open spec fn queued_after(queued: Set<KeyCode>, code: KeyCode, a: Action, state: ElementState) -> Set<
    KeyCode,
> {
    if state == ElementState::Pressed && !a.continuous() && a.single() {
        queued.insert(code)
    } else {
        queued
    }
}

/// Records a key event: pressing a key bound to a continuous action adds it
/// to the held keys, pressing one bound to a single action queues it, and
/// releasing a key bound to a continuous action drops it from the held keys.
/// Events without an identified key are ignored.
pub fn handle_keyboard_input(event: KeyEvent, input_state: &mut InputState, input_map: &InputMap)
    requires
        event.physical_key matches Some(code) ==> input_map.bindings@.contains_key(code),
    ensures
        match event.physical_key {
            None => {
                &&& final(input_state).continuous_pressed_keys@ == old(
                    input_state,
                ).continuous_pressed_keys@
                &&& final(input_state).single_pressed_keys@ == old(input_state).single_pressed_keys@
            },
            Some(code) => {
                &&& final(input_state).continuous_pressed_keys@ == held_after(
                    old(input_state).continuous_pressed_keys@,
                    code,
                    input_map.bindings@[code],
                    event.state,
                )
                &&& final(input_state).single_pressed_keys@ == queued_after(
                    old(input_state).single_pressed_keys@,
                    code,
                    input_map.bindings@[code],
                    event.state,
                )
            },
        },
{
    if let Some(code) = event.physical_key {
        let action = input_map.get_action(&code).unwrap();
        match event.state {
            ElementState::Pressed => {
                if action.is_continuous_press() {
                    input_state.continuous_pressed_keys.insert(code);
                } else if action.is_single_press() {
                    input_state.single_pressed_keys.insert(code);
                }
            },
            ElementState::Released => {
                if action.is_continuous_press() {
                    input_state.continuous_pressed_keys.remove(&code);
                }
            },
        }
    }
}

/// Pressing and then releasing a key bound to a continuous action leaves
/// the held keys as they were, less that key.
pub proof fn lemma_press_release(held: Set<KeyCode>, code: KeyCode, a: Action)
    requires
        a.continuous(),
    ensures
        held_after(
            held_after(held, code, a, ElementState::Pressed),
            code,
            a,
            ElementState::Released,
        ) == held.remove(code),
{
    assert(held.insert(code).remove(code) =~= held.remove(code));
}

/// A key bound to a movement (forward, backward, left, right, up or down)
/// is held from its press to its release, and never queued as a single
/// press.
pub proof fn lemma_movement_key_held(held: Set<KeyCode>, queued: Set<KeyCode>, code: KeyCode, a: Action)
    requires
        a == Action::MoveForward || a == Action::MoveBackward || a == Action::MoveLeft || a
            == Action::MoveRight || a == Action::MoveUp || a == Action::MoveDown,
    ensures
        held_after(held, code, a, ElementState::Pressed) == held.insert(code),
        held_after(held, code, a, ElementState::Released) == held.remove(code),
        queued_after(queued, code, a, ElementState::Pressed) == queued,
        queued_after(queued, code, a, ElementState::Released) == queued,
{
}

/// A key bound to opening the menu or quitting is queued once when pressed
/// and never held.
pub proof fn lemma_command_key_queued(held: Set<KeyCode>, queued: Set<KeyCode>, code: KeyCode, a: Action)
    requires
        a == Action::SetMenuMode || a == Action::Quit,
    ensures
        queued_after(queued, code, a, ElementState::Pressed) == queued.insert(code),
        queued_after(queued, code, a, ElementState::Released) == queued,
        held_after(held, code, a, ElementState::Pressed) == held,
        held_after(held, code, a, ElementState::Released) == held,
{
}

/// A key bound to changing the number of models is neither held nor queued.
pub proof fn lemma_model_key_ignored(
    held: Set<KeyCode>,
    queued: Set<KeyCode>,
    code: KeyCode,
    a: Action,
    state: ElementState,
)
    requires
        a == Action::DecreaseModels || a == Action::IncreaseModels,
    ensures
        held_after(held, code, a, state) == held,
        queued_after(queued, code, a, state) == queued,
{
}

/// Every key of the default bindings that moves the camera (W, S, A, D,
/// space and left shift) is held while pressed.
pub proof fn lemma_default_movement_keys_held(held: Set<KeyCode>, code: KeyCode)
    requires
        code == KEY_W || code == KEY_S || code == KEY_A || code == KEY_D || code == KEY_SPACE || code
            == KEY_SHIFT_LEFT,
    ensures
        default_bindings().contains_key(code),
        held_after(held, code, default_bindings()[code], ElementState::Pressed) == held.insert(code),
{
}

/// The keys of a set, each once.
pub fn keys_of(s: &HashSet<KeyCode>) -> (v: Vec<KeyCode>)
    ensures
        v@.no_duplicates(),
        v@.to_set() == s@,
{
    let ghost g = vstd::std_specs::hash::spec_hash_keys_iter(s).remaining();
    let mut v: Vec<KeyCode> = Vec::new();
    for k in it: s.iter()
        invariant
            it.seq() == g,
            v@ == g.take(it.index() as int).map_values(|r: &KeyCode| *r),
    {
        v.push(*k);
        assert(g.take(it.index() + 1).map_values(|r: &KeyCode| *r) =~= g.take(
            it.index() as int,
        ).map_values(|r: &KeyCode| *r).push(*k));
    }
    assert(v@ =~= g.unref());
    v
}

} // verus!
