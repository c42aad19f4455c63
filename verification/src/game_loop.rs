use vstd::prelude::*;

use crate::input::{keys_of, Action, InputMap, InputState, KeyCode};

verus! {

broadcast use vstd::std_specs::hash::group_hash_axioms;

/// What one update of the game loop does, decided from the input.
pub struct UpdateDecision {
    /// Camera movements to apply this frame, one per held movement key.
    pub movements: Vec<Action>,
    /// The menu mode after this frame.
    pub menu_mode: bool,
    /// Whether shutdown has been requested.
    pub shutdown_triggered: bool,
    /// Whether the camera follows the mouse this frame.
    pub update_camera_look: bool,
}

/// Whether `k` is bound to `a`.
pub open spec fn bound_to(bindings: Map<KeyCode, Action>, a: Action) -> spec_fn(KeyCode) -> bool {
    |k: KeyCode| bindings.contains_key(k) && bindings[k] == a
}

/// The movement actions bound to `keys`, in order; keys bound to anything
/// else, or to nothing, contribute nothing.
pub open spec fn movement_actions(keys: Seq<KeyCode>, bindings: Map<KeyCode, Action>) -> Seq<Action>
    decreases keys.len(),
{
    if keys.len() == 0 {
        Seq::empty()
    } else {
        let k = keys.last();
        let rest = movement_actions(keys.drop_last(), bindings);
        if bindings.contains_key(k) && bindings[k].continuous() {
            rest.push(bindings[k])
        } else {
            rest
        }
    }
}

/// Each held key bound to a movement (forward, backward, left, right, up or
/// down) gives its movement, and every movement comes from such a key; one
/// movement per such key.
pub proof fn lemma_movements_from_held_keys(keys: Seq<KeyCode>, bindings: Map<KeyCode, Action>)
    ensures
        forall|i: int|
            0 <= i < keys.len() && bindings.contains_key(keys[i]) && (bindings[keys[i]]
                == Action::MoveForward || bindings[keys[i]] == Action::MoveBackward
                || bindings[keys[i]] == Action::MoveLeft || bindings[keys[i]] == Action::MoveRight
                || bindings[keys[i]] == Action::MoveUp || bindings[keys[i]] == Action::MoveDown)
                ==> movement_actions(keys, bindings).contains(#[trigger] bindings[keys[i]]),
        forall|j: int|
            0 <= j < movement_actions(keys, bindings).len() ==> exists|i: int|
                0 <= i < keys.len() && bindings.contains_key(keys[i]) && bindings[keys[i]]
                    == #[trigger] movement_actions(keys, bindings)[j],
        forall|j: int|
            0 <= j < movement_actions(keys, bindings).len() ==> {
                let a = #[trigger] movement_actions(keys, bindings)[j];
                a == Action::MoveForward || a == Action::MoveBackward || a == Action::MoveLeft || a
                    == Action::MoveRight || a == Action::MoveUp || a == Action::MoveDown
            },
        movement_actions(keys, bindings).len() <= keys.len(),
    decreases keys.len(),
{
    if keys.len() > 0 {
        let init = keys.drop_last();
        let k = keys.last();
        lemma_movements_from_held_keys(init, bindings);
        let rest = movement_actions(init, bindings);
        let mv = movement_actions(keys, bindings);
        assert forall|i: int|
            0 <= i < keys.len() && bindings.contains_key(keys[i]) && (bindings[keys[i]]
                == Action::MoveForward || bindings[keys[i]] == Action::MoveBackward
                || bindings[keys[i]] == Action::MoveLeft || bindings[keys[i]] == Action::MoveRight
                || bindings[keys[i]] == Action::MoveUp || bindings[keys[i]] == Action::MoveDown)
                implies mv.contains(#[trigger] bindings[keys[i]]) by {
            if i == keys.len() - 1 {
                assert(mv[mv.len() - 1] == bindings[k]);
            } else {
                assert(keys[i] == init[i]);
                assert(rest.contains(bindings[init[i]]));
                let j = choose|j: int| 0 <= j < rest.len() && rest[j] == bindings[init[i]];
                assert(mv[j] == rest[j]);
            }
        }
        assert forall|j: int| 0 <= j < mv.len() implies exists|i: int|
            0 <= i < keys.len() && bindings.contains_key(keys[i]) && bindings[keys[i]]
                == #[trigger] mv[j] by {
            if j < rest.len() {
                assert(mv[j] == rest[j]);
                let i = choose|i: int|
                    0 <= i < init.len() && bindings.contains_key(init[i]) && bindings[init[i]]
                        == rest[j];
                assert(keys[i] == init[i]);
            } else {
                assert(keys[keys.len() - 1] == k);
            }
        }
        assert forall|j: int| 0 <= j < mv.len() implies {
            let a = #[trigger] mv[j];
            a == Action::MoveForward || a == Action::MoveBackward || a == Action::MoveLeft || a
                == Action::MoveRight || a == Action::MoveUp || a == Action::MoveDown
        } by {
            if j < rest.len() {
                assert(mv[j] == rest[j]);
            }
        }
    }
}

/// Filtering a sequence without duplicates keeps it free of duplicates.
proof fn lemma_filter_no_duplicates(s: Seq<KeyCode>, p: spec_fn(KeyCode) -> bool)
    requires
        s.no_duplicates(),
    ensures
        s.filter(p).no_duplicates(),
    decreases s.len(),
{
    if s.len() > 0 {
        let init = s.drop_last();
        assert(s =~= init.push(s.last()));
        assert(init.no_duplicates());
        lemma_filter_no_duplicates(init, p);
        init.lemma_filter_push(s.last(), p);
        if p(s.last()) {
            assert(!init.contains(s.last()));
            if init.filter(p).contains(s.last()) {
                init.lemma_filter_contains_rev(p, s.last());
            }
        }
    }
}

/// Counting a predicate over an enumeration of a set without repetition
/// gives the size of the filtered set.
proof fn lemma_filter_count(s: Seq<KeyCode>, p: spec_fn(KeyCode) -> bool)
    requires
        s.no_duplicates(),
    ensures
        s.filter(p).len() == s.to_set().filter(p).len(),
{
    lemma_filter_no_duplicates(s, p);
    assert forall|k: KeyCode| s.filter(p).contains(k) <==> s.to_set().filter(p).contains(k) by {
        if s.filter(p).contains(k) {
            s.lemma_filter_contains_rev(p, k);
        }
        if s.to_set().filter(p).contains(k) {
            let i = choose|i: int| 0 <= i < s.len() && s[i] == k;
            s.lemma_filter_contains(p, i);
        }
    }
    assert(s.filter(p).to_set() =~= s.to_set().filter(p));
    s.filter(p).unique_seq_to_set();
}

/// One game-loop update of the input: unless the menu is open, every held
/// key bound to a movement yields that movement; every queued single-press
/// key is consumed, toggling the menu (for a key bound to `SetMenuMode`) or
/// requesting shutdown (for one bound to `Quit`). The camera follows the
/// mouse when the menu ends up closed.
pub fn update(
    input_state: &mut InputState,
    input_map: &InputMap,
    menu_mode: bool,
    shutdown_triggered: bool,
) -> (r: UpdateDecision)
    ensures
        final(input_state).continuous_pressed_keys@ == old(input_state).continuous_pressed_keys@,
        final(input_state).single_pressed_keys@ == Set::<KeyCode>::empty(),
        menu_mode ==> r.movements@.len() == 0,
        !menu_mode ==> exists|ks: Seq<KeyCode>|
            ks.no_duplicates() && ks.to_set() == old(input_state).continuous_pressed_keys@
                && r.movements@ == movement_actions(ks, input_map.bindings@),
        r.menu_mode == (menu_mode != (old(input_state).single_pressed_keys@.filter(
            bound_to(input_map.bindings@, Action::SetMenuMode),
        ).len() % 2 == 1)),
        r.shutdown_triggered == (shutdown_triggered || exists|k: KeyCode|
            old(input_state).single_pressed_keys@.contains(k) && #[trigger] bound_to(
                input_map.bindings@,
                Action::Quit,
            )(k)),
        r.update_camera_look == !r.menu_mode,
{
    let ghost b = input_map.bindings@;
    let ghost pt = bound_to(b, Action::SetMenuMode);
    let ghost pq = bound_to(b, Action::Quit);

    // Movement from held keys.
    let held = keys_of(&input_state.continuous_pressed_keys);
    let mut movements: Vec<Action> = Vec::new();
    let mut i: usize = 0;
    while i < held.len()
        invariant
            i <= held@.len(),
            b == input_map.bindings@,
            movements@ == (if menu_mode {
                Seq::empty()
            } else {
                movement_actions(held@.take(i as int), b)
            }),
        decreases held@.len() - i,
    {
        let key = held[i];
        proof {
            assert(held@.take(i + 1).drop_last() =~= held@.take(i as int));
            assert(held@.take(i + 1).last() == key);
        }
        if let Some(action) = input_map.get_action(&key) {
            if !menu_mode {
                match action {
                    Action::MoveForward | Action::MoveBackward | Action::MoveLeft
                    | Action::MoveRight | Action::MoveUp | Action::MoveDown => {
                        movements.push(action);
                    },
                    _ => {},
                }
            }
        }
        i = i + 1;
    }
    proof {
        assert(held@.take(held@.len() as int) =~= held@);
    }

    // Single-press keys, each handled once and then forgotten.
    let pressed = keys_of(&input_state.single_pressed_keys);
    let ghost queued = input_state.single_pressed_keys@;
    let mut menu = menu_mode;
    let mut shutdown = shutdown_triggered;
    let mut j: usize = 0;
    while j < pressed.len()
        invariant
            j <= pressed@.len(),
            b == input_map.bindings@,
            pt == bound_to(b, Action::SetMenuMode),
            pq == bound_to(b, Action::Quit),
            pressed@.no_duplicates(),
            pressed@.to_set() == queued,
            input_state.continuous_pressed_keys@ == old(input_state).continuous_pressed_keys@,
            input_state.single_pressed_keys@ == queued.difference(pressed@.take(j as int).to_set()),
            menu == (menu_mode != (pressed@.take(j as int).filter(pt).len() % 2 == 1)),
            shutdown == (shutdown_triggered || exists|m: int| 0 <= m < j && #[trigger] pq(pressed@[m])),
        decreases pressed@.len() - j,
    {
        let key = pressed[j];
        let ghost before = pressed@.take(j as int);
        let ghost shutdown_before = shutdown;
        proof {
            assert(pq(key) == (b.contains_key(key) && b[key] == Action::Quit));
            assert(pressed@[j as int] == key);
            assert(pressed@.take(j + 1) =~= before.push(key));
            before.lemma_filter_push(key, pt);
        }
        if let Some(action) = input_map.get_action(&key) {
            match action {
                Action::SetMenuMode => menu = !menu,
                Action::Quit => shutdown = true,
                _ => {},
            }
        }
        input_state.single_pressed_keys.remove(&key);
        proof {
            assert(input_state.single_pressed_keys@ =~= queued.difference(
                pressed@.take(j + 1).to_set(),
            )) by {
                assert forall|k: KeyCode| pressed@.take(j + 1).to_set().contains(k) <==> (before.to_set().contains(
                    k,
                ) || k == key) by {
                    if pressed@.take(j + 1).to_set().contains(k) {
                        let taken = pressed@.take(j + 1);
                        let m = choose|m: int| 0 <= m < taken.len() && #[trigger] taken[m] == k;
                        if m < j {
                            assert(before[m] == k);
                        }
                    }
                    if before.to_set().contains(k) {
                        let m = choose|m: int| 0 <= m < j && before[m] == k;
                        assert(pressed@.take(j + 1)[m] == k);
                    }
                    if k == key {
                        assert(pressed@.take(j + 1)[j as int] == k);
                    }
                }
            }
            assert(shutdown == (shutdown_triggered || exists|m: int|
                0 <= m < j + 1 && #[trigger] pq(pressed@[m]))) by {
                if exists|m: int| 0 <= m < j + 1 && #[trigger] pq(pressed@[m]) {
                    let m = choose|m: int| 0 <= m < j + 1 && #[trigger] pq(pressed@[m]);
                    if m == j {
                        assert(shutdown);
                    }
                }
                if shutdown && !shutdown_before {
                    assert(pq(pressed@[j as int]));
                }
            }
        }
        j = j + 1;
    }
    proof {
        assert(pressed@.take(pressed@.len() as int) =~= pressed@);
        assert(input_state.single_pressed_keys@ =~= Set::<KeyCode>::empty());
        lemma_filter_count(pressed@, pt);
        if shutdown && !shutdown_triggered {
            let m = choose|m: int| 0 <= m < pressed@.len() && #[trigger] pq(pressed@[m]);
            assert(queued.contains(pressed@[m]));
        }
        if exists|k: KeyCode| queued.contains(k) && #[trigger] pq(k) {
            let k = choose|k: KeyCode| queued.contains(k) && #[trigger] pq(k);
            assert(pressed@.to_set().contains(k));
            let m = choose|m: int| 0 <= m < pressed@.len() && pressed@[m] == k;
            assert(pq(pressed@[m]));
        }
    }

    UpdateDecision {
        movements,
        menu_mode: menu,
        shutdown_triggered: shutdown,
        update_camera_look: !menu,
    }
}

} // verus!
