//! Keyboard bookkeeping. Responds to inquiries regarding three sets of
//! keyboard input: keys pressed since the frame began, keys released since
//! the frame began, and keys currently held. Keys are plain identifiers the
//! windowing shell assigns.
use std::collections::HashMap;

use vstd::prelude::*;

verus! {

broadcast use vstd::std_specs::hash::group_hash_axioms;

/// Whether `key` is flagged in one of the key maps.
pub open spec fn key_flag(m: Map<u32, bool>, key: u32) -> bool {
    m.contains_key(key) && m[key]
}

/// Per-frame keyboard state.
pub struct Input {
    pressed_keys: HashMap<u32, bool>,
    released_keys: HashMap<u32, bool>,
    held_keys: HashMap<u32, bool>,
}

impl Input {
    /// Keys pressed since the last `begin_new_frame`.
    pub closed spec fn pressed_map(self) -> Map<u32, bool> {
        self.pressed_keys@
    }

    /// Keys released since the last `begin_new_frame`.
    pub closed spec fn released_map(self) -> Map<u32, bool> {
        self.released_keys@
    }

    /// Keys currently held down.
    pub closed spec fn held_map(self) -> Map<u32, bool> {
        self.held_keys@
    }

    /// Fresh state: no key pressed, released or held.
    pub fn new() -> (r: Input)
        ensures
            r.pressed_map() == Map::<u32, bool>::empty(),
            r.released_map() == Map::<u32, bool>::empty(),
            r.held_map() == Map::<u32, bool>::empty(),
    {
        Input {
            pressed_keys: HashMap::new(),
            released_keys: HashMap::new(),
            held_keys: HashMap::new(),
        }
    }

    /// Resets the toggle states of pressed and released keys; held keys
    /// carry over to the new frame.
    pub fn begin_new_frame(&mut self)
        ensures
            final(self).pressed_map() == Map::<u32, bool>::empty(),
            final(self).released_map() == Map::<u32, bool>::empty(),
            final(self).held_map() == old(self).held_map(),
    {
        self.pressed_keys.clear();
        self.released_keys.clear();
    }

    /// Handles a key down event.
    pub fn key_down_event(&mut self, key: u32)
        ensures
            final(self).pressed_map() == old(self).pressed_map().insert(key, true),
            final(self).held_map() == old(self).held_map().insert(key, true),
            final(self).released_map() == old(self).released_map(),
    {
        self.pressed_keys.insert(key, true);
        self.held_keys.insert(key, true);
    }

    /// Handles a key up event.
    pub fn key_up_event(&mut self, key: u32)
        ensures
            final(self).released_map() == old(self).released_map().insert(key, true),
            final(self).held_map() == old(self).held_map().insert(key, false),
            final(self).pressed_map() == old(self).pressed_map(),
    {
        self.released_keys.insert(key, true);
        self.held_keys.insert(key, false);
    }

    /// Responds true exactly when `key` was pressed since the last call to
    /// `begin_new_frame`.
    pub fn was_key_pressed(&self, key: u32) -> (r: bool)
        ensures
            r == key_flag(self.pressed_map(), key),
    {
        match self.pressed_keys.get(&key) {
            Some(is_pressed) => *is_pressed,
            None => false,
        }
    }

    /// Responds true exactly when `key` was released since the last call to
    /// `begin_new_frame`.
    pub fn was_key_released(&self, key: u32) -> (r: bool)
        ensures
            r == key_flag(self.released_map(), key),
    {
        match self.released_keys.get(&key) {
            Some(is_released) => *is_released,
            None => false,
        }
    }

    /// Responds true exactly when `key` has been pressed and not yet
    /// released.
    pub fn is_key_held(&self, key: u32) -> (r: bool)
        ensures
            r == key_flag(self.held_map(), key),
    {
        match self.held_keys.get(&key) {
            Some(is_held) => *is_held,
            None => false,
        }
    }
}

} // verus!
