//! The set of keys that are currently held down.
//!
//! The event thread records key-down and key-up events here; the render
//! thread reads the keys once per frame. A key is listed at most once,
//! however often the system repeats its key-down event.

use vstd::prelude::*;

verus! {

/// A key of the keyboard. The keys that the renderer reacts to have a name;
/// any other key is told apart by its code.
#[derive(Clone, Copy, Debug, PartialEq, Eq, Hash, Structural)]
pub enum Key {
    W,
    A,
    S,
    D,
    Space,
    LShift,
    Up,
    Down,
    Left,
    Right,
    Escape,
    Q,
    Other(u32),
}

/// Whether a keyboard event reports a key going down or coming up.
#[derive(Clone, Copy, Debug, PartialEq, Eq, Structural)]
pub enum KeyState {
    Pressed,
    Released,
}

/// The keys after a key-down event for `key`: inserted if absent.
pub open spec fn pressed(keys: Seq<Key>, key: Key) -> Seq<Key> {
    if keys.contains(key) {
        keys
    } else {
        keys.push(key)
    }
}

/// The keys after a key-up event for `key`: removed if present.
pub open spec fn released(keys: Seq<Key>, key: Key) -> Seq<Key> {
    if keys.contains(key) {
        keys.remove(keys.index_of(key))
    } else {
        keys
    }
}

/// The keys after one keyboard event.
pub open spec fn applied(keys: Seq<Key>, key: Key, state: KeyState) -> Seq<Key> {
    match state {
        KeyState::Pressed => pressed(keys, key),
        KeyState::Released => released(keys, key),
    }
}

/// The keys after `n` key-down events in a row for the same key.
pub open spec fn pressed_times(keys: Seq<Key>, key: Key, n: nat) -> Seq<Key>
    decreases n,
{
    if n == 0 {
        keys
    } else {
        pressed(pressed_times(keys, key, (n - 1) as nat), key)
    }
}

/// The keys that are down, in the order in which they went down.
pub struct PressedKeys {
    keys: Vec<Key>,
}

impl View for PressedKeys {
    type V = Seq<Key>;

    closed spec fn view(&self) -> Seq<Key> {
        self.keys@
    }
}

impl PressedKeys {
    /// No key is listed twice.
    pub open spec fn wf(&self) -> bool {
        self@.no_duplicates()
    }

    /// No key is down.
    pub fn new() -> (keys: Self)
        ensures
            keys.wf(),
            keys@.len() == 0,
    {
        PressedKeys { keys: Vec::new() }
    }

    /// Number of keys that are down.
    pub fn len(&self) -> (n: usize)
        ensures
            n == self@.len(),
    {
        self.keys.len()
    }

    /// Position of `key` in the list, if it is down.
    pub fn position(&self, key: Key) -> (r: Option<usize>)
        ensures
            match r {
                Some(i) => i < self@.len() && self@[i as int] == key && forall|j: int|
                    0 <= j < i ==> self@[j] != key,
                None => !self@.contains(key),
            },
    {
        let mut i: usize = 0;
        while i < self.keys.len()
            invariant
                i <= self.keys@.len(),
                forall|j: int| 0 <= j < i ==> self.keys@[j] != key,
            decreases self.keys.len() - i,
        {
            if self.keys[i] == key {
                return Some(i);
            }
            i += 1;
        }
        None
    }

    /// Whether `key` is down.
    pub fn contains(&self, key: Key) -> (r: bool)
        ensures
            r == self@.contains(key),
    {
        self.position(key).is_some()
    }

    /// Records a key-down event. A key that is already down stays listed
    /// once.
    pub fn press(&mut self, key: Key)
        requires
            old(self).wf(),
        ensures
            final(self).wf(),
            final(self)@ == pressed(old(self)@, key),
    {
        if !self.contains(key) {
            self.keys.push(key);
        }
    }

    /// Records a key-up event. Releasing a key that is not down changes
    /// nothing.
    pub fn release(&mut self, key: Key)
        requires
            old(self).wf(),
        ensures
            final(self).wf(),
            final(self)@ == released(old(self)@, key),
    {
        match self.position(key) {
            Some(i) => {
                proof {
                    lemma_released(self@, key);
                }
                self.keys.remove(i);
            },
            None => {},
        }
    }

    /// Records one keyboard event.
    pub fn apply(&mut self, key: Key, state: KeyState)
        requires
            old(self).wf(),
        ensures
            final(self).wf(),
            final(self)@ == applied(old(self)@, key, state),
    {
        match state {
            KeyState::Pressed => self.press(key),
            KeyState::Released => self.release(key),
        }
    }

    /// A copy of the keys that are down, for the frame that is about to be
    /// drawn.
    pub fn snapshot(&self) -> (keys: Vec<Key>)
        ensures
            keys@ == self@,
    {
        let mut out: Vec<Key> = Vec::new();
        let mut i: usize = 0;
        while i < self.keys.len()
            invariant
                i <= self.keys@.len(),
                out@ == self.keys@.take(i as int),
            decreases self.keys.len() - i,
        {
            out.push(self.keys[i]);
            proof {
                self.keys@.lemma_take_succ_push(i as int);
            }
            i += 1;
        }
        proof {
            self.keys@.lemma_take_len();
        }
        out
    }
}

/// In a list without repetition a key has one position; releasing it
/// leaves a list without repetition that no longer holds the key, while
/// every other key stays.
pub proof fn lemma_released(keys: Seq<Key>, key: Key)
    requires
        keys.no_duplicates(),
    ensures
        released(keys, key).no_duplicates(),
        !released(keys, key).contains(key),
        forall|other: Key| other != key ==> (released(keys, key).contains(other) <==> keys.contains(other)),
        forall|i: int| 0 <= i < keys.len() && keys[i] == key ==> keys.index_of(key) == i,
{
    if keys.contains(key) {
        let at = keys.index_of(key);
        let after = keys.remove(at);
        assert forall|other: Key| other != key implies (after.contains(other) <==> keys.contains(
            other,
        )) by {
            if after.contains(other) {
                let j = choose|j: int| 0 <= j < after.len() && after[j] == other;
                assert(keys[if j < at { j } else { j + 1 }] == other);
            }
            if keys.contains(other) {
                let j = choose|j: int| 0 <= j < keys.len() && keys[j] == other;
                assert(after[if j < at { j } else { j - 1 }] == other);
            }
        }
        assert(!after.contains(key)) by {
            if after.contains(key) {
                let j = choose|j: int| 0 <= j < after.len() && after[j] == key;
                assert(keys[if j < at { j } else { j + 1 }] == key);
            }
        }
    }
}

/// A key-down event followed by any number of further key-down events for
/// the same key leaves the key listed exactly once; the key-up event that
/// follows removes it; and a second key-up event changes nothing.
pub proof fn lemma_key_state_idempotent(keys: Seq<Key>, key: Key, n: nat)
    requires
        keys.no_duplicates(),
    ensures
        pressed_times(pressed(keys, key), key, n) == pressed(keys, key),
        pressed(keys, key).no_duplicates(),
        pressed(keys, key).to_multiset().count(key) == 1,
        !released(pressed(keys, key), key).contains(key),
        released(pressed(keys, key), key).no_duplicates(),
        !keys.contains(key) ==> released(pressed(keys, key), key) == keys,
        released(released(pressed(keys, key), key), key) == released(pressed(keys, key), key),
    decreases n,
{
    let down = pressed(keys, key);
    assert(down.contains(key)) by {
        if !keys.contains(key) {
            assert(down[keys.len() as int] == key);
        }
    }
    if n > 0 {
        lemma_key_state_idempotent(keys, key, (n - 1) as nat);
    }
    down.lemma_multiset_has_no_duplicates();
    vstd::seq_lib::to_multiset_contains(down, key);
    lemma_released(down, key);
    if !keys.contains(key) {
        assert(down[keys.len() as int] == key);
        assert(down.remove(keys.len() as int) =~= keys);
    }
}

} // verus!
