//! Debounced keyboard state, advanced once per frame.

use vstd::prelude::*;

verus! {

/// The state of one key within the current frame.
#[derive(Debug, Clone, Copy, PartialEq, Eq, Structural)]
pub enum KeyState {
    /// Went down since the last frame.
    Press,
    /// Still down after at least one frame.
    Kept,
    /// Went up; the entry leaves the map at the next frame.
    Release,
}

impl KeyState {
    /// A key counts as pressed while it is in `Press` or `Kept`.
    pub open spec fn spec_is_pressing(&self) -> bool {
        *self is Press || *self is Kept
    }

    #[verifier::when_used_as_spec(spec_is_pressing)]
    pub fn is_pressing(&self) -> (r: bool)
        ensures
            r == self.spec_is_pressing(),
    {
        *self == KeyState::Press || *self == KeyState::Kept
    }
}

/// Entries as `(key, state)` pairs, in the order in which they are stored.
pub type KeyEntries = Seq<(Seq<char>, KeyState)>;

/// No key occurs twice among the entries.
pub open spec fn keys_unique(s: KeyEntries) -> bool {
    forall|i: int, j: int|
        0 <= i < s.len() && 0 <= j < s.len() && #[trigger] s[i].0 == #[trigger] s[j].0 ==> i == j
}

/// The map from key to state that a list of entries with unique keys stands for.
pub open spec fn map_of_entries(s: KeyEntries) -> Map<Seq<char>, KeyState> {
    Map::new(
        |k: Seq<char>| exists|i: int| 0 <= i < s.len() && s[i].0 == k,
        |k: Seq<char>| s[choose|i: int| 0 <= i < s.len() && s[i].0 == k].1,
    )
}

/// Whether `k` has an entry whose state counts as pressed.
pub open spec fn key_pressing(m: Map<Seq<char>, KeyState>, k: Seq<char>) -> bool {
    m.contains_key(k) && m[k].spec_is_pressing()
}

/// The map after a press notification: a key that already has an entry keeps it.
pub open spec fn pressed(m: Map<Seq<char>, KeyState>, k: Seq<char>) -> Map<Seq<char>, KeyState> {
    if m.contains_key(k) {
        m
    } else {
        m.insert(k, KeyState::Press)
    }
}

/// The map after a release notification.
pub open spec fn released(m: Map<Seq<char>, KeyState>, k: Seq<char>) -> Map<Seq<char>, KeyState> {
    m.insert(k, KeyState::Release)
}

/// The state that a key still held keeps into the next frame.
pub open spec fn advanced(s: KeyState) -> KeyState {
    if s is Press {
        KeyState::Kept
    } else {
        s
    }
}

/// The map after one frame: `Press` becomes `Kept`, and `Release` entries leave.
pub open spec fn ticked(m: Map<Seq<char>, KeyState>) -> Map<Seq<char>, KeyState> {
    Map::new(|k: Seq<char>| m.contains_key(k) && !(m[k] is Release), |k: Seq<char>| advanced(m[k]))
}

/// The map after focus is lost: every key is released, none is removed yet.
pub open spec fn purged(m: Map<Seq<char>, KeyState>) -> Map<Seq<char>, KeyState> {
    Map::new(|k: Seq<char>| m.contains_key(k), |k: Seq<char>| KeyState::Release)
}

/// Pressing a key that has no entry, and pressing it again before the next
/// frame, leaves the map as the first press left it: one entry for the key, in
/// `Press`. After one frame that entry is `Kept`, and the key counts as pressed
/// both before and after the frame.
pub proof fn lemma_press_is_debounced(m: Map<Seq<char>, KeyState>, k: Seq<char>)
    requires
        !m.contains_key(k),
    ensures
        pressed(pressed(m, k), k) == pressed(m, k),
        pressed(m, k).contains_key(k),
        pressed(m, k)[k] == KeyState::Press,
        key_pressing(pressed(m, k), k),
        ticked(pressed(m, k)).contains_key(k),
        ticked(pressed(m, k))[k] == KeyState::Kept,
        key_pressing(ticked(pressed(m, k)), k),
{
}

/// A key that is released and then advanced by one frame has no entry left,
/// so it no longer counts as pressed.
pub proof fn lemma_release_then_tick_removes(m: Map<Seq<char>, KeyState>, k: Seq<char>)
    ensures
        !ticked(released(m, k)).contains_key(k),
        !key_pressing(ticked(released(m, k)), k),
{
}

proof fn lemma_entry_in_map(s: KeyEntries, i: int)
    requires
        keys_unique(s),
        0 <= i < s.len(),
    ensures
        map_of_entries(s).contains_key(s[i].0),
        map_of_entries(s)[s[i].0] == s[i].1,
{
    let k = s[i].0;
    assert(exists|j: int| 0 <= j < s.len() && s[j].0 == k);
    let j = choose|j: int| 0 <= j < s.len() && s[j].0 == k;
    assert(j == i);
}

/// A map that holds exactly the entries of `s`, and no other key, is the map they stand for.
proof fn lemma_map_of_entries_ext(s: KeyEntries, m: Map<Seq<char>, KeyState>)
    requires
        forall|j: int| 0 <= j < s.len() ==> m.contains_key(#[trigger] s[j].0) && m[s[j].0] == s[j].1,
        forall|k: Seq<char>| #[trigger] m.contains_key(k) ==> exists|j: int| 0 <= j < s.len() && s[j].0 == k,
    ensures
        map_of_entries(s) == m,
{
    let r = map_of_entries(s);
    assert forall|k: Seq<char>| r.contains_key(k) <==> m.contains_key(k) by {
        if r.contains_key(k) {
            let j = choose|j: int| 0 <= j < s.len() && s[j].0 == k;
            assert(m.contains_key(s[j].0));
        }
    }
    assert forall|k: Seq<char>| #[trigger] r.contains_key(k) implies r[k] == m[k] by {
        let j = choose|j: int| 0 <= j < s.len() && s[j].0 == k;
        assert(m.contains_key(s[j].0));
    }
    assert(r =~= m);
}

/// The stored pairs, with each key seen as its characters.
spec fn entries_of(v: Seq<(String, KeyState)>) -> KeyEntries {
    v.map_values(|e: (String, KeyState)| (e.0@, e.1))
}

/// The state of every key that has been seen and not yet retired.
pub struct KeyStateMap {
    key_states: Vec<(String, KeyState)>,
}

impl View for KeyStateMap {
    type V = Map<Seq<char>, KeyState>;

    closed spec fn view(&self) -> Map<Seq<char>, KeyState> {
        map_of_entries(self.entries())
    }
}

impl KeyStateMap {
    closed spec fn entries(&self) -> KeyEntries {
        entries_of(self.key_states@)
    }

    /// Well-formed: no key has two entries.
    pub closed spec fn wf(&self) -> bool {
        keys_unique(self.entries())
    }

    pub fn new() -> (r: Self)
        ensures
            r.wf(),
            r@ == Map::<Seq<char>, KeyState>::empty(),
    {
        let r = Self { key_states: Vec::new() };
        assert(r@ =~= Map::<Seq<char>, KeyState>::empty());
        r
    }

    /// The position of the entry for `key`, if there is one.
    fn find(&self, key: &String) -> (r: Option<usize>)
        ensures
            match r {
                Some(i) => i < self.key_states@.len() && self.key_states@[i as int].0@ == key@,
                None => !self@.contains_key(key@),
            },
    {
        let mut i: usize = 0;
        while i < self.key_states.len()
            invariant
                i <= self.key_states@.len(),
                forall|j: int| 0 <= j < i ==> self.entries()[j].0 != key@,
            decreases self.key_states@.len() - i,
        {
            if self.key_states[i].0 == *key {
                return Some(i);
            }
            i = i + 1;
        }
        None
    }

    /// Sets the state of `key`, adding an entry where there is none.
    pub fn insert(&mut self, key: String, state: KeyState)
        requires
            old(self).wf(),
        ensures
            final(self).wf(),
            final(self)@ == old(self)@.insert(key@, state),
    {
        let ghost old_entries = self.entries();
        let ghost k = key@;
        let ghost m = old(self)@.insert(k, state);
        match self.find(&key) {
            Some(i) => {
                self.key_states.set(i, (key, state));
                proof {
                    let s = self.entries();
                    assert(old_entries[i as int].0 == k);
                    assert(s =~= old_entries.update(i as int, (k, state)));
                    assert(forall|j: int| 0 <= j < s.len() ==> s[j].0 == old_entries[j].0);
                    assert(keys_unique(s));
                    assert forall|j: int| 0 <= j < s.len() implies m.contains_key(#[trigger] s[j].0)
                        && m[s[j].0] == s[j].1 by {
                        if j != i {
                            lemma_entry_in_map(old_entries, j);
                        }
                    }
                    assert forall|kk: Seq<char>| #[trigger] m.contains_key(kk) implies exists|j: int|
                        0 <= j < s.len() && s[j].0 == kk by {
                        if kk == k {
                            assert(s[i as int].0 == kk);
                        } else {
                            let j = choose|j: int|
                                0 <= j < old_entries.len() && old_entries[j].0 == kk;
                            assert(s[j].0 == kk);
                        }
                    }
                    lemma_map_of_entries_ext(s, m);
                }
            },
            None => {
                self.key_states.push((key, state));
                proof {
                    let s = self.entries();
                    let n = old_entries.len() as int;
                    assert(s =~= old_entries.push((k, state)));
                    assert forall|j: int| 0 <= j < n implies old_entries[j].0 != k by {
                        if old_entries[j].0 == k {
                            assert(old(self)@.contains_key(k));
                        }
                    }
                    assert(keys_unique(s));
                    assert forall|j: int| 0 <= j < s.len() implies m.contains_key(#[trigger] s[j].0)
                        && m[s[j].0] == s[j].1 by {
                        if j != n {
                            lemma_entry_in_map(old_entries, j);
                        }
                    }
                    assert forall|kk: Seq<char>| #[trigger] m.contains_key(kk) implies exists|j: int|
                        0 <= j < s.len() && s[j].0 == kk by {
                        if kk == k {
                            assert(s[n].0 == kk);
                        } else {
                            let j = choose|j: int|
                                0 <= j < old_entries.len() && old_entries[j].0 == kk;
                            assert(s[j].0 == kk);
                        }
                    }
                    lemma_map_of_entries_ext(s, m);
                }
            },
        }
    }

    pub fn get(&self, key: &str) -> (r: Option<&KeyState>)
        requires
            self.wf(),
        ensures
            match r {
                Some(state) => self@.contains_key(key@) && *state == self@[key@],
                None => !self@.contains_key(key@),
            },
    {
        let owned = key.to_owned();
        match self.find(&owned) {
            Some(i) => {
                proof {
                    lemma_entry_in_map(self.entries(), i as int);
                }
                Some(&self.key_states[i].1)
            },
            None => None,
        }
    }

    /// Whether `key` is down in this frame.
    pub fn is_pressing(&self, key: &str) -> (r: bool)
        requires
            self.wf(),
        ensures
            r == key_pressing(self@, key@),
    {
        match self.get(key) {
            Some(state) => state.is_pressing(),
            None => false,
        }
    }

    /// Records that `key` went down. A key that already has an entry keeps it,
    /// so repeated notifications while the key is held change nothing.
    pub fn notify_press(&mut self, key: String)
        requires
            old(self).wf(),
        ensures
            final(self).wf(),
            final(self)@ == pressed(old(self)@, key@),
    {
        match self.find(&key) {
            Some(i) => {
                proof {
                    lemma_entry_in_map(self.entries(), i as int);
                }
            },
            None => {
                self.insert(key, KeyState::Press);
            },
        }
    }

    /// Records that `key` went up.
    pub fn notify_release(&mut self, key: String)
        requires
            old(self).wf(),
        ensures
            final(self).wf(),
            final(self)@ == released(old(self)@, key@),
    {
        self.insert(key, KeyState::Release);
    }

    /// Every entry, each key once, in no particular order.
    pub fn iter(&self) -> (r: &[(String, KeyState)])
        requires
            self.wf(),
        ensures
            forall|i: int|
                0 <= i < r@.len() ==> self@.contains_key(#[trigger] r@[i].0@) && self@[r@[i].0@]
                    == r@[i].1,
            forall|k: Seq<char>| #[trigger]
                self@.contains_key(k) ==> exists|i: int| 0 <= i < r@.len() && r@[i].0@ == k,
            forall|i: int, j: int|
                0 <= i < r@.len() && 0 <= j < r@.len() && #[trigger] r@[i].0@ == #[trigger] r@[j].0@
                    ==> i == j,
    {
        let r = self.key_states.as_slice();
        proof {
            let s = self.entries();
            assert forall|i: int| 0 <= i < r@.len() implies self@.contains_key(#[trigger] r@[i].0@)
                && self@[r@[i].0@] == r@[i].1 by {
                assert(s[i] == (r@[i].0@, r@[i].1));
                lemma_entry_in_map(s, i);
            }
            assert forall|k: Seq<char>| #[trigger] self@.contains_key(k) implies exists|i: int|
                0 <= i < r@.len() && r@[i].0@ == k by {
                let i = choose|i: int| 0 <= i < s.len() && s[i].0 == k;
                assert(r@[i].0@ == k);
            }
            assert forall|i: int, j: int|
                0 <= i < r@.len() && 0 <= j < r@.len() && #[trigger] r@[i].0@ == #[trigger] r@[j].0@
                    implies i == j by {
                assert(s[i].0 == r@[i].0@);
                assert(s[j].0 == r@[j].0@);
            }
        }
        r
    }

    /// Advances every entry by one frame: `Press` becomes `Kept`, and the
    /// entries in `Release` are removed.
    pub fn update(&mut self)
        requires
            old(self).wf(),
        ensures
            final(self).wf(),
            final(self)@ == ticked(old(self)@),
    {
        let ghost old_entries = self.entries();
        let ghost m = ticked(old(self)@);
        let mut kept: Vec<(String, KeyState)> = Vec::new();
        // the position in `old_entries` that each kept entry comes from
        let ghost mut src: Seq<int> = Seq::empty();
        let mut i: usize = 0;
        while i < self.key_states.len()
            invariant
                i <= self.key_states@.len(),
                self.entries() == old_entries,
                keys_unique(old_entries),
                keys_unique(entries_of(kept@)),
                src.len() == kept@.len(),
                forall|a: int|
                    0 <= a < kept@.len() ==> 0 <= #[trigger] src[a] < i && old_entries[src[a]].0
                        == kept@[a].0@ && !(old_entries[src[a]].1 is Release) && kept@[a].1
                        == advanced(old_entries[src[a]].1),
                forall|j: int|
                    0 <= j < i && !(#[trigger] old_entries[j].1 is Release) ==> exists|a: int|
                        0 <= a < kept@.len() && kept@[a].0@ == old_entries[j].0,
            decreases self.key_states@.len() - i,
        {
            let state = self.key_states[i].1;
            if state != KeyState::Release {
                let next = if state == KeyState::Press {
                    KeyState::Kept
                } else {
                    state
                };
                let ghost before = kept@;
                kept.push((self.key_states[i].0.clone(), next));
                proof {
                    let n = before.len() as int;
                    src = src.push(i as int);
                    assert(old_entries[i as int] == (self.key_states@[i as int].0@, state));
                    assert forall|a: int| 0 <= a < n implies kept@[a].0@ != old_entries[i as int].0 by {
                        assert(kept@[a] == before[a]);
                        assert(old_entries[src[a]].0 == before[a].0@);
                    }
                    let e = entries_of(kept@);
                    assert forall|a: int, b: int|
                        0 <= a < e.len() && 0 <= b < e.len() && #[trigger] e[a].0 == #[trigger] e[b].0
                            implies a == b by {
                        if a < n && b < n {
                            assert(entries_of(before)[a].0 == e[a].0);
                            assert(entries_of(before)[b].0 == e[b].0);
                        }
                    }
                    assert forall|j: int| 0 <= j < i + 1 && !(#[trigger] old_entries[j].1 is Release)
                        implies exists|a: int| 0 <= a < kept@.len() && kept@[a].0@ == old_entries[j].0 by {
                        if j == i {
                            assert(kept@[n].0@ == old_entries[j].0);
                        } else {
                            let a = choose|a: int| 0 <= a < n && before[a].0@ == old_entries[j].0;
                            assert(kept@[a] == before[a]);
                        }
                    }
                }
            } else {
                proof {
                    assert(old_entries[i as int].1 == state);
                }
            }
            i = i + 1;
        }
        proof {
            let s = entries_of(kept@);
            assert forall|a: int| 0 <= a < s.len() implies m.contains_key(#[trigger] s[a].0)
                && m[s[a].0] == s[a].1 by {
                lemma_entry_in_map(old_entries, src[a]);
            }
            assert forall|k: Seq<char>| #[trigger] m.contains_key(k) implies exists|a: int|
                0 <= a < s.len() && s[a].0 == k by {
                let j = choose|j: int| 0 <= j < old_entries.len() && old_entries[j].0 == k;
                lemma_entry_in_map(old_entries, j);
                let a = choose|a: int| 0 <= a < kept@.len() && kept@[a].0@ == old_entries[j].0;
                assert(s[a].0 == k);
            }
            lemma_map_of_entries_ext(s, m);
        }
        self.key_states = kept;
    }

    /// Releases every key, as when input focus is lost. The entries stay
    /// until the next `update`.
    pub fn purge(&mut self)
        requires
            old(self).wf(),
        ensures
            final(self).wf(),
            final(self)@ == purged(old(self)@),
    {
        let ghost old_entries = self.entries();
        let ghost m = purged(old(self)@);
        let mut released: Vec<(String, KeyState)> = Vec::new();
        let mut i: usize = 0;
        while i < self.key_states.len()
            invariant
                i <= self.key_states@.len(),
                self.entries() == old_entries,
                released@.len() == i,
                forall|a: int|
                    0 <= a < i ==> #[trigger] entries_of(released@)[a] == (old_entries[a].0, KeyState::Release),
            decreases self.key_states@.len() - i,
        {
            let ghost before = released@;
            released.push((self.key_states[i].0.clone(), KeyState::Release));
            proof {
                assert forall|a: int| 0 <= a < i + 1 implies #[trigger] entries_of(released@)[a] == (
                old_entries[a].0, KeyState::Release) by {
                    if a < i {
                        assert(entries_of(before)[a] == entries_of(released@)[a]);
                    }
                }
            }
            i = i + 1;
        }
        proof {
            let s = entries_of(released@);
            assert(keys_unique(s)) by {
                assert forall|a: int, b: int|
                    0 <= a < s.len() && 0 <= b < s.len() && #[trigger] s[a].0 == #[trigger] s[b].0 implies a == b by {
                    assert(old_entries[a].0 == s[a].0);
                    assert(old_entries[b].0 == s[b].0);
                }
            }
            assert forall|a: int| 0 <= a < s.len() implies m.contains_key(#[trigger] s[a].0)
                && m[s[a].0] == s[a].1 by {
                lemma_entry_in_map(old_entries, a);
            }
            assert forall|k: Seq<char>| #[trigger] m.contains_key(k) implies exists|a: int|
                0 <= a < s.len() && s[a].0 == k by {
                let j = choose|j: int| 0 <= j < old_entries.len() && old_entries[j].0 == k;
                assert(s[j].0 == k);
            }
            lemma_map_of_entries_ext(s, m);
        }
        self.key_states = released;
    }
}

} // verus!
