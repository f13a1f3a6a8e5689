//! Mutual exclusion between the requests that touch one upload.
//!
//! Storing a chunk, probing for completeness and merging, and aborting all
//! change the staging area of an upload. A request takes the token of the
//! upload before it does any of this and gives it back when it is done, so
//! that two requests never work on one staging area at a time. Uploads to
//! other destinations have other tokens and are not held up.

use crate::storage::same_chars;
use crate::text::chars_of;
use vstd::prelude::*;

verus! {

/// What an upload is known by: the root of the storage and the destination
/// below it.
#[derive(Debug)]
pub struct SessionKey {
    pub root: String,
    pub destination: String,
}

/// What a [`SessionKey`] stands for.
pub struct SessionKeyView {
    pub root: Seq<char>,
    pub destination: Seq<char>,
}

impl View for SessionKey {
    type V = SessionKeyView;

    open spec fn view(&self) -> SessionKeyView {
        SessionKeyView { root: self.root@, destination: self.destination@ }
    }
}

impl SessionKey {
    /// A copy of this key.
    pub fn duplicate(&self) -> (copy: SessionKey)
        ensures
            copy@ == self@,
    {
        SessionKey { root: self.root.clone(), destination: self.destination.clone() }
    }
}

/// The tokens that are taken.
pub struct SessionLocks {
    held: Vec<SessionKey>,
}

spec fn keys_of(held: Seq<SessionKey>) -> Set<SessionKeyView> {
    Set::new(|key: SessionKeyView| exists|i: int| 0 <= i < held.len() && (#[trigger] held[i])@ == key)
}

spec fn no_key_twice(held: Seq<SessionKey>) -> bool {
    forall|i: int, j: int| 0 <= i < j < held.len() ==> (#[trigger] held[i])@ != (#[trigger] held[j])@
}

impl View for SessionLocks {
    type V = Set<SessionKeyView>;

    closed spec fn view(&self) -> Set<SessionKeyView> {
        keys_of(self.held@)
    }
}

impl SessionLocks {
    #[verifier::type_invariant]
    spec fn each_once(self) -> bool {
        no_key_twice(self.held@)
    }

    /// No token is taken.
    pub fn new() -> (locks: SessionLocks)
        ensures
            locks@ == Set::<SessionKeyView>::empty(),
    {
        let locks = SessionLocks { held: Vec::new() };
        assert(locks@ =~= Set::<SessionKeyView>::empty());
        locks
    }

    /// Is the token of `key` taken?
    pub fn is_held(&self, key: &SessionKey) -> (held: bool)
        ensures
            held == self@.contains(key@),
    {
        find_key(&self.held, key).is_some()
    }

    /// Takes the token of `key` if it is free. The answer says whether it
    /// was: `false` leaves everything as it is, and the caller has to wait.
    pub fn try_acquire(&mut self, key: SessionKey) -> (taken: bool)
        ensures
            taken == !old(self)@.contains(key@),
            final(self)@ == old(self)@.insert(key@),
    {
        proof {
            use_type_invariant(&*self);
        }
        let mut taken_out = SessionLocks { held: Vec::new() };
        core::mem::swap(self, &mut taken_out);
        let SessionLocks { held } = taken_out;
        let mut held = held;
        let ghost before = held@;
        let free = find_key(&held, &key).is_none();
        if free {
            let ghost wanted = key@;
            held.push(key);
            proof {
                assert(held@[before.len() as int]@ == wanted);
                assert forall|other: SessionKeyView|
                    keys_of(held@).contains(other) <==> keys_of(before).insert(wanted).contains(
                        other,
                    ) by {
                    if keys_of(held@).contains(other) {
                        let i = choose|i: int| 0 <= i < held@.len() && (#[trigger] held@[i])@ == other;
                        if i < before.len() {
                            assert(before[i]@ == other);
                        }
                    }
                    if keys_of(before).contains(other) {
                        let i = choose|i: int| 0 <= i < before.len() && (#[trigger] before[i])@ == other;
                        assert(held@[i]@ == other);
                    }
                }
                assert(keys_of(held@) =~= keys_of(before).insert(wanted));
                assert forall|i: int, j: int| 0 <= i < j < held@.len() implies (#[trigger] held@[i])@ != (
                #[trigger] held@[j])@ by {
                    if j == before.len() {
                        assert(before[i]@ != wanted);
                    } else {
                        assert(before[i]@ != before[j]@);
                    }
                }
            }
        } else {
            assert(keys_of(before) =~= keys_of(before).insert(key@));
        }
        *self = SessionLocks { held };
        free
    }

    /// Gives the token of `key` back. The answer says whether it was taken.
    pub fn release(&mut self, key: &SessionKey) -> (was_held: bool)
        ensures
            was_held == old(self)@.contains(key@),
            final(self)@ == old(self)@.remove(key@),
    {
        proof {
            use_type_invariant(&*self);
        }
        let mut taken_out = SessionLocks { held: Vec::new() };
        core::mem::swap(self, &mut taken_out);
        let SessionLocks { held } = taken_out;
        let mut held = held;
        let ghost before = held@;
        let found = find_key(&held, key);
        let was_held = match found {
            Some(at) => {
                held.remove(at);
                proof {
                    assert forall|other: SessionKeyView|
                        keys_of(held@).contains(other) <==> keys_of(before).remove(key@).contains(
                            other,
                        ) by {
                        if keys_of(held@).contains(other) {
                            let i = choose|i: int|
                                0 <= i < held@.len() && (#[trigger] held@[i])@ == other;
                            let b = if i < at {
                                i
                            } else {
                                i + 1
                            };
                            assert(before[b]@ == other);
                            if b < at {
                                assert(before[b]@ != before[at as int]@);
                            } else {
                                assert(before[at as int]@ != before[b]@);
                            }
                        }
                        if keys_of(before).contains(other) && other != key@ {
                            let i = choose|i: int|
                                0 <= i < before.len() && (#[trigger] before[i])@ == other;
                            if i < at {
                                assert(held@[i]@ == other);
                            } else {
                                assert(held@[i - 1]@ == other);
                            }
                        }
                    }
                    assert(keys_of(held@) =~= keys_of(before).remove(key@));
                    assert forall|i: int, j: int| 0 <= i < j < held@.len() implies (
                    #[trigger] held@[i])@ != (#[trigger] held@[j])@ by {
                        let bi = if i < at {
                            i
                        } else {
                            i + 1
                        };
                        let bj = if j < at {
                            j
                        } else {
                            j + 1
                        };
                        assert(before[bi]@ != before[bj]@);
                    }
                }
                true
            },
            None => {
                assert(keys_of(before) =~= keys_of(before).remove(key@));
                false
            },
        };
        *self = SessionLocks { held };
        was_held
    }
}

fn find_key(held: &Vec<SessionKey>, key: &SessionKey) -> (at: Option<usize>)
    ensures
        match at {
            Some(at) => at < held@.len() && held@[at as int]@ == key@,
            None => !keys_of(held@).contains(key@),
        },
        at is Some == keys_of(held@).contains(key@),
{
    let root = chars_of(key.root.as_str());
    let destination = chars_of(key.destination.as_str());
    let mut i: usize = 0;
    while i < held.len()
        invariant
            0 <= i <= held.len(),
            root@ == key.root@,
            destination@ == key.destination@,
            forall|k: int| 0 <= k < i ==> (#[trigger] held@[k])@ != key@,
        decreases held.len() - i,
    {
        let other_root = chars_of(held[i].root.as_str());
        let other_destination = chars_of(held[i].destination.as_str());
        if same_chars(&other_root, &root) && same_chars(&other_destination, &destination) {
            assert(held@[i as int]@ == key@);
            return Some(i);
        }
        i += 1;
    }
    None
}

} // verus!
