//! A cache of responses, each kept for a time to live. Time is a count of
//! nanoseconds on the caller's clock.

use vstd::prelude::*;
use crate::json::{Json, JsonValue};

verus! {

/// The nanoseconds in a second.
pub const NANOS_PER_SECOND: u128 = 1_000_000_000;

/// A response as it was stored: its body, its status, when it was stored
/// and for how many seconds it stays fresh.
pub struct CacheEntry {
    pub value: Json,
    pub status_code: u16,
    pub stored_at: u128,
    pub ttl: u64,
}

/// The value of a stored response.
pub struct CacheEntryView {
    pub value: JsonValue,
    pub status_code: u16,
    pub stored_at: u128,
    pub ttl: u64,
}

impl View for CacheEntry {
    type V = CacheEntryView;

    open spec fn view(&self) -> CacheEntryView {
        CacheEntryView {
            value: self.value@,
            status_code: self.status_code,
            stored_at: self.stored_at,
            ttl: self.ttl,
        }
    }
}

/// An entry is fresh while less time than its time to live has passed since
/// it was stored. With a time to live of 0 it never is.
pub open spec fn is_fresh(entry: CacheEntryView, now: u128) -> bool {
    let elapsed = if now >= entry.stored_at {
        now - entry.stored_at
    } else {
        0
    };
    elapsed < entry.ttl * NANOS_PER_SECOND
}

/// Whether an entry is fresh at the time `now`.
pub fn fresh(entry: &CacheEntry, now: u128) -> (r: bool)
    ensures
        r == is_fresh(entry@, now),
{
    let elapsed: u128 = if now >= entry.stored_at {
        now - entry.stored_at
    } else {
        0
    };
    assert(entry.ttl * NANOS_PER_SECOND <= 0xFFFF_FFFF_FFFF_FFFF * 1_000_000_000)
        by (nonlinear_arith)
        requires
            entry.ttl <= 0xFFFF_FFFF_FFFF_FFFF,
            NANOS_PER_SECOND == 1_000_000_000,
    ;
    elapsed < (entry.ttl as u128) * NANOS_PER_SECOND
}

/// Index of the first entry at or after `i` stored under `key`, or the
/// number of entries.
pub open spec fn slot_from(entries: Seq<(Seq<char>, CacheEntryView)>, key: Seq<char>, i: int) -> int
    decreases entries.len() - i,
{
    if 0 <= i < entries.len() && entries[i].0 != key {
        slot_from(entries, key, i + 1)
    } else if i < entries.len() {
        i
    } else {
        entries.len() as int
    }
}

/// The entry stored under `key`, if there is one.
pub open spec fn stored(entries: Seq<(Seq<char>, CacheEntryView)>, key: Seq<char>) -> Option<
    CacheEntryView,
> {
    let i = slot_from(entries, key, 0);
    if 0 <= i < entries.len() {
        Some(entries[i].1)
    } else {
        None
    }
}

/// The slot of a key lies within the entries, holds the key where it is an
/// entry, and no entry before it holds the key.
pub proof fn lemma_slot_from(entries: Seq<(Seq<char>, CacheEntryView)>, key: Seq<char>, i: int)
    requires
        0 <= i <= entries.len(),
    ensures
        i <= slot_from(entries, key, i) <= entries.len(),
        slot_from(entries, key, i) < entries.len() ==> entries[slot_from(entries, key, i)].0 == key,
        forall|j: int| i <= j < slot_from(entries, key, i) ==> (#[trigger] entries[j]).0 != key,
    decreases entries.len() - i,
{
    if i < entries.len() && entries[i].0 != key {
        lemma_slot_from(entries, key, i + 1);
    }
}

/// A place before which no entry holds the key, and which holds it or is
/// the end, is the slot of the key.
pub proof fn lemma_slot_is(
    entries: Seq<(Seq<char>, CacheEntryView)>,
    key: Seq<char>,
    i: int,
    at: int,
)
    requires
        0 <= i <= at <= entries.len(),
        forall|j: int| i <= j < at ==> (#[trigger] entries[j]).0 != key,
        at < entries.len() ==> entries[at].0 == key,
    ensures
        slot_from(entries, key, i) == at,
    decreases at - i,
{
    if i < at {
        lemma_slot_is(entries, key, i + 1, at);
    }
}

/// The responses that were stored, each under its key.
pub struct Cache {
    store: Vec<(String, CacheEntry)>,
}

impl Cache {
    /// What is stored, in the order in which the keys first came.
    pub closed spec fn entries(&self) -> Seq<(Seq<char>, CacheEntryView)> {
        Seq::new(self.store@.len(), |i: int| (self.store@[i].0@, self.store@[i].1@))
    }

    /// The entry stored under `key`, if there is one.
    pub open spec fn entry(&self, key: Seq<char>) -> Option<CacheEntryView> {
        stored(self.entries(), key)
    }

    /// An empty cache.
    pub fn new() -> (r: Cache)
        ensures
            forall|key: Seq<char>| r.entry(key) is None,
    {
        let r = Cache { store: Vec::new() };
        assert(r.entries() =~= Seq::empty());
        r
    }

    /// Index of the entry stored under `key`.
    fn find(&self, key: &str) -> (r: Option<usize>)
        ensures
            match r {
                Some(i) => i < self.store.len() && slot_from(self.entries(), key@, 0) == i,
                None => slot_from(self.entries(), key@, 0) == self.store.len(),
            },
            self.entries().len() == self.store.len(),
    {
        let ghost all = self.entries();
        let wanted = key.to_owned();
        let mut i: usize = 0;
        while i < self.store.len()
            invariant
                i <= self.store.len(),
                all == self.entries(),
                wanted@ == key@,
                slot_from(all, key@, i as int) == slot_from(all, key@, 0),
            decreases self.store.len() - i,
        {
            assert(all[i as int].0 == self.store@[i as int].0@);
            if self.store[i].0 == wanted {
                return Some(i);
            }
            i += 1;
        }
        None
    }

    /// The entry stored under `key`, while it is fresh at the time `now`.
    pub fn get(&self, key: &str, now: u128) -> (r: Option<&CacheEntry>)
        ensures
            match r {
                Some(found) => self.entry(key@) == Some(found@) && is_fresh(found@, now),
                None => match self.entry(key@) {
                    Some(kept) => !is_fresh(kept, now),
                    None => true,
                },
            },
    {
        match self.find(key) {
            Some(i) => {
                assert(self.entries()[i as int].1 == self.store@[i as int].1@);
                if fresh(&self.store[i].1, now) {
                    Some(&self.store[i].1)
                } else {
                    None
                }
            },
            None => None,
        }
    }

    /// Stores `entry` under `key`, in place of what was stored there.
    pub fn insert(&mut self, key: String, entry: CacheEntry)
        ensures
            forall|other: Seq<char>|
                #[trigger] final(self).entry(other) == if other == key@ {
                    Some(entry@)
                } else {
                    old(self).entry(other)
                },
    {
        let ghost before = self.entries();
        let found = self.find(key.as_str());
        match found {
            Some(i) => {
                self.store[i] = (key, entry);
                proof {
                    let after = self.entries();
                    assert(after =~= before.update(i as int, (key@, entry@)));
                    lemma_slot_from(before, key@, 0);
                    assert forall|other: Seq<char>| #[trigger]
                        stored(after, other) == if other == key@ {
                            Some(entry@)
                        } else {
                            stored(before, other)
                        } by {
                        lemma_slot_from(before, other, 0);
                        let at = slot_from(before, other, 0);
                        if other == key@ {
                            lemma_slot_is(after, other, 0, i as int);
                        } else {
                            assert forall|j: int| 0 <= j < at implies (#[trigger] after[j]).0
                                != other by {
                                assert(before[j].0 != other);
                            }
                            lemma_slot_is(after, other, 0, at);
                        }
                    }
                }
            },
            None => {
                self.store.push((key, entry));
                proof {
                    let after = self.entries();
                    assert(after =~= before.push((key@, entry@)));
                    lemma_slot_from(before, key@, 0);
                    assert forall|other: Seq<char>| #[trigger]
                        stored(after, other) == if other == key@ {
                            Some(entry@)
                        } else {
                            stored(before, other)
                        } by {
                        lemma_slot_from(before, other, 0);
                        let at = slot_from(before, other, 0);
                        if other == key@ {
                            assert forall|j: int| 0 <= j < before.len() implies (
                            #[trigger] after[j]).0 != other by {
                                assert(before[j].0 != other);
                            }
                            lemma_slot_is(after, other, 0, before.len() as int);
                        } else {
                            if at < before.len() {
                                assert forall|j: int| 0 <= j < at implies (
                                #[trigger] after[j]).0 != other by {
                                    assert(before[j].0 != other);
                                }
                                assert(after[at] == before[at]);
                                lemma_slot_is(after, other, 0, at);
                            } else {
                                assert forall|j: int| 0 <= j < after.len() implies (
                                #[trigger] after[j]).0 != other by {
                                    if j < before.len() {
                                        assert(before[j].0 != other);
                                    }
                                }
                                lemma_slot_is(after, other, 0, after.len() as int);
                            }
                        }
                    }
                }
            },
        }
    }
}

} // verus!
