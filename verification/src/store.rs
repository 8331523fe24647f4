//! The key-value store: a mapping from byte-string keys to records with
//! an optional per-key time-to-live, judged lazily at read time, and a
//! shared handle that serializes access across connection tasks.
//!
//! Time is a millisecond reading of a monotonic clock, passed in by the
//! caller; nothing here consults a clock itself.
use std::vec::Vec;
use vstd::prelude::*;
use vstd::rwlock::RwLock;
use vstd::rwlock::RwLockPredicate;
use vstd::rwlock::WriteHandle;

use crate::text::bytes_eq;

verus! {

/// One stored record: the value, and an optional expiry as the pair
/// (anchor, duration) in milliseconds.
#[derive(Debug)]
pub struct Item {
    pub value: Vec<u8>,
    pub expire: Option<(u64, u64)>,
}

/// The mathematical shape of an [`Item`].
#[verifier::ext_equal]
pub struct ItemV {
    pub value: Seq<u8>,
    pub expire: Option<(u64, u64)>,
}

impl View for Item {
    type V = ItemV;

    open spec fn view(&self) -> ItemV {
        ItemV { value: self.value@, expire: self.expire }
    }
}

/// Whether a record is dead at `now`: the time elapsed since its anchor
/// (zero when the clock reads earlier than the anchor) has reached its
/// duration. Reaching it exactly counts as expired. A record with no
/// expiry never dies.
pub open spec fn spec_expired(it: ItemV, now: u64) -> bool {
    match it.expire {
        Some((start, dur)) => if now >= start {
            now - start >= dur
        } else {
            dur == 0
        },
        None => false,
    }
}

impl Item {
    /// Judges the record against the clock reading `now`.
    pub fn expired(&self, now: u64) -> (r: bool)
        ensures
            r == spec_expired(self@, now),
    {
        match self.expire {
            Some((start, dur)) => if now >= start {
                now - start >= dur
            } else {
                dur == 0
            },
            None => false,
        }
    }
}

/// Expiry boundary: a record anchored at `now` with duration zero is
/// dead at once; with a positive duration it is alive at its anchor and
/// dead exactly once the duration has elapsed. (That a failed read
/// removes nothing is [`Store::get`]'s shared borrow: a lookup cannot
/// change the store.)
pub proof fn lemma_expiry_boundary(value: Seq<u8>, dur: u64, now: u64, later: u64)
    ensures
        ({
            let it = ItemV { value, expire: Some((now, dur)) };
            &&& spec_expired(it, now) <==> dur == 0
            &&& now <= later ==> (spec_expired(it, later) <==> later - now >= dur)
        }),
{
}

/// The record a SET with the given requested expiry creates at `now`.
pub open spec fn spec_new_item(value: Seq<u8>, expire: Option<u64>, now: u64) -> ItemV {
    ItemV {
        value,
        expire: match expire {
            Some(d) => Some((now, d)),
            None => None,
        },
    }
}

/// The in-memory mapping. Keys are kept unique, so the store abstracts
/// to a map from key to record.
#[derive(Debug)]
pub struct Store {
    entries: Vec<(Vec<u8>, Item)>,
}

/// The mapping a run of entries denotes, later entries winning.
spec fn entries_map(s: Seq<(Vec<u8>, Item)>) -> Map<Seq<u8>, ItemV>
    decreases s.len(),
{
    if s.len() == 0 {
        Map::empty()
    } else {
        entries_map(s.drop_last()).insert(s.last().0@, s.last().1@)
    }
}

/// Keys appear at most once.
spec fn entries_unique(s: Seq<(Vec<u8>, Item)>) -> bool {
    forall|i: int, j: int| 0 <= i < j < s.len() ==> (#[trigger] s[i].0@) != (#[trigger] s[j].0@)
}

/// An entry's key is in the map, bound to that entry's record.
proof fn lemma_entries_map_index(s: Seq<(Vec<u8>, Item)>, i: int)
    requires
        entries_unique(s),
        0 <= i < s.len(),
    ensures
        entries_map(s).contains_key(s[i].0@),
        entries_map(s)[s[i].0@] == s[i].1@,
    decreases s.len(),
{
    if i == s.len() - 1 {
    } else {
        assert(entries_unique(s.drop_last())) by {
            assert(forall|x: int, y: int|
                0 <= x < y < s.len() - 1 ==> s.drop_last()[x] == s[x] && s.drop_last()[y] == s[y]);
        }
        assert(s.drop_last()[i] == s[i]);
        lemma_entries_map_index(s.drop_last(), i);
        assert(s[i].0@ != s.last().0@);
    }
}

/// A key no entry holds is not in the map.
proof fn lemma_entries_map_absent(s: Seq<(Vec<u8>, Item)>, k: Seq<u8>)
    requires
        forall|i: int| 0 <= i < s.len() ==> (#[trigger] s[i].0@) != k,
    ensures
        !entries_map(s).contains_key(k),
    decreases s.len(),
{
    if s.len() > 0 {
        assert(forall|i: int| 0 <= i < s.len() - 1 ==> s.drop_last()[i] == s[i]);
        lemma_entries_map_absent(s.drop_last(), k);
    }
}

/// Replacing the record under an existing key updates the map in place.
proof fn lemma_entries_map_update(s: Seq<(Vec<u8>, Item)>, i: int, e: (Vec<u8>, Item))
    requires
        entries_unique(s),
        0 <= i < s.len(),
        e.0@ == s[i].0@,
    ensures
        entries_map(s.update(i, e)) == entries_map(s).insert(e.0@, e.1@),
    decreases s.len(),
{
    let s2 = s.update(i, e);
    if i == s.len() - 1 {
        assert(s2.drop_last() =~= s.drop_last());
        assert(s2.last() == e);
        assert(entries_map(s.drop_last()).insert(e.0@, e.1@) =~= entries_map(s.drop_last()).insert(
            s.last().0@,
            s.last().1@,
        ).insert(e.0@, e.1@));
    } else {
        assert(entries_unique(s.drop_last())) by {
            assert(forall|x: int, y: int|
                0 <= x < y < s.len() - 1 ==> s.drop_last()[x] == s[x] && s.drop_last()[y] == s[y]);
        }
        assert(s.drop_last()[i] == s[i]);
        lemma_entries_map_update(s.drop_last(), i, e);
        assert(s2.drop_last() =~= s.drop_last().update(i, e));
        assert(s2.last() == s.last());
        assert(e.0@ != s.last().0@);
        assert(entries_map(s.drop_last()).insert(e.0@, e.1@).insert(s.last().0@, s.last().1@)
            =~= entries_map(s.drop_last()).insert(s.last().0@, s.last().1@).insert(e.0@, e.1@));
    }
}

impl View for Store {
    type V = Map<Seq<u8>, ItemV>;

    closed spec fn view(&self) -> Map<Seq<u8>, ItemV> {
        entries_map(self.entries@)
    }
}

impl Store {
    /// Keys appear at most once, so lookups are unambiguous.
    pub closed spec fn wf(&self) -> bool {
        entries_unique(self.entries@)
    }

    /// An empty store.
    pub fn new() -> (s: Store)
        ensures
            s.wf(),
            s@ == Map::<Seq<u8>, ItemV>::empty(),
    {
        Store { entries: Vec::new() }
    }

    /// Looks a key up at `now`: a live record yields its value; an
    /// expired or absent one yields nothing. The store is untouched
    /// either way — an expired record is judged absent, not removed.
    pub fn get(&self, key: &Vec<u8>, now: u64) -> (r: Option<Vec<u8>>)
        requires
            self.wf(),
        ensures
            match r {
                Some(v) => self@.contains_key(key@) && !spec_expired(self@[key@], now) && v@
                    == self@[key@].value,
                None => !self@.contains_key(key@) || spec_expired(self@[key@], now),
            },
    {
        let n = self.entries.len();
        let mut i: usize = 0;
        while i < n
            invariant
                i <= n,
                n == self.entries@.len(),
                self.wf(),
                forall|j: int| 0 <= j < i ==> (#[trigger] self.entries@[j].0@) != key@,
            decreases n - i,
        {
            if bytes_eq(&self.entries[i].0, key) {
                proof {
                    lemma_entries_map_index(self.entries@, i as int);
                }
                let it = &self.entries[i].1;
                if it.expired(now) {
                    return None;
                }
                return Some(crate::resp::copy_bytes(&it.value));
            }
            i = i + 1;
        }
        proof {
            lemma_entries_map_absent(self.entries@, key@);
        }
        None
    }

    /// Inserts or overwrites unconditionally, anchoring a requested
    /// expiry of `expire` milliseconds at `now`.
    #[verifier::loop_isolation(false)]
    pub fn set(&mut self, key: Vec<u8>, value: Vec<u8>, expire: Option<u64>, now: u64)
        requires
            old(self).wf(),
        ensures
            final(self).wf(),
            final(self)@ == old(self)@.insert(key@, spec_new_item(value@, expire, now)),
    {
        let ghost value0 = value@;
        let item = Item {
            value,
            expire: match expire {
                Some(d) => Some((now, d)),
                None => None,
            },
        };
        proof {
            assert(item@ =~= spec_new_item(value0, expire, now));
        }
        let n = self.entries.len();
        let mut i: usize = 0;
        while i < n
            invariant
                i <= n,
                n == self.entries@.len(),
                self.wf(),
                self@ == old(self)@,
                self.entries@ == old(self).entries@,
                forall|j: int| 0 <= j < i ==> (#[trigger] self.entries@[j].0@) != key@,
            decreases n - i,
        {
            if bytes_eq(&self.entries[i].0, &key) {
                let ghost before = self.entries@;
                let ghost e = (key, item);
                proof {
                    lemma_entries_map_update(before, i as int, e);
                    assert(e.0@ == key@);
                    assert(e.1@ == spec_new_item(value0, expire, now));
                    assert(entries_map(before.update(i as int, e)) == entries_map(before).insert(
                        key@,
                        spec_new_item(value0, expire, now),
                    ));
                }
                self.entries.set(i, (key, item));
                proof {
                    assert(self.entries@ == before.update(i as int, e));
                    assert(forall|x: int, y: int|
                        0 <= x < y < self.entries@.len() ==> self.entries@[x].0@ == before[x].0@
                            && self.entries@[y].0@ == before[y].0@);
                }
                return ;
            }
            i = i + 1;
        }
        proof {
            lemma_entries_map_absent(self.entries@, key@);
            let pushed = self.entries@.push((key, item));
            assert(pushed.drop_last() =~= self.entries@);
            assert(forall|x: int|
                0 <= x < self.entries@.len() ==> pushed[x] == self.entries@[x]);
        }
        self.entries.push((key, item));
    }
}

/// The lock invariant: the guarded store is well formed.
pub struct StoreInv;

impl RwLockPredicate<Store> for StoreInv {
    open spec fn inv(self, s: Store) -> bool {
        s.wf()
    }
}

/// The store shared by every connection task, behind a verified
/// reader-writer lock: all access is serialized, so no reader ever sees
/// a torn record. Tasks share it by reference (or an `Arc` around it in
/// unverified callers); nothing here holds a lock across anything that
/// suspends.
pub struct SharedStore {
    lock: RwLock<Store, StoreInv>,
}

impl SharedStore {
    /// A fresh handle around an empty store.
    pub fn new() -> SharedStore {
        SharedStore { lock: RwLock::new(Store::new(), Ghost(StoreInv)) }
    }

    /// Takes the store out under the exclusive lock; the handle's
    /// release demands a well-formed store back.
    pub(crate) fn begin_write(&self) -> (r: (Store, WriteHandle<'_, Store, StoreInv>))
        ensures
            r.0.wf(),
            forall|s: Store| s.wf() ==> #[trigger] r.1.rwlock().inv(s),
    {
        let r = self.lock.acquire_write();
        proof {
            assert(forall|s: Store| s.wf() ==> #[trigger] r.1.rwlock().inv(s));
        }
        r
    }

    /// Stores a value under the exclusive lock: lock, insert, unlock.
    pub fn set(&self, key: Vec<u8>, value: Vec<u8>, expire: Option<u64>, now: u64) {
        let (mut store, handle) = self.begin_write();
        store.set(key, value, expire, now);
        handle.release_write(store);
    }

    /// Reads a key under a read lock: any value returned was, at the
    /// moment of the lookup, the live value bound to that key in a
    /// well-formed snapshot of the store.
    pub fn get(&self, key: &Vec<u8>, now: u64) -> (r: Option<Vec<u8>>)
        ensures
            match r {
                Some(v) => exists|m: Map<Seq<u8>, ItemV>|
                    #![auto]
                    m.contains_key(key@) && !spec_expired(m[key@], now) && v@ == m[key@].value,
                None => true,
            },
    {
        let read_handle = self.lock.acquire_read();
        let store = read_handle.borrow();
        let r = store.get(key, now);
        proof {
            if r is Some {
                assert(store@.contains_key(key@) && !spec_expired(store@[key@], now)
                    && r->Some_0@ == store@[key@].value);
            }
        }
        read_handle.release_read();
        r
    }
}

} // verus!
