//! The expiring key-value store.
//!
//! Time is a count of milliseconds on a clock of the caller's choosing. An entry
//! written with a time to live carries the instant at which it ends; it is
//! absent for every reader whose clock has passed that instant, and the first
//! such reader removes it. Nothing else removes entries on its own.

use vstd::hash_map::StringHashMap;
use vstd::prelude::*;

verus! {

/// How long an entry is to live, counted from the instant of the write. A time to
/// live of zero is accepted: the entry is there for readers at the very instant of
/// the write and gone for all later ones.
#[derive(Clone, Copy, Debug, PartialEq, Eq, Structural)]
pub enum Ttl {
    /// A number of milliseconds.
    Millis(u64),
    /// A number of seconds.
    Seconds(u64),
}

impl Ttl {
    /// The time to live in milliseconds.
    pub open spec fn millis(self) -> nat {
        match self {
            Ttl::Millis(ms) => ms as nat,
            Ttl::Seconds(s) => (s * 1000) as nat,
        }
    }

    /// The time to live in milliseconds.
    pub fn as_millis(self) -> (ms: u128)
        ensures
            ms == self.millis(),
    {
        match self {
            Ttl::Millis(ms) => ms as u128,
            Ttl::Seconds(s) => (s as u128) * 1000,
        }
    }
}

/// What the store keeps for a key.
pub struct Entry {
    /// The value.
    pub value: String,
    /// The instant after which the entry is absent, if it has one.
    pub expiry: Option<u128>,
}

/// The mathematical content of an [`Entry`].
pub struct Record {
    /// The value.
    pub value: Seq<char>,
    /// The instant after which the entry is absent, if it has one.
    pub expiry: Option<nat>,
}

impl View for Entry {
    type V = Record;

    open spec fn view(&self) -> Record {
        Record {
            value: self.value@,
            expiry: match self.expiry {
                Some(at) => Some(at as nat),
                None => None,
            },
        }
    }
}

/// The instant at which an entry written at `now` ends.
pub open spec fn deadline(now: u64, ttl: Option<Ttl>) -> Option<nat> {
    match ttl {
        Some(t) => Some(now as nat + t.millis()),
        None => None,
    }
}

/// Whether `record` is absent for a reader whose clock shows `now`.
pub open spec fn expired(record: Record, now: u64) -> bool {
    record.expiry matches Some(at) && now > at
}

/// The entries after a write.
pub open spec fn written(
    entries: Map<Seq<char>, Record>,
    key: Seq<char>,
    value: Seq<char>,
    ttl: Option<Ttl>,
    now: u64,
) -> Map<Seq<char>, Record> {
    entries.insert(key, Record { value, expiry: deadline(now, ttl) })
}

/// What a read of `key` at `now` returns.
pub open spec fn found(entries: Map<Seq<char>, Record>, key: Seq<char>, now: u64) -> Option<
    Seq<char>,
> {
    if entries.contains_key(key) && !expired(entries[key], now) {
        Some(entries[key].value)
    } else {
        None
    }
}

/// The entries after a read of `key` at `now`: an expired entry is removed.
pub open spec fn swept(entries: Map<Seq<char>, Record>, key: Seq<char>, now: u64) -> Map<
    Seq<char>,
    Record,
> {
    if entries.contains_key(key) && expired(entries[key], now) {
        entries.remove(key)
    } else {
        entries
    }
}

/// A mapping from keys to values, each with an optional end of life.
pub struct Store {
    entries: StringHashMap<Entry>,
}

impl View for Store {
    type V = Map<Seq<char>, Record>;

    closed spec fn view(&self) -> Map<Seq<char>, Record> {
        self.entries@.map_values(|entry: Entry| entry@)
    }
}

impl Store {
    /// A store without entries.
    pub fn new() -> (store: Store)
        ensures
            store@ == Map::<Seq<char>, Record>::empty(),
    {
        let store = Store { entries: StringHashMap::new() };
        assert(store@ =~= Map::<Seq<char>, Record>::empty());
        store
    }

    /// The number of entries held, expired ones that no read has met included.
    pub fn len(&self) -> (n: usize)
        ensures
            n == self@.len(),
    {
        broadcast use vstd::hash_map::group_hash_map_axioms;

        let n = self.entries.len();
        assert(self@.dom() =~= self.entries@.dom());
        n
    }

    /// Writes `value` under `key`, in place of whatever was there. With a time to
    /// live the entry ends that long after `now`; without one it never ends.
    pub fn set(&mut self, key: String, value: String, ttl: Option<Ttl>, now: u64)
        ensures
            final(self)@ == written(old(self)@, key@, value@, ttl, now),
    {
        let expiry: Option<u128> = match ttl {
            Some(t) => Some(now as u128 + t.as_millis()),
            None => None,
        };
        let ghost key_text = key@;
        let entry = Entry { value, expiry };
        let ghost record = entry@;
        self.entries.insert(key, entry);
        assert(self@ =~= old(self)@.insert(key_text, record));
    }

    /// Reads the value under `key` at the instant `now`. An entry whose life has
    /// ended is removed, and the read finds nothing.
    pub fn get(&mut self, key: &str, now: u64) -> (value: Option<String>)
        ensures
            match value {
                Some(text) => found(old(self)@, key@, now) == Some(text@),
                None => found(old(self)@, key@, now) is None,
            },
            final(self)@ == swept(old(self)@, key@, now),
    {
        let hit: Option<Option<String>> = match self.entries.get(key) {
            None => None,
            Some(entry) => {
                let dead = match entry.expiry {
                    Some(at) => now as u128 > at,
                    None => false,
                };
                if dead {
                    Some(None)
                } else {
                    Some(Some(entry.value.clone()))
                }
            },
        };
        match hit {
            None => None,
            Some(None) => {
                self.entries.remove(key);
                assert(self@ =~= old(self)@.remove(key@));
                None
            },
            Some(Some(text)) => Some(text),
        }
    }

    /// Removes the entry under `key`, if there is one.
    pub fn remove(&mut self, key: &str)
        ensures
            final(self)@ == old(self)@.remove(key@),
    {
        self.entries.remove(key);
        assert(self@ =~= old(self)@.remove(key@));
    }
}

} // verus!
