use vstd::prelude::*;

use crate::table::{
    find, keys_unique, lemma_table_at, lemma_table_push, lemma_table_remove, lemma_table_update,
    table_map, EntryView,
};

verus! {

/// The instant `ttl` milliseconds after `now`; none where that lies past every instant a `u64`
/// can name, so that such an entry never expires.
pub open spec fn deadline(now: u64, ttl: u64) -> Option<u64> {
    if now + ttl <= u64::MAX {
        Some((now + ttl) as u64)
    } else {
        None
    }
}

/// An entry is still there at `now`: it has no expiry, or its expiry lies ahead.
pub open spec fn live(e: EntryView, now: u64) -> bool {
    match e.expiry {
        None => true,
        Some(t) => now < t,
    }
}

/// What a read of `key` at `now` gives.
pub open spec fn read(m: Map<Seq<char>, EntryView>, key: Seq<char>, now: u64) -> Option<Seq<char>> {
    if m.contains_key(key) && live(m[key], now) {
        Some(m[key].value)
    } else {
        None
    }
}

/// The keyspace after a read of `key` at `now`: an entry found expired is dropped.
pub open spec fn after_read(m: Map<Seq<char>, EntryView>, key: Seq<char>, now: u64) -> Map<
    Seq<char>,
    EntryView,
> {
    if m.contains_key(key) && !live(m[key], now) {
        m.remove(key)
    } else {
        m
    }
}

/// A value stored under a key, with the instant (in milliseconds) from which it is gone.
#[derive(Debug)]
pub struct SetValue {
    value: String,
    expiry: Option<u64>,
}

impl View for SetValue {
    type V = EntryView;

    closed spec fn view(&self) -> EntryView {
        EntryView { value: self.value@, expiry: self.expiry }
    }
}

impl SetValue {
    /// A value that never expires.
    pub fn new(s: String) -> (r: Self)
        ensures
            r@ == (EntryView { value: s@, expiry: None }),
    {
        SetValue { value: s, expiry: None }
    }

    /// A value set at `now` that expires `ttl` milliseconds later.
    pub fn new_with_expiry(s: String, ttl: u64, now: u64) -> (r: Self)
        ensures
            r@ == (EntryView { value: s@, expiry: deadline(now, ttl) }),
    {
        let expiry = now.checked_add(ttl);
        SetValue { value: s, expiry }
    }
}

/// The key-value store: each key at most once, expired entries dropped when read.
#[derive(Debug)]
pub struct Keyspace {
    entries: Vec<(String, SetValue)>,
}

impl View for Keyspace {
    type V = Map<Seq<char>, EntryView>;

    closed spec fn view(&self) -> Map<Seq<char>, EntryView> {
        table_map(self.entries@)
    }
}

impl Keyspace {
    /// Each key is held once.
    pub closed spec fn wf(&self) -> bool {
        keys_unique(self.entries@)
    }

    /// An empty keyspace.
    pub fn new() -> (r: Self)
        ensures
            r.wf(),
            r@ == Map::<Seq<char>, EntryView>::empty(),
    {
        let r = Keyspace { entries: Vec::new() };
        assert(r@ =~= Map::<Seq<char>, EntryView>::empty());
        r
    }

    /// Stores `value` under `key`, in place of what was there.
    pub fn set(&mut self, key: String, value: SetValue)
        requires
            old(self).wf(),
        ensures
            final(self).wf(),
            final(self)@ == old(self)@.insert(key@, value@),
    {
        match find(&self.entries, &key) {
            Some(i) => {
                proof {
                    lemma_table_update(self.entries@, i as int, key, value);
                }
                self.entries.set(i, (key, value));
            },
            None => {
                proof {
                    lemma_table_push(self.entries@, key, value);
                }
                self.entries.push((key, value));
            },
        }
    }

    /// The value under `key` at `now`, if it is there and has not expired. An expired entry is
    /// dropped on the way.
    pub fn get(&mut self, key: &String, now: u64) -> (r: Option<String>)
        requires
            old(self).wf(),
        ensures
            final(self).wf(),
            match r {
                Some(v) => read(old(self)@, key@, now) == Some(v@),
                None => read(old(self)@, key@, now) is None,
            },
            final(self)@ == after_read(old(self)@, key@, now),
    {
        match find(&self.entries, key) {
            None => None,
            Some(i) => {
                proof {
                    lemma_table_at(self.entries@, i as int);
                }
                let alive = match self.entries[i].1.expiry {
                    None => true,
                    Some(t) => now < t,
                };
                if alive {
                    Some(self.entries[i].1.value.clone())
                } else {
                    proof {
                        lemma_table_remove(self.entries@, i as int);
                    }
                    self.entries.remove(i);
                    None
                }
            },
        }
    }
}

/// After a key is set with no expiry, reads of it give the value at any instant; setting
/// another key, or reading any key, leaves that so.
pub proof fn law_get_after_set(
    m: Map<Seq<char>, EntryView>,
    key: Seq<char>,
    value: Seq<char>,
    now: u64,
    other: Seq<char>,
    e: EntryView,
    later: u64,
)
    requires
        other != key,
    ensures
        read(m.insert(key, (EntryView { value, expiry: None })), key, now) == Some(value),
        read(m.insert(key, (EntryView { value, expiry: None })).insert(other, e), key, now) == Some(
            value,
        ),
        read(after_read(m.insert(key, (EntryView { value, expiry: None })), other, later), key, now)
            == Some(value),
{
    let m1 = m.insert(key, (EntryView { value, expiry: None }));
    assert(m1.insert(other, e)[key] == m1[key]);
    if m1.contains_key(other) && !live(m1[other], later) {
        assert(m1.remove(other)[key] == m1[key]);
    }
}

/// After a key is set at `set_at` to expire `ttl` milliseconds later, a read gives the value
/// strictly before `set_at + ttl` and nothing from then on.
pub proof fn law_px_expiry(
    m: Map<Seq<char>, EntryView>,
    key: Seq<char>,
    value: Seq<char>,
    set_at: u64,
    ttl: u64,
    now: u64,
)
    ensures
        read(m.insert(key, (EntryView { value, expiry: deadline(set_at, ttl) })), key, now) == if now
            < set_at + ttl {
            Some(value)
        } else {
            None::<Seq<char>>
        },
{
}

} // verus!
