use vstd::prelude::*;
use vstd::string::StringExecFns;

use crate::keyspace::deadline;
use crate::table::{find, keys_unique, EntryView};

verus! {

/// An entry of the info store: a text, with an expiry the store itself does not act on.
#[derive(Debug)]
pub struct DbEntry {
    value: String,
    expiry: Option<u64>,
}

impl View for DbEntry {
    type V = EntryView;

    closed spec fn view(&self) -> EntryView {
        EntryView { value: self.value@, expiry: self.expiry }
    }
}

impl DbEntry {
    /// An entry made at `now`; with `ex`, it expires that many milliseconds later.
    pub fn new(s: String, ex: Option<u64>, now: u64) -> (r: Self)
        ensures
            r@ == (EntryView {
                value: s@,
                expiry: match ex {
                    Some(ttl) => deadline(now, ttl),
                    None => None,
                },
            }),
    {
        match ex {
            Some(ttl) => DbEntry { value: s, expiry: now.checked_add(ttl) },
            None => DbEntry { value: s, expiry: None },
        }
    }

    /// The entry's text.
    pub fn value(self) -> (r: String)
        ensures
            r@ == self@.value,
    {
        self.value
    }
}

/// The text an info store gives for a key it does not hold.
pub open spec fn nil_text() -> Seq<char> {
    "(nil)"@
}

/// The text held under `key` in a listing of distinct keys, if any.
pub open spec fn lookup(l: Seq<(Seq<char>, Seq<char>)>, key: Seq<char>) -> Option<Seq<char>> {
    if exists|i: int| 0 <= i < l.len() && #[trigger] l[i].0 == key {
        Some(l[choose|i: int| 0 <= i < l.len() && #[trigger] l[i].0 == key].1)
    } else {
        None
    }
}

/// A listing after `key` is set to `value`: in place where the key is listed, else at the end.
pub open spec fn listing_insert(
    l: Seq<(Seq<char>, Seq<char>)>,
    key: Seq<char>,
    value: Seq<char>,
) -> Seq<(Seq<char>, Seq<char>)> {
    if exists|i: int| 0 <= i < l.len() && #[trigger] l[i].0 == key {
        l.update(choose|i: int| 0 <= i < l.len() && #[trigger] l[i].0 == key, (key, value))
    } else {
        l.push((key, value))
    }
}

/// One line of a listing: `name:value` and a newline.
pub open spec fn listing_line(key: Seq<char>, value: Seq<char>) -> Seq<char> {
    key + ":"@ + value + "\n"@
}

/// The info store: names of server facts and their texts, in the order they were first set.
#[derive(Debug)]
pub struct Database {
    db: Vec<(String, DbEntry)>,
}

impl View for Database {
    type V = Seq<(Seq<char>, Seq<char>)>;

    closed spec fn view(&self) -> Seq<(Seq<char>, Seq<char>)> {
        self.db@.map_values(|p: (String, DbEntry)| (p.0@, p.1@.value))
    }
}

impl Database {
    /// Each name is held once.
    pub closed spec fn wf(&self) -> bool {
        keys_unique(self.db@)
    }

    /// An empty store.
    pub fn new() -> (r: Self)
        ensures
            r.wf(),
            r@ == Seq::<(Seq<char>, Seq<char>)>::empty(),
    {
        let r = Database { db: Vec::new() };
        assert(r@ =~= Seq::<(Seq<char>, Seq<char>)>::empty());
        r
    }

    /// Sets `key` to the entry `val`.
    pub fn insert(&mut self, key: String, val: DbEntry)
        requires
            old(self).wf(),
        ensures
            final(self).wf(),
            final(self)@ == listing_insert(old(self)@, key@, val@.value),
    {
        let ghost l = self@;
        match find(&self.db, &key) {
            Some(i) => {
                proof {
                    let c = choose|j: int| 0 <= j < l.len() && #[trigger] l[j].0 == key@;
                    assert(l[i as int].0 == key@);
                    assert(self.db@[c].0@ == self.db@[i as int].0@);
                    assert(c == i);
                }
                let ghost k = key@;
                let ghost v = val@.value;
                self.db.set(i, (key, val));
                proof {
                    assert forall|a: int, b: int| 0 <= a < b < self.db@.len() implies self.db@[a].0@
                        != self.db@[b].0@ by {
                        assert(old(self).db@[a].0@ != old(self).db@[b].0@);
                    }
                    assert(self@ =~= l.update(i as int, (k, v)));
                }
            },
            None => {
                let ghost k = key@;
                let ghost v = val@.value;
                proof {
                    assert(!exists|j: int| 0 <= j < l.len() && #[trigger] l[j].0 == k) by {
                        if exists|j: int| 0 <= j < l.len() && #[trigger] l[j].0 == k {
                            let j = choose|j: int| 0 <= j < l.len() && #[trigger] l[j].0 == k;
                            assert(self.db@[j].0@ == k);
                        }
                    }
                }
                self.db.push((key, val));
                proof {
                    assert forall|a: int, b: int| 0 <= a < b < self.db@.len() implies self.db@[a].0@
                        != self.db@[b].0@ by {
                        if b == l.len() {
                            assert(l[a].0 == self.db@[a].0@);
                        } else {
                            assert(old(self).db@[a].0@ != old(self).db@[b].0@);
                        }
                    }
                    assert(self@ =~= l.push((k, v)));
                }
            },
        }
    }

    /// The entry under `key`; where there is none, an entry holding `(nil)`.
    pub fn get(&self, key: String) -> (r: DbEntry)
        requires
            self.wf(),
        ensures
            r@.value == match lookup(self@, key@) {
                Some(v) => v,
                None => nil_text(),
            },
            r@.expiry is None || lookup(self@, key@) is Some,
    {
        let ghost l = self@;
        match find(&self.db, &key) {
            Some(i) => {
                proof {
                    let c = choose|j: int| 0 <= j < l.len() && #[trigger] l[j].0 == key@;
                    assert(l[i as int].0 == key@);
                    assert(self.db@[c].0@ == self.db@[i as int].0@);
                    assert(c == i);
                }
                DbEntry { value: self.db[i].1.value.clone(), expiry: self.db[i].1.expiry }
            },
            None => {
                proof {
                    if exists|j: int| 0 <= j < l.len() && #[trigger] l[j].0 == key@ {
                        let j = choose|j: int| 0 <= j < l.len() && #[trigger] l[j].0 == key@;
                        assert(self.db@[j].0@ == key@);
                    }
                }
                DbEntry { value: "(nil)".to_string(), expiry: None }
            },
        }
    }

    /// Every entry as a `name:value` line, in the store's order.
    pub fn get_all(&self) -> (r: Vec<String>)
        ensures
            r@.len() == self@.len(),
            forall|i: int|
                0 <= i < r@.len() ==> (#[trigger] r@[i])@ == listing_line(self@[i].0, self@[i].1),
    {
        let mut out: Vec<String> = Vec::new();
        let mut i: usize = 0;
        while i < self.db.len()
            invariant
                i <= self.db@.len(),
                out@.len() == i,
                forall|j: int|
                    0 <= j < i ==> (#[trigger] out@[j])@ == listing_line(self@[j].0, self@[j].1),
            decreases self.db.len() - i,
        {
            let mut line = self.db[i].0.clone();
            line.append(":");
            line.append(self.db[i].1.value.as_str());
            line.append("\n");
            out.push(line);
            i += 1;
        }
        out
    }
}

} // verus!
