//! A small table keyed by peer id, holding at most one entry per peer.
use vstd::prelude::*;

verus! {

/// The position of `id` in a list of entries.
pub open spec fn slot_of<V>(entries: Seq<(Seq<char>, V)>, id: Seq<char>) -> Option<int> {
    if exists|j: int| 0 <= j < entries.len() && entries[j].0 == id {
        Some(choose|j: int| 0 <= j < entries.len() && entries[j].0 == id)
    } else {
        None
    }
}

/// No peer has two entries.
pub open spec fn keys_unique<V>(entries: Seq<(Seq<char>, V)>) -> bool {
    forall|i: int, j: int|
        0 <= i < j < entries.len() ==> (#[trigger] entries[i]).0 != (#[trigger] entries[j]).0
}

/// The entries after setting the value of `id`: in its place if it has an
/// entry, else at the end.
pub open spec fn table_insert<V>(entries: Seq<(Seq<char>, V)>, id: Seq<char>, v: V) -> Seq<
    (Seq<char>, V),
> {
    match slot_of(entries, id) {
        Some(j) => entries.update(j, (id, v)),
        None => entries.push((id, v)),
    }
}

/// The entries without that of `id`.
pub open spec fn table_remove<V>(entries: Seq<(Seq<char>, V)>, id: Seq<char>) -> Seq<
    (Seq<char>, V),
> {
    match slot_of(entries, id) {
        Some(j) => entries.remove(j),
        None => entries,
    }
}

/// The value kept for `id`.
pub open spec fn table_get<V>(entries: Seq<(Seq<char>, V)>, id: Seq<char>) -> Option<V> {
    match slot_of(entries, id) {
        Some(j) => Some(entries[j].1),
        None => None,
    }
}

/// Entries keyed by peer id, in the order they were first set.
pub struct PeerTable<V> {
    entries: Vec<(String, V)>,
}

impl<V: Copy> View for PeerTable<V> {
    type V = Seq<(Seq<char>, V)>;

    closed spec fn view(&self) -> Seq<(Seq<char>, V)> {
        self.entries@.map_values(|e: (String, V)| (e.0@, e.1))
    }
}

pub proof fn lemma_insert_keeps_unique<V>(entries: Seq<(Seq<char>, V)>, id: Seq<char>, v: V)
    requires
        keys_unique(entries),
    ensures
        keys_unique(table_insert(entries, id, v)),
        table_get(table_insert(entries, id, v), id) == Some(v),
{
    let t = table_insert(entries, id, v);
    match slot_of(entries, id) {
        Some(j) => {
            assert(t[j].0 == id);
            let c = choose|c: int| 0 <= c < t.len() && t[c].0 == id;
            assert(c == j) by {
                if c != j {
                    assert(t[c] == entries[c]);
                    if c < j {
                        assert(entries[c].0 != entries[j].0);
                    } else {
                        assert(entries[j].0 != entries[c].0);
                    }
                }
            }
        },
        None => {
            let n = entries.len() as int;
            assert(t[n].0 == id);
            let c = choose|c: int| 0 <= c < t.len() && t[c].0 == id;
            assert(c == n) by {
                if c < n {
                    assert(t[c] == entries[c]);
                }
            }
        },
    }
}

pub proof fn lemma_remove_keeps_unique<V>(entries: Seq<(Seq<char>, V)>, id: Seq<char>)
    requires
        keys_unique(entries),
    ensures
        keys_unique(table_remove(entries, id)),
        table_get(table_remove(entries, id), id) is None,
        forall|k: int| 0 <= k < table_remove(entries, id).len() ==> table_remove(entries, id)[k].0
            != id,
{
    let t = table_remove(entries, id);
    match slot_of(entries, id) {
        Some(j) => {
            assert forall|k: int| 0 <= k < t.len() implies t[k].0 != id by {
                if k < j {
                    assert(t[k] == entries[k]);
                } else {
                    assert(t[k] == entries[k + 1]);
                }
            }
            assert forall|a: int, b: int| 0 <= a < b < t.len() implies (#[trigger] t[a]).0 != (
            #[trigger] t[b]).0 by {
                let a2 = if a < j {
                    a
                } else {
                    a + 1
                };
                let b2 = if b < j {
                    b
                } else {
                    b + 1
                };
                assert(t[a] == entries[a2]);
                assert(t[b] == entries[b2]);
            }
        },
        None => {},
    }
}

impl<V: Copy> PeerTable<V> {
    pub open spec fn well_formed(&self) -> bool {
        keys_unique(self@)
    }

    pub fn new() -> (r: Self)
        ensures
            r@ == Seq::<(Seq<char>, V)>::empty(),
            r.well_formed(),
    {
        let r = PeerTable { entries: Vec::new() };
        assert(r@ =~= Seq::<(Seq<char>, V)>::empty());
        r
    }

    pub fn len(&self) -> (r: usize)
        ensures
            r == self@.len(),
    {
        self.entries.len()
    }

    /// The position of `id`.
    fn find(&self, id: &String) -> (r: Option<usize>)
        requires
            self.well_formed(),
        ensures
            match r {
                Some(j) => j < self@.len() && slot_of(self@, id@) == Some(j as int),
                None => slot_of(self@, id@) is None,
            },
    {
        let ghost s = self@;
        let mut j: usize = 0;
        while j < self.entries.len()
            invariant
                j <= self.entries@.len(),
                s == self@,
                s.len() == self.entries@.len(),
                keys_unique(s),
                forall|k: int| 0 <= k < j ==> s[k].0 != id@,
            decreases self.entries.len() - j,
        {
            assert(s[j as int].0 == self.entries@[j as int].0@);
            if self.entries[j].0 == *id {
                proof {
                    let c = choose|c: int| 0 <= c < s.len() && s[c].0 == id@;
                    assert(c == j) by {
                        if c > j {
                            assert(s[j as int].0 != s[c].0);
                        }
                    }
                }
                return Some(j);
            }
            j = j + 1;
        }
        None
    }

    pub fn contains(&self, id: &String) -> (r: bool)
        requires
            self.well_formed(),
        ensures
            r == slot_of(self@, id@) is Some,
    {
        self.find(id).is_some()
    }

    pub fn get(&self, id: &String) -> (r: Option<V>)
        requires
            self.well_formed(),
        ensures
            r == table_get(self@, id@),
    {
        match self.find(id) {
            Some(j) => {
                assert(self@[j as int].1 == self.entries@[j as int].1);
                Some(self.entries[j].1)
            },
            None => None,
        }
    }

    /// The entry at position `i`.
    pub fn entry(&self, i: usize) -> (r: (&String, V))
        requires
            i < self@.len(),
        ensures
            r.0@ == self@[i as int].0,
            r.1 == self@[i as int].1,
    {
        (&self.entries[i].0, self.entries[i].1)
    }

    pub fn insert(&mut self, id: String, v: V)
        requires
            old(self).well_formed(),
        ensures
            final(self).well_formed(),
            final(self)@ == table_insert(old(self)@, id@, v),
    {
        let ghost old_view = self@;
        let ghost key = id@;
        proof {
            lemma_insert_keeps_unique(old_view, key, v);
        }
        match self.find(&id) {
            Some(j) => {
                self.entries[j] = (id, v);
                assert(self@ =~= old_view.update(j as int, (key, v)));
            },
            None => {
                self.entries.push((id, v));
                assert(self@ =~= old_view.push((key, v)));
            },
        }
    }

    pub fn remove(&mut self, id: &String)
        requires
            old(self).well_formed(),
        ensures
            final(self).well_formed(),
            final(self)@ == table_remove(old(self)@, id@),
    {
        let ghost old_view = self@;
        proof {
            lemma_remove_keeps_unique(old_view, id@);
        }
        match self.find(id) {
            Some(j) => {
                self.entries.remove(j);
                assert(self@ =~= old_view.remove(j as int));
            },
            None => {},
        }
    }
}

} // verus!
