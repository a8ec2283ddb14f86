//! Rows stored under names, each name at most once, viewed as a map from names.

use vstd::prelude::*;

verus! {

/// The map that a sequence of keyed entries stands for: each key to the value
/// stored under it.
pub open spec fn entry_map<W>(s: Seq<(String, W)>) -> Map<Seq<char>, W> {
    Map::new(
        |k: Seq<char>| exists|i: int| 0 <= i < s.len() && s[i].0@ == k,
        |k: Seq<char>| s[choose|i: int| 0 <= i < s.len() && s[i].0@ == k].1,
    )
}

/// No key occurs twice among the entries.
pub open spec fn entry_keys_unique<W>(s: Seq<(String, W)>) -> bool {
    forall|i: int, j: int|
        0 <= i < s.len() && 0 <= j < s.len() && #[trigger] s[i].0@ == #[trigger] s[j].0@ ==> i == j
}

proof fn lemma_entry_map_at<W>(s: Seq<(String, W)>, i: int)
    requires
        entry_keys_unique(s),
        0 <= i < s.len(),
    ensures
        entry_map(s).dom().contains(s[i].0@),
        entry_map(s)[s[i].0@] == s[i].1,
{
    let k = s[i].0@;
    assert(exists|j: int| 0 <= j < s.len() && s[j].0@ == k);
    let j = choose|j: int| 0 <= j < s.len() && s[j].0@ == k;
    assert(s[j].0@ == s[i].0@);
}

pub(crate) proof fn lemma_entry_map_absent<W>(s: Seq<(String, W)>, k: Seq<char>)
    requires
        forall|i: int| 0 <= i < s.len() ==> #[trigger] s[i].0@ != k,
    ensures
        !entry_map(s).dom().contains(k),
{
    if entry_map(s).dom().contains(k) {
        let j = choose|j: int| 0 <= j < s.len() && s[j].0@ == k;
        assert(s[j].0@ != k);
    }
}

proof fn lemma_entry_map_update<W>(s: Seq<(String, W)>, i: int, v: W)
    requires
        entry_keys_unique(s),
        0 <= i < s.len(),
    ensures
        entry_keys_unique(s.update(i, (s[i].0, v))),
        entry_map(s.update(i, (s[i].0, v))) == entry_map(s).insert(s[i].0@, v),
{
    let t = s.update(i, (s[i].0, v));
    assert forall|a: int, b: int|
        0 <= a < t.len() && 0 <= b < t.len() && #[trigger] t[a].0@ == #[trigger] t[b].0@ implies a
        == b by {
        assert(t[a].0@ == s[a].0@ && t[b].0@ == s[b].0@);
    }
    assert forall|k: Seq<char>| #[trigger]
        entry_map(t).dom().contains(k) <==> entry_map(s).insert(s[i].0@, v).dom().contains(k) by {
        if entry_map(s).dom().contains(k) {
            let j = choose|j: int| 0 <= j < s.len() && s[j].0@ == k;
            assert(t[j].0@ == k);
        }
        if entry_map(t).dom().contains(k) {
            let j = choose|j: int| 0 <= j < t.len() && t[j].0@ == k;
            assert(s[j].0@ == k);
        }
    }
    assert forall|k: Seq<char>| #[trigger] entry_map(t).dom().contains(k) implies entry_map(t)[k]
        == entry_map(s).insert(s[i].0@, v)[k] by {
        let j = choose|j: int| 0 <= j < t.len() && t[j].0@ == k;
        lemma_entry_map_at(t, j);
        lemma_entry_map_at(s, j);
    }
    assert(entry_map(t) =~= entry_map(s).insert(s[i].0@, v));
}

pub(crate) proof fn lemma_entry_map_push<W>(s: Seq<(String, W)>, k: String, v: W)
    requires
        entry_keys_unique(s),
        !entry_map(s).dom().contains(k@),
    ensures
        entry_keys_unique(s.push((k, v))),
        entry_map(s.push((k, v))) == entry_map(s).insert(k@, v),
{
    let t = s.push((k, v));
    assert forall|a: int, b: int|
        0 <= a < t.len() && 0 <= b < t.len() && #[trigger] t[a].0@ == #[trigger] t[b].0@ implies a
        == b by {
        if a < s.len() && b == s.len() {
            assert(s[a].0@ == k@);
        }
        if b < s.len() && a == s.len() {
            assert(s[b].0@ == k@);
        }
    }
    assert forall|kk: Seq<char>| #[trigger]
        entry_map(t).dom().contains(kk) <==> entry_map(s).insert(k@, v).dom().contains(kk) by {
        if entry_map(s).dom().contains(kk) {
            let j = choose|j: int| 0 <= j < s.len() && s[j].0@ == kk;
            assert(t[j].0@ == kk);
        }
        if kk == k@ {
            assert(t[s.len() as int].0@ == kk);
        }
        if entry_map(t).dom().contains(kk) && kk != k@ {
            let j = choose|j: int| 0 <= j < t.len() && t[j].0@ == kk;
            assert(s[j].0@ == kk);
        }
    }
    assert forall|kk: Seq<char>| #[trigger] entry_map(t).dom().contains(kk) implies entry_map(t)[kk]
        == entry_map(s).insert(k@, v)[kk] by {
        let j = choose|j: int| 0 <= j < t.len() && t[j].0@ == kk;
        lemma_entry_map_at(t, j);
        if j < s.len() {
            lemma_entry_map_at(s, j);
        }
    }
    assert(entry_map(t) =~= entry_map(s).insert(k@, v));
}

proof fn lemma_entry_map_remove<W>(s: Seq<(String, W)>, i: int)
    requires
        entry_keys_unique(s),
        0 <= i < s.len(),
    ensures
        entry_keys_unique(s.remove(i)),
        entry_map(s.remove(i)) == entry_map(s).remove(s[i].0@),
{
    let t = s.remove(i);
    let k = s[i].0@;
    assert forall|a: int| 0 <= a < t.len() implies #[trigger] t[a] == (if a < i {
        s[a]
    } else {
        s[a + 1]
    }) by {}
    assert forall|a: int, b: int|
        0 <= a < t.len() && 0 <= b < t.len() && #[trigger] t[a].0@ == #[trigger] t[b].0@ implies a
        == b by {
        let sa = if a < i {
            a
        } else {
            a + 1
        };
        let sb = if b < i {
            b
        } else {
            b + 1
        };
        assert(s[sa].0@ == s[sb].0@);
    }
    assert forall|kk: Seq<char>| #[trigger]
        entry_map(t).dom().contains(kk) <==> entry_map(s).remove(k).dom().contains(kk) by {
        if entry_map(t).dom().contains(kk) {
            let j = choose|j: int| 0 <= j < t.len() && t[j].0@ == kk;
            let sj = if j < i {
                j
            } else {
                j + 1
            };
            assert(s[sj].0@ == kk);
            assert(sj != i);
        }
        if entry_map(s).remove(k).dom().contains(kk) {
            let j = choose|j: int| 0 <= j < s.len() && s[j].0@ == kk;
            assert(j != i);
            let tj = if j < i {
                j
            } else {
                j - 1
            };
            assert(t[tj].0@ == kk);
        }
    }
    assert forall|kk: Seq<char>| #[trigger] entry_map(t).dom().contains(kk) implies entry_map(t)[kk]
        == entry_map(s).remove(k)[kk] by {
        let j = choose|j: int| 0 <= j < t.len() && t[j].0@ == kk;
        lemma_entry_map_at(t, j);
        let sj = if j < i {
            j
        } else {
            j + 1
        };
        lemma_entry_map_at(s, sj);
    }
    assert(entry_map(t) =~= entry_map(s).remove(k));
}

/// The position of `key` among the entries, if it is there.
fn find_entry<W>(entries: &Vec<(String, W)>, key: &String) -> (r: Option<usize>)
    ensures
        match r {
            Some(i) => i < entries@.len() && entries@[i as int].0@ == key@,
            None => forall|i: int| 0 <= i < entries@.len() ==> #[trigger] entries@[i].0@ != key@,
        },
{
    let mut i: usize = 0;
    while i < entries.len()
        invariant
            i <= entries@.len(),
            forall|j: int| 0 <= j < i ==> #[trigger] entries@[j].0@ != key@,
        decreases entries@.len() - i,
    {
        if entries[i].0 == *key {
            return Some(i);
        }
        i = i + 1;
    }
    None
}

/// Rows stored under names, each name at most once.
pub struct KeyedRows<W> {
    entries: Vec<(String, W)>,
}

impl<W> View for KeyedRows<W> {
    type V = Map<Seq<char>, W>;

    closed spec fn view(&self) -> Map<Seq<char>, W> {
        entry_map(self.entries@)
    }
}

impl<W> KeyedRows<W> {
    #[verifier::type_invariant]
    closed spec fn unique_names(self) -> bool {
        entry_keys_unique(self.entries@)
    }

    /// No rows.
    pub fn new() -> (k: KeyedRows<W>)
        ensures
            k@ == Map::<Seq<char>, W>::empty(),
    {
        let k = KeyedRows { entries: Vec::new() };
        assert(k@ =~= Map::<Seq<char>, W>::empty());
        k
    }

    /// The number of rows.
    pub fn len(&self) -> (n: usize)
        ensures
            n == self@.len(),
    {
        proof {
            use_type_invariant(self);
            let s = self.entries@;
            let keys = s.map_values(|p: (String, W)| p.0@);
            assert(keys.no_duplicates()) by {
                assert forall|a: int, b: int| 0 <= a < keys.len() && 0 <= b < keys.len() && a != b
                    implies keys[a] != keys[b] by {
                    assert(s[a].0@ == keys[a] && s[b].0@ == keys[b]);
                }
            }
            assert(self@.dom() =~= keys.to_set()) by {
                assert forall|k: Seq<char>| self@.dom().contains(k) implies keys.to_set().contains(
                    k,
                ) by {
                    let j = choose|j: int| 0 <= j < s.len() && s[j].0@ == k;
                    assert(keys[j] == k);
                }
                assert forall|k: Seq<char>| keys.to_set().contains(k) implies self@.dom().contains(
                    k,
                ) by {
                    let j = choose|j: int| 0 <= j < keys.len() && keys[j] == k;
                    assert(s[j].0@ == k);
                }
            }
            keys.unique_seq_to_set();
        }
        self.entries.len()
    }

    /// Whether a row is stored under `name`.
    pub fn contains(&self, name: &String) -> (b: bool)
        ensures
            b == self@.dom().contains(name@),
    {
        proof {
            use_type_invariant(self);
        }
        match find_entry(&self.entries, name) {
            Some(i) => {
                proof {
                    lemma_entry_map_at(self.entries@, i as int);
                }
                true
            },
            None => {
                proof {
                    lemma_entry_map_absent(self.entries@, name@);
                }
                false
            },
        }
    }

    /// The row stored under `name`.
    pub fn get(&self, name: &String) -> (r: Option<&W>)
        ensures
            match r {
                Some(w) => self@.dom().contains(name@) && *w == self@[name@],
                None => !self@.dom().contains(name@),
            },
    {
        proof {
            use_type_invariant(self);
        }
        match find_entry(&self.entries, name) {
            Some(i) => {
                proof {
                    lemma_entry_map_at(self.entries@, i as int);
                }
                Some(&self.entries[i].1)
            },
            None => {
                proof {
                    lemma_entry_map_absent(self.entries@, name@);
                }
                None
            },
        }
    }

    /// Stores `row` under `name`, replacing any row stored there.
    pub fn insert(&mut self, name: String, row: W)
        ensures
            final(self)@ == old(self)@.insert(name@, row),
    {
        proof {
            use_type_invariant(&*self);
        }
        let mut entries = Vec::new();
        std::mem::swap(&mut entries, &mut self.entries);
        let ghost s = entries@;
        match find_entry(&entries, &name) {
            Some(i) => {
                proof {
                    lemma_entry_map_update(s, i as int, row);
                }
                let ghost k0 = s[i as int].0;
                let (k, _old_row) = entries.remove(i);
                entries.insert(i, (k, row));
                assert(entries@ =~= s.update(i as int, (k0, row)));
            },
            None => {
                proof {
                    lemma_entry_map_absent(s, name@);
                    lemma_entry_map_push(s, name, row);
                }
                entries.push((name, row));
            },
        }
        self.entries = entries;
    }

    /// Takes out the row stored under `name` and returns it.
    pub fn remove(&mut self, name: &String) -> (r: Option<W>)
        ensures
            final(self)@ == old(self)@.remove(name@),
            match r {
                Some(w) => old(self)@.dom().contains(name@) && w == old(self)@[name@],
                None => !old(self)@.dom().contains(name@),
            },
    {
        proof {
            use_type_invariant(&*self);
        }
        let mut entries = Vec::new();
        std::mem::swap(&mut entries, &mut self.entries);
        let ghost s = entries@;
        let r = match find_entry(&entries, name) {
            Some(i) => {
                proof {
                    lemma_entry_map_at(s, i as int);
                    lemma_entry_map_remove(s, i as int);
                }
                let (_k, w) = entries.remove(i);
                Some(w)
            },
            None => {
                proof {
                    lemma_entry_map_absent(s, name@);
                    assert(entry_map(s).remove(name@) =~= entry_map(s));
                }
                None
            },
        };
        self.entries = entries;
        r
    }

    /// The rows with their names, each name once.
    pub fn entries(&self) -> (r: &Vec<(String, W)>)
        ensures
            entry_map(r@) == self@,
            entry_keys_unique(r@),
    {
        proof {
            use_type_invariant(self);
        }
        &self.entries
    }
}

} // verus!
