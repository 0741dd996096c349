//! Key-value metadata of a tile: a map from keys to values, kept as a list of
//! entries in which no key occurs twice.
use vstd::prelude::*;

verus! {

/// The map that a list of entries stands for; a later entry wins over an
/// earlier one with the same key.
pub open spec fn entries_map(s: Seq<(String, String)>) -> Map<Seq<char>, Seq<char>>
    decreases s.len(),
{
    if s.len() == 0 {
        Map::empty()
    } else {
        entries_map(s.drop_last()).insert(s.last().0@, s.last().1@)
    }
}

/// No key occurs twice in the list of entries.
pub open spec fn keys_distinct(s: Seq<(String, String)>) -> bool {
    forall|i: int, j: int| 0 <= i < j < s.len() ==> (#[trigger] s[i]).0@ != (#[trigger] s[j]).0@
}

/// With distinct keys, the map holds `k` exactly when some entry has key `k`,
/// and then maps it to that entry's value.
pub proof fn lemma_entries_map(s: Seq<(String, String)>)
    requires
        keys_distinct(s),
    ensures
        forall|k: Seq<char>| #[trigger]
            entries_map(s).dom().contains(k) <==> exists|i: int| 0 <= i < s.len() && s[i].0@ == k,
        forall|i: int| 0 <= i < s.len() ==> #[trigger] entries_map(s)[s[i].0@] == s[i].1@,
        entries_map(s).dom().finite(),
        entries_map(s).dom().len() == s.len(),
    decreases s.len(),
{
    if s.len() > 0 {
        let t = s.drop_last();
        assert(keys_distinct(t));
        lemma_entries_map(t);
        assert forall|k: Seq<char>| #[trigger]
            entries_map(s).dom().contains(k) <==> exists|i: int| 0 <= i < s.len() && s[i].0@ == k by {
            if entries_map(s).dom().contains(k) && k != s.last().0@ {
                let i = choose|i: int| 0 <= i < t.len() && t[i].0@ == k;
                assert(s[i] == t[i]);
            }
            if exists|i: int| 0 <= i < s.len() && s[i].0@ == k {
                let i = choose|i: int| 0 <= i < s.len() && s[i].0@ == k;
                if i < s.len() - 1 {
                    assert(t[i] == s[i]);
                }
            }
        }
        assert forall|i: int| 0 <= i < s.len() implies #[trigger] entries_map(s)[s[i].0@] == s[i].1@ by {
            if i < s.len() - 1 {
                assert(t[i] == s[i]);
                assert(s[i].0@ != s[s.len() - 1].0@);
            }
        }
        assert(!entries_map(t).dom().contains(s.last().0@)) by {
            if entries_map(t).dom().contains(s.last().0@) {
                let i = choose|i: int| 0 <= i < t.len() && t[i].0@ == s.last().0@;
                assert(s[i] == t[i]);
            }
        }
    }
}

/// Arbitrary key-value metadata of a tile.
#[derive(Debug, Clone)]
pub struct Metadata {
    entries: Vec<(String, String)>,
}

impl View for Metadata {
    type V = Map<Seq<char>, Seq<char>>;

    closed spec fn view(&self) -> Map<Seq<char>, Seq<char>> {
        entries_map(self.entries@)
    }
}

impl Metadata {
    /// The metadata is well formed: no key occurs twice.
    pub closed spec fn wf(&self) -> bool {
        keys_distinct(self.entries@)
    }

    /// Empty metadata.
    pub fn new() -> (r: Metadata)
        ensures
            r.wf(),
            r@ == Map::<Seq<char>, Seq<char>>::empty(),
    {
        Metadata { entries: Vec::new() }
    }

    /// Number of keys.
    pub fn len(&self) -> (r: usize)
        requires
            self.wf(),
        ensures
            r == self@.dom().len(),
    {
        proof {
            lemma_entries_map(self.entries@);
        }
        self.entries.len()
    }

    /// True when no key is set.
    pub fn is_empty(&self) -> (r: bool)
        requires
            self.wf(),
        ensures
            r == (self@.dom().len() == 0),
            r == (self@ == Map::<Seq<char>, Seq<char>>::empty()),
    {
        proof {
            lemma_entries_map(self.entries@);
            if self.entries@.len() > 0 {
                assert(self@.dom().contains(self.entries@[0].0@));
            } else {
                assert(self@ =~= Map::<Seq<char>, Seq<char>>::empty());
            }
        }
        self.entries.len() == 0
    }

    /// The entries, in the order their keys were first set.
    pub fn entries(&self) -> (r: &Vec<(String, String)>)
        requires
            self.wf(),
        ensures
            keys_distinct(r@),
            entries_map(r@) == self@,
    {
        &self.entries
    }

    /// The index of the entry with key `key`, if any.
    fn position(&self, key: &String) -> (r: Option<usize>)
        requires
            self.wf(),
        ensures
            match r {
                Some(i) => i < self.entries@.len() && self.entries@[i as int].0@ == key@,
                None => !self@.dom().contains(key@),
            },
    {
        proof {
            lemma_entries_map(self.entries@);
        }
        let mut i: usize = 0;
        while i < self.entries.len()
            invariant
                i <= self.entries@.len(),
                forall|j: int| 0 <= j < i ==> self.entries@[j].0@ != key@,
            decreases self.entries@.len() - i,
        {
            if self.entries[i].0 == *key {
                return Some(i);
            }
            i = i + 1;
        }
        None
    }

    /// The value stored under `key`, if any.
    pub fn get(&self, key: &str) -> (r: Option<&String>)
        requires
            self.wf(),
        ensures
            match r {
                Some(v) => self@.dom().contains(key@) && v@ == self@[key@],
                None => !self@.dom().contains(key@),
            },
    {
        let k = key.to_string();
        proof {
            lemma_entries_map(self.entries@);
        }
        match self.position(&k) {
            Some(i) => Some(&self.entries[i].1),
            None => None,
        }
    }

    /// Set `key` to `value`, replacing any earlier value.
    pub fn insert(&mut self, key: &str, value: &str)
        requires
            old(self).wf(),
        ensures
            final(self).wf(),
            final(self)@ == old(self)@.insert(key@, value@),
    {
        let k = key.to_string();
        let v = value.to_string();
        let ghost old_entries = self.entries@;
        proof {
            lemma_entries_map(old_entries);
        }
        match self.position(&k) {
            Some(i) => {
                self.entries.set(i, (k, v));
                proof {
                    let s = self.entries@;
                    assert(keys_distinct(s)) by {
                        assert forall|a: int, b: int| 0 <= a < b < s.len() implies (#[trigger] s[a]).0@
                            != (#[trigger] s[b]).0@ by {
                            assert(old_entries[a].0@ == s[a].0@);
                            assert(old_entries[b].0@ == s[b].0@);
                        }
                    }
                    lemma_entries_map(s);
                    assert(entries_map(s) =~= entries_map(old_entries).insert(key@, value@)) by {
                        assert forall|q: Seq<char>| #[trigger] entries_map(s).dom().contains(q)
                            <==> entries_map(old_entries).insert(key@, value@).dom().contains(q) by {
                            if exists|j: int| 0 <= j < s.len() && s[j].0@ == q {
                                let j = choose|j: int| 0 <= j < s.len() && s[j].0@ == q;
                                if j != i {
                                    assert(old_entries[j] == s[j]);
                                }
                            }
                            if exists|j: int| 0 <= j < old_entries.len() && old_entries[j].0@ == q {
                                let j = choose|j: int| 0 <= j < old_entries.len() && old_entries[j].0@ == q;
                                assert(s[j].0@ == q);
                            }
                        }
                        assert forall|q: Seq<char>| #[trigger] entries_map(s).dom().contains(q)
                            implies entries_map(s)[q] == entries_map(old_entries).insert(key@, value@)[q] by {
                            let j = choose|j: int| 0 <= j < s.len() && s[j].0@ == q;
                            if j != i {
                                assert(old_entries[j] == s[j]);
                            }
                        }
                    }
                }
            },
            None => {
                self.entries.push((k, v));
                proof {
                    let s = self.entries@;
                    assert(s.drop_last() =~= old_entries);
                    assert(keys_distinct(s)) by {
                        assert forall|a: int, b: int| 0 <= a < b < s.len() implies (#[trigger] s[a]).0@
                            != (#[trigger] s[b]).0@ by {
                            if b == s.len() - 1 {
                                assert(old_entries[a] == s[a]);
                                assert(entries_map(old_entries).dom().contains(old_entries[a].0@));
                            } else {
                                assert(old_entries[a] == s[a]);
                                assert(old_entries[b] == s[b]);
                            }
                        }
                    }
                }
            },
        }
    }

    /// True when some key is set to the same value here and in `other`.
    pub fn shares_entry_with(&self, other: &Metadata) -> (r: bool)
        requires
            self.wf(),
            other.wf(),
        ensures
            r == exists|k: Seq<char>|
                self@.dom().contains(k) && other@.dom().contains(k) && self@[k] == other@[k],
    {
        proof {
            lemma_entries_map(self.entries@);
            lemma_entries_map(other.entries@);
        }
        let mut i: usize = 0;
        while i < self.entries.len()
            invariant
                self.wf(),
                other.wf(),
                i <= self.entries@.len(),
                forall|j: int| 0 <= j < i ==> !(other@.dom().contains(#[trigger] self.entries@[j].0@)
                    && self@[self.entries@[j].0@] == other@[self.entries@[j].0@]),
            decreases self.entries@.len() - i,
        {
            proof {
                lemma_entries_map(self.entries@);
                lemma_entries_map(other.entries@);
            }
            match other.position(&self.entries[i].0) {
                Some(p) => {
                    if self.entries[i].1 == other.entries[p].1 {
                        proof {
                            let k = self.entries@[i as int].0@;
                            assert(self@.dom().contains(k));
                            assert(other@.dom().contains(k));
                            assert(other@[k] == other.entries@[p as int].1@);
                        }
                        return true;
                    }
                },
                None => {},
            }
            i = i + 1;
        }
        proof {
            assert forall|k: Seq<char>|
                !(self@.dom().contains(k) && other@.dom().contains(k) && self@[k] == other@[k]) by {
                if self@.dom().contains(k) {
                    let j = choose|j: int| 0 <= j < self.entries@.len() && self.entries@[j].0@ == k;
                }
            }
        }
        false
    }
}

} // verus!
