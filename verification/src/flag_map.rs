//! A small map from string keys to booleans, used for the expand/collapse
//! flag of folders in the note tree and of label groups in the visualizer.
//! A key that was never set reads as `false`: collapsed is the default.

use vstd::prelude::*;
use crate::text::str_eq;

verus! {

/// A map from string keys to flags; missing keys read as `false`.
#[derive(Debug)]
pub struct FlagMap {
    entries: Vec<(String, bool)>,
}

spec fn keys_match(s: Seq<(String, bool)>, k: Seq<char>, i: int) -> bool {
    0 <= i < s.len() && s[i].0@ == k
}

impl FlagMap {
    /// Well-formedness: keys are unique.
    pub closed spec fn wf(self) -> bool {
        forall|i: int, j: int|
            0 <= i < j < self.entries@.len() ==> self.entries@[i].0@ != self.entries@[j].0@
    }

    /// Whether the key was ever set.
    pub closed spec fn has_flag(self, k: Seq<char>) -> bool {
        exists|i: int| keys_match(self.entries@, k, i)
    }

    /// The flag under this key; a missing key reads as `false`.
    pub closed spec fn flag_of(self, k: Seq<char>) -> bool {
        if self.has_flag(k) {
            self.entries@[choose|i: int| keys_match(self.entries@, k, i)].1
        } else {
            false
        }
    }

    /// The empty map: every key reads as `false`.
    pub fn new() -> (r: FlagMap)
        ensures
            r.wf(),
            forall|k: Seq<char>| !r.has_flag(k),
            forall|k: Seq<char>| !r.flag_of(k),
    {
        FlagMap { entries: Vec::new() }
    }

    fn find_entry(&self, key: &str) -> (r: Option<usize>)
        requires
            self.wf(),
        ensures
            match r {
                Some(i) => keys_match(self.entries@, key@, i as int),
                None => !self.has_flag(key@),
            },
    {
        let mut i: usize = 0;
        while i < self.entries.len()
            invariant
                i <= self.entries.len(),
                forall|k: int| 0 <= k < i ==> self.entries@[k].0@ != key@,
            decreases self.entries.len() - i,
        {
            if str_eq(self.entries[i].0.as_str(), key) {
                return Some(i);
            }
            i = i + 1;
        }
        None
    }

    proof fn lemma_entry_at(self, k: Seq<char>, i: int)
        requires
            self.wf(),
            keys_match(self.entries@, k, i),
        ensures
            self.has_flag(k),
            self.flag_of(k) == self.entries@[i].1,
    {
        let j = choose|j: int| keys_match(self.entries@, k, j);
        assert(j == i);
    }

    /// Whether the key is present in the map.
    pub fn contains(&self, key: &str) -> (r: bool)
        requires
            self.wf(),
        ensures
            r == self.has_flag(key@),
    {
        match self.find_entry(key) {
            Some(i) => {
                proof {
                    self.lemma_entry_at(key@, i as int);
                }
                true
            },
            None => false,
        }
    }

    /// Reads the flag; a key never set reads as `false`.
    pub fn get(&self, key: &str) -> (r: bool)
        requires
            self.wf(),
        ensures
            r == self.flag_of(key@),
    {
        match self.find_entry(key) {
            Some(i) => {
                proof {
                    self.lemma_entry_at(key@, i as int);
                }
                self.entries[i].1
            },
            None => false,
        }
    }

    /// Sets the flag under the key, adding the key if it is new.
    pub fn set(&mut self, key: &str, value: bool)
        requires
            old(self).wf(),
        ensures
            final(self).wf(),
            final(self).has_flag(key@),
            final(self).flag_of(key@) == value,
            forall|k: Seq<char>| k != key@ ==> final(self).has_flag(k) == old(self).has_flag(k),
            forall|k: Seq<char>| k != key@ ==> final(self).flag_of(k) == old(self).flag_of(k),
    {
        let ghost pre = self.entries@;
        match self.find_entry(key) {
            Some(i) => {
                let ghost gi = i as int;
                let k2 = self.entries[i].0.clone();
                let _ = self.entries.remove(i);
                self.entries.insert(i, (k2, value));
                assert(self.entries@ =~= pre.update(gi, self.entries@[gi]));
                proof {
                    self.lemma_same_keys_update(*old(self), gi, key@);
                }
            },
            None => {
                self.entries.push((key.to_owned(), value));
                proof {
                    self.lemma_push_new(*old(self), key@);
                }
            },
        }
    }

    /// Flips the flag under the key; a key never set is left alone.
    pub fn toggle(&mut self, key: &str)
        requires
            old(self).wf(),
        ensures
            final(self).wf(),
            forall|k: Seq<char>| final(self).has_flag(k) == old(self).has_flag(k),
            old(self).has_flag(key@) ==> final(self).flag_of(key@) == !old(self).flag_of(key@),
            !old(self).has_flag(key@) ==> *final(self) == *old(self),
            forall|k: Seq<char>| k != key@ ==> final(self).flag_of(k) == old(self).flag_of(k),
    {
        let ghost pre = self.entries@;
        match self.find_entry(key) {
            Some(i) => {
                let ghost gi = i as int;
                proof {
                    old(self).lemma_entry_at(key@, gi);
                }
                let k2 = self.entries[i].0.clone();
                let v = self.entries[i].1;
                let _ = self.entries.remove(i);
                self.entries.insert(i, (k2, !v));
                assert(self.entries@ =~= pre.update(gi, self.entries@[gi]));
                proof {
                    self.lemma_same_keys_update(*old(self), gi, key@);
                }
            },
            None => {},
        }
    }

    /// Sets every present key to `false`; with the collapsed default this
    /// makes every key read as `false`.
    pub fn set_all_false(&mut self)
        requires
            old(self).wf(),
        ensures
            final(self).wf(),
            forall|k: Seq<char>| final(self).has_flag(k) == old(self).has_flag(k),
            forall|k: Seq<char>| !final(self).flag_of(k),
    {
        let mut out: Vec<(String, bool)> = Vec::new();
        let mut i: usize = 0;
        while i < self.entries.len()
            invariant
                i <= self.entries.len(),
                out@.len() == i,
                forall|k: int| 0 <= k < i ==> out@[k].0@ == self.entries@[k].0@,
                forall|k: int| 0 <= k < i ==> out@[k].1 == false,
            decreases self.entries.len() - i,
        {
            out.push((self.entries[i].0.clone(), false));
            i = i + 1;
        }
        let ghost pre = *self;
        self.entries = out;
        proof {
            assert forall|k: Seq<char>| final(self).has_flag(k) == pre.has_flag(k) by {
                if pre.has_flag(k) {
                    let j = choose|j: int| keys_match(pre.entries@, k, j);
                    assert(keys_match(self.entries@, k, j));
                }
                if self.has_flag(k) {
                    let j = choose|j: int| keys_match(self.entries@, k, j);
                    assert(keys_match(pre.entries@, k, j));
                }
            }
        }
    }

    proof fn lemma_same_keys_update(self, pre: FlagMap, i: int, k: Seq<char>)
        requires
            pre.wf(),
            0 <= i < pre.entries@.len(),
            self.entries@ == pre.entries@.update(i, self.entries@[i]),
            self.entries@[i].0@ == pre.entries@[i].0@,
            pre.entries@[i].0@ == k,
        ensures
            self.wf(),
            self.has_flag(k),
            self.flag_of(k) == self.entries@[i].1,
            forall|q: Seq<char>| q != k ==> self.has_flag(q) == pre.has_flag(q),
            forall|q: Seq<char>| q != k ==> self.flag_of(q) == pre.flag_of(q),
    {
        assert forall|q: Seq<char>| q != k implies self.has_flag(q) == pre.has_flag(q) by {
            if pre.has_flag(q) {
                let j = choose|j: int| keys_match(pre.entries@, q, j);
                assert(keys_match(self.entries@, q, j));
            }
            if self.has_flag(q) {
                let j = choose|j: int| keys_match(self.entries@, q, j);
                assert(keys_match(pre.entries@, q, j));
            }
        }
        assert forall|q: Seq<char>| q != k && self.has_flag(q) implies self.flag_of(q)
            == pre.flag_of(q) by {
            let j = choose|j: int| keys_match(self.entries@, q, j);
            assert(j != i);
            assert(keys_match(pre.entries@, q, j));
            pre.lemma_entry_at(q, j);
            self.lemma_entry_at(q, j);
        }
        self.lemma_entry_at(k, i);
    }

    proof fn lemma_push_new(self, pre: FlagMap, k: Seq<char>)
        requires
            pre.wf(),
            !pre.has_flag(k),
            self.entries@ == pre.entries@.push(self.entries@.last()),
            self.entries@.last().0@ == k,
        ensures
            self.wf(),
            self.has_flag(k),
            self.flag_of(k) == self.entries@.last().1,
            forall|q: Seq<char>| q != k ==> self.has_flag(q) == pre.has_flag(q),
            forall|q: Seq<char>| q != k ==> self.flag_of(q) == pre.flag_of(q),
    {
        let n = pre.entries@.len();
        assert(forall|j: int| 0 <= j < n ==> self.entries@[j] == pre.entries@[j]);
        assert forall|j: int| 0 <= j < n implies pre.entries@[j].0@ != k by {
            assert(!keys_match(pre.entries@, k, j));
        }
        assert(keys_match(self.entries@, k, n as int));
        assert forall|q: Seq<char>| q != k implies self.has_flag(q) == pre.has_flag(q) by {
            if pre.has_flag(q) {
                let j = choose|j: int| keys_match(pre.entries@, q, j);
                assert(keys_match(self.entries@, q, j));
            }
            if self.has_flag(q) {
                let j = choose|j: int| keys_match(self.entries@, q, j);
                assert(j < n);
                assert(keys_match(pre.entries@, q, j));
            }
        }
        assert forall|q: Seq<char>| q != k && self.has_flag(q) implies self.flag_of(q)
            == pre.flag_of(q) by {
            let j = choose|j: int| keys_match(self.entries@, q, j);
            assert(keys_match(pre.entries@, q, j));
            pre.lemma_entry_at(q, j);
            self.lemma_entry_at(q, j);
        }
        self.lemma_entry_at(k, n as int);
    }
}

} // verus!
