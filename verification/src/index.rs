//! The in-memory index: a map from each live key to the on-disk location of
//! its current put record.
//!
//! The map is kept as a vector of key/location pairs with pairwise-distinct
//! keys; its mathematical view is a `Map` from key characters to locations.

use vstd::prelude::*;

use crate::bytes::Bytes;

verus! {

/// Where the current value of a key lives: the segment, the byte offset of
/// the record inside it, and the record's encoded size.
#[derive(Debug, Clone, Copy, PartialEq, Eq, Structural)]
pub struct ValueInfo {
    pub file_id: u64,
    pub file_offset: Bytes,
    pub size: Bytes,
}

/// The index.
pub struct Index {
    entries: Vec<(String, ValueInfo)>,
}

impl Index {
    /// The entries as a sequence of (key characters, location) pairs.
    pub closed spec fn entry_seq(&self) -> Seq<(Seq<char>, ValueInfo)> {
        self.entries@.map_values(|p: (String, ValueInfo)| (p.0@, p.1))
    }

    /// The keys are pairwise distinct.
    pub open spec fn wf(&self) -> bool {
        forall|i: int, j: int|
            0 <= i < j < self.entry_seq().len() ==> (#[trigger] self.entry_seq()[i]).0 != (
            #[trigger] self.entry_seq()[j]).0
    }

    /// The map this index represents.
    pub open spec fn view(&self) -> Map<Seq<char>, ValueInfo> {
        Map::new(
            |k: Seq<char>|
                exists|i: int| 0 <= i < self.entry_seq().len() && (#[trigger] self.entry_seq()[i]).0
                    == k,
            |k: Seq<char>|
                {
                    let i = choose|i: int|
                        0 <= i < self.entry_seq().len() && (#[trigger] self.entry_seq()[i]).0 == k;
                    self.entry_seq()[i].1
                },
        )
    }

    /// Each entry's location is the view's location for its key.
    pub proof fn lemma_entry_in_view(&self, i: int)
        requires
            self.wf(),
            0 <= i < self.entry_seq().len(),
        ensures
            self@.contains_key(self.entry_seq()[i].0),
            self@[self.entry_seq()[i].0] == self.entry_seq()[i].1,
    {
        let k = self.entry_seq()[i].0;
        let j = choose|j: int|
            0 <= j < self.entry_seq().len() && (#[trigger] self.entry_seq()[j]).0 == k;
        assert(0 <= j < self.entry_seq().len() && self.entry_seq()[j].0 == k);
        if i != j {
            assert(false);
        }
    }

    /// Every key of the view is the key of exactly one entry; return its
    /// position.
    pub proof fn index_of_key(&self, k: Seq<char>) -> (i: int)
        requires
            self.wf(),
            self@.contains_key(k),
        ensures
            0 <= i < self.entry_seq().len(),
            self.entry_seq()[i].0 == k,
            self.entry_seq()[i].1 == self@[k],
    {
        let i = choose|i: int|
            0 <= i < self.entry_seq().len() && (#[trigger] self.entry_seq()[i]).0 == k;
        assert(0 <= i < self.entry_seq().len() && self.entry_seq()[i].0 == k);
        self.lemma_entry_in_view(i);
        i
    }

    /// A fresh, empty index.
    pub fn new() -> (r: Index)
        ensures
            r.wf(),
            r@ == Map::<Seq<char>, ValueInfo>::empty(),
            r.entry_seq() == Seq::<(Seq<char>, ValueInfo)>::empty(),
    {
        let r = Index { entries: Vec::new() };
        proof {
            assert(r.entry_seq() =~= Seq::<(Seq<char>, ValueInfo)>::empty());
            assert(r@ =~= Map::<Seq<char>, ValueInfo>::empty());
        }
        r
    }

    /// The number of live keys.
    pub fn len(&self) -> (r: usize)
        ensures
            r == self.entry_seq().len(),
    {
        self.entries.len()
    }

    /// The key and location of the entry at position `i`.
    pub fn entry_at(&self, i: usize) -> (r: (String, ValueInfo))
        requires
            i < self.entry_seq().len(),
        ensures
            (r.0@, r.1) == self.entry_seq()[i as int],
    {
        let p = &self.entries[i];
        (p.0.clone(), p.1)
    }

    /// Look a key up.
    pub fn get(&self, key: &String) -> (r: Option<ValueInfo>)
        requires
            self.wf(),
        ensures
            match r {
                Some(info) => self@.contains_key(key@) && self@[key@] == info,
                None => !self@.contains_key(key@),
            },
    {
        let n = self.entries.len();
        let mut i: usize = 0;
        while i < n
            invariant
                n == self.entry_seq().len(),
                i <= n,
                self.wf(),
                forall|j: int| 0 <= j < i ==> (#[trigger] self.entry_seq()[j]).0 != key@,
            decreases n - i,
        {
            if self.entries[i].0 == *key {
                let info = self.entries[i].1;
                proof {
                    self.lemma_entry_in_view(i as int);
                }
                return Some(info);
            }
            i = i + 1;
        }
        proof {
            if self@.contains_key(key@) {
                self.index_of_key(key@);
            }
        }
        None
    }

    /// Install `info` as the location for `key`, replacing any previous
    /// location.
    pub fn insert(&mut self, key: String, info: ValueInfo)
        requires
            old(self).wf(),
        ensures
            final(self).wf(),
            final(self)@ == old(self)@.insert(key@, info),
            if old(self)@.contains_key(key@) {
                exists|i: int|
                    0 <= i < old(self).entry_seq().len() && (#[trigger] old(
                        self,
                    ).entry_seq()[i]).0 == key@ && final(self).entry_seq() == old(
                        self,
                    ).entry_seq().update(i, (key@, info))
            } else {
                final(self).entry_seq() == old(self).entry_seq().push((key@, info))
            },
    {
        let ghost old_seq = self.entry_seq();
        let ghost kv = key@;
        let n = self.entries.len();
        let mut i: usize = 0;
        while i < n
            invariant
                n == self.entry_seq().len(),
                i <= n,
                self.wf(),
                self.entry_seq() == old_seq,
                old(self).wf(),
                old(self).entry_seq() == old_seq,
                forall|j: int| 0 <= j < i ==> (#[trigger] self.entry_seq()[j]).0 != kv,
                kv == key@,
            decreases n - i,
        {
            if self.entries[i].0 == *(&key) {
                self.entries[i] = (key, info);
                proof {
                    let new_seq = self.entry_seq();
                    assert(new_seq =~= old_seq.update(i as int, (kv, info)));
                    assert(forall|j: int|
                        0 <= j < old_seq.len() ==> (#[trigger] new_seq[j]).0 == old_seq[j].0);
                    assert(self.wf());
                    self.lemma_entry_in_view(i as int);
                    assert forall|k: Seq<char>|
                        self@.contains_key(k) == old(self)@.insert(kv, info).contains_key(k) by {
                        if k != kv {
                            if self@.contains_key(k) {
                                let m = self.index_of_key(k);
                                assert(old_seq[m].0 == k);
                            }
                            if old(self)@.contains_key(k) {
                                let m = old(self).index_of_key(k);
                                assert(new_seq[m].0 == k);
                            }
                        }
                    }
                    assert forall|k: Seq<char>| #[trigger] self@.contains_key(k) implies self@[k]
                        == old(self)@.insert(kv, info)[k] by {
                        if k != kv {
                            let m = self.index_of_key(k);
                            assert(m != i);
                            assert(old_seq[m] == new_seq[m]);
                            old(self).lemma_entry_in_view(m);
                        }
                    }
                    assert(self@ =~= old(self)@.insert(kv, info));
                    old(self).lemma_entry_in_view(i as int);
                    assert((old(self).entry_seq()[i as int]).0 == kv && self.entry_seq() == old(
                        self,
                    ).entry_seq().update(i as int, (kv, info)));
                }
                return ;
            }
            i = i + 1;
        }
        self.entries.push((key, info));
        proof {
            let new_seq = self.entry_seq();
            assert(new_seq =~= old_seq.push((kv, info)));
            assert(self.wf());
            self.lemma_entry_in_view(old_seq.len() as int);
            assert forall|k: Seq<char>|
                self@.contains_key(k) == old(self)@.insert(kv, info).contains_key(k) by {
                if k != kv {
                    if self@.contains_key(k) {
                        let m = self.index_of_key(k);
                        assert(m != old_seq.len());
                        assert(old_seq[m].0 == k);
                    }
                    if old(self)@.contains_key(k) {
                        let m = old(self).index_of_key(k);
                        assert(new_seq[m].0 == k);
                    }
                }
            }
            assert forall|k: Seq<char>| #[trigger] self@.contains_key(k) implies self@[k]
                == old(self)@.insert(kv, info)[k] by {
                if k != kv {
                    let m = self.index_of_key(k);
                    assert(m != old_seq.len());
                    assert(old_seq[m] == new_seq[m]);
                    old(self).lemma_entry_in_view(m);
                }
            }
            assert(self@ =~= old(self)@.insert(kv, info));
            if old(self)@.contains_key(kv) {
                let m = old(self).index_of_key(kv);
                assert(false);
            }
        }
    }

    /// Rewrite the location of the entry at position `i`, leaving its key
    /// and every other entry alone.
    pub fn set_info_at(&mut self, i: usize, info: ValueInfo)
        requires
            old(self).wf(),
            i < old(self).entry_seq().len(),
        ensures
            final(self).wf(),
            final(self).entry_seq() == old(self).entry_seq().update(
                i as int,
                (old(self).entry_seq()[i as int].0, info),
            ),
            final(self)@ == old(self)@.insert(old(self).entry_seq()[i as int].0, info),
    {
        let ghost old_seq = self.entry_seq();
        let ghost kv = old_seq[i as int].0;
        let p = &mut self.entries[i];
        p.1 = info;
        proof {
            let new_seq = self.entry_seq();
            assert(new_seq =~= old_seq.update(i as int, (kv, info)));
            assert(forall|j: int|
                0 <= j < old_seq.len() ==> (#[trigger] new_seq[j]).0 == old_seq[j].0);
            assert(self.wf());
            self.lemma_entry_in_view(i as int);
            assert forall|k: Seq<char>|
                self@.contains_key(k) == old(self)@.insert(kv, info).contains_key(k) by {
                if k != kv {
                    if self@.contains_key(k) {
                        let m = self.index_of_key(k);
                        assert(old_seq[m].0 == k);
                        old(self).lemma_entry_in_view(m);
                    }
                    if old(self)@.contains_key(k) {
                        let m = old(self).index_of_key(k);
                        assert(new_seq[m].0 == k);
                    }
                }
            }
            assert forall|k: Seq<char>| #[trigger] self@.contains_key(k) implies self@[k]
                == old(self)@.insert(kv, info)[k] by {
                if k != kv {
                    let m = self.index_of_key(k);
                    assert(m != i);
                    assert(old_seq[m] == new_seq[m]);
                    old(self).lemma_entry_in_view(m);
                }
            }
            assert(self@ =~= old(self)@.insert(kv, info));
        }
    }

    /// Remove `key` and its location, if present.
    pub fn remove(&mut self, key: &String)
        requires
            old(self).wf(),
        ensures
            final(self).wf(),
            final(self)@ == old(self)@.remove(key@),
            if old(self)@.contains_key(key@) {
                exists|i: int|
                    0 <= i < old(self).entry_seq().len() && (#[trigger] old(
                        self,
                    ).entry_seq()[i]).0 == key@ && final(self).entry_seq() == old(
                        self,
                    ).entry_seq().update(i, old(self).entry_seq().last()).drop_last()
            } else {
                final(self).entry_seq() == old(self).entry_seq()
            },
    {
        let ghost old_seq = self.entry_seq();
        let n = self.entries.len();
        let mut i: usize = 0;
        while i < n
            invariant
                n == self.entry_seq().len(),
                i <= n,
                self.wf(),
                self.entry_seq() == old_seq,
                old(self).wf(),
                old(self).entry_seq() == old_seq,
                forall|j: int| 0 <= j < i ==> (#[trigger] self.entry_seq()[j]).0 != key@,
            decreases n - i,
        {
            if self.entries[i].0 == *key {
                self.entries.swap_remove(i);
                proof {
                    let new_seq = self.entry_seq();
                    assert(new_seq =~= old_seq.update(i as int, old_seq.last()).drop_last());
                    assert(forall|j: int|
                        0 <= j < new_seq.len() ==> (#[trigger] new_seq[j]) == (if j == i as int {
                            old_seq[old_seq.len() - 1]
                        } else {
                            old_seq[j]
                        }));
                    assert(self.wf());
                    assert forall|k: Seq<char>|
                        self@.contains_key(k) == old(self)@.remove(key@).contains_key(k) by {
                        if self@.contains_key(k) {
                            let m = self.index_of_key(k);
                            if m == i as int {
                                assert(old_seq[old_seq.len() - 1].0 == k);
                                assert((old(self).entry_seq()[i as int]).0 != (old(
                                    self,
                                ).entry_seq()[old_seq.len() - 1]).0);
                            } else {
                                assert(old_seq[m].0 == k);
                                if m < i as int {
                                    assert((old(self).entry_seq()[m]).0 != (old(
                                        self,
                                    ).entry_seq()[i as int]).0);
                                } else {
                                    assert((old(self).entry_seq()[i as int]).0 != (old(
                                        self,
                                    ).entry_seq()[m]).0);
                                }
                            }
                            assert(k != key@);
                        }
                        if old(self)@.contains_key(k) && k != key@ {
                            let m = old(self).index_of_key(k);
                            assert(m != i);
                            if m == old_seq.len() - 1 {
                                assert(i as int != old_seq.len() - 1);
                                assert(new_seq[i as int].0 == k);
                            } else {
                                assert(new_seq[m].0 == k);
                            }
                        }
                    }
                    assert forall|k: Seq<char>| #[trigger] self@.contains_key(k) implies self@[k]
                        == old(self)@.remove(key@)[k] by {
                        let m = self.index_of_key(k);
                        if m == i as int {
                            old(self).lemma_entry_in_view(old_seq.len() - 1);
                        } else {
                            old(self).lemma_entry_in_view(m);
                        }
                    }
                    assert(self@ =~= old(self)@.remove(key@));
                    old(self).lemma_entry_in_view(i as int);
                    assert((old(self).entry_seq()[i as int]).0 == key@ && self.entry_seq() == old(
                        self,
                    ).entry_seq().update(i as int, old(self).entry_seq().last()).drop_last());
                }
                return ;
            }
            i = i + 1;
        }
        proof {
            if self@.contains_key(key@) {
                self.index_of_key(key@);
            }
            assert(self@ =~= old(self)@.remove(key@));
        }
    }
}

} // verus!
