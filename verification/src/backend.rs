//! Segment storage.
//!
//! The engine reads and writes numbered segments through the
//! [`SegmentBackend`] capability: a family of append-only byte sequences
//! keyed by segment id. [`MemBackend`] keeps the segments in memory and is
//! verified end to end; the directory-backed implementation lives in its own
//! module and touches the platform through trusted leaves.

use vstd::prelude::*;
use vstd::slice::{slice_subrange, slice_to_vec};

use crate::errors::KvsError;

verus! {

/// A family of append-only byte sequences keyed by segment id.
///
/// Reads may move an internal cursor, so they take `&mut self`; they never
/// change the stored bytes.
pub trait SegmentBackend: Sized {
    /// The stored segments: each id maps to that segment's bytes. The
    /// default leaves the model unconstrained; a verified implementation
    /// overrides it.
    open spec fn view(&self) -> Map<u64, Seq<u8>> {
        arbitrary()
    }

    /// The implementation's internal invariant. The default leaves it
    /// unconstrained; a verified implementation overrides it.
    open spec fn inv(&self) -> bool {
        arbitrary()
    }

    /// The ids of all stored segments, in ascending order.
    fn ids(&self) -> (r: Vec<u64>)
        requires
            self.inv(),
        ensures
            forall|a: int, b: int| 0 <= a < b < r@.len() ==> r@[a] < r@[b],
            forall|id: u64| #[trigger] r@.contains(id) <==> self.view().contains_key(id),
    ;

    /// Create the empty segment `id`.
    fn create(&mut self, id: u64) -> (r: Result<(), KvsError>)
        requires
            old(self).inv(),
            !old(self).view().contains_key(id),
        ensures
            final(self).inv(),
            match r {
                Ok(()) => final(self).view() == old(self).view().insert(
                    id,
                    Seq::<u8>::empty(),
                ),
                Err(e) => e == KvsError::Io && final(self).view() == old(self).view(),
            },
    ;

    /// Append `data` to segment `id` and report the offset it landed at:
    /// the segment's length before the append. On failure some prefix of
    /// `data` may have been appended.
    fn append(&mut self, id: u64, data: &Vec<u8>) -> (r: Result<u64, KvsError>)
        requires
            old(self).inv(),
            old(self).view().contains_key(id),
        ensures
            final(self).inv(),
            match r {
                Ok(off) => {
                    &&& off == old(self).view()[id].len()
                    &&& old(self).view()[id].len() + data@.len() <= u64::MAX
                    &&& final(self).view() == old(self).view().insert(
                        id,
                        old(self).view()[id] + data@,
                    )
                },
                Err(e) => e == KvsError::Io && exists|p: int|
                    0 <= p <= data@.len() && final(self).view() == old(self).view().insert(
                        id,
                        old(self).view()[id] + #[trigger] data@.take(p),
                    ),
            },
    ;

    /// Read `len` bytes of segment `id` starting at `offset`.
    fn read_at(&mut self, id: u64, offset: u64, len: u64) -> (r: Result<Vec<u8>, KvsError>)
        requires
            old(self).inv(),
            old(self).view().contains_key(id),
            offset + len <= old(self).view()[id].len(),
        ensures
            final(self).inv(),
            final(self).view() == old(self).view(),
            match r {
                Ok(v) => v@ == old(self).view()[id].subrange(
                    offset as int,
                    offset + len,
                ),
                Err(e) => e == KvsError::Io,
            },
    ;

    /// Read the whole of segment `id`.
    fn read_all(&mut self, id: u64) -> (r: Result<Vec<u8>, KvsError>)
        requires
            old(self).inv(),
            old(self).view().contains_key(id),
        ensures
            final(self).inv(),
            final(self).view() == old(self).view(),
            match r {
                Ok(v) => v@ == old(self).view()[id],
                Err(e) => e == KvsError::Io,
            },
    ;

    /// Destroy segment `id`. On failure the segment either still exists in
    /// full or is gone.
    fn delete(&mut self, id: u64) -> (r: Result<(), KvsError>)
        requires
            old(self).inv(),
            old(self).view().contains_key(id),
        ensures
            final(self).inv(),
            match r {
                Ok(()) => final(self).view() == old(self).view().remove(id),
                Err(e) => e == KvsError::Io && (final(self).view() == old(self).view().remove(id)
                    || final(self).view() == old(self).view()),
            },
    ;
}

/// Segments held in memory: id/bytes pairs in ascending id order. Verified
/// end to end; used to exercise the engine without a file system.
pub struct MemBackend {
    segs: Vec<(u64, Vec<u8>)>,
}

impl MemBackend {
    /// The segments as a sequence of (id, bytes) pairs.
    pub closed spec fn seg_seq(&self) -> Seq<(u64, Seq<u8>)> {
        self.segs@.map_values(|p: (u64, Vec<u8>)| (p.0, p.1@))
    }

    /// A backend with no segments at all.
    pub fn new() -> (r: MemBackend)
        ensures
            r.inv(),
            r.view() == Map::<u64, Seq<u8>>::empty(),
    {
        let r = MemBackend { segs: Vec::new() };
        proof {
            assert(r.seg_seq() =~= Seq::<(u64, Seq<u8>)>::empty());
            assert(r.view() =~= Map::<u64, Seq<u8>>::empty());
        }
        r
    }

    /// Each stored pair is the view's entry for its id.
    proof fn lemma_entry_in_view(&self, i: int)
        requires
            self.inv(),
            0 <= i < self.seg_seq().len(),
        ensures
            self.view().contains_key(self.seg_seq()[i].0),
            self.view()[self.seg_seq()[i].0] == self.seg_seq()[i].1,
    {
        let id = self.seg_seq()[i].0;
        let j = choose|j: int|
            0 <= j < self.seg_seq().len() && (#[trigger] self.seg_seq()[j]).0 == id;
        assert(0 <= j < self.seg_seq().len() && self.seg_seq()[j].0 == id);
        if i != j {
            if i < j {
                assert(self.seg_seq()[i].0 < self.seg_seq()[j].0);
            } else {
                assert(self.seg_seq()[j].0 < self.seg_seq()[i].0);
            }
        }
    }

    /// Every id of the view names exactly one stored pair; return its
    /// position.
    proof fn index_of_id(&self, id: u64) -> (i: int)
        requires
            self.inv(),
            self.view().contains_key(id),
        ensures
            0 <= i < self.seg_seq().len(),
            self.seg_seq()[i].0 == id,
            self.seg_seq()[i].1 == self.view()[id],
    {
        let i = choose|i: int|
            0 <= i < self.seg_seq().len() && (#[trigger] self.seg_seq()[i]).0 == id;
        assert(0 <= i < self.seg_seq().len() && self.seg_seq()[i].0 == id);
        self.lemma_entry_in_view(i);
        i
    }

    /// Find the position of `id` among the stored pairs.
    fn find(&self, id: u64) -> (r: Option<usize>)
        requires
            self.inv(),
        ensures
            match r {
                Some(i) => i < self.seg_seq().len() && self.seg_seq()[i as int].0 == id
                    && self.view().contains_key(id) && self.view()[id] == self.seg_seq()[
                    i as int
                ].1,
                None => !self.view().contains_key(id),
            },
    {
        let n = self.segs.len();
        let mut i: usize = 0;
        while i < n
            invariant
                n == self.seg_seq().len(),
                i <= n,
                self.inv(),
                forall|j: int| 0 <= j < i ==> (#[trigger] self.seg_seq()[j]).0 != id,
            decreases n - i,
        {
            if self.segs[i].0 == id {
                proof {
                    self.lemma_entry_in_view(i as int);
                }
                return Some(i);
            }
            i = i + 1;
        }
        proof {
            if self.view().contains_key(id) {
                self.index_of_id(id);
            }
        }
        None
    }
}

impl SegmentBackend for MemBackend {
    open spec fn view(&self) -> Map<u64, Seq<u8>> {
        Map::new(
            |id: u64|
                exists|i: int| 0 <= i < self.seg_seq().len() && (#[trigger] self.seg_seq()[i]).0
                    == id,
            |id: u64|
                {
                    let i = choose|i: int|
                        0 <= i < self.seg_seq().len() && (#[trigger] self.seg_seq()[i]).0 == id;
                    self.seg_seq()[i].1
                },
        )
    }

    open spec fn inv(&self) -> bool {
        forall|i: int, j: int|
            0 <= i < j < self.seg_seq().len() ==> (#[trigger] self.seg_seq()[i]).0 < (
            #[trigger] self.seg_seq()[j]).0
    }

    fn ids(&self) -> (r: Vec<u64>) {
        let n = self.segs.len();
        let mut r: Vec<u64> = Vec::new();
        let mut i: usize = 0;
        while i < n
            invariant
                n == self.seg_seq().len(),
                i <= n,
                self.inv(),
                r@.len() == i,
                forall|j: int| 0 <= j < i ==> r@[j] == (#[trigger] self.seg_seq()[j]).0,
            decreases n - i,
        {
            r.push(self.segs[i].0);
            i = i + 1;
        }
        proof {
            assert forall|a: int, b: int| 0 <= a < b < r@.len() implies r@[a] < r@[b] by {
                assert((self.seg_seq()[a]).0 < (self.seg_seq()[b]).0);
            }
            assert forall|id: u64| #[trigger] r@.contains(id) == self.view().contains_key(id) by {
                if r@.contains(id) {
                    let j = choose|j: int| 0 <= j < r@.len() && r@[j] == id;
                    self.lemma_entry_in_view(j);
                }
                if self.view().contains_key(id) {
                    let j = self.index_of_id(id);
                    assert(r@[j] == id);
                }
            }
        }
        r
    }

    fn create(&mut self, id: u64) -> (r: Result<(), KvsError>) {
        let ghost old_seq = self.seg_seq();
        let n = self.segs.len();
        let mut i: usize = 0;
        while i < n && self.segs[i].0 < id
            invariant
                n == self.seg_seq().len(),
                i <= n,
                self.inv(),
                self.seg_seq() == old_seq,
                old(self).inv(),
                old(self).seg_seq() == old_seq,
                !old(self).view().contains_key(id),
                forall|j: int| 0 <= j < i ==> (#[trigger] self.seg_seq()[j]).0 < id,
            decreases n - i,
        {
            i = i + 1;
        }
        proof {
            if i < old_seq.len() && old_seq[i as int].0 == id {
                old(self).lemma_entry_in_view(i as int);
                assert(false);
            }
        }
        self.segs.insert(i, (id, Vec::new()));
        proof {
            let new_seq = self.seg_seq();
            assert(new_seq =~= old_seq.insert(i as int, (id, Seq::<u8>::empty())));
            assert(forall|j: int| 0 <= j < i ==> new_seq[j] == old_seq[j]);
            assert(new_seq[i as int] == (id, Seq::<u8>::empty()));
            assert(forall|j: int| i < j < new_seq.len() ==> new_seq[j] == old_seq[j - 1]);
            assert forall|a: int, b: int| 0 <= a < b < new_seq.len() implies (
            #[trigger] new_seq[a]).0 < (#[trigger] new_seq[b]).0 by {
                if a != i && b != i {
                    if b < i {
                        assert(old_seq[a].0 < old_seq[b].0);
                    } else if a > i {
                        assert(old_seq[a - 1].0 < old_seq[b - 1].0);
                    } else {
                        assert(old_seq[a].0 < old_seq[b - 1].0);
                    }
                } else if a == i {
                    // entries at and after the insertion point have ids
                    // above the new one
                    assert(b - 1 >= i);
                    assert(i < old_seq.len());
                    assert(old_seq[i as int].0 >= id);
                    if b - 1 > i {
                        assert(old_seq[i as int].0 < old_seq[b - 1].0);
                    }
                    if old_seq[b - 1].0 == id {
                        old(self).lemma_entry_in_view(b - 1);
                        assert(false);
                    }
                }
            }
            assert(self.inv());
            self.lemma_entry_in_view(i as int);
            assert forall|x: u64|
                self.view().contains_key(x) == old(self).view().insert(
                    id,
                    Seq::<u8>::empty(),
                ).contains_key(x) by {
                if x != id {
                    if self.view().contains_key(x) {
                        let m = self.index_of_id(x);
                        if m < i as int {
                            assert(old_seq[m].0 == x);
                            old(self).lemma_entry_in_view(m);
                        } else {
                            assert(old_seq[m - 1].0 == x);
                            old(self).lemma_entry_in_view(m - 1);
                        }
                    }
                    if old(self).view().contains_key(x) {
                        let m = old(self).index_of_id(x);
                        if m < i as int {
                            assert(new_seq[m].0 == x);
                        } else {
                            assert(new_seq[m + 1].0 == x);
                        }
                    }
                }
            }
            assert forall|x: u64| #[trigger] self.view().contains_key(x) implies self.view()[x]
                == old(self).view().insert(id, Seq::<u8>::empty())[x] by {
                if x != id {
                    let m = self.index_of_id(x);
                    if m < i as int {
                        old(self).lemma_entry_in_view(m);
                    } else {
                        old(self).lemma_entry_in_view(m - 1);
                    }
                }
            }
            assert(self.view() =~= old(self).view().insert(id, Seq::<u8>::empty()));
        }
        Ok(())
    }

    fn append(&mut self, id: u64, data: &Vec<u8>) -> (r: Result<u64, KvsError>) {
        let ghost old_seq = self.seg_seq();
        let i = match self.find(id) {
            Some(i) => i,
            None => {
                return Err(KvsError::Io);
            },
        };
        let old_len = self.segs[i].1.len();
        if old_len as u64 > u64::MAX - (data.len() as u64) {
            proof {
                assert(self.view()[id] + data@.take(0) =~= self.view()[id]);
                assert(self.view().insert(id, self.view()[id] + data@.take(0)) =~= self.view());
            }
            return Err(KvsError::Io);
        }
        let mut seg: Vec<u8> = slice_to_vec(self.segs[i].1.as_slice());
        let mut more: Vec<u8> = slice_to_vec(data.as_slice());
        seg.append(&mut more);
        self.segs[i] = (id, seg);
        proof {
            let new_seq = self.seg_seq();
            assert(new_seq =~= old_seq.update(i as int, (id, old(self).view()[id] + data@)));
            assert(forall|j: int|
                0 <= j < old_seq.len() && j != i ==> new_seq[j] == old_seq[j]);
            assert forall|a: int, b: int| 0 <= a < b < new_seq.len() implies (
            #[trigger] new_seq[a]).0 < (#[trigger] new_seq[b]).0 by {
                assert(old_seq[a].0 < old_seq[b].0);
                assert(new_seq[a].0 == old_seq[a].0);
                assert(new_seq[b].0 == old_seq[b].0);
            }
            assert(self.inv());
            self.lemma_entry_in_view(i as int);
            assert forall|x: u64|
                self.view().contains_key(x) == old(self).view().insert(
                    id,
                    old(self).view()[id] + data@,
                ).contains_key(x) by {
                if x != id {
                    if self.view().contains_key(x) {
                        let m = self.index_of_id(x);
                        old(self).lemma_entry_in_view(m);
                    }
                    if old(self).view().contains_key(x) {
                        let m = old(self).index_of_id(x);
                        assert(new_seq[m].0 == x);
                    }
                }
            }
            assert forall|x: u64| #[trigger] self.view().contains_key(x) implies self.view()[x]
                == old(self).view().insert(id, old(self).view()[id] + data@)[x] by {
                if x != id {
                    let m = self.index_of_id(x);
                    assert(m != i);
                    old(self).lemma_entry_in_view(m);
                }
            }
            assert(self.view() =~= old(self).view().insert(id, old(self).view()[id] + data@));
        }
        Ok(old_len as u64)
    }

    fn read_at(&mut self, id: u64, offset: u64, len: u64) -> (r: Result<Vec<u8>, KvsError>) {
        let i = match self.find(id) {
            Some(i) => i,
            None => {
                return Err(KvsError::Io);
            },
        };
        let seg: &Vec<u8> = &self.segs[i].1;
        let sl = seg.len();
        proof {
            assert(offset + len <= sl);
        }
        let o = offset as usize;
        let l = len as usize;
        let s = slice_subrange(seg.as_slice(), o, o + l);
        Ok(slice_to_vec(s))
    }

    fn read_all(&mut self, id: u64) -> (r: Result<Vec<u8>, KvsError>) {
        let i = match self.find(id) {
            Some(i) => i,
            None => {
                return Err(KvsError::Io);
            },
        };
        Ok(slice_to_vec(self.segs[i].1.as_slice()))
    }

    fn delete(&mut self, id: u64) -> (r: Result<(), KvsError>) {
        let ghost old_seq = self.seg_seq();
        let i = match self.find(id) {
            Some(i) => i,
            None => {
                return Err(KvsError::Io);
            },
        };
        self.segs.remove(i);
        proof {
            let new_seq = self.seg_seq();
            assert(new_seq =~= old_seq.remove(i as int));
            assert(forall|j: int| 0 <= j < i ==> new_seq[j] == old_seq[j]);
            assert(forall|j: int|
                i <= j < new_seq.len() ==> new_seq[j] == old_seq[j + 1]);
            assert forall|a: int, b: int| 0 <= a < b < new_seq.len() implies (
            #[trigger] new_seq[a]).0 < (#[trigger] new_seq[b]).0 by {
                let oa = if a < i as int { a } else { a + 1 };
                let ob = if b < i as int { b } else { b + 1 };
                assert(old_seq[oa].0 < old_seq[ob].0);
            }
            assert(self.inv());
            assert forall|x: u64|
                self.view().contains_key(x) == old(self).view().remove(id).contains_key(x) by {
                if self.view().contains_key(x) {
                    let m = self.index_of_id(x);
                    let om = if m < i as int { m } else { m + 1 };
                    assert(old_seq[om].0 == x);
                    old(self).lemma_entry_in_view(om);
                    if x == id {
                        // two distinct positions with the same id contradict order
                        assert(om != i as int);
                        if om < i as int {
                            assert(old_seq[om].0 < old_seq[i as int].0);
                        } else {
                            assert(old_seq[i as int].0 < old_seq[om].0);
                        }
                        assert(false);
                    }
                }
                if old(self).view().contains_key(x) && x != id {
                    let m = old(self).index_of_id(x);
                    assert(m != i);
                    if m < i as int {
                        assert(new_seq[m].0 == x);
                    } else {
                        assert(new_seq[m - 1].0 == x);
                    }
                }
            }
            assert forall|x: u64| #[trigger] self.view().contains_key(x) implies self.view()[x]
                == old(self).view().remove(id)[x] by {
                let m = self.index_of_id(x);
                let om = if m < i as int { m } else { m + 1 };
                old(self).lemma_entry_in_view(om);
            }
            assert(self.view() =~= old(self).view().remove(id));
        }
        Ok(())
    }
}

} // verus!
