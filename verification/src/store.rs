//! The storage engine.
//!
//! `StoreCore` owns a segment backend, the in-memory index, the id of the
//! active segment and the dead-byte counter. Its ghost state is the
//! key/value map it represents. The invariant ties every index entry to a
//! decodable put record in a stored segment; while no write has failed
//! midway it also keeps the replay of the stored segments equal to that map
//! and the bytes on disk equal to the live records plus the counted dead
//! ones.

use vstd::prelude::*;

use crate::backend::SegmentBackend;
use crate::bytes::Bytes;
use crate::codec::{
    decode_command_at, encode_command, lemma_decode_bounds, lemma_decode_local, spec_decode,
    spec_decode_all, spec_encode, Command, CommandView,
};
use crate::errors::KvsError;
use crate::index::{Index, ValueInfo};
use crate::replay::{
    lemma_replay_via, spec_apply, spec_is_sorted_ids, spec_replay, spec_replay_list,
    spec_replay_seg,
};

verus! {

broadcast use vstd::seq::group_seq_axioms;

/// Compaction runs once the dead bytes on disk pass this many.
pub const MAX_UNCOMPACTED: u64 = 1048576;

/// The total size of the records a list of index entries points at.
pub open spec fn spec_size_sum(s: Seq<(Seq<char>, ValueInfo)>) -> int
    decreases s.len(),
{
    if s.len() == 0 {
        0
    } else {
        spec_size_sum(s.drop_last()) + s.last().1.size.0
    }
}

/// Entry lists whose records have the same sizes occupy the same bytes.
proof fn lemma_size_sum_pointwise(s1: Seq<(Seq<char>, ValueInfo)>, s2: Seq<(Seq<char>, ValueInfo)>)
    requires
        s1.len() == s2.len(),
        forall|j: int| 0 <= j < s1.len() ==> (#[trigger] s1[j]).1.size == (#[trigger] s2[j]).1.size,
    ensures
        spec_size_sum(s1) == spec_size_sum(s2),
    decreases s1.len(),
{
    if s1.len() > 0 {
        assert(forall|j: int|
            0 <= j < s1.drop_last().len() ==> (#[trigger] s1.drop_last()[j]) == s1[j]);
        assert(forall|j: int|
            0 <= j < s2.drop_last().len() ==> (#[trigger] s2.drop_last()[j]) == s2[j]);
        lemma_size_sum_pointwise(s1.drop_last(), s2.drop_last());
    }
}

/// Rewriting one entry's location changes the total by the size difference.
proof fn lemma_size_sum_update(
    s: Seq<(Seq<char>, ValueInfo)>,
    i: int,
    x: (Seq<char>, ValueInfo),
)
    requires
        0 <= i < s.len(),
    ensures
        spec_size_sum(s.update(i, x)) == spec_size_sum(s) - s[i].1.size.0 + x.1.size.0,
    decreases s.len(),
{
    if i == s.len() - 1 {
        assert(s.update(i, x).drop_last() =~= s.drop_last());
        assert(s.update(i, x).last() == x);
        assert(s.last() == s[i]);
    } else {
        assert(s.update(i, x).drop_last() =~= s.drop_last().update(i, x));
        assert(s.update(i, x).last() == s.last());
        assert(s.drop_last()[i] == s[i]);
        lemma_size_sum_update(s.drop_last(), i, x);
    }
}

/// Appending one entry adds its record's size to the total.
proof fn lemma_size_sum_push(s: Seq<(Seq<char>, ValueInfo)>, x: (Seq<char>, ValueInfo))
    ensures
        spec_size_sum(s.push(x)) == spec_size_sum(s) + x.1.size.0,
{
    assert(s.push(x).drop_last() =~= s);
    assert(s.push(x).last() == x);
}

/// Removing the entry at `i` — by swapping the last one into its place —
/// subtracts its record's size from the total.
proof fn lemma_size_sum_swap_remove(s: Seq<(Seq<char>, ValueInfo)>, i: int)
    requires
        0 <= i < s.len(),
    ensures
        spec_size_sum(s.update(i, s.last()).drop_last()) == spec_size_sum(s) - s[i].1.size.0,
{
    lemma_size_sum_update(s, i, s.last());
    let mid = s.update(i, s.last());
    assert(mid.last() == s.last());
    assert(spec_size_sum(mid) == spec_size_sum(mid.drop_last()) + mid.last().1.size.0);
}

/// Does `vi` point at a decodable put record for key `k` with value `v`
/// inside the segments of `disk`?
pub open spec fn entry_ok_in(
    disk: Map<u64, Seq<u8>>,
    vi: ValueInfo,
    k: Seq<char>,
    v: Seq<char>,
) -> bool {
    &&& disk.contains_key(vi.file_id)
    &&& vi.file_offset.0 + vi.size.0 <= disk[vi.file_id].len()
    &&& spec_decode(
        disk[vi.file_id].subrange(
            vi.file_offset.0 as int,
            vi.file_offset.0 + vi.size.0,
        ),
    ) == Some((CommandView { key: k, value: Some(v) }, vi.size.0 as int))
}

/// The engine over a segment backend.
pub struct StoreCore<B: SegmentBackend> {
    backend: B,
    index: Index,
    writer_id: u64,
    uncompacted: Bytes,
    kvmap: Ghost<Map<Seq<char>, Seq<char>>>,
    clean: Ghost<bool>,
    dead: Ghost<int>,
}

impl<B: SegmentBackend> StoreCore<B> {
    /// The stored segments.
    pub closed spec fn disk(&self) -> Map<u64, Seq<u8>> {
        self.backend.view()
    }

    /// The key/value map this store holds.
    pub closed spec fn view(&self) -> Map<Seq<char>, Seq<char>> {
        self.kvmap@
    }

    /// No write has failed midway: the on-disk segments replay to exactly
    /// this store's map.
    pub closed spec fn clean(&self) -> bool {
        self.clean@
    }

    /// The dead bytes counted so far.
    pub closed spec fn uncompacted_bytes(&self) -> u64 {
        self.uncompacted.0
    }

    /// The id of the active segment: the sole append target.
    pub closed spec fn active_id(&self) -> u64 {
        self.writer_id
    }

    /// The bytes the live records occupy: the sum of the sizes of all
    /// indexed records.
    pub closed spec fn live_bytes(&self) -> int {
        spec_size_sum(self.index.entry_seq())
    }

    /// The encoded size of the record the key `k` currently points at.
    pub closed spec fn entry_size(&self, k: Seq<char>) -> int {
        self.index@[k].size.0 as int
    }

    /// The store's invariant.
    pub closed spec fn inv(&self) -> bool {
        &&& self.backend.inv()
        &&& self.index.wf()
        &&& self.disk().contains_key(self.writer_id)
        &&& forall|id: u64| #[trigger] self.disk().contains_key(id) ==> id <= self.writer_id
        &&& self.index@.dom() == self.kvmap@.dom()
        &&& forall|k: Seq<char>| #[trigger] self.kvmap@.contains_key(k) ==> entry_ok_in(
            self.disk(),
            self.index@[k],
            k,
            self.kvmap@[k],
        )
        &&& (self.clean@ ==> spec_replay(self.disk()) == Some(self.kvmap@))
        &&& (self.clean@ ==> {
            &&& self.dead@ >= 0
            &&& crate::replay::spec_disk_total(self.disk()) == self.live_bytes() + self.dead@
            &&& self.uncompacted.0 == if self.dead@ <= u64::MAX {
                self.dead@
            } else {
                u64::MAX as int
            }
        })
    }

    /// While the store is clean, what is on disk replays to exactly the map
    /// it holds: closing the store and replaying its directory loses
    /// nothing.
    pub proof fn lemma_persistence(&self)
        requires
            self.inv(),
            self.clean(),
        ensures
            spec_replay(self.disk()) == Some(self@),
    {
    }

    /// Law: space stays bounded. While the store is clean and its dead-byte
    /// counter is within the compaction threshold — which every successful
    /// write re-establishes — the bytes on disk exceed the live records by
    /// at most one threshold.
    pub proof fn lemma_bounded_space(&self)
        requires
            self.inv(),
            self.clean(),
            self.uncompacted_bytes() <= MAX_UNCOMPACTED,
        ensures
            crate::replay::spec_disk_total(self.disk()) <= self.live_bytes()
                + MAX_UNCOMPACTED,
    {
        if self.dead@ > u64::MAX {
            assert(self.uncompacted.0 == u64::MAX as int);
            assert(false);
        }
    }

    /// Law: the counter keeps the books. While the store is clean and the
    /// counter has not saturated, the bytes on disk are exactly the live
    /// records plus the counted dead bytes — the accounting that every put,
    /// tombstone and shadowed record feeds.
    pub proof fn lemma_counter_ledger(&self)
        requires
            self.inv(),
            self.clean(),
            self.uncompacted_bytes() < u64::MAX,
        ensures
            crate::replay::spec_disk_total(self.disk()) == self.live_bytes()
                + self.uncompacted_bytes(),
    {
        if self.dead@ > u64::MAX {
            assert(self.uncompacted.0 == u64::MAX as int);
            assert(false);
        }
    }
}

/// Replay one segment's records into the index, as found on disk: puts
/// install locations, tombstones drop keys, and both grow the dead-byte
/// counter by what they shadow. Returns the map after this segment and the
/// exact count of dead bytes so far, which the executable counter tracks
/// up to saturation.
#[verifier::rlimit(60)]
fn load_file_into_index(
    file_id: u64,
    data: &Vec<u8>,
    index: &mut Index,
    uncompacted: &mut Bytes,
    Ghost(disk): Ghost<Map<u64, Seq<u8>>>,
    Ghost(kv0): Ghost<Map<Seq<char>, Seq<char>>>,
    Ghost(dead0): Ghost<int>,
) -> (r: Result<(Ghost<Map<Seq<char>, Seq<char>>>, Ghost<int>), KvsError>)
    requires
        old(index).wf(),
        disk.contains_key(file_id),
        disk[file_id] == data@,
        old(index)@.dom() == kv0.dom(),
        forall|k: Seq<char>| #[trigger] kv0.contains_key(k) ==> entry_ok_in(
            disk,
            old(index)@[k],
            k,
            kv0[k],
        ),
        dead0 >= 0,
        old(uncompacted).0 == if dead0 <= u64::MAX {
            dead0
        } else {
            u64::MAX as int
        },
    ensures
        final(index).wf(),
        final(uncompacted).0 >= old(uncompacted).0,
        match r {
            Ok((kv1, dead1)) => {
                &&& spec_replay_seg(kv0, data@) == Some(kv1@)
                &&& final(index)@.dom() == kv1@.dom()
                &&& forall|k: Seq<char>| #[trigger] kv1@.contains_key(k) ==> entry_ok_in(
                    disk,
                    final(index)@[k],
                    k,
                    kv1@[k],
                )
                &&& dead1@ >= 0
                &&& dead1@ == dead0 + data@.len() - (spec_size_sum(final(index).entry_seq())
                    - spec_size_sum(old(index).entry_seq()))
                &&& final(uncompacted).0 == if dead1@ <= u64::MAX {
                    dead1@
                } else {
                    u64::MAX as int
                }
            },
            Err(e) => e == KvsError::CorruptLog && spec_replay_seg(kv0, data@) is None,
        },
{
    let ghost mut kv = kv0;
    let ghost mut dead = dead0;
    let ghost live0 = spec_size_sum(index.entry_seq());
    let mut offset: usize = 0;
    let n = data.len();
    proof {
        assert(data@.skip(0) =~= data@);
    }
    while offset < n
        invariant
            n == data@.len(),
            offset <= n,
            index.wf(),
            uncompacted.0 >= old(uncompacted).0,
            disk.contains_key(file_id),
            disk[file_id] == data@,
            index@.dom() == kv.dom(),
            forall|k: Seq<char>| #[trigger] kv.contains_key(k) ==> entry_ok_in(
                disk,
                index@[k],
                k,
                kv[k],
            ),
            spec_replay_seg(kv0, data@) == spec_replay_seg(kv, data@.skip(offset as int)),
            live0 == spec_size_sum(old(index).entry_seq()),
            dead >= 0,
            dead == dead0 + offset - (spec_size_sum(index.entry_seq()) - live0),
            uncompacted.0 == if dead <= u64::MAX {
                dead
            } else {
                u64::MAX as int
            },
        decreases n - offset,
    {
        let ghost tail = data@.skip(offset as int);
        let (cmd, next) = match decode_command_at(data, offset) {
            Ok(p) => p,
            Err(_) => {
                proof {
                    assert(spec_decode_all(tail) is None);
                }
                return Err(KvsError::CorruptLog);
            },
        };
        let ghost c = cmd@;
        let size = next - offset;
        proof {
            lemma_decode_bounds(tail, c, next - offset);
        }
        // a record that shadows an indexed key adds that key's old record
        // to the dead bytes
        let prev_opt = index.get(&cmd.key);
        match prev_opt {
            Some(prev) => {
                *uncompacted = uncompacted.saturating_add(prev.size.0);
                proof {
                    dead = dead + prev.size.0;
                }
            },
            None => {},
        }
        let ghost tail2 = data@.skip(next as int);
        proof {
            assert(tail.skip(size as int) =~= tail2);
            assert(spec_replay_seg(kv, tail) == spec_replay_seg(spec_apply(kv, c), tail2)) by {
                assert(spec_decode(tail) == Some((c, size as int)));
                match spec_decode_all(tail2) {
                    Some(r) => {
                        assert((seq![c] + r).drop_first() =~= r);
                        assert((seq![c] + r)[0] == c);
                    },
                    None => {},
                }
            }
            // the record's own bytes decode in isolation
            assert(data@.subrange(offset as int, next as int).subrange(0, size as int) =~= tail
                .subrange(0, size as int));
            lemma_decode_local(tail, data@.subrange(offset as int, next as int), c, size as int);
        }
        let ghost pre_seq = index.entry_seq();
        match cmd.value {
            Some(_) => {
                let info = ValueInfo {
                    file_id,
                    file_offset: Bytes(offset as u64),
                    size: Bytes(size as u64),
                };
                let ghost key_chars = cmd.key@;
                index.insert(cmd.key, info);
                proof {
                    let v = c.value->Some_0;
                    kv = kv.insert(key_chars, v);
                    assert(index@.dom() =~= kv.dom());
                    assert(entry_ok_in(disk, info, key_chars, v));
                    assert forall|k: Seq<char>| #[trigger] kv.contains_key(k) implies entry_ok_in(
                        disk,
                        index@[k],
                        k,
                        kv[k],
                    ) by {}
                    match prev_opt {
                        Some(prev) => {
                            let i = choose|i: int|
                                0 <= i < pre_seq.len() && (#[trigger] pre_seq[i]).0 == key_chars
                                    && index.entry_seq() == pre_seq.update(
                                    i,
                                    (key_chars, info),
                                );
                            assert(0 <= i < pre_seq.len() && pre_seq[i].0 == key_chars
                                && index.entry_seq() == pre_seq.update(i, (key_chars, info)));
                            lemma_size_sum_update(pre_seq, i, (key_chars, info));
                        },
                        None => {
                            lemma_size_sum_push(pre_seq, (key_chars, info));
                        },
                    }
                }
            },
            None => {
                // a tombstone is itself dead weight on disk
                *uncompacted = uncompacted.saturating_add(size as u64);
                let ghost key_chars = cmd.key@;
                index.remove(&cmd.key);
                proof {
                    dead = dead + size;
                    kv = kv.remove(key_chars);
                    assert(index@.dom() =~= kv.dom());
                    match prev_opt {
                        Some(prev) => {
                            let i = choose|i: int|
                                0 <= i < pre_seq.len() && (#[trigger] pre_seq[i]).0 == key_chars
                                    && index.entry_seq() == pre_seq.update(
                                    i,
                                    pre_seq.last(),
                                ).drop_last();
                            assert(0 <= i < pre_seq.len() && pre_seq[i].0 == key_chars
                                && index.entry_seq() == pre_seq.update(
                                i,
                                pre_seq.last(),
                            ).drop_last());
                            lemma_size_sum_swap_remove(pre_seq, i);
                        },
                        None => {},
                    }
                }
            },
        }
        offset = next;
    }
    proof {
        assert(data@.skip(offset as int) =~= Seq::<u8>::empty());
        assert(spec_decode_all(Seq::<u8>::empty()) == Some(Seq::<CommandView>::empty()));
        assert(crate::replay::spec_apply_all(kv, Seq::<CommandView>::empty()) == kv);
    }
    Ok((Ghost(kv), Ghost(dead)))
}

impl<B: SegmentBackend> StoreCore<B> {
    /// Open a store over `backend`: replay every stored segment in ascending
    /// id order to rebuild the index and the dead-byte counter, then start a
    /// fresh, empty active segment with an id above every existing one.
    #[verifier::rlimit(60)]
    pub fn from_backend(backend: B) -> (r: Result<StoreCore<B>, KvsError>)
        requires
            backend.inv(),
        ensures
            match r {
                Ok(s) => {
                    &&& s.inv()
                    &&& s.clean()
                    &&& spec_replay(backend.view()) == Some(s@)
                    // the store is the replayed directory plus one fresh,
                    // empty active segment whose id is above every replayed
                    // one: recovery never appends to a replayed file
                    &&& s.disk() == backend.view().insert(s.active_id(), Seq::<u8>::empty())
                    &&& forall|id: u64| #[trigger] backend.view().contains_key(id) ==> id
                        < s.active_id()
                    &&& ((exists|id: u64| backend.view().contains_key(id))
                        ==> backend.view().contains_key((s.active_id() - 1) as u64))
                    &&& (!(exists|id: u64| backend.view().contains_key(id)) ==> s.active_id()
                        == 1)
                },
                Err(e) => {
                    &&& (e == KvsError::CorruptLog || e == KvsError::Io)
                    &&& (e == KvsError::CorruptLog ==> spec_replay(backend.view()) is None)
                },
            },
    {
        let mut be = backend;
        let ghost disk0 = backend.view();
        let ids = be.ids();
        let mut index = Index::new();
        let mut uncompacted = Bytes(0);
        let ghost mut kv = Map::<Seq<char>, Seq<char>>::empty();
        let ghost mut dead: int = 0;
        let mut i: usize = 0;
        let nids = ids.len();
        proof {
            assert(ids@.skip(0) =~= ids@);
            assert forall|j: int| 0 <= j < ids@.len() implies disk0.contains_key(
                #[trigger] ids@[j],
            ) by {
                assert(ids@.contains(ids@[j]));
            }
            assert(spec_is_sorted_ids(disk0, ids@));
        }
        while i < nids
            invariant
                be.inv(),
                be.view() == disk0,
                disk0 == backend.view(),
                nids == ids@.len(),
                i <= nids,
                index.wf(),
                spec_is_sorted_ids(disk0, ids@),
                forall|j: int| 0 <= j < ids@.len() ==> disk0.contains_key(#[trigger] ids@[j]),
                index@.dom() == kv.dom(),
                forall|k: Seq<char>| #[trigger] kv.contains_key(k) ==> entry_ok_in(
                    disk0,
                    index@[k],
                    k,
                    kv[k],
                ),
                spec_replay_list(disk0, ids@, Map::<Seq<char>, Seq<char>>::empty())
                    == spec_replay_list(disk0, ids@.skip(i as int), kv),
                dead >= 0,
                uncompacted.0 == if dead <= u64::MAX {
                    dead
                } else {
                    u64::MAX as int
                },
                crate::replay::spec_disk_total_list(disk0, ids@) == crate::replay::spec_disk_total_list(
                    disk0,
                    ids@.skip(i as int),
                ) + spec_size_sum(index.entry_seq()) + dead,
            decreases nids - i,
        {
            let id = ids[i];
            let data = match be.read_all(id) {
                Ok(d) => d,
                Err(e) => {
                    return Err(e);
                },
            };
            proof {
                assert(ids@.skip(i as int)[0] == ids@[i as int]);
            }
            let ghost pre_sum = spec_size_sum(index.entry_seq());
            let (kv_next, dead_next) = match load_file_into_index(
                id,
                &data,
                &mut index,
                &mut uncompacted,
                Ghost(disk0),
                Ghost(kv),
                Ghost(dead),
            ) {
                Ok(g) => g,
                Err(e) => {
                    proof {
                        assert(spec_replay_list(disk0, ids@.skip(i as int), kv) is None);
                        lemma_replay_via(disk0, ids@);
                    }
                    return Err(e);
                },
            };
            proof {
                assert(ids@.skip(i as int).drop_first() =~= ids@.skip(i + 1));
                kv = kv_next@;
                dead = dead_next@;
                assert(crate::replay::spec_disk_total_list(disk0, ids@.skip(i as int))
                    == disk0[ids@[i as int]].len() + crate::replay::spec_disk_total_list(
                    disk0,
                    ids@.skip(i + 1),
                ));
            }
            i = i + 1;
        }
        proof {
            assert(ids@.skip(nids as int) =~= Seq::<u64>::empty());
            lemma_replay_via(disk0, ids@);
            assert(spec_replay(disk0) == Some(kv));
            crate::replay::lemma_disk_total_via(disk0, ids@);
            assert(crate::replay::spec_disk_total_list(disk0, Seq::<u64>::empty()) == 0);
        }
        let writer_id: u64 = if ids.len() == 0 {
            1
        } else {
            let last = ids[ids.len() - 1];
            if last == u64::MAX {
                // the directory has run out of segment ids
                return Err(KvsError::Io);
            }
            last + 1
        };
        proof {
            assert forall|id: u64| #[trigger] disk0.contains_key(id) implies id < writer_id by {
                assert(ids@.contains(id));
                let j = choose|j: int| 0 <= j < ids@.len() && ids@[j] == id;
                assert(0 <= j < ids@.len() && ids@[j] == id);
                if j < ids@.len() - 1 {
                    assert(ids@[j] < ids@[ids@.len() - 1]);
                }
            }
        }
        match be.create(writer_id) {
            Ok(()) => {},
            Err(e) => {
                return Err(e);
            },
        }
        proof {
            let disk1 = be.view();
            let w = writer_id;
            assert(disk1 == disk0.insert(w, Seq::<u8>::empty()));
            assert(forall|id: u64| #[trigger] ids@.contains(id) ==> id < w);
            crate::replay::lemma_replay_push_empty(
                disk0,
                ids@,
                Map::<Seq<char>, Seq<char>>::empty(),
                w,
            );
            let ids2 = ids@.push(w);
            assert forall|a: int, b: int| 0 <= a < b < ids2.len() implies ids2[a] < ids2[b] by {
                if b == ids@.len() {
                    assert(ids2[a] == ids@[a]);
                    assert(ids@.contains(ids@[a]));
                } else {
                    assert(ids2[a] == ids@[a] && ids2[b] == ids@[b]);
                }
            }
            assert forall|id: u64| #[trigger] ids2.contains(id) implies disk1.contains_key(
                id,
            ) by {
                let j = choose|j: int| 0 <= j < ids2.len() && ids2[j] == id;
                assert(0 <= j < ids2.len() && ids2[j] == id);
                if j < ids@.len() {
                    assert(ids@[j] == id);
                    assert(ids@.contains(id));
                }
            }
            assert forall|id: u64| disk1.contains_key(id) implies #[trigger] ids2.contains(
                id,
            ) by {
                if id == w {
                    assert(ids2[ids@.len() as int] == id);
                } else {
                    assert(disk0.contains_key(id));
                    assert(ids@.contains(id));
                    let j = choose|j: int| 0 <= j < ids@.len() && ids@[j] == id;
                    assert(0 <= j < ids@.len() && ids@[j] == id);
                    assert(ids2[j] == id);
                }
            }
            assert(spec_is_sorted_ids(disk1, ids2));
            lemma_replay_via(disk1, ids2);
            assert(spec_replay(disk1) == Some(kv));
            // the fresh empty segment adds nothing to the total
            assert(forall|id: u64| #[trigger] ids@.contains(id) ==> id != w);
            crate::replay::lemma_disk_total_push_empty(disk0, ids@, w);
            crate::replay::lemma_disk_total_via(disk1, ids2);
        }
        let s = StoreCore {
            backend: be,
            index,
            writer_id,
            uncompacted,
            kvmap: Ghost(kv),
            clean: Ghost(true),
            dead: Ghost(dead),
        };
        proof {
            assert forall|k: Seq<char>| #[trigger] s.kvmap@.contains_key(k) implies entry_ok_in(
                s.disk(),
                s.index@[k],
                k,
                s.kvmap@[k],
            ) by {
                let vi = s.index@[k];
                assert(entry_ok_in(disk0, vi, k, kv[k]));
                assert(vi.file_id != writer_id);
            }
            assert(s.inv());
        }
        Ok(s)
    }
}

/// In an ascending enumeration, the segment with the greatest id comes
/// last.
proof fn lemma_writer_is_last(disk: Map<u64, Seq<u8>>, ids: Seq<u64>, w: u64)
    requires
        spec_is_sorted_ids(disk, ids),
        disk.contains_key(w),
        forall|id: u64| #[trigger] disk.contains_key(id) ==> id <= w,
    ensures
        ids.len() > 0,
        ids.last() == w,
{
    assert(ids.contains(w));
    let j = choose|j: int| 0 <= j < ids.len() && ids[j] == w;
    assert(0 <= j < ids.len() && ids[j] == w);
    if j < ids.len() - 1 {
        assert(ids[j] < ids[ids.len() - 1]);
        assert(ids.contains(ids[ids.len() - 1]));
        assert(false);
    }
}

/// Appending one record to the greatest segment turns the directory's
/// replay into the old replay with that one command applied.
proof fn lemma_clean_append(
    disk: Map<u64, Seq<u8>>,
    w: u64,
    m: Map<Seq<char>, Seq<char>>,
    c: CommandView,
)
    requires
        spec_replay(disk) == Some(m),
        disk.contains_key(w),
        forall|id: u64| #[trigger] disk.contains_key(id) ==> id <= w,
        c.wf(),
    ensures
        spec_replay(disk.insert(w, disk[w] + crate::codec::spec_encode(c))) == Some(
            spec_apply(m, c),
        ),
        crate::replay::spec_disk_total(disk.insert(w, disk[w] + crate::codec::spec_encode(c)))
            == crate::replay::spec_disk_total(disk) + crate::codec::spec_encode(c).len(),
{
    assert(exists|ids: Seq<u64>| spec_is_sorted_ids(disk, ids)) by {
        if !(exists|ids: Seq<u64>| spec_is_sorted_ids(disk, ids)) {
            assert(spec_replay(disk) is None);
        }
    }
    let ids = choose|ids: Seq<u64>| spec_is_sorted_ids(disk, ids);
    assert(spec_is_sorted_ids(disk, ids));
    lemma_replay_via(disk, ids);
    lemma_writer_is_last(disk, ids, w);
    crate::replay::lemma_replay_append_last(
        disk,
        ids,
        Map::<Seq<char>, Seq<char>>::empty(),
        m,
        c,
    );
    let disk2 = disk.insert(w, disk[w] + crate::codec::spec_encode(c));
    assert forall|id: u64| #[trigger] ids.contains(id) == disk2.contains_key(id) by {}
    assert(spec_is_sorted_ids(disk2, ids));
    lemma_replay_via(disk2, ids);
    assert(forall|x: u64| #[trigger] ids.contains(x) ==> disk.contains_key(x));
    assert(ids.contains(w));
    crate::replay::lemma_disk_total_via(disk, ids);
    crate::replay::lemma_disk_total_append(disk, ids, w, crate::codec::spec_encode(c));
    crate::replay::lemma_disk_total_via(disk2, ids);
}

/// Growing one segment at its end leaves every indexed record readable
/// exactly as before.
proof fn lemma_entries_preserved_append(
    disk: Map<u64, Seq<u8>>,
    w: u64,
    data: Seq<u8>,
    idx: Map<Seq<char>, ValueInfo>,
    kv: Map<Seq<char>, Seq<char>>,
)
    requires
        disk.contains_key(w),
        forall|k: Seq<char>| #[trigger] kv.contains_key(k) ==> entry_ok_in(disk, idx[k], k, kv[k]),
    ensures
        forall|k: Seq<char>| #[trigger] kv.contains_key(k) ==> entry_ok_in(
            disk.insert(w, disk[w] + data),
            idx[k],
            k,
            kv[k],
        ),
{
    let disk2 = disk.insert(w, disk[w] + data);
    assert forall|k: Seq<char>| #[trigger] kv.contains_key(k) implies entry_ok_in(
        disk2,
        idx[k],
        k,
        kv[k],
    ) by {
        let vi = idx[k];
        if vi.file_id == w {
            let lo = vi.file_offset.0 as int;
            let hi = vi.file_offset.0 + vi.size.0;
            assert(disk2[w].subrange(lo, hi) =~= disk[w].subrange(lo, hi));
        }
    }
}

impl<B: SegmentBackend> StoreCore<B> {
    /// Read the current value of `key`: look its record up in the index,
    /// read exactly that record back from its segment, and return the put's
    /// value. A key with no index entry is absent. Reading seeks the
    /// segment's cursor, so the store is taken mutably; its map, segments
    /// and counters do not change.
    pub fn get(&mut self, key: &String) -> (r: Result<Option<String>, KvsError>)
        requires
            old(self).inv(),
        ensures
            final(self).inv(),
            final(self)@ == old(self)@,
            final(self).disk() == old(self).disk(),
            final(self).clean() == old(self).clean(),
            final(self).uncompacted_bytes() == old(self).uncompacted_bytes(),
            final(self).active_id() == old(self).active_id(),
            !old(self)@.contains_key(key@) ==> r == Ok::<Option<String>, KvsError>(
                None::<String>,
            ),
            match r {
                Ok(Some(v)) => old(self)@.contains_key(key@) && v@ == old(self)@[key@],
                Ok(None) => !old(self)@.contains_key(key@),
                Err(e) => e == KvsError::Io && old(self)@.contains_key(key@),
            },
    {
        let vi = match self.index.get(key) {
            None => {
                return Ok(None);
            },
            Some(vi) => vi,
        };
        proof {
            assert(self.kvmap@.contains_key(key@));
            assert(entry_ok_in(self.disk(), self.index@[key@], key@, self.kvmap@[key@]));
        }
        let data = match self.backend.read_at(vi.file_id, vi.file_offset.0, vi.size.0) {
            Ok(d) => d,
            Err(e) => {
                return Err(e);
            },
        };
        proof {
            assert(data@.skip(0) =~= data@);
        }
        let (cmd, _used) = match decode_command_at(&data, 0) {
            Ok(p) => p,
            Err(_) => {
                // unreachable: the invariant says every indexed range decodes
                return Err(KvsError::CorruptLog);
            },
        };
        proof {
            assert(cmd@ == CommandView { key: key@, value: Some(old(self).kvmap@[key@]) });
        }
        match cmd.value {
            Some(v) => {
                if cmd.key == *key {
                    Ok(Some(v))
                } else {
                    // a record for another key at an indexed offset would be
                    // log corruption; unreachable under the invariant
                    Err(KvsError::CorruptLog)
                }
            },
            None => {
                // a tombstone at an indexed offset would be log corruption;
                // unreachable under the invariant
                Err(KvsError::CorruptLog)
            },
        }
    }

    /// Install `value` under `key`: append one put record to the active
    /// segment, charge any shadowed record to the dead bytes, and point the
    /// index at the new record.
    #[verifier::rlimit(60)]
    pub fn set(&mut self, key: String, value: String) -> (r: Result<(), KvsError>)
        requires
            old(self).inv(),
        ensures
            final(self).inv(),
            match r {
                Ok(()) => {
                    let a = old(self).active_id();
                    let rec = spec_encode(
                        CommandView { key: key@, value: Some(value@) },
                    );
                    let shadowed: int = if old(self)@.contains_key(key@) {
                        old(self).entry_size(key@)
                    } else {
                        0
                    };
                    let grown: int = if old(self).uncompacted_bytes() + shadowed <= u64::MAX {
                        old(self).uncompacted_bytes() + shadowed
                    } else {
                        u64::MAX as int
                    };
                    &&& final(self)@ == old(self)@.insert(key@, value@)
                    &&& (old(self).clean() ==> final(self).clean())
                    &&& final(self).uncompacted_bytes() <= MAX_UNCOMPACTED
                    &&& if grown <= MAX_UNCOMPACTED {
                        // exactly one put record landed at the end of the
                        // active segment, and the counter grew by the
                        // shadowed record's size
                        &&& final(self).disk() == old(self).disk().insert(
                            a,
                            old(self).disk()[a] + rec,
                        )
                        &&& final(self).active_id() == a
                        &&& final(self).uncompacted_bytes() == grown
                    } else {
                        // the write crossed the threshold: compaction ran
                        // before returning
                        &&& final(self).clean()
                        &&& final(self).uncompacted_bytes() == 0
                        &&& final(self).active_id() == a + 2
                        &&& (forall|id: u64| #[trigger] final(self).disk().contains_key(id)
                            <==> (id == a + 1 || id == a + 2))
                        &&& final(self).disk()[(a + 1) as u64].len() == final(self).live_bytes()
                        &&& final(self).disk()[(a + 2) as u64].len() == 0
                    }
                },
                Err(e) => e == KvsError::Io && (final(self)@ == old(self)@ || final(self)@
                    == old(self)@.insert(key@, value@)),
            },
    {
        let cmd = Command { key, value: Some(value) };
        let ghost c = cmd@;
        let enc = encode_command(&cmd);
        let w = self.writer_id;
        let off = match self.backend.append(w, &enc) {
            Ok(off) => off,
            Err(e) => {
                self.clean = Ghost(false);
                proof {
                    let p = choose|p: int|
                        0 <= p <= enc@.len() && self.backend.view() == old(
                            self,
                        ).backend.view().insert(w, old(self).backend.view()[w] + enc@.take(p));
                    lemma_entries_preserved_append(
                        old(self).disk(),
                        w,
                        enc@.take(p),
                        old(self).index@,
                        old(self).kvmap@,
                    );
                }
                return Err(e);
            },
        };
        let prev_opt = self.index.get(&cmd.key);
        match prev_opt {
            Some(prev) => {
                self.uncompacted = self.uncompacted.saturating_add(prev.size.0);
            },
            None => {},
        }
        let ghost delta: int = match prev_opt {
            Some(p) => p.size.0 as int,
            None => 0,
        };
        self.dead = Ghost(self.dead@ + delta);
        let size_u64 = enc.len() as u64;
        let info = ValueInfo { file_id: w, file_offset: Bytes(off), size: Bytes(size_u64) };
        let ghost new_kv = self.kvmap@.insert(c.key, c.value->Some_0);
        let ghost pre_seq = old(self).index.entry_seq();
        let Command { key: key2, value: _ } = cmd;
        self.index.insert(key2, info);
        self.kvmap = Ghost(new_kv);
        proof {
            let disk0 = old(self).disk();
            lemma_entries_preserved_append(disk0, w, enc@, old(self).index@, old(self).kvmap@);
            crate::codec::lemma_encode_decode_round_trip(c);
            assert(self.disk()[w].subrange(off as int, off + size_u64) =~= enc@);
            assert(entry_ok_in(self.disk(), info, c.key, c.value->Some_0));
            assert(self.index@.dom() =~= self.kvmap@.dom());
            if old(self).clean@ {
                lemma_clean_append(disk0, w, old(self).kvmap@, c);
                // the ledger: the new record is live, a shadowed record
                // becomes dead
                match prev_opt {
                    Some(prev) => {
                        let i = choose|i: int|
                            0 <= i < pre_seq.len() && (#[trigger] pre_seq[i]).0 == c.key
                                && self.index.entry_seq() == pre_seq.update(i, (c.key, info));
                        assert(0 <= i < pre_seq.len() && pre_seq[i].0 == c.key
                            && self.index.entry_seq() == pre_seq.update(i, (c.key, info)));
                        old(self).index.lemma_entry_in_view(i);
                        lemma_size_sum_update(pre_seq, i, (c.key, info));
                    },
                    None => {
                        lemma_size_sum_push(pre_seq, (c.key, info));
                    },
                }
            }
            assert(self.inv());
        }
        if self.uncompacted.0 > MAX_UNCOMPACTED {
            match self.compact() {
                Ok(()) => {},
                Err(e) => {
                    return Err(e);
                },
            }
        }
        Ok(())
    }

    /// Remove `key`: append one tombstone record, charge both the shadowed
    /// put and the tombstone itself to the dead bytes, and drop the key from
    /// the index. A key with no index entry is reported as not found.
    #[verifier::rlimit(60)]
    pub fn remove(&mut self, key: String) -> (r: Result<(), KvsError>)
        requires
            old(self).inv(),
        ensures
            final(self).inv(),
            match r {
                Ok(()) => {
                    let a = old(self).active_id();
                    let rec = spec_encode(CommandView { key: key@, value: None });
                    let freed: int = old(self).entry_size(key@) + rec.len();
                    let grown: int = if old(self).uncompacted_bytes() + freed <= u64::MAX {
                        old(self).uncompacted_bytes() + freed
                    } else {
                        u64::MAX as int
                    };
                    &&& old(self)@.contains_key(key@)
                    &&& final(self)@ == old(self)@.remove(key@)
                    &&& (old(self).clean() ==> final(self).clean())
                    &&& final(self).uncompacted_bytes() <= MAX_UNCOMPACTED
                    &&& if grown <= MAX_UNCOMPACTED {
                        // exactly one tombstone landed at the end of the
                        // active segment, and the counter grew by the
                        // shadowed record plus the tombstone itself
                        &&& final(self).disk() == old(self).disk().insert(
                            a,
                            old(self).disk()[a] + rec,
                        )
                        &&& final(self).active_id() == a
                        &&& final(self).uncompacted_bytes() == grown
                    } else {
                        // the tombstone crossed the threshold: compaction
                        // ran before returning
                        &&& final(self).clean()
                        &&& final(self).uncompacted_bytes() == 0
                        &&& final(self).active_id() == a + 2
                        &&& (forall|id: u64| #[trigger] final(self).disk().contains_key(id)
                            <==> (id == a + 1 || id == a + 2))
                        &&& final(self).disk()[(a + 1) as u64].len() == final(self).live_bytes()
                        &&& final(self).disk()[(a + 2) as u64].len() == 0
                    }
                },
                Err(e) => {
                    &&& (final(self)@ == old(self)@ || final(self)@ == old(self)@.remove(key@))
                    &&& (e == KvsError::KeyNotFound || e == KvsError::Io)
                    &&& (e == KvsError::KeyNotFound <==> !old(self)@.contains_key(key@))
                    &&& (e == KvsError::KeyNotFound ==> *final(self) == *old(self))
                },
            },
    {
        let prev = match self.index.get(&key) {
            None => {
                return Err(KvsError::KeyNotFound);
            },
            Some(prev) => prev,
        };
        let cmd = Command { key, value: None };
        let ghost c = cmd@;
        let enc = encode_command(&cmd);
        let w = self.writer_id;
        match self.backend.append(w, &enc) {
            Ok(_off) => {},
            Err(e) => {
                self.clean = Ghost(false);
                proof {
                    let p = choose|p: int|
                        0 <= p <= enc@.len() && self.backend.view() == old(
                            self,
                        ).backend.view().insert(w, old(self).backend.view()[w] + enc@.take(p));
                    lemma_entries_preserved_append(
                        old(self).disk(),
                        w,
                        enc@.take(p),
                        old(self).index@,
                        old(self).kvmap@,
                    );
                }
                return Err(e);
            },
        }
        // the shadowed put and the tombstone itself are both dead weight
        self.uncompacted = self.uncompacted.saturating_add(prev.size.0);
        self.uncompacted = self.uncompacted.saturating_add(enc.len() as u64);
        self.dead = Ghost(self.dead@ + prev.size.0 + enc@.len());
        let ghost new_kv = self.kvmap@.remove(c.key);
        let ghost pre_seq = old(self).index.entry_seq();
        let Command { key: key2, value: _ } = cmd;
        self.index.remove(&key2);
        self.kvmap = Ghost(new_kv);
        proof {
            let disk0 = old(self).disk();
            lemma_entries_preserved_append(disk0, w, enc@, old(self).index@, old(self).kvmap@);
            assert(self.index@.dom() =~= self.kvmap@.dom());
            assert forall|k: Seq<char>| #[trigger] self.kvmap@.contains_key(k) implies entry_ok_in(
                self.disk(),
                self.index@[k],
                k,
                self.kvmap@[k],
            ) by {}
            if old(self).clean@ {
                lemma_clean_append(disk0, w, old(self).kvmap@, c);
                // the ledger: the shadowed put leaves the live set, and the
                // tombstone lands directly in the dead bytes
                let i = choose|i: int|
                    0 <= i < pre_seq.len() && (#[trigger] pre_seq[i]).0 == c.key
                        && self.index.entry_seq() == pre_seq.update(
                        i,
                        pre_seq.last(),
                    ).drop_last();
                assert(0 <= i < pre_seq.len() && pre_seq[i].0 == c.key
                    && self.index.entry_seq() == pre_seq.update(i, pre_seq.last()).drop_last());
                old(self).index.lemma_entry_in_view(i);
                lemma_size_sum_swap_remove(pre_seq, i);
            }
            assert(self.inv());
        }
        if self.uncompacted.0 > MAX_UNCOMPACTED {
            match self.compact() {
                Ok(()) => {},
                Err(e) => {
                    return Err(e);
                },
            }
        }
        Ok(())
    }
}

impl<B: SegmentBackend> StoreCore<B> {
    /// Compact the store: start two fresh segments — a compaction target and
    /// a new active segment above it — copy every live record into the
    /// target, point the index at the copies, and destroy every older
    /// segment. The map of live keys is untouched; the dead bytes drop to
    /// zero; afterwards only the two fresh segments exist on disk.
    #[verifier::rlimit(80)]
    pub fn compact(&mut self) -> (r: Result<(), KvsError>)
        requires
            old(self).inv(),
        ensures
            final(self).inv(),
            final(self)@ == old(self)@,
            match r {
                Ok(()) => {
                    &&& final(self).clean()
                    &&& final(self).uncompacted_bytes() == 0
                    &&& final(self).active_id() == old(self).active_id() + 2
                    &&& forall|id: u64| #[trigger] final(self).disk().contains_key(id) <==> (id
                        == old(self).active_id() + 1 || id == old(self).active_id() + 2)
                    &&& final(self).disk()[(old(self).active_id() + 1) as u64].len() == final(self).live_bytes()
                    &&& final(self).disk()[(old(self).active_id() + 2) as u64].len() == 0
                },
                Err(e) => e == KvsError::Io,
            },
    {
        let ghost disk0 = self.disk();
        let a = self.writer_id;
        if a > u64::MAX - 2 {
            return Err(KvsError::Io);
        }
        let c_id = a + 1;
        let n_id = a + 2;
        match self.backend.create(c_id) {
            Ok(()) => {},
            Err(e) => {
                return Err(e);
            },
        }
        match self.backend.create(n_id) {
            Ok(()) => {},
            Err(e) => {
                // fall back to the target as the new active segment; the
                // store keeps working, compaction just did not happen
                self.writer_id = c_id;
                proof {
                    lemma_entries_fresh_segment(disk0, c_id, self.index@, self.kvmap@);
                    if old(self).clean@ {
                        lemma_clean_fresh_segment(disk0, c_id, self.kvmap@);
                    }
                    assert(self.inv());
                }
                return Err(e);
            },
        }
        // switch the active writer and reset the counter before copying
        self.writer_id = n_id;
        self.uncompacted = Bytes(0);
        self.clean = Ghost(false);
        self.dead = Ghost(0);
        let ghost disk2 = self.disk();
        let ghost kv = self.kvmap@;
        let ghost keys0 = self.index.entry_seq();
        proof {
            assert(disk2 == disk0.insert(c_id, Seq::<u8>::empty()).insert(
                n_id,
                Seq::<u8>::empty(),
            ));
            lemma_entries_fresh_segment(disk0, c_id, self.index@, kv);
            lemma_entries_fresh_segment(
                disk0.insert(c_id, Seq::<u8>::empty()),
                n_id,
                self.index@,
                kv,
            );
            assert(spec_decode_all(Seq::<u8>::empty()) == Some(Seq::<CommandView>::empty()));
            assert(spec_size_sum(keys0.take(0)) == 0) by {
                assert(keys0.take(0) =~= Seq::<(Seq<char>, ValueInfo)>::empty());
            }
            assert forall|j: int| 0 <= j < keys0.len() implies (#[trigger] keys0[j]).1.file_id
                != c_id && keys0[j].1.file_id != n_id by {
                self.index.lemma_entry_in_view(j);
                let kj = keys0[j].0;
                assert(kv.contains_key(kj));
                assert(entry_ok_in(disk0, old(self).index@[kj], kj, kv[kj]));
                assert(disk0.contains_key(keys0[j].1.file_id));
            }
        }
        let total = self.index.len();
        let mut i: usize = 0;
        let ghost mut cs = Seq::<CommandView>::empty();
        while i < total
            invariant
                self.backend.inv(),
                self.index.wf(),
                self.writer_id == n_id,
                self.kvmap@ == kv,
                kv == old(self)@,
                self.clean@ == false,
                self.uncompacted.0 == 0,
                self.dead@ == 0,
                a == old(self).active_id(),
                c_id == a + 1,
                n_id == a + 2,
                a + 2 <= u64::MAX,
                total == self.index.entry_seq().len(),
                i <= total,
                keys0.len() == total,
                self.index@.dom() == kv.dom(),
                // which segments exist, and that the old ones are untouched
                forall|id: u64| #[trigger] self.disk().contains_key(id) <==> (
                disk0.contains_key(id) || id == c_id || id == n_id),
                forall|id: u64| #[trigger] disk0.contains_key(id) ==> id <= a
                    && self.disk()[id] == disk0[id],
                self.disk()[n_id] == Seq::<u8>::empty(),
                // entry keys never change; entries at and past `i` are the
                // originals, earlier ones point into the target
                forall|j: int| 0 <= j < total ==> (#[trigger] self.index.entry_seq()[j]).0
                    == keys0[j].0,
                forall|j: int| i <= j < total ==> #[trigger] self.index.entry_seq()[j]
                    == keys0[j],
                forall|j: int| 0 <= j < total ==> (#[trigger] keys0[j]).1.file_id != c_id
                    && keys0[j].1.file_id != n_id,
                forall|j: int|
                    0 <= j < i ==> (#[trigger] self.index.entry_seq()[j]).1.file_id == c_id,
                // every entry still reads back correctly
                forall|k: Seq<char>| #[trigger] kv.contains_key(k) ==> entry_ok_in(
                    self.disk(),
                    self.index@[k],
                    k,
                    kv[k],
                ),
                // the target holds exactly the records copied so far
                spec_decode_all(self.disk()[c_id]) == Some(cs),
                self.disk()[c_id].len() == spec_size_sum(keys0.take(i as int)),
                forall|j: int| 0 <= j < total ==> (#[trigger] self.index.entry_seq()[j]).1.size
                    == keys0[j].1.size,
                cs.len() == i,
                forall|j: int| 0 <= j < i ==> #[trigger] cs[j] == (CommandView {
                    key: keys0[j].0,
                    value: Some(kv[keys0[j].0]),
                }),
            decreases total - i,
        {
            let (key_i, vi) = self.index.entry_at(i);
            proof {
                self.index.lemma_entry_in_view(i as int);
                assert(self.kvmap@.contains_key(key_i@));
                assert(entry_ok_in(self.disk(), vi, key_i@, kv[key_i@]));
            }
            if vi.file_id == self.writer_id {
                // entries can only point at older segments here
                proof {
                    assert(false);
                }
            } else {
                let ghost pre_disk = self.disk();
                let data = match self.backend.read_at(vi.file_id, vi.file_offset.0, vi.size.0) {
                    Ok(d) => d,
                    Err(e) => {
                        proof {
                            assert(self.inv());
                        }
                        return Err(e);
                    },
                };
                let ghost cj = CommandView { key: key_i@, value: Some(kv[key_i@]) };
                proof {
                    assert(data@.len() == vi.size.0);
                    crate::codec::lemma_decode_canonical(data@, cj);
                    lemma_decode_bounds(data@, cj, data@.len() as int);
                }
                let off = match self.backend.append(c_id, &data) {
                    Ok(off) => off,
                    Err(e) => {
                        proof {
                            let p = choose|p: int|
                                0 <= p <= data@.len() && self.backend.view() == pre_disk.insert(
                                    c_id,
                                    pre_disk[c_id] + #[trigger] data@.take(p),
                                );
                            lemma_entries_preserved_append(
                                pre_disk,
                                c_id,
                                data@.take(p),
                                self.index@,
                                kv,
                            );
                            assert(self.inv());
                        }
                        return Err(e);
                    },
                };
                proof {
                    lemma_entries_preserved_append(pre_disk, c_id, data@, self.index@, kv);
                }
                let new_info = ValueInfo {
                    file_id: c_id,
                    file_offset: Bytes(off),
                    size: vi.size,
                };
                let ghost pre_idx = self.index@;
                self.index.set_info_at(i, new_info);
                proof {
                    assert(self.disk()[c_id].subrange(off as int, off + vi.size.0) =~= data@);
                    assert(entry_ok_in(self.disk(), new_info, key_i@, kv[key_i@]));
                    assert(self.index@ == pre_idx.insert(key_i@, new_info));
                    assert(self.index@.dom() =~= kv.dom());
                    crate::codec::lemma_decode_all_snoc(pre_disk[c_id], cs, cj);
                    cs = cs.push(cj);
                    assert(keys0.take(i + 1).drop_last() =~= keys0.take(i as int));
                    assert(keys0.take(i + 1).last() == keys0[i as int]);
                    assert(self.disk()[c_id].len() == spec_size_sum(keys0.take(i + 1)));
                    assert forall|k: Seq<char>| #[trigger] kv.contains_key(k) implies entry_ok_in(
                        self.disk(),
                        self.index@[k],
                        k,
                        kv[k],
                    ) by {
                        if k != key_i@ {
                            assert(self.index@[k] == pre_idx[k]);
                            assert(entry_ok_in(self.disk(), pre_idx[k], k, kv[k]));
                        }
                    }
                }
            }
            i = i + 1;
        }
        // every record the index needs now lives in the target: destroy the
        // old segments
        proof {
            assert(keys0.take(total as int) =~= keys0);
        }
        let stale = self.backend.ids();
        let ghost dom2 = self.disk();
        let nstale = stale.len();
        let mut j: usize = 0;
        while j < nstale
            invariant
                self.backend.inv(),
                self.index.wf(),
                self.writer_id == n_id,
                self.kvmap@ == kv,
                kv == old(self)@,
                self.clean@ == false,
                self.uncompacted.0 == 0,
                self.dead@ == 0,
                a == old(self).active_id(),
                c_id == a + 1,
                n_id == a + 2,
                a + 2 <= u64::MAX,
                nstale == stale@.len(),
                j <= nstale,
                forall|x: int, y: int| 0 <= x < y < stale@.len() ==> stale@[x] < stale@[y],
                forall|id: u64| #[trigger] stale@.contains(id) <==> dom2.contains_key(id),
                dom2.contains_key(c_id) && dom2.contains_key(n_id),
                forall|id: u64| #[trigger] dom2.contains_key(id) ==> id <= n_id,
                forall|id: u64| #[trigger] self.disk().contains_key(id) <==> (
                dom2.contains_key(id) && (id >= c_id || !stale@.take(j as int).contains(id))),
                self.disk()[c_id] == dom2[c_id],
                self.disk()[n_id] == dom2[n_id],
                dom2[n_id] == Seq::<u8>::empty(),
                spec_decode_all(dom2[c_id]) == Some(cs),
                dom2[c_id].len() == spec_size_sum(keys0),
                forall|j2: int| 0 <= j2 < keys0.len() ==> (
                #[trigger] self.index.entry_seq()[j2]).1.size == keys0[j2].1.size,
                self.index@.dom() == kv.dom(),
                forall|k: Seq<char>| #[trigger] kv.contains_key(k) ==> entry_ok_in(
                    self.disk(),
                    self.index@[k],
                    k,
                    kv[k],
                ) && self.index@[k].file_id == c_id,
                cs.len() == keys0.len(),
                forall|j2: int| 0 <= j2 < keys0.len() ==> #[trigger] cs[j2] == (CommandView {
                    key: keys0[j2].0,
                    value: Some(kv[keys0[j2].0]),
                }),
                forall|j2: int| 0 <= j2 < keys0.len() ==> (
                #[trigger] self.index.entry_seq()[j2]).0 == keys0[j2].0,
                self.index.entry_seq().len() == keys0.len(),
            decreases nstale - j,
        {
            let id = stale[j];
            let ghost pre_disk = self.disk();
            if id < c_id {
                proof {
                    assert(stale@.contains(id));
                    assert(!stale@.take(j as int).contains(id)) by {
                        if stale@.take(j as int).contains(id) {
                            let x = choose|x: int|
                                0 <= x < j && (#[trigger] stale@.take(j as int)[x]) == id;
                            assert(0 <= x < j && stale@.take(j as int)[x] == id);
                            assert(stale@[x] == id);
                            assert(stale@[x] < stale@[j as int]);
                        }
                    }
                    assert(self.disk().contains_key(id));
                }
                match self.backend.delete(id) {
                    Ok(()) => {},
                    Err(e) => {
                        proof {
                            assert(self.inv());
                        }
                        return Err(e);
                    },
                }
            }
            proof {
                if stale@[j as int] < c_id {
                    assert(self.disk() == pre_disk.remove(stale@[j as int]));
                } else {
                    assert(self.disk() == pre_disk);
                }
                assert forall|id2: u64| #[trigger] self.disk().contains_key(id2) implies (
                dom2.contains_key(id2) && (id2 >= c_id || !stale@.take(j + 1).contains(
                    id2,
                ))) by {
                    assert(pre_disk.contains_key(id2));
                    if id2 < c_id && stale@.take(j + 1).contains(id2) {
                        let x = choose|x: int|
                            0 <= x < j + 1 && (#[trigger] stale@.take(j + 1)[x]) == id2;
                        assert(0 <= x < j + 1 && stale@.take(j + 1)[x] == id2);
                        assert(stale@[x] == id2);
                        if x < j {
                            assert(stale@.take(j as int)[x] == id2);
                            assert(stale@.take(j as int).contains(id2));
                            assert(false);
                        }
                        // so this is the id deleted in this very step
                        assert(id2 == stale@[j as int]);
                        assert(false);
                    }
                }
                assert forall|id2: u64| (dom2.contains_key(id2) && (id2 >= c_id
                    || !stale@.take(j + 1).contains(id2))) implies #[trigger] self.disk()
                    .contains_key(id2) by {
                    assert(!(id2 < c_id && stale@.take(j as int).contains(id2))) by {
                        if stale@.take(j as int).contains(id2) {
                            let x = choose|x: int|
                                0 <= x < j && (#[trigger] stale@.take(j as int)[x]) == id2;
                            assert(0 <= x < j && stale@.take(j as int)[x] == id2);
                            assert(stale@.take(j + 1)[x] == id2);
                            assert(stale@.take(j + 1).contains(id2));
                        }
                    }
                    assert(pre_disk.contains_key(id2));
                    if stale@[j as int] < c_id {
                        if id2 == stale@[j as int] {
                            assert(stale@.take(j + 1)[j as int] == id2);
                            assert(stale@.take(j + 1).contains(id2));
                            assert(false);
                        }
                    }
                }
            }
            j = j + 1;
        }
        proof {
            // only the target and the new active segment remain
            assert forall|id: u64| #[trigger] self.disk().contains_key(id) implies (id == c_id
                || id == n_id) by {
                if id < c_id {
                    assert(stale@.contains(id));
                    let x = choose|x: int| 0 <= x < stale@.len() && (#[trigger] stale@[x]) == id;
                    assert(0 <= x < stale@.len() && stale@[x] == id);
                    assert(stale@.take(nstale as int) =~= stale@);
                    assert(stale@.take(nstale as int)[x] == id);
                }
            }
            assert(self.disk().contains_key(c_id) && self.disk().contains_key(n_id));
            // the copied records replay to exactly the live map
            crate::replay::lemma_apply_distinct_sets(Map::<Seq<char>, Seq<char>>::empty(), cs);
            assert forall|x: int, y: int| 0 <= x < y < cs.len() implies (#[trigger] cs[x]).key
                != (#[trigger] cs[y]).key by {
                assert(keys0[x].0 != keys0[y].0) by {
                    assert((self.index.entry_seq()[x]).0 == keys0[x].0);
                    assert((self.index.entry_seq()[y]).0 == keys0[y].0);
                }
            }
            let applied = crate::replay::spec_apply_all(Map::<Seq<char>, Seq<char>>::empty(), cs);
            assert forall|k: Seq<char>| #[trigger] applied.contains_key(k) implies
                kv.contains_key(k) by {
                let j2 = choose|j2: int| 0 <= j2 < cs.len() && (#[trigger] cs[j2]).key == k;
                assert(0 <= j2 < cs.len() && cs[j2].key == k);
                assert(self.index.entry_seq()[j2].0 == k);
                self.index.lemma_entry_in_view(j2);
            }
            assert forall|k: Seq<char>| #[trigger] kv.contains_key(k) implies
                applied.contains_key(k) && applied[k] == kv[k] by {
                let j2 = self.index.index_of_key(k);
                assert(cs[j2].key == k);
                assert(applied[cs[j2].key] == cs[j2].value->Some_0);
            }
            assert(applied =~= kv);
            // replay the final directory: the target, then the empty active
            let ids2 = seq![c_id, n_id];
            assert forall|id: u64| #[trigger] ids2.contains(id) implies self.disk()
                .contains_key(id) by {
                let x = choose|x: int| 0 <= x < ids2.len() && ids2[x] == id;
                assert(0 <= x < ids2.len() && ids2[x] == id);
            }
            assert forall|id: u64| self.disk().contains_key(id) implies #[trigger] ids2.contains(
                id,
            ) by {
                if id == c_id {
                    assert(ids2[0] == id);
                } else {
                    assert(ids2[1] == id);
                }
            }
            assert(spec_is_sorted_ids(self.disk(), ids2));
            lemma_replay_via(self.disk(), ids2);
            assert(ids2.drop_first() =~= seq![n_id]);
            assert(seq![n_id].drop_first() =~= Seq::<u64>::empty());
            assert(spec_decode_all(Seq::<u8>::empty()) == Some(Seq::<CommandView>::empty()));
            assert(crate::replay::spec_apply_all(kv, Seq::<CommandView>::empty()) == kv);
            assert(ids2[0] == c_id);
            assert(self.disk()[c_id] == dom2[c_id]);
            assert(spec_replay_seg(Map::<Seq<char>, Seq<char>>::empty(), self.disk()[c_id])
                == Some(applied));
            assert(applied == kv);
            assert(self.disk()[n_id] == Seq::<u8>::empty());
            assert(spec_replay_seg(kv, self.disk()[n_id]) == Some(kv));
            assert(spec_replay_list(self.disk(), Seq::<u64>::empty(), kv) == Some(kv));
            assert(seq![n_id][0] == n_id);
            assert(spec_replay_list(self.disk(), seq![n_id], kv) == Some(kv));
            assert(spec_replay_list(self.disk(), ids2.drop_first(), kv) == Some(kv));
            assert(spec_replay_list(self.disk(), ids2, Map::<Seq<char>, Seq<char>>::empty())
                == Some(kv));
        }
        self.clean = Ghost(true);
        proof {
            assert(keys0.take(keys0.len() as int) =~= keys0);
            lemma_size_sum_pointwise(self.index.entry_seq(), keys0);
            assert(self.disk()[c_id].len() == self.live_bytes());
            let ids2 = seq![c_id, n_id];
            crate::replay::lemma_disk_total_via(self.disk(), ids2);
            assert(ids2.drop_first() =~= seq![n_id]);
            assert(seq![n_id].drop_first() =~= Seq::<u64>::empty());
            assert(crate::replay::spec_disk_total_list(self.disk(), Seq::<u64>::empty()) == 0);
            assert(seq![n_id][0] == n_id);
            assert(self.disk()[n_id].len() == 0);
            assert(crate::replay::spec_disk_total_list(self.disk(), seq![n_id]) == 0);
            assert(ids2[0] == c_id);
            let c_bytes = self.disk()[c_id];
            assert(crate::replay::spec_disk_total_list(self.disk(), ids2) == c_bytes.len());
            assert(self.inv());
        }
        Ok(())
    }
}

/// A brand-new empty segment above every existing one leaves all indexed
/// records readable exactly as before.
proof fn lemma_entries_fresh_segment(
    disk: Map<u64, Seq<u8>>,
    nid: u64,
    idx: Map<Seq<char>, ValueInfo>,
    kv: Map<Seq<char>, Seq<char>>,
)
    requires
        !disk.contains_key(nid),
        forall|k: Seq<char>| #[trigger] kv.contains_key(k) ==> entry_ok_in(disk, idx[k], k, kv[k]),
    ensures
        forall|k: Seq<char>| #[trigger] kv.contains_key(k) ==> entry_ok_in(
            disk.insert(nid, Seq::<u8>::empty()),
            idx[k],
            k,
            kv[k],
        ),
{
    assert forall|k: Seq<char>| #[trigger] kv.contains_key(k) implies entry_ok_in(
        disk.insert(nid, Seq::<u8>::empty()),
        idx[k],
        k,
        kv[k],
    ) by {
        assert(idx[k].file_id != nid);
    }
}

/// A brand-new empty segment above every existing one changes neither what
/// the directory replays to nor its total size.
proof fn lemma_clean_fresh_segment(
    disk: Map<u64, Seq<u8>>,
    nid: u64,
    m: Map<Seq<char>, Seq<char>>,
)
    requires
        spec_replay(disk) == Some(m),
        !disk.contains_key(nid),
        forall|id: u64| #[trigger] disk.contains_key(id) ==> id < nid,
    ensures
        spec_replay(disk.insert(nid, Seq::<u8>::empty())) == Some(m),
        crate::replay::spec_disk_total(disk.insert(nid, Seq::<u8>::empty()))
            == crate::replay::spec_disk_total(disk),
{
    assert(exists|ids: Seq<u64>| spec_is_sorted_ids(disk, ids)) by {
        if !(exists|ids: Seq<u64>| spec_is_sorted_ids(disk, ids)) {
            assert(spec_replay(disk) is None);
        }
    }
    let ids = choose|ids: Seq<u64>| spec_is_sorted_ids(disk, ids);
    assert(spec_is_sorted_ids(disk, ids));
    lemma_replay_via(disk, ids);
    assert(forall|id: u64| #[trigger] ids.contains(id) ==> id < nid);
    assert(forall|id: u64| #[trigger] ids.contains(id) ==> disk.contains_key(id));
    crate::replay::lemma_replay_push_empty(disk, ids, Map::<Seq<char>, Seq<char>>::empty(), nid);
    let disk2 = disk.insert(nid, Seq::<u8>::empty());
    let ids2 = ids.push(nid);
    assert forall|x: int, y: int| 0 <= x < y < ids2.len() implies ids2[x] < ids2[y] by {
        if y == ids.len() {
            assert(ids2[x] == ids[x]);
            assert(ids.contains(ids[x]));
        } else {
            assert(ids2[x] == ids[x] && ids2[y] == ids[y]);
        }
    }
    assert forall|id: u64| #[trigger] ids2.contains(id) implies disk2.contains_key(id) by {
        let x = choose|x: int| 0 <= x < ids2.len() && ids2[x] == id;
        assert(0 <= x < ids2.len() && ids2[x] == id);
        if x < ids.len() {
            assert(ids[x] == id);
            assert(ids.contains(id));
        }
    }
    assert forall|id: u64| disk2.contains_key(id) implies #[trigger] ids2.contains(id) by {
        if id == nid {
            assert(ids2[ids.len() as int] == id);
        } else {
            assert(ids.contains(id));
            let x = choose|x: int| 0 <= x < ids.len() && ids[x] == id;
            assert(0 <= x < ids.len() && ids[x] == id);
            assert(ids2[x] == id);
        }
    }
    assert(spec_is_sorted_ids(disk2, ids2));
    lemma_replay_via(disk2, ids2);
    assert(forall|id: u64| #[trigger] ids.contains(id) ==> id != nid);
    crate::replay::lemma_disk_total_via(disk, ids);
    crate::replay::lemma_disk_total_push_empty(disk, ids, nid);
    crate::replay::lemma_disk_total_via(disk2, ids2);
}

impl<B: SegmentBackend> StoreCore<B> {
    /// The dead bytes counted so far.
    pub fn uncompacted(&self) -> (r: u64)
        ensures
            r == self.uncompacted_bytes(),
    {
        self.uncompacted.0
    }

    /// The id of the active segment.
    pub fn active_segment(&self) -> (r: u64)
        ensures
            r == self.active_id(),
    {
        self.writer_id
    }

    /// The ids of the segments currently on disk, ascending.
    pub fn segment_ids(&self) -> (r: Vec<u64>)
        requires
            self.inv(),
        ensures
            forall|a: int, b: int| 0 <= a < b < r@.len() ==> r@[a] < r@[b],
            forall|id: u64| #[trigger] r@.contains(id) <==> self.disk().contains_key(id),
    {
        self.backend.ids()
    }

    /// Close the store, handing back its storage. While the store was
    /// clean, replaying that storage — as a fresh open does — yields
    /// exactly the map the store held.
    pub fn into_backend(self) -> (r: B)
        requires
            self.inv(),
        ensures
            r.inv(),
            r.view() == self.disk(),
            self.clean() ==> spec_replay(r.view()) == Some(self@),
    {
        let StoreCore {
            backend,
            index: _,
            writer_id: _,
            uncompacted: _,
            kvmap: _,
            clean: _,
            dead: _,
        } = self;
        backend
    }
}

/// Law: reads see writes. A successful `set` of `(k, v)` leaves the store's
/// map with `v` under `k` — the map `get` answers from — and it stays there
/// until a later `set` of `k` or a successful `remove` of `k` changes it;
/// operations on other keys leave it alone.
pub proof fn lemma_read_your_writes(
    m: Map<Seq<char>, Seq<char>>,
    k: Seq<char>,
    v: Seq<char>,
    k2: Seq<char>,
    v2: Seq<char>,
)
    requires
        k2 != k,
    ensures
        m.insert(k, v).contains_key(k),
        m.insert(k, v)[k] == v,
        m.insert(k, v).insert(k2, v2)[k] == v,
        m.insert(k, v).remove(k2)[k] == v,
{
}

/// Law: tombstones hide keys. A successful `remove` of `k` leaves the
/// store's map without `k`, and it stays absent until a later `set` of `k`;
/// operations on other keys leave it absent.
pub proof fn lemma_tombstone_visibility(
    m: Map<Seq<char>, Seq<char>>,
    k: Seq<char>,
    k2: Seq<char>,
    v2: Seq<char>,
)
    requires
        k2 != k,
    ensures
        !m.remove(k).contains_key(k),
        !m.remove(k).insert(k2, v2).contains_key(k),
        !m.remove(k).remove(k2).contains_key(k),
{
}

} // verus!
