//! Replay: the meaning of a directory of segments.
//!
//! A segment is a concatenation of records; a directory replays by applying
//! every record of every segment, in ascending segment order, to an empty
//! map. The store's invariant keeps the replay of its segments equal to its
//! in-memory state, which is what makes closing and reopening lossless.

use vstd::prelude::*;

use crate::codec::{spec_decode_all, spec_encode, CommandView};

verus! {

broadcast use vstd::seq::group_seq_axioms;

/// Apply one command to a key/value map: a put inserts, a tombstone removes.
pub open spec fn spec_apply(
    m: Map<Seq<char>, Seq<char>>,
    c: CommandView,
) -> Map<Seq<char>, Seq<char>> {
    match c.value {
        Some(v) => m.insert(c.key, v),
        None => m.remove(c.key),
    }
}

/// Apply a sequence of commands left to right.
pub open spec fn spec_apply_all(
    m: Map<Seq<char>, Seq<char>>,
    cs: Seq<CommandView>,
) -> Map<Seq<char>, Seq<char>>
    decreases cs.len(),
{
    if cs.len() == 0 {
        m
    } else {
        spec_apply_all(spec_apply(m, cs[0]), cs.drop_first())
    }
}

/// Applying one more command at the end applies it to the result.
pub proof fn lemma_apply_all_snoc(m: Map<Seq<char>, Seq<char>>, cs: Seq<CommandView>, c: CommandView)
    ensures
        spec_apply_all(m, cs.push(c)) == spec_apply(spec_apply_all(m, cs), c),
    decreases cs.len(),
{
    if cs.len() == 0 {
        let e = Seq::<CommandView>::empty();
        assert(cs.push(c)[0] == c);
        assert(cs.push(c).drop_first() =~= e);
        assert(spec_apply_all(spec_apply(m, c), e) == spec_apply(m, c));
        assert(spec_apply_all(m, cs) == m);
    } else {
        assert(cs.push(c)[0] == cs[0]);
        assert(cs.push(c).drop_first() =~= cs.drop_first().push(c));
        lemma_apply_all_snoc(spec_apply(m, cs[0]), cs.drop_first(), c);
    }
}

/// Replay one segment's bytes onto `m`, or nothing if the segment is not a
/// clean concatenation of records.
pub open spec fn spec_replay_seg(m: Map<Seq<char>, Seq<char>>, bytes: Seq<u8>) -> Option<
    Map<Seq<char>, Seq<char>>,
> {
    match spec_decode_all(bytes) {
        Some(cs) => Some(spec_apply_all(m, cs)),
        None => None,
    }
}

/// Replay the segments named by `ids`, in order, onto `m`.
pub open spec fn spec_replay_list(
    disk: Map<u64, Seq<u8>>,
    ids: Seq<u64>,
    m: Map<Seq<char>, Seq<char>>,
) -> Option<Map<Seq<char>, Seq<char>>>
    decreases ids.len(),
{
    if ids.len() == 0 {
        Some(m)
    } else if !disk.contains_key(ids[0]) {
        None
    } else {
        match spec_replay_seg(m, disk[ids[0]]) {
            Some(m2) => spec_replay_list(disk, ids.drop_first(), m2),
            None => None,
        }
    }
}

/// Is `ids` the ascending enumeration of the segment ids of `disk`?
pub open spec fn spec_is_sorted_ids(disk: Map<u64, Seq<u8>>, ids: Seq<u64>) -> bool {
    &&& forall|a: int, b: int| 0 <= a < b < ids.len() ==> ids[a] < ids[b]
    &&& forall|id: u64| #[trigger] ids.contains(id) <==> disk.contains_key(id)
}

/// The replay of a whole directory: its segments in ascending id order,
/// applied to the empty map.
pub open spec fn spec_replay(disk: Map<u64, Seq<u8>>) -> Option<Map<Seq<char>, Seq<char>>> {
    let ids = choose|ids: Seq<u64>| spec_is_sorted_ids(disk, ids);
    if exists|ids: Seq<u64>| spec_is_sorted_ids(disk, ids) {
        spec_replay_list(disk, ids, Map::<Seq<char>, Seq<char>>::empty())
    } else {
        None
    }
}

/// A set of ids has at most one ascending enumeration.
pub proof fn lemma_sorted_ids_unique(disk: Map<u64, Seq<u8>>, ids1: Seq<u64>, ids2: Seq<u64>)
    requires
        spec_is_sorted_ids(disk, ids1),
        spec_is_sorted_ids(disk, ids2),
    ensures
        ids1 == ids2,
    decreases ids1.len(),
{
    if ids1.len() == 0 {
        if ids2.len() > 0 {
            assert(ids2.contains(ids2[0]));
            assert(ids1.contains(ids2[0]));
            assert(false);
        }
        assert(ids1 =~= ids2);
    } else {
        assert(ids1.contains(ids1[0]));
        assert(ids2.contains(ids1[0]));
        let j = choose|j: int| 0 <= j < ids2.len() && ids2[j] == ids1[0];
        assert(0 <= j < ids2.len() && ids2[j] == ids1[0]);
        // the head of each is the minimum, so the heads agree
        if j > 0 {
            assert(ids2[0] < ids2[j]);
        }
        assert(ids2.contains(ids2[0]));
        assert(ids1.contains(ids2[0]));
        let i = choose|i: int| 0 <= i < ids1.len() && ids1[i] == ids2[0];
        assert(0 <= i < ids1.len() && ids1[i] == ids2[0]);
        if i > 0 {
            assert(ids1[0] < ids1[i]);
        }
        assert(ids1[0] == ids2[0]);
        // the tails enumerate the rest
        let d2 = Map::<u64, Seq<u8>>::new(
            |id: u64| disk.contains_key(id) && id != ids1[0],
            |id: u64| disk[id],
        );
        assert forall|id: u64| #[trigger] ids1.drop_first().contains(id) implies d2.contains_key(
            id,
        ) by {
            let a = choose|a: int|
                0 <= a < ids1.drop_first().len() && ids1.drop_first()[a] == id;
            assert(0 <= a < ids1.drop_first().len() && ids1.drop_first()[a] == id);
            assert(ids1[a + 1] == id);
            assert(ids1.contains(id));
            assert(ids1[0] < ids1[a + 1]);
        }
        assert forall|id: u64| d2.contains_key(id) implies #[trigger] ids1.drop_first().contains(
            id,
        ) by {
            assert(ids1.contains(id));
            let a = choose|a: int| 0 <= a < ids1.len() && ids1[a] == id;
            assert(0 <= a < ids1.len() && ids1[a] == id);
            if a == 0 {
                assert(false);
            }
            assert(ids1.drop_first()[a - 1] == id);
        }
        assert forall|id: u64| #[trigger] ids2.drop_first().contains(id) implies d2.contains_key(
            id,
        ) by {
            let a = choose|a: int|
                0 <= a < ids2.drop_first().len() && ids2.drop_first()[a] == id;
            assert(0 <= a < ids2.drop_first().len() && ids2.drop_first()[a] == id);
            assert(ids2[a + 1] == id);
            assert(ids2.contains(id));
            assert(ids2[0] < ids2[a + 1]);
        }
        assert forall|id: u64| d2.contains_key(id) implies #[trigger] ids2.drop_first().contains(
            id,
        ) by {
            assert(ids2.contains(id));
            let a = choose|a: int| 0 <= a < ids2.len() && ids2[a] == id;
            assert(0 <= a < ids2.len() && ids2[a] == id);
            if a == 0 {
                assert(false);
            }
            assert(ids2.drop_first()[a - 1] == id);
        }
        assert(forall|a: int, b: int|
            0 <= a < b < ids1.drop_first().len() ==> ids1.drop_first()[a] < ids1.drop_first()[b]);
        assert(forall|a: int, b: int|
            0 <= a < b < ids2.drop_first().len() ==> ids2.drop_first()[a] < ids2.drop_first()[b]);
        lemma_sorted_ids_unique(d2, ids1.drop_first(), ids2.drop_first());
        assert forall|x: int| 0 <= x < ids1.len() implies ids1[x] == ids2[x] by {
            if x > 0 {
                assert(ids1.drop_first()[x - 1] == ids2.drop_first()[x - 1]);
            }
        }
        assert(ids1 =~= ids2);
    }
}

/// The ascending enumeration fixes the whole-directory replay.
pub proof fn lemma_replay_via(disk: Map<u64, Seq<u8>>, ids: Seq<u64>)
    requires
        spec_is_sorted_ids(disk, ids),
    ensures
        spec_replay(disk) == spec_replay_list(disk, ids, Map::<Seq<char>, Seq<char>>::empty()),
{
    let w = choose|w: Seq<u64>| spec_is_sorted_ids(disk, w);
    assert(spec_is_sorted_ids(disk, ids));
    lemma_sorted_ids_unique(disk, w, ids);
}

/// Appending one record to the last-named segment makes the replay apply
/// that one command at the end.
pub proof fn lemma_replay_append_last(
    disk: Map<u64, Seq<u8>>,
    ids: Seq<u64>,
    m0: Map<Seq<char>, Seq<char>>,
    m: Map<Seq<char>, Seq<char>>,
    c: CommandView,
)
    requires
        ids.len() > 0,
        forall|a: int, b: int| 0 <= a < b < ids.len() ==> ids[a] < ids[b],
        spec_replay_list(disk, ids, m0) == Some(m),
        c.wf(),
    ensures
        spec_replay_list(
            disk.insert(ids.last(), disk[ids.last()] + spec_encode(c)),
            ids,
            m0,
        ) == Some(spec_apply(m, c)),
    decreases ids.len(),
{
    let last = ids.last();
    let disk2 = disk.insert(last, disk[last] + spec_encode(c));
    if ids.len() == 1 {
        assert(ids[0] == last);
        assert(disk.contains_key(last));
        let cs = spec_decode_all(disk[last])->Some_0;
        assert(spec_decode_all(disk[last]) == Some(cs));
        assert(ids.drop_first() =~= Seq::<u64>::empty());
        assert(spec_replay_list(disk, ids.drop_first(), spec_apply_all(m0, cs)) == Some(
            spec_apply_all(m0, cs),
        ));
        assert(m == spec_apply_all(m0, cs));
        crate::codec::lemma_decode_all_snoc(disk[last], cs, c);
        lemma_apply_all_snoc(m0, cs, c);
        assert(disk2[last] == disk[last] + spec_encode(c));
        assert(spec_replay_seg(m0, disk2[last]) == Some(spec_apply(m, c)));
        assert(spec_replay_list(disk2, ids.drop_first(), spec_apply(m, c)) == Some(
            spec_apply(m, c),
        ));
    } else {
        assert(ids[0] < ids[ids.len() - 1]);
        assert(ids[0] != last);
        assert(disk.contains_key(ids[0]));
        assert(disk2[ids[0]] == disk[ids[0]]);
        let m2 = spec_replay_seg(m0, disk[ids[0]])->Some_0;
        assert(spec_replay_seg(m0, disk[ids[0]]) == Some(m2));
        assert(spec_replay_list(disk, ids.drop_first(), m2) == Some(m));
        assert(ids.drop_first().last() == last);
        assert(ids.drop_first().len() > 0);
        assert(forall|a: int, b: int|
            0 <= a < b < ids.drop_first().len() ==> ids.drop_first()[a] < ids.drop_first()[b]);
        lemma_replay_append_last(disk, ids.drop_first(), m2, m, c);
        assert(spec_replay_list(disk2, ids.drop_first(), m2) == Some(spec_apply(m, c)));
    }
}

/// A fresh empty segment with an id above every existing one does not change
/// what a directory replays to.
pub proof fn lemma_replay_push_empty(
    disk: Map<u64, Seq<u8>>,
    ids: Seq<u64>,
    m0: Map<Seq<char>, Seq<char>>,
    nid: u64,
)
    requires
        forall|id: u64| #[trigger] ids.contains(id) ==> id < nid,
        forall|id: u64| #[trigger] ids.contains(id) ==> disk.contains_key(id),
    ensures
        spec_replay_list(disk.insert(nid, Seq::<u8>::empty()), ids.push(nid), m0)
            == spec_replay_list(disk, ids, m0),
    decreases ids.len(),
{
    let disk2 = disk.insert(nid, Seq::<u8>::empty());
    if ids.len() == 0 {
        assert(ids.push(nid)[0] == nid);
        assert(spec_decode_all(Seq::<u8>::empty()) == Some(Seq::<CommandView>::empty()));
        assert(spec_apply_all(m0, Seq::<CommandView>::empty()) == m0);
        assert(spec_replay_seg(m0, disk2[nid]) == Some(m0));
        assert(ids.push(nid).drop_first() =~= Seq::<u64>::empty());
        assert(spec_replay_list(disk2, ids.push(nid).drop_first(), m0) == Some(m0));
        assert(spec_replay_list(disk, ids, m0) == Some(m0));
    } else {
        assert(ids.contains(ids[0]));
        assert(ids.push(nid)[0] == ids[0]);
        assert(ids[0] != nid);
        assert(disk2[ids[0]] == disk[ids[0]]);
        assert(ids.push(nid).drop_first() =~= ids.drop_first().push(nid));
        assert(forall|id: u64| #[trigger] ids.drop_first().contains(id) ==> ids.contains(id));
        match spec_replay_seg(m0, disk[ids[0]]) {
            Some(m2) => {
                lemma_replay_push_empty(disk, ids.drop_first(), m2, nid);
            },
            None => {},
        }
    }
}

/// Applying a sequence of puts with pairwise-distinct keys installs exactly
/// those pairs and leaves every other key alone.
pub proof fn lemma_apply_distinct_sets(acc: Map<Seq<char>, Seq<char>>, cs: Seq<CommandView>)
    requires
        forall|j: int| 0 <= j < cs.len() ==> (#[trigger] cs[j]).value is Some,
        forall|a: int, b: int| 0 <= a < b < cs.len() ==> (#[trigger] cs[a]).key != (
        #[trigger] cs[b]).key,
    ensures
        forall|k: Seq<char>| #[trigger] spec_apply_all(acc, cs).contains_key(k) <==> (
        acc.contains_key(k) || exists|j: int| 0 <= j < cs.len() && (#[trigger] cs[j]).key == k),
        forall|j: int|
            0 <= j < cs.len() ==> spec_apply_all(acc, cs)[(#[trigger] cs[j]).key]
                == cs[j].value->Some_0,
        forall|k: Seq<char>|
            #[trigger] acc.contains_key(k) && !(exists|j: int|
                0 <= j < cs.len() && (#[trigger] cs[j]).key == k) ==> spec_apply_all(acc, cs)[k]
                == acc[k],
    decreases cs.len(),
{
    if cs.len() > 0 {
        let c0 = cs[0];
        let k0 = c0.key;
        let acc2 = spec_apply(acc, c0);
        let rest = cs.drop_first();
        assert(forall|j: int| 0 <= j < rest.len() ==> rest[j] == cs[j + 1]);
        lemma_apply_distinct_sets(acc2, rest);
        assert(spec_apply_all(acc, cs) == spec_apply_all(acc2, rest));
        assert(acc2 == acc.insert(k0, c0.value->Some_0));
        assert(!(exists|j: int| 0 <= j < rest.len() && (#[trigger] rest[j]).key == k0)) by {
            if exists|j: int| 0 <= j < rest.len() && (#[trigger] rest[j]).key == k0 {
                let j = choose|j: int| 0 <= j < rest.len() && (#[trigger] rest[j]).key == k0;
                assert(cs[j + 1].key == k0);
                assert(cs[0].key != cs[j + 1].key);
            }
        }
        assert(acc2.contains_key(k0));
        assert(spec_apply_all(acc2, rest)[k0] == acc2[k0]);
        assert(spec_apply_all(acc, cs)[k0] == acc2[k0]);
        assert forall|k: Seq<char>|
            #[trigger] acc.contains_key(k) && !(exists|j: int|
                0 <= j < cs.len() && (#[trigger] cs[j]).key == k) implies spec_apply_all(
            acc,
            cs,
        )[k] == acc[k] by {
            assert(cs[0].key == k0);
            assert(k != k0);
            assert(acc2.contains_key(k));
            assert(!(exists|j: int| 0 <= j < rest.len() && (#[trigger] rest[j]).key == k)) by {
                if exists|j: int| 0 <= j < rest.len() && (#[trigger] rest[j]).key == k {
                    let j = choose|j: int|
                        0 <= j < rest.len() && (#[trigger] rest[j]).key == k;
                    assert(cs[j + 1].key == k);
                }
            }
            assert(spec_apply_all(acc2, rest)[k] == acc2[k]);
        }
        assert forall|k: Seq<char>| #[trigger] spec_apply_all(acc, cs).contains_key(k) implies (
        acc.contains_key(k) || exists|j: int| 0 <= j < cs.len() && (#[trigger] cs[j]).key
            == k) by {
            if k != k0 {
                if acc2.contains_key(k) && !acc.contains_key(k) {
                    assert(false);
                }
                if exists|j: int| 0 <= j < rest.len() && (#[trigger] rest[j]).key == k {
                    let j = choose|j: int|
                        0 <= j < rest.len() && (#[trigger] rest[j]).key == k;
                    assert(cs[j + 1].key == k);
                }
            }
        }
        assert forall|k: Seq<char>| (acc.contains_key(k) || exists|j: int|
            0 <= j < cs.len() && (#[trigger] cs[j]).key == k) implies #[trigger] spec_apply_all(
            acc,
            cs,
        ).contains_key(k) by {
            if exists|j: int| 0 <= j < cs.len() && (#[trigger] cs[j]).key == k {
                let j = choose|j: int| 0 <= j < cs.len() && (#[trigger] cs[j]).key == k;
                if j > 0 {
                    assert(rest[j - 1].key == k);
                }
            }
        }
        assert forall|j: int|
            0 <= j < cs.len() implies spec_apply_all(acc, cs)[(#[trigger] cs[j]).key]
            == cs[j].value->Some_0 by {
            if j > 0 {
                assert(rest[j - 1] == cs[j]);
                assert(spec_apply_all(acc2, rest)[rest[j - 1].key] == rest[j - 1].value->Some_0);
            }
        }
    }
}

/// The total size of the segments named by `ids`.
pub open spec fn spec_disk_total_list(disk: Map<u64, Seq<u8>>, ids: Seq<u64>) -> int
    decreases ids.len(),
{
    if ids.len() == 0 {
        0
    } else if !disk.contains_key(ids[0]) {
        0
    } else {
        disk[ids[0]].len() + spec_disk_total_list(disk, ids.drop_first())
    }
}

/// The total size of a whole directory: its segments in ascending id order.
pub open spec fn spec_disk_total(disk: Map<u64, Seq<u8>>) -> int {
    let ids = choose|ids: Seq<u64>| spec_is_sorted_ids(disk, ids);
    if exists|ids: Seq<u64>| spec_is_sorted_ids(disk, ids) {
        spec_disk_total_list(disk, ids)
    } else {
        0
    }
}

/// The ascending enumeration fixes the directory's total size.
pub proof fn lemma_disk_total_via(disk: Map<u64, Seq<u8>>, ids: Seq<u64>)
    requires
        spec_is_sorted_ids(disk, ids),
    ensures
        spec_disk_total(disk) == spec_disk_total_list(disk, ids),
{
    let w = choose|w: Seq<u64>| spec_is_sorted_ids(disk, w);
    assert(spec_is_sorted_ids(disk, ids));
    lemma_sorted_ids_unique(disk, w, ids);
}

/// A list's total reads only the segments it names.
pub proof fn lemma_disk_total_agrees(
    disk1: Map<u64, Seq<u8>>,
    disk2: Map<u64, Seq<u8>>,
    ids: Seq<u64>,
)
    requires
        forall|id: u64| #[trigger] ids.contains(id) ==> disk1.contains_key(id)
            && disk2.contains_key(id) && disk1[id] == disk2[id],
    ensures
        spec_disk_total_list(disk1, ids) == spec_disk_total_list(disk2, ids),
    decreases ids.len(),
{
    if ids.len() > 0 {
        assert(ids.contains(ids[0]));
        assert(forall|id: u64| #[trigger] ids.drop_first().contains(id) ==> ids.contains(id));
        lemma_disk_total_agrees(disk1, disk2, ids.drop_first());
    }
}

/// Growing the segment `id` by `extra` grows the total by exactly that, as
/// long as the list names each segment once.
pub proof fn lemma_disk_total_append(
    disk: Map<u64, Seq<u8>>,
    ids: Seq<u64>,
    id: u64,
    extra: Seq<u8>,
)
    requires
        forall|a: int, b: int| 0 <= a < b < ids.len() ==> ids[a] < ids[b],
        forall|x: u64| #[trigger] ids.contains(x) ==> disk.contains_key(x),
        ids.contains(id),
    ensures
        spec_disk_total_list(disk.insert(id, disk[id] + extra), ids) == spec_disk_total_list(
            disk,
            ids,
        ) + extra.len(),
    decreases ids.len(),
{
    let disk2 = disk.insert(id, disk[id] + extra);
    assert(ids.len() > 0);
    assert(ids.contains(ids[0]));
    let tl = ids.drop_first();
    assert(forall|x: u64| #[trigger] tl.contains(x) ==> ids.contains(x));
    assert(forall|a: int, b: int| 0 <= a < b < tl.len() ==> tl[a] < tl[b]);
    if ids[0] == id {
        assert(!tl.contains(id)) by {
            if tl.contains(id) {
                let a = choose|a: int| 0 <= a < tl.len() && tl[a] == id;
                assert(0 <= a < tl.len() && tl[a] == id);
                assert(ids[0] < ids[a + 1]);
            }
        }
        assert forall|x: u64| #[trigger] tl.contains(x) implies disk.contains_key(x)
            && disk2.contains_key(x) && disk[x] == disk2[x] by {
            assert(x != id);
        }
        lemma_disk_total_agrees(disk, disk2, tl);
    } else {
        let a = choose|a: int| 0 <= a < ids.len() && (#[trigger] ids[a]) == id;
        assert(0 <= a < ids.len() && ids[a] == id);
        assert(a != 0);
        assert(tl[a - 1] == id);
        assert(tl.contains(id));
        lemma_disk_total_append(disk, tl, id, extra);
    }
}

/// A fresh empty segment with an id above every existing one does not change
/// the total.
pub proof fn lemma_disk_total_push_empty(disk: Map<u64, Seq<u8>>, ids: Seq<u64>, nid: u64)
    requires
        forall|id: u64| #[trigger] ids.contains(id) ==> id != nid,
        forall|id: u64| #[trigger] ids.contains(id) ==> disk.contains_key(id),
    ensures
        spec_disk_total_list(disk.insert(nid, Seq::<u8>::empty()), ids.push(nid))
            == spec_disk_total_list(disk, ids),
    decreases ids.len(),
{
    let disk2 = disk.insert(nid, Seq::<u8>::empty());
    if ids.len() == 0 {
        assert(ids.push(nid)[0] == nid);
        assert(ids.push(nid).drop_first() =~= Seq::<u64>::empty());
        assert(spec_disk_total_list(disk2, Seq::<u64>::empty()) == 0);
        assert(disk2[nid].len() == 0);
        assert(spec_disk_total_list(disk2, ids.push(nid)) == 0);
    } else {
        assert(ids.contains(ids[0]));
        assert(ids.push(nid)[0] == ids[0]);
        assert(ids[0] != nid);
        assert(disk2[ids[0]] == disk[ids[0]]);
        assert(ids.push(nid).drop_first() =~= ids.drop_first().push(nid));
        assert(forall|id: u64| #[trigger] ids.drop_first().contains(id) ==> ids.contains(id));
        lemma_disk_total_push_empty(disk, ids.drop_first(), nid);
    }
}

} // verus!
