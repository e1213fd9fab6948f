//! The laws the store obeys, stated and proved over the same views its
//! operations promise.

use vstd::prelude::*;

use crate::codec::CommandV;
use crate::codec::seg_records;
use crate::error::KvsError;
use crate::index::IndexEntry;
use crate::index::count_in_segment;
use crate::store::KvStore;
use crate::store::SegFileV;
use crate::store::SegV;
use crate::store::StoreView;
use crate::store::durable;
use crate::store::files_of;
use crate::store::open_post;
use crate::store::rindex_files;
use crate::store::sort_files;
use crate::store::lemma_sort_files_sorted;
use crate::store::lemma_seg_pos_unique;

verus! {

/// The store's contents after a sequence of bindings and removals,
/// starting from nothing: what `set` and `remove` promise, folded.
pub open spec fn apply_cmds(m: Map<Seq<u8>, Seq<u8>>, ops: Seq<CommandV>) -> Map<Seq<u8>, Seq<u8>>
    decreases ops.len(),
{
    if ops.len() == 0 {
        m
    } else {
        let m2 = apply_cmds(m, ops.drop_last());
        match ops.last() {
            CommandV::Put { key, value } => m2.insert(key, value),
            CommandV::Rm { key } => m2.remove(key),
        }
    }
}

/// The value of the most recent binding of `k`, unless a later removal
/// follows it.
pub open spec fn last_write(ops: Seq<CommandV>, k: Seq<u8>) -> Option<Seq<u8>>
    decreases ops.len(),
{
    if ops.len() == 0 {
        None
    } else {
        match ops.last() {
            CommandV::Put { key, value } => if key == k {
                Some(value)
            } else {
                last_write(ops.drop_last(), k)
            },
            CommandV::Rm { key } => if key == k {
                None
            } else {
                last_write(ops.drop_last(), k)
            },
        }
    }
}

/// For every sequence of operations, a read of `k` sees the value of the
/// most recent binding of `k`, or nothing if a later removal follows it.
/// `set` ensures the model gains the binding, `remove` ensures it loses
/// it, and `get` returns exactly the model, so the fold below is what a
/// store that ran `ops` from empty answers.
pub proof fn lemma_last_write_wins(ops: Seq<CommandV>, k: Seq<u8>)
    ensures
        apply_cmds(Map::empty(), ops).dom().contains(k) <==> last_write(ops, k) is Some,
        last_write(ops, k) matches Some(v) ==> apply_cmds(Map::empty(), ops)[k] == v,
    decreases ops.len(),
{
    if ops.len() > 0 {
        lemma_last_write_wins(ops.drop_last(), k);
    }
}

/// For every segment of a well-formed store, the number of live records,
/// `effective_len`, equals the number of index entries pointing into it.
pub proof fn lemma_effective_len_matches_index(v: StoreView, i: int)
    requires
        v.wf(),
        0 <= i < v.segs.len(),
    ensures
        v.segs[i].counts.len - v.segs[i].counts.len_garbage == count_in_segment(
            v.entries,
            v.segs[i].id,
        ),
{
    assert(v.seg_count_ok(i));
}

/// No segment of a well-formed store holds more records than the
/// per-segment cap.
pub proof fn lemma_segment_record_bound(v: StoreView, i: int)
    requires
        v.wf(),
        0 <= i < v.segs.len(),
    ensures
        seg_records(v.segs[i].data) matches Some(rs) && rs.len() <= v.max_records,
{
    assert(v.seg_base_ok(i));
}

/// How many of the given ids equal `id`.
pub open spec fn occurrences(ids: Seq<u64>, id: u64) -> int
    decreases ids.len(),
{
    if ids.len() == 0 {
        0
    } else {
        occurrences(ids.drop_last(), id) + if ids.last() == id {
            1int
        } else {
            0int
        }
    }
}

/// The sum of `effective_len` over the given segments.
pub open spec fn sum_effective(segs: Seq<SegV>) -> int
    decreases segs.len(),
{
    if segs.len() == 0 {
        0
    } else {
        sum_effective(segs.drop_last()) + (segs.last().counts.len
            - segs.last().counts.len_garbage)
    }
}

/// The sum of the per-id entry counts over a list of ids.
pub open spec fn sum_counts(entries: Seq<IndexEntry>, ids: Seq<u64>) -> int
    decreases ids.len(),
{
    if ids.len() == 0 {
        0
    } else {
        sum_counts(entries, ids.drop_last()) + count_in_segment(entries, ids.last())
    }
}

/// An id that occurs once among the ids contributes each entry pointing
/// at it exactly once to the summed counts.
proof fn lemma_sum_counts_entries(entries: Seq<IndexEntry>, ids: Seq<u64>)
    requires
        forall|j: int|
            0 <= j < entries.len() ==> occurrences(ids, (#[trigger] entries[j].loc).segment)
                == 1,
    ensures
        sum_counts(entries, ids) == entries.len(),
    decreases entries.len(),
{
    if entries.len() == 0 {
        assert(entries =~= Seq::<IndexEntry>::empty());
        lemma_sum_counts_empty(ids);
    } else {
        let e = entries.last();
        assert forall|j: int| 0 <= j < entries.drop_last().len() implies occurrences(
            ids,
            (#[trigger] entries.drop_last()[j].loc).segment,
        ) == 1 by {
            assert(entries.drop_last()[j] == entries[j]);
            assert(occurrences(ids, entries[j].loc.segment) == 1);
        }
        lemma_sum_counts_entries(entries.drop_last(), ids);
        lemma_sum_counts_step(entries, ids);
        assert(sum_counts(entries.drop_last(), ids) == entries.len() - 1);
        assert(occurrences(ids, entries[entries.len() - 1].loc.segment) == 1);
        assert(e == entries[entries.len() - 1]);
        assert(sum_counts(entries, ids) == (entries.len() - 1) + occurrences(
            ids,
            e.loc.segment,
        ));
    }
}

/// Summing counts of no entries gives zero.
proof fn lemma_sum_counts_empty(ids: Seq<u64>)
    ensures
        sum_counts(Seq::empty(), ids) == 0,
    decreases ids.len(),
{
    if ids.len() > 0 {
        lemma_sum_counts_empty(ids.drop_last());
    }
}

/// Dropping the last entry lowers the summed counts by the number of
/// times its segment occurs among the ids.
proof fn lemma_sum_counts_step(entries: Seq<IndexEntry>, ids: Seq<u64>)
    requires
        entries.len() > 0,
    ensures
        sum_counts(entries, ids) == sum_counts(entries.drop_last(), ids) + occurrences(
            ids,
            entries.last().loc.segment,
        ),
    decreases ids.len(),
{
    if ids.len() > 0 {
        lemma_sum_counts_step(entries, ids.drop_last());
    }
}

/// The summed effective lengths equal the summed per-id counts when every
/// segment's count matches its counters.
proof fn lemma_sum_effective_counts(v: StoreView, k: int)
    requires
        v.wf(),
        0 <= k <= v.segs.len(),
    ensures
        sum_effective(v.segs.take(k)) == sum_counts(
            v.entries,
            v.segs.take(k).map_values(|sg: SegV| sg.id),
        ),
    decreases k,
{
    if k > 0 {
        lemma_sum_effective_counts(v, k - 1);
        assert(v.segs.take(k).drop_last() =~= v.segs.take(k - 1));
        assert(v.segs.take(k).map_values(|sg: SegV| sg.id).drop_last() =~= v.segs.take(
            k - 1,
        ).map_values(|sg: SegV| sg.id));
        assert(v.seg_count_ok(k - 1));
        assert(v.segs.take(k)[k - 1] == v.segs[k - 1]);
    }
}

/// The sum of `effective_len` over all segments of a well-formed store
/// equals the size of the index.
pub proof fn lemma_sum_effective_is_index_len(v: StoreView)
    requires
        v.wf(),
    ensures
        sum_effective(v.segs) == v.entries.len(),
{
    let ids = v.segs.map_values(|sg: SegV| sg.id);
    lemma_sum_effective_counts(v, v.segs.len() as int);
    assert(v.segs.take(v.segs.len() as int) =~= v.segs);
    assert forall|j: int| 0 <= j < v.entries.len() implies occurrences(
        ids,
        (#[trigger] v.entries[j].loc).segment,
    ) == 1 by {
        crate::store::lemma_entries_bounded(v);
        let sid = v.entries[j].loc.segment;
        let p = v.seg_pos(sid);
        assert(v.segs[p].id == sid);
        lemma_occurrences_unique(v, ids, sid, p);
    }
    lemma_sum_counts_entries(v.entries, ids);
}

/// Among strictly ascending segment ids, an id that is present occurs
/// exactly once.
proof fn lemma_occurrences_unique(v: StoreView, ids: Seq<u64>, sid: u64, p: int)
    requires
        forall|i: int, j: int|
            0 <= i < j < v.segs.len() ==> (#[trigger] v.segs[i].id) < (#[trigger] v.segs[j].id),
        ids == v.segs.map_values(|sg: SegV| sg.id),
        0 <= p < v.segs.len(),
        v.segs[p].id == sid,
    ensures
        occurrences(ids, sid) == 1,
{
    lemma_occurrences_split(v, ids, sid, p, v.segs.len() as int);
    assert(ids.take(v.segs.len() as int) =~= ids);
}

/// Counting occurrences over a prefix of the ids: one if the witness
/// position has been passed, none otherwise.
proof fn lemma_occurrences_split(v: StoreView, ids: Seq<u64>, sid: u64, p: int, k: int)
    requires
        forall|i: int, j: int|
            0 <= i < j < v.segs.len() ==> (#[trigger] v.segs[i].id) < (#[trigger] v.segs[j].id),
        ids == v.segs.map_values(|sg: SegV| sg.id),
        0 <= p < v.segs.len(),
        v.segs[p].id == sid,
        0 <= k <= ids.len(),
    ensures
        occurrences(ids.take(k), sid) == (if p < k {
            1int
        } else {
            0int
        }),
    decreases k,
{
    if k > 0 {
        lemma_occurrences_split(v, ids, sid, p, k - 1);
        assert(ids.take(k).drop_last() =~= ids.take(k - 1));
        assert(ids.take(k).last() == v.segs[k - 1].id);
        if k - 1 != p {
            if k - 1 < p {
                assert(v.segs[k - 1].id < v.segs[p].id);
            } else {
                assert(v.segs[p].id < v.segs[k - 1].id);
            }
        }
    } else {
        assert(ids.take(0) =~= Seq::<u64>::empty());
    }
}

/// After close and reopen, every key reads back as before: opening the
/// files of a well-formed, durable store succeeds and rebuilds a store
/// with the same contents. `open` ensures `durable`, and `set` and
/// `remove` ensure they preserve it whenever no compaction fires, so the
/// hypothesis holds of any store reached from `open` by compaction-free
/// writes.
pub proof fn lemma_reopen_same_model(v: StoreView, r: Result<KvStore, KvsError>)
    requires
        v.wf(),
        durable(v),
        open_post(r, files_of(v), v.max_records, v.threshold),
    ensures
        r is Ok,
        r matches Ok(st) ==> st@.model() == v.model(),
{
    let fs = files_of(v);
    assert forall|i: int, j: int| 0 <= i < j < fs.len() implies (#[trigger] fs[i]).id < (
    #[trigger] fs[j]).id by {
        assert(v.segs[i].id < v.segs[j].id);
    }
    lemma_sort_files_sorted(fs);
    assert(sort_files(fs) == fs);
    assert forall|i: int| 0 <= i < fs.len() implies (#[trigger] fs[i]).id >= 1
        && seg_records(fs[i].data) is Some by {
        assert(v.seg_base_ok(i));
    }
    assert forall|i: int| 0 <= i < fs.len() implies (seg_records((#[trigger] fs[i]).data)
        matches Some(rs) && rs.len() <= v.max_records) by {
        assert(v.seg_base_ok(i));
    }
    assert(crate::store::files_ids_ok(fs));
    assert(crate::store::files_parse_ok(fs));
    assert(crate::store::files_fit(fs, v.max_records));
    assert(r is Ok);
    let st = r.unwrap();
    assert(st@.index() == rindex_files(fs));
    assert(st@.index() == v.index());
    if fs.len() > 0 {
        assert forall|id: u64| #[trigger] v.has_seg(id) implies st@.has_seg(id) && st@.seg_at(
            id,
        ).data == v.seg_at(id).data by {
            let p = v.seg_pos(id);
            assert(v.segs[p].id == id);
            assert(st@.segs[p].id == id && st@.segs[p].data == v.segs[p].data);
            lemma_seg_pos_unique(st@, p, id);
            lemma_seg_pos_unique(v, p, id);
        }
        assert(st@.model() =~= v.model()) by {
            assert forall|k: Seq<u8>| #[trigger] v.index().dom().contains(k) implies st@.value_at(
                k,
            ) == v.value_at(k) by {
                assert(v.entry_ok(k));
                let e = v.index()[k];
                assert(st@.seg_at(e.segment).data == v.seg_at(e.segment).data);
            }
        }
    } else {
        assert(v.index() =~= Map::<Seq<u8>, crate::index::ValueIndex>::empty()) by {
            if v.index().dom() =~= Set::<Seq<u8>>::empty() {
            } else {
                let k = v.index().dom().choose();
                assert(v.index().dom().contains(k));
                assert(v.entry_ok(k));
                let p = v.seg_pos(v.index()[k].segment);
                assert(0 <= p < v.segs.len());
            }
        }
        assert(st@.model() =~= v.model());
    }
}

} // verus!
