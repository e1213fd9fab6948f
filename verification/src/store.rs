//! The storage engine: log-segment lifecycle, index maintenance, garbage
//! accounting, recovery and compaction.
//!
//! The store keeps every segment's bytes in memory and treats the on-disk
//! files as a mirror: every mutation appends [`DiskOp`]s to a journal that
//! a caller drains and replays against the file system. Reopening from the
//! mirrored files goes through [`KvStore::open`].

use vstd::prelude::*;

use crate::codec::Command;
use crate::codec::CommandV;
use crate::codec::RecAt;
use crate::codec::enc;
use crate::codec::parse_at;
use crate::codec::records_from;
use crate::codec::seg_records;
use crate::counter::LengthCount;
use crate::error::KvsError;
use crate::index::Index;
use crate::index::IndexEntry;
use crate::index::ValueIndex;
use crate::index::assoc_map;
use crate::index::count_in_segment;
use crate::index::unique_keys;

verus! {

/// Default cap on the number of records one segment file may hold.
pub const MAX_RECORDS_PER_SEGMENT: usize = 10240;

/// Default compaction threshold: a segment whose garbage rate exceeds
/// this many thousandths is compacted.
pub const COMPACTION_THRESHOLD_PERMILLE: u64 = 618;

/// The contents of one segment file handed to [`KvStore::open`].
pub struct SegmentFile {
    /// The segment id the file name denotes.
    pub id: u64,
    /// The file's bytes.
    pub data: Vec<u8>,
}

/// The mathematical form of a [`SegmentFile`].
pub ghost struct SegFileV {
    pub id: u64,
    pub data: Seq<u8>,
}

impl View for SegmentFile {
    type V = SegFileV;

    open spec fn view(&self) -> SegFileV {
        SegFileV { id: self.id, data: self.data@ }
    }
}

/// One change to the mirrored segment files.
#[derive(Debug)]
pub enum DiskOp {
    /// Create an empty file for segment `segment`.
    Create { segment: u64 },
    /// Append `bytes` to the file of segment `segment` and flush.
    Append { segment: u64, bytes: Vec<u8> },
    /// Delete the file of segment `segment`.
    Delete { segment: u64 },
}

/// The mathematical form of a [`DiskOp`].
pub ghost enum DiskOpV {
    Create { segment: u64 },
    Append { segment: u64, bytes: Seq<u8> },
    Delete { segment: u64 },
}

impl View for DiskOp {
    type V = DiskOpV;

    open spec fn view(&self) -> DiskOpV {
        match self {
            DiskOp::Create { segment } => DiskOpV::Create { segment: *segment },
            DiskOp::Append { segment, bytes } => DiskOpV::Append {
                segment: *segment,
                bytes: bytes@,
            },
            DiskOp::Delete { segment } => DiskOpV::Delete { segment: *segment },
        }
    }
}

/// What one disk operation does to the mirrored files.
pub open spec fn apply_op(d: Map<u64, Seq<u8>>, op: DiskOpV) -> Map<u64, Seq<u8>> {
    match op {
        DiskOpV::Create { segment } => d.insert(segment, Seq::empty()),
        DiskOpV::Append { segment, bytes } => d.insert(segment, d[segment] + bytes),
        DiskOpV::Delete { segment } => d.remove(segment),
    }
}

/// What a sequence of disk operations does to the mirrored files.
pub open spec fn apply_ops(d: Map<u64, Seq<u8>>, ops: Seq<DiskOpV>) -> Map<u64, Seq<u8>>
    decreases ops.len(),
{
    if ops.len() == 0 {
        d
    } else {
        apply_op(apply_ops(d, ops.drop_last()), ops.last())
    }
}

/// One in-memory segment: its id, its bytes, and its record counters.
struct Segment {
    id: u64,
    data: Vec<u8>,
    counts: LengthCount,
}

/// The mathematical form of a segment.
pub ghost struct SegV {
    pub id: u64,
    pub data: Seq<u8>,
    pub counts: LengthCount,
}

impl View for Segment {
    type V = SegV;

    closed spec fn view(&self) -> SegV {
        SegV { id: self.id, data: self.data@, counts: self.counts }
    }
}

/// The mathematical form of the whole store.
#[verifier::ext_equal]
pub ghost struct StoreView {
    /// The segments, in ascending id order; the last one is active.
    pub segs: Seq<SegV>,
    /// The index entries behind the key-to-location map.
    pub entries: Seq<IndexEntry>,
    /// The active segment id.
    pub term: u64,
    /// How many records the active segment holds.
    pub count: usize,
    /// The cap on records per segment.
    pub max_records: usize,
    /// The compaction threshold, in thousandths.
    pub threshold: u64,
    /// Disk operations not yet drained by the caller.
    pub journal: Seq<DiskOpV>,
}

impl StoreView {
    /// The key-to-location map.
    pub open spec fn index(self) -> Map<Seq<u8>, ValueIndex> {
        assoc_map(self.entries)
    }

    /// Whether a segment with id `id` exists.
    pub open spec fn has_seg(self, id: u64) -> bool {
        exists|i: int| 0 <= i < self.segs.len() && self.segs[i].id == id
    }

    /// The position of the segment with id `id`.
    pub open spec fn seg_pos(self, id: u64) -> int {
        choose|i: int| 0 <= i < self.segs.len() && self.segs[i].id == id
    }

    /// The segment with id `id`.
    pub open spec fn seg_at(self, id: u64) -> SegV {
        self.segs[self.seg_pos(id)]
    }

    /// The mirrored files: each segment id to its bytes.
    pub open spec fn disk(self) -> Map<u64, Seq<u8>> {
        Map::new(|id: u64| self.has_seg(id), |id: u64| self.seg_at(id).data)
    }

    /// The value bytes a command carries.
    pub open spec fn value_of(c: CommandV) -> Seq<u8> {
        match c {
            CommandV::Put { value, .. } => value,
            CommandV::Rm { .. } => Seq::empty(),
        }
    }

    /// The current value of a bound key: the value of the record its index
    /// entry points at.
    pub open spec fn value_at(self, k: Seq<u8>) -> Seq<u8> {
        Self::value_of(parse_at(self.seg_at(self.index()[k].segment).data, self.index()[k].head as int).unwrap().0)
    }

    /// The store as a plain key-to-value map.
    pub open spec fn model(self) -> Map<Seq<u8>, Seq<u8>> {
        Map::new(|k: Seq<u8>| self.index().dom().contains(k), |k: Seq<u8>| self.value_at(k))
    }

    /// Structural facts about one segment that hold regardless of the
    /// index: id range, counter sanity, and a cleanly decodable record
    /// stream of exactly `counts.len` records.
    pub open spec fn seg_base_ok(self, i: int) -> bool {
        let sg = self.segs[i];
        &&& 1 <= sg.id <= self.term
        &&& sg.counts.len_garbage <= sg.counts.len
        &&& sg.counts.len <= self.max_records
        &&& seg_records(sg.data) matches Some(rs) && rs.len() == sg.counts.len
    }

    /// The garbage accounting of one segment agrees with the index: its
    /// live records are exactly the index entries pointing into it.
    pub open spec fn seg_count_ok(self, i: int) -> bool {
        let sg = self.segs[i];
        count_in_segment(self.entries, sg.id) == sg.counts.len - sg.counts.len_garbage
    }

    /// One index entry points at a whole `Put` record, for its own key, on
    /// a record boundary of an existing segment.
    pub open spec fn entry_ok(self, k: Seq<u8>) -> bool {
        let e = self.index()[k];
        &&& self.has_seg(e.segment)
        &&& (parse_at(self.seg_at(e.segment).data, e.head as int) matches Some((c, t)) && t
            == e.tail as int && (c matches CommandV::Put { key, .. } && key == k))
        &&& exists|j: int|
            0 <= j < seg_records(self.seg_at(e.segment).data).unwrap().len()
                && (#[trigger] seg_records(self.seg_at(e.segment).data).unwrap()[j]).head
                == e.head as int && seg_records(self.seg_at(e.segment).data).unwrap()[j].tail
                == e.tail as int
    }

    /// Well-formedness, with the garbage accounting of at most one segment
    /// (`ex`) allowed to be stale; compaction drains that segment before
    /// deleting it.
    pub open spec fn wf_except(self, ex: Option<u64>) -> bool {
        &&& self.max_records >= 1
        &&& self.term >= 1
        &&& self.count <= self.max_records
        &&& unique_keys(self.entries)
        &&& forall|i: int, j: int|
            0 <= i < j < self.segs.len() ==> (#[trigger] self.segs[i].id)
                < (#[trigger] self.segs[j].id)
        &&& forall|i: int| 0 <= i < self.segs.len() ==> self.seg_base_ok(i)
        &&& forall|i: int|
            0 <= i < self.segs.len() ==> (Some((#[trigger] self.segs[i]).id) == ex
                || self.seg_count_ok(i))
        &&& (if self.has_seg(self.term) {
            self.segs.len() > 0 && self.segs.last().id == self.term && self.segs.last().counts.len
                == self.count
        } else {
            self.count == self.max_records
        })
        &&& forall|k: Seq<u8>| #[trigger] self.index().dom().contains(k) ==> self.entry_ok(k)
    }

    /// Well-formedness: what holds of the store after every completed
    /// public operation.
    pub open spec fn wf(self) -> bool {
        self.wf_except(None)
    }
}

/// Whether `new` only appended journal entries to `old`, and the appended
/// entries replay `old`'s mirrored files into `new`'s.
pub open spec fn journal_delta_ok(v0: StoreView, v1: StoreView) -> bool {
    &&& v0.journal.len() <= v1.journal.len()
    &&& v1.journal.take(v0.journal.len() as int) == v0.journal
    &&& apply_ops(v0.disk(), v1.journal.skip(v0.journal.len() as int)) == v1.disk()
}

/// Applying concatenated operation lists applies them in turn.
pub proof fn lemma_apply_ops_concat(d: Map<u64, Seq<u8>>, s: Seq<DiskOpV>, t: Seq<DiskOpV>)
    ensures
        apply_ops(d, s + t) == apply_ops(apply_ops(d, s), t),
    decreases t.len(),
{
    if t.len() == 0 {
        assert(s + t =~= s);
    } else {
        lemma_apply_ops_concat(d, s, t.drop_last());
        assert((s + t).drop_last() =~= s + t.drop_last());
        assert((s + t).last() == t.last());
    }
}


/// Applying a single operation.
pub proof fn lemma_apply_ops_one(d: Map<u64, Seq<u8>>, op: DiskOpV)
    ensures
        apply_ops(d, seq![op]) == apply_op(d, op),
{
    assert(seq![op].drop_last() =~= Seq::<DiskOpV>::empty());
    assert(apply_ops(d, seq![op].drop_last()) == d);
}

/// The journal-delta relation is reflexive: no new operations, no change
/// to the mirrored files.
pub proof fn lemma_delta_refl(v: StoreView)
    ensures
        journal_delta_ok(v, v),
{
    assert(v.journal.take(v.journal.len() as int) =~= v.journal);
    assert(v.journal.skip(v.journal.len() as int) =~= Seq::<DiskOpV>::empty());
    assert(apply_ops(v.disk(), Seq::<DiskOpV>::empty()) == v.disk());
}

/// The journal-delta relation composes.
pub proof fn lemma_delta_trans(a: StoreView, b: StoreView, c: StoreView)
    requires
        journal_delta_ok(a, b),
        journal_delta_ok(b, c),
    ensures
        journal_delta_ok(a, c),
{
    let n0 = a.journal.len() as int;
    let n1 = b.journal.len() as int;
    assert(c.journal.take(n0) =~= a.journal) by {
        assert forall|i: int| 0 <= i < n0 implies c.journal[i] == a.journal[i] by {
            assert(c.journal.take(n1)[i] == b.journal[i]);
            assert(b.journal.take(n0)[i] == a.journal[i]);
        }
    }
    let s = b.journal.skip(n0);
    let t = c.journal.skip(n1);
    assert(c.journal.skip(n0) =~= s + t) by {
        assert forall|i: int| 0 <= i < c.journal.len() - n0 implies c.journal.skip(n0)[i] == (s
            + t)[i] by {
            if i < n1 - n0 {
                assert(c.journal.take(n1)[n0 + i] == b.journal[n0 + i]);
            }
        }
    }
    lemma_apply_ops_concat(a.disk(), s, t);
}

/// A segment id occurs at one position at most.
pub proof fn lemma_seg_pos_unique(v: StoreView, p: int, id: u64)
    requires
        forall|i: int, j: int|
            0 <= i < j < v.segs.len() ==> (#[trigger] v.segs[i].id) < (#[trigger] v.segs[j].id),
        0 <= p < v.segs.len(),
        v.segs[p].id == id,
    ensures
        v.has_seg(id),
        v.seg_pos(id) == p,
        v.seg_at(id) == v.segs[p],
{
    assert(v.has_seg(id));
    let q = v.seg_pos(id);
    if q != p {
        if q < p {
            assert(v.segs[q].id < v.segs[p].id);
        } else {
            assert(v.segs[p].id < v.segs[q].id);
        }
    }
}


/// Replacing one segment by a segment with the same id moves nothing else.
pub proof fn lemma_update_seg(v0: StoreView, v1: StoreView, p: int, n: SegV)
    requires
        forall|i: int, j: int|
            0 <= i < j < v0.segs.len() ==> (#[trigger] v0.segs[i].id) < (#[trigger] v0.segs[j].id),
        0 <= p < v0.segs.len(),
        v1.segs == v0.segs.update(p, n),
        n.id == v0.segs[p].id,
    ensures
        forall|i: int, j: int|
            0 <= i < j < v1.segs.len() ==> (#[trigger] v1.segs[i].id) < (#[trigger] v1.segs[j].id),
        forall|id: u64| #[trigger] v1.has_seg(id) <==> v0.has_seg(id),
        forall|id: u64|
            #[trigger] v0.has_seg(id) && id != n.id ==> v1.seg_at(id) == v0.seg_at(id),
        v0.has_seg(n.id) && v1.has_seg(n.id) && v1.seg_at(n.id) == n,
        v1.seg_pos(n.id) == p,
{
    assert forall|i: int, j: int| 0 <= i < j < v1.segs.len() implies (#[trigger] v1.segs[i].id)
        < (#[trigger] v1.segs[j].id) by {
        assert(v0.segs[i].id < v0.segs[j].id);
    }
    lemma_seg_pos_unique(v0, p, n.id);
    lemma_seg_pos_unique(v1, p, n.id);
    assert forall|id: u64| #[trigger] v1.has_seg(id) implies v0.has_seg(id) by {
        let q = v1.seg_pos(id);
        if q == p {
            assert(v0.segs[p].id == id);
        } else {
            assert(v0.segs[q].id == id);
        }
    }
    assert forall|id: u64| #[trigger] v0.has_seg(id) implies v1.has_seg(id) by {
        let q = v0.seg_pos(id);
        if q == p {
            assert(v1.segs[p].id == id);
        } else {
            assert(v1.segs[q].id == id);
        }
    }
    assert forall|id: u64| #[trigger] v0.has_seg(id) && id != n.id implies v1.seg_at(id)
        == v0.seg_at(id) by {
        let q = v0.seg_pos(id);
        assert(v0.segs[q].id == id);
        assert(q != p);
        assert(v1.segs[q].id == id);
        lemma_seg_pos_unique(v1, q, id);
    }
}

/// A log-structured, persistent key-value store over byte-string keys and
/// values.
pub struct KvStore {
    segments: Vec<Segment>,
    index: Index,
    term: u64,
    current_log_len: usize,
    max_records: usize,
    threshold: u64,
    journal: Vec<DiskOp>,
}

/// Appending a segment with a fresh, larger id leaves every existing
/// segment where it was.
pub proof fn lemma_push_seg(v0: StoreView, v1: StoreView, n: SegV)
    requires
        v1.segs == v0.segs.push(n),
        forall|i: int, j: int|
            0 <= i < j < v0.segs.len() ==> (#[trigger] v0.segs[i].id) < (#[trigger] v0.segs[j].id),
        forall|i: int| 0 <= i < v0.segs.len() ==> (#[trigger] v0.segs[i].id) < n.id,
    ensures
        forall|id: u64|
            #[trigger] v0.has_seg(id) ==> v1.has_seg(id) && v1.seg_at(id) == v0.seg_at(id),
        forall|id: u64| #[trigger] v1.has_seg(id) <==> v0.has_seg(id) || id == n.id,
        v1.has_seg(n.id) && v1.seg_at(n.id) == n,
        forall|i: int, j: int|
            0 <= i < j < v1.segs.len() ==> (#[trigger] v1.segs[i].id) < (#[trigger] v1.segs[j].id),
{
    assert forall|i: int, j: int| 0 <= i < j < v1.segs.len() implies (#[trigger] v1.segs[i].id)
        < (#[trigger] v1.segs[j].id) by {
        if j < v0.segs.len() {
            assert(v0.segs[i].id < v0.segs[j].id);
        } else {
            assert(v0.segs[i].id < n.id);
        }
    }
    lemma_seg_pos_unique(v1, v1.segs.len() - 1, n.id);
    assert forall|id: u64| #[trigger] v0.has_seg(id) implies v1.has_seg(id) && v1.seg_at(id)
        == v0.seg_at(id) by {
        let p = v0.seg_pos(id);
        assert(v0.segs[p].id == id);
        assert(v1.segs[p] == v0.segs[p]);
        lemma_seg_pos_unique(v1, p, id);
        lemma_seg_pos_unique(v0, p, id);
    }
    assert forall|id: u64| #[trigger] v1.has_seg(id) implies v0.has_seg(id) || id == n.id by {
        let p = v1.seg_pos(id);
        if p < v0.segs.len() {
            assert(v0.segs[p].id == id);
        }
    }
}

impl View for KvStore {
    type V = StoreView;

    closed spec fn view(&self) -> StoreView {
        StoreView {
            segs: self.segments@.map_values(|sg: Segment| sg@),
            entries: self.index.entries_view(),
            term: self.term,
            count: self.current_log_len,
            max_records: self.max_records,
            threshold: self.threshold,
            journal: self.journal@.map_values(|op: DiskOp| op@),
        }
    }
}



/// Every index entry points into an existing segment, whose id is at most
/// the active term.
pub proof fn lemma_entries_bounded(v: StoreView)
    requires
        unique_keys(v.entries),
        forall|k: Seq<u8>| #[trigger] v.index().dom().contains(k) ==> v.entry_ok(k),
        forall|i: int| 0 <= i < v.segs.len() ==> v.seg_base_ok(i),
    ensures
        forall|j: int|
            0 <= j < v.entries.len() ==> v.has_seg((#[trigger] v.entries[j].loc).segment)
                && v.entries[j].loc.segment <= v.term,
{
    assert forall|j: int| 0 <= j < v.entries.len() implies v.has_seg(
        (#[trigger] v.entries[j].loc).segment,
    ) && v.entries[j].loc.segment <= v.term by {
        crate::index::lemma_assoc_get(v.entries, j);
        let k = v.entries[j].key@;
        assert(v.index().dom().contains(k));
        assert(v.entry_ok(k));
        let e = v.index()[k];
        assert(e == v.entries[j].loc);
        let p = v.seg_pos(e.segment);
        assert(v.seg_base_ok(p));
    }
}

/// No index entry of a well-formed store points into a segment whose id is
/// above the active term.
proof fn lemma_count_absent_above(v: StoreView, newid: u64)
    requires
        unique_keys(v.entries),
        forall|k: Seq<u8>| #[trigger] v.index().dom().contains(k) ==> v.entry_ok(k),
        forall|i: int| 0 <= i < v.segs.len() ==> v.seg_base_ok(i),
        newid > v.term,
    ensures
        count_in_segment(v.entries, newid) == 0,
{
    lemma_entries_bounded(v);
    crate::index::lemma_count_absent(v.entries, newid);
}

impl KvStore {
    /// Find the position of the segment with id `id` in the segment list.
    fn find_pos(&self, id: u64) -> (r: Option<usize>)
        ensures
            r matches Some(p) ==> p < self@.segs.len() && self@.segs[p as int].id == id,
            r is None ==> !self@.has_seg(id),
    {
        let n = self.segments.len();
        let mut i: usize = 0;
        while i < n
            invariant
                n == self@.segs.len(),
                0 <= i <= n,
                forall|j: int| 0 <= j < i ==> (#[trigger] self@.segs[j].id) != id,
            decreases n - i,
        {
            if self.segments[i].id == id {
                return Some(i);
            }
            i = i + 1;
        }
        None
    }

    /// Close the active segment and start a new one with the next id.
    fn rotate(&mut self, Ghost(ex): Ghost<Option<u64>>)
        requires
            old(self)@.wf_except(ex),
            old(self)@.term < u64::MAX,
        ensures
            final(self)@.wf_except(ex),
            final(self)@.entries == old(self)@.entries,
            final(self)@.term == old(self)@.term + 1,
            final(self)@.count == 0,
            final(self)@.max_records == old(self)@.max_records,
            final(self)@.threshold == old(self)@.threshold,
            final(self)@.segs == old(self)@.segs.push(
                SegV {
                    id: (old(self)@.term + 1) as u64,
                    data: Seq::empty(),
                    counts: (LengthCount { len: 0, len_garbage: 0 }),
                },
            ),
            final(self)@.journal == old(self)@.journal.push(
                DiskOpV::Create { segment: (old(self)@.term + 1) as u64 },
            ),
            journal_delta_ok(old(self)@, final(self)@),
            final(self)@.model() == old(self)@.model(),
            final(self)@.has_seg(final(self)@.term),
            forall|id: u64|
                #[trigger] old(self)@.has_seg(id) ==> final(self)@.has_seg(id) && final(self)@.seg_at(id)
                    == old(self)@.seg_at(id),
    {
        let ghost v0 = self@;
        self.term = self.term + 1;
        let newid = self.term;
        let seg = Segment { id: newid, data: Vec::new(), counts: LengthCount::new() };
        self.segments.push(seg);
        self.current_log_len = 0;
        self.journal.push(DiskOp::Create { segment: newid });
        proof {
            let v1 = self@;
            let n = SegV {
                id: newid,
                data: Seq::empty(),
                counts: (LengthCount { len: 0, len_garbage: 0 }),
            };
            assert(v1.segs =~= v0.segs.push(n));
            assert(v1.journal =~= v0.journal.push(DiskOpV::Create { segment: newid }));
            assert forall|i: int| 0 <= i < v0.segs.len() implies (#[trigger] v0.segs[i].id)
                < n.id by {
                assert(v0.seg_base_ok(i));
            }
            lemma_push_seg(v0, v1, n);
            lemma_count_absent_above(v0, newid);
            assert(seg_records(Seq::<u8>::empty()) == Some(Seq::<RecAt>::empty()));
            assert forall|i: int| 0 <= i < v1.segs.len() implies v1.seg_base_ok(i) by {
                if i < v0.segs.len() {
                    assert(v0.seg_base_ok(i));
                }
            }
            assert forall|i: int| 0 <= i < v1.segs.len() implies (Some(
                (#[trigger] v1.segs[i]).id,
            ) == ex || v1.seg_count_ok(i)) by {
                if i < v0.segs.len() {
                    assert(Some(v0.segs[i].id) == ex || v0.seg_count_ok(i));
                } else {
                    assert(count_in_segment(v1.entries, newid) == 0);
                }
            }
            lemma_seg_pos_unique(v1, v1.segs.len() - 1, newid);
            assert forall|k: Seq<u8>| #[trigger] v1.index().dom().contains(k) implies v1.entry_ok(
                k,
            ) by {
                assert(v0.index().dom().contains(k));
                assert(v0.entry_ok(k));
                let e = v0.index()[k];
                assert(v1.seg_at(e.segment) == v0.seg_at(e.segment));
            }
            assert(v1.wf_except(ex));
            assert(v1.model() =~= v0.model()) by {
                assert forall|k: Seq<u8>| #[trigger] v0.index().dom().contains(k) implies
                    v1.value_at(k) == v0.value_at(k) by {
                    assert(v0.entry_ok(k));
                    let e = v0.index()[k];
                    assert(v1.seg_at(e.segment) == v0.seg_at(e.segment));
                }
            }
            assert(v1.journal.take(v0.journal.len() as int) =~= v0.journal);
            let delta = v1.journal.skip(v0.journal.len() as int);
            assert(delta =~= seq![DiskOpV::Create { segment: newid }]);
            lemma_apply_ops_one(v0.disk(), DiskOpV::Create { segment: newid });
            assert(v1.disk() =~= v0.disk().insert(newid, Seq::empty()));
        }
    }
}

impl KvStore {
    /// Retrieve the value bound to `key`, if any: seek to the index
    /// entry's byte range and decode the record found there.
    pub fn get(&self, key: &Vec<u8>) -> (r: Result<Option<Vec<u8>>, KvsError>)
        requires
            self@.wf(),
        ensures
            r matches Ok(ov) && (if self@.model().dom().contains(key@) {
                ov matches Some(v) && v@ == self@.model()[key@]
            } else {
                ov is None
            }),
    {
        let e = match self.index.get(key) {
            Some(e) => e,
            None => {
                return Ok(None);
            },
        };
        proof {
            assert(self@.index().dom().contains(key@));
            assert(self@.entry_ok(key@));
        }
        let p = match self.find_pos(e.segment) {
            Some(p) => p,
            None => {
                proof {
                    assert(false);
                }
                return Err(KvsError::Codec);
            },
        };
        proof {
            lemma_seg_pos_unique(self@, p as int, e.segment);
            crate::codec::lemma_parse_at_bounds(self@.segs[p as int].data, e.head as int);
        }
        let buf = crate::codec::copy_range(&self.segments[p].data, e.head, e.tail);
        proof {
            crate::codec::lemma_parse_subrange(self@.segs[p as int].data, e.head as int, e.tail as int);
        }
        match crate::codec::decode_at(&buf, 0) {
            Some((Command::Put { key: _, value }, _)) => Ok(Some(value)),
            _ => {
                proof {
                    assert(false);
                }
                Err(KvsError::Codec)
            },
        }
    }

    /// Append one encoded record to the active segment, report the byte
    /// range it occupies, and journal the disk append.
    fn append_record(&mut self, cmd: &Command) -> (r: (usize, usize))
        requires
            old(self)@.segs.len() > 0,
            old(self)@.segs.last().id == old(self)@.term,
        ensures
            ({
                let v0 = old(self)@;
                let v1 = final(self)@;
                let e = enc(cmd@);
                &&& r.0 == v0.segs.last().data.len()
                &&& r.1 == r.0 + e.len()
                &&& v1.segs == v0.segs.update(
                    v0.segs.len() - 1,
                    SegV {
                        id: v0.term,
                        data: v0.segs.last().data + e,
                        counts: v0.segs.last().counts,
                    },
                )
                &&& v1.entries == v0.entries
                &&& v1.term == v0.term
                &&& v1.count == v0.count
                &&& v1.max_records == v0.max_records
                &&& v1.threshold == v0.threshold
                &&& v1.journal == v0.journal.push(DiskOpV::Append { segment: v0.term, bytes: e })
            }),
    {
        let ghost v0 = self@;
        let n = self.segments.len();
        let mut seg = match self.segments.pop() {
            Some(seg) => seg,
            None => {
                proof {
                    assert(false);
                }
                unreached()
            },
        };
        let head = seg.data.len();
        let mut bytes = crate::codec::encode(cmd);
        seg.data.append(&mut bytes);
        let tail = seg.data.len();
        self.segments.push(seg);
        let journal_bytes = crate::codec::encode(cmd);
        self.journal.push(DiskOp::Append { segment: self.term, bytes: journal_bytes });
        proof {
            let v1 = self@;
            let e = enc(cmd@);
            assert(v1.segs =~= v0.segs.update(
                v0.segs.len() - 1,
                SegV { id: v0.term, data: v0.segs.last().data + e, counts: v0.segs.last().counts },
            ));
            assert(v1.journal =~= v0.journal.push(
                DiskOpV::Append { segment: v0.term, bytes: e },
            ));
        }
        (head, tail)
    }
}


impl KvStore {
    /// Adjust one segment's record counters.
    fn bump_counts(&mut self, p: usize, dl: usize, dg: usize)
        requires
            p < old(self)@.segs.len(),
            old(self)@.segs[p as int].counts.len + dl <= usize::MAX,
            old(self)@.segs[p as int].counts.len_garbage + dg <= usize::MAX,
        ensures
            final(self)@.segs == old(self)@.segs.update(
                p as int,
                SegV {
                    id: old(self)@.segs[p as int].id,
                    data: old(self)@.segs[p as int].data,
                    counts: (LengthCount {
                        len: (old(self)@.segs[p as int].counts.len + dl) as usize,
                        len_garbage: (old(self)@.segs[p as int].counts.len_garbage + dg) as usize,
                    }),
                },
            ),
            final(self)@.entries == old(self)@.entries,
            final(self)@.term == old(self)@.term,
            final(self)@.count == old(self)@.count,
            final(self)@.max_records == old(self)@.max_records,
            final(self)@.threshold == old(self)@.threshold,
            final(self)@.journal == old(self)@.journal,
    {
        let ghost v0 = self@;
        let c = self.segments[p].counts;
        let c2 = LengthCount { len: c.len + dl, len_garbage: c.len_garbage + dg };
        self.segments[p].counts = c2;
        proof {
            assert(self@.segs =~= v0.segs.update(
                p as int,
                SegV { id: v0.segs[p as int].id, data: v0.segs[p as int].data, counts: c2 },
            ));
        }
    }

}

/// What the counter updates of one write do to the segment list, given
/// where the key previously pointed.
pub open spec fn bumped_segs(va: StoreView, old_loc: Option<ValueIndex>) -> Seq<SegV> {
    let ap = va.segs.len() - 1;
    let a = va.segs[ap];
    match old_loc {
        None => va.segs.update(
            ap,
            SegV {
                id: a.id,
                data: a.data,
                counts: (LengthCount {
                    len: (a.counts.len + 1) as usize,
                    len_garbage: a.counts.len_garbage,
                }),
            },
        ),
        Some(e) => if e.segment == va.term {
            va.segs.update(
                ap,
                SegV {
                    id: a.id,
                    data: a.data,
                    counts: (LengthCount {
                        len: (a.counts.len + 1) as usize,
                        len_garbage: (a.counts.len_garbage + 1) as usize,
                    }),
                },
            )
        } else {
            let op = va.seg_pos(e.segment);
            let o = va.segs[op];
            va.segs.update(
                op,
                SegV {
                    id: o.id,
                    data: o.data,
                    counts: (LengthCount {
                        len: o.counts.len,
                        len_garbage: (o.counts.len_garbage + 1) as usize,
                    }),
                },
            ).update(
                ap,
                SegV {
                    id: a.id,
                    data: a.data,
                    counts: (LengthCount {
                        len: (a.counts.len + 1) as usize,
                        len_garbage: a.counts.len_garbage,
                    }),
                },
            )
        },
    }
}

/// The heart of the write path: appending one `Put` record to the active
/// segment, adjusting the counters for the superseded record, and
/// rebinding the key preserves well-formedness, and changes the model by
/// exactly that one binding.
#[verifier::rlimit(100)]
proof fn lemma_set_finish(
    vr: StoreView,
    va: StoreView,
    v1: StoreView,
    key: Seq<u8>,
    value: Seq<u8>,
    head: usize,
    tail: usize,
    ex: Option<u64>,
    old_loc: Option<ValueIndex>,
)
    requires
        vr.wf_except(ex),
        vr.segs.len() > 0,
        vr.segs.last().id == vr.term,
        vr.count < vr.max_records,
        va.segs == vr.segs.update(
            vr.segs.len() - 1,
            SegV {
                id: vr.term,
                data: vr.segs.last().data + enc(CommandV::Put { key, value }),
                counts: vr.segs.last().counts,
            },
        ),
        va.entries == vr.entries && va.term == vr.term && va.count == vr.count && va.max_records
            == vr.max_records && va.threshold == vr.threshold,
        head == vr.segs.last().data.len(),
        tail == head + enc(CommandV::Put { key, value }).len(),
        key.len() < crate::codec::pow10(crate::codec::LEN_WIDTH as nat),
        value.len() < crate::codec::pow10(crate::codec::LEN_WIDTH as nat),
        old_loc == (if vr.index().dom().contains(key) {
            Some(vr.index()[key])
        } else {
            None
        }),
        ex matches Some(tc) ==> old_loc is None && tc != vr.term,
        v1.segs == bumped_segs(va, old_loc),
        v1.term == va.term && v1.count == va.count + 1 && v1.max_records == va.max_records
            && v1.threshold == va.threshold,
        unique_keys(v1.entries),
        v1.index() == va.index().insert(key, (ValueIndex { segment: vr.term, head, tail })),
        ({
            let loc = ValueIndex { segment: vr.term, head, tail };
            if vr.index().dom().contains(key) {
                exists|j: int, e1: IndexEntry|
                    0 <= j < va.entries.len() && va.entries[j].key@ == key && e1.key@ == key
                        && e1.loc == loc && v1.entries == (#[trigger] va.entries.update(j, e1))
            } else {
                exists|e1: IndexEntry|
                    (#[trigger] e1.loc) == loc && e1.key@ == key && v1.entries
                        == va.entries.push(e1)
            }
        }),
    ensures
        v1.wf_except(ex),
        v1.model() == vr.model().insert(key, value),
        v1.index() == vr.index().insert(key, (ValueIndex { segment: vr.term, head, tail })),
        forall|id: u64| #[trigger] v1.has_seg(id) <==> vr.has_seg(id),
        forall|id: u64|
            #[trigger] vr.has_seg(id) ==> v1.seg_at(id).data == (if id == vr.term {
                vr.seg_at(id).data + enc(CommandV::Put { key, value })
            } else {
                vr.seg_at(id).data
            }),
        ex matches Some(tc) ==> (vr.has_seg(tc) ==> v1.seg_at(tc) == vr.seg_at(tc)),
        v1.disk() == apply_op(vr.disk(), (DiskOpV::Append {
            segment: vr.term,
            bytes: enc(CommandV::Put { key, value }),
        })),
{
    let cv = CommandV::Put { key, value };
    let rec = enc(cv);
    let term = vr.term;
    let ap = vr.segs.len() - 1;
    let ad = vr.segs.last().data;
    let loc = ValueIndex { segment: term, head, tail };
    let newrec = RecAt { cmd: cv, head: ad.len() as int, tail: ad.len() + rec.len() as int };
    crate::codec::lemma_enc_len(cv);
    assert(vr.seg_base_ok(ap));
    assert((ad + rec).subrange(ad.len() as int, ad.len() + crate::codec::enc_len(cv)) =~= rec);
    crate::codec::lemma_records_snoc(ad, 0, cv);
    crate::codec::lemma_parse_enc(ad + rec, ad.len() as int, cv);
    lemma_update_seg(vr, va, ap, va.segs[ap]);
    // where the key pointed before, if anywhere
    if old_loc is Some {
        let e = old_loc.unwrap();
        assert(vr.index().dom().contains(key));
        assert(vr.entry_ok(key));
        assert(vr.has_seg(e.segment));
        assert(va.has_seg(e.segment));
        crate::index::lemma_assoc_witness(vr.entries, key);
        let jw = choose|j: int|
            0 <= j < vr.entries.len() && (#[trigger] vr.entries[j].key@) == key;
        crate::index::lemma_assoc_get(vr.entries, jw);
        crate::index::lemma_count_witness(vr.entries, jw, e.segment);
        if e.segment != va.term {
            lemma_seg_pos_unique(va, va.seg_pos(e.segment), e.segment);
        }
    }
    // v1's segments carry the same ids and bytes as va's
    assert(v1.segs.len() == va.segs.len());
    assert forall|i: int| 0 <= i < v1.segs.len() implies (#[trigger] v1.segs[i]).id
        == va.segs[i].id && v1.segs[i].data == va.segs[i].data by {
        if old_loc is Some && old_loc.unwrap().segment != va.term {
            lemma_seg_pos_unique(va, va.seg_pos(old_loc.unwrap().segment), old_loc.unwrap().segment);
        }
    }
    assert forall|i: int, j: int| 0 <= i < j < v1.segs.len() implies (#[trigger] v1.segs[i].id)
        < (#[trigger] v1.segs[j].id) by {
        assert(va.segs[i].id < va.segs[j].id);
    }
    assert forall|id: u64| #[trigger] v1.has_seg(id) implies va.has_seg(id) by {
        let q = v1.seg_pos(id);
        assert(va.segs[q].id == id);
    }
    assert forall|id: u64| #[trigger] va.has_seg(id) implies v1.has_seg(id) && v1.seg_at(id).data
        == va.seg_at(id).data && v1.seg_at(id).id == id by {
        let q = va.seg_pos(id);
        assert(va.segs[q].id == id);
        assert(v1.segs[q].id == id);
        lemma_seg_pos_unique(v1, q, id);
    }
    lemma_seg_pos_unique(va, ap, term);
    lemma_seg_pos_unique(v1, ap, term);
    assert(v1.seg_at(term).data == ad + rec);
    assert(seg_records(ad + rec) == Some(seg_records(ad).unwrap().push(newrec)));
    // every old entry still points at the same record
    assert forall|k: Seq<u8>| #[trigger] vr.index().dom().contains(k) && k != key implies
        v1.index()[k] == vr.index()[k] && v1.entry_ok(k) && v1.value_at(k) == vr.value_at(k) by {
        assert(vr.entry_ok(k));
        let e = vr.index()[k];
        assert(va.has_seg(e.segment));
        let sd0 = vr.seg_at(e.segment).data;
        if e.segment == term {
            assert(sd0 == ad);
            crate::codec::lemma_parse_at_bounds(ad, e.head as int);
            let t = parse_at(ad, e.head as int).unwrap().1;
            assert((ad + rec).subrange(e.head as int, t) =~= ad.subrange(e.head as int, t));
            crate::codec::lemma_parse_agree(ad, e.head as int, ad + rec, e.head as int);
            let rs0 = seg_records(ad).unwrap();
            let j = choose|j: int|
                0 <= j < rs0.len() && (#[trigger] rs0[j]).head == e.head as int && rs0[j].tail
                    == e.tail as int;
            assert(rs0.push(newrec)[j] == rs0[j]);
            assert(v1.entry_ok(k));
        } else {
            assert(v1.seg_at(e.segment).data == sd0);
            let rs0 = seg_records(sd0).unwrap();
            let j = choose|j: int|
                0 <= j < rs0.len() && (#[trigger] rs0[j]).head == e.head as int && rs0[j].tail
                    == e.tail as int;
            assert(v1.entry_ok(k));
        }
    }
    // the new entry points at the appended record
    assert(parse_at(ad + rec, ad.len() as int) == Some((cv, ad.len() + crate::codec::enc_len(cv))));
    assert(v1.index()[key] == loc);
    assert(v1.entry_ok(key)) by {
        let rs1 = seg_records(ad + rec).unwrap();
        assert(rs1[rs1.len() - 1] == newrec);
    }
    // base facts for every segment of v1
    assert forall|i: int| 0 <= i < v1.segs.len() implies v1.seg_base_ok(i) by {
        assert(vr.seg_base_ok(i));
        assert(va.segs[i].id == vr.segs[i].id);
        if i == ap {
            assert(v1.segs[i].counts.len == vr.segs[i].counts.len + 1);
            assert(vr.segs[i].counts.len == vr.count);
            assert(v1.segs[i].counts.len_garbage <= v1.segs[i].counts.len);
        } else {
            assert(v1.segs[i].data == vr.segs[i].data);
            if old_loc is Some && old_loc.unwrap().segment != term && vr.segs[i].id
                == old_loc.unwrap().segment {
                let e = old_loc.unwrap();
                lemma_seg_pos_unique(va, i, e.segment);
                assert(v1.segs[i].counts.len_garbage == vr.segs[i].counts.len_garbage + 1);
                assert(vr.seg_count_ok(i)) by {
                    assert(!(Some(vr.segs[i].id) == ex));
                }
                crate::index::lemma_count_bounds(vr.entries, e.segment);
            } else {
                if old_loc is Some && old_loc.unwrap().segment != term {
                    lemma_seg_pos_unique(va, va.seg_pos(old_loc.unwrap().segment), old_loc.unwrap().segment);
                }
                assert(v1.segs[i].counts == vr.segs[i].counts);
            }
        }
    }
    // counters still match the index
    assert forall|i: int|
        0 <= i < v1.segs.len() && !(Some((#[trigger] v1.segs[i]).id) == ex) implies
        v1.seg_count_ok(i) by {
        let id = v1.segs[i].id;
        assert(vr.seg_count_ok(i));
        if vr.index().dom().contains(key) {
            let e = old_loc.unwrap();
            let (jx, e1): (int, IndexEntry) = choose|jx: int, e1: IndexEntry|
                0 <= jx < va.entries.len() && va.entries[jx].key@ == key && e1.key@ == key
                    && e1.loc == loc && v1.entries == (#[trigger] va.entries.update(jx, e1));
            crate::index::lemma_assoc_get(vr.entries, jx);
            assert(vr.entries[jx].loc == e);
            crate::index::lemma_count_update(vr.entries, jx, e1, id);
            if e.segment != term && id == e.segment {
                lemma_seg_pos_unique(va, i, id);
            }
            if i == ap {
            }
        } else {
            let e1 = choose|e1: IndexEntry|
                (#[trigger] e1.loc) == loc && e1.key@ == key && v1.entries == va.entries.push(
                    e1,
                );
            crate::index::lemma_count_push(vr.entries, e1, id);
        }
    }
    // the active-segment clause
    assert(v1.has_seg(v1.term));
    assert(v1.segs.last().id == v1.term);
    assert(v1.segs.last().counts.len == v1.count);
    assert(v1.wf_except(ex));
    // the model gained exactly the new binding
    assert(v1.value_at(key) == value);
    assert(v1.model() =~= vr.model().insert(key, value));
    // segment lookups agree between vr and v1
    assert forall|id: u64| #[trigger] v1.has_seg(id) implies vr.has_seg(id) by {
        assert(va.has_seg(id));
    }
    assert forall|id: u64| #[trigger] vr.has_seg(id) implies v1.has_seg(id) && v1.seg_at(id).data
        == (if id == vr.term {
        vr.seg_at(id).data + rec
    } else {
        vr.seg_at(id).data
    }) by {
        assert(va.has_seg(id));
        if id != term {
            assert(va.seg_at(id) == vr.seg_at(id));
        } else {
            assert(va.seg_at(term) == va.segs[ap]);
        }
    }
    // the mirrored files changed by exactly the append
    assert(vr.disk()[term] == ad);
    assert(v1.disk() =~= vr.disk().insert(term, ad + rec));
    if ex is Some {
        let tc = ex.unwrap();
        if vr.has_seg(tc) {
            assert(v1.seg_at(tc) == vr.seg_at(tc)) by {
                let q = vr.seg_pos(tc);
                lemma_seg_pos_unique(vr, q, tc);
                lemma_seg_pos_unique(va, q, tc);
                lemma_seg_pos_unique(v1, q, tc);
                assert(va.segs[q] == vr.segs[q]);
                assert(v1.segs[q] == va.segs[q]);
            }
        }
    }
}

impl KvStore {
    /// The write path shared by ordinary writes and compaction rewrites:
    /// rotate if the active segment is full, append the record, account
    /// for garbage, update the index, and report which segment, if any,
    /// now exceeds the compaction threshold. `ex` names a segment whose
    /// accounting is being drained by a running compaction; such a call
    /// never touches that segment.
    #[verifier::rlimit(100)]
    fn set_inner(&mut self, key: Vec<u8>, value: Vec<u8>, Ghost(ex): Ghost<Option<u64>>) -> (r:
        Option<u64>)
        requires
            old(self)@.wf_except(ex),
            old(self)@.count >= old(self)@.max_records ==> old(self)@.term < u64::MAX,
            ex matches Some(tc) ==> !old(self)@.index().dom().contains(key@) && tc <= old(self)@.term && (tc != old(self)@.term || old(self)@.count >= old(self)@.max_records),
        ensures
            final(self)@.wf_except(ex),
            final(self)@.model() == old(self)@.model().insert(key@, value@),
            final(self)@.index() == old(self)@.index().insert(
                key@,
                (ValueIndex {
                    segment: final(self)@.term,
                    head: final(self)@.index()[key@].head,
                    tail: final(self)@.index()[key@].tail,
                }),
            ),
            final(self)@.index().dom().contains(key@) && final(self)@.index()[key@].segment
                == final(self)@.term,
            final(self)@.max_records == old(self)@.max_records,
            final(self)@.threshold == old(self)@.threshold,
            journal_delta_ok(old(self)@, final(self)@),
            old(self)@.count >= old(self)@.max_records ==> final(self)@.term == old(self)@.term
                + 1 && final(self)@.count == 1,
            old(self)@.count < old(self)@.max_records ==> final(self)@.term == old(self)@.term
                && final(self)@.count == old(self)@.count + 1,
            forall|id: u64|
                #[trigger] final(self)@.has_seg(id) ==> old(self)@.has_seg(id) || id == final(self)@.term,
            forall|id: u64|
                #[trigger] old(self)@.has_seg(id) ==> final(self)@.has_seg(id) && final(self)@.seg_at(id).data
                    == (if id == final(self)@.term {
                    old(self)@.seg_at(id).data + enc(CommandV::Put { key: key@, value: value@ })
                } else {
                    old(self)@.seg_at(id).data
                }),
            ex matches Some(tc) ==> (old(self)@.has_seg(tc) ==> final(self)@.seg_at(tc) == old(self)@.seg_at(tc))
                && final(self)@.term != tc,
            r matches Some(cs) ==> final(self)@.has_seg(cs) && ex is None,
            ex is Some ==> r is None,
            final(self)@.segs == set_step_segs(old(self)@, key@, value@),
            final(self)@.term == step_term(old(self)@),
            final(self)@.index() == old(self)@.index().insert(
                key@,
                write_loc(old(self)@, (CommandV::Put { key: key@, value: value@ })),
            ),
            final(self)@.journal == old(self)@.journal + write_ops(
                old(self)@,
                (CommandV::Put { key: key@, value: value@ }),
            ),
            r == set_gain_candidate(old(self)@, key@),
            (CommandV::Put { key: key@, value: value@ }).encodable(),
            files_of(final(self)@) == files_of_segs(
                step_mid(old(self)@, (CommandV::Put { key: key@, value: value@ })).segs,
            ),
    {
        let ghost v0 = self@;
        if self.current_log_len >= self.max_records {
            self.rotate(Ghost(ex));
        }
        let ghost vr = self@;
        proof {
            if v0.count >= v0.max_records {
                assert(vr.has_seg(vr.term) && vr.segs.last().id == vr.term);
            } else {
                assert(v0.has_seg(v0.term));
                assert(vr == v0);
            }
        }
        let cmd = Command::set(key, value);
        let (head, tail) = self.append_record(&cmd);
        let ghost rec = enc(cmd@);
        let ghost va = self@;
        let key = match cmd {
            Command::Put { key, value: _ } => key,
            _ => {
                proof {
                    assert(false);
                }
                unreached()
            },
        };
        proof {
            assert(usize::MAX < crate::codec::pow10(crate::codec::LEN_WIDTH as nat)) by {
                crate::codec::lemma_u64_fits_len_width();
            }
        }
        let old_loc = self.index.get(&key);
        proof {
            assert(self@.segs.len() == vr.segs.len());
        }
        let apos = self.segments.len() - 1;
        let mut candidate: Option<u64> = None;
        proof {
            assert(va.segs.len() == vr.segs.len());
            assert(apos == va.segs.len() - 1);
            assert(va.segs[apos as int].counts == vr.segs.last().counts);
            assert(vr.segs.last().counts.len == vr.count < vr.max_records <= usize::MAX);
            if old_loc is Some {
                let e = old_loc.unwrap();
                crate::index::lemma_assoc_witness(vr.entries, key@);
                let j = choose|j: int|
                    0 <= j < vr.entries.len() && (#[trigger] vr.entries[j].key@) == key@;
                crate::index::lemma_assoc_get(vr.entries, j);
                assert(vr.entries[j].loc == e);
                crate::index::lemma_count_witness(vr.entries, j, e.segment);
            }
        }
        match old_loc {
            None => {
                self.bump_counts(apos, 1, 0);
            },
            Some(e) => {
                if e.segment == self.term {
                    self.bump_counts(apos, 1, 1);
                    proof {
                        assert(self@.segs.len() == va.segs.len());
                    }
                    let c = self.segments[apos].counts;
                    let exceeded = c.garbage_rate_exceeds(self.threshold);
                    if exceeded {
                        candidate = Some(self.term);
                    }
                    proof {
                        // the dead record is in the active segment, so no
                        // rotation happened and the exec counters are the
                        // active segment's bumped counters
                        assert(!(v0.count >= v0.max_records)) by {
                            if v0.count >= v0.max_records {
                                lemma_entries_bounded(v0);
                                crate::index::lemma_assoc_witness(v0.entries, key@);
                                let j = choose|j: int|
                                    0 <= j < v0.entries.len() && (#[trigger] v0.entries[j].key@)
                                        == key@;
                                crate::index::lemma_assoc_get(v0.entries, j);
                                assert(e.segment <= v0.term);
                            }
                        }
                        assert(vr == v0);
                        lemma_seg_pos_unique(v0, v0.segs.len() - 1, v0.term);
                        assert(v0.seg_at(v0.term).counts == vr.segs.last().counts);
                        assert(self@.segs[apos as int] == self.segments@[apos as int]@);
                        assert(c == self@.segs[apos as int].counts);
                        assert(self@.segs[apos as int].counts == (LengthCount {
                            len: (va.segs[apos as int].counts.len + 1) as usize,
                            len_garbage: (va.segs[apos as int].counts.len_garbage + 1) as usize,
                        }));
                        assert(c == (LengthCount {
                            len: (v0.seg_at(e.segment).counts.len + 1) as usize,
                            len_garbage: (v0.seg_at(e.segment).counts.len_garbage + 1) as usize,
                        }));
                        assert(candidate == set_gain_candidate(v0, key@));
                    }
                } else {
                    let opos = match self.find_pos(e.segment) {
                        Some(p) => p,
                        None => {
                            proof {
                                assert(vr.entry_ok(key@));
                                assert(va.has_seg(e.segment)) by {
                                    lemma_update_seg(vr, va, vr.segs.len() - 1, va.segs[vr.segs.len() - 1]);
                                }
                                assert(false);
                            }
                            unreached()
                        },
                    };
                    proof {
                        assert(vr.entry_ok(key@));
                        lemma_update_seg(vr, va, vr.segs.len() - 1, va.segs[vr.segs.len() - 1]);
                        lemma_seg_pos_unique(va, opos as int, e.segment);
                        assert(va.segs[opos as int].counts == vr.segs[opos as int].counts);
                        assert(vr.seg_count_ok(opos as int)) by {
                            assert(!(Some(vr.segs[opos as int].id) == ex));
                        }
                        crate::index::lemma_count_bounds(vr.entries, e.segment);
                        assert(vr.segs[opos as int].counts.len_garbage
                            < vr.segs[opos as int].counts.len);
                    }
                    self.bump_counts(opos, 0, 1);
                    proof {
                        assert(self@.segs.len() == va.segs.len());
                    }
                    let c = self.segments[opos].counts;
                    let exceeded = c.garbage_rate_exceeds(self.threshold);
                    if exceeded {
                        candidate = Some(e.segment);
                    }
                    proof {
                        // the exec counters are the old segment's bumped
                        // counters, which rotation leaves untouched
                        assert(v0.seg_at(e.segment) == vr.seg_at(e.segment)) by {
                            if v0.count >= v0.max_records {
                                assert(v0.has_seg(e.segment)) by {
                                    lemma_entries_bounded(v0);
                                    crate::index::lemma_assoc_witness(v0.entries, key@);
                                    let j = choose|j: int|
                                        0 <= j < v0.entries.len() && (#[trigger] v0.entries[j].key@)
                                            == key@;
                                    crate::index::lemma_assoc_get(v0.entries, j);
                                }
                            }
                        }
                        assert(e.segment != step_term(v0)) by {
                            if v0.count >= v0.max_records {
                                lemma_entries_bounded(v0);
                                crate::index::lemma_assoc_witness(v0.entries, key@);
                                let j = choose|j: int|
                                    0 <= j < v0.entries.len() && (#[trigger] v0.entries[j].key@)
                                        == key@;
                                crate::index::lemma_assoc_get(v0.entries, j);
                                assert(e.segment <= v0.term);
                            }
                        }
                        assert(self@.segs[opos as int] == self.segments@[opos as int]@);
                        assert(c == self@.segs[opos as int].counts);
                        assert(self@.segs[opos as int].counts == (LengthCount {
                            len: va.segs[opos as int].counts.len,
                            len_garbage: (va.segs[opos as int].counts.len_garbage + 1) as usize,
                        }));
                        assert(va.segs[opos as int].counts == v0.seg_at(e.segment).counts);
                        assert(c == (LengthCount {
                            len: v0.seg_at(e.segment).counts.len,
                            len_garbage: (v0.seg_at(e.segment).counts.len_garbage + 1) as usize,
                        }));
                        assert(candidate == set_gain_candidate(v0, key@));
                    }
                    self.bump_counts(apos, 1, 0);
                }
            },
        }
        proof {
            if old_loc is None {
                assert(candidate == set_gain_candidate(v0, key@));
            }
        }
        let ghost vb = self@;
        self.current_log_len = self.current_log_len + 1;
        let loc = ValueIndex { segment: self.term, head, tail };
        self.index.insert(key, loc);
        proof {
            let v1 = self@;
            assert(vb.segs =~= bumped_segs(va, old_loc)) by {
                if old_loc is Some && old_loc.unwrap().segment != va.term {
                    lemma_update_seg(vr, va, vr.segs.len() - 1, va.segs[vr.segs.len() - 1]);
                    lemma_seg_pos_unique(va, va.seg_pos(old_loc.unwrap().segment), old_loc.unwrap().segment);
                }
            }
            assert(v1.segs == vb.segs);
            assert(v1.index() == va.index().insert(key@, loc));
            lemma_set_finish(vr, va, v1, key@, value@, head, tail, ex, old_loc);
            assert(journal_delta_ok(v0, vr)) by {
                if v0.count < v0.max_records {
                    assert(vr == v0);
                    lemma_delta_refl(v0);
                }
            }
            assert(journal_delta_ok(vr, v1)) by {
                assert(v1.journal.take(vr.journal.len() as int) =~= vr.journal);
                let delta = v1.journal.skip(vr.journal.len() as int);
                assert(delta =~= seq![DiskOpV::Append { segment: vr.term, bytes: rec }]);
                lemma_apply_ops_one(vr.disk(), DiskOpV::Append { segment: vr.term, bytes: rec });
            }
            lemma_delta_trans(v0, vr, v1);
            if candidate is Some {
                assert(v1.has_seg(candidate.unwrap()));
            }
            assert forall|id: u64| #[trigger] v0.has_seg(id) implies v1.has_seg(id)
                && v1.seg_at(id).data == (if id == v1.term {
                v0.seg_at(id).data + rec
            } else {
                v0.seg_at(id).data
            }) by {
                assert(vr.has_seg(id));
            }
            assert(v1.model() =~= v0.model().insert(key@, value@));
            // the whole step matches its specification
            let cv = CommandV::Put { key: key@, value: value@ };
            assert(va =~~= step_mid(v0, cv)) by {
                assert(va.segs =~= step_mid(v0, cv).segs);
                assert(va.journal =~= step_mid(v0, cv).journal);
            }
            assert(old_loc == write_old_loc(v0, key@));
            assert(v1.segs == set_step_segs(v0, key@, value@));
            assert(loc == write_loc(v0, cv)) by {
                if v0.count >= v0.max_records {
                    assert(vr.segs.last().data =~= Seq::<u8>::empty());
                }
            }
            assert(v1.index() == v0.index().insert(key@, write_loc(v0, cv)));
            assert(v1.journal =~= v0.journal + write_ops(v0, cv));
            assert forall|i: int| 0 <= i < v1.segs.len() implies (#[trigger] v1.segs[i]).id
                == va.segs[i].id && v1.segs[i].data == va.segs[i].data by {
                if old_loc is Some && old_loc.unwrap().segment != va.term {
                    lemma_seg_pos_unique(va, va.seg_pos(old_loc.unwrap().segment), old_loc.unwrap().segment);
                }
            }
            lemma_files_counts_only(v1.segs, va.segs);
            assert(files_of(v1) == files_of_segs(step_mid(v0, cv).segs));
        }
        candidate
    }
}


/// The live commands of a segment under compaction: the `Put` records the
/// index still points at, in the order the segment holds them.
pub open spec fn live_of(rs: Seq<RecAt>, m: Map<Seq<u8>, ValueIndex>, tc: u64) -> Seq<CommandV>
    decreases rs.len(),
{
    if rs.len() == 0 {
        Seq::empty()
    } else {
        let r = rs.last();
        let keep = (r.cmd matches CommandV::Put { key, .. } && m.dom().contains(key)
            && m[key].segment == tc && m[key].head as int == r.head && m[key].tail as int
            == r.tail);
        if keep {
            live_of(rs.drop_last(), m, tc).push(r.cmd)
        } else {
            live_of(rs.drop_last(), m, tc)
        }
    }
}

/// There are no more live commands than records.
pub proof fn lemma_live_of_len(rs: Seq<RecAt>, m: Map<Seq<u8>, ValueIndex>, tc: u64)
    ensures
        live_of(rs, m, tc).len() <= rs.len(),
    decreases rs.len(),
{
    if rs.len() > 0 {
        lemma_live_of_len(rs.drop_last(), m, tc);
    }
}

/// Each live command is a `Put` whose key the index maps into the drained
/// segment, at the head of one of the records; no key occurs twice.
pub proof fn lemma_live_of_props(rs: Seq<RecAt>, m: Map<Seq<u8>, ValueIndex>, tc: u64)
    requires
        forall|i: int, j: int|
            0 <= i < j < rs.len() ==> (#[trigger] rs[i]).head < (#[trigger] rs[j]).head,
    ensures
        ({
            let lv = live_of(rs, m, tc);
            &&& forall|p: int|
                0 <= p < lv.len() ==> ((#[trigger] lv[p]) matches CommandV::Put { key, .. }
                    && m.dom().contains(key) && m[key].segment == tc && rs.len() > 0
                    && m[key].head as int <= rs.last().head)
            &&& forall|p: int, q: int|
                0 <= p < q < lv.len() ==> (#[trigger] lv[p]).key() != (#[trigger] lv[q]).key()
            &&& forall|p: int|
                0 <= p < lv.len() ==> exists|i: int|
                    0 <= i < rs.len() && (#[trigger] rs[i]).cmd == (#[trigger] lv[p])
                        && rs[i].head == m[lv[p].key()].head as int && rs[i].tail
                        == m[lv[p].key()].tail as int
        }),
    decreases rs.len(),
{
    if rs.len() > 0 {
        let r = rs.last();
        let lv = live_of(rs, m, tc);
        let lv0 = live_of(rs.drop_last(), m, tc);
        lemma_live_of_props(rs.drop_last(), m, tc);
        let keep = (r.cmd matches CommandV::Put { key, .. } && m.dom().contains(key)
            && m[key].segment == tc && m[key].head as int == r.head && m[key].tail as int
            == r.tail);
        assert forall|p: int| 0 <= p < lv.len() implies ((#[trigger] lv[p]) matches CommandV::Put {
            key,
            ..
        } && m.dom().contains(key) && m[key].segment == tc && rs.len() > 0 && m[key].head as int
            <= rs.last().head) by {
            if p < lv0.len() {
                assert(lv[p] == lv0[p]);
                if rs.len() > 1 {
                    assert(rs.drop_last()[rs.len() - 2] == rs[rs.len() - 2]);
                    assert(rs[rs.len() - 2].head < rs[rs.len() - 1].head);
                }
            } else {
                assert(keep && lv[p] == r.cmd);
            }
        }
        assert forall|p: int, q: int| 0 <= p < q < lv.len() implies (#[trigger] lv[p]).key()
            != (#[trigger] lv[q]).key() by {
            if q < lv0.len() {
                assert(lv[p] == lv0[p] && lv[q] == lv0[q]);
            } else if keep && q == lv0.len() {
                assert(lv[p] == lv0[p]);
                assert(m[lv0[p].key()].head as int <= rs.drop_last().last().head);
                assert(rs.drop_last()[rs.len() - 2] == rs[rs.len() - 2]);
                assert(rs[rs.len() - 2].head < r.head);
                assert(m[lv[q].key()].head as int == r.head);
            }
        }
        assert forall|p: int| 0 <= p < lv.len() implies exists|i: int|
            0 <= i < rs.len() && (#[trigger] rs[i]).cmd == (#[trigger] lv[p]) && rs[i].head
                == m[lv[p].key()].head as int && rs[i].tail == m[lv[p].key()].tail as int by {
            if p < lv0.len() {
                assert(lv[p] == lv0[p]);
                let i0 = choose|i: int|
                    0 <= i < rs.drop_last().len() && (#[trigger] rs.drop_last()[i]).cmd == lv0[p]
                        && rs.drop_last()[i].head == m[lv0[p].key()].head as int
                        && rs.drop_last()[i].tail == m[lv0[p].key()].tail as int;
                assert(rs[i0] == rs.drop_last()[i0]);
            } else {
                assert(lv[p] == r.cmd);
                assert(rs[rs.len() - 1] == r);
            }
        }
    }
}

/// Dropping one segment moves nothing else.
pub proof fn lemma_remove_seg(v0: StoreView, v1: StoreView, p: int)
    requires
        forall|i: int, j: int|
            0 <= i < j < v0.segs.len() ==> (#[trigger] v0.segs[i].id) < (#[trigger] v0.segs[j].id),
        0 <= p < v0.segs.len(),
        v1.segs == v0.segs.remove(p),
    ensures
        forall|i: int, j: int|
            0 <= i < j < v1.segs.len() ==> (#[trigger] v1.segs[i].id) < (#[trigger] v1.segs[j].id),
        !v1.has_seg(v0.segs[p].id),
        forall|id: u64| #[trigger] v1.has_seg(id) ==> v0.has_seg(id) && id != v0.segs[p].id,
        forall|id: u64|
            #[trigger] v0.has_seg(id) && id != v0.segs[p].id ==> v1.has_seg(id) && v1.seg_at(id)
                == v0.seg_at(id),
{
    let tid = v0.segs[p].id;
    assert forall|i: int, j: int| 0 <= i < j < v1.segs.len() implies (#[trigger] v1.segs[i].id)
        < (#[trigger] v1.segs[j].id) by {
        let i0 = if i < p { i } else { i + 1 };
        let j0 = if j < p { j } else { j + 1 };
        assert(v1.segs[i] == v0.segs[i0]);
        assert(v1.segs[j] == v0.segs[j0]);
        assert(v0.segs[i0].id < v0.segs[j0].id);
    }
    assert forall|q: int| 0 <= q < v1.segs.len() implies (#[trigger] v1.segs[q]).id != tid by {
        let q0 = if q < p { q } else { q + 1 };
        assert(v1.segs[q] == v0.segs[q0]);
        if q0 < p {
            assert(v0.segs[q0].id < v0.segs[p].id);
        } else {
            assert(v0.segs[p].id < v0.segs[q0].id);
        }
    }
    assert forall|id: u64| #[trigger] v1.has_seg(id) implies v0.has_seg(id) && id != tid by {
        let q = v1.seg_pos(id);
        let q0 = if q < p { q } else { q + 1 };
        assert(v1.segs[q] == v0.segs[q0]);
        assert(v0.segs[q0].id == id);
    }
    assert forall|id: u64| #[trigger] v0.has_seg(id) && id != tid implies v1.has_seg(id)
        && v1.seg_at(id) == v0.seg_at(id) by {
        let q0 = v0.seg_pos(id);
        assert(v0.segs[q0].id == id);
        lemma_seg_pos_unique(v0, q0, id);
        let q = if q0 < p { q0 } else { q0 - 1 };
        assert(v1.segs[q] == v0.segs[q0]);
        lemma_seg_pos_unique(v1, q, id);
    }
}

/// Every key the index maps into the drained segment shows up among the
/// live commands, with the record the index points at.
pub proof fn lemma_live_of_complete(
    rs: Seq<RecAt>,
    m: Map<Seq<u8>, ValueIndex>,
    tc: u64,
    k: Seq<u8>,
    j: int,
)
    requires
        m.dom().contains(k),
        m[k].segment == tc,
        0 <= j < rs.len(),
        rs[j].head == m[k].head as int,
        rs[j].tail == m[k].tail as int,
        rs[j].cmd matches CommandV::Put { key, .. } && key == k,
    ensures
        exists|p: int|
            0 <= p < live_of(rs, m, tc).len() && (#[trigger] live_of(rs, m, tc)[p]) == rs[j].cmd,
    decreases rs.len(),
{
    let lv = live_of(rs, m, tc);
    if j == rs.len() - 1 {
        assert(lv[lv.len() - 1] == rs[j].cmd);
    } else {
        assert(rs.drop_last()[j] == rs[j]);
        lemma_live_of_complete(rs.drop_last(), m, tc, k, j);
        let lv0 = live_of(rs.drop_last(), m, tc);
        let p = choose|p: int| 0 <= p < lv0.len() && (#[trigger] lv0[p]) == rs[j].cmd;
        assert(lv[p] == rs[j].cmd) by {
            if lv.len() > lv0.len() {
                assert(lv[p] == lv0.push(rs.last().cmd)[p]);
            }
        }
    }
}



/// What the collected live commands of a segment satisfy: they are no more
/// than the records, each is a `Put` the index still points into the
/// segment for, holding the model's value; every key pointing into the
/// segment is represented; and no key repeats.
proof fn lemma_live_collection(vrot: StoreView, tc: u64, lv: Seq<CommandV>)
    requires
        vrot.wf(),
        vrot.has_seg(tc),
        lv == live_of(seg_records(vrot.seg_at(tc).data).unwrap(), vrot.index(), tc),
    ensures
        lv.len() <= vrot.max_records,
        forall|k: Seq<u8>|
            #[trigger] vrot.index().dom().contains(k) && vrot.index()[k].segment == tc
                ==> exists|q: int| 0 <= q < lv.len() && (#[trigger] lv[q]).key() == k,
        forall|q: int|
            0 <= q < lv.len() ==> ((#[trigger] lv[q]) matches CommandV::Put { key, value }
                && vrot.model().dom().contains(key) && vrot.model()[key] == value
                && vrot.index().dom().contains(key) && vrot.index()[key].segment == tc),
        forall|q1: int, q2: int|
            0 <= q1 < q2 < lv.len() ==> (#[trigger] lv[q1]).key() != (#[trigger] lv[q2]).key(),
{
    let p = vrot.seg_pos(tc);
    let data_g = vrot.seg_at(tc).data;
    let m0 = vrot.index();
    let model0 = vrot.model();
    assert(vrot.seg_base_ok(p));
    let rs = seg_records(data_g).unwrap();
    crate::codec::lemma_records_facts(data_g, 0);
    assert forall|i: int, jx: int| 0 <= i < jx < rs.len() implies (#[trigger] rs[i]).head
        < (#[trigger] rs[jx]).head by {
        assert(rs[i].tail <= rs[jx].head);
    }
    lemma_live_of_props(rs, m0, tc);
    lemma_live_of_len(rs, m0, tc);
    assert(rs.len() <= vrot.max_records);
    assert forall|k: Seq<u8>|
        #[trigger] m0.dom().contains(k) && m0[k].segment == tc implies exists|q: int|
            0 <= q < lv.len() && (#[trigger] lv[q]).key() == k by {
        assert(vrot.entry_ok(k));
        let e = m0[k];
        let jx = choose|jx: int|
            0 <= jx < rs.len() && (#[trigger] rs[jx]).head == e.head as int && rs[jx].tail
                == e.tail as int;
        assert(parse_at(data_g, rs[jx].head) == Some((rs[jx].cmd, rs[jx].tail)));
        lemma_live_of_complete(rs, m0, tc, k, jx);
        let q = choose|q: int|
            0 <= q < live_of(rs, m0, tc).len() && (#[trigger] live_of(rs, m0, tc)[q])
                == rs[jx].cmd;
        assert(lv[q].key() == k);
    }
    assert forall|q: int| 0 <= q < lv.len() implies ((#[trigger] lv[q]) matches CommandV::Put {
        key,
        value,
    } && model0.dom().contains(key) && model0[key] == value && m0.dom().contains(key)
        && m0[key].segment == tc) by {
        let i = choose|i: int|
            0 <= i < rs.len() && (#[trigger] rs[i]).cmd == lv[q] && rs[i].head
                == m0[lv[q].key()].head as int && rs[i].tail == m0[lv[q].key()].tail as int;
        assert(parse_at(data_g, rs[i].head) == Some((rs[i].cmd, rs[i].tail)));
    }
}

impl KvStore {
    /// Write the collected live commands of a draining segment back into
    /// the active segment, one by one, through the ordinary write path.
    #[verifier::rlimit(100)]
    fn rewrite_live(
        &mut self,
        live: Vec<Command>,
        tc: u64,
        Ghost(model0): Ghost<Map<Seq<u8>, Seq<u8>>>,
        Ghost(tterm): Ghost<u64>,
    )
        requires
            old(self)@.wf_except(Some(tc)),
            1 <= tc <= tterm,
            tterm <= old(self)@.term <= tterm + 1,
            tterm <= u64::MAX - 1,
            tc != old(self)@.term || old(self)@.count >= old(self)@.max_records,
            old(self)@.term == tterm + 1 ==> old(self)@.count + live@.len() <= old(self)@.max_records,
            live@.len() <= old(self)@.max_records,
            old(self)@.model() == model0,
            old(self)@.has_seg(tc),
            forall|k: Seq<u8>|
                #[trigger] old(self)@.index().dom().contains(k) && old(self)@.index()[k].segment
                    == tc ==> exists|q: int|
                    0 <= q < live@.len() && (#[trigger] live@[q])@.key() == k,
            forall|q: int|
                0 <= q < live@.len() ==> ((#[trigger] live@[q])@ matches CommandV::Put {
                    key,
                    value,
                } && model0.dom().contains(key) && model0[key] == value && old(self)@.index().dom().contains(
                    key,
                ) && old(self)@.index()[key].segment == tc),
            forall|q1: int, q2: int|
                0 <= q1 < q2 < live@.len() ==> (#[trigger] live@[q1])@.key()
                    != (#[trigger] live@[q2])@.key(),
        ensures
            final(self)@.wf_except(Some(tc)),
            final(self)@.model() == model0,
            final(self)@.has_seg(tc),
            final(self)@.max_records == old(self)@.max_records,
            final(self)@.threshold == old(self)@.threshold,
            tterm <= final(self)@.term <= tterm + 1,
            tc != final(self)@.term || final(self)@.count >= final(self)@.max_records,
            journal_delta_ok(old(self)@, final(self)@),
            forall|k: Seq<u8>|
                #[trigger] final(self)@.index().dom().contains(k) ==> final(self)@.index()[k].segment
                    != tc,
    {
        let ghost ventry = old(self)@;
        let ghost nlive = live@.len() as int;
        let mut live = live;
        proof {
            lemma_delta_refl(ventry);
        }
        while live.len() > 0
            invariant
                self@.wf_except(Some(tc)),
                self@.max_records == ventry.max_records,
                self@.threshold == ventry.threshold,
                self@.max_records >= 1,
                1 <= tc <= tterm,
                tterm <= self@.term <= tterm + 1,
                tterm <= u64::MAX - 1,
                tc != self@.term || self@.count >= self@.max_records,
                self@.term == tterm + 1 ==> self@.count + live@.len() <= self@.max_records,
                live@.len() <= nlive <= self@.max_records,
                self@.model() == model0,
                self@.has_seg(tc),
                journal_delta_ok(ventry, self@),
                forall|k: Seq<u8>|
                    #[trigger] self@.index().dom().contains(k) && self@.index()[k].segment == tc
                        ==> exists|q: int|
                        0 <= q < live@.len() && (#[trigger] live@[q])@.key() == k,
                forall|q: int|
                    0 <= q < live@.len() ==> ((#[trigger] live@[q])@ matches CommandV::Put {
                        key,
                        value,
                    } && model0.dom().contains(key) && model0[key] == value
                        && self@.index().dom().contains(key) && self@.index()[key].segment == tc),
                forall|q1: int, q2: int|
                    0 <= q1 < q2 < live@.len() ==> (#[trigger] live@[q1])@.key()
                        != (#[trigger] live@[q2])@.key(),
            decreases live@.len(),
        {
            let ghost vloop = self@;
            let ghost live_head = live@;
            let ghost lq = live@.len() - 1;
            let cmd = match live.pop() {
                Some(c) => c,
                None => {
                    proof {
                        assert(false);
                    }
                    unreached()
                },
            };
            let (key, value) = match cmd {
                Command::Put { key, value } => (key, value),
                _ => {
                    proof {
                        assert(live_head[lq]@ matches CommandV::Put { .. });
                        assert(false);
                    }
                    unreached()
                },
            };
            proof {
                assert(cmd@ == live_head[lq]@);
                assert(model0.dom().contains(key@) && model0[key@] == value@);
                assert(vloop.index().dom().contains(key@) && vloop.index()[key@].segment == tc);
                assert(live@ =~= live_head.take(lq));
            }
            let _ = self.index.remove(&key);
            let ghost vrem = self@;
            proof {
                // removing the binding keeps everything but the drained
                // segment's accounting intact
                let jx = choose|jx: int|
                    0 <= jx < vloop.entries.len() && (#[trigger] vloop.entries[jx]).key@ == key@
                        && vrem.entries == vloop.entries.remove(jx);
                crate::index::lemma_assoc_get(vloop.entries, jx);
                assert(vloop.entries[jx].loc.segment == tc);
                assert forall|i: int|
                    0 <= i < vrem.segs.len() && !(Some((#[trigger] vrem.segs[i]).id) == Some(
                        tc,
                    )) implies vrem.seg_count_ok(i) by {
                    assert(vloop.seg_count_ok(i));
                    crate::index::lemma_count_remove(vloop.entries, jx, vrem.segs[i].id);
                }
                assert(vrem.segs == vloop.segs);
                assert forall|i: int| 0 <= i < vrem.segs.len() implies vrem.seg_base_ok(i) by {
                    assert(vloop.seg_base_ok(i));
                }
                assert forall|k: Seq<u8>| #[trigger] vrem.index().dom().contains(k) implies
                    vrem.entry_ok(k) by {
                    assert(vloop.index().dom().contains(k));
                    assert(vloop.entry_ok(k));
                    assert(vrem.index()[k] == vloop.index()[k]);
                    assert(vrem.seg_at(vloop.index()[k].segment) == vloop.seg_at(
                        vloop.index()[k].segment,
                    ));
                }
                assert(vrem.wf_except(Some(tc)));
                assert(!vrem.index().dom().contains(key@));
                assert(vrem.model() =~= vloop.model().remove(key@));
                assert(vrem.count == vloop.count && vrem.term == vloop.term);
                if vrem.count >= vrem.max_records {
                    assert(vloop.term == tterm) by {
                        if vloop.term == tterm + 1 {
                            assert(vloop.count + live_head.len() <= vloop.max_records);
                        }
                    }
                }
            }
            let _cand = self.set_inner(key, value, Ghost(Some(tc)));
            proof {
                let vnew = self@;
                // the model is back to what it was
                assert(vnew.model() =~= model0) by {
                    assert(model0.dom().contains(key@) && model0[key@] == value@);
                }
                // the journal delta composes
                assert(journal_delta_ok(vloop, vrem)) by {
                    assert(vrem.journal == vloop.journal);
                    assert(vrem.journal.take(vloop.journal.len() as int) =~= vloop.journal);
                    assert(vrem.journal.skip(vloop.journal.len() as int) =~= Seq::<
                        DiskOpV,
                    >::empty());
                    assert(apply_ops(vloop.disk(), Seq::<DiskOpV>::empty()) == vloop.disk());
                    assert(vrem.disk() =~= vloop.disk());
                }
                lemma_delta_trans(ventry, vloop, vrem);
                lemma_delta_trans(ventry, vrem, vnew);
                // the keys that still point into the drained segment are
                // still ahead of us
                assert forall|k: Seq<u8>|
                    #[trigger] vnew.index().dom().contains(k) && vnew.index()[k].segment == tc
                        implies exists|q: int|
                        0 <= q < live@.len() && (#[trigger] live@[q])@.key() == k by {
                    assert(vnew.index()[key@].segment == vnew.term);
                    assert(vnew.term != tc);
                    assert(k != key@);
                    assert(vnew.index()[k] == vrem.index()[k]);
                    assert(vrem.index() == vloop.index().remove(key@));
                    assert(vloop.index().dom().contains(k) && vloop.index()[k].segment == tc);
                    let q = choose|q: int|
                        0 <= q < live_head.len() && (#[trigger] live_head[q])@.key() == k;
                    assert(q != lq) by {
                        assert(live_head[lq]@.key() == key@);
                    }
                    assert(live@[q] == live_head[q]);
                }
                // the remaining live commands keep their facts
                assert forall|q: int| 0 <= q < live@.len() implies ((#[trigger] live@[q])@
                    matches CommandV::Put { key, value } && model0.dom().contains(key)
                    && model0[key] == value && vnew.index().dom().contains(key)
                    && vnew.index()[key].segment == tc) by {
                    assert(live@[q] == live_head[q]);
                    let kq = live_head[q]@.key();
                    assert(kq != key@) by {
                        assert(live_head[lq]@.key() == key@);
                    }
                    assert(vnew.index()[kq] == vrem.index()[kq]);
                    assert(vrem.index() == vloop.index().remove(key@));
                }
                assert forall|q1: int, q2: int| 0 <= q1 < q2 < live@.len() implies (
                #[trigger] live@[q1])@.key() != (#[trigger] live@[q2])@.key() by {
                    assert(live@[q1] == live_head[q1]);
                    assert(live@[q2] == live_head[q2]);
                }
                assert(vnew.has_seg(tc)) by {
                    assert(vrem.has_seg(tc));
                }
            }
        }
        proof {
            assert forall|k: Seq<u8>| #[trigger] self@.index().dom().contains(k) implies
                self@.index()[k].segment != tc by {
                if self@.index()[k].segment == tc {
                    assert(exists|q: int|
                        0 <= q < live@.len() && (#[trigger] live@[q])@.key() == k);
                }
            }
        }
    }
}

impl KvStore {
    /// Scan one segment and collect the `Put` commands the index still
    /// points at, in segment order.
    fn collect_live(&self, p: usize, tc: u64) -> (live: Vec<Command>)
        requires
            self@.wf(),
            (p as int) < self@.segs.len(),
            self@.segs[p as int].id == tc,
        ensures
            live@.map_values(|c: Command| c@) == live_of(
                seg_records(self@.segs[p as int].data).unwrap(),
                self@.index(),
                tc,
            ),
    {
        let ghost data_g = self@.segs[p as int].data;
        let ghost rs = seg_records(data_g).unwrap();
        let ghost m0 = self@.index();
        proof {
            assert(self@.seg_base_ok(p as int));
            crate::codec::lemma_records_facts(data_g, 0);
        }
        let n = self.segments[p].data.len();
        let mut pos: usize = 0;
        let ghost mut j: int = 0;
        let mut live: Vec<Command> = Vec::new();
        while pos < n
            invariant
                self@.wf(),
                0 <= (p as int) < self@.segs.len(),
                self@.segs[p as int].id == tc,
                data_g == self@.segs[p as int].data,
                n == data_g.len(),
                seg_records(data_g) == Some(rs),
                0 <= j <= rs.len(),
                j < rs.len() ==> pos as int == rs[j].head,
                j == rs.len() ==> pos as int == data_g.len(),
                pos <= n,
                m0 == self@.index(),
                live@.map_values(|c: Command| c@) == live_of(rs.take(j), m0, tc),
            decreases n - pos,
        {
            proof {
                crate::codec::lemma_records_facts(data_g, 0);
                assert(j < rs.len());
            }
            let r = crate::codec::decode_at(&self.segments[p].data, pos);
            let (cmd, end) = match r {
                Some(x) => x,
                None => {
                    proof {
                        assert(parse_at(data_g, pos as int) == Some((rs[j].cmd, rs[j].tail)));
                        assert(false);
                    }
                    unreached()
                },
            };
            proof {
                assert(parse_at(data_g, pos as int) == Some((rs[j].cmd, rs[j].tail)));
                assert(cmd@ == rs[j].cmd && end as int == rs[j].tail);
            }
            let ghost live0 = live@;
            let mut kept: bool = false;
            match &cmd {
                Command::Put { key, value: _ } => {
                    match self.index.get(key) {
                        Some(e) => {
                            if e.segment == tc && e.head == pos && e.tail == end {
                                kept = true;
                            }
                        },
                        None => {},
                    }
                },
                _ => {},
            }
            if kept {
                live.push(cmd);
            }
            proof {
                let keep = (rs[j].cmd matches CommandV::Put { key, .. } && m0.dom().contains(key)
                    && m0[key].segment == tc && m0[key].head as int == rs[j].head
                    && m0[key].tail as int == rs[j].tail);
                assert(kept == keep);
                assert(rs.take(j + 1).drop_last() =~= rs.take(j));
                assert(rs.take(j + 1).last() == rs[j]);
                if kept {
                    assert(live@.map_values(|c: Command| c@) =~= live_of(rs.take(j), m0, tc).push(
                        cmd@,
                    ));
                } else {
                    assert(live@ == live0);
                }
                j = j + 1;
            }
            pos = end;
        }
        proof {
            crate::codec::lemma_records_facts(data_g, 0);
            assert(j == rs.len()) by {
                if j < rs.len() {
                    assert(pos as int == rs[j].head);
                    assert(rs[j].head < rs[j].tail <= data_g.len());
                }
            }
            assert(rs.take(j) =~= rs);
        }
        live
    }

    /// Compact one segment: rewrite the `Put` records the index still
    /// points at into the active segment, then delete the drained
    /// segment's file. The store's contents do not change. The rewritten
    /// bindings observe their key absent, charge no garbage anywhere, and
    /// trigger no further compaction.
    #[verifier::rlimit(100)]
    fn compaction(&mut self, tc: u64)
        requires
            old(self)@.wf(),
            old(self)@.has_seg(tc),
            old(self)@.term <= u64::MAX - 2,
        ensures
            final(self)@.wf(),
            final(self)@.model() == old(self)@.model(),
            !final(self)@.has_seg(tc),
            journal_delta_ok(old(self)@, final(self)@),
            final(self)@.max_records == old(self)@.max_records,
            final(self)@.threshold == old(self)@.threshold,
            final(self)@.term <= old(self)@.term + 2,
    {
        let ghost v0 = self@;
        if tc == self.term && self.current_log_len < self.max_records {
            self.rotate(Ghost(None));
        }
        let ghost vrot = self@;
        proof {
            assert(vrot.has_seg(tc)) by {
                if tc != v0.term || v0.count >= v0.max_records {
                } else {
                    assert(v0.has_seg(tc));
                }
            }
            assert(tc != vrot.term || vrot.count >= vrot.max_records);
            assert(journal_delta_ok(v0, vrot)) by {
                if !(tc == v0.term && v0.count < v0.max_records) {
                    assert(vrot == v0);
                    lemma_delta_refl(v0);
                }
            }
            assert(1 <= tc <= vrot.term) by {
                assert(vrot.seg_base_ok(vrot.seg_pos(tc)));
            }
        }
        let p = match self.find_pos(tc) {
            Some(p) => p,
            None => {
                proof {
                    assert(false);
                }
                unreached()
            },
        };
        proof {
            lemma_seg_pos_unique(vrot, p as int, tc);
            assert(vrot.seg_base_ok(p as int));
        }
        let ghost data_g = vrot.seg_at(tc).data;
        let ghost rs = seg_records(data_g).unwrap();
        let ghost m0 = vrot.index();
        let mut live = self.collect_live(p, tc);
        let ghost model0 = vrot.model();
        let ghost lv = live_of(rs, m0, tc);
        proof {
            lemma_live_collection(vrot, tc, lv);
            assert(live@.map_values(|c: Command| c@) == lv);
            assert(live@.len() == lv.len());
            assert forall|q: int| 0 <= q < live@.len() implies (#[trigger] live@[q])@ == lv[q] by {
                assert(live@.map_values(|c: Command| c@)[q] == live@[q]@);
            }
            assert forall|k: Seq<u8>|
                #[trigger] vrot.index().dom().contains(k) && vrot.index()[k].segment == tc
                    implies exists|q: int|
                    0 <= q < live@.len() && (#[trigger] live@[q])@.key() == k by {
                let q = choose|q: int| 0 <= q < lv.len() && (#[trigger] lv[q]).key() == k;
                assert(live@[q]@.key() == k);
            }
            assert forall|q: int| 0 <= q < live@.len() implies ((#[trigger] live@[q])@ matches
                CommandV::Put { key, value } && model0.dom().contains(key) && model0[key] == value
                && vrot.index().dom().contains(key) && vrot.index()[key].segment == tc) by {
                assert(live@[q]@ == lv[q]);
            }
            assert forall|q1: int, q2: int| 0 <= q1 < q2 < live@.len() implies (
            #[trigger] live@[q1])@.key() != (#[trigger] live@[q2])@.key() by {
                assert(live@[q1]@ == lv[q1]);
                assert(live@[q2]@ == lv[q2]);
            }
        }
        proof {
            lemma_delta_refl(vrot);
        }
        self.rewrite_live(live, tc, Ghost(model0), Ghost(vrot.term));
        proof {
            lemma_delta_trans(v0, vrot, self@);
        }
        proof {
            lemma_delta_trans(v0, vrot, self@);
        }
        let ghost vafter = self@;
        self.drop_segment(tc);
        proof {
            lemma_delta_trans(v0, vafter, self@);
        }
    }
}

impl KvStore {
    /// Remove a fully drained segment from the store and journal the
    /// deletion of its file.
    #[verifier::rlimit(100)]
    fn drop_segment(&mut self, tc: u64)
        requires
            old(self)@.wf_except(Some(tc)),
            old(self)@.has_seg(tc),
            1 <= tc,
            tc != old(self)@.term || old(self)@.count >= old(self)@.max_records,
            forall|k: Seq<u8>|
                #[trigger] old(self)@.index().dom().contains(k) ==> old(self)@.index()[k].segment
                    != tc,
        ensures
            final(self)@.wf(),
            final(self)@.model() == old(self)@.model(),
            !final(self)@.has_seg(tc),
            journal_delta_ok(old(self)@, final(self)@),
            final(self)@.max_records == old(self)@.max_records,
            final(self)@.threshold == old(self)@.threshold,
            final(self)@.term == old(self)@.term,
    {
        let ghost vl = self@;
        proof {
            // nothing points into the drained segment any more
            assert forall|jj: int| 0 <= jj < vl.entries.len() implies
                (#[trigger] vl.entries[jj].loc).segment != tc by {
                crate::index::lemma_assoc_get(vl.entries, jj);
                let k = vl.entries[jj].key@;
                if vl.entries[jj].loc.segment == tc {
                    assert(vl.index().dom().contains(k) && vl.index()[k].segment == tc);
                    assert(false);
                }
            }
            crate::index::lemma_count_absent(vl.entries, tc);
        }
        let p2 = match self.find_pos(tc) {
            Some(p2) => p2,
            None => {
                proof {
                    assert(false);
                }
                unreached()
            },
        };
        proof {
            lemma_seg_pos_unique(vl, p2 as int, tc);
        }
        let _removed = self.segments.remove(p2);
        self.journal.push(DiskOp::Delete { segment: tc });
        proof {
            let vd = self@;
            assert(vd.segs =~= vl.segs.remove(p2 as int));
            assert(vd.journal =~= vl.journal.push(DiskOpV::Delete { segment: tc }));
            lemma_remove_seg(vl, vd, p2 as int);
            // every surviving entry is untouched
            assert forall|k: Seq<u8>| #[trigger] vd.index().dom().contains(k) implies vd.entry_ok(
                k,
            ) && vd.value_at(k) == vl.value_at(k) by {
                assert(vl.entry_ok(k));
                let e = vl.index()[k];
                assert(e.segment != tc);
                assert(vd.seg_at(e.segment) == vl.seg_at(e.segment));
            }
            // per-segment facts survive the deletion
            assert forall|i: int| 0 <= i < vd.segs.len() implies vd.seg_base_ok(i)
                && vd.seg_count_ok(i) by {
                let i0 = if i < p2 as int {
                    i
                } else {
                    i + 1
                };
                assert(vd.segs[i] == vl.segs[i0]);
                assert(vl.seg_base_ok(i0));
                assert(vl.segs[i0].id != tc);
                assert(vl.seg_count_ok(i0));
            }
            // the active-segment clause
            assert(vd.count <= vd.max_records);
            if tc == vl.term {
                assert(vl.count >= vl.max_records);
                assert(!vd.has_seg(vd.term));
            } else {
                if vl.has_seg(vl.term) {
                    assert(vl.segs.last().id == vl.term);
                    assert((p2 as int) < vl.segs.len() - 1) by {
                        assert(vl.segs[p2 as int].id == tc);
                    }
                    assert(vd.segs.last() == vl.segs.last());
                    assert(vd.has_seg(vd.term)) by {
                        assert(vd.segs[vd.segs.len() - 1].id == vd.term);
                    }
                    lemma_seg_pos_unique(vd, vd.segs.len() - 1, vd.term);
                } else {
                    assert(vl.count == vl.max_records);
                    assert(!vd.has_seg(vd.term)) by {
                        if vd.has_seg(vd.term) {
                            assert(vl.has_seg(vd.term));
                        }
                    }
                }
            }
            assert(vd.wf());
            // the model survives unchanged
            assert(vd.model() =~= vl.model());
            // the journal delta mirrors the deletion
            assert(journal_delta_ok(vl, vd)) by {
                assert(vd.journal.take(vl.journal.len() as int) =~= vl.journal);
                let delta = vd.journal.skip(vl.journal.len() as int);
                assert(delta =~= seq![DiskOpV::Delete { segment: tc }]);
                lemma_apply_ops_one(vl.disk(), DiskOpV::Delete { segment: tc });
                assert(vd.disk() =~= vl.disk().remove(tc));
            }
        }
    }
}


/// What the counter updates of one removal do to the segment list, given
/// where the key pointed.
pub open spec fn bumped_segs_rm(va: StoreView, e: ValueIndex) -> Seq<SegV> {
    let ap = va.segs.len() - 1;
    let a = va.segs[ap];
    if e.segment == va.term {
        va.segs.update(
            ap,
            SegV {
                id: a.id,
                data: a.data,
                counts: (LengthCount {
                    len: (a.counts.len + 1) as usize,
                    len_garbage: (a.counts.len_garbage + 2) as usize,
                }),
            },
        )
    } else {
        let op = va.seg_pos(e.segment);
        let o = va.segs[op];
        va.segs.update(
            op,
            SegV {
                id: o.id,
                data: o.data,
                counts: (LengthCount {
                    len: o.counts.len,
                    len_garbage: (o.counts.len_garbage + 1) as usize,
                }),
            },
        ).update(
            ap,
            SegV {
                id: a.id,
                data: a.data,
                counts: (LengthCount {
                    len: (a.counts.len + 1) as usize,
                    len_garbage: (a.counts.len_garbage + 1) as usize,
                }),
            },
        )
    }
}

/// The active segment id after the rotation check of one write: a fresh
/// id when the active segment is full, the current one otherwise.
pub open spec fn step_term(v0: StoreView) -> u64 {
    if v0.count >= v0.max_records {
        (v0.term + 1) as u64
    } else {
        v0.term
    }
}

/// Where the index maps `key` before a write, if anywhere.
pub open spec fn write_old_loc(v0: StoreView, key: Seq<u8>) -> Option<ValueIndex> {
    if v0.index().dom().contains(key) {
        Some(v0.index()[key])
    } else {
        None
    }
}

/// The store right after a write rotated (if the active segment was full)
/// and appended `c`'s record to the active segment, before garbage
/// accounting, the record count bump and the index update.
pub open spec fn step_mid(v0: StoreView, c: CommandV) -> StoreView {
    let rotated = v0.count >= v0.max_records;
    let fresh = SegV {
        id: (v0.term + 1) as u64,
        data: Seq::empty(),
        counts: (LengthCount { len: 0, len_garbage: 0 }),
    };
    let segs1 = if rotated {
        v0.segs.push(fresh)
    } else {
        v0.segs
    };
    let t = step_term(v0);
    let ap = segs1.len() - 1;
    StoreView {
        segs: segs1.update(ap, SegV { id: t, data: segs1[ap].data + enc(c), counts: segs1[ap].counts }),
        entries: v0.entries,
        term: t,
        count: if rotated {
            0
        } else {
            v0.count
        },
        max_records: v0.max_records,
        threshold: v0.threshold,
        journal: (if rotated {
            v0.journal.push(DiskOpV::Create { segment: (v0.term + 1) as u64 })
        } else {
            v0.journal
        }).push(DiskOpV::Append { segment: t, bytes: enc(c) }),
    }
}

/// The segment list after one binding of `key` to `value`: rotation if
/// the active segment was full, the record appended, and the counters
/// adjusted for any superseded record.
pub open spec fn set_step_segs(v0: StoreView, key: Seq<u8>, value: Seq<u8>) -> Seq<SegV> {
    bumped_segs(step_mid(v0, (CommandV::Put { key, value })), write_old_loc(v0, key))
}

/// The segment list after one removal of a bound `key`: rotation if the
/// active segment was full, the tombstone appended, and the counters
/// adjusted for the dead record and the tombstone itself.
pub open spec fn rm_step_segs(v0: StoreView, key: Seq<u8>) -> Seq<SegV> {
    bumped_segs_rm(step_mid(v0, (CommandV::Rm { key })), v0.index()[key])
}

/// The index entry one write creates: the active segment after the
/// rotation check, and the byte range the record occupies there.
pub open spec fn write_loc(v0: StoreView, c: CommandV) -> ValueIndex {
    let h: int = if v0.count >= v0.max_records {
        0
    } else {
        v0.segs.last().data.len() as int
    };
    ValueIndex { segment: step_term(v0), head: h as usize, tail: (h + enc(c).len()) as usize }
}

/// The disk operations one write journals: a file creation when it
/// rotates, then the append of the record's bytes.
pub open spec fn write_ops(v0: StoreView, c: CommandV) -> Seq<DiskOpV> {
    (if v0.count >= v0.max_records {
        seq![DiskOpV::Create { segment: (v0.term + 1) as u64 }]
    } else {
        Seq::empty()
    }) + seq![DiskOpV::Append { segment: step_term(v0), bytes: enc(c) }]
}

/// Whether counters put a segment's garbage rate strictly above a
/// threshold given in thousandths; a segment with no records is never
/// above any threshold.
pub open spec fn rate_exceeds(c: LengthCount, permille: u64) -> bool {
    1000 * c.len_garbage > permille * c.len
}

/// The segment a binding of `key` charges its garbage to, when that
/// segment's new rate crosses the threshold: the old record's segment.
pub open spec fn set_gain_candidate(v0: StoreView, key: Seq<u8>) -> Option<u64> {
    match write_old_loc(v0, key) {
        None => None,
        Some(e) => {
            let c0 = v0.seg_at(e.segment).counts;
            if e.segment == step_term(v0) {
                if rate_exceeds(
                    LengthCount {
                        len: (c0.len + 1) as usize,
                        len_garbage: (c0.len_garbage + 1) as usize,
                    },
                    v0.threshold,
                ) {
                    Some(e.segment)
                } else {
                    None
                }
            } else {
                if rate_exceeds(
                    LengthCount { len: c0.len, len_garbage: (c0.len_garbage + 1) as usize },
                    v0.threshold,
                ) {
                    Some(e.segment)
                } else {
                    None
                }
            }
        },
    }
}

/// The segment a removal of `key` charges its garbage to, when that
/// segment's new rate crosses the threshold. Defined for a bound `key`.
pub open spec fn rm_gain_candidate(v0: StoreView, key: Seq<u8>) -> Option<u64> {
    let e = v0.index()[key];
    let c0 = v0.seg_at(e.segment).counts;
    if e.segment == step_term(v0) {
        if rate_exceeds(
            LengthCount {
                len: (c0.len + 1) as usize,
                len_garbage: (c0.len_garbage + 2) as usize,
            },
            v0.threshold,
        ) {
            Some(e.segment)
        } else {
            None
        }
    } else {
        if rate_exceeds(
            LengthCount { len: c0.len, len_garbage: (c0.len_garbage + 1) as usize },
            v0.threshold,
        ) {
            Some(e.segment)
        } else {
            None
        }
    }
}

/// The segment one binding compacts, if any: the old record's segment
/// when its new rate crosses the threshold, else the active segment when
/// its own rate does.
pub open spec fn set_candidate(v0: StoreView, key: Seq<u8>, value: Seq<u8>) -> Option<u64> {
    if set_gain_candidate(v0, key) is Some {
        set_gain_candidate(v0, key)
    } else {
        if rate_exceeds(set_step_segs(v0, key, value).last().counts, v0.threshold) {
            Some(step_term(v0))
        } else {
            None
        }
    }
}

/// The segment one removal compacts, if any: the dead record's segment
/// when its new rate crosses the threshold, else the active segment when
/// its own rate does. Defined for a bound `key`.
pub open spec fn rm_candidate(v0: StoreView, key: Seq<u8>) -> Option<u64> {
    if rm_gain_candidate(v0, key) is Some {
        rm_gain_candidate(v0, key)
    } else {
        if rate_exceeds(rm_step_segs(v0, key).last().counts, v0.threshold) {
            Some(step_term(v0))
        } else {
            None
        }
    }
}

/// The segment files a list of segments stands for.
pub open spec fn files_of_segs(segs: Seq<SegV>) -> Seq<SegFileV> {
    segs.map_values(|sg: SegV| SegFileV { id: sg.id, data: sg.data })
}

/// The segment files a store would leave on disk once its journal is
/// drained.
pub open spec fn files_of(v: StoreView) -> Seq<SegFileV> {
    files_of_segs(v.segs)
}

/// Whether replaying the store's own files rebuilds exactly its index,
/// so that every key reads back the same after a close and reopen. It
/// holds of a freshly opened store, and a binding or a removal that
/// triggers no compaction preserves it: both append the record that
/// replay folds last. A compaction can break it when the drained segment
/// held a tombstone whose dead record sits in an older segment that is
/// still on disk.
pub open spec fn durable(v: StoreView) -> bool {
    rindex_files(files_of(v)) == v.index()
}

/// Two segment lists that differ only in counters stand for the same
/// files.
proof fn lemma_files_counts_only(s1: Seq<SegV>, s2: Seq<SegV>)
    requires
        s1.len() == s2.len(),
        forall|i: int|
            0 <= i < s1.len() ==> (#[trigger] s1[i]).id == s2[i].id && s1[i].data == s2[i].data,
    ensures
        files_of_segs(s1) == files_of_segs(s2),
{
    assert(files_of_segs(s1) =~= files_of_segs(s2));
}

/// A write that triggers no compaction preserves durability: the record
/// it appends to the active segment is exactly the record that replaying
/// the files folds last.
#[verifier::rlimit(100)]
proof fn lemma_write_preserves_durable(v0: StoreView, v1: StoreView, c: CommandV)
    requires
        v0.wf(),
        c.encodable(),
        durable(v0),
        files_of(v1) == files_of_segs(step_mid(v0, c).segs),
        v1.index() == rindex_cmd(
            v0.index(),
            step_term(v0),
            (RecAt {
                cmd: c,
                head: (if v0.count >= v0.max_records {
                    0int
                } else {
                    v0.segs.last().data.len() as int
                }),
                tail: (if v0.count >= v0.max_records {
                    0int
                } else {
                    v0.segs.last().data.len() as int
                }) + enc(c).len(),
            }),
        ),
    ensures
        durable(v1),
{
    let rotated = v0.count >= v0.max_records;
    let t = step_term(v0);
    let fs0 = files_of(v0);
    let fs1 = files_of(v1);
    crate::codec::lemma_enc_len(c);
    if rotated {
        let rec0 = RecAt { cmd: c, head: 0, tail: crate::codec::enc_len(c) };
        assert(fs1 =~= fs0.push(SegFileV { id: t, data: enc(c) })) by {
            assert(Seq::<u8>::empty() + enc(c) =~= enc(c));
        }
        assert(records_from(Seq::<u8>::empty(), 0) == Some(Seq::<RecAt>::empty()));
        crate::codec::lemma_records_snoc(Seq::<u8>::empty(), 0, c);
        assert(Seq::<u8>::empty() + enc(c) =~= enc(c));
        assert(seg_records(enc(c)) == Some(Seq::<RecAt>::empty().push(rec0)));
        let fs1b = fs0.push(SegFileV { id: t, data: enc(c) });
        assert(fs1b.drop_last() =~= fs0);
        assert(rindex_files(fs1b) == rindex_records(
            rindex_files(fs0),
            t,
            Seq::<RecAt>::empty().push(rec0),
        ));
        assert(Seq::<RecAt>::empty().push(rec0).drop_last() =~= Seq::<RecAt>::empty());
        assert(rindex_records(rindex_files(fs0), t, Seq::<RecAt>::empty()) == rindex_files(fs0));
        assert(Seq::<RecAt>::empty().push(rec0).last() == rec0);
        assert(rindex_records(rindex_files(fs0), t, Seq::<RecAt>::empty().push(rec0))
            == rindex_cmd(rindex_files(fs0), t, rec0));
        assert(rindex_files(fs1) == rindex_cmd(v0.index(), t, rec0));
    } else {
        assert(v0.has_seg(v0.term) && v0.segs.len() > 0 && v0.segs.last().id == v0.term);
        let ap = v0.segs.len() - 1;
        let data = v0.segs.last().data;
        assert(seg_records(data) is Some) by {
            assert(v0.seg_base_ok(ap));
        }
        let rs = seg_records(data).unwrap();
        crate::codec::lemma_records_snoc(data, 0, c);
        let rec0 = RecAt { cmd: c, head: data.len() as int, tail: data.len() + crate::codec::enc_len(c) };
        assert(seg_records(data + enc(c)) == Some(rs.push(rec0)));
        assert(fs1 =~= fs0.update(ap, SegFileV { id: v0.term, data: data + enc(c) }));
        assert(fs1.len() == fs0.len() == v0.segs.len());
        assert(fs1.drop_last() =~= fs0.drop_last());
        assert(fs1.last().id == v0.term && fs1.last().data == data + enc(c));
        assert(fs0.last().id == v0.term && fs0.last().data == data);
        assert(rindex_files(fs1) == rindex_records(
            rindex_files(fs1.drop_last()),
            v0.term,
            rs.push(rec0),
        ));
        assert(rindex_files(fs0) == rindex_records(rindex_files(fs0.drop_last()), v0.term, rs));
        assert(rs.push(rec0).drop_last() =~= rs);
        assert(rindex_records(rindex_files(fs1.drop_last()), v0.term, rs.push(rec0))
            == rindex_cmd(rindex_records(rindex_files(fs1.drop_last()), v0.term, rs), v0.term, rec0));
        assert(rindex_files(fs1) == rindex_cmd(v0.index(), t, rec0));
    }
}

/// The heart of the removal path: appending one `Rm` record, accounting
/// for the dead record and the tombstone itself, and unbinding the key
/// preserves well-formedness and removes exactly that binding from the
/// model.
#[verifier::rlimit(100)]
proof fn lemma_remove_finish(
    vr: StoreView,
    va: StoreView,
    v1: StoreView,
    key: Seq<u8>,
    old_e: ValueIndex,
)
    requires
        vr.wf(),
        vr.segs.len() > 0,
        vr.segs.last().id == vr.term,
        vr.count < vr.max_records,
        va.segs == vr.segs.update(
            vr.segs.len() - 1,
            SegV {
                id: vr.term,
                data: vr.segs.last().data + enc(CommandV::Rm { key }),
                counts: vr.segs.last().counts,
            },
        ),
        va.entries == vr.entries && va.term == vr.term && va.count == vr.count && va.max_records
            == vr.max_records && va.threshold == vr.threshold,
        key.len() < crate::codec::pow10(crate::codec::LEN_WIDTH as nat),
        vr.index().dom().contains(key),
        old_e == vr.index()[key],
        v1.segs == bumped_segs_rm(va, old_e),
        v1.term == va.term && v1.count == va.count + 1 && v1.max_records == va.max_records
            && v1.threshold == va.threshold,
        unique_keys(v1.entries),
        v1.index() == va.index().remove(key),
        exists|j: int|
            0 <= j < va.entries.len() && (#[trigger] va.entries[j]).key@ == key && v1.entries
                == va.entries.remove(j),
    ensures
        v1.wf(),
        v1.model() == vr.model().remove(key),
        forall|id: u64| #[trigger] v1.has_seg(id) <==> vr.has_seg(id),
        v1.disk() == apply_op(vr.disk(), (DiskOpV::Append {
            segment: vr.term,
            bytes: enc(CommandV::Rm { key }),
        })),
{
    let cv = CommandV::Rm { key };
    let rec = enc(cv);
    let term = vr.term;
    let ap = vr.segs.len() - 1;
    let ad = vr.segs.last().data;
    let newrec = RecAt { cmd: cv, head: ad.len() as int, tail: ad.len() + rec.len() as int };
    crate::codec::lemma_enc_len(cv);
    assert(vr.seg_base_ok(ap));
    assert((ad + rec).subrange(ad.len() as int, ad.len() + crate::codec::enc_len(cv)) =~= rec);
    crate::codec::lemma_records_snoc(ad, 0, cv);
    lemma_update_seg(vr, va, ap, va.segs[ap]);
    assert(vr.entry_ok(key));
    assert(va.has_seg(old_e.segment));
    crate::index::lemma_assoc_witness(vr.entries, key);
    let jw = choose|j: int| 0 <= j < vr.entries.len() && (#[trigger] vr.entries[j].key@) == key;
    crate::index::lemma_assoc_get(vr.entries, jw);
    crate::index::lemma_count_witness(vr.entries, jw, old_e.segment);
    if old_e.segment != va.term {
        lemma_seg_pos_unique(va, va.seg_pos(old_e.segment), old_e.segment);
    }
    // v1's segments carry the same ids and bytes as va's
    assert(v1.segs.len() == va.segs.len());
    assert(forall|i: int|
        0 <= i < v1.segs.len() ==> (#[trigger] v1.segs[i]).id == va.segs[i].id && v1.segs[i].data
            == va.segs[i].data);
    assert forall|i: int, j: int| 0 <= i < j < v1.segs.len() implies (#[trigger] v1.segs[i].id)
        < (#[trigger] v1.segs[j].id) by {
        assert(va.segs[i].id < va.segs[j].id);
    }
    assert forall|id: u64| #[trigger] v1.has_seg(id) implies va.has_seg(id) by {
        let q = v1.seg_pos(id);
        assert(va.segs[q].id == id);
    }
    assert forall|id: u64| #[trigger] va.has_seg(id) implies v1.has_seg(id) && v1.seg_at(id).data
        == va.seg_at(id).data && v1.seg_at(id).id == id by {
        let q = va.seg_pos(id);
        assert(va.segs[q].id == id);
        assert(v1.segs[q].id == id);
        lemma_seg_pos_unique(v1, q, id);
    }
    lemma_seg_pos_unique(va, ap, term);
    lemma_seg_pos_unique(v1, ap, term);
    assert(v1.seg_at(term).data == ad + rec);
    assert(seg_records(ad + rec) == Some(seg_records(ad).unwrap().push(newrec)));
    // every remaining entry still points at the same record
    assert forall|k: Seq<u8>| #[trigger] vr.index().dom().contains(k) && k != key implies
        v1.index()[k] == vr.index()[k] && v1.entry_ok(k) && v1.value_at(k) == vr.value_at(k) by {
        assert(vr.entry_ok(k));
        let e = vr.index()[k];
        assert(va.has_seg(e.segment));
        let sd0 = vr.seg_at(e.segment).data;
        if e.segment == term {
            assert(sd0 == ad);
            crate::codec::lemma_parse_at_bounds(ad, e.head as int);
            let t = parse_at(ad, e.head as int).unwrap().1;
            assert((ad + rec).subrange(e.head as int, t) =~= ad.subrange(e.head as int, t));
            crate::codec::lemma_parse_agree(ad, e.head as int, ad + rec, e.head as int);
            let rs0 = seg_records(ad).unwrap();
            let j = choose|j: int|
                0 <= j < rs0.len() && (#[trigger] rs0[j]).head == e.head as int && rs0[j].tail
                    == e.tail as int;
            assert(rs0.push(newrec)[j] == rs0[j]);
            assert(v1.entry_ok(k));
        } else {
            assert(v1.seg_at(e.segment).data == sd0);
            let rs0 = seg_records(sd0).unwrap();
            let j = choose|j: int|
                0 <= j < rs0.len() && (#[trigger] rs0[j]).head == e.head as int && rs0[j].tail
                    == e.tail as int;
            assert(v1.entry_ok(k));
        }
    }
    // base facts for every segment of v1
    assert forall|i: int| 0 <= i < v1.segs.len() implies v1.seg_base_ok(i) by {
        assert(vr.seg_base_ok(i));
        assert(va.segs[i].id == vr.segs[i].id);
        if i == ap {
            assert(v1.segs[i].counts.len == vr.segs[i].counts.len + 1);
            assert(vr.segs[i].counts.len == vr.count);
            if old_e.segment == term {
                assert(vr.seg_count_ok(i));
                crate::index::lemma_count_bounds(vr.entries, term);
                assert(vr.segs[i].counts.len_garbage + 1 <= vr.segs[i].counts.len);
            }
        } else {
            assert(v1.segs[i].data == vr.segs[i].data);
            if old_e.segment != term && vr.segs[i].id == old_e.segment {
                lemma_seg_pos_unique(va, i, old_e.segment);
                assert(v1.segs[i].counts.len_garbage == vr.segs[i].counts.len_garbage + 1);
                assert(vr.seg_count_ok(i));
                crate::index::lemma_count_bounds(vr.entries, old_e.segment);
            } else {
                assert(v1.segs[i].counts == vr.segs[i].counts);
            }
        }
    }
    // counters still match the index
    assert forall|i: int| 0 <= i < v1.segs.len() implies v1.seg_count_ok(i) by {
        let id = v1.segs[i].id;
        assert(vr.seg_count_ok(i));
        let jx = choose|j: int|
            0 <= j < va.entries.len() && (#[trigger] va.entries[j]).key@ == key && v1.entries
                == va.entries.remove(j);
        crate::index::lemma_assoc_get(vr.entries, jx);
        assert(vr.entries[jx].loc == old_e);
        crate::index::lemma_count_remove(vr.entries, jx, id);
        if old_e.segment != term && id == old_e.segment {
            lemma_seg_pos_unique(va, i, id);
        }
    }
    // the active-segment clause
    assert(v1.has_seg(v1.term));
    assert(v1.segs.last().id == v1.term);
    assert(v1.segs.last().counts.len == v1.count);
    assert(v1.wf());
    // the model lost exactly the one binding
    assert(v1.model() =~= vr.model().remove(key));
    // the mirrored files changed by exactly the append
    assert forall|id: u64| #[trigger] vr.has_seg(id) implies v1.has_seg(id) && v1.seg_at(id).data
        == (if id == vr.term {
        vr.seg_at(id).data + rec
    } else {
        vr.seg_at(id).data
    }) by {
        assert(va.has_seg(id));
        if id != term {
            assert(va.seg_at(id) == vr.seg_at(id));
        } else {
            assert(va.seg_at(term) == va.segs[ap]);
        }
    }
    assert(vr.disk()[term] == ad);
    assert(v1.disk() =~= vr.disk().insert(term, ad + rec));
}


impl KvStore {
    /// Bind `key` to `value`. The binding replaces any previous one: the
    /// store rotates if the active segment is full, appends the record
    /// there, charges the superseded record as garbage, and points the
    /// index at the new byte range — `set_step_segs`, `write_loc` and
    /// `write_ops` spell each part out. If the garbage rate of an
    /// affected segment now exceeds the threshold (`set_candidate`), that
    /// segment is compacted.
    pub fn set(&mut self, key: Vec<u8>, value: Vec<u8>) -> (r: Result<(), KvsError>)
        requires
            old(self)@.wf(),
            old(self)@.term <= u64::MAX - 3,
        ensures
            r is Ok,
            final(self)@.wf(),
            final(self)@.model() == old(self)@.model().insert(key@, value@),
            journal_delta_ok(old(self)@, final(self)@),
            final(self)@.max_records == old(self)@.max_records,
            final(self)@.threshold == old(self)@.threshold,
            final(self)@.term <= old(self)@.term + 3,
            set_candidate(old(self)@, key@, value@) is None ==> ({
                &&& final(self)@.segs == set_step_segs(old(self)@, key@, value@)
                &&& final(self)@.term == step_term(old(self)@)
                &&& final(self)@.count == (if old(self)@.count >= old(self)@.max_records {
                    1int
                } else {
                    old(self)@.count + 1
                })
                &&& final(self)@.index() == old(self)@.index().insert(
                    key@,
                    write_loc(old(self)@, (CommandV::Put { key: key@, value: value@ })),
                )
                &&& final(self)@.journal == old(self)@.journal + write_ops(
                    old(self)@,
                    (CommandV::Put { key: key@, value: value@ }),
                )
                &&& (durable(old(self)@) ==> durable(final(self)@))
            }),
            set_candidate(old(self)@, key@, value@) matches Some(tc) ==> !final(self)@.has_seg(
                tc,
            ) && final(self)@.term <= step_term(old(self)@) + 2,
    {
        let ghost v0 = self@;
        let cand = self.set_inner(key, value, Ghost(None));
        let ghost v1 = self@;
        let ghost cv = CommandV::Put { key: key@, value: value@ };
        proof {
            assert(v1.has_seg(v1.term)) by {
                assert(v1.index().dom().contains(key@));
                assert(v1.entry_ok(key@));
            }
            assert(v1.segs.len() > 0 && v1.segs.last().id == v1.term);
        }
        let cand = match cand {
            Some(tc) => Some(tc),
            None => {
                let apos = self.segments.len() - 1;
                let c = self.segments[apos].counts;
                proof {
                    assert(self@.segs[apos as int] == self.segments@[apos as int]@);
                    assert(c == v1.segs.last().counts);
                    assert(c == set_step_segs(v0, key@, value@).last().counts);
                }
                if c.garbage_rate_exceeds(self.threshold) {
                    Some(self.term)
                } else {
                    None
                }
            },
        };
        proof {
            assert(cand == set_candidate(v0, key@, value@));
        }
        match cand {
            Some(tc) => {
                proof {
                    assert(v1.has_seg(tc));
                }
                self.compaction(tc);
                proof {
                    lemma_delta_trans(v0, v1, self@);
                }
            },
            None => {
                proof {
                    if durable(v0) {
                        assert(usize::MAX < crate::codec::pow10(crate::codec::LEN_WIDTH as nat))
                            by {
                            crate::codec::lemma_u64_fits_len_width();
                        }
                        assert(v1.index() == rindex_cmd(
                            v0.index(),
                            step_term(v0),
                            (RecAt {
                                cmd: cv,
                                head: (if v0.count >= v0.max_records {
                                    0int
                                } else {
                                    v0.segs.last().data.len() as int
                                }),
                                tail: (if v0.count >= v0.max_records {
                                    0int
                                } else {
                                    v0.segs.last().data.len() as int
                                }) + enc(cv).len(),
                            }),
                        )) by {
                            crate::codec::lemma_enc_len(cv);
                            if !(v0.count >= v0.max_records) {
                                assert(v0.has_seg(v0.term));
                            }
                        }
                        lemma_write_preserves_durable(v0, v1, cv);
                    }
                }
            },
        }
        Ok(())
    }

    /// Unbind `key`. Fails with `KeyNotFound`, touching nothing, when the
    /// key is not bound; otherwise a tombstone record lands in the active
    /// segment (after rotating if it is full) and both the dead record
    /// and the tombstone itself are charged as garbage — `rm_step_segs`
    /// and `write_ops` spell each part out. If the garbage rate of an
    /// affected segment now exceeds the threshold (`rm_candidate`), that
    /// segment is compacted.
    #[verifier::rlimit(100)]
    pub fn remove(&mut self, key: Vec<u8>) -> (r: Result<(), KvsError>)
        requires
            old(self)@.wf(),
            old(self)@.term <= u64::MAX - 3,
        ensures
            old(self)@.model().dom().contains(key@) ==> r is Ok && final(self)@.wf()
                && final(self)@.model() == old(self)@.model().remove(key@)
                && journal_delta_ok(old(self)@, final(self)@)
                && final(self)@.max_records == old(self)@.max_records
                && final(self)@.threshold == old(self)@.threshold
                && final(self)@.term <= old(self)@.term + 3,
            !old(self)@.model().dom().contains(key@) ==> r == Err::<(), KvsError>(
                KvsError::KeyNotFound,
            ) && final(self)@ == old(self)@,
            old(self)@.model().dom().contains(key@) && rm_candidate(old(self)@, key@) is None
                ==> ({
                &&& final(self)@.segs == rm_step_segs(old(self)@, key@)
                &&& final(self)@.term == step_term(old(self)@)
                &&& final(self)@.count == (if old(self)@.count >= old(self)@.max_records {
                    1int
                } else {
                    old(self)@.count + 1
                })
                &&& final(self)@.index() == old(self)@.index().remove(key@)
                &&& final(self)@.journal == old(self)@.journal + write_ops(
                    old(self)@,
                    (CommandV::Rm { key: key@ }),
                )
                &&& (durable(old(self)@) ==> durable(final(self)@))
            }),
            old(self)@.model().dom().contains(key@) ==> (rm_candidate(old(self)@, key@) matches
                Some(tc) ==> !final(self)@.has_seg(tc) && final(self)@.term <= step_term(
                old(self)@,
            ) + 2),
    {
        let ghost v0 = self@;
        match self.index.get(&key) {
            Some(_) => {},
            None => {
                return Err(KvsError::KeyNotFound);
            },
        }
        if self.current_log_len >= self.max_records {
            self.rotate(Ghost(None));
        }
        let ghost vr = self@;
        proof {
            if v0.count >= v0.max_records {
                assert(vr.has_seg(vr.term) && vr.segs.last().id == vr.term);
            } else {
                assert(v0.has_seg(v0.term));
                assert(vr == v0);
            }
            assert(vr.index() == v0.index());
        }
        let cmd = Command::remove(key);
        let (_head, _tail) = self.append_record(&cmd);
        let ghost rec = enc(cmd@);
        let ghost va = self@;
        let key = match cmd {
            Command::Rm { key } => key,
            _ => {
                proof {
                    assert(false);
                }
                unreached()
            },
        };
        proof {
            assert(usize::MAX < crate::codec::pow10(crate::codec::LEN_WIDTH as nat)) by {
                crate::codec::lemma_u64_fits_len_width();
            }
        }
        let e = match self.index.get(&key) {
            Some(e) => e,
            None => {
                proof {
                    assert(false);
                }
                unreached()
            },
        };
        proof {
            assert(self@.segs.len() == vr.segs.len());
            crate::index::lemma_assoc_witness(vr.entries, key@);
            let j = choose|j: int|
                0 <= j < vr.entries.len() && (#[trigger] vr.entries[j].key@) == key@;
            crate::index::lemma_assoc_get(vr.entries, j);
            assert(vr.entries[j].loc == e);
            crate::index::lemma_count_witness(vr.entries, j, e.segment);
        }
        let apos = self.segments.len() - 1;
        let mut candidate: Option<u64> = None;
        let threshold = self.threshold;
        if e.segment == self.term {
            proof {
                assert(vr.seg_count_ok(apos as int));
                crate::index::lemma_count_bounds(vr.entries, e.segment);
            }
            self.bump_counts(apos, 1, 2);
            proof {
                assert(self@.segs.len() == va.segs.len());
            }
            let c = self.segments[apos].counts;
            let exceeded = c.garbage_rate_exceeds(threshold);
            if exceeded {
                candidate = Some(self.term);
            }
            proof {
                assert(!(v0.count >= v0.max_records)) by {
                    if v0.count >= v0.max_records {
                        lemma_entries_bounded(v0);
                        crate::index::lemma_assoc_witness(v0.entries, key@);
                        let j = choose|j: int|
                            0 <= j < v0.entries.len() && (#[trigger] v0.entries[j].key@) == key@;
                        crate::index::lemma_assoc_get(v0.entries, j);
                        assert(e.segment <= v0.term);
                    }
                }
                assert(vr == v0);
                lemma_seg_pos_unique(v0, v0.segs.len() - 1, v0.term);
                assert(v0.seg_at(v0.term).counts == vr.segs.last().counts);
                assert(self@.segs[apos as int] == self.segments@[apos as int]@);
                assert(c == self@.segs[apos as int].counts);
                assert(self@.segs[apos as int].counts == (LengthCount {
                    len: (va.segs[apos as int].counts.len + 1) as usize,
                    len_garbage: (va.segs[apos as int].counts.len_garbage + 2) as usize,
                }));
                assert(c == (LengthCount {
                    len: (v0.seg_at(e.segment).counts.len + 1) as usize,
                    len_garbage: (v0.seg_at(e.segment).counts.len_garbage + 2) as usize,
                }));
                assert(candidate == rm_gain_candidate(v0, key@));
            }
        } else {
            let opos = match self.find_pos(e.segment) {
                Some(p) => p,
                None => {
                    proof {
                        assert(vr.entry_ok(key@));
                        assert(va.has_seg(e.segment)) by {
                            lemma_update_seg(vr, va, vr.segs.len() - 1, va.segs[vr.segs.len() - 1]);
                        }
                        assert(false);
                    }
                    unreached()
                },
            };
            proof {
                assert(vr.entry_ok(key@));
                lemma_update_seg(vr, va, vr.segs.len() - 1, va.segs[vr.segs.len() - 1]);
                lemma_seg_pos_unique(va, opos as int, e.segment);
                assert(va.segs[opos as int].counts == vr.segs[opos as int].counts);
                assert(vr.seg_count_ok(opos as int));
                crate::index::lemma_count_bounds(vr.entries, e.segment);
                assert(vr.segs[opos as int].counts.len_garbage < vr.segs[opos as int].counts.len);
            }
            self.bump_counts(opos, 0, 1);
            proof {
                assert(self@.segs.len() == va.segs.len());
                assert(vr.segs[apos as int].id == vr.term);
                assert(opos != apos);
                assert(self@.segs[apos as int].counts == vr.segs[apos as int].counts);
                assert(vr.seg_base_ok(apos as int));
                assert(vr.segs[apos as int].counts.len == vr.count);
            }
            let c = self.segments[opos].counts;
            let exceeded = c.garbage_rate_exceeds(threshold);
            if exceeded {
                candidate = Some(e.segment);
            }
            proof {
                assert(v0.seg_at(e.segment) == vr.seg_at(e.segment)) by {
                    if v0.count >= v0.max_records {
                        assert(v0.has_seg(e.segment)) by {
                            lemma_entries_bounded(v0);
                            crate::index::lemma_assoc_witness(v0.entries, key@);
                            let j = choose|j: int|
                                0 <= j < v0.entries.len() && (#[trigger] v0.entries[j].key@)
                                    == key@;
                            crate::index::lemma_assoc_get(v0.entries, j);
                        }
                    }
                }
                assert(e.segment != step_term(v0)) by {
                    if v0.count >= v0.max_records {
                        lemma_entries_bounded(v0);
                        crate::index::lemma_assoc_witness(v0.entries, key@);
                        let j = choose|j: int|
                            0 <= j < v0.entries.len() && (#[trigger] v0.entries[j].key@) == key@;
                        crate::index::lemma_assoc_get(v0.entries, j);
                        assert(e.segment <= v0.term);
                    }
                }
                assert(self@.segs[opos as int] == self.segments@[opos as int]@);
                assert(c == self@.segs[opos as int].counts);
                assert(self@.segs[opos as int].counts == (LengthCount {
                    len: va.segs[opos as int].counts.len,
                    len_garbage: (va.segs[opos as int].counts.len_garbage + 1) as usize,
                }));
                assert(va.segs[opos as int].counts == v0.seg_at(e.segment).counts);
                assert(c == (LengthCount {
                    len: v0.seg_at(e.segment).counts.len,
                    len_garbage: (v0.seg_at(e.segment).counts.len_garbage + 1) as usize,
                }));
                assert(candidate == rm_gain_candidate(v0, key@));
            }
            self.bump_counts(apos, 1, 1);
        }
        let ghost vb = self@;
        self.current_log_len = self.current_log_len + 1;
        let _ = self.index.remove(&key);
        proof {
            let v1 = self@;
            assert(vb.segs =~= bumped_segs_rm(va, e)) by {
                if e.segment != va.term {
                    lemma_update_seg(vr, va, vr.segs.len() - 1, va.segs[vr.segs.len() - 1]);
                    lemma_seg_pos_unique(va, va.seg_pos(e.segment), e.segment);
                }
            }
            assert(v1.segs == vb.segs);
            assert(v1.index() == va.index().remove(key@));
            lemma_remove_finish(vr, va, v1, key@, e);
            assert(journal_delta_ok(v0, vr)) by {
                if v0.count < v0.max_records {
                    assert(vr == v0);
                    lemma_delta_refl(v0);
                }
            }
            assert(journal_delta_ok(vr, v1)) by {
                assert(v1.journal.take(vr.journal.len() as int) =~= vr.journal);
                let delta = v1.journal.skip(vr.journal.len() as int);
                assert(delta =~= seq![DiskOpV::Append { segment: vr.term, bytes: rec }]);
                lemma_apply_ops_one(vr.disk(), DiskOpV::Append { segment: vr.term, bytes: rec });
            }
            lemma_delta_trans(v0, vr, v1);
            assert(v1.model() =~= v0.model().remove(key@));
            if candidate is Some {
                assert(v1.has_seg(candidate.unwrap())) by {
                    if candidate.unwrap() != v1.term {
                        assert(va.has_seg(e.segment));
                    }
                }
            }
            // the whole step matches its specification
            let cv = CommandV::Rm { key: key@ };
            assert(va =~~= step_mid(v0, cv)) by {
                assert(va.segs =~= step_mid(v0, cv).segs);
                assert(va.journal =~= step_mid(v0, cv).journal);
            }
            assert(e == v0.index()[key@]);
            assert(v1.segs == rm_step_segs(v0, key@));
            assert(v1.index() == v0.index().remove(key@));
            assert(v1.journal =~= v0.journal + write_ops(v0, cv));
            assert forall|i: int| 0 <= i < v1.segs.len() implies (#[trigger] v1.segs[i]).id
                == va.segs[i].id && v1.segs[i].data == va.segs[i].data by {
                if e.segment != va.term {
                    lemma_seg_pos_unique(va, va.seg_pos(e.segment), e.segment);
                }
            }
            lemma_files_counts_only(v1.segs, va.segs);
            assert(files_of(v1) == files_of_segs(step_mid(v0, cv).segs));
            assert(v1.has_seg(v1.term)) by {
                assert(va.has_seg(va.term));
            }
            assert(v1.segs.len() > 0 && v1.segs.last().id == v1.term);
        }
        let ghost v1 = self@;
        let ghost cv = CommandV::Rm { key: key@ };
        let candidate = match candidate {
            Some(tc) => Some(tc),
            None => {
                let apos2 = self.segments.len() - 1;
                let c = self.segments[apos2].counts;
                proof {
                    assert(self@.segs[apos2 as int] == self.segments@[apos2 as int]@);
                    assert(c == v1.segs.last().counts);
                    assert(c == rm_step_segs(v0, key@).last().counts);
                }
                if c.garbage_rate_exceeds(threshold) {
                    Some(self.term)
                } else {
                    None
                }
            },
        };
        proof {
            assert(candidate == rm_candidate(v0, key@));
        }
        match candidate {
            Some(tc) => {
                proof {
                    assert(v1.has_seg(tc)) by {
                        if tc != v1.term {
                            assert(va.has_seg(e.segment));
                        }
                    }
                }
                self.compaction(tc);
                proof {
                    lemma_delta_trans(v0, v1, self@);
                }
            },
            None => {
                proof {
                    if durable(v0) {
                        assert(usize::MAX < crate::codec::pow10(crate::codec::LEN_WIDTH as nat))
                            by {
                            crate::codec::lemma_u64_fits_len_width();
                        }
                        assert(v1.index() == rindex_cmd(
                            v0.index(),
                            step_term(v0),
                            (RecAt {
                                cmd: cv,
                                head: (if v0.count >= v0.max_records {
                                    0int
                                } else {
                                    v0.segs.last().data.len() as int
                                }),
                                tail: (if v0.count >= v0.max_records {
                                    0int
                                } else {
                                    v0.segs.last().data.len() as int
                                }) + enc(cv).len(),
                            }),
                        )) by {
                            crate::codec::lemma_enc_len(cv);
                            if !(v0.count >= v0.max_records) {
                                assert(v0.has_seg(v0.term));
                            }
                        }
                        lemma_write_preserves_durable(v0, v1, cv);
                    }
                }
            },
        }
        Ok(())
    }

    /// Hand over, and clear, the journal of disk operations that mirror
    /// the store's mutations since the last call.
    pub fn take_journal(&mut self) -> (r: Vec<DiskOp>)
        ensures
            r@.map_values(|op: DiskOp| op@) == old(self)@.journal,
            final(self)@ == (StoreView { journal: Seq::<DiskOpV>::empty(), ..old(self)@ }),
    {
        let mut out: Vec<DiskOp> = Vec::new();
        core::mem::swap(&mut out, &mut self.journal);
        proof {
            assert(self@ =~~= (StoreView { journal: Seq::<DiskOpV>::empty(), ..old(self)@ }));
        }
        out
    }
}


/// What one replayed record does to the index being rebuilt.
pub open spec fn rindex_cmd(m: Map<Seq<u8>, ValueIndex>, sid: u64, r: RecAt) -> Map<
    Seq<u8>,
    ValueIndex,
> {
    match r.cmd {
        CommandV::Put { key, .. } => m.insert(
            key,
            ValueIndex { segment: sid, head: r.head as usize, tail: r.tail as usize },
        ),
        CommandV::Rm { key } => m.remove(key),
    }
}

/// What replaying a record list of one segment does to the index.
pub open spec fn rindex_records(m: Map<Seq<u8>, ValueIndex>, sid: u64, rs: Seq<RecAt>) -> Map<
    Seq<u8>,
    ValueIndex,
>
    decreases rs.len(),
{
    if rs.len() == 0 {
        m
    } else {
        rindex_cmd(rindex_records(m, sid, rs.drop_last()), sid, rs.last())
    }
}

/// The index that replaying a sequence of segment files rebuilds.
pub open spec fn rindex_files(fs: Seq<SegFileV>) -> Map<Seq<u8>, ValueIndex>
    decreases fs.len(),
{
    if fs.len() == 0 {
        Map::empty()
    } else {
        rindex_records(
            rindex_files(fs.drop_last()),
            fs.last().id,
            seg_records(fs.last().data).unwrap(),
        )
    }
}

/// Whether every segment file decodes cleanly.
pub open spec fn files_parse_ok(fs: Seq<SegFileV>) -> bool {
    forall|i: int| 0 <= i < fs.len() ==> seg_records((#[trigger] fs[i]).data) is Some
}

/// Whether the segment ids are positive and strictly increasing.
pub open spec fn files_ids_ok(fs: Seq<SegFileV>) -> bool {
    &&& forall|i: int| 0 <= i < fs.len() ==> (#[trigger] fs[i]).id >= 1
    &&& forall|i: int, j: int|
        0 <= i < j < fs.len() ==> (#[trigger] fs[i]).id < (#[trigger] fs[j]).id
}

/// Whether no segment file holds more records than the per-segment cap.
pub open spec fn files_fit(fs: Seq<SegFileV>, max_records: usize) -> bool {
    forall|i: int|
        0 <= i < fs.len() ==> (seg_records((#[trigger] fs[i]).data) matches Some(rs) && rs.len()
            <= max_records)
}

/// Insert a file into an id-sorted file list, keeping it sorted.
pub open spec fn insert_file(fs: Seq<SegFileV>, f: SegFileV) -> Seq<SegFileV>
    decreases fs.len(),
{
    if fs.len() == 0 {
        seq![f]
    } else if f.id >= fs.last().id {
        fs.push(f)
    } else {
        insert_file(fs.drop_last(), f).push(fs.last())
    }
}

/// Sort a file list by segment id.
pub open spec fn sort_files(fs: Seq<SegFileV>) -> Seq<SegFileV>
    decreases fs.len(),
{
    if fs.len() == 0 {
        Seq::empty()
    } else {
        insert_file(sort_files(fs.drop_last()), fs.last())
    }
}

/// A list already sorted strictly by id sorts to itself.
pub proof fn lemma_sort_files_sorted(fs: Seq<SegFileV>)
    requires
        forall|i: int, j: int|
            0 <= i < j < fs.len() ==> (#[trigger] fs[i]).id < (#[trigger] fs[j]).id,
    ensures
        sort_files(fs) == fs,
    decreases fs.len(),
{
    if fs.len() > 0 {
        assert forall|i: int, j: int|
            0 <= i < j < fs.drop_last().len() implies (#[trigger] fs.drop_last()[i]).id
            < (#[trigger] fs.drop_last()[j]).id by {
            assert(fs[i].id < fs[j].id);
        }
        lemma_sort_files_sorted(fs.drop_last());
        if fs.len() >= 2 {
            assert(fs[fs.len() - 2].id < fs[fs.len() - 1].id);
            assert(fs.drop_last().last().id < fs.last().id);
        }
        assert(insert_file(fs.drop_last(), fs.last()) =~= fs);
    } else {
        assert(sort_files(fs) =~= fs);
    }
}

/// Well-formedness while the last segment is being replayed: everything of
/// `wf` except that the last segment's counters cover only the first
/// `j` of its records.
pub open spec fn replay_wf(v: StoreView, j: int) -> bool {
    &&& v.max_records >= 1
    &&& v.term >= 1
    &&& v.segs.len() > 0
    &&& v.segs.last().id == v.term
    &&& v.count == j
    &&& v.count <= v.max_records
    &&& unique_keys(v.entries)
    &&& forall|i: int, j2: int|
        0 <= i < j2 < v.segs.len() ==> (#[trigger] v.segs[i].id) < (#[trigger] v.segs[j2].id)
    &&& forall|i: int| 0 <= i < v.segs.len() - 1 ==> v.seg_base_ok(i)
    &&& 1 <= v.segs.last().id
    &&& v.segs.last().counts.len == j
    &&& v.segs.last().counts.len_garbage <= j
    &&& (seg_records(v.segs.last().data) matches Some(rs) && j <= rs.len())
    &&& forall|i: int| 0 <= i < v.segs.len() ==> v.seg_count_ok(i)
    &&& forall|k: Seq<u8>| #[trigger] v.index().dom().contains(k) ==> v.entry_ok(k)
}

/// A store whose last segment is fully replayed is well formed.
pub proof fn lemma_replay_wf_done(v: StoreView, j: int)
    requires
        replay_wf(v, j),
        seg_records(v.segs.last().data).unwrap().len() == j,
    ensures
        v.wf(),
{
    assert forall|i: int| 0 <= i < v.segs.len() implies v.seg_base_ok(i) by {
        if i == v.segs.len() - 1 {
            assert(v.segs.last().counts.len == j);
        }
    }
    lemma_seg_pos_unique(v, v.segs.len() - 1, v.term);
}



/// An index entry stays valid when it is unchanged and its segment's bytes
/// are unchanged.
proof fn lemma_entry_transfer(v0: StoreView, v1: StoreView, k: Seq<u8>)
    requires
        v0.index().dom().contains(k),
        v0.entry_ok(k),
        v1.index().dom().contains(k),
        v1.index()[k] == v0.index()[k],
        v1.has_seg(v0.index()[k].segment),
        v1.seg_at(v0.index()[k].segment).data == v0.seg_at(v0.index()[k].segment).data,
    ensures
        v1.entry_ok(k),
{
}


/// An index entry that names a whole `Put` record on a record boundary is
/// valid.
proof fn lemma_entry_new(v1: StoreView, k: Seq<u8>, v: Seq<u8>)
    requires
        v1.index().dom().contains(k),
        v1.has_seg(v1.index()[k].segment),
        seg_records(v1.seg_at(v1.index()[k].segment).data) is Some,
        exists|jx: int|
            0 <= jx < seg_records(v1.seg_at(v1.index()[k].segment).data).unwrap().len() && (
            #[trigger] seg_records(v1.seg_at(v1.index()[k].segment).data).unwrap()[jx]).head
                == v1.index()[k].head as int && seg_records(
                v1.seg_at(v1.index()[k].segment).data,
            ).unwrap()[jx].tail == v1.index()[k].tail as int,
        parse_at(v1.seg_at(v1.index()[k].segment).data, v1.index()[k].head as int) == Some(
            (CommandV::Put { key: k, value: v }, v1.index()[k].tail as int),
        ),
    ensures
        v1.entry_ok(k),
{
}

/// Replaying one `Put` record: segment structure and index bindings.
#[verifier::rlimit(100)]
#[verifier::spinoff_prover]
proof fn lemma_replay_put_entries(
    vb: StoreView,
    v1: StoreView,
    j: int,
    key: Seq<u8>,
    value: Seq<u8>,
    old_loc: Option<ValueIndex>,
)
    requires
        vb.segs.len() > 0,
        vb.segs.last().id == vb.term,
        forall|i: int, j2: int|
            0 <= i < j2 < vb.segs.len() ==> (#[trigger] vb.segs[i].id)
                < (#[trigger] vb.segs[j2].id),
        forall|k: Seq<u8>| #[trigger] vb.index().dom().contains(k) ==> vb.entry_ok(k),
        ({
            let rs = seg_records(vb.segs.last().data).unwrap();
            seg_records(vb.segs.last().data) is Some && 0 <= j < rs.len() && rs[j].cmd
                == (CommandV::Put { key, value }) && parse_at(vb.segs.last().data, rs[j].head)
                == Some((rs[j].cmd, rs[j].tail)) && 0 <= rs[j].head < rs[j].tail
                <= vb.segs.last().data.len() && vb.segs.last().data.len() <= usize::MAX
        }),
        old_loc == (if vb.index().dom().contains(key) {
            Some(vb.index()[key])
        } else {
            None
        }),
        v1.segs == bumped_segs(vb, old_loc),
        v1.term == vb.term,
        ({
            let rs = seg_records(vb.segs.last().data).unwrap();
            let loc = ValueIndex {
                segment: vb.term,
                head: rs[j].head as usize,
                tail: rs[j].tail as usize,
            };
            v1.index() == vb.index().insert(key, loc)
        }),
    ensures
        v1.segs.len() == vb.segs.len(),
        forall|i: int|
            0 <= i < v1.segs.len() ==> (#[trigger] v1.segs[i]).id == vb.segs[i].id
                && v1.segs[i].data == vb.segs[i].data,
        forall|i: int, j2: int|
            0 <= i < j2 < v1.segs.len() ==> (#[trigger] v1.segs[i].id)
                < (#[trigger] v1.segs[j2].id),
        v1.segs.last().id == v1.term,
        forall|k: Seq<u8>| #[trigger] v1.index().dom().contains(k) ==> v1.entry_ok(k),
{
    let term = vb.term;
    let ap = vb.segs.len() - 1;
    let data = vb.segs.last().data;
    let rs = seg_records(data).unwrap();
    let loc = ValueIndex { segment: term, head: rs[j].head as usize, tail: rs[j].tail as usize };
    if old_loc is Some {
        let e = old_loc.unwrap();
        assert(vb.entry_ok(key));
        assert(vb.has_seg(e.segment));
        if e.segment != term {
            lemma_seg_pos_unique(vb, vb.seg_pos(e.segment), e.segment);
        }
    }
    assert(v1.segs.len() == vb.segs.len());
    assert forall|i: int|
        0 <= i < v1.segs.len() implies (#[trigger] v1.segs[i]).id == vb.segs[i].id
            && v1.segs[i].data == vb.segs[i].data by {
        if old_loc is Some && old_loc.unwrap().segment != term {
            lemma_seg_pos_unique(vb, vb.seg_pos(old_loc.unwrap().segment), old_loc.unwrap().segment);
        }
    }
    assert forall|i: int, j2: int| 0 <= i < j2 < v1.segs.len() implies (#[trigger] v1.segs[i].id)
        < (#[trigger] v1.segs[j2].id) by {
        assert(vb.segs[i].id < vb.segs[j2].id);
    }
    assert forall|id: u64| #[trigger] vb.has_seg(id) implies v1.has_seg(id) && v1.seg_at(id).data
        == vb.seg_at(id).data && v1.seg_at(id).id == id by {
        let q = vb.seg_pos(id);
        assert(vb.segs[q].id == id);
        assert(v1.segs[q].id == id);
        lemma_seg_pos_unique(v1, q, id);
    }
    lemma_seg_pos_unique(vb, ap, term);
    lemma_seg_pos_unique(v1, ap, term);
    assert(v1.seg_at(term).data == data);
    assert forall|k: Seq<u8>|
        #[trigger] v1.index().dom().contains(k) && k != key implies v1.entry_ok(k) by {
        assert(vb.index().dom().contains(k));
        let e = vb.index()[k];
        assert(vb.entry_ok(k));
        assert(vb.has_seg(e.segment));
        assert(v1.seg_at(e.segment).data == vb.seg_at(e.segment).data);
        lemma_entry_transfer(vb, v1, k);
    }
    assert(v1.entry_ok(key)) by {
        assert(v1.index()[key] == loc);
        assert(v1.seg_at(term).data == data);
        assert(v1.index()[key].segment == term);
        assert(0 <= j < seg_records(v1.seg_at(v1.index()[key].segment).data).unwrap().len());
        assert(seg_records(v1.seg_at(v1.index()[key].segment).data).unwrap()[j].head
            == v1.index()[key].head as int);
        assert(seg_records(v1.seg_at(v1.index()[key].segment).data).unwrap()[j].tail
            == v1.index()[key].tail as int);
        lemma_entry_new(v1, key, value);
    }
    assert forall|k: Seq<u8>| #[trigger] v1.index().dom().contains(k) implies v1.entry_ok(k) by {
        if k == key {
            assert(v1.entry_ok(key));
        }
    }
}

/// Replaying one `Put` record: the counters stay consistent.
#[verifier::rlimit(100)]
#[verifier::spinoff_prover]
proof fn lemma_replay_put_counts(
    vb: StoreView,
    v1: StoreView,
    j: int,
    key: Seq<u8>,
    value: Seq<u8>,
    old_loc: Option<ValueIndex>,
)
    requires
        replay_wf(vb, j),
        j + 1 <= vb.max_records,
        ({
            let rs = seg_records(vb.segs.last().data).unwrap();
            j < rs.len() && rs[j].cmd == (CommandV::Put { key, value }) && vb.segs.last().data.len()
                <= usize::MAX
        }),
        old_loc == (if vb.index().dom().contains(key) {
            Some(vb.index()[key])
        } else {
            None
        }),
        v1.segs == bumped_segs(vb, old_loc),
        v1.term == vb.term && v1.count == j + 1 && v1.max_records == vb.max_records
            && v1.threshold == vb.threshold,
        unique_keys(v1.entries),
        ({
            let rs = seg_records(vb.segs.last().data).unwrap();
            let loc = ValueIndex {
                segment: vb.term,
                head: rs[j].head as usize,
                tail: rs[j].tail as usize,
            };
            &&& v1.index() == vb.index().insert(key, loc)
            &&& (if vb.index().dom().contains(key) {
                exists|jx: int, e1: IndexEntry|
                    0 <= jx < vb.entries.len() && vb.entries[jx].key@ == key && e1.key@ == key
                        && e1.loc == loc && v1.entries == (#[trigger] vb.entries.update(jx, e1))
            } else {
                exists|e1: IndexEntry|
                    (#[trigger] e1.loc) == loc && e1.key@ == key && v1.entries
                        == vb.entries.push(e1)
            })
        }),
    ensures
        forall|i: int| 0 <= i < v1.segs.len() - 1 ==> v1.seg_base_ok(i),
        v1.segs.last().counts.len == j + 1,
        v1.segs.last().counts.len_garbage <= j + 1,
        forall|i: int| 0 <= i < v1.segs.len() ==> v1.seg_count_ok(i),
{
    let term = vb.term;
    let ap = vb.segs.len() - 1;
    let data = vb.segs.last().data;
    let rs = seg_records(data).unwrap();
    let loc = ValueIndex { segment: term, head: rs[j].head as usize, tail: rs[j].tail as usize };
    if old_loc is Some {
        let e = old_loc.unwrap();
        assert(vb.entry_ok(key));
        assert(vb.has_seg(e.segment));
        crate::index::lemma_assoc_witness(vb.entries, key);
        let jw = choose|jw: int|
            0 <= jw < vb.entries.len() && (#[trigger] vb.entries[jw].key@) == key;
        crate::index::lemma_assoc_get(vb.entries, jw);
        crate::index::lemma_count_witness(vb.entries, jw, e.segment);
        if e.segment != term {
            lemma_seg_pos_unique(vb, vb.seg_pos(e.segment), e.segment);
        }
    }
    lemma_seg_pos_unique(vb, ap, term);
    assert forall|i: int| 0 <= i < v1.segs.len() - 1 implies v1.seg_base_ok(i) by {
        assert(vb.seg_base_ok(i));
        if old_loc is Some && old_loc.unwrap().segment != term && vb.segs[i].id
            == old_loc.unwrap().segment {
            let e = old_loc.unwrap();
            lemma_seg_pos_unique(vb, i, e.segment);
            assert(vb.seg_count_ok(i));
            crate::index::lemma_count_bounds(vb.entries, e.segment);
        } else {
            if old_loc is Some && old_loc.unwrap().segment != term {
                lemma_seg_pos_unique(vb, vb.seg_pos(old_loc.unwrap().segment), old_loc.unwrap().segment);
            }
            assert(v1.segs[i].counts == vb.segs[i].counts);
        }
    }
    assert(v1.segs.last().counts.len == j + 1);
    assert(v1.segs.last().counts.len_garbage <= j + 1) by {
        if old_loc is Some && old_loc.unwrap().segment == term {
            assert(vb.seg_count_ok(ap));
            crate::index::lemma_count_bounds(vb.entries, term);
        }
    }
    assert forall|i: int| 0 <= i < v1.segs.len() implies v1.seg_count_ok(i) by {
        let id = v1.segs[i].id;
        assert(vb.seg_count_ok(i));
        if vb.index().dom().contains(key) {
            let e = old_loc.unwrap();
            let (jx, e1): (int, IndexEntry) = choose|jx: int, e1: IndexEntry|
                0 <= jx < vb.entries.len() && vb.entries[jx].key@ == key && e1.key@ == key
                    && e1.loc == loc && v1.entries == (#[trigger] vb.entries.update(jx, e1));
            crate::index::lemma_assoc_get(vb.entries, jx);
            assert(vb.entries[jx].loc == e);
            crate::index::lemma_count_update(vb.entries, jx, e1, id);
            if e.segment != term && id == e.segment {
                lemma_seg_pos_unique(vb, i, id);
            }
        } else {
            let e1 = choose|e1: IndexEntry|
                (#[trigger] e1.loc) == loc && e1.key@ == key && v1.entries == vb.entries.push(
                    e1,
                );
            crate::index::lemma_count_push(vb.entries, e1, id);
        }
    }
}

/// Replaying one `Put` record preserves replay well-formedness and binds
/// the record's key to the record.
#[verifier::spinoff_prover]
proof fn lemma_replay_put(
    vb: StoreView,
    v1: StoreView,
    j: int,
    key: Seq<u8>,
    value: Seq<u8>,
    old_loc: Option<ValueIndex>,
)
    requires
        replay_wf(vb, j),
        j + 1 <= vb.max_records,
        ({
            let rs = seg_records(vb.segs.last().data).unwrap();
            j < rs.len() && rs[j].cmd == (CommandV::Put { key, value }) && vb.segs.last().data.len()
                <= usize::MAX
        }),
        old_loc == (if vb.index().dom().contains(key) {
            Some(vb.index()[key])
        } else {
            None
        }),
        v1.segs == bumped_segs(vb, old_loc),
        v1.term == vb.term && v1.count == j + 1 && v1.max_records == vb.max_records
            && v1.threshold == vb.threshold,
        unique_keys(v1.entries),
        ({
            let rs = seg_records(vb.segs.last().data).unwrap();
            let loc = ValueIndex {
                segment: vb.term,
                head: rs[j].head as usize,
                tail: rs[j].tail as usize,
            };
            &&& v1.index() == vb.index().insert(key, loc)
            &&& (if vb.index().dom().contains(key) {
                exists|jx: int, e1: IndexEntry|
                    0 <= jx < vb.entries.len() && vb.entries[jx].key@ == key && e1.key@ == key
                        && e1.loc == loc && v1.entries == (#[trigger] vb.entries.update(jx, e1))
            } else {
                exists|e1: IndexEntry|
                    (#[trigger] e1.loc) == loc && e1.key@ == key && v1.entries
                        == vb.entries.push(e1)
            })
        }),
    ensures
        replay_wf(v1, j + 1),
{
    crate::codec::lemma_records_facts(vb.segs.last().data, 0);
    lemma_replay_put_entries(vb, v1, j, key, value, old_loc);
    lemma_replay_put_counts(vb, v1, j, key, value, old_loc);
    assert(replay_wf(v1, j + 1));
}

/// Replaying one `Rm` record preserves replay well-formedness and unbinds
/// the record's key.
#[verifier::rlimit(100)]
proof fn lemma_replay_rm(
    vb: StoreView,
    v1: StoreView,
    j: int,
    key: Seq<u8>,
    old_loc: Option<ValueIndex>,
)
    requires
        replay_wf(vb, j),
        j + 1 <= vb.max_records,
        ({
            let rs = seg_records(vb.segs.last().data).unwrap();
            j < rs.len() && rs[j].cmd == (CommandV::Rm { key })
        }),
        old_loc == (if vb.index().dom().contains(key) {
            Some(vb.index()[key])
        } else {
            None
        }),
        v1.segs == (match old_loc {
            Some(e) => bumped_segs_rm(vb, e),
            None => vb.segs.update(
                vb.segs.len() - 1,
                SegV {
                    id: vb.term,
                    data: vb.segs.last().data,
                    counts: (LengthCount {
                        len: (vb.segs.last().counts.len + 1) as usize,
                        len_garbage: (vb.segs.last().counts.len_garbage + 1) as usize,
                    }),
                },
            ),
        }),
        v1.term == vb.term && v1.count == j + 1 && v1.max_records == vb.max_records
            && v1.threshold == vb.threshold,
        unique_keys(v1.entries),
        v1.index() == vb.index().remove(key),
        (match old_loc {
            Some(e) => exists|jx: int|
                0 <= jx < vb.entries.len() && (#[trigger] vb.entries[jx]).key@ == key
                    && v1.entries == vb.entries.remove(jx),
            None => v1.entries == vb.entries,
        }),
    ensures
        replay_wf(v1, j + 1),
{
    let term = vb.term;
    let ap = vb.segs.len() - 1;
    let data = vb.segs.last().data;
    let rs = seg_records(data).unwrap();
    if old_loc is Some {
        let e = old_loc.unwrap();
        assert(vb.entry_ok(key));
        assert(vb.has_seg(e.segment));
        crate::index::lemma_assoc_witness(vb.entries, key);
        let jw = choose|jw: int|
            0 <= jw < vb.entries.len() && (#[trigger] vb.entries[jw].key@) == key;
        crate::index::lemma_assoc_get(vb.entries, jw);
        crate::index::lemma_count_witness(vb.entries, jw, e.segment);
        if e.segment != term {
            lemma_seg_pos_unique(vb, vb.seg_pos(e.segment), e.segment);
        }
    }
    assert(v1.segs.len() == vb.segs.len());
    assert(forall|i: int|
        0 <= i < v1.segs.len() ==> (#[trigger] v1.segs[i]).id == vb.segs[i].id && v1.segs[i].data
            == vb.segs[i].data);
    assert forall|i: int, j2: int| 0 <= i < j2 < v1.segs.len() implies (#[trigger] v1.segs[i].id)
        < (#[trigger] v1.segs[j2].id) by {
        assert(vb.segs[i].id < vb.segs[j2].id);
    }
    assert forall|id: u64| #[trigger] vb.has_seg(id) implies v1.has_seg(id) && v1.seg_at(id).data
        == vb.seg_at(id).data && v1.seg_at(id).id == id by {
        let q = vb.seg_pos(id);
        assert(vb.segs[q].id == id);
        assert(v1.segs[q].id == id);
        lemma_seg_pos_unique(v1, q, id);
    }
    lemma_seg_pos_unique(vb, ap, term);
    lemma_seg_pos_unique(v1, ap, term);
    // remaining bindings still point at their records
    assert forall|k: Seq<u8>| #[trigger] vb.index().dom().contains(k) && k != key implies
        v1.index()[k] == vb.index()[k] && v1.entry_ok(k) by {
        assert(vb.entry_ok(k));
        let e = vb.index()[k];
        assert(vb.has_seg(e.segment));
        assert(v1.seg_at(e.segment).data == vb.seg_at(e.segment).data);
    }
    // partial base facts
    assert forall|i: int| 0 <= i < v1.segs.len() - 1 implies v1.seg_base_ok(i) by {
        assert(vb.seg_base_ok(i));
        if old_loc is Some && old_loc.unwrap().segment != term && vb.segs[i].id
            == old_loc.unwrap().segment {
            let e = old_loc.unwrap();
            lemma_seg_pos_unique(vb, i, e.segment);
            assert(vb.seg_count_ok(i));
            crate::index::lemma_count_bounds(vb.entries, e.segment);
        } else {
            if old_loc is Some && old_loc.unwrap().segment != term {
                lemma_seg_pos_unique(vb, vb.seg_pos(old_loc.unwrap().segment), old_loc.unwrap().segment);
            }
            assert(v1.segs[i].counts == vb.segs[i].counts);
        }
    }
    assert(v1.segs.last().counts.len == j + 1);
    assert(v1.segs.last().counts.len_garbage <= j + 1) by {
        if old_loc is Some && old_loc.unwrap().segment == term {
            assert(vb.seg_count_ok(ap));
            crate::index::lemma_count_bounds(vb.entries, term);
        }
    }
    // counters still match the index
    assert forall|i: int| 0 <= i < v1.segs.len() implies v1.seg_count_ok(i) by {
        let id = v1.segs[i].id;
        assert(vb.seg_count_ok(i));
        match old_loc {
            Some(e) => {
                let jx = choose|jx: int|
                    0 <= jx < vb.entries.len() && (#[trigger] vb.entries[jx]).key@ == key
                        && v1.entries == vb.entries.remove(jx);
                crate::index::lemma_assoc_get(vb.entries, jx);
                assert(vb.entries[jx].loc == e);
                crate::index::lemma_count_remove(vb.entries, jx, id);
                if e.segment != term && id == e.segment {
                    lemma_seg_pos_unique(vb, i, id);
                }
            },
            None => {},
        }
    }
    assert(replay_wf(v1, j + 1));
}


/// Pairwise ascending ids are strictly sorted.
proof fn lemma_adjacent_sorted(fs: Seq<SegFileV>, i: int, j: int)
    requires
        forall|q: int| 0 <= q < fs.len() - 1 ==> (#[trigger] fs[q].id) < fs[q + 1].id,
        0 <= i < j < fs.len(),
    ensures
        fs[i].id < fs[j].id,
    decreases j - i,
{
    if j > i + 1 {
        lemma_adjacent_sorted(fs, i, j - 1);
        assert(fs[j - 1].id < fs[j].id);
    } else {
        assert(fs[i].id < fs[i + 1].id);
    }
}

impl KvStore {
    /// Insert one file into an id-sorted prefix.
    fn insert_file_exec(fs: Vec<SegmentFile>, f: SegmentFile) -> (r: Vec<SegmentFile>)
        ensures
            r@.map_values(|x: SegmentFile| x@) == insert_file(
                fs@.map_values(|x: SegmentFile| x@),
                f@,
            ),
        decreases fs@.len(),
    {
        let mut fs = fs;
        let ghost gfs = fs@.map_values(|x: SegmentFile| x@);
        if fs.len() == 0 {
            fs.push(f);
            proof {
                assert(gfs.len() == 0);
                assert(fs@.map_values(|x: SegmentFile| x@) =~= insert_file(gfs, f@));
            }
            fs
        } else if f.id >= fs[fs.len() - 1].id {
            fs.push(f);
            proof {
                assert(fs@.map_values(|x: SegmentFile| x@) =~= gfs.push(f@));
                assert(gfs.last() == fs@[fs@.len() - 2]@);
            }
            fs
        } else {
            let last = match fs.pop() {
                Some(x) => x,
                None => {
                    proof {
                        assert(false);
                    }
                    unreached()
                },
            };
            proof {
                assert(fs@.map_values(|x: SegmentFile| x@) =~= gfs.drop_last());
            }
            let mut r = Self::insert_file_exec(fs, f);
            r.push(last);
            proof {
                assert(r@.map_values(|x: SegmentFile| x@) =~= insert_file(
                    gfs.drop_last(),
                    f@,
                ).push(last@));
                assert(last@ == gfs.last());
            }
            r
        }
    }

    /// Sort segment files by id.
    fn sort_files_exec(fs: Vec<SegmentFile>) -> (r: Vec<SegmentFile>)
        ensures
            r@.map_values(|x: SegmentFile| x@) == sort_files(fs@.map_values(|x: SegmentFile| x@)),
        decreases fs@.len(),
    {
        let mut fs = fs;
        let ghost gfs = fs@.map_values(|x: SegmentFile| x@);
        if fs.len() == 0 {
            proof {
                assert(fs@.map_values(|x: SegmentFile| x@) =~= sort_files(gfs));
            }
            fs
        } else {
            let last = match fs.pop() {
                Some(x) => x,
                None => {
                    proof {
                        assert(false);
                    }
                    unreached()
                },
            };
            proof {
                assert(fs@.map_values(|x: SegmentFile| x@) =~= gfs.drop_last());
                assert(last@ == gfs.last());
            }
            let sorted = Self::sort_files_exec(fs);
            Self::insert_file_exec(sorted, last)
        }
    }

    /// Count the records of one segment's bytes, or report that the
    /// segment does not decode cleanly.
    fn count_records(data: &Vec<u8>) -> (r: Option<usize>)
        ensures
            r matches Some(c) ==> seg_records(data@) matches Some(rs) && rs.len() == c as int,
            r is None ==> seg_records(data@) is None,
    {
        let n = data.len();
        let mut pos: usize = 0;
        let mut cnt: usize = 0;
        let ghost mut processed: Seq<RecAt> = Seq::empty();
        proof {
            assert(processed + records_from(data@, 0).unwrap() =~= records_from(
                data@,
                0,
            ).unwrap()) by {
                if records_from(data@, 0) is Some {
                }
            }
        }
        while pos < n
            invariant
                n == data@.len(),
                pos <= n,
                cnt <= pos,
                cnt == processed.len(),
                records_from(data@, 0) == (match records_from(data@, pos as int) {
                    None => None::<Seq<RecAt>>,
                    Some(rest) => Some(processed + rest),
                }),
            decreases n - pos,
        {
            let r = crate::codec::decode_at(data, pos);
            let (cmd, end) = match r {
                Some(x) => x,
                None => {
                    return None;
                },
            };
            proof {
                crate::codec::lemma_parse_at_bounds(data@, pos as int);
                let rec = RecAt { cmd: cmd@, head: pos as int, tail: end as int };
                if records_from(data@, end as int) is Some {
                    let rest2 = records_from(data@, end as int).unwrap();
                    assert(records_from(data@, pos as int) == Some(seq![rec] + rest2));
                    assert(processed + (seq![rec] + rest2) =~= processed.push(rec) + rest2);
                } else {
                    assert(records_from(data@, pos as int) is None);
                }
                processed = processed.push(rec);
            }
            cnt = cnt + 1;
            pos = end;
        }
        proof {
            assert(records_from(data@, pos as int) == Some(Seq::<RecAt>::empty()));
            assert(processed + Seq::<RecAt>::empty() =~= processed);
        }
        Some(cnt)
    }

    /// Replay one `Put` record of the segment being recovered.
    #[verifier::rlimit(100)]
    fn replay_apply_put(&mut self, key: Vec<u8>, value: Vec<u8>, pos: usize, end: usize)
        requires
            replay_wf(old(self)@, old(self)@.count as int),
            old(self)@.count + 1 <= old(self)@.max_records,
            ({
                let rs = seg_records(old(self)@.segs.last().data).unwrap();
                &&& seg_records(old(self)@.segs.last().data) is Some
                &&& (old(self)@.count as int) < rs.len()
                &&& rs[old(self)@.count as int] == (RecAt {
                    cmd: (CommandV::Put { key: key@, value: value@ }),
                    head: pos as int,
                    tail: end as int,
                })
            }),
        ensures
            final(self)@.count == old(self)@.count + 1,
            replay_wf(final(self)@, old(self)@.count + 1),
            final(self)@.index() == old(self)@.index().insert(
                key@,
                (ValueIndex { segment: old(self)@.term, head: pos, tail: end }),
            ),
            final(self)@.segs.len() == old(self)@.segs.len(),
            forall|q: int|
                0 <= q < final(self)@.segs.len() ==> (#[trigger] final(self)@.segs[q]).id == old(self)@.segs[q].id && final(self)@.segs[q].data == old(self)@.segs[q].data,
            final(self)@.term == old(self)@.term,
            final(self)@.max_records == old(self)@.max_records,
            final(self)@.threshold == old(self)@.threshold,
            final(self)@.journal == old(self)@.journal,
    {
        let ghost vb = self@;
        let sid = self.term;
        proof {
            assert(self@.segs.len() > 0);
        }
        let p = self.segments.len() - 1;
        let dl = self.segments[p].data.len();
        proof {
            assert(vb.segs.last().data.len() <= usize::MAX);
        }
        let old_loc = self.index.get(&key);
        proof {
            if old_loc is Some {
                let e = old_loc.unwrap();
                assert(vb.entry_ok(key@));
                crate::index::lemma_assoc_witness(vb.entries, key@);
                let jw = choose|jw: int|
                    0 <= jw < vb.entries.len() && (#[trigger] vb.entries[jw].key@) == key@;
                crate::index::lemma_assoc_get(vb.entries, jw);
                crate::index::lemma_count_witness(vb.entries, jw, e.segment);
            }
            lemma_seg_pos_unique(vb, vb.segs.len() - 1, vb.term);
        }
        match old_loc {
            None => {
                self.bump_counts(p, 1, 0);
            },
            Some(e) => {
                if e.segment == sid {
                    self.bump_counts(p, 1, 1);
                } else {
                    let opos = match self.find_pos(e.segment) {
                        Some(q) => q,
                        None => {
                            proof {
                                assert(vb.entry_ok(key@));
                                assert(false);
                            }
                            unreached()
                        },
                    };
                    proof {
                        assert(vb.entry_ok(key@));
                        lemma_seg_pos_unique(vb, opos as int, e.segment);
                        assert(vb.seg_count_ok(opos as int));
                        crate::index::lemma_count_bounds(vb.entries, e.segment);
                    }
                    self.bump_counts(opos, 0, 1);
                    proof {
                        assert(self@.segs.len() == vb.segs.len());
                    }
                    self.bump_counts(p, 1, 0);
                }
            },
        }
        self.current_log_len = self.current_log_len + 1;
        self.index.insert(key, ValueIndex { segment: sid, head: pos, tail: end });
        proof {
            let v1 = self@;
            assert(v1.segs =~= bumped_segs(vb, old_loc)) by {
                if old_loc is Some && old_loc.unwrap().segment != sid {
                    lemma_seg_pos_unique(vb, vb.seg_pos(old_loc.unwrap().segment), old_loc.unwrap().segment);
                }
            }
            lemma_replay_put(vb, v1, vb.count as int, key@, value@, old_loc);
            assert forall|q: int| 0 <= q < v1.segs.len() implies (#[trigger] v1.segs[q]).id
                == vb.segs[q].id && v1.segs[q].data == vb.segs[q].data by {
                if old_loc is Some && old_loc.unwrap().segment != sid {
                    lemma_seg_pos_unique(vb, vb.seg_pos(old_loc.unwrap().segment), old_loc.unwrap().segment);
                }
            }
        }
    }

    /// Replay one `Rm` record of the segment being recovered.
    #[verifier::rlimit(100)]
    fn replay_apply_rm(&mut self, key: Vec<u8>, pos: usize, end: usize)
        requires
            replay_wf(old(self)@, old(self)@.count as int),
            old(self)@.count + 1 <= old(self)@.max_records,
            ({
                let rs = seg_records(old(self)@.segs.last().data).unwrap();
                &&& seg_records(old(self)@.segs.last().data) is Some
                &&& (old(self)@.count as int) < rs.len()
                &&& rs[old(self)@.count as int] == (RecAt {
                    cmd: (CommandV::Rm { key: key@ }),
                    head: pos as int,
                    tail: end as int,
                })
            }),
        ensures
            final(self)@.count == old(self)@.count + 1,
            replay_wf(final(self)@, old(self)@.count + 1),
            final(self)@.index() == old(self)@.index().remove(key@),
            final(self)@.segs.len() == old(self)@.segs.len(),
            forall|q: int|
                0 <= q < final(self)@.segs.len() ==> (#[trigger] final(self)@.segs[q]).id == old(self)@.segs[q].id && final(self)@.segs[q].data == old(self)@.segs[q].data,
            final(self)@.term == old(self)@.term,
            final(self)@.max_records == old(self)@.max_records,
            final(self)@.threshold == old(self)@.threshold,
            final(self)@.journal == old(self)@.journal,
    {
        let ghost vb = self@;
        let sid = self.term;
        proof {
            assert(self@.segs.len() > 0);
        }
        let p = self.segments.len() - 1;
        let dl = self.segments[p].data.len();
        proof {
            assert(vb.segs.last().data.len() <= usize::MAX);
        }
        let old_loc = self.index.get(&key);
        proof {
            if old_loc is Some {
                let e = old_loc.unwrap();
                assert(vb.entry_ok(key@));
                crate::index::lemma_assoc_witness(vb.entries, key@);
                let jw = choose|jw: int|
                    0 <= jw < vb.entries.len() && (#[trigger] vb.entries[jw].key@) == key@;
                crate::index::lemma_assoc_get(vb.entries, jw);
                crate::index::lemma_count_witness(vb.entries, jw, e.segment);
            }
            lemma_seg_pos_unique(vb, vb.segs.len() - 1, vb.term);
        }
        match old_loc {
            None => {
                self.bump_counts(p, 1, 1);
            },
            Some(e) => {
                if e.segment == sid {
                    proof {
                        assert(vb.seg_count_ok(p as int));
                        crate::index::lemma_count_bounds(vb.entries, e.segment);
                    }
                    self.bump_counts(p, 1, 2);
                } else {
                    let opos = match self.find_pos(e.segment) {
                        Some(q) => q,
                        None => {
                            proof {
                                assert(vb.entry_ok(key@));
                                assert(false);
                            }
                            unreached()
                        },
                    };
                    proof {
                        assert(vb.entry_ok(key@));
                        lemma_seg_pos_unique(vb, opos as int, e.segment);
                        assert(vb.seg_count_ok(opos as int));
                        crate::index::lemma_count_bounds(vb.entries, e.segment);
                    }
                    self.bump_counts(opos, 0, 1);
                    proof {
                        assert(self@.segs.len() == vb.segs.len());
                        assert(self@.segs[p as int].counts == vb.segs[p as int].counts);
                    }
                    self.bump_counts(p, 1, 1);
                }
            },
        }
        self.current_log_len = self.current_log_len + 1;
        let _ = self.index.remove(&key);
        proof {
            let v1 = self@;
            assert(v1.segs =~= (match old_loc {
                Some(e) => bumped_segs_rm(vb, e),
                None => vb.segs.update(
                    vb.segs.len() - 1,
                    SegV {
                        id: vb.term,
                        data: vb.segs.last().data,
                        counts: (LengthCount {
                            len: (vb.segs.last().counts.len + 1) as usize,
                            len_garbage: (vb.segs.last().counts.len_garbage + 1) as usize,
                        }),
                    },
                ),
            })) by {
                if old_loc is Some && old_loc.unwrap().segment != sid {
                    lemma_seg_pos_unique(vb, vb.seg_pos(old_loc.unwrap().segment), old_loc.unwrap().segment);
                }
            }
            lemma_replay_rm(vb, v1, vb.count as int, key@, old_loc);
            assert forall|q: int| 0 <= q < v1.segs.len() implies (#[trigger] v1.segs[q]).id
                == vb.segs[q].id && v1.segs[q].data == vb.segs[q].data by {
                if old_loc is Some && old_loc.unwrap().segment != sid {
                    lemma_seg_pos_unique(vb, vb.seg_pos(old_loc.unwrap().segment), old_loc.unwrap().segment);
                }
            }
        }
    }

    /// Open a store from the contents of the segment files of a store
    /// directory, with the default segment cap and compaction threshold.
    pub fn open(files: Vec<SegmentFile>) -> (r: Result<KvStore, KvsError>)
        ensures
            open_post(
                r,
                files@.map_values(|x: SegmentFile| x@),
                MAX_RECORDS_PER_SEGMENT,
                COMPACTION_THRESHOLD_PERMILLE,
            ),
    {
        Self::open_with_config(files, MAX_RECORDS_PER_SEGMENT, COMPACTION_THRESHOLD_PERMILLE)
    }

    /// Open a store from segment file contents, with an explicit cap on
    /// records per segment and an explicit compaction threshold in
    /// thousandths: sort the files by id, reject ids that are not strictly
    /// increasing positive numbers, then replay every record in order,
    /// rebuilding the index and the garbage accounting.
    pub fn open_with_config(
        files: Vec<SegmentFile>,
        max_records: usize,
        threshold_permille: u64,
    ) -> (r: Result<KvStore, KvsError>)
        requires
            max_records >= 1,
        ensures
            open_post(r, files@.map_values(|x: SegmentFile| x@), max_records, threshold_permille),
    {
        let ghost input = files@.map_values(|x: SegmentFile| x@);
        Self::open_impl(files, max_records, threshold_permille, Ghost(input))
    }

    /// Whether the sorted file list has strictly increasing positive ids.
    fn check_ids(sorted: &Vec<SegmentFile>) -> (r: bool)
        requires
            sorted@.len() > 0,
        ensures
            r == files_ids_ok(sorted@.map_values(|x: SegmentFile| x@)),
    {
        let ghost sfs = sorted@.map_values(|x: SegmentFile| x@);
        let n = sorted.len();
        let mut i: usize = 1;
        let mut ids_fine = sorted[0].id >= 1;
        while i < n
            invariant
                n == sorted@.len(),
                1 <= i <= n,
                sfs == sorted@.map_values(|x: SegmentFile| x@),
                ids_fine ==> sfs[0].id >= 1 && (forall|q: int|
                    0 <= q < i - 1 ==> (#[trigger] sfs[q].id) < sfs[q + 1].id),
                !ids_fine ==> sfs[0].id < 1 || (exists|q: int|
                    0 <= q < i - 1 && (#[trigger] sfs[q].id) >= sfs[q + 1].id),
            decreases n - i,
        {
            if sorted[i - 1].id >= sorted[i].id {
                ids_fine = false;
                proof {
                    assert(sfs[i - 1].id >= sfs[i as int].id);
                }
            }
            i = i + 1;
        }
        proof {
            if ids_fine {
                assert forall|a: int, b: int| 0 <= a < b < sfs.len() implies (
                #[trigger] sfs[a].id) < (#[trigger] sfs[b].id) by {
                    lemma_adjacent_sorted(sfs, a, b);
                }
                assert forall|a: int| 0 <= a < sfs.len() implies (#[trigger] sfs[a]).id >= 1 by {
                    if a > 0 {
                        lemma_adjacent_sorted(sfs, 0, a);
                    }
                }
                assert(files_ids_ok(sfs));
            } else {
                assert(!files_ids_ok(sfs)) by {
                    if sfs[0].id < 1 {
                    } else {
                        let q = choose|q: int|
                            0 <= q < n - 1 && (#[trigger] sfs[q].id) >= sfs[q + 1].id;
                        assert(sfs[q].id >= sfs[q + 1].id);
                    }
                }
            }
        }
        ids_fine
    }

    /// Whether every sorted file decodes cleanly and fits under the cap.
    fn validate_files(sorted: &Vec<SegmentFile>, max_records: usize) -> (r: Option<KvsError>)
        ensures
            ({
                let sfs = sorted@.map_values(|x: SegmentFile| x@);
                &&& (r is None <==> files_parse_ok(sfs) && files_fit(sfs, max_records))
                &&& (r == Some(KvsError::Codec) ==> !files_parse_ok(sfs))
                &&& (r == Some(KvsError::SegmentFull) ==> !(files_parse_ok(sfs) && files_fit(
                    sfs,
                    max_records,
                )))
                &&& (r is Some ==> r == Some(KvsError::Codec) || r == Some(
                    KvsError::SegmentFull,
                ))
            }),
    {
        let ghost sfs = sorted@.map_values(|x: SegmentFile| x@);
        let n = sorted.len();
        let mut s: usize = 0;
        while s < n
            invariant
                n == sorted@.len(),
                0 <= s <= n,
                sfs == sorted@.map_values(|x: SegmentFile| x@),
                forall|q: int|
                    0 <= q < s ==> (seg_records((#[trigger] sfs[q]).data) matches Some(rs)
                        && rs.len() <= max_records),
            decreases n - s,
        {
            match Self::count_records(&sorted[s].data) {
                None => {
                    proof {
                        assert(seg_records(sfs[s as int].data) is None);
                        assert(!files_parse_ok(sfs));
                    }
                    return Some(KvsError::Codec);
                },
                Some(c) => {
                    if c > max_records {
                        proof {
                            assert(!files_fit(sfs, max_records));
                        }
                        return Some(KvsError::SegmentFull);
                    }
                },
            }
            s = s + 1;
        }
        None
    }

    /// Push the next segment file onto the store being rebuilt and start
    /// replaying it.
    #[verifier::rlimit(100)]
    fn begin_segment(&mut self, f: SegmentFile, Ghost(sfs): Ghost<Seq<SegFileV>>, Ghost(s): Ghost<
        int,
    >)
        requires
            0 <= s < sfs.len(),
            f@ == sfs[s],
            files_ids_ok(sfs),
            old(self)@.journal == Seq::<DiskOpV>::empty(),
            old(self)@.max_records >= 1,
            s > 0 ==> old(self)@.wf() && old(self)@.segs.len() == s && old(self)@.term == sfs[s
                - 1].id,
            s == 0 ==> old(self)@.segs.len() == 0 && old(self)@.entries == Seq::<
                IndexEntry,
            >::empty(),
            forall|q: int|
                0 <= q < s ==> (#[trigger] old(self)@.segs[q].id) == sfs[q].id && old(self)@.segs[q].data == sfs[q].data,
            seg_records(sfs[s].data) is Some,
        ensures
            replay_wf(final(self)@, 0),
            final(self)@.count == 0,
            final(self)@.term == sfs[s].id,
            final(self)@.segs.len() == s + 1,
            final(self)@.segs.last().data == sfs[s].data,
            final(self)@.index() == old(self)@.index(),
            final(self)@.journal == Seq::<DiskOpV>::empty(),
            final(self)@.max_records == old(self)@.max_records,
            final(self)@.threshold == old(self)@.threshold,
            forall|q: int|
                0 <= q < s + 1 ==> (#[trigger] final(self)@.segs[q].id) == sfs[q].id
                    && final(self)@.segs[q].data == sfs[q].data,
    {
        let ghost vprev = self@;
        let sid = f.id;
        self.term = sid;
        self.current_log_len = 0;
        self.segments.push(Segment { id: sid, data: f.data, counts: LengthCount::new() });
        proof {
            let vstart = self@;
            assert(vstart.segs =~= vprev.segs.push(
                SegV {
                    id: sid,
                    data: sfs[s].data,
                    counts: (LengthCount { len: 0, len_garbage: 0 }),
                },
            ));
            assert(sfs[s].id >= 1);
            assert(seg_records(sfs[s].data) == seg_records(vstart.segs.last().data));
            if s > 0 {
                assert forall|q: int| 0 <= q < vprev.segs.len() implies (
                #[trigger] vprev.segs[q].id) < sid by {
                    lemma_adjacent_sorted(sfs, q, s);
                }
                lemma_push_seg(vprev, vstart, vstart.segs.last());
                lemma_entries_bounded(vprev);
                crate::index::lemma_count_absent(vprev.entries, sid);
                assert forall|k: Seq<u8>| #[trigger] vstart.index().dom().contains(k) implies
                    vstart.entry_ok(k) by {
                    assert(vprev.entry_ok(k));
                    let e = vprev.index()[k];
                    assert(vprev.has_seg(e.segment));
                    assert(vstart.seg_at(e.segment) == vprev.seg_at(e.segment));
                    lemma_entry_transfer(vprev, vstart, k);
                }
                assert forall|q: int| 0 <= q < vstart.segs.len() - 1 implies vstart.seg_base_ok(
                    q,
                ) by {
                    assert(vprev.seg_base_ok(q));
                    lemma_adjacent_sorted(sfs, q, s);
                }
                assert forall|q: int| 0 <= q < vstart.segs.len() implies vstart.seg_count_ok(
                    q,
                ) by {
                    if q < vprev.segs.len() {
                        assert(vprev.seg_count_ok(q));
                    }
                }
            } else {
                assert(vstart.segs.len() == 1);
                assert(count_in_segment(vstart.entries, sid) == 0);
                assert(vstart.index() =~= Map::<Seq<u8>, ValueIndex>::empty());
            }
            lemma_seg_pos_unique(vstart, vstart.segs.len() - 1, sid);
            assert(replay_wf(vstart, 0));
        }
    }

    /// Replay the records of the segment that `begin_segment` just
    /// started.
    #[verifier::rlimit(100)]
    fn replay_segment(&mut self, Ghost(sfs): Ghost<Seq<SegFileV>>, Ghost(s): Ghost<int>)
        requires
            0 <= s < sfs.len(),
            replay_wf(old(self)@, 0),
            old(self)@.count == 0,
            old(self)@.term == sfs[s].id,
            old(self)@.segs.len() == s + 1,
            old(self)@.segs.last().data == sfs[s].data,
            old(self)@.journal == Seq::<DiskOpV>::empty(),
            seg_records(sfs[s].data) matches Some(rs) && rs.len() <= old(self)@.max_records,
            forall|q: int|
                0 <= q < s + 1 ==> (#[trigger] old(self)@.segs[q].id) == sfs[q].id && old(self)@.segs[q].data == sfs[q].data,
        ensures
            final(self)@.wf(),
            final(self)@.segs.len() == s + 1,
            final(self)@.term == sfs[s].id,
            final(self)@.journal == Seq::<DiskOpV>::empty(),
            final(self)@.max_records == old(self)@.max_records,
            final(self)@.threshold == old(self)@.threshold,
            final(self)@.index() == rindex_records(
                old(self)@.index(),
                sfs[s].id,
                seg_records(sfs[s].data).unwrap(),
            ),
            forall|q: int|
                0 <= q < s + 1 ==> (#[trigger] final(self)@.segs[q].id) == sfs[q].id
                    && final(self)@.segs[q].data == sfs[q].data,
    {
        let ghost m_in = self@.index();
        let ghost rs = seg_records(sfs[s].data).unwrap();
        let sid = self.term;
        proof {
            assert(self@.segs.len() > 0);
        }
        let p = self.segments.len() - 1;
        let dlen = self.segments[p].data.len();
        proof {
            assert(rs.len() > 0 ==> rs[0].head == 0) by {
                crate::codec::lemma_records_facts(sfs[s].data, 0);
            }
            assert(rs.len() == 0 ==> sfs[s].data.len() == 0) by {
                crate::codec::lemma_records_facts(sfs[s].data, 0);
            }
            assert(rs.take(0) =~= Seq::<RecAt>::empty());
        }
        let mut pos: usize = 0;
        let mut count: usize = 0;
        while pos < dlen
            invariant
                0 <= s < sfs.len(),
                st_inv_replay(self@, sfs, s, count as int),
                self@.max_records == old(self)@.max_records,
                self@.threshold == old(self)@.threshold,
                self@.index() == rindex_records(m_in, sid, rs.take(count as int)),
                (p as int) == self@.segs.len() - 1,
                dlen == sfs[s].data.len(),
                sid == sfs[s].id,
                seg_records(sfs[s].data) == Some(rs),
                rs.len() <= self@.max_records,
                count <= rs.len(),
                count < rs.len() ==> pos as int == rs[count as int].head,
                count == rs.len() ==> pos as int == dlen,
                pos <= dlen,
                self@.index() == rindex_records(m_in, sid, rs.take(count as int)),
            decreases dlen - pos,
        {
            proof {
                crate::codec::lemma_records_facts(sfs[s].data, 0);
                assert(count < rs.len());
                assert(parse_at(sfs[s].data, rs[count as int].head) == Some(
                    (rs[count as int].cmd, rs[count as int].tail),
                ));
            }
            let r = crate::codec::decode_at(&self.segments[p].data, pos);
            let (cmd, end) = match r {
                Some(x) => x,
                None => {
                    proof {
                        assert(false);
                    }
                    unreached()
                },
            };
            proof {
                assert(cmd@ == rs[count as int].cmd && end as int == rs[count as int].tail);
            }
            match cmd {
                Command::Put { key, value } => {
                    self.replay_apply_put(key, value, pos, end);
                },
                Command::Rm { key } => {
                    self.replay_apply_rm(key, pos, end);
                },
            }
            count = count + 1;
            proof {
                assert(rs.take(count as int).drop_last() =~= rs.take(count as int - 1));
                assert(rs.take(count as int).last() == rs[count as int - 1]);
                crate::codec::lemma_records_facts(sfs[s].data, 0);
                if count < rs.len() {
                    assert(rs[count as int - 1].tail == rs[count as int].head);
                } else {
                    assert(rs[rs.len() - 1].tail == dlen);
                }
            }
            pos = end;
        }
        proof {
            assert(count == rs.len()) by {
                if count < rs.len() {
                    crate::codec::lemma_records_facts(sfs[s].data, 0);
                    assert(rs[count as int].head < rs[count as int].tail <= dlen);
                }
            }
            lemma_replay_wf_done(self@, count as int);
            assert(rs.take(count as int) =~= rs);
        }
    }

    /// The body of `open_with_config`, with the file contents also in
    /// ghost form so that every return can speak about them.
    #[verifier::rlimit(100)]
    fn open_impl(
        files: Vec<SegmentFile>,
        max_records: usize,
        threshold_permille: u64,
        Ghost(input): Ghost<Seq<SegFileV>>,
    ) -> (r: Result<KvStore, KvsError>)
        requires
            max_records >= 1,
            input == files@.map_values(|x: SegmentFile| x@),
        ensures
            open_post(r, input, max_records, threshold_permille),
    {
        let sorted = Self::sort_files_exec(files);
        let ghost sfs = sort_files(input);
        let mut st = KvStore {
            segments: Vec::new(),
            index: Index::new(),
            term: 1,
            current_log_len: 0,
            max_records,
            threshold: threshold_permille,
            journal: Vec::new(),
        };
        if sorted.len() == 0 {
            st.segments.push(Segment { id: 1, data: Vec::new(), counts: LengthCount::new() });
            st.journal.push(DiskOp::Create { segment: 1 });
            proof {
                let v = st@;
                assert(v.segs =~= seq![
                    SegV {
                        id: 1u64,
                        data: Seq::empty(),
                        counts: (LengthCount { len: 0, len_garbage: 0 }),
                    },
                ]);
                assert(v.journal =~= seq![DiskOpV::Create { segment: 1u64 }]);
                assert(seg_records(Seq::<u8>::empty()) == Some(Seq::<RecAt>::empty()));
                assert(count_in_segment(v.entries, 1u64) == 0);
                lemma_seg_pos_unique(v, 0, 1u64);
                assert(v.wf());
                assert(v.index() =~= rindex_files(sfs));
                assert(durable(v)) by {
                    let fs = files_of(v);
                    assert(fs =~= seq![SegFileV { id: 1u64, data: Seq::<u8>::empty() }]);
                    assert(fs.drop_last() =~= Seq::<SegFileV>::empty());
                    assert(rindex_files(fs.drop_last()) == Map::<Seq<u8>, ValueIndex>::empty());
                    assert(rindex_files(fs) == rindex_records(
                        Map::<Seq<u8>, ValueIndex>::empty(),
                        1u64,
                        Seq::<RecAt>::empty(),
                    ));
                    assert(rindex_files(fs) =~= v.index());
                }
            }
            return Ok(st);
        }
        if !Self::check_ids(&sorted) {
            return Err(KvsError::SegmentOrder);
        }
        match Self::validate_files(&sorted, max_records) {
            Some(e) => {
                return Err(e);
            },
            None => {},
        }
        let n = sorted.len();
        let mut sorted = sorted;
        let mut s: usize = 0;
        while s < n
            invariant
                n == sfs.len(),
                0 <= s <= n,
                sorted@.map_values(|x: SegmentFile| x@) == sfs.skip(s as int),
                sfs == sort_files(input),
                files_ids_ok(sfs),
                files_parse_ok(sfs),
                files_fit(sfs, max_records),
                st@.max_records == max_records,
                st@.threshold == threshold_permille,
                max_records >= 1,
                st@.journal == Seq::<DiskOpV>::empty(),
                s > 0 ==> st@.wf() && st@.segs.len() == s && st@.term == sfs[s - 1].id,
                s == 0 ==> st@.segs.len() == 0 && st@.entries == Seq::<IndexEntry>::empty(),
                forall|q: int|
                    0 <= q < s ==> (#[trigger] st@.segs[q].id) == sfs[q].id && st@.segs[q].data
                        == sfs[q].data,
                st@.index() == rindex_files(sfs.take(s as int)),
            decreases n - s,
        {
            let ghost olds = sorted@;
            proof {
                assert(sorted@.map_values(|x: SegmentFile| x@).len() == sorted@.len());
                assert(sfs.skip(s as int).len() == n - s);
                assert(sorted@.len() > 0);
            }
            let f = sorted.remove(0);
            proof {
                assert(olds.len() > 0);
                assert(olds.map_values(|x: SegmentFile| x@) == sfs.skip(s as int));
                assert(f@ == olds.map_values(|x: SegmentFile| x@)[0]);
                assert(sfs.skip(s as int)[0] == sfs[s as int]);
                assert(sorted@ == olds.remove(0));
                assert(sorted@.map_values(|x: SegmentFile| x@) =~= sfs.skip(s as int + 1)) by {
                    assert forall|q: int|
                        0 <= q < sorted@.len() implies sorted@.map_values(|x: SegmentFile| x@)[q]
                            == #[trigger] sfs.skip(s as int + 1)[q] by {
                        assert(sorted@[q] == olds[q + 1]);
                        assert(olds.map_values(|x: SegmentFile| x@)[q + 1] == sfs.skip(
                            s as int,
                        )[q + 1]);
                        assert(sfs.skip(s as int)[q + 1] == sfs[s as int + q + 1]);
                        assert(sfs.skip(s as int + 1)[q] == sfs[s as int + 1 + q]);
                    }
                }
            }
            st.begin_segment(f, Ghost(sfs), Ghost(s as int));
            proof {
                assert(seg_records(sfs[s as int].data) is Some);
            }
            st.replay_segment(Ghost(sfs), Ghost(s as int));
            proof {
                assert(sfs.take(s as int + 1).drop_last() =~= sfs.take(s as int));
                assert(sfs.take(s as int + 1).last() == sfs[s as int]);
                assert(st@.index() == rindex_files(sfs.take(s as int + 1)));
            }
            s = s + 1;
        }
        proof {
            assert(sfs.take(n as int) =~= sfs);
            assert(st@.wf());
            assert(durable(st@)) by {
                assert(files_of(st@) =~= sfs);
                assert(rindex_files(files_of(st@)) == st@.index());
            }
        }
        Ok(st)
    }
}

/// The facts the replay loop keeps about the store being rebuilt.
pub open spec fn st_inv_replay(v: StoreView, sfs: Seq<SegFileV>, s: int, count: int) -> bool {
    &&& replay_wf(v, count)
    &&& v.count == count
    &&& v.segs.len() == s + 1
    &&& v.term == sfs[s].id
    &&& v.segs.last().data == sfs[s].data
    &&& v.journal == Seq::<DiskOpV>::empty()
    &&& forall|q: int|
        0 <= q < s + 1 ==> (#[trigger] v.segs[q].id) == sfs[q].id && v.segs[q].data
            == sfs[q].data
}

/// What `open` promises: success exactly when the sorted files are valid,
/// and then a well-formed store holding those files with the replayed
/// index.
pub open spec fn open_post(
    r: Result<KvStore, KvsError>,
    input: Seq<SegFileV>,
    max_records: usize,
    threshold_permille: u64,
) -> bool {
    let sfs = sort_files(input);
    &&& (r is Ok <==> files_ids_ok(sfs) && files_parse_ok(sfs) && files_fit(sfs, max_records))
    &&& (r matches Ok(st) ==> {
        &&& st@.wf()
        &&& st@.max_records == max_records
        &&& st@.threshold == threshold_permille
        &&& st@.index() == rindex_files(sfs)
        &&& (sfs.len() > 0 ==> st@.segs.len() == sfs.len() && (forall|i: int|
            0 <= i < sfs.len() ==> (#[trigger] st@.segs[i].id) == sfs[i].id && st@.segs[i].data
                == sfs[i].data) && st@.term == sfs.last().id && st@.journal == Seq::<
            DiskOpV,
        >::empty())
        &&& (sfs.len() == 0 ==> st@.segs.len() == 1 && st@.segs[0].id == 1 && st@.segs[0].data
            == Seq::<u8>::empty() && st@.segs[0].counts == (LengthCount {
            len: 0,
            len_garbage: 0,
        }) && st@.term == 1 && st@.journal == seq![DiskOpV::Create { segment: 1u64 }])
        &&& st@.count == st@.segs.last().counts.len
        &&& durable(st@)
    })
    &&& (r == Err::<KvStore, KvsError>(KvsError::SegmentOrder) ==> !files_ids_ok(sfs))
    &&& (r == Err::<KvStore, KvsError>(KvsError::Codec) ==> !files_parse_ok(sfs))
    &&& (r == Err::<KvStore, KvsError>(KvsError::SegmentFull) ==> !(files_parse_ok(sfs)
        && files_fit(sfs, max_records)))
}


impl KvStore {
    /// How many segment files the store currently has.
    pub fn num_segments(&self) -> (r: usize)
        ensures
            r == self@.segs.len(),
    {
        self.segments.len()
    }

    /// The ids of the store's segments, in ascending order.
    pub fn segment_ids(&self) -> (r: Vec<u64>)
        ensures
            r@.len() == self@.segs.len(),
            forall|i: int| 0 <= i < r@.len() ==> r@[i] == (#[trigger] self@.segs[i]).id,
    {
        let mut out: Vec<u64> = Vec::new();
        let n = self.segments.len();
        let mut i: usize = 0;
        while i < n
            invariant
                n == self@.segs.len(),
                0 <= i <= n,
                out@.len() == i,
                forall|q: int| 0 <= q < i ==> out@[q] == (#[trigger] self@.segs[q]).id,
            decreases n - i,
        {
            out.push(self.segments[i].id);
            i = i + 1;
        }
        out
    }

    /// The record counters of the segment with id `id`, if it exists.
    pub fn segment_counts(&self, id: u64) -> (r: Option<LengthCount>)
        requires
            self@.wf(),
        ensures
            r matches Some(c) ==> self@.has_seg(id) && c == self@.seg_at(id).counts,
            r is None ==> !self@.has_seg(id),
    {
        match self.find_pos(id) {
            Some(p) => {
                proof {
                    lemma_seg_pos_unique(self@, p as int, id);
                }
                Some(self.segments[p].counts)
            },
            None => None,
        }
    }

    /// The id of the active segment.
    pub fn active_segment(&self) -> (r: u64)
        ensures
            r == self@.term,
    {
        self.term
    }

    /// How many keys the store holds.
    pub fn key_count(&self) -> (r: usize)
        requires
            self@.wf(),
        ensures
            r == self@.index().dom().len(),
    {
        self.index.len()
    }
}

} // verus!
