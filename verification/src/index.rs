//! The in-memory index: a mapping from each live key to the byte range of
//! the record that holds its current value.

use vstd::prelude::*;

verus! {

/// Where the current value of one key lives: the byte range
/// `[head, tail)` of the segment with id `segment`.
#[derive(Clone, Copy, Debug, PartialEq, Eq, Structural)]
pub struct ValueIndex {
    /// Id of the segment that holds the record.
    pub segment: u64,
    /// Offset of the record's first byte within the segment.
    pub head: usize,
    /// Offset one past the record's last byte.
    pub tail: usize,
}

/// One binding of the index.
pub struct IndexEntry {
    /// The key.
    pub key: Vec<u8>,
    /// Where the key's current value lives.
    pub loc: ValueIndex,
}

/// The mapping an entry list stands for: later entries win.
pub open spec fn assoc_map(s: Seq<IndexEntry>) -> Map<Seq<u8>, ValueIndex>
    decreases s.len(),
{
    if s.len() == 0 {
        Map::empty()
    } else {
        assoc_map(s.drop_last()).insert(s.last().key@, s.last().loc)
    }
}

/// Whether no two entries bind the same key.
pub open spec fn unique_keys(s: Seq<IndexEntry>) -> bool {
    forall|i: int, j: int| 0 <= i < j < s.len() ==> #[trigger] s[i].key@ != #[trigger] s[j].key@
}

/// How many entries point into the segment with id `id`.
pub open spec fn count_in_segment(s: Seq<IndexEntry>, id: u64) -> int
    decreases s.len(),
{
    if s.len() == 0 {
        0
    } else {
        count_in_segment(s.drop_last(), id) + if s.last().loc.segment == id {
            1int
        } else {
            0int
        }
    }
}

/// The index. It maps each key to at most one location.
pub struct Index {
    entries: Vec<IndexEntry>,
}

impl View for Index {
    type V = Map<Seq<u8>, ValueIndex>;

    open spec fn view(&self) -> Map<Seq<u8>, ValueIndex> {
        assoc_map(self.entries_view())
    }
}

/// Compare two byte strings.
pub fn bytes_eq(a: &Vec<u8>, b: &Vec<u8>) -> (r: bool)
    ensures
        r == (a@ == b@),
{
    if a.len() != b.len() {
        return false;
    }
    let n = a.len();
    let mut i: usize = 0;
    while i < n
        invariant
            n == a@.len() == b@.len(),
            0 <= i <= n,
            forall|j: int| 0 <= j < i ==> a@[j] == b@[j],
        decreases n - i,
    {
        if a[i] != b[i] {
            return false;
        }
        i = i + 1;
    }
    proof {
        assert(a@ =~= b@);
    }
    true
}

impl Index {
    /// The entry list behind the map, for specifications that count.
    pub closed spec fn entries_view(&self) -> Seq<IndexEntry> {
        self.entries@
    }

    /// Whether the index is well formed: one entry per key.
    pub open spec fn wf(&self) -> bool {
        unique_keys(self.entries_view())
    }

    /// How many entries point into segment `id`.
    pub open spec fn count_seg(&self, id: u64) -> int {
        count_in_segment(self.entries_view(), id)
    }

    /// An empty index.
    pub fn new() -> (r: Index)
        ensures
            r.wf(),
            r@ == Map::<Seq<u8>, ValueIndex>::empty(),
            r.entries_view() == Seq::<IndexEntry>::empty(),
    {
        Index { entries: Vec::new() }
    }

    /// The number of keys the index holds.
    pub fn len(&self) -> (r: usize)
        requires
            self.wf(),
        ensures
            r == self@.dom().len(),
            r == self.entries_view().len(),
    {
        proof {
            lemma_assoc_map_len(self.entries@);
        }
        self.entries.len()
    }

    /// Look up a key.
    pub fn get(&self, key: &Vec<u8>) -> (r: Option<ValueIndex>)
        requires
            self.wf(),
        ensures
            r == (if self@.dom().contains(key@) {
                Some(self@[key@])
            } else {
                None
            }),
    {
        let n = self.entries.len();
        let mut i: usize = 0;
        while i < n
            invariant
                self.wf(),
                n == self.entries@.len(),
                0 <= i <= n,
                forall|j: int| 0 <= j < i ==> #[trigger] self.entries@[j].key@ != key@,
            decreases n - i,
        {
            if bytes_eq(&self.entries[i].key, key) {
                proof {
                    lemma_assoc_get(self.entries@, i as int);
                }
                return Some(self.entries[i].loc);
            }
            i = i + 1;
        }
        proof {
            lemma_assoc_absent(self.entries@, key@);
        }
        None
    }

    /// Bind `key` to `loc`, replacing any previous binding.
    pub fn insert(&mut self, key: Vec<u8>, loc: ValueIndex)
        requires
            old(self).wf(),
        ensures
            final(self).wf(),
            final(self)@ == old(self)@.insert(key@, loc),
            ({
                let s = old(self).entries_view();
                let f = final(self).entries_view();
                if old(self)@.dom().contains(key@) {
                    exists|i: int|
                        0 <= i < s.len() && s[i].key@ == key@ && f == s.update(
                            i,
                            IndexEntry { key, loc },
                        )
                } else {
                    f == s.push(IndexEntry { key, loc })
                }
            }),
    {
        let n = self.entries.len();
        let mut i: usize = 0;
        while i < n
            invariant
                self.wf(),
                self.entries@ == old(self).entries_view(),
                n == self.entries@.len(),
                0 <= i <= n,
                forall|j: int| 0 <= j < i ==> #[trigger] self.entries@[j].key@ != key@,
            decreases n - i,
        {
            if bytes_eq(&self.entries[i].key, &key) {
                proof {
                    lemma_assoc_get(self.entries@, i as int);
                    lemma_assoc_update(self.entries@, i as int, IndexEntry { key: key, loc });
                }
                let e = IndexEntry { key, loc };
                self.entries.set(i, e);
                return ;
            }
            i = i + 1;
        }
        proof {
            lemma_assoc_absent(self.entries@, key@);
            let e = IndexEntry { key: key, loc };
            assert(self.entries@.push(e).drop_last() =~= self.entries@);
            assert forall|a: int, b: int|
                0 <= a < b < self.entries@.push(e).len() implies #[trigger] self.entries@.push(
                e,
            )[a].key@ != #[trigger] self.entries@.push(e)[b].key@ by {
                if b < self.entries@.len() {
                    assert(self.entries@[a].key@ != self.entries@[b].key@);
                }
            }
        }
        self.entries.push(IndexEntry { key, loc });
    }

    /// Drop the binding of `key`, reporting the dropped location.
    pub fn remove(&mut self, key: &Vec<u8>) -> (r: Option<ValueIndex>)
        requires
            old(self).wf(),
        ensures
            final(self).wf(),
            final(self)@ == old(self)@.remove(key@),
            r == (if old(self)@.dom().contains(key@) {
                Some(old(self)@[key@])
            } else {
                None
            }),
            ({
                let s = old(self).entries_view();
                let f = final(self).entries_view();
                if old(self)@.dom().contains(key@) {
                    exists|i: int| 0 <= i < s.len() && s[i].key@ == key@ && f == s.remove(i)
                } else {
                    f == s
                }
            }),
    {
        let n = self.entries.len();
        let mut i: usize = 0;
        while i < n
            invariant
                self.wf(),
                self.entries@ == old(self).entries_view(),
                n == self.entries@.len(),
                0 <= i <= n,
                forall|j: int| 0 <= j < i ==> #[trigger] self.entries@[j].key@ != key@,
            decreases n - i,
        {
            if bytes_eq(&self.entries[i].key, key) {
                proof {
                    lemma_assoc_get(self.entries@, i as int);
                    lemma_assoc_remove(self.entries@, i as int);
                }
                let e = self.entries.remove(i);
                return Some(e.loc);
            }
            i = i + 1;
        }
        proof {
            lemma_assoc_absent(self.entries@, key@);
            assert(self@ =~= self@.remove(key@));
        }
        None
    }
}

/// Appending an entry raises by one the count of the segment it points to.
pub proof fn lemma_count_push(s: Seq<IndexEntry>, e: IndexEntry, id: u64)
    ensures
        count_in_segment(s.push(e), id) == count_in_segment(s, id) + if e.loc.segment == id {
            1int
        } else {
            0int
        },
{
    assert(s.push(e).drop_last() =~= s);
}

/// Replacing an entry moves one count from the old entry's segment to the
/// new entry's segment.
pub proof fn lemma_count_update(s: Seq<IndexEntry>, i: int, e: IndexEntry, id: u64)
    requires
        0 <= i < s.len(),
    ensures
        count_in_segment(s.update(i, e), id) == count_in_segment(s, id) - (if s[i].loc.segment
            == id {
            1int
        } else {
            0int
        }) + (if e.loc.segment == id {
            1int
        } else {
            0int
        }),
    decreases s.len(),
{
    let t = s.update(i, e);
    if i == s.len() - 1 {
        assert(t.drop_last() =~= s.drop_last());
        assert(t.last() == e);
    } else {
        lemma_count_update(s.drop_last(), i, e, id);
        assert(t.drop_last() =~= s.drop_last().update(i, e));
        assert(t.last() == s.last());
    }
}

/// Dropping an entry lowers by one the count of the segment it points to.
pub proof fn lemma_count_remove(s: Seq<IndexEntry>, i: int, id: u64)
    requires
        0 <= i < s.len(),
    ensures
        count_in_segment(s.remove(i), id) == count_in_segment(s, id) - (if s[i].loc.segment
            == id {
            1int
        } else {
            0int
        }),
    decreases s.len(),
{
    let t = s.remove(i);
    if i == s.len() - 1 {
        assert(t =~= s.drop_last());
    } else {
        lemma_count_remove(s.drop_last(), i, id);
        assert(t.drop_last() =~= s.drop_last().remove(i));
        assert(t.last() == s.last());
    }
}

/// A segment count is between zero and the number of entries.
pub proof fn lemma_count_bounds(s: Seq<IndexEntry>, id: u64)
    ensures
        0 <= count_in_segment(s, id) <= s.len(),
    decreases s.len(),
{
    if s.len() > 0 {
        lemma_count_bounds(s.drop_last(), id);
    }
}

/// A segment no entry points into counts zero entries.
pub proof fn lemma_count_absent(s: Seq<IndexEntry>, id: u64)
    requires
        forall|j: int| 0 <= j < s.len() ==> (#[trigger] s[j].loc).segment != id,
    ensures
        count_in_segment(s, id) == 0,
    decreases s.len(),
{
    if s.len() > 0 {
        lemma_count_absent(s.drop_last(), id);
    }
}

/// An entry pointing into a segment makes its count positive.
pub proof fn lemma_count_witness(s: Seq<IndexEntry>, i: int, id: u64)
    requires
        0 <= i < s.len(),
        s[i].loc.segment == id,
    ensures
        count_in_segment(s, id) >= 1,
    decreases s.len(),
{
    lemma_count_bounds(s.drop_last(), id);
    if i < s.len() - 1 {
        lemma_count_witness(s.drop_last(), i, id);
    }
}

/// An entry's key is bound, to that entry's location.
pub proof fn lemma_assoc_get(s: Seq<IndexEntry>, i: int)
    requires
        unique_keys(s),
        0 <= i < s.len(),
    ensures
        assoc_map(s).dom().contains(s[i].key@),
        assoc_map(s)[s[i].key@] == s[i].loc,
    decreases s.len(),
{
    if i < s.len() - 1 {
        lemma_assoc_get(s.drop_last(), i);
        assert(s.drop_last()[i] == s[i]);
        assert(s[i].key@ != s.last().key@);
    }
}

/// A key no entry holds is not bound.
pub proof fn lemma_assoc_absent(s: Seq<IndexEntry>, k: Seq<u8>)
    requires
        forall|j: int| 0 <= j < s.len() ==> #[trigger] s[j].key@ != k,
    ensures
        !assoc_map(s).dom().contains(k),
    decreases s.len(),
{
    if s.len() > 0 {
        lemma_assoc_absent(s.drop_last(), k);
    }
}

/// A bound key is held by some entry.
pub proof fn lemma_assoc_witness(s: Seq<IndexEntry>, k: Seq<u8>)
    requires
        assoc_map(s).dom().contains(k),
    ensures
        exists|j: int| 0 <= j < s.len() && (#[trigger] s[j].key@) == k,
    decreases s.len(),
{
    if s.len() > 0 {
        if s.last().key@ == k {
            assert(s[s.len() - 1].key@ == k);
        } else {
            lemma_assoc_witness(s.drop_last(), k);
            let j = choose|j: int| 0 <= j < s.drop_last().len() && (#[trigger] s.drop_last()[j].key@) == k;
            assert(s[j].key@ == k);
        }
    }
}

/// A well-formed entry list binds as many keys as it has entries.
pub proof fn lemma_assoc_map_len(s: Seq<IndexEntry>)
    requires
        unique_keys(s),
    ensures
        assoc_map(s).dom().finite(),
        assoc_map(s).dom().len() == s.len(),
    decreases s.len(),
{
    if s.len() > 0 {
        lemma_assoc_map_len(s.drop_last());
        lemma_assoc_absent(s.drop_last(), s.last().key@);
    }
}

/// Replacing the entry that holds a key rebinds exactly that key.
pub proof fn lemma_assoc_update(s: Seq<IndexEntry>, i: int, e: IndexEntry)
    requires
        unique_keys(s),
        0 <= i < s.len(),
        s[i].key@ == e.key@,
    ensures
        unique_keys(s.update(i, e)),
        assoc_map(s.update(i, e)) == assoc_map(s).insert(e.key@, e.loc),
    decreases s.len(),
{
    let t = s.update(i, e);
    assert forall|a: int, b: int| 0 <= a < b < t.len() implies #[trigger] t[a].key@
        != #[trigger] t[b].key@ by {
        assert(s[a].key@ != s[b].key@);
    }
    if i == s.len() - 1 {
        assert(t.drop_last() =~= s.drop_last());
        assert(assoc_map(t) == assoc_map(s.drop_last()).insert(e.key@, e.loc));
        assert(assoc_map(s.drop_last()).insert(e.key@, e.loc) =~= assoc_map(s.drop_last()).insert(
            s.last().key@,
            s.last().loc,
        ).insert(e.key@, e.loc));
    } else {
        lemma_assoc_update(s.drop_last(), i, e);
        assert(t.drop_last() =~= s.drop_last().update(i, e));
        assert(t.last() == s.last());
        assert(assoc_map(t) == assoc_map(s.drop_last()).insert(e.key@, e.loc).insert(
            s.last().key@,
            s.last().loc,
        ));
        assert(s.last().key@ != e.key@) by {
            assert(s[i].key@ != s[s.len() - 1].key@);
        }
        assert(assoc_map(s.drop_last()).insert(e.key@, e.loc).insert(s.last().key@, s.last().loc)
            =~= assoc_map(s).insert(e.key@, e.loc));
    }
}

/// Removing the entry that holds a key unbinds exactly that key.
pub proof fn lemma_assoc_remove(s: Seq<IndexEntry>, i: int)
    requires
        unique_keys(s),
        0 <= i < s.len(),
    ensures
        unique_keys(s.remove(i)),
        assoc_map(s.remove(i)) == assoc_map(s).remove(s[i].key@),
    decreases s.len(),
{
    let t = s.remove(i);
    assert forall|a: int, b: int| 0 <= a < b < t.len() implies #[trigger] t[a].key@
        != #[trigger] t[b].key@ by {
        let a0 = if a < i {
            a
        } else {
            a + 1
        };
        let b0 = if b < i {
            b
        } else {
            b + 1
        };
        assert(t[a] == s[a0]);
        assert(t[b] == s[b0]);
        assert(s[a0].key@ != s[b0].key@);
    }
    if i == s.len() - 1 {
        assert(t =~= s.drop_last());
        lemma_assoc_absent(s.drop_last(), s[i].key@);
        assert(assoc_map(s.drop_last()) =~= assoc_map(s.drop_last()).insert(
            s.last().key@,
            s.last().loc,
        ).remove(s[i].key@));
    } else {
        lemma_assoc_remove(s.drop_last(), i);
        assert(t.drop_last() =~= s.drop_last().remove(i));
        assert(t.last() == s.last());
        assert(assoc_map(t) == assoc_map(s.drop_last()).remove(s[i].key@).insert(
            s.last().key@,
            s.last().loc,
        ));
        assert(s.last().key@ != s[i].key@) by {
            assert(s[i].key@ != s[s.len() - 1].key@);
        }
        assert(assoc_map(s.drop_last()).remove(s[i].key@).insert(s.last().key@, s.last().loc)
            =~= assoc_map(s).remove(s[i].key@));
    }
}

} // verus!
