//! The log-structured engine's state and its rules: what the writer records
//! for each mutation, when the active segment rotates, how the index is
//! rebuilt on open, and how compaction picks and redirects records. The
//! segment files themselves are read and written by the caller, which hands
//! this state the lengths and records it met.
use vstd::prelude::*;
use dashmap::DashMap;
use crate::error::MyErr;
use crate::laws::Op;
use crate::index::{
    Index,
    index_entries,
    entry_of,
    index_new,
    index_insert,
    index_remove,
    index_get,
    index_contains,
    index_keys,
};

verus! {

/// The active segment rotates once it reaches this many bytes.
pub const SEGMENT_SIZE: u64 = 1048576;

/// Compaction runs once this many bytes are held by superseded records.
pub const COMPACT_THRESHOLD: u64 = 2097152;

/// The segment id that each compaction's output takes. The writer's ids
/// start at 2, so this segment is always the oldest, and every later
/// compaction rewrites it together with the next ones before replacing it.
pub const COMPACTED_ID: u32 = 1;

/// How many closed segments one compaction rewrites at most.
pub const COMPACT_BATCH: usize = 2;

/// A record as it was read back from a segment.
pub struct LoadedRecord {
    pub offset: u64,
    pub len: u32,
    pub key: String,
    pub val: String,
    pub is_del: bool,
}

/// A segment's id and its records, in file order.
pub struct LoadedSegment {
    pub id: u32,
    pub records: Vec<LoadedRecord>,
}

/// A record of the log, with the segment it lies in.
pub struct RecView {
    pub file: u32,
    pub offset: u64,
    pub len: u32,
    pub key: Seq<char>,
    pub val: Seq<char>,
    pub is_del: bool,
}

pub open spec fn rec_view(file: u32, r: LoadedRecord) -> RecView {
    RecView { file, offset: r.offset, len: r.len, key: r.key@, val: r.val@, is_del: r.is_del }
}

/// The records of one segment, in file order.
pub open spec fn seg_recs(s: LoadedSegment) -> Seq<RecView> {
    s.records@.map_values(|r: LoadedRecord| rec_view(s.id, r))
}

/// The records of the segments, segment after segment.
pub open spec fn flatten(segs: Seq<LoadedSegment>) -> Seq<RecView>
    decreases segs.len(),
{
    if segs.len() == 0 {
        Seq::empty()
    } else {
        flatten(segs.drop_last()) + seg_recs(segs.last())
    }
}

/// One record applied to the map of live values: a put sets the key, a
/// delete removes it.
pub open spec fn step_values(m: Map<Seq<char>, Seq<char>>, r: RecView) -> Map<Seq<char>, Seq<char>> {
    if r.is_del {
        m.remove(r.key)
    } else {
        m.insert(r.key, r.val)
    }
}

/// One record applied to the index.
pub open spec fn step_entries(m: Map<Seq<char>, Index>, r: RecView) -> Map<Seq<char>, Index> {
    if r.is_del {
        m.remove(r.key)
    } else {
        m.insert(r.key, Index { file: r.file, len: r.len, offset: r.offset })
    }
}

/// The bytes that one record makes reclaimable: the framed record that it
/// supersedes, and a delete record itself.
pub open spec fn step_garbage(m: Map<Seq<char>, Index>, r: RecView) -> nat {
    let old: nat = if m.contains_key(r.key) {
        (4 + m[r.key].len) as nat
    } else {
        0
    };
    if r.is_del {
        (old + 4 + r.len) as nat
    } else {
        old
    }
}

/// The live values after replaying `recs` in order.
pub open spec fn replay_values(recs: Seq<RecView>) -> Map<Seq<char>, Seq<char>>
    decreases recs.len(),
{
    if recs.len() == 0 {
        Map::empty()
    } else {
        step_values(replay_values(recs.drop_last()), recs.last())
    }
}

/// The index after replaying `recs` in order.
pub open spec fn replay_entries(recs: Seq<RecView>) -> Map<Seq<char>, Index>
    decreases recs.len(),
{
    if recs.len() == 0 {
        Map::empty()
    } else {
        step_entries(replay_entries(recs.drop_last()), recs.last())
    }
}

/// The reclaimable bytes after replaying `recs` in order.
pub open spec fn replay_garbage(recs: Seq<RecView>) -> nat
    decreases recs.len(),
{
    if recs.len() == 0 {
        0
    } else {
        replay_garbage(recs.drop_last()) + step_garbage(
            replay_entries(recs.drop_last()),
            recs.last(),
        )
    }
}

pub open spec fn saturate(n: nat) -> u64 {
    if n > u64::MAX {
        u64::MAX
    } else {
        n as u64
    }
}

pub open spec fn strictly_ascending(s: Seq<u32>) -> bool {
    forall|i: int, j: int| 0 <= i < j < s.len() ==> s[i] < s[j]
}

fn add_saturating(a: u64, b: u64) -> (r: u64)
    ensures
        r == saturate((a + b) as nat),
{
    if a > u64::MAX - b {
        u64::MAX
    } else {
        a + b
    }
}

/// The state of a log-structured store: the index, the active segment and its
/// length, the ids of all segments in ascending order, and the count of
/// reclaimable bytes. Its model is the map from each live key to its value.
pub struct LogState {
    index: DashMap<String, Index>,
    active: u32,
    active_len: u64,
    segments: Vec<u32>,
    uncompacted: u64,
    values: Ghost<Map<Seq<char>, Seq<char>>>,
    base: Ghost<Map<Seq<char>, Seq<char>>>,
    history: Ghost<Seq<Op>>,
}

impl LogState {
    /// The live keys and their values.
    pub closed spec fn view(&self) -> Map<Seq<char>, Seq<char>> {
        self.values@
    }

    /// Where each live key's latest put lies.
    pub closed spec fn entries(&self) -> Map<Seq<char>, Index> {
        index_entries(self.index)
    }

    pub closed spec fn active_spec(&self) -> u32 {
        self.active
    }

    pub closed spec fn active_len_spec(&self) -> u64 {
        self.active_len
    }

    pub closed spec fn segments_spec(&self) -> Seq<u32> {
        self.segments@
    }

    /// The live values when the store was opened.
    pub closed spec fn base(&self) -> Map<Seq<char>, Seq<char>> {
        self.base@
    }

    /// The writer calls committed since the store was opened, in order.
    pub closed spec fn history(&self) -> Seq<Op> {
        self.history@
    }

    pub closed spec fn uncompacted_spec(&self) -> u64 {
        self.uncompacted
    }

    /// The index covers exactly the live keys and points only into listed
    /// segments; the segments are listed in ascending order, end with the
    /// active one, and leave id 1 below all that the writer creates.
    pub closed spec fn wf(&self) -> bool {
        &&& index_entries(self.index).dom() == self.values@.dom()
        &&& self.segments@.len() >= 1
        &&& self.segments@.last() == self.active
        &&& strictly_ascending(self.segments@)
        &&& self.segments@[0] >= 1
        &&& self.active >= 2
        &&& self.values@ == apply_ops(self.base@, self.history@)
        &&& forall|k: Seq<char>|
            #![trigger index_entries(self.index).contains_key(k)]
            index_entries(self.index).contains_key(k) ==> self.segments@.contains(
                index_entries(self.index)[k].file,
            )
    }

    /// The id of the active segment.
    pub fn active_id(&self) -> (r: u32)
        ensures
            r == self.active_spec(),
    {
        self.active
    }

    /// The length of the active segment.
    pub fn active_len(&self) -> (r: u64)
        ensures
            r == self.active_len_spec(),
    {
        self.active_len
    }

    /// The reclaimable bytes.
    pub fn uncompacted(&self) -> (r: u64)
        ensures
            r == self.uncompacted_spec(),
    {
        self.uncompacted
    }

    /// The ids of all segments, ascending.
    pub fn segment_ids(&self) -> (r: Vec<u32>)
        ensures
            r@ == self.segments_spec(),
    {
        self.segments.clone()
    }
    /// Where the value of `key` lies, if the key is live.
    pub fn lookup(&self, key: &String) -> (r: Option<Index>)
        requires
            self.wf(),
        ensures
            r == entry_of(self.entries(), key@),
            r is Some <==> self.view().contains_key(key@),
    {
        index_get(&self.index, key)
    }

    /// Records that a put of `val` under `key`, with a payload of `len`
    /// bytes, was appended to the active segment. The key then maps to `val`
    /// and its index entry to the new payload; the record it supersedes, if
    /// any, becomes reclaimable. Returns whether the active segment has
    /// reached `SEGMENT_SIZE` and must rotate. Fails with `Exhausted`, and
    /// changes nothing, where the segment's length would leave `u64`.
    pub fn commit_set(&mut self, key: String, val: &str, len: u32) -> (r: Result<bool, MyErr>)
        requires
            old(self).wf(),
        ensures
            final(self).wf(),
            match r {
                Ok(rotate) => {
                    let offset = old(self).active_len_spec() + 4;
                    &&& offset + len <= u64::MAX
                    &&& final(self).view() == old(self).view().insert(key@, val@)
                    &&& final(self).entries() == old(self).entries().insert(
                        key@,
                        Index { file: old(self).active_spec(), len, offset: offset as u64 },
                    )
                    &&& final(self).active_len_spec() == offset + len
                    &&& rotate == (offset + len >= SEGMENT_SIZE)
                    &&& final(self).uncompacted_spec() == saturate(
                        (old(self).uncompacted_spec() + (if old(self).entries().contains_key(
                            key@,
                        ) {
                            4 + old(self).entries()[key@].len
                        } else {
                            0
                        })) as nat,
                    )
                    &&& final(self).active_spec() == old(self).active_spec()
                    &&& final(self).segments_spec() == old(self).segments_spec()
                    &&& final(self).base() == old(self).base()
                    &&& final(self).history() == old(self).history().push(
                        Op { key: key@, val: val@, is_remove: false },
                    )
                },
                Err(e) => e == MyErr::Exhausted && old(self).active_len_spec() + 4 + len
                    > u64::MAX && *final(self) == *old(self),
            },
    {
        if self.active_len > u64::MAX - 4 || self.active_len + 4 > u64::MAX - len as u64 {
            return Err(MyErr::Exhausted);
        }
        let offset = self.active_len + 4;
        let idx = Index::new(self.active, len, offset);
        let prior = index_insert(&mut self.index, key, idx);
        if let Some(p) = prior {
            self.uncompacted = add_saturating(self.uncompacted, 4 + p.len as u64);
        }
        proof {
            let op = Op { key: key@, val: val@, is_remove: false };
            assert(self.history@.push(op).drop_last() =~= self.history@);
        }
        self.values = Ghost(self.values@.insert(key@, val@));
        self.history = Ghost(self.history@.push(Op { key: key@, val: val@, is_remove: false }));
        self.active_len = offset + len as u64;
        Ok(self.active_len >= SEGMENT_SIZE)
    }

    /// Whether `key` may be removed: `KeyNotFound` exactly when it is not live.
    pub fn check_remove(&self, key: &String) -> (r: Result<(), MyErr>)
        requires
            self.wf(),
        ensures
            r is Ok <==> self.view().contains_key(key@),
            r matches Err(e) ==> e == MyErr::KeyNotFound,
    {
        if index_contains(&self.index, key) {
            Ok(())
        } else {
            Err(MyErr::KeyNotFound)
        }
    }

    /// Records that a delete of `key`, with a payload of `len` bytes, was
    /// appended to the active segment. The key is then absent; the put it
    /// removes and the delete itself become reclaimable. Returns whether the
    /// active segment must rotate. Fails with `KeyNotFound` where the key is
    /// not live, and with `Exhausted` where the segment's length would leave
    /// `u64`; then nothing changes.
    pub fn commit_remove(&mut self, key: &String, len: u32) -> (r: Result<bool, MyErr>)
        requires
            old(self).wf(),
        ensures
            final(self).wf(),
            match r {
                Ok(rotate) => {
                    let offset = old(self).active_len_spec() + 4;
                    &&& old(self).view().contains_key(key@)
                    &&& offset + len <= u64::MAX
                    &&& final(self).view() == old(self).view().remove(key@)
                    &&& final(self).entries() == old(self).entries().remove(key@)
                    &&& final(self).active_len_spec() == offset + len
                    &&& rotate == (offset + len >= SEGMENT_SIZE)
                    &&& final(self).uncompacted_spec() == saturate(
                        (old(self).uncompacted_spec() + 4 + old(self).entries()[key@].len + 4
                            + len) as nat,
                    )
                    &&& final(self).active_spec() == old(self).active_spec()
                    &&& final(self).segments_spec() == old(self).segments_spec()
                    &&& final(self).base() == old(self).base()
                    &&& final(self).history() == old(self).history().push(
                        Op { key: key@, val: Seq::empty(), is_remove: true },
                    )
                },
                Err(e) => *final(self) == *old(self) && (if old(self).view().contains_key(key@) {
                    e == MyErr::Exhausted && old(self).active_len_spec() + 4 + len > u64::MAX
                } else {
                    e == MyErr::KeyNotFound
                }),
            },
    {
        if !index_contains(&self.index, key) {
            return Err(MyErr::KeyNotFound);
        }
        if self.active_len > u64::MAX - 4 || self.active_len + 4 > u64::MAX - len as u64 {
            return Err(MyErr::Exhausted);
        }
        let prior = index_remove(&mut self.index, key);
        let p = prior.unwrap();
        let freed = add_saturating(4 + p.len as u64, 4 + len as u64);
        assert(freed == 4 + p.len + 4 + len);
        let unc = add_saturating(self.uncompacted, freed);
        self.uncompacted = unc;
        proof {
            let op = Op { key: key@, val: Seq::empty(), is_remove: true };
            assert(self.history@.push(op).drop_last() =~= self.history@);
        }
        self.values = Ghost(self.values@.remove(key@));
        self.history = Ghost(
            self.history@.push(Op { key: key@, val: Seq::empty(), is_remove: true }),
        );
        let offset = self.active_len + 4;
        self.active_len = offset + len as u64;
        Ok(self.active_len >= SEGMENT_SIZE)
    }

    /// Closes the active segment and makes a new, empty one with the next id
    /// active. Returns that id. Fails with `Exhausted`, changing nothing, when
    /// no id is left.
    pub fn rotate(&mut self) -> (r: Result<u32, MyErr>)
        requires
            old(self).wf(),
        ensures
            final(self).wf(),
            match r {
                Ok(id) => {
                    &&& id == old(self).active_spec() + 1
                    &&& final(self).active_spec() == id
                    &&& final(self).active_len_spec() == 0
                    &&& final(self).segments_spec() == old(self).segments_spec().push(id)
                    &&& final(self).view() == old(self).view()
                    &&& final(self).entries() == old(self).entries()
                    &&& final(self).uncompacted_spec() == old(self).uncompacted_spec()
                    &&& final(self).base() == old(self).base()
                    &&& final(self).history() == old(self).history()
                },
                Err(e) => e == MyErr::Exhausted && old(self).active_spec() == u32::MAX
                    && *final(self) == *old(self),
            },
    {
        if self.active == u32::MAX {
            return Err(MyErr::Exhausted);
        }
        let id = self.active + 1;
        let ghost old_segs = self.segments@;
        self.active = id;
        self.active_len = 0;
        self.segments.push(id);
        proof {
            assert forall|k: Seq<char>| #[trigger]
                index_entries(self.index).contains_key(k) implies self.segments@.contains(
                index_entries(self.index)[k].file,
            ) by {
                let f = index_entries(self.index)[k].file;
                let j = choose|j: int| 0 <= j < old_segs.len() && old_segs[j] == f;
                assert(self.segments@[j] == old_segs[j]);
            }
        }
        Ok(id)
    }
}

/// The segment ids found on open are usable: ascending, above 0.
pub open spec fn ids_ascending(segs: Seq<LoadedSegment>) -> bool {
    &&& forall|i: int, j: int| 0 <= i < j < segs.len() ==> segs[i].id < segs[j].id
    &&& segs.len() > 0 ==> segs[0].id >= 1
}

/// The id of the segment that becomes active on open: one past the last
/// segment found, and never below 2.
pub open spec fn next_active(segs: Seq<LoadedSegment>) -> int {
    if segs.len() == 0 {
        2
    } else {
        segs.last().id + 1
    }
}

/// Replaying a log keys the index and the live values alike.
pub proof fn lemma_replay_dom(recs: Seq<RecView>)
    ensures
        replay_entries(recs).dom() == replay_values(recs).dom(),
    decreases recs.len(),
{
    if recs.len() > 0 {
        lemma_replay_dom(recs.drop_last());
    }
}

pub proof fn lemma_replay_push(recs: Seq<RecView>, r: RecView)
    ensures
        replay_values(recs.push(r)) == step_values(replay_values(recs), r),
        replay_entries(recs.push(r)) == step_entries(replay_entries(recs), r),
        replay_garbage(recs.push(r)) == replay_garbage(recs) + step_garbage(
            replay_entries(recs),
            r,
        ),
{
    assert(recs.push(r).drop_last() =~= recs);
}

proof fn lemma_flatten_push(segs: Seq<LoadedSegment>, i: int)
    requires
        0 <= i < segs.len(),
    ensures
        flatten(segs.subrange(0, i + 1)) == flatten(segs.subrange(0, i)) + seg_recs(segs[i]),
{
    assert(segs.subrange(0, i + 1).drop_last() =~= segs.subrange(0, i));
}

impl LogState {
    /// Rebuilds the state from the segments found on open, ascending by id,
    /// each with its records in file order: the index and the live values are
    /// those of replaying every record in that order, and a new empty segment
    /// past the last becomes active. Fails with `CorruptRecord` exactly when
    /// the ids are not ascending or one is 0, and otherwise with `Exhausted`
    /// exactly when the last id leaves no room for the active one.
    pub fn recover(segs: &Vec<LoadedSegment>) -> (r: Result<LogState, MyErr>)
        ensures
            match r {
                Ok(s) => {
                    &&& ids_ascending(segs@)
                    &&& s.wf()
                    &&& s.view() == replay_values(flatten(segs@))
                    &&& s.entries() == replay_entries(flatten(segs@))
                    &&& s.uncompacted_spec() == saturate(replay_garbage(flatten(segs@)))
                    &&& s.active_spec() == next_active(segs@)
                    &&& s.active_len_spec() == 0
                    &&& s.base() == s.view()
                    &&& s.history() == Seq::<Op>::empty()
                    &&& s.segments_spec() == segs@.map_values(|g: LoadedSegment| g.id).push(
                        s.active_spec(),
                    )
                },
                Err(e) => if !ids_ascending(segs@) {
                    e == MyErr::CorruptRecord
                } else {
                    e == MyErr::Exhausted && segs@.len() > 0 && segs@.last().id == u32::MAX
                },
            },
    {
        let mut index = index_new();
        let mut values: Ghost<Map<Seq<char>, Seq<char>>> = Ghost(Map::empty());
        let mut unc: u64 = 0;
        let mut ids: Vec<u32> = Vec::new();
        let ghost mut done: Seq<RecView> = Seq::empty();
        let mut i: usize = 0;
        assert(segs@.subrange(0, 0) =~= Seq::<LoadedSegment>::empty());
        assert(index_entries(index) =~= replay_entries(done));
        while i < segs.len()
            invariant
                i <= segs@.len(),
                done == flatten(segs@.subrange(0, i as int)),
                index_entries(index) == replay_entries(done),
                values@ == replay_values(done),
                unc == saturate(replay_garbage(done)),
                forall|k: Seq<char>|
                    #![trigger index_entries(index).contains_key(k)]
                    index_entries(index).contains_key(k) ==> ids@.contains(
                        index_entries(index)[k].file,
                    ),
                ids@ == segs@.subrange(0, i as int).map_values(|g: LoadedSegment| g.id),
                ids_ascending(segs@.subrange(0, i as int)),
            decreases segs@.len() - i,
        {
            let seg = &segs[i];
            if (i == 0 && seg.id == 0) || (i > 0 && seg.id <= segs[i - 1].id) {
                proof {
                    if i > 0 {
                        assert(segs@[i - 1].id >= segs@[i as int].id);
                    }
                }
                return Err(MyErr::CorruptRecord);
            }
            let ghost before = done;
            let mut j: usize = 0;
            assert(seg_recs(*seg).subrange(0, 0) =~= Seq::<RecView>::empty());
            assert(done =~= before + seg_recs(*seg).subrange(0, 0));
            while j < seg.records.len()
                invariant
                    i < segs@.len(),
                    *seg == segs@[i as int],
                    j <= seg.records@.len(),
                    done == before + seg_recs(*seg).subrange(0, j as int),
                    index_entries(index) == replay_entries(done),
                    values@ == replay_values(done),
                    unc == saturate(replay_garbage(done)),
                    forall|k: Seq<char>|
                        #![trigger index_entries(index).contains_key(k)]
                        index_entries(index).contains_key(k) ==> ids@.contains(
                            index_entries(index)[k].file,
                        ) || index_entries(index)[k].file == seg.id,
                decreases seg.records@.len() - j,
            {
                let rec = &seg.records[j];
                let ghost r = rec_view(seg.id, *rec);
                proof {
                    lemma_replay_push(done, r);
                }
                if rec.is_del {
                    let prior = index_remove(&mut index, &rec.key);
                    if let Some(p) = prior {
                        unc = add_saturating(unc, 4 + p.len as u64);
                    }
                    unc = add_saturating(unc, 4 + rec.len as u64);
                } else {
                    let prior = index_insert(
                        &mut index,
                        rec.key.clone(),
                        Index::new(seg.id, rec.len, rec.offset),
                    );
                    if let Some(p) = prior {
                        unc = add_saturating(unc, 4 + p.len as u64);
                    }
                }
                values = Ghost(step_values(values@, r));
                proof {
                    assert(seg_recs(*seg).subrange(0, j + 1) =~= seg_recs(*seg).subrange(
                        0,
                        j as int,
                    ).push(r));
                    done = done.push(r);
                }
                assert(index_entries(index) =~= replay_entries(done));
                j = j + 1;
            }
            proof {
                assert(seg_recs(*seg).subrange(0, j as int) =~= seg_recs(*seg));
                lemma_flatten_push(segs@, i as int);
                assert(segs@.subrange(0, i + 1).map_values(|g: LoadedSegment| g.id)
                    =~= segs@.subrange(0, i as int).map_values(|g: LoadedSegment| g.id).push(
                    seg.id,
                ));
                let sub = segs@.subrange(0, i + 1);
                let pre = segs@.subrange(0, i as int);
                assert forall|a: int, b: int|
                    0 <= a < b < i + 1 implies #[trigger] sub[a].id < #[trigger] sub[b].id by {
                    assert(sub[a] == segs@[a]);
                    assert(sub[b] == segs@[b]);
                    if b < i {
                        assert(pre[a] == segs@[a]);
                        assert(pre[b] == segs@[b]);
                    } else if a < i - 1 {
                        assert(pre[a] == segs@[a]);
                        assert(pre[i - 1] == segs@[i - 1]);
                        assert(pre[a].id < pre[i - 1].id);
                    }
                }
            }
            let ghost old_ids = ids@;
            ids.push(seg.id);
            proof {
                assert forall|k: Seq<char>| #[trigger]
                    index_entries(index).contains_key(k) implies ids@.contains(
                    index_entries(index)[k].file,
                ) by {
                    let f = index_entries(index)[k].file;
                    if f == seg.id {
                        assert(ids@[ids@.len() - 1] == f);
                    } else {
                        let a = choose|a: int| 0 <= a < old_ids.len() && old_ids[a] == f;
                        assert(ids@[a] == old_ids[a]);
                    }
                }
            }
            i = i + 1;
        }
        assert(segs@.subrange(0, i as int) =~= segs@);
        let active: u32 = if segs.len() == 0 {
            2
        } else {
            let last = segs[segs.len() - 1].id;
            if last == u32::MAX {
                return Err(MyErr::Exhausted);
            }
            last + 1
        };
        let ghost old_ids = ids@;
        ids.push(active);
        proof {
            assert forall|k: Seq<char>| #[trigger]
                index_entries(index).contains_key(k) implies ids@.contains(
                index_entries(index)[k].file,
            ) by {
                let f = index_entries(index)[k].file;
                let a = choose|a: int| 0 <= a < old_ids.len() && old_ids[a] == f;
                assert(ids@[a] == old_ids[a]);
            }
            lemma_replay_dom(done);
        }
        let s = LogState {
            index,
            active,
            active_len: 0,
            segments: ids,
            uncompacted: unc,
            values,
            base: values,
            history: Ghost(Seq::empty()),
        };
        proof {
            assert forall|a: int, b: int|
                0 <= a < b < s.segments@.len() implies s.segments@[a] < s.segments@[b] by {
                if b == s.segments@.len() - 1 {
                    assert(s.segments@[a] == segs@[a].id);
                    if a < segs@.len() - 1 {
                        assert(segs@[a].id < segs@.last().id);
                    }
                } else {
                    assert(s.segments@[a] == segs@[a].id);
                    assert(s.segments@[b] == segs@[b].id);
                }
            }
            if segs@.len() > 0 {
                assert(s.segments@[0] == segs@[0].id);
            }
        }
        Ok(s)
    }
}

/// A record that compaction keeps: where it lay, and the offset of its payload
/// in the compacted segment.
pub struct Kept {
    pub file: u32,
    pub offset: u64,
    pub len: u32,
    pub key: String,
    pub is_del: bool,
    pub new_offset: u64,
}

/// What one compaction does: the segments it replaces, the records it
/// rewrites into the compacted segment in order, and the bytes it frees.
pub struct CompactionPlan {
    pub sources: Vec<u32>,
    pub kept: Vec<Kept>,
    pub freed: u64,
}

/// Whether compaction rewrites a record: a put that the index still points
/// at, or a delete of a key that is absent (an older put of it may lie in a
/// segment that this compaction leaves alone).
pub open spec fn keeps(entries: Map<Seq<char>, Index>, r: RecView) -> bool {
    if r.is_del {
        !entries.contains_key(r.key)
    } else {
        entries.contains_key(r.key) && entries[r.key] == (Index {
            file: r.file,
            len: r.len,
            offset: r.offset,
        })
    }
}

/// The records that compaction keeps, in order.
pub open spec fn select(entries: Map<Seq<char>, Index>, recs: Seq<RecView>) -> Seq<RecView>
    decreases recs.len(),
{
    if recs.len() == 0 {
        Seq::empty()
    } else {
        let p = select(entries, recs.drop_last());
        if keeps(entries, recs.last()) {
            p.push(recs.last())
        } else {
            p
        }
    }
}

/// Where a record lies and what it is, without its value.
pub open spec fn rec_loc(r: RecView) -> (u32, u64, u32, Seq<char>, bool) {
    (r.file, r.offset, r.len, r.key, r.is_del)
}

pub open spec fn kept_loc(k: Kept) -> (u32, u64, u32, Seq<char>, bool) {
    (k.file, k.offset, k.len, k.key@, k.is_del)
}

/// The bytes that framed records take.
pub open spec fn frames_len(recs: Seq<RecView>) -> nat
    decreases recs.len(),
{
    if recs.len() == 0 {
        0
    } else {
        (frames_len(recs.drop_last()) + 4 + recs.last().len) as nat
    }
}

/// The bytes that the kept records take in the compacted segment.
pub open spec fn kept_len(ks: Seq<Kept>) -> nat
    decreases ks.len(),
{
    if ks.len() == 0 {
        0
    } else {
        (kept_len(ks.drop_last()) + 4 + ks.last().len) as nat
    }
}

/// The index after redirecting each kept put that it still points at to the
/// record's place in the compacted segment.
pub open spec fn redirect(entries: Map<Seq<char>, Index>, ks: Seq<Kept>) -> Map<Seq<char>, Index>
    decreases ks.len(),
{
    if ks.len() == 0 {
        entries
    } else {
        let m = redirect(entries, ks.drop_last());
        let k = ks.last();
        if !k.is_del && m.contains_key(k.key@) && m[k.key@] == (Index {
            file: k.file,
            len: k.len,
            offset: k.offset,
        }) {
            m.insert(k.key@, Index { file: COMPACTED_ID, len: k.len, offset: k.new_offset })
        } else {
            m
        }
    }
}

pub proof fn lemma_redirect_dom(entries: Map<Seq<char>, Index>, ks: Seq<Kept>)
    ensures
        redirect(entries, ks).dom() == entries.dom(),
    decreases ks.len(),
{
    if ks.len() > 0 {
        lemma_redirect_dom(entries, ks.drop_last());
        let m = redirect(entries, ks.drop_last());
        let k = ks.last();
        if m.contains_key(k.key@) {
            assert(m.insert(k.key@, Index { file: COMPACTED_ID, len: k.len, offset: k.new_offset }).dom()
                =~= m.dom());
        }
    }
}

proof fn lemma_select_push(entries: Map<Seq<char>, Index>, recs: Seq<RecView>, r: RecView)
    ensures
        select(entries, recs.push(r)) == (if keeps(entries, r) {
            select(entries, recs).push(r)
        } else {
            select(entries, recs)
        }),
        frames_len(recs.push(r)) == frames_len(recs) + 4 + r.len,
{
    assert(recs.push(r).drop_last() =~= recs);
}

proof fn lemma_flatten_concat(a: Seq<LoadedSegment>, b: Seq<LoadedSegment>)
    ensures
        flatten(a + b) == flatten(a) + flatten(b),
    decreases b.len(),
{
    if b.len() == 0 {
        assert(a + b =~= a);
        assert(flatten(a) + flatten(b) =~= flatten(a));
    } else {
        assert((a + b).drop_last() =~= a + b.drop_last());
        assert((a + b).last() == b.last());
        lemma_flatten_concat(a, b.drop_last());
        assert(flatten(a + b) =~= flatten(a) + flatten(b));
    }
}

proof fn lemma_flatten_split(segs: Seq<LoadedSegment>, i: int)
    requires
        0 <= i < segs.len(),
    ensures
        flatten(segs) == flatten(segs.subrange(0, i)) + seg_recs(segs[i]) + flatten(
            segs.subrange(i + 1, segs.len() as int),
        ),
{
    lemma_flatten_concat(segs.subrange(0, i + 1), segs.subrange(i + 1, segs.len() as int));
    assert(segs.subrange(0, i + 1) + segs.subrange(i + 1, segs.len() as int) =~= segs);
    lemma_flatten_push(segs, i);
}

proof fn lemma_select_grows(entries: Map<Seq<char>, Index>, a: Seq<RecView>, b: Seq<RecView>)
    ensures
        frames_len(select(entries, a)) <= frames_len(select(entries, a + b)),
    decreases b.len(),
{
    if b.len() == 0 {
        assert(a + b =~= a);
    } else {
        assert((a + b).drop_last() =~= a + b.drop_last());
        assert((a + b).last() == b.last());
        lemma_select_grows(entries, a, b.drop_last());
        let p = select(entries, a + b.drop_last());
        if keeps(entries, b.last()) {
            assert(p.push(b.last()).drop_last() =~= p);
        }
    }
}

impl LogState {
    /// The segments that the next compaction rewrites: the oldest closed
    /// segments, `COMPACT_BATCH` at most, once the reclaimable bytes reach
    /// `COMPACT_THRESHOLD` and a closed segment exists; `None` otherwise.
    pub fn compaction_sources(&self) -> (r: Option<Vec<u32>>)
        requires
            self.wf(),
        ensures
            match r {
                Some(v) => {
                    let n = self.segments_spec().len() - 1;
                    &&& self.uncompacted_spec() >= COMPACT_THRESHOLD
                    &&& n >= 1
                    &&& v@ == self.segments_spec().subrange(
                        0,
                        if n < COMPACT_BATCH {
                            n
                        } else {
                            COMPACT_BATCH as int
                        },
                    )
                },
                None => self.uncompacted_spec() < COMPACT_THRESHOLD || self.segments_spec().len()
                    < 2,
            },
    {
        if self.uncompacted < COMPACT_THRESHOLD || self.segments.len() < 2 {
            return None;
        }
        let closed = self.segments.len() - 1;
        let n = if closed < COMPACT_BATCH {
            closed
        } else {
            COMPACT_BATCH
        };
        let mut v: Vec<u32> = Vec::new();
        let mut i: usize = 0;
        while i < n
            invariant
                n <= self.segments@.len(),
                i <= n,
                v@ == self.segments@.subrange(0, i as int),
            decreases n - i,
        {
            v.push(self.segments[i]);
            i = i + 1;
            assert(v@ =~= self.segments@.subrange(0, i as int));
        }
        Some(v)
    }

    /// Picks the records of `sources` (the segments to compact, with their
    /// records in file order) that the compacted segment keeps, in order,
    /// and lays them out there one after another. `freed` is what the
    /// sources take beyond the kept records. Fails with `Exhausted` where the
    /// compacted segment's length would leave `u64`.
    pub fn plan_compaction(&self, sources: &Vec<LoadedSegment>) -> (r: Result<CompactionPlan, MyErr>)
        requires
            self.wf(),
        ensures
            match r {
                Ok(p) => {
                    &&& p.sources@ == sources@.map_values(|g: LoadedSegment| g.id)
                    &&& p.kept@.map_values(|k: Kept| kept_loc(k)) == select(
                        self.entries(),
                        flatten(sources@),
                    ).map_values(|x: RecView| rec_loc(x))
                    &&& forall|i: int|
                        0 <= i < p.kept@.len() ==> #[trigger] p.kept@[i].new_offset == kept_len(
                            p.kept@.subrange(0, i),
                        ) + 4
                    &&& kept_len(p.kept@) <= u64::MAX
                    &&& p.freed == (if kept_len(p.kept@) > saturate(frames_len(flatten(sources@))) {
                        0
                    } else {
                        saturate(frames_len(flatten(sources@))) - kept_len(p.kept@)
                    })
                },
                Err(e) => e == MyErr::Exhausted && frames_len(
                    select(self.entries(), flatten(sources@)),
                ) > u64::MAX,
            },
    {
        let mut kept: Vec<Kept> = Vec::new();
        let mut ids: Vec<u32> = Vec::new();
        let mut pos: u64 = 0;
        let mut total: u64 = 0;
        let ghost mut done: Seq<RecView> = Seq::empty();
        let ghost entries = self.entries();
        let mut i: usize = 0;
        assert(sources@.subrange(0, 0) =~= Seq::<LoadedSegment>::empty());
        while i < sources.len()
            invariant
                self.wf(),
                entries == self.entries(),
                i <= sources@.len(),
                done == flatten(sources@.subrange(0, i as int)),
                kept@.map_values(|k: Kept| kept_loc(k)) == select(entries, done).map_values(
                    |x: RecView| rec_loc(x),
                ),
                forall|a: int|
                    0 <= a < kept@.len() ==> #[trigger] kept@[a].new_offset == kept_len(
                        kept@.subrange(0, a),
                    ) + 4,
                pos == kept_len(kept@),
                pos == frames_len(select(entries, done)),
                total == saturate(frames_len(done)),
                ids@ == sources@.subrange(0, i as int).map_values(|g: LoadedSegment| g.id),
            decreases sources@.len() - i,
        {
            let seg = &sources[i];
            let ghost before = done;
            let mut j: usize = 0;
            assert(seg_recs(*seg).subrange(0, 0) =~= Seq::<RecView>::empty());
            assert(done =~= before + seg_recs(*seg).subrange(0, 0));
            while j < seg.records.len()
                invariant
                    self.wf(),
                    entries == self.entries(),
                    i < sources@.len(),
                    *seg == sources@[i as int],
                    j <= seg.records@.len(),
                    done == before + seg_recs(*seg).subrange(0, j as int),
                    kept@.map_values(|k: Kept| kept_loc(k)) == select(entries, done).map_values(
                        |x: RecView| rec_loc(x),
                    ),
                    forall|a: int|
                        0 <= a < kept@.len() ==> #[trigger] kept@[a].new_offset == kept_len(
                            kept@.subrange(0, a),
                        ) + 4,
                    pos == kept_len(kept@),
                    pos == frames_len(select(entries, done)),
                    total == saturate(frames_len(done)),
                    before == flatten(sources@.subrange(0, i as int)),
                decreases seg.records@.len() - j,
            {
                let rec = &seg.records[j];
                let ghost r = rec_view(seg.id, *rec);
                proof {
                    lemma_select_push(entries, done, r);
                }
                let keep = if rec.is_del {
                    !index_contains(&self.index, &rec.key)
                } else {
                    match index_get(&self.index, &rec.key) {
                        Some(cur) => cur.file == seg.id && cur.len == rec.len && cur.offset
                            == rec.offset,
                        None => false,
                    }
                };
                assert(keep == keeps(entries, r));
                if keep {
                    if pos > u64::MAX - 4 || pos + 4 > u64::MAX - rec.len as u64 {
                        proof {
                            assert(select(entries, done.push(r)) == select(entries, done).push(r));
                            assert(select(entries, done).push(r).drop_last() =~= select(
                                entries,
                                done,
                            ));
                            assert(frames_len(select(entries, done.push(r))) == pos + 4 + rec.len);
                            let sr = seg_recs(*seg);
                            let tail = sr.subrange(j + 1, sr.len() as int);
                            assert(sr[j as int] == r);
                            assert(sr.subrange(0, j as int).push(r) + tail =~= sr);
                            assert(done.push(r) + tail =~= before + sr);
                            lemma_flatten_split(sources@, i as int);
                            assert(done.push(r) + tail + flatten(
                                sources@.subrange(i + 1, sources@.len() as int),
                            ) =~= flatten(sources@));
                            let fr = flatten(sources@.subrange(i + 1, sources@.len() as int));
                            assert(done.push(r) + (tail + fr) =~= flatten(sources@));
                            lemma_select_grows(entries, done.push(r), tail + fr);
                        }
                        return Err(MyErr::Exhausted);
                    }
                    let k = Kept {
                        file: seg.id,
                        offset: rec.offset,
                        len: rec.len,
                        key: rec.key.clone(),
                        is_del: rec.is_del,
                        new_offset: pos + 4,
                    };
                    let ghost old_kept = kept@;
                    kept.push(k);
                    proof {
                        assert(kept@.drop_last() =~= old_kept);
                        assert(kept@.subrange(0, old_kept.len() as int) =~= old_kept);
                        assert forall|a: int|
                            0 <= a < kept@.len() implies #[trigger] kept@[a].new_offset
                            == kept_len(kept@.subrange(0, a)) + 4 by {
                            if a < old_kept.len() {
                                assert(kept@.subrange(0, a) =~= old_kept.subrange(0, a));
                            }
                        }
                        assert(kept@.map_values(|k: Kept| kept_loc(k)) =~= old_kept.map_values(
                            |k: Kept| kept_loc(k),
                        ).push(rec_loc(r)));
                        assert(select(entries, done.push(r)).map_values(|x: RecView| rec_loc(x))
                            =~= select(entries, done).map_values(|x: RecView| rec_loc(x)).push(
                            rec_loc(r),
                        ));
                    }
                    proof {
                        assert(select(entries, done).push(r).drop_last() =~= select(entries, done));
                    }
                    pos = pos + 4 + rec.len as u64;
                }
                total = add_saturating(total, 4 + rec.len as u64);
                proof {
                    assert(seg_recs(*seg).subrange(0, j + 1) =~= seg_recs(*seg).subrange(
                        0,
                        j as int,
                    ).push(r));
                    done = done.push(r);
                }
                j = j + 1;
            }
            proof {
                assert(seg_recs(*seg).subrange(0, j as int) =~= seg_recs(*seg));
                lemma_flatten_push(sources@, i as int);
                assert(sources@.subrange(0, i + 1).map_values(|g: LoadedSegment| g.id)
                    =~= sources@.subrange(0, i as int).map_values(|g: LoadedSegment| g.id).push(
                    seg.id,
                ));
            }
            ids.push(seg.id);
            i = i + 1;
        }
        assert(sources@.subrange(0, i as int) =~= sources@);
        let freed = if pos > total {
            0
        } else {
            total - pos
        };
        Ok(CompactionPlan { sources: ids, kept, freed })
    }
}

impl LogState {
    /// Installs a compaction whose output was written as the segment
    /// `COMPACTED_ID`: the plan's sources give way to that segment; each kept
    /// put that the index still points at is redirected there, and every
    /// other entry stays; the freed bytes leave the reclaimable count. The
    /// live keys and their values are those of before, and no entry points
    /// into a removed segment. Fails with `StaleCompaction`, changing
    /// nothing, exactly where `compaction_valid` refuses the plan.
    pub fn commit_compaction(&mut self, plan: &CompactionPlan) -> (r: Result<(), MyErr>)
        requires
            old(self).wf(),
        ensures
            final(self).wf(),
            final(self).view() == old(self).view(),
            match r {
                Ok(()) => {
                    let n = plan.sources@.len() as int;
                    &&& sources_prefix(old(self).segments_spec(), plan.sources@)
                    &&& covers(old(self).entries(), plan.sources@, plan.kept@)
                    &&& final(self).entries() == redirect(old(self).entries(), plan.kept@)
                    &&& final(self).entries().dom() == old(self).entries().dom()
                    &&& final(self).segments_spec() == seq![COMPACTED_ID] + old(
                        self,
                    ).segments_spec().subrange(n, old(self).segments_spec().len() as int)
                    &&& final(self).uncompacted_spec() == (if plan.freed > old(
                        self,
                    ).uncompacted_spec() {
                        0
                    } else {
                        old(self).uncompacted_spec() - plan.freed
                    })
                    &&& final(self).active_spec() == old(self).active_spec()
                    &&& final(self).active_len_spec() == old(self).active_len_spec()
                    &&& final(self).base() == old(self).base()
                    &&& final(self).history() == old(self).history()
                },
                Err(e) => {
                    &&& e == MyErr::StaleCompaction
                    &&& !(sources_prefix(old(self).segments_spec(), plan.sources@) && covers(
                        old(self).entries(),
                        plan.sources@,
                        plan.kept@,
                    ))
                    &&& *final(self) == *old(self)
                },
            },
    {
        if !self.compaction_valid(plan) {
            return Err(MyErr::StaleCompaction);
        }
        let n = plan.sources.len();
        assert(plan.sources@ =~= self.segments@.subrange(0, n as int));
        let ghost start = self.entries();
        let mut j: usize = 0;
        assert(plan.kept@.subrange(0, 0) =~= Seq::<Kept>::empty());
        while j < plan.kept.len()
            invariant
                j <= plan.kept@.len(),
                index_entries(self.index) == redirect(start, plan.kept@.subrange(0, j as int)),
                start == old(self).entries(),
                self.segments == old(self).segments,
                self.active == old(self).active,
                self.active_len == old(self).active_len,
                self.uncompacted == old(self).uncompacted,
                self.values == old(self).values,
                self.base == old(self).base,
                self.history == old(self).history,
                old(self).wf(),
                n < self.segments@.len(),
                plan.sources@ == self.segments@.subrange(0, n as int),
            decreases plan.kept@.len() - j,
        {
            let k = &plan.kept[j];
            proof {
                assert(plan.kept@.subrange(0, j + 1).drop_last() =~= plan.kept@.subrange(
                    0,
                    j as int,
                ));
            }
            if !k.is_del {
                match index_get(&self.index, &k.key) {
                    Some(cur) => {
                        if cur.file == k.file && cur.len == k.len && cur.offset == k.offset {
                            index_insert(
                                &mut self.index,
                                k.key.clone(),
                                Index::new(COMPACTED_ID, k.len, k.new_offset),
                            );
                        }
                    },
                    None => {},
                }
            }
            j = j + 1;
        }
        assert(plan.kept@.subrange(0, j as int) =~= plan.kept@);
        proof {
            lemma_redirect_dom(start, plan.kept@);
        }
        let ghost old_segs = self.segments@;
        let mut segs: Vec<u32> = Vec::new();
        segs.push(COMPACTED_ID);
        let mut i: usize = n;
        while i < self.segments.len()
            invariant
                self.segments@ == old_segs,
                self.base == old(self).base,
                self.history == old(self).history,
                self.values == old(self).values,
                n <= i <= old_segs.len(),
                segs@ == seq![COMPACTED_ID] + old_segs.subrange(n as int, i as int),
            decreases old_segs.len() - i,
        {
            segs.push(self.segments[i]);
            i = i + 1;
            assert(segs@ =~= seq![COMPACTED_ID] + old_segs.subrange(n as int, i as int));
        }
        proof {
            assert forall|a: int, b: int| 0 <= a < b < segs@.len() implies #[trigger] segs@[a]
                < #[trigger] segs@[b] by {
                assert(old_segs[0] < old_segs[n as int]);
                if a > 0 {
                    assert(segs@[a] == old_segs[n + a - 1]);
                }
                assert(segs@[b] == old_segs[n + b - 1]);
            }
            assert(segs@.last() == old_segs.last());
        }
        self.segments = segs;
        proof {
            assert forall|k: Seq<char>| #[trigger]
                index_entries(self.index).contains_key(k) implies self.segments@.contains(
                index_entries(self.index)[k].file,
            ) by {
                lemma_redirect_file(start, plan.kept@, k);
                let f = index_entries(self.index)[k].file;
                if f == COMPACTED_ID {
                    assert(self.segments@[0] == f);
                } else {
                    assert(index_entries(self.index)[k] == start[k]);
                    let j = choose|j: int| 0 <= j < old_segs.len() && old_segs[j] == f;
                    if j < n {
                        assert(plan.sources@[j] == f);
                        assert(plan.sources@.contains(start[k].file));
                    } else {
                        assert(self.segments@[j - n + 1] == old_segs[j]);
                    }
                }
            }
        }
        self.uncompacted = if plan.freed > self.uncompacted {
            0
        } else {
            self.uncompacted - plan.freed
        };
        Ok(())
    }
}

/// Where a kept record lay, as an index entry.
pub open spec fn kept_index(k: Kept) -> Index {
    Index { file: k.file, len: k.len, offset: k.offset }
}

/// A plan's sources are the oldest segments and leave the active one.
pub open spec fn sources_prefix(segs: Seq<u32>, sources: Seq<u32>) -> bool {
    1 <= sources.len() < segs.len() && sources == segs.subrange(0, sources.len() as int)
}

/// A plan rewrites every record that the index points at in its sources.
pub open spec fn covers(entries: Map<Seq<char>, Index>, sources: Seq<u32>, kept: Seq<Kept>) -> bool {
    forall|k: Seq<char>|
        #![trigger entries.contains_key(k)]
        entries.contains_key(k) && sources.contains(entries[k].file) ==> exists|i: int|
            0 <= i < kept.len() && kept[i].key@ == k && !kept[i].is_del && kept_index(kept[i])
                == entries[k]
}

/// Redirecting moves an entry only into the compacted segment, and moves
/// every entry that a kept put matches.
pub proof fn lemma_redirect_file(entries: Map<Seq<char>, Index>, ks: Seq<Kept>, k: Seq<char>)
    requires
        entries.contains_key(k),
    ensures
        redirect(entries, ks).contains_key(k),
        redirect(entries, ks)[k] == entries[k] || redirect(entries, ks)[k].file == COMPACTED_ID,
        (exists|i: int|
            0 <= i < ks.len() && ks[i].key@ == k && !ks[i].is_del && kept_index(ks[i])
                == entries[k]) ==> redirect(entries, ks)[k].file == COMPACTED_ID,
    decreases ks.len(),
{
    lemma_redirect_dom(entries, ks);
    if ks.len() > 0 {
        let init = ks.drop_last();
        lemma_redirect_file(entries, init, k);
        if exists|i: int|
            0 <= i < ks.len() && ks[i].key@ == k && !ks[i].is_del && kept_index(ks[i])
                == entries[k] {
            let i = choose|i: int|
                0 <= i < ks.len() && ks[i].key@ == k && !ks[i].is_del && kept_index(ks[i])
                    == entries[k];
            if i < init.len() {
                assert(init[i] == ks[i]);
            }
        }
    }
}

fn contains_id(v: &Vec<u32>, x: u32) -> (r: bool)
    ensures
        r == v@.contains(x),
{
    let mut i: usize = 0;
    while i < v.len()
        invariant
            i <= v@.len(),
            forall|t: int| 0 <= t < i ==> v@[t] != x,
        decreases v@.len() - i,
    {
        if v[i] == x {
            assert(v@[i as int] == x);
            return true;
        }
        i = i + 1;
    }
    false
}

fn has_match(kept: &Vec<Kept>, key: &String, e: Index) -> (r: bool)
    ensures
        r == exists|i: int|
            0 <= i < kept@.len() && kept@[i].key@ == key@ && !kept@[i].is_del && kept_index(
                kept@[i],
            ) == e,
{
    let mut i: usize = 0;
    while i < kept.len()
        invariant
            i <= kept@.len(),
            forall|t: int|
                0 <= t < i ==> !(kept@[t].key@ == key@ && !kept@[t].is_del && kept_index(kept@[t])
                    == e),
        decreases kept@.len() - i,
    {
        let k = &kept[i];
        if !k.is_del && k.file == e.file && k.len == e.len && k.offset == e.offset && k.key.eq(key) {
            assert(kept_index(kept@[i as int]) == e);
            return true;
        }
        i = i + 1;
    }
    false
}

impl LogState {
    /// Whether a plan still fits the store: its sources are the oldest
    /// segments, short of the active one, and it rewrites every record that
    /// the index points at in them.
    pub fn compaction_valid(&self, plan: &CompactionPlan) -> (r: bool)
        requires
            self.wf(),
        ensures
            r == (sources_prefix(self.segments_spec(), plan.sources@) && covers(
                self.entries(),
                plan.sources@,
                plan.kept@,
            )),
    {
        let n = plan.sources.len();
        if n < 1 || n >= self.segments.len() {
            return false;
        }
        let mut i: usize = 0;
        while i < n
            invariant
                self.wf(),
                n < self.segments@.len(),
                n == plan.sources@.len(),
                i <= n,
                forall|a: int| 0 <= a < i ==> plan.sources@[a] == self.segments@[a],
            decreases n - i,
        {
            if plan.sources[i] != self.segments[i] {
                return false;
            }
            i = i + 1;
        }
        assert(plan.sources@ =~= self.segments@.subrange(0, n as int));
        let keys = index_keys(&self.index);
        let ghost entries = self.entries();
        let mut j: usize = 0;
        while j < keys.len()
            invariant
                self.wf(),
                entries == self.entries(),
                j <= keys@.len(),
                forall|t: int| 0 <= t < keys@.len() ==> entries.contains_key(#[trigger] keys@[t]@),
                forall|t: int|
                    0 <= t < j ==> (plan.sources@.contains(entries[#[trigger] keys@[t]@].file)
                        ==> exists|a: int|
                        0 <= a < plan.kept@.len() && plan.kept@[a].key@ == keys@[t]@
                            && !plan.kept@[a].is_del && kept_index(plan.kept@[a])
                            == entries[keys@[t]@]),
            decreases keys@.len() - j,
        {
            let key = &keys[j];
            assert(entries.contains_key(keys@[j as int]@));
            let e = index_get(&self.index, key).unwrap();
            if contains_id(&plan.sources, e.file) && !has_match(&plan.kept, key, e) {
                assert(!covers(entries, plan.sources@, plan.kept@)) by {
                    assert(entries.contains_key(key@));
                }
                return false;
            }
            j = j + 1;
        }
        assert(covers(entries, plan.sources@, plan.kept@)) by {
            assert forall|k: Seq<char>| #[trigger]
                entries.contains_key(k) && plan.sources@.contains(entries[k].file) implies exists|
                i: int|
                0 <= i < plan.kept@.len() && plan.kept@[i].key@ == k && !plan.kept@[i].is_del
                    && kept_index(plan.kept@[i]) == entries[k] by {
                let t = choose|t: int| 0 <= t < keys@.len() && keys@[t]@ == k;
                assert(entries.contains_key(keys@[t]@));
            }
        }
        true
    }
}

impl LogState {
    /// What a well-formed state guarantees: the index and the live values
    /// share their keys, every entry points into a listed segment, and the
    /// segments ascend to the active one, which is the largest.
    pub proof fn lemma_wf(&self)
        requires
            self.wf(),
        ensures
            self.entries().dom() == self.view().dom(),
            self.segments_spec().len() >= 1,
            self.segments_spec().last() == self.active_spec(),
            strictly_ascending(self.segments_spec()),
            self.segments_spec()[0] >= 1,
            self.active_spec() >= 2,
            self.view() == apply_ops(self.base(), self.history()),
            forall|k: Seq<char>|
                #![trigger self.entries().contains_key(k)]
                self.entries().contains_key(k) ==> self.segments_spec().contains(
                    self.entries()[k].file,
                ),
    {
    }
}

/// One committed writer call applied to the live values.
pub open spec fn apply_op(m: Map<Seq<char>, Seq<char>>, op: Op) -> Map<Seq<char>, Seq<char>> {
    if op.is_remove {
        m.remove(op.key)
    } else {
        m.insert(op.key, op.val)
    }
}

/// The live values after committed writer calls, from `base` on.
pub open spec fn apply_ops(base: Map<Seq<char>, Seq<char>>, ops: Seq<Op>) -> Map<
    Seq<char>,
    Seq<char>,
>
    decreases ops.len(),
{
    if ops.len() == 0 {
        base
    } else {
        apply_op(apply_ops(base, ops.drop_last()), ops.last())
    }
}

} // verus!
