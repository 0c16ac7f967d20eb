//! The log-structured engine as a sequence of steps over its state: replay
//! at open, appends, reads and compaction. Each step names the file work it
//! needs (a read at a location, an append to the active segment) and takes its
//! outcome as an argument; a ghost copy of the segment contents lets the
//! contracts say what the files hold.

use vstd::prelude::*;

use crate::codec::{
    holds_record, lemma_record_in_context, lemma_record_restrict, parse_record, record_bytes, Log,
    RecordView,
};
use crate::error::{message_of, KvsError};
use crate::index::{KvsIndex, LogMeta};

verus! {

/// When the reclaimable bytes reach this many, the store is to be compacted.
pub const COMPACTION_THRESHOLD: u64 = 4194304;

pub open spec fn sat_add(a: u64, b: int) -> u64 {
    if a + b > u64::MAX {
        u64::MAX
    } else {
        (a + b) as u64
    }
}

/// The records of a segment from `at` to its end, each with its offset and
/// length; `None` where the bytes are not a whole number of records.
pub open spec fn parse_log(b: Seq<u8>, at: int) -> Option<Seq<(RecordView, nat, nat)>>
    decreases b.len() - at,
{
    if at < 0 {
        None
    } else if at >= b.len() {
        Some(Seq::empty())
    } else {
        match parse_record(b, at) {
            Some((r, e)) => if e > at {
                match parse_log(b, e as int) {
                    Some(rest) => Some(seq![(r, at as nat, (e - at) as nat)] + rest),
                    None => None,
                }
            } else {
                None
            },
            None => None,
        }
    }
}

/// One record of segment `id` replayed onto the index and the reclaimable
/// count: a `Set` points its key at it, a tombstone drops the key; the record
/// that was pointed at before, and a tombstone itself, become reclaimable.
pub open spec fn replay_step(
    st: (Map<Seq<char>, LogMeta>, u64),
    id: u32,
    rec: (RecordView, nat, nat),
) -> (Map<Seq<char>, LogMeta>, u64) {
    let m = st.0;
    let k = rec.0.0;
    let prev: int = if m.contains_key(k) {
        m[k].len as int
    } else {
        0
    };
    match rec.0.1 {
        Some(_) => (
            m.insert(k, LogMeta { file_id: id, offset: rec.1 as u64, len: rec.2 as usize }),
            sat_add(st.1, prev),
        ),
        None => (m.remove(k), sat_add(st.1, prev + rec.2)),
    }
}

/// The records of segment `id` replayed in order.
pub open spec fn replay(
    st: (Map<Seq<char>, LogMeta>, u64),
    id: u32,
    recs: Seq<(RecordView, nat, nat)>,
) -> (Map<Seq<char>, LogMeta>, u64)
    decreases recs.len(),
{
    if recs.len() == 0 {
        st
    } else {
        replay_step(replay(st, id, recs.drop_last()), id, recs.last())
    }
}

/// The segments `ids` of `disk` replayed in that order onto an empty index;
/// `None` where one of them is not a whole number of records.
pub open spec fn replay_segments(disk: Map<u32, Seq<u8>>, ids: Seq<u32>) -> Option<
    (Map<Seq<char>, LogMeta>, u64),
>
    decreases ids.len(),
{
    if ids.len() == 0 {
        Some((Map::empty(), 0))
    } else {
        match replay_segments(disk, ids.drop_last()) {
            Some(st) => match parse_log(disk[ids.last()], 0) {
                Some(recs) => Some(replay(st, ids.last(), recs)),
                None => None,
            },
            None => None,
        }
    }
}

proof fn lemma_replay_segments_agree(d1: Map<u32, Seq<u8>>, d2: Map<u32, Seq<u8>>, ids: Seq<u32>)
    requires
        forall|i: int| 0 <= i < ids.len() ==> d1[#[trigger] ids[i]] == d2[ids[i]],
    ensures
        replay_segments(d1, ids) == replay_segments(d2, ids),
    decreases ids.len(),
{
    if ids.len() > 0 {
        let p = ids.drop_last();
        assert forall|i: int| 0 <= i < p.len() implies d1[#[trigger] p[i]] == d2[p[i]] by {
            assert(p[i] == ids[i]);
        }
        lemma_replay_segments_agree(d1, d2, p);
        assert(d1[ids.last()] == d2[ids[ids.len() - 1]]);
    }
}

/// A whole record appended to a segment is read back as its last record.
#[verifier::rlimit(40)]
proof fn lemma_parse_log_append(a: Seq<u8>, x: Seq<u8>, r: RecordView, at: int)
    requires
        0 <= at <= a.len(),
        parse_log(a, at) is Some,
        holds_record(x, r),
    ensures
        parse_log(a + x, at) == Some(parse_log(a, at)->Some_0.push((r, a.len(), x.len()))),
    decreases a.len() - at,
{
    let b = a + x;
    let rec = (r, a.len(), x.len());
    lemma_record_restrict(x, 0);
    lemma_record_in_context(x, a, Seq::empty(), r);
    assert(a + x + Seq::<u8>::empty() =~= b);
    if at == a.len() {
        assert(parse_log(b, b.len() as int) == Some(Seq::<(RecordView, nat, nat)>::empty()));
        assert(seq![rec] + Seq::<(RecordView, nat, nat)>::empty() =~= Seq::<
            (RecordView, nat, nat),
        >::empty().push(rec));
    } else {
        let (r0, e) = parse_record(a, at)->Some_0;
        lemma_record_restrict(a, at);
        lemma_record_in_context(
            a.subrange(at, e as int),
            a.subrange(0, at),
            a.subrange(e as int, a.len() as int) + x,
            r0,
        );
        assert(a.subrange(0, at) + a.subrange(at, e as int) + (a.subrange(e as int, a.len() as int)
            + x) =~= b);
        lemma_parse_log_append(a, x, r, e as int);
        let rest = parse_log(a, e as int)->Some_0;
        let head = seq![(r0, at as nat, (e - at) as nat)];
        assert((head + rest).push(rec) =~= head + rest.push(rec));
    }
}

/// Replaying an empty segment changes nothing.
pub proof fn lemma_empty_segment_replays_to_nothing(
    st: (Map<Seq<char>, LogMeta>, u64),
    id: u32,
)
    ensures
        parse_log(Seq::<u8>::empty(), 0) == Some(Seq::<(RecordView, nat, nat)>::empty()),
        replay(st, id, Seq::<(RecordView, nat, nat)>::empty()) == st,
{
}

/// A write applied to a map of keys to values: a `Set` maps its key to its
/// value, a tombstone drops its key.
pub open spec fn apply_record(m: Map<Seq<char>, Seq<char>>, r: RecordView) -> Map<
    Seq<char>,
    Seq<char>,
> {
    match r.1 {
        Some(v) => m.insert(r.0, v),
        None => m.remove(r.0),
    }
}

/// Writes applied in order to a map.
pub open spec fn apply_records(m: Map<Seq<char>, Seq<char>>, rs: Seq<RecordView>) -> Map<
    Seq<char>,
    Seq<char>,
>
    decreases rs.len(),
{
    if rs.len() == 0 {
        m
    } else {
        apply_record(apply_records(m, rs.drop_last()), rs.last())
    }
}

/// The key's location lies in a segment of `disk` and holds exactly the record
/// that sets the key to `v`.
pub open spec fn location_holds(
    disk: Map<u32, Seq<u8>>,
    k: Seq<char>,
    m: LogMeta,
    v: Seq<char>,
) -> bool {
    &&& disk.contains_key(m.file_id)
    &&& m.end() <= disk[m.file_id].len()
    &&& holds_record(disk[m.file_id].subrange(m.offset as int, m.end()), (k, Some(v)))
}

pub open spec fn strictly_ascending(s: Seq<u32>) -> bool {
    forall|i: int, j: int| 0 <= i < j < s.len() ==> s[i] < s[j]
}

proof fn lemma_subrange_of_append(a: Seq<u8>, c: Seq<u8>, i: int, j: int)
    requires
        0 <= i <= j <= a.len(),
    ensures
        (a + c).subrange(i, j) == a.subrange(i, j),
{
    assert((a + c).subrange(i, j) =~= a.subrange(i, j));
}

/// A bytes sequence holds at most one record.
pub proof fn lemma_holds_one(b: Seq<u8>, r1: RecordView, r2: RecordView)
    requires
        holds_record(b, r1),
        holds_record(b, r2),
    ensures
        r1 == r2,
{
}

/// The state of an `open` in progress: segments replayed so far, in ascending
/// order of id.
pub struct Bootstrap {
    index: KvsIndex,
    loaded: Vec<u32>,
    uncompact_size: u64,
    failed: bool,
    disk: Ghost<Map<u32, Seq<u8>>>,
    values: Ghost<Map<Seq<char>, Seq<char>>>,
}

impl Bootstrap {
    pub closed spec fn wf(&self) -> bool {
        &&& self.index.wf()
        &&& strictly_ascending(self.loaded@)
        &&& forall|id: u32| #[trigger] self.disk@.contains_key(id) <==> self.loaded@.contains(id)
        &&& self.index@.dom() == self.values@.dom()
        &&& forall|k: Seq<char>| #[trigger]
            self.index@.contains_key(k) ==> location_holds(
                self.disk@,
                k,
                self.index@[k],
                self.values@[k],
            )
        &&& !self.failed ==> replay_segments(self.disk@, self.loaded@) == Some(
            (self.index@, self.uncompact_size),
        )
    }

    /// A segment failed to replay; the replay cannot be finished.
    pub closed spec fn is_failed(&self) -> bool {
        self.failed
    }

    /// The content of each segment replayed so far.
    pub closed spec fn files(&self) -> Map<u32, Seq<u8>> {
        self.disk@
    }

    /// The index built so far.
    pub closed spec fn locations(&self) -> Map<Seq<char>, LogMeta> {
        self.index@
    }

    /// The reclaimable bytes counted so far.
    pub closed spec fn reclaimable(&self) -> u64 {
        self.uncompact_size
    }

    /// The ids of the segments replayed so far.
    pub closed spec fn loaded_ids(&self) -> Seq<u32> {
        self.loaded@
    }

    /// The keys and values the replayed records leave.
    pub closed spec fn values(&self) -> Map<Seq<char>, Seq<char>> {
        self.values@
    }

    /// The id the new active segment gets: one past the largest replayed, or 1.
    pub open spec fn spec_next_id(&self) -> int {
        if self.loaded_ids().len() == 0 {
            1
        } else {
            self.loaded_ids().last() + 1
        }
    }

    /// Ends the replay with a fresh, empty active segment whose id is one past
    /// every replayed one; there is none past `u32::MAX`.
    pub fn finish(self) -> (r: Result<KvStore, KvsError>)
        requires
            self.wf(),
        ensures
            match r {
                Ok(s) => {
                    &&& s.wf()
                    &&& s@ == self.values()
                    &&& s.locations() == self.locations()
                    &&& s.reclaimable() == self.reclaimable()
                    &&& s.spec_active_id() == self.spec_next_id()
                    &&& s.segment_ids() == self.loaded_ids().push(s.spec_active_id())
                    &&& s.files()[s.spec_active_id()] == Seq::<u8>::empty()
                },
                Err(e) => (self.is_failed() || self.spec_next_id() > u32::MAX) && e is Inner,
            },
    {
        if self.failed {
            return Err(KvsError::Inner("a segment failed to replay".to_owned()));
        }
        let next: u32 = if self.loaded.len() == 0 {
            1
        } else {
            let last = self.loaded[self.loaded.len() - 1];
            if last == u32::MAX {
                return Err(KvsError::Inner("no segment id is left".to_owned()));
            }
            last + 1
        };
        let Bootstrap { index, loaded, uncompact_size, failed: _, disk, values } = self;
        let mut segments = loaded;
        let ghost old_segs = segments@;
        segments.push(next);
        let ghost new_disk = disk@.insert(next, Seq::<u8>::empty());
        proof {
            assert forall|k: Seq<char>| #[trigger] index@.contains_key(k) implies location_holds(
                new_disk,
                k,
                index@[k],
                values@[k],
            ) by {
                assert(location_holds(disk@, k, index@[k], values@[k]));
                let id = index@[k].file_id;
                assert(old_segs.contains(id));
                let j = choose|j: int| 0 <= j < old_segs.len() && old_segs[j] == id;
                if j < old_segs.len() - 1 {
                    assert(old_segs[j] < old_segs.last());
                }
            }
            assert forall|a: int, b: int| 0 <= a < b < segments@.len() implies segments@[a]
                < segments@[b] by {
                if b == segments@.len() - 1 && a < b - 1 {
                    assert(old_segs[a] < old_segs[b - 1]);
                }
            }
            assert forall|i: int| 0 <= i < old_segs.len() implies new_disk[#[trigger] old_segs[i]]
                == disk@[old_segs[i]] by {
                if i < old_segs.len() - 1 {
                    assert(old_segs[i] < old_segs.last());
                }
            }
            lemma_replay_segments_agree(new_disk, disk@, old_segs);
            lemma_empty_segment_replays_to_nothing((index@, uncompact_size), next);
            assert(segments@.drop_last() =~= old_segs);
            assert forall|id: u32| #[trigger] new_disk.contains_key(id) <==> segments@.contains(
                id,
            ) by {
                if old_segs.contains(id) {
                    let j = choose|j: int| 0 <= j < old_segs.len() && old_segs[j] == id;
                    assert(segments@[j] == id);
                }
                if segments@.contains(id) && id != next {
                    let j = choose|j: int| 0 <= j < segments@.len() && segments@[j] == id;
                    assert(old_segs[j] == id);
                }
                if id == next {
                    assert(segments@[segments@.len() - 1] == id);
                }
            }
        }
        Ok(
            KvStore {
                index,
                segments,
                write_id: next,
                active_len: 0,
                uncompact_size,
                disk: Ghost(new_disk),
                values,
            },
        )
    }

    pub fn new() -> (r: Bootstrap)
        ensures
            r.wf(),
            r.locations() == Map::<Seq<char>, LogMeta>::empty(),
            r.reclaimable() == 0,
            r.loaded_ids() == Seq::<u32>::empty(),
            r.values() == Map::<Seq<char>, Seq<char>>::empty(),
            r.files() == Map::<u32, Seq<u8>>::empty(),
            !r.is_failed(),
    {
        Bootstrap {
            index: KvsIndex::new(),
            loaded: Vec::new(),
            uncompact_size: 0,
            failed: false,
            disk: Ghost(Map::empty()),
            values: Ghost(Map::empty()),
        }
    }

    /// Replays the records of segment `id`, whose whole content is `bytes`.
    /// Segments must come in ascending order of id; a segment that is not a
    /// whole number of records fails the replay.
    pub fn load(&mut self, id: u32, bytes: &[u8]) -> (r: Result<(), KvsError>)
        requires
            old(self).wf(),
        ensures
            final(self).wf(),
            old(self).loaded_ids().len() > 0 && id <= old(self).loaded_ids().last() ==> r is Err
                && *final(self) == *old(self),
            !(old(self).loaded_ids().len() > 0 && id <= old(self).loaded_ids().last()) ==> {
                &&& final(self).loaded_ids() == old(self).loaded_ids().push(id)
                &&& final(self).files() == old(self).files().insert(id, bytes@)
                &&& match parse_log(bytes@, 0) {
                    Some(recs) => {
                        &&& r is Ok
                        &&& final(self).is_failed() == old(self).is_failed()
                        &&& final(self).locations() == replay(
                            (old(self).locations(), old(self).reclaimable()),
                            id,
                            recs,
                        ).0
                        &&& final(self).reclaimable() == replay(
                            (old(self).locations(), old(self).reclaimable()),
                            id,
                            recs,
                        ).1
                    },
                    None => r matches Err(KvsError::Inner(_)) && final(self).is_failed(),
                }
            },
    {
        if self.loaded.len() > 0 && id <= self.loaded[self.loaded.len() - 1] {
            return Err(
                KvsError::Inner("segments must be replayed in ascending order".to_owned()),
            );
        }
        let ghost old_disk = self.disk@;
        proof {
            assert forall|k: Seq<char>| #[trigger] self.index@.contains_key(k) implies self.index@[k].file_id
                != id by {
                assert(location_holds(self.disk@, k, self.index@[k], self.values@[k]));
                assert(self.loaded@.contains(self.index@[k].file_id));
                let j = choose|j: int|
                    0 <= j < self.loaded@.len() && self.loaded@[j] == self.index@[k].file_id;
                if j < self.loaded@.len() - 1 {
                    assert(self.loaded@[j] < self.loaded@.last());
                }
            }
        }
        self.loaded.push(id);
        self.disk = Ghost(self.disk@.insert(id, bytes@));
        proof {
            assert forall|i: int| 0 <= i < old(self).loaded@.len() implies self.disk@[
                #[trigger] old(self).loaded@[i]] == old_disk[old(self).loaded@[i]] by {
                if i < old(self).loaded@.len() - 1 {
                    assert(old(self).loaded@[i] < old(self).loaded@.last());
                }
            }
            lemma_replay_segments_agree(self.disk@, old_disk, old(self).loaded@);
            assert forall|a: int, b: int|
                0 <= a < b < self.loaded@.len() implies self.loaded@[a] < self.loaded@[b] by {
                if b == self.loaded@.len() - 1 && a < b - 1 {
                    assert(old(self).loaded@[a] < old(self).loaded@[b - 1]);
                }
            }
            assert forall|x: u32| #[trigger] self.disk@.contains_key(x) <==> self.loaded@.contains(
                x,
            ) by {
                if old(self).loaded@.contains(x) {
                    let j = choose|j: int| 0 <= j < old(self).loaded@.len() && old(self).loaded@[j] == x;
                    assert(self.loaded@[j] == x);
                }
                if self.loaded@.contains(x) && x != id {
                    let j = choose|j: int| 0 <= j < self.loaded@.len() && self.loaded@[j] == x;
                    assert(old(self).loaded@[j] == x);
                }
                if x == id {
                    assert(self.loaded@[self.loaded@.len() - 1] == x);
                }
            }
            assert forall|k: Seq<char>| #[trigger] self.index@.contains_key(k) implies location_holds(
                self.disk@,
                k,
                self.index@[k],
                self.values@[k],
            ) by {
                assert(location_holds(old_disk, k, self.index@[k], self.values@[k]));
            }
        }
        let ghost st0 = (self.index@, self.uncompact_size);
        let ghost mut done: Seq<(RecordView, nat, nat)> = Seq::empty();
        let was_failed = self.failed;
        self.failed = true;
        let n: usize = bytes.len();
        let mut pos: usize = 0;
        while pos < n
            invariant
                self.wf(),
                n == bytes@.len(),
                pos <= n,
                self.disk@.contains_key(id),
                self.disk@[id] == bytes@,
                self.loaded@ == old(self).loaded@.push(id),
                !(old(self).loaded_ids().len() > 0 && id <= old(self).loaded_ids().last()),
                self.disk@ == old(self).disk@.insert(id, bytes@),
                self.failed,
                !old(self).failed ==> replay_segments(self.disk@, old(self).loaded@) == Some(st0),
                (self.index@, self.uncompact_size) == replay(st0, id, done),
                match parse_log(bytes@, 0) {
                    Some(all) => parse_log(bytes@, pos as int) is Some && all == done
                        + parse_log(bytes@, pos as int)->Some_0,
                    None => parse_log(bytes@, pos as int) is None,
                },
            decreases n - pos,
        {
            let (log, e) = match Log::decode_at(bytes, pos) {
                Some(x) => x,
                None => {
                    return Err(KvsError::Inner("a segment holds a broken record".to_owned()));
                },
            };
            proof {
                lemma_record_restrict(bytes@, pos as int);
            }
            let ghost rec = (log@, pos as nat, (e - pos) as nat);
            let len: usize = e - pos;
            let meta = LogMeta::new(id, pos as u64, len);
            let ghost before = (self.index@, self.uncompact_size);
            match log {
                Log::Put(k, v) => {
                    let ghost kk = k@;
                    let ghost vv = v@;
                    let prev = self.index.insert(k, meta);
                    self.values = Ghost(self.values@.insert(kk, vv));
                    self.uncompact_size = self.uncompact_size.saturating_add(prev as u64);
                    proof {
                        assert(self.disk@[id].subrange(pos as int, e as int) == bytes@.subrange(
                            pos as int,
                            e as int,
                        ));
                        assert(location_holds(self.disk@, kk, meta, vv));
                    }
                },
                Log::Rm(k) => {
                    let prev: usize = self.index.remove(&k);
                    self.values = Ghost(self.values@.remove(k@));
                    self.uncompact_size = self.uncompact_size.saturating_add(
                        prev as u64,
                    ).saturating_add(len as u64);
                },
            }
            proof {
                assert((done.push(rec)).drop_last() =~= done);
                assert(self.index@.dom() =~= self.values@.dom());
                assert(parse_log(bytes@, pos as int) == Some(
                    seq![rec] + parse_log(bytes@, e as int)->Some_0,
                ) || parse_log(bytes@, pos as int) is None);
                if parse_log(bytes@, 0) is Some {
                    assert(parse_log(bytes@, 0)->Some_0 =~= done.push(rec) + parse_log(
                        bytes@,
                        e as int,
                    )->Some_0);
                }
                done = done.push(rec);
            }
            pos = e;
        }
        self.failed = was_failed;
        proof {
            if parse_log(bytes@, 0) is Some {
                assert(parse_log(bytes@, 0)->Some_0 =~= done);
            }
            assert(self.loaded@.drop_last() =~= old(self).loaded@);
        }
        Ok(())
    }
}

/// A record encoded and ready to be appended to the active segment; once the
/// bytes are durably written, `KvStore::commit` takes it into the index.
pub struct PendingWrite {
    log: Log,
    bytes: Vec<u8>,
}

impl PendingWrite {
    #[verifier::type_invariant]
    spec fn inv(&self) -> bool {
        &&& self.bytes@ == record_bytes(self.log@)
        &&& holds_record(self.bytes@, self.log@)
        &&& self.bytes@.len() <= usize::MAX
    }

    /// The record to be written.
    pub closed spec fn record(&self) -> RecordView {
        self.log@
    }

    /// Its bytes.
    pub closed spec fn encoded(&self) -> Seq<u8> {
        self.bytes@
    }

    fn new(log: Log) -> (r: PendingWrite)
        ensures
            r.record() == log@,
            r.encoded() == record_bytes(log@),
            r.encoded().len() <= usize::MAX,
    {
        let bytes = log.encode();
        let _n: usize = bytes.len();
        PendingWrite { log, bytes }
    }

    /// The bytes to append to the active segment.
    pub fn bytes(&self) -> (r: &[u8])
        ensures
            r@ == self.encoded(),
            r@ == record_bytes(self.record()),
            holds_record(r@, self.record()),
    {
        proof {
            use_type_invariant(self);
        }
        self.bytes.as_slice()
    }
}

/// The log-structured store, without its files: the key index, the ids of the
/// segment files, the active segment's length, and the reclaimable bytes. The
/// caller does the file work that each step names, and reports it back.
pub struct KvStore {
    index: KvsIndex,
    segments: Vec<u32>,
    write_id: u32,
    active_len: u64,
    uncompact_size: u64,
    disk: Ghost<Map<u32, Seq<u8>>>,
    values: Ghost<Map<Seq<char>, Seq<char>>>,
}

impl View for KvStore {
    type V = Map<Seq<char>, Seq<char>>;

    /// The stored keys and their values.
    closed spec fn view(&self) -> Map<Seq<char>, Seq<char>> {
        self.values@
    }
}

impl KvStore {
    pub closed spec fn wf(&self) -> bool {
        &&& self.index.wf()
        &&& self.segments@.len() > 0
        &&& self.segments@.last() == self.write_id
        &&& strictly_ascending(self.segments@)
        &&& forall|id: u32| #[trigger] self.disk@.contains_key(id) <==> self.segments@.contains(id)
        &&& self.disk@[self.write_id].len() == self.active_len
        &&& self.index@.dom() == self.values@.dom()
        &&& forall|k: Seq<char>| #[trigger]
            self.index@.contains_key(k) ==> location_holds(
                self.disk@,
                k,
                self.index@[k],
                self.values@[k],
            )
        &&& replay_segments(self.disk@, self.segments@) == Some(
            (self.index@, self.uncompact_size),
        )
    }

    /// Where each stored key's latest record lies.
    pub closed spec fn locations(&self) -> Map<Seq<char>, LogMeta> {
        self.index@
    }

    /// The content of each segment file, as this store has written or read it.
    pub closed spec fn files(&self) -> Map<u32, Seq<u8>> {
        self.disk@
    }

    /// The ids of the segment files, ascending; the last is the active one.
    pub closed spec fn segment_ids(&self) -> Seq<u32> {
        self.segments@
    }

    pub closed spec fn spec_active_id(&self) -> u32 {
        self.write_id
    }

    pub closed spec fn reclaimable(&self) -> u64 {
        self.uncompact_size
    }

    /// The bytes at the location of key `k`.
    pub open spec fn stored_bytes(&self, k: Seq<char>) -> Seq<u8> {
        let m = self.locations()[k];
        self.files()[m.file_id].subrange(m.offset as int, m.end())
    }

    /// The id of the active segment, the one appends go to.
    pub fn active_id(&self) -> (r: u32)
        ensures
            r == self.spec_active_id(),
    {
        self.write_id
    }

    /// The bytes that are no longer reachable from the index.
    pub fn reclaimable_bytes(&self) -> (r: u64)
        ensures
            r == self.reclaimable(),
    {
        self.uncompact_size
    }

    /// The ids of the segment files, ascending.
    pub fn segments(&self) -> (r: &Vec<u32>)
        ensures
            r@ == self.segment_ids(),
    {
        &self.segments
    }

    /// Whether the reclaimable bytes call for a compaction.
    pub fn compaction_due(&self) -> (r: bool)
        ensures
            r == (self.reclaimable() >= COMPACTION_THRESHOLD),
    {
        self.uncompact_size >= COMPACTION_THRESHOLD
    }

    /// The record that sets `key` to `value`, to be appended.
    pub fn prepare_set(key: String, value: String) -> (r: PendingWrite)
        ensures
            r.record() == (key@, Some(value@)),
            r.encoded() == record_bytes(r.record()),
            r.encoded().len() <= usize::MAX,
    {
        PendingWrite::new(Log::Put(key, value))
    }

    /// The tombstone of `key`, to be appended; a key that is not stored is
    /// `KeyNotFound`.
    pub fn prepare_remove(&self, key: String) -> (r: Result<PendingWrite, KvsError>)
        requires
            self.wf(),
        ensures
            match r {
                Ok(w) => self@.contains_key(key@) && w.record() == (key@, None::<Seq<char>>)
                    && w.encoded() == record_bytes(w.record()) && w.encoded().len() <= usize::MAX,
                Err(e) => !self@.contains_key(key@) && e == (KvsError::KeyNotFound { key }),
            },
    {
        if self.index.contains_key(&key) {
            Ok(PendingWrite::new(Log::Rm(key)))
        } else {
            Err(KvsError::KeyNotFound { key })
        }
    }

    /// Takes a record that has been appended, at the end of the active
    /// segment, into the index: a `Set` points its key at it, a tombstone drops
    /// the key. The record replaced, and a tombstone itself, become reclaimable.
    /// A tombstone of a key that is not stored is `KeyNotFound`, and a segment
    /// that would outgrow 64-bit offsets is refused; neither changes anything.
    pub fn commit(&mut self, w: PendingWrite) -> (r: Result<(), KvsError>)
        requires
            old(self).wf(),
        ensures
            final(self).wf(),
            ({
                let k = w.record().0;
                let len = w.encoded().len();
                let prev: int = if old(self)@.contains_key(k) {
                    old(self).locations()[k].len as int
                } else {
                    0
                };
                let at = LogMeta {
                    file_id: old(self).spec_active_id(),
                    offset: old(self).files()[old(self).spec_active_id()].len() as u64,
                    len: len as usize,
                };
                if w.record().1 is None && !old(self)@.contains_key(k) {
                    &&& r matches Err(KvsError::KeyNotFound { key }) && key@ == k
                    &&& *final(self) == *old(self)
                } else if old(self).files()[old(self).spec_active_id()].len() + len > u64::MAX {
                    &&& r matches Err(KvsError::Inner(_))
                    &&& *final(self) == *old(self)
                } else {
                    &&& r is Ok
                    &&& final(self)@ == apply_record(old(self)@, w.record())
                    &&& final(self).files() == old(self).files().insert(
                        old(self).spec_active_id(),
                        old(self).files()[old(self).spec_active_id()] + w.encoded(),
                    )
                    &&& final(self).segment_ids() == old(self).segment_ids()
                    &&& final(self).spec_active_id() == old(self).spec_active_id()
                    &&& match w.record().1 {
                        Some(v) => {
                            &&& final(self)@ == old(self)@.insert(k, v)
                            &&& final(self).locations() == old(self).locations().insert(k, at)
                            &&& final(self).reclaimable() == sat_add(old(self).reclaimable(), prev)
                        },
                        None => {
                            &&& final(self)@ == old(self)@.remove(k)
                            &&& final(self).locations() == old(self).locations().remove(k)
                            &&& final(self).reclaimable() == sat_add(
                                old(self).reclaimable(),
                                prev + len,
                            )
                        },
                    }
                }
            }),
    {
        proof {
            use_type_invariant(&w);
        }
        let PendingWrite { log, bytes } = w;
        let len: usize = bytes.len();
        let is_rm = match &log {
            Log::Put(_, _) => false,
            Log::Rm(_) => true,
        };
        if is_rm && !self.index.contains_key(log.key()) {
            let key = log.key().clone();
            return Err(KvsError::KeyNotFound { key });
        }
        if self.active_len > u64::MAX - (len as u64) {
            return Err(KvsError::Inner("the active segment is full".to_owned()));
        }
        let offset = self.active_len;
        let meta = LogMeta::new(self.write_id, offset, len);
        let ghost old_disk = self.disk@;
        let ghost old_st = (self.index@, self.uncompact_size);
        let ghost rec = (log@, offset as nat, len as nat);
        let ghost w_id = self.write_id;
        self.disk = Ghost(self.disk@.insert(self.write_id, self.disk@[self.write_id] + bytes@));
        self.active_len = offset + len as u64;
        proof {
            assert(self.disk@[w_id].subrange(offset as int, offset + len) =~= bytes@);
            assert forall|k: Seq<char>| #[trigger] self.index@.contains_key(k) implies location_holds(
                self.disk@,
                k,
                self.index@[k],
                self.values@[k],
            ) by {
                let m = self.index@[k];
                assert(location_holds(old_disk, k, m, self.values@[k]));
                if m.file_id == w_id {
                    lemma_subrange_of_append(old_disk[w_id], bytes@, m.offset as int, m.end());
                }
            }
            assert forall|id: u32| #[trigger] self.disk@.contains_key(id) <==> self.segments@.contains(
                id,
            ) by {
                if id == w_id {
                    assert(self.segments@[self.segments@.len() - 1] == id);
                }
            }
        }
        match log {
            Log::Put(k, v) => {
                let ghost kk = k@;
                let ghost vv = v@;
                let prev = self.index.insert(k, meta);
                self.values = Ghost(self.values@.insert(kk, vv));
                self.uncompact_size = self.uncompact_size.saturating_add(prev as u64);
                proof {
                    assert(location_holds(self.disk@, kk, meta, vv));
                    assert(self.index@.dom() =~= self.values@.dom());
                }
            },
            Log::Rm(k) => {
                let prev: usize = self.index.remove(&k);
                self.values = Ghost(self.values@.remove(k@));
                self.uncompact_size = self.uncompact_size.saturating_add(
                    prev as u64,
                ).saturating_add(len as u64);
                proof {
                    assert(self.index@.dom() =~= self.values@.dom());
                }
            },
        }
        proof {
            let segs = self.segments@;
            let pre = segs.drop_last();
            assert forall|i: int| 0 <= i < pre.len() implies self.disk@[#[trigger] pre[i]]
                == old_disk[pre[i]] by {
                assert(pre[i] == segs[i]);
                assert(segs[i] < segs[segs.len() - 1]);
            }
            lemma_replay_segments_agree(self.disk@, old_disk, pre);
            let recs = parse_log(old_disk[w_id], 0)->Some_0;
            lemma_parse_log_append(old_disk[w_id], bytes@, log@, 0);
            assert(recs.push(rec).drop_last() =~= recs);
        }
        Ok(())
    }

    /// Where the latest record of `key` lies; `None` for a key not stored.
    pub fn locate(&self, key: &String) -> (r: Option<LogMeta>)
        requires
            self.wf(),
        ensures
            match r {
                Some(m) => self@.contains_key(key@) && self.locations()[key@] == m,
                None => !self@.contains_key(key@),
            },
    {
        self.index.get(key)
    }

    /// The value in `bytes`, read from the location of `key`: they must hold
    /// exactly one record, a `Set` of that key; anything else is a broken store.
    pub fn read_value(key: &String, bytes: &[u8]) -> (r: Result<String, KvsError>)
        ensures
            match r {
                Ok(v) => holds_record(bytes@, (key@, Some(v@))),
                Err(e) => (e is Inner) && forall|v: Seq<char>|
                    !holds_record(bytes@, (key@, Some(v))),
            },
    {
        match Log::decode(bytes) {
            Ok(Log::Put(k, v)) => {
                if k == *key {
                    Ok(v)
                } else {
                    Err(KvsError::Inner("a record of another key is where the key points".to_owned()))
                }
            },
            Ok(Log::Rm(_)) => Err(KvsError::Inner("a tombstone is where the key points".to_owned())),
            Err(e) => Err(e),
        }
    }
}

/// What `get` gives: the bytes at a stored key's location hold the record of
/// that key with its value and with no other, so reading them back returns the
/// value last set; a key not stored has no location.
pub proof fn lemma_get_reads_value(s: &KvStore, k: Seq<char>, v: Seq<char>)
    requires
        s.wf(),
    ensures
        s@.contains_key(k) <==> s.locations().contains_key(k),
        s@.contains_key(k) ==> (holds_record(s.stored_bytes(k), (k, Some(v))) <==> v == s@[k]),
{
    if s@.contains_key(k) {
        assert(s.index@.contains_key(k));
        assert(location_holds(s.disk@, k, s.index@[k], s.values@[k]));
        if holds_record(s.stored_bytes(k), (k, Some(v))) {
            lemma_holds_one(s.stored_bytes(k), (k, Some(v)), (k, Some(s@[k])));
        }
    }
}

/// The store acts as an in-memory map: along a run of stores, each with the
/// keys and values of the previous one with a write applied (what `commit`
/// ensures), the last store holds exactly the keys and values that the same
/// writes give an empty map, and `get` reads them: a key's location holds its
/// value, and a key that the writes leave out has no location.
pub proof fn lemma_writes_act_as_map(
    stores: Seq<KvStore>,
    writes: Seq<RecordView>,
    k: Seq<char>,
)
    requires
        stores.len() == writes.len() + 1,
        stores[0]@ == Map::<Seq<char>, Seq<char>>::empty(),
        forall|i: int|
            0 <= i < writes.len() ==> stores[i + 1]@ == apply_record(
                stores[i]@,
                #[trigger] writes[i],
            ),
        stores.last().wf(),
    ensures
        stores.last()@ == apply_records(Map::empty(), writes),
        apply_records(Map::empty(), writes).contains_key(k) ==> holds_record(
            stores.last().stored_bytes(k),
            (k, Some(apply_records(Map::empty(), writes)[k])),
        ),
        !apply_records(Map::empty(), writes).contains_key(k) ==> !stores.last().locations().contains_key(k),
    decreases writes.len(),
{
    lemma_prefix_acts_as_map(stores, writes, writes.len() as int);
    assert(stores.last() == stores[writes.len() as int]);
    assert(writes.subrange(0, writes.len() as int) =~= writes);
    lemma_get_reads_value(&stores.last(), k, apply_records(Map::empty(), writes)[k]);
}

proof fn lemma_prefix_acts_as_map(stores: Seq<KvStore>, writes: Seq<RecordView>, n: int)
    requires
        0 <= n <= writes.len(),
        stores.len() == writes.len() + 1,
        stores[0]@ == Map::<Seq<char>, Seq<char>>::empty(),
        forall|i: int|
            0 <= i < writes.len() ==> stores[i + 1]@ == apply_record(
                stores[i]@,
                #[trigger] writes[i],
            ),
    ensures
        stores[n]@ == apply_records(Map::empty(), writes.subrange(0, n)),
    decreases n,
{
    if n > 0 {
        lemma_prefix_acts_as_map(stores, writes, n - 1);
        assert(writes.subrange(0, n).drop_last() =~= writes.subrange(0, n - 1));
        let w = writes[n - 1];
    } else {
        assert(writes.subrange(0, 0) =~= Seq::<RecordView>::empty());
    }
}

/// Re-opening restores the store: a replay that has loaded exactly the
/// segment files of a store, with their contents and in its order of ids,
/// holds the store's index, its reclaimable count, and its keys and values.
/// (Opening twice with nothing in between is the case of a store that `finish`
/// has just made, whose active segment is empty.)
pub proof fn lemma_reopen_restores(s: &KvStore, b: &Bootstrap)
    requires
        s.wf(),
        b.wf(),
        !b.is_failed(),
        b.loaded_ids() == s.segment_ids(),
        forall|i: int|
            0 <= i < s.segment_ids().len() ==> b.files()[#[trigger] s.segment_ids()[i]]
                == s.files()[s.segment_ids()[i]],
    ensures
        b.locations() == s.locations(),
        b.reclaimable() == s.reclaimable(),
        b.values() == s@,
{
    lemma_replay_segments_agree(b.disk@, s.disk@, s.segments@);
    assert forall|k: Seq<char>| #[trigger] s.values@.contains_key(k) implies b.values@.contains_key(
        k,
    ) && b.values@[k] == s.values@[k] by {
        assert(s.index@.contains_key(k));
        let m = s.index@[k];
        assert(location_holds(s.disk@, k, m, s.values@[k]));
        assert(location_holds(b.disk@, k, m, b.values@[k]));
        let j = choose|j: int| 0 <= j < s.segments@.len() && s.segments@[j] == m.file_id;
        assert(b.disk@[s.segments@[j]] == s.disk@[s.segments@[j]]);
        lemma_holds_one(
            s.disk@[m.file_id].subrange(m.offset as int, m.end()),
            (k, Some(b.values@[k])),
            (k, Some(s.values@[k])),
        );
    }
    assert(b.values@ =~= s.values@);
}

/// The text a failed compaction reports: that of the failure itself.
pub open spec fn compaction_detail(e: KvsError) -> Seq<char> {
    match e {
        KvsError::Inner(s) => s@,
        KvsError::CompactionError(s) => s@,
        _ => message_of(e),
    }
}

/// The active segment is the newest: the segment ids ascend strictly and end
/// with the active one, so it is above every other segment, and the segment
/// files are exactly those ids.
pub proof fn lemma_active_is_newest(s: &KvStore)
    requires
        s.wf(),
    ensures
        s.segment_ids().len() > 0,
        strictly_ascending(s.segment_ids()),
        s.segment_ids().last() == s.spec_active_id(),
        forall|i: int|
            0 <= i < s.segment_ids().len() ==> #[trigger] s.segment_ids()[i] <= s.spec_active_id(),
        forall|i: int|
            0 <= i < s.segment_ids().len() - 1 ==> #[trigger] s.segment_ids()[i] < s.spec_active_id(),
        forall|id: u32| #[trigger] s.files().contains_key(id) <==> s.segment_ids().contains(id),
{
    assert forall|i: int| 0 <= i < s.segment_ids().len() implies #[trigger] s.segment_ids()[i]
        <= s.spec_active_id() by {
        if i < s.segment_ids().len() - 1 {
            assert(s.segments@[i] < s.segments@[s.segments@.len() - 1]);
        }
    }
    assert forall|i: int| 0 <= i < s.segment_ids().len() - 1 implies #[trigger] s.segment_ids()[i]
        < s.spec_active_id() by {
        assert(s.segments@[i] < s.segments@[s.segments@.len() - 1]);
    }
}

/// A compaction in progress. It holds the store, unchanged, while the live
/// records are copied one by one, in index order, into a fresh output segment;
/// `finish` then gives a store made of that segment and a fresh active one,
/// and `abandon` gives the store back as it was.
pub struct Compaction {
    store: KvStore,
    out_id: u32,
    next_id: u32,
    pos: usize,
    index: KvsIndex,
    out_len: u64,
    out: Ghost<Seq<u8>>,
    values: Ghost<Map<Seq<char>, Seq<char>>>,
    faithful: Ghost<bool>,
}

impl Compaction {
    pub closed spec fn wf(&self) -> bool {
        &&& self.store.wf()
        &&& self.out_id == self.store.write_id + 1
        &&& self.next_id == self.store.write_id + 2
        &&& self.pos <= self.store.index.spec_len()
        &&& self.index.wf()
        &&& self.index@.dom() == self.values@.dom()
        &&& forall|k: Seq<char>|
            #[trigger] self.index@.contains_key(k) <==> exists|j: int|
                0 <= j < self.pos && self.store.index.spec_entry(j).0 == k
        &&& forall|k: Seq<char>| #[trigger]
            self.index@.contains_key(k) ==> location_holds(
                self.out_files(),
                k,
                self.index@[k],
                self.values@[k],
            )
        &&& self.out_len == self.out@.len()
        &&& parse_log(self.out@, 0) is Some
        &&& replay((Map::empty(), 0u64), self.out_id, parse_log(self.out@, 0)->Some_0) == (
            self.index@,
            0u64,
        )
        &&& self.faithful@ ==> forall|k: Seq<char>| #[trigger]
            self.index@.contains_key(k) ==> self.store.values@.contains_key(k)
                && self.values@[k] == self.store.values@[k] && self.index@[k].len
                == self.store.index@[k].len
    }

    pub closed spec fn out_files(&self) -> Map<u32, Seq<u8>> {
        Map::empty().insert(self.out_id, self.out@)
    }

    /// The store being compacted, as it was when the compaction began.
    pub closed spec fn source(&self) -> KvStore {
        self.store
    }

    pub closed spec fn spec_output_id(&self) -> u32 {
        self.out_id
    }

    pub closed spec fn spec_next_active_id(&self) -> u32 {
        self.next_id
    }

    /// The key and location of the `j`-th record to copy.
    pub closed spec fn entry(&self, j: int) -> (Seq<char>, LogMeta) {
        self.store.index.spec_entry(j)
    }

    /// How many records have been copied.
    pub closed spec fn copied(&self) -> nat {
        self.pos as nat
    }

    /// How many records there are to copy.
    pub closed spec fn total(&self) -> nat {
        self.store.index.spec_len()
    }

    /// The bytes copied so far: the content of the output segment.
    pub closed spec fn output(&self) -> Seq<u8> {
        self.out@
    }

    /// Where each copied key's record lies in the output segment.
    pub closed spec fn copied_locations(&self) -> Map<Seq<char>, LogMeta> {
        self.index@
    }

    /// The keys and values copied so far.
    pub closed spec fn copied_values(&self) -> Map<Seq<char>, Seq<char>> {
        self.values@
    }

    /// Every record copied so far was the one at its key's location.
    pub closed spec fn faithful(&self) -> bool {
        self.faithful@
    }

    /// The id of the segment the live records are copied into.
    pub fn output_id(&self) -> (r: u32)
        ensures
            r == self.spec_output_id(),
    {
        self.out_id
    }

    /// The id of the active segment after the compaction.
    pub fn next_active_id(&self) -> (r: u32)
        ensures
            r == self.spec_next_active_id(),
    {
        self.next_id
    }

    /// Whether every live record has been copied.
    pub fn is_done(&self) -> (r: bool)
        requires
            self.wf(),
        ensures
            r == (self.copied() == self.total()),
    {
        self.pos == self.store.index.len()
    }

    /// The location of the next record to copy, if any is left.
    pub fn next_location(&self) -> (r: Option<LogMeta>)
        requires
            self.wf(),
        ensures
            match r {
                Some(m) => self.copied() < self.total() && m == self.entry(
                    self.copied() as int,
                ).1,
                None => self.copied() == self.total(),
            },
    {
        if self.pos < self.store.index.len() {
            Some(self.store.index.entry(self.pos).1)
        } else {
            None
        }
    }

    /// Copies the next record, whose bytes `bytes` were read from its
    /// location: they must hold exactly the `Set` record of its key, and are
    /// appended to the output segment. Anything else fails and changes nothing.
    pub fn copy(&mut self, bytes: &[u8]) -> (r: Result<(), KvsError>)
        requires
            old(self).wf(),
        ensures
            final(self).wf(),
            final(self).source() == old(self).source(),
            final(self).spec_output_id() == old(self).spec_output_id(),
            final(self).spec_next_active_id() == old(self).spec_next_active_id(),
            match r {
                Ok(()) => {
                    let k = old(self).entry(old(self).copied() as int).0;
                    &&& old(self).copied() < old(self).total()
                    &&& final(self).copied() == old(self).copied() + 1
                    &&& final(self).output() == old(self).output() + bytes@
                    &&& final(self).copied_locations() == old(self).copied_locations().insert(
                        k,
                        LogMeta {
                            file_id: old(self).spec_output_id(),
                            offset: old(self).output().len() as u64,
                            len: bytes@.len() as usize,
                        },
                    )
                    &&& holds_record(bytes@, (k, Some(final(self).copied_values()[k])))
                    &&& final(self).copied_values() == old(self).copied_values().insert(
                        k,
                        final(self).copied_values()[k],
                    )
                    &&& final(self).faithful() == (old(self).faithful() && bytes@
                        == old(self).source().stored_bytes(k))
                },
                Err(_) => *final(self) == *old(self),
            },
            old(self).copied() < old(self).total() && old(self).output().len() + bytes@.len()
                <= u64::MAX && (exists|v: Seq<char>|
                holds_record(
                    bytes@,
                    (old(self).entry(old(self).copied() as int).0, Some(v)),
                )) ==> r is Ok,
    {
        if self.pos >= self.store.index.len() {
            return Err(KvsError::Inner("every record has been copied".to_owned()));
        }
        let (key, _) = self.store.index.entry(self.pos);
        let v = match KvStore::read_value(key, bytes) {
            Ok(v) => v,
            Err(e) => return Err(e),
        };
        let len: usize = bytes.len();
        if self.out_len > u64::MAX - (len as u64) {
            return Err(KvsError::Inner("the output segment is full".to_owned()));
        }
        let ghost kk = key@;
        let ghost vv = v@;
        let ghost old_out = self.out@;
        let meta = LogMeta::new(self.out_id, self.out_len, len);
        proof {
            self.store.index.lemma_entries();
            if bytes@ == self.store.stored_bytes(kk) {
                assert(self.store.index@.contains_key(self.store.index.spec_entry(self.pos as int).0));
                lemma_get_reads_value(&self.store, kk, vv);
            }
        }
        proof {
            if self.index@.contains_key(kk) {
                let j = choose|j: int| 0 <= j < self.pos && self.store.index.spec_entry(j).0 == kk;
                assert(self.store.index.spec_entry(self.pos as int).0 == kk);
            }
            lemma_parse_log_append(self.out@, bytes@, (kk, Some(vv)), 0);
            let recs = parse_log(self.out@, 0)->Some_0;
            let rec = ((kk, Some(vv)), self.out@.len(), bytes@.len());
            assert(recs.push(rec).drop_last() =~= recs);
        }
        let ghost still = self.faithful@ && bytes@ == self.store.stored_bytes(kk);
        self.faithful = Ghost(still);
        self.index.insert(key.clone(), meta);
        self.values = Ghost(self.values@.insert(kk, vv));
        self.out = Ghost(self.out@ + bytes@);
        self.out_len = self.out_len + len as u64;
        self.pos = self.pos + 1;
        proof {
            assert(self.out@.subrange(meta.offset as int, meta.end()) =~= bytes@);
            assert forall|k: Seq<char>| #[trigger] self.index@.contains_key(k) implies location_holds(
                self.out_files(),
                k,
                self.index@[k],
                self.values@[k],
            ) by {
                if k != kk {
                    let m = self.index@[k];
                    assert(location_holds(old(self).out_files(), k, m, self.values@[k]));
                    lemma_subrange_of_append(old_out, bytes@, m.offset as int, m.end());
                }
            }
            assert forall|k: Seq<char>|
                #[trigger] self.index@.contains_key(k) <==> exists|j: int|
                    0 <= j < self.pos && self.store.index.spec_entry(j).0 == k by {
                if k == kk {
                    assert(self.store.index.spec_entry(self.pos - 1).0 == k);
                } else if self.index@.contains_key(k) {
                    assert(old(self).index@.contains_key(k));
                    let j = choose|j: int|
                        0 <= j < old(self).pos && old(self).store.index.spec_entry(j).0 == k;
                    assert(0 <= j < self.pos && self.store.index.spec_entry(j).0 == k);
                }
                if exists|j: int| 0 <= j < self.pos && self.store.index.spec_entry(j).0 == k {
                    let j = choose|j: int| 0 <= j < self.pos && self.store.index.spec_entry(j).0 == k;
                    if j < self.pos - 1 {
                        assert(old(self).index@.contains_key(k));
                    }
                }
            }
            assert(self.index@.dom() =~= self.values@.dom());
            assert(holds_record(bytes@, (kk, Some(vv))) && self.copied_values() == old(
                self,
            ).copied_values().insert(kk, vv));
        }
        Ok(())
    }

    /// Gives the store back as it was before the compaction began.
    pub fn abandon(self) -> (r: KvStore)
        ensures
            r == self.source(),
    {
        self.store
    }

    /// Ends a compaction that failed with `e`: the store comes back as it was
    /// before, and the failure is reported as a compaction error.
    pub fn fail(self, e: KvsError) -> (r: (KvStore, KvsError))
        ensures
            r.0 == self.source(),
            r.1 matches KvsError::CompactionError(d) && d@ == compaction_detail(e),
    {
        let detail = match e {
            KvsError::Inner(s) => s,
            KvsError::CompactionError(s) => s,
            other => other.message(),
        };
        (self.store, KvsError::CompactionError(detail))
    }

    /// Installs the copy: the store now has the output segment and a fresh,
    /// empty active segment, and nothing reclaimable. It gives back the ids of
    /// the retired segments, whose files are to be deleted.
    pub fn finish(self) -> (r: (KvStore, Vec<u32>))
        requires
            self.wf(),
            self.copied() == self.total(),
        ensures
            r.0.wf(),
            r.1@ == self.source().segment_ids(),
            r.0.segment_ids() == seq![self.spec_output_id(), self.spec_next_active_id()],
            r.0.files() == Map::<u32, Seq<u8>>::empty().insert(
                self.spec_output_id(),
                self.output(),
            ).insert(self.spec_next_active_id(), Seq::<u8>::empty()),
            r.0.spec_active_id() == self.spec_next_active_id(),
            r.0.reclaimable() == 0,
            r.0@ == self.copied_values(),
            r.0.locations().dom() == self.source().locations().dom(),
            r.0.locations() == self.copied_locations(),
            self.faithful() ==> forall|k: Seq<char>| #[trigger]
                r.0.locations().contains_key(k) ==> r.0.locations()[k].len
                    == self.source().locations()[k].len,
            forall|k: Seq<char>| #[trigger]
                r.0.locations().contains_key(k) ==> r.0.locations()[k].file_id
                    == self.spec_output_id(),
            self.faithful() ==> r.0@ == self.source()@,
    {
        let Compaction { store, out_id, next_id, pos, index, out_len, out, values, faithful } = self;
        let ghost new_disk = Map::<u32, Seq<u8>>::empty().insert(out_id, out@).insert(
            next_id,
            Seq::<u8>::empty(),
        );
        let mut segments: Vec<u32> = Vec::new();
        segments.push(out_id);
        segments.push(next_id);
        proof {
            store.index.lemma_entries();
            assert(index@.dom() =~= store.index@.dom()) by {
                assert forall|k: Seq<char>| index@.contains_key(k) <==> store.index@.contains_key(
                    k,
                ) by {
                    if store.index@.contains_key(k) {
                        let j = choose|j: int|
                            0 <= j < store.index.spec_len() && #[trigger] store.index.spec_entry(
                                j,
                            ).0 == k;
                        assert(0 <= j < pos && store.index.spec_entry(j).0 == k);
                    }
                    if index@.contains_key(k) {
                        let j = choose|j: int| 0 <= j < pos && store.index.spec_entry(j).0 == k;
                        assert(store.index@.contains_key(store.index.spec_entry(j).0));
                    }
                }
            }
            assert forall|k: Seq<char>| #[trigger] index@.contains_key(k) implies location_holds(
                new_disk,
                k,
                index@[k],
                values@[k],
            ) && index@[k].file_id == out_id by {
                assert(location_holds(Map::empty().insert(out_id, out@), k, index@[k], values@[k]));
            }
            assert forall|id: u32| #[trigger] new_disk.contains_key(id) <==> segments@.contains(
                id,
            ) by {
                if id == out_id {
                    assert(segments@[0] == id);
                }
                if id == next_id {
                    assert(segments@[1] == id);
                }
            }
            assert(segments@ =~= seq![out_id, next_id]);
            assert(seq![out_id, next_id].drop_last() =~= seq![out_id]);
            assert(seq![out_id].drop_last() =~= Seq::<u32>::empty());
            assert(new_disk[out_id] == out@);
            assert(replay_segments(new_disk, Seq::<u32>::empty()) == Some(
                (Map::<Seq<char>, LogMeta>::empty(), 0u64),
            ));
            assert(replay_segments(new_disk, seq![out_id]) == Some((index@, 0u64)));
            assert(new_disk[next_id] == Seq::<u8>::empty());
            lemma_empty_segment_replays_to_nothing((index@, 0u64), next_id);
            assert(replay_segments(new_disk, seq![out_id, next_id]) == Some((index@, 0u64)));
            if faithful@ {
                assert(values@ =~= store.values@);
            }
        }
        let retired = store.segments;
        (
            KvStore {
                index,
                segments,
                write_id: next_id,
                active_len: 0,
                uncompact_size: 0,
                disk: Ghost(new_disk),
                values,
            },
            retired,
        )
    }
}

impl KvStore {
    /// Begins a compaction into segment `active + 1`, with `active + 2` as the
    /// next active segment. Without two ids left the store comes back as it was.
    pub fn begin_compaction(self) -> (r: Result<Compaction, (KvStore, KvsError)>)
        requires
            self.wf(),
        ensures
            match r {
                Ok(c) => {
                    &&& c.wf()
                    &&& c.source() == self
                    &&& forall|i: int|
                        0 <= i < self.segment_ids().len() ==> #[trigger] self.segment_ids()[i]
                            < c.spec_output_id()
                    &&& c.spec_output_id() < c.spec_next_active_id()
                    &&& c.spec_output_id() == self.spec_active_id() + 1
                    &&& c.spec_next_active_id() == self.spec_active_id() + 2
                    &&& c.copied() == 0
                    &&& c.output() == Seq::<u8>::empty()
                    &&& c.copied_values() == Map::<Seq<char>, Seq<char>>::empty()
                    &&& c.copied_locations() == Map::<Seq<char>, LogMeta>::empty()
                    &&& c.faithful()
                },
                Err((s, e)) => s == self && self.spec_active_id() + 2 > u32::MAX
                    && e is CompactionError,
            },
    {
        proof {
            lemma_active_is_newest(&self);
        }
        if self.write_id > u32::MAX - 2 {
            return Err((self, KvsError::CompactionError("no segment id is left".to_owned())));
        }
        let out_id = self.write_id + 1;
        let next_id = self.write_id + 2;
        Ok(
            Compaction {
                store: self,
                out_id,
                next_id,
                pos: 0,
                index: KvsIndex::new(),
                out_len: 0,
                out: Ghost(Seq::empty()),
                values: Ghost(Map::empty()),
                faithful: Ghost(true),
            },
        )
    }
}

} // verus!
