//! The storage engine's bookkeeping: which segments exist, where the live
//! record of each key lies, how many bytes are dead, and when to compact.
//! The files themselves are read and written by the caller; every decision
//! about them is made here.
use crate::error::KvsError;
use crate::index::{Index, IndexEntry};
use crate::json::{json_next_end, next_value_end};
use crate::record::{CheckedRecord, RecordKind, Record, decode_record, decoded_record, encode_record, record_bytes, value_of_record};
use vstd::slice::slice_subrange;
use vstd::prelude::*;

verus! {

/// Compaction starts once more than this many bytes of the log are dead.
pub const TRIGGER_COMPACT_SIZE: u64 = 4096;

/// One record of the log as the index sees it: what it does, to which key,
/// with which value, and where it lies.
pub struct LogEvent {
    pub kind: RecordKind,
    pub key: Seq<char>,
    pub value: Seq<char>,
    pub entry: IndexEntry,
}

/// What replaying a log yields: the index, the value bound to each key, and
/// the number of bytes made dead by overwrites and removals.
pub struct Replayed {
    pub index: Map<Seq<char>, IndexEntry>,
    pub values: Map<Seq<char>, Seq<char>>,
    pub dead: nat,
}

/// The length of the entry that `ev` makes dead in `r`.
pub open spec fn shadowed(r: Replayed, ev: LogEvent) -> nat {
    if r.index.contains_key(ev.key) {
        r.index[ev.key].value_sz as nat
    } else {
        0
    }
}

/// Applies one record: a put binds its key to the record, a remove unbinds it.
pub open spec fn apply_event(r: Replayed, ev: LogEvent) -> Replayed {
    match ev.kind {
        RecordKind::Put => Replayed {
            index: r.index.insert(ev.key, ev.entry),
            values: r.values.insert(ev.key, ev.value),
            dead: r.dead + shadowed(r, ev),
        },
        RecordKind::Remove => Replayed {
            index: r.index.remove(ev.key),
            values: r.values.remove(ev.key),
            dead: r.dead + shadowed(r, ev),
        },
        RecordKind::Get => r,
    }
}

/// Replays a log in order: later records win.
pub open spec fn replay(log: Seq<LogEvent>) -> Replayed
    decreases log.len(),
{
    if log.len() == 0 {
        Replayed { index: Map::empty(), values: Map::empty(), dead: 0 }
    } else {
        apply_event(replay(log.drop_last()), log.last())
    }
}

/// `n`, capped at the largest `u64`.
pub open spec fn capped(n: int) -> u64 {
    if n > u64::MAX {
        u64::MAX
    } else {
        n as u64
    }
}

/// Whether `ids` is strictly increasing.
pub open spec fn ascending(ids: Seq<u64>) -> bool {
    forall|i: int, j: int| 0 <= i < j < ids.len() ==> ids[i] < ids[j]
}

/// A replayed log binds the same keys in its index and in its values.
pub proof fn lemma_replay_domains(log: Seq<LogEvent>)
    ensures
        replay(log).index.dom() == replay(log).values.dom(),
    decreases log.len(),
{
    if log.len() > 0 {
        lemma_replay_domains(log.drop_last());
        assert(replay(log).index.dom() =~= replay(log).values.dom());
    }
}

/// The total length of the first `i` entries.
pub open spec fn prefix_size(entries: Seq<IndexEntry>, i: int) -> nat
    decreases i,
{
    if i <= 0 {
        0
    } else {
        prefix_size(entries, i - 1) + entries[i - 1].value_sz as nat
    }
}

/// Where the `i`-th copied record lands in the compacted segment `target`.
pub open spec fn compacted_entry(target: u64, entries: Seq<IndexEntry>, i: int) -> IndexEntry {
    IndexEntry { file_id: target, value_pos: prefix_size(entries, i) as u64, value_sz: entries[i].value_sz }
}

/// The log of a compacted segment: one put per live key, in copy order.
pub open spec fn compacted_log(
    target: u64,
    order: Seq<Seq<char>>,
    entries: Seq<IndexEntry>,
    values: Map<Seq<char>, Seq<char>>,
) -> Seq<LogEvent> {
    Seq::new(
        order.len(),
        |i: int|
            LogEvent {
                kind: RecordKind::Put,
                key: order[i],
                value: values[order[i]],
                entry: compacted_entry(target, entries, i),
            },
    )
}

proof fn lemma_prefix_size_monotone(entries: Seq<IndexEntry>, i: int, j: int)
    requires
        0 <= i <= j,
    ensures
        prefix_size(entries, i) <= prefix_size(entries, j),
    decreases j - i,
{
    if i < j {
        lemma_prefix_size_monotone(entries, i, j - 1);
    }
}

/// A log of puts to distinct keys binds each key to its own record and
/// leaves no dead bytes.
pub proof fn lemma_replay_distinct_puts(log: Seq<LogEvent>)
    requires
        forall|i: int| 0 <= i < log.len() ==> (#[trigger] log[i]).kind == RecordKind::Put,
        forall|i: int, j: int| 0 <= i < j < log.len() ==> log[i].key != log[j].key,
    ensures
        replay(log).dead == 0,
        forall|k: Seq<char>|
            #[trigger] replay(log).index.contains_key(k) <==> exists|i: int| 0 <= i < log.len() && log[i].key == k,
        forall|i: int|
            0 <= i < log.len() ==> replay(log).index[(#[trigger] log[i]).key] == log[i].entry
                && replay(log).values[log[i].key] == log[i].value,
    decreases log.len(),
{
    if log.len() > 0 {
        let prev = log.drop_last();
        lemma_replay_distinct_puts(prev);
        let last = log.last();
        assert(!replay(prev).index.contains_key(last.key)) by {
            if replay(prev).index.contains_key(last.key) {
                let i = choose|i: int| 0 <= i < prev.len() && prev[i].key == last.key;
                assert(log[i].key == log[log.len() - 1].key);
            }
        }
        assert forall|k: Seq<char>|
            #[trigger] replay(log).index.contains_key(k) <==> exists|i: int| 0 <= i < log.len() && log[i].key == k by {
            if replay(log).index.contains_key(k) && k != last.key {
                let i = choose|i: int| 0 <= i < prev.len() && prev[i].key == k;
                assert(log[i].key == k);
            }
            if exists|i: int| 0 <= i < log.len() && log[i].key == k {
                let i = choose|i: int| 0 <= i < log.len() && log[i].key == k;
                if i < log.len() - 1 {
                    assert(prev[i].key == k);
                }
            }
        }
        assert forall|i: int| 0 <= i < log.len() implies replay(log).index[(#[trigger] log[i]).key] == log[i].entry
            && replay(log).values[log[i].key] == log[i].value by {
            if i < log.len() - 1 {
                assert(prev[i] == log[i]);
                assert(log[i].key != last.key);
            }
        }
    }
}

/// Whether `e` lies inside a segment of `segs`.
pub open spec fn entry_in(segs: Map<u64, Seq<u8>>, e: IndexEntry) -> bool {
    &&& segs.contains_key(e.file_id)
    &&& e.value_pos + e.value_sz <= segs[e.file_id].len()
}

/// The bytes that `e` points at in the segments `segs`.
pub open spec fn record_at(segs: Map<u64, Seq<u8>>, e: IndexEntry) -> Seq<u8> {
    segs[e.file_id].subrange(e.value_pos as int, e.value_pos + e.value_sz)
}

/// Every live key's entry lies in a segment and points at the put record of
/// that key and its value.
pub open spec fn index_backed(
    index: Map<Seq<char>, IndexEntry>,
    values: Map<Seq<char>, Seq<char>>,
    segs: Map<u64, Seq<u8>>,
) -> bool {
    forall|k: Seq<char>| #[trigger]
        index.contains_key(k) ==> {
            &&& entry_in(segs, index[k])
            &&& decoded_record(record_at(segs, index[k])) == Some((RecordKind::Put, k, values[k]))
        }
}

/// Every record of `log` lies in a segment of `segs`, and the bytes there
/// hold its kind, key and value.
pub open spec fn log_backed(log: Seq<LogEvent>, segs: Map<u64, Seq<u8>>) -> bool {
    forall|i: int|
        0 <= i < log.len() ==> {
            &&& entry_in(segs, (#[trigger] log[i]).entry)
            &&& decoded_record(record_at(segs, log[i].entry)) == Some((log[i].kind, log[i].key, log[i].value))
        }
}

/// Replaying a log whose records are all on disk gives an index whose
/// entries are all on disk.
pub proof fn lemma_replay_backed(log: Seq<LogEvent>, segs: Map<u64, Seq<u8>>)
    requires
        log_backed(log, segs),
    ensures
        index_backed(replay(log).index, replay(log).values, segs),
    decreases log.len(),
{
    if log.len() > 0 {
        let prev = log.drop_last();
        assert forall|i: int| 0 <= i < prev.len() implies {
            &&& entry_in(segs, (#[trigger] prev[i]).entry)
            &&& decoded_record(record_at(segs, prev[i].entry)) == Some((prev[i].kind, prev[i].key, prev[i].value))
        } by {
            assert(prev[i] == log[i]);
        }
        lemma_replay_backed(prev, segs);
        let last = log[log.len() - 1];
        assert(entry_in(segs, last.entry));
    }
}

/// The bytes of the first `i` entries, one after the other.
pub open spec fn compacted_bytes(segs: Map<u64, Seq<u8>>, entries: Seq<IndexEntry>, i: int) -> Seq<u8>
    decreases i,
{
    if i <= 0 {
        Seq::empty()
    } else {
        compacted_bytes(segs, entries, i - 1) + record_at(segs, entries[i - 1])
    }
}

proof fn lemma_compacted_bytes(segs: Map<u64, Seq<u8>>, entries: Seq<IndexEntry>, n: int)
    requires
        0 <= n <= entries.len(),
        forall|j: int| 0 <= j < n ==> entry_in(segs, #[trigger] entries[j]),
    ensures
        compacted_bytes(segs, entries, n).len() == prefix_size(entries, n),
        forall|j: int|
            0 <= j < n ==> compacted_bytes(segs, entries, n).subrange(
                prefix_size(entries, j) as int,
                prefix_size(entries, j + 1) as int,
            ) == record_at(segs, #[trigger] entries[j]),
    decreases n,
{
    if n > 0 {
        lemma_compacted_bytes(segs, entries, n - 1);
        let before = compacted_bytes(segs, entries, n - 1);
        let piece = record_at(segs, entries[n - 1]);
        assert(entry_in(segs, entries[n - 1]));
        assert forall|j: int| 0 <= j < n implies compacted_bytes(segs, entries, n).subrange(
            prefix_size(entries, j) as int,
            prefix_size(entries, j + 1) as int,
        ) == record_at(segs, #[trigger] entries[j]) by {
            if j < n - 1 {
                lemma_prefix_size_monotone(entries, j + 1, n - 1);
                assert((before + piece).subrange(prefix_size(entries, j) as int, prefix_size(entries, j + 1) as int)
                    =~= before.subrange(prefix_size(entries, j) as int, prefix_size(entries, j + 1) as int));
            } else {
                assert((before + piece).subrange(prefix_size(entries, j) as int, prefix_size(entries, j + 1) as int)
                    =~= piece);
            }
        }
    }
}

/// The records of a segment from byte `start` on, each with the place where
/// it lies. A record cut short by the end of the segment is dropped; `None`
/// when the segment holds anything else that is not a record.
pub open spec fn segment_events(bytes: Seq<u8>, file_id: u64, start: int) -> Option<Seq<LogEvent>>
    decreases bytes.len() - start,
{
    if start < 0 || start > bytes.len() {
        None
    } else {
        match json_next_end(bytes.subrange(start, bytes.len() as int)) {
            Ok(None) => Some(Seq::empty()),
            Err(at_end) => if at_end {
                Some(Seq::empty())
            } else {
                None
            },
            Ok(Some(n)) => if n == 0 || start + n > bytes.len() {
                None
            } else {
                match decoded_record(bytes.subrange(start, start + n)) {
                    None => None,
                    Some(rec) => match segment_events(bytes, file_id, start + n) {
                        None => None,
                        Some(rest) => Some(
                            seq![
                                LogEvent {
                                    kind: rec.0,
                                    key: rec.1,
                                    value: rec.2,
                                    entry: IndexEntry {
                                        file_id,
                                        value_pos: start as u64,
                                        value_sz: n as u64,
                                    },
                                },
                            ] + rest,
                        ),
                    },
                }
            },
        }
    }
}

/// Once a prefix of the segments cannot be read, neither can the whole.
pub proof fn lemma_segments_log_extends(segs: Seq<Segment>, i: int)
    requires
        0 <= i <= segs.len(),
        segments_log(segs.subrange(0, i)) is None,
    ensures
        segments_log(segs) is None,
    decreases segs.len() - i,
{
    if i < segs.len() {
        assert(segs.subrange(0, i + 1).drop_last() =~= segs.subrange(0, i));
        lemma_segments_log_extends(segs, i + 1);
    } else {
        assert(segs.subrange(0, i) =~= segs);
    }
}

/// One segment file: its id and its bytes.
#[derive(Debug)]
pub struct Segment {
    pub file_id: u64,
    pub bytes: Vec<u8>,
}

/// The records of the segments, segment after segment; `None` when one of
/// them cannot be read.
pub open spec fn segments_log(segs: Seq<Segment>) -> Option<Seq<LogEvent>>
    decreases segs.len(),
{
    if segs.len() == 0 {
        Some(Seq::empty())
    } else {
        match (segments_log(segs.drop_last()), segment_events(segs.last().bytes@, segs.last().file_id, 0)) {
            (Some(a), Some(b)) => Some(a + b),
            _ => None,
        }
    }
}

/// The ids of the segments, in their order.
pub open spec fn segment_ids(segs: Seq<Segment>) -> Seq<u64> {
    segs.map_values(|s: Segment| s.file_id)
}

/// An index under construction from a log.
struct Replayer {
    index: Index,
    uncompacted_size: u64,
    log: Ghost<Seq<LogEvent>>,
}

impl Replayer {
    spec fn wf(&self) -> bool {
        &&& self.index.wf()
        &&& self.index@ == replay(self.log@).index
        &&& self.uncompacted_size == capped(replay(self.log@).dead as int)
    }

    fn apply(&mut self, rec: Record, entry: IndexEntry)
        requires
            old(self).wf(),
        ensures
            final(self).wf(),
            final(self).log@ == old(self).log@.push(
                LogEvent { kind: rec.kind, key: rec.key@, value: rec.value@, entry },
            ),
            forall|k: Seq<char>| #[trigger]
                final(self).index@.contains_key(k) ==> (old(self).index@.contains_key(k) && final(self).index@[k]
                    == old(self).index@[k]) || final(self).index@[k] == entry,
    {
        let ghost ev = LogEvent { kind: rec.kind, key: rec.key@, value: rec.value@, entry };
        proof {
            assert(self.log@.push(ev).drop_last() =~= self.log@);
        }
        match rec.kind {
            RecordKind::Put => {
                if let Some(prev) = self.index.insert(rec.key, entry) {
                    self.uncompacted_size = self.uncompacted_size.saturating_add(prev.value_sz);
                }
            },
            RecordKind::Remove => {
                if let Some(prev) = self.index.remove(rec.key.as_str()) {
                    self.uncompacted_size = self.uncompacted_size.saturating_add(prev.value_sz);
                }
            },
            RecordKind::Get => {},
        }
        self.log = Ghost(self.log@.push(ev));
    }

    /// Replays the records of one segment, in byte order.
    fn read_segment(&mut self, file_id: u64, bytes: &[u8], segs: Ghost<Map<u64, Seq<u8>>>) -> (r: Result<(), KvsError>)
        requires
            old(self).wf(),
            log_backed(old(self).log@, segs@),
            segs@.contains_key(file_id),
            segs@[file_id] == bytes@,
        ensures
            final(self).wf(),
            log_backed(final(self).log@, segs@),
            match segment_events(bytes@, file_id, 0) {
                Some(evs) => r is Ok && final(self).log@ == old(self).log@ + evs,
                None => r matches Err(e) && e is Serde,
            },
            forall|k: Seq<char>| #[trigger]
                final(self).index@.contains_key(k) ==> (old(self).index@.contains_key(k) && final(self).index@[k]
                    == old(self).index@[k]) || final(self).index@[k].file_id == file_id,
    {
        let len = bytes.len();
        let mut pos: usize = 0;
        let ghost mut acc: Seq<LogEvent> = Seq::empty();
        loop
            invariant
                self.wf(),
                log_backed(self.log@, segs@),
                segs@.contains_key(file_id),
                segs@[file_id] == bytes@,
                len == bytes@.len(),
                pos <= bytes@.len(),
                forall|k: Seq<char>| #[trigger]
                    self.index@.contains_key(k) ==> (old(self).index@.contains_key(k) && self.index@[k]
                        == old(self).index@[k]) || self.index@[k].file_id == file_id,
                self.log@ == old(self).log@ + acc,
                segment_events(bytes@, file_id, 0) == match segment_events(bytes@, file_id, pos as int) {
                    Some(rest) => Some(acc + rest),
                    None => None::<Seq<LogEvent>>,
                },
            decreases bytes@.len() - pos,
        {
            match next_value_end(bytes, pos) {
                Ok(None) => {
                    assert(acc + Seq::<LogEvent>::empty() =~= acc);
                    return Ok(());
                },
                Err((at_end, message)) => {
                    if at_end {
                        assert(acc + Seq::<LogEvent>::empty() =~= acc);
                        return Ok(());
                    }
                    return Err(KvsError::Serde { message });
                },
                Ok(Some(n)) => {
                    let doc = slice_subrange(bytes, pos, pos + n);
                    assert(doc@ =~= bytes@.subrange(pos as int, pos + n));
                    let rec = match decode_record(doc) {
                        Ok(rec) => rec,
                        Err(e) => return Err(e),
                    };
                    let entry = IndexEntry { file_id, value_pos: pos as u64, value_sz: n as u64 };
                    let ghost ev = LogEvent { kind: rec.kind, key: rec.key@, value: rec.value@, entry };
                    let ghost before = self.log@;
                    self.apply(rec, entry);
                    proof {
                        assert(record_at(segs@, entry) =~= doc@);
                        assert forall|i: int| 0 <= i < self.log@.len() implies {
                            &&& entry_in(segs@, (#[trigger] self.log@[i]).entry)
                            &&& decoded_record(record_at(segs@, self.log@[i].entry)) == Some(
                                (self.log@[i].kind, self.log@[i].key, self.log@[i].value),
                            )
                        } by {
                            if i < before.len() {
                                assert(self.log@[i] == before[i]);
                            }
                        }
                        let next = segment_events(bytes@, file_id, pos + n);
                        if let Some(rest) = next {
                            assert(seq![ev] + rest =~= seq![ev].add(rest));
                            assert(acc + (seq![ev] + rest) =~= acc.push(ev) + rest);
                        }
                        assert(old(self).log@ + acc.push(ev) =~= (old(self).log@ + acc).push(ev));
                        acc = acc.push(ev);
                    }
                    pos = pos + n;
                },
            }
        }
    }
}

/// What compaction copies and where: the live records of `copies`, in
/// order, go back to back into the new segment `target_id`; `active_id` is
/// the new active segment; the segments of `obsolete` are deleted after.
#[derive(Debug)]
pub struct CompactionPlan {
    pub target_id: u64,
    pub active_id: u64,
    pub copies: Vec<IndexEntry>,
    pub obsolete: Vec<u64>,
}

/// The engine's state: the index of live records, the segments in id order
/// (the last one is active and takes the appends), the length of the active
/// segment, and the count of dead bytes.
pub struct KvStore {
    index: Index,
    uncompacted_size: u64,
    active_file_id: u64,
    active_len: u64,
    file_ids: Vec<u64>,
    log: Ghost<Seq<LogEvent>>,
    segments: Ghost<Map<u64, Seq<u8>>>,
}

impl KvStore {
    /// The bytes of each present segment, as the store has written them.
    pub closed spec fn spec_segments(&self) -> Map<u64, Seq<u8>> {
        self.segments@
    }

    /// The index: for each live key, where its record lies.
    pub closed spec fn spec_index(&self) -> Map<Seq<char>, IndexEntry> {
        self.index@
    }

    /// The order in which compaction copies the live records.
    pub closed spec fn spec_order(&self) -> Seq<Seq<char>> {
        self.index.order()
    }

    /// The store's contents: the value bound to each live key.
    pub closed spec fn spec_contents(&self) -> Map<Seq<char>, Seq<char>> {
        replay(self.log@).values
    }

    /// The records that the segments hold, in segment and byte order.
    pub closed spec fn spec_log(&self) -> Seq<LogEvent> {
        self.log@
    }

    /// The ids of the segments, ascending.
    pub closed spec fn spec_file_ids(&self) -> Seq<u64> {
        self.file_ids@
    }

    /// The segment that takes the appends.
    pub closed spec fn spec_active_file_id(&self) -> u64 {
        self.active_file_id
    }

    /// The length in bytes of the active segment.
    pub closed spec fn spec_active_len(&self) -> u64 {
        self.active_len
    }

    /// The dead bytes since the last compaction, capped at the largest `u64`.
    pub closed spec fn spec_uncompacted(&self) -> u64 {
        self.uncompacted_size
    }

    /// The state agrees with its log and its segments: the index and the dead
    /// bytes are what replaying the log yields; the segment ids ascend to the
    /// active one, whose length is known; and every live key's entry lies in a
    /// present segment and points at the put record of that key and its value.
    pub closed spec fn wf(&self) -> bool {
        &&& self.index.wf()
        &&& self.index@ == replay(self.log@).index
        &&& self.uncompacted_size == capped(replay(self.log@).dead as int)
        &&& self.file_ids@.len() > 0
        &&& ascending(self.file_ids@)
        &&& self.file_ids@.last() == self.active_file_id
        &&& forall|k: Seq<char>| #[trigger]
            self.index@.contains_key(k) ==> self.file_ids@.contains(self.index@[k].file_id)
        &&& forall|id: u64| #[trigger] self.segments@.contains_key(id) <==> self.file_ids@.contains(id)
        &&& self.segments@[self.active_file_id].len() == self.active_len
        &&& index_backed(self.index@, replay(self.log@).values, self.segments@)
    }

    /// The index and the contents are what replaying the log yields.
    pub proof fn lemma_state_is_replay(&self)
        requires
            self.wf(),
        ensures
            self.spec_index() == replay(self.spec_log()).index,
            self.spec_contents() == replay(self.spec_log()).values,
            self.spec_uncompacted() == capped(replay(self.spec_log()).dead as int),
    {
    }

    /// What every well-formed state keeps: the segment ids ascend and the
    /// last one is the active segment; every live entry lies in a present
    /// segment and points at the put record of its key and value; the copy
    /// order lists every live key exactly once.
    pub proof fn lemma_wf_facts(&self)
        requires
            self.wf(),
        ensures
            self.spec_file_ids().len() > 0,
            ascending(self.spec_file_ids()),
            self.spec_file_ids().last() == self.spec_active_file_id(),
            forall|i: int|
                0 <= i < self.spec_file_ids().len() ==> #[trigger] self.spec_file_ids()[i] <= self.spec_active_file_id(),
            forall|k: Seq<char>| #[trigger]
                self.spec_index().contains_key(k) ==> self.spec_file_ids().contains(self.spec_index()[k].file_id),
            self.spec_order().no_duplicates(),
            forall|k: Seq<char>| #[trigger] self.spec_index().contains_key(k) <==> self.spec_order().contains(k),
            self.spec_contents().dom() == self.spec_index().dom(),
            forall|id: u64| #[trigger] self.spec_segments().contains_key(id) <==> self.spec_file_ids().contains(id),
            self.spec_segments()[self.spec_active_file_id()].len() == self.spec_active_len(),
            index_backed(self.spec_index(), self.spec_contents(), self.spec_segments()),
    {
        self.index.lemma_order();
        lemma_replay_domains(self.log@);
        let ids = self.file_ids@;
        assert forall|i: int| 0 <= i < ids.len() implies #[trigger] ids[i] <= self.active_file_id by {
            if i < ids.len() - 1 {
                assert(ids[i] < ids[ids.len() - 1]);
            }
        }
        assert forall|k: Seq<char>| #[trigger] self.spec_index().contains_key(k) <==> self.spec_order().contains(k) by {
            if self.spec_order().contains(k) {
                let i = choose|i: int| 0 <= i < self.spec_order().len() && self.spec_order()[i] == k;
            }
        }
    }

    /// The state of an empty directory: segment 1 alone, active and empty.
    pub fn new() -> (r: KvStore)
        ensures
            r.wf(),
            r.spec_index() == Map::<Seq<char>, IndexEntry>::empty(),
            r.spec_contents() == Map::<Seq<char>, Seq<char>>::empty(),
            r.spec_log() == Seq::<LogEvent>::empty(),
            r.spec_file_ids() == seq![1u64],
            r.spec_active_file_id() == 1,
            r.spec_active_len() == 0,
            r.spec_uncompacted() == 0,
            r.spec_segments() == map![1u64 => Seq::<u8>::empty()],
    {
        let mut file_ids: Vec<u64> = Vec::new();
        file_ids.push(1);
        let r = KvStore {
            index: Index::new(),
            uncompacted_size: 0,
            active_file_id: 1,
            active_len: 0,
            file_ids,
            log: Ghost(Seq::empty()),
            segments: Ghost(Map::<u64, Seq<u8>>::empty().insert(1u64, Seq::<u8>::empty())),
        };
        assert forall|id: u64| #[trigger] r.segments@.contains_key(id) <==> r.file_ids@.contains(id) by {
            if id == 1 {
                assert(r.file_ids@[0] == 1);
            }
        }
        r
    }

    /// The segment that takes the appends.
    pub fn active_file_id(&self) -> (r: u64)
        ensures
            r == self.spec_active_file_id(),
    {
        self.active_file_id
    }

    /// The length in bytes of the active segment.
    pub fn active_len(&self) -> (r: u64)
        ensures
            r == self.spec_active_len(),
    {
        self.active_len
    }

    /// The number of bytes made dead since the last compaction (capped).
    pub fn uncompacted_size(&self) -> (r: u64)
        ensures
            r == self.spec_uncompacted(),
    {
        self.uncompacted_size
    }

    /// The ids of the segments, ascending; the last is the active one.
    pub fn file_ids(&self) -> (r: Vec<u64>)
        ensures
            r@ == self.spec_file_ids(),
    {
        self.file_ids.clone()
    }

    /// Where the live record of `key` lies, or `None` when `key` is unbound.
    pub fn lookup(&self, key: &str) -> (r: Option<IndexEntry>)
        ensures
            match r {
                Some(e) => self.spec_index().contains_key(key@) && self.spec_index()[key@] == e,
                None => !self.spec_index().contains_key(key@),
            },
    {
        self.index.get(key)
    }

    /// Records that the checked put record `rec` has been appended to the
    /// active segment. Returns whether compaction is due. A record that is
    /// not a put fails with `Other` and changes nothing.
    pub fn apply_set(&mut self, rec: CheckedRecord) -> (r: Result<bool, KvsError>)
        requires
            old(self).wf(),
            old(self).spec_active_len() + rec.spec_bytes().len() <= u64::MAX,
        ensures
            final(self).wf(),
            rec.spec_kind() != RecordKind::Put ==> {
                &&& r matches Err(KvsError::Other { .. })
                &&& *final(self) == *old(self)
            },
            rec.spec_kind() == RecordKind::Put ==> {
                let entry = IndexEntry {
                    file_id: old(self).spec_active_file_id(),
                    value_pos: old(self).spec_active_len(),
                    value_sz: rec.spec_bytes().len() as u64,
                };
                &&& final(self).spec_log() == old(self).spec_log().push(
                    LogEvent { kind: RecordKind::Put, key: rec.spec_key(), value: rec.spec_value(), entry },
                )
                &&& final(self).spec_index() == old(self).spec_index().insert(rec.spec_key(), entry)
                &&& final(self).spec_contents() == old(self).spec_contents().insert(rec.spec_key(), rec.spec_value())
                &&& final(self).spec_segments() == old(self).spec_segments().insert(
                    old(self).spec_active_file_id(),
                    old(self).spec_segments()[old(self).spec_active_file_id()] + rec.spec_bytes(),
                )
                &&& final(self).spec_active_len() == old(self).spec_active_len() + rec.spec_bytes().len()
                &&& final(self).spec_active_file_id() == old(self).spec_active_file_id()
                &&& final(self).spec_file_ids() == old(self).spec_file_ids()
                &&& final(self).spec_uncompacted() == capped(
                    old(self).spec_uncompacted() + (if old(self).spec_index().contains_key(rec.spec_key()) {
                        old(self).spec_index()[rec.spec_key()].value_sz as nat
                    } else {
                        0
                    }),
                )
                &&& r == Ok::<bool, KvsError>(final(self).spec_uncompacted() > TRIGGER_COMPACT_SIZE)
            },
    {
        if rec.kind() != RecordKind::Put {
            return Err(KvsError::Other { message: "not a put record".to_owned() });
        }
        let len = rec.len();
        let ghost bytes = rec.spec_bytes();
        let (_, key, value) = rec.into_parts();
        let entry = IndexEntry { file_id: self.active_file_id, value_pos: self.active_len, value_sz: len };
        let ghost ev = LogEvent { kind: RecordKind::Put, key: key@, value: value@, entry };
        let ghost old_segs = self.segments@;
        let ghost active = self.active_file_id;
        let ghost new_segs = old_segs.insert(active, old_segs[active] + bytes);
        proof {
            assert(self.log@.push(ev).drop_last() =~= self.log@);
            assert(new_segs[active].subrange(entry.value_pos as int, entry.value_pos + entry.value_sz) =~= bytes);
        }
        if let Some(prev) = self.index.insert(key, entry) {
            self.uncompacted_size = self.uncompacted_size.saturating_add(prev.value_sz);
        }
        self.active_len = self.active_len + len;
        self.log = Ghost(self.log@.push(ev));
        self.segments = Ghost(new_segs);
        proof {
            assert forall|k: Seq<char>| #[trigger] self.index@.contains_key(k) implies self.file_ids@.contains(
                self.index@[k].file_id,
            ) by {
                if k != ev.key {
                    assert(old(self).index@.contains_key(k));
                }
            }
            assert forall|k: Seq<char>| #[trigger] self.index@.contains_key(k) implies {
                &&& entry_in(new_segs, self.index@[k])
                &&& decoded_record(record_at(new_segs, self.index@[k])) == Some(
                    (RecordKind::Put, k, replay(self.log@).values[k]),
                )
            } by {
                if k != ev.key {
                    assert(old(self).index@.contains_key(k));
                    let e = old(self).index@[k];
                    assert(entry_in(old_segs, e));
                    if e.file_id == active {
                        assert(record_at(new_segs, e) =~= record_at(old_segs, e));
                    }
                }
            }
            assert forall|id: u64| #[trigger] new_segs.contains_key(id) <==> self.file_ids@.contains(id) by {
                assert(old_segs.contains_key(active));
            }
        }
        Ok(self.uncompacted_size > TRIGGER_COMPACT_SIZE)
    }

    /// The answer to `get(key)`, given `doc`, the bytes read at the entry
    /// that `lookup(key)` gave (any bytes when it gave none): `None` for an
    /// unbound key; when `doc` is what the segment holds there, the value
    /// bound to `key`; a `Serde` failure when `doc` is not the put record of
    /// `key`.
    pub fn read_value(&self, key: &str, doc: &[u8]) -> (r: Result<Option<String>, KvsError>)
        requires
            self.wf(),
        ensures
            !self.spec_index().contains_key(key@) ==> r == Ok::<Option<String>, KvsError>(None),
            self.spec_index().contains_key(key@) && doc@ == record_at(self.spec_segments(), self.spec_index()[key@])
                ==> (r matches Ok(Some(v)) && v@ == self.spec_contents()[key@]),
            r matches Ok(Some(v)) ==> decoded_record(doc@) == Some((RecordKind::Put, key@, v@)),
            r matches Err(e) ==> e is Serde,
    {
        if self.index.get(key).is_none() {
            return Ok(None);
        }
        match value_of_record(key, doc) {
            Ok(v) => Ok(Some(v)),
            Err(e) => Err(e),
        }
    }

    /// Serializes the remove record of `key`; fails with `KeyNotFound`, and
    /// nothing is to be appended, when `key` is not bound.
    pub fn remove_record(&self, key: &str, tstamp: u128) -> (r: Result<Vec<u8>, KvsError>)
        requires
            tstamp <= u64::MAX,
        ensures
            !self.spec_index().contains_key(key@) ==> (r matches Err(KvsError::KeyNotFound { key: k }) && k@ == key@),
            self.spec_index().contains_key(key@) ==> (r matches Ok(b) && b@ == record_bytes(
                RecordKind::Remove,
                tstamp,
                key@,
                Seq::empty(),
            )),
    {
        if self.index.get(key).is_none() {
            return Err(KvsError::KeyNotFound { key: key.to_owned() });
        }
        proof {
            reveal_strlit("");
            assert(""@ =~= Seq::<char>::empty());
        }
        encode_record(RecordKind::Remove, tstamp, key, "")
    }

    /// Records that the checked remove record `rec` has been appended to the
    /// active segment. Returns whether compaction is due. A record that is
    /// not a remove fails with `Other`, and one whose key is not bound with
    /// `KeyNotFound`; both change nothing.
    pub fn apply_remove(&mut self, rec: CheckedRecord) -> (r: Result<bool, KvsError>)
        requires
            old(self).wf(),
            old(self).spec_active_len() + rec.spec_bytes().len() <= u64::MAX,
        ensures
            final(self).wf(),
            rec.spec_kind() != RecordKind::Remove ==> {
                &&& r matches Err(KvsError::Other { .. })
                &&& *final(self) == *old(self)
            },
            rec.spec_kind() == RecordKind::Remove && !old(self).spec_index().contains_key(rec.spec_key()) ==> {
                &&& (r matches Err(KvsError::KeyNotFound { key: k }) && k@ == rec.spec_key())
                &&& *final(self) == *old(self)
            },
            rec.spec_kind() == RecordKind::Remove && old(self).spec_index().contains_key(rec.spec_key()) ==> {
                let entry = IndexEntry {
                    file_id: old(self).spec_active_file_id(),
                    value_pos: old(self).spec_active_len(),
                    value_sz: rec.spec_bytes().len() as u64,
                };
                &&& final(self).spec_log() == old(self).spec_log().push(
                    LogEvent { kind: RecordKind::Remove, key: rec.spec_key(), value: rec.spec_value(), entry },
                )
                &&& final(self).spec_index() == old(self).spec_index().remove(rec.spec_key())
                &&& final(self).spec_contents() == old(self).spec_contents().remove(rec.spec_key())
                &&& final(self).spec_segments() == old(self).spec_segments().insert(
                    old(self).spec_active_file_id(),
                    old(self).spec_segments()[old(self).spec_active_file_id()] + rec.spec_bytes(),
                )
                &&& final(self).spec_active_len() == old(self).spec_active_len() + rec.spec_bytes().len()
                &&& final(self).spec_active_file_id() == old(self).spec_active_file_id()
                &&& final(self).spec_file_ids() == old(self).spec_file_ids()
                &&& final(self).spec_uncompacted() == capped(
                    old(self).spec_uncompacted() + old(self).spec_index()[rec.spec_key()].value_sz,
                )
                &&& r == Ok::<bool, KvsError>(final(self).spec_uncompacted() > TRIGGER_COMPACT_SIZE)
            },
    {
        if rec.kind() != RecordKind::Remove {
            return Err(KvsError::Other { message: "not a remove record".to_owned() });
        }
        let len = rec.len();
        let ghost bytes = rec.spec_bytes();
        let (_, key, value) = rec.into_parts();
        if self.index.get(key.as_str()).is_none() {
            return Err(KvsError::KeyNotFound { key });
        }
        let entry = IndexEntry { file_id: self.active_file_id, value_pos: self.active_len, value_sz: len };
        let ghost ev = LogEvent { kind: RecordKind::Remove, key: key@, value: value@, entry };
        let ghost old_segs = self.segments@;
        let ghost active = self.active_file_id;
        let ghost new_segs = old_segs.insert(active, old_segs[active] + bytes);
        let prev = self.index.remove(key.as_str()).unwrap();
        proof {
            assert(self.log@.push(ev).drop_last() =~= self.log@);
        }
        self.uncompacted_size = self.uncompacted_size.saturating_add(prev.value_sz);
        self.active_len = self.active_len + len;
        self.log = Ghost(self.log@.push(ev));
        self.segments = Ghost(new_segs);
        proof {
            assert forall|k: Seq<char>| #[trigger] self.index@.contains_key(k) implies self.file_ids@.contains(
                self.index@[k].file_id,
            ) by {
                assert(old(self).index@.contains_key(k));
            }
            assert forall|k: Seq<char>| #[trigger] self.index@.contains_key(k) implies {
                &&& entry_in(new_segs, self.index@[k])
                &&& decoded_record(record_at(new_segs, self.index@[k])) == Some(
                    (RecordKind::Put, k, replay(self.log@).values[k]),
                )
            } by {
                assert(old(self).index@.contains_key(k));
                let e = old(self).index@[k];
                assert(entry_in(old_segs, e));
                if e.file_id == active {
                    assert(record_at(new_segs, e) =~= record_at(old_segs, e));
                }
            }
            assert forall|id: u64| #[trigger] new_segs.contains_key(id) <==> self.file_ids@.contains(id) by {
                assert(old_segs.contains_key(active));
            }
        }
        Ok(self.uncompacted_size > TRIGGER_COMPACT_SIZE)
    }

    /// Rebuilds the state of a directory from its segments, given in id
    /// order: the records are replayed segment after segment and, within a
    /// segment, in byte order. The last segment is the active one; with no
    /// segment, segment 1 is. Fails with `Serde` when a segment holds
    /// something other than records (a record cut short at its end is
    /// dropped).
    pub fn recover(segments: &Vec<Segment>) -> (r: Result<KvStore, KvsError>)
        requires
            ascending(segment_ids(segments@)),
        ensures
            match segments_log(segments@) {
                None => r matches Err(e) && e is Serde,
                Some(log) => r matches Ok(s) && {
                    &&& s.wf()
                    &&& s.spec_log() == log
                    &&& s.spec_active_file_id() == (if segments@.len() == 0 {
                        1u64
                    } else {
                        segments@.last().file_id
                    })
                    &&& segments@.len() == 0 ==> s.spec_file_ids() == seq![1u64] && s.spec_active_len() == 0
                    &&& segments@.len() > 0 ==> s.spec_file_ids() == segment_ids(segments@)
                        && s.spec_active_len() == segments@.last().bytes@.len()
                    &&& segments@.len() == 0 ==> s.spec_segments() == map![1u64 => Seq::<u8>::empty()]
                    &&& forall|j: int|
                        0 <= j < segments@.len() ==> s.spec_segments()[(#[trigger] segments@[j]).file_id]
                            == segments@[j].bytes@
                },
            },
    {
        if segments.len() == 0 {
            let s = KvStore::new();
            assert(segments@ =~= Seq::<Segment>::empty());
            return Ok(s);
        }
        let mut rep = Replayer { index: Index::new(), uncompacted_size: 0, log: Ghost(Seq::empty()) };
        let mut file_ids: Vec<u64> = Vec::new();
        let mut i: usize = 0;
        let ghost mut segs: Map<u64, Seq<u8>> = Map::empty();
        while i < segments.len()
            invariant
                rep.wf(),
                ascending(segment_ids(segments@)),
                log_backed(rep.log@, segs),
                forall|id: u64| #[trigger] segs.contains_key(id) <==> file_ids@.contains(id),
                forall|j: int| 0 <= j < i ==> segs[(#[trigger] segments@[j]).file_id] == segments@[j].bytes@,
                i <= segments@.len(),
                segments_log(segments@.subrange(0, i as int)) == Some(rep.log@),
                file_ids@ == segment_ids(segments@).subrange(0, i as int),
                forall|k: Seq<char>| #[trigger] rep.index@.contains_key(k) ==> file_ids@.contains(rep.index@[k].file_id),
            decreases segments@.len() - i,
        {
            let seg = &segments[i];
            let ghost before = rep.index@;
            proof {
                let id = seg.file_id;
                assert(segment_ids(segments@)[i as int] == id);
                assert(!segs.contains_key(id)) by {
                    if segs.contains_key(id) {
                        let j = choose|j: int| 0 <= j < file_ids@.len() && file_ids@[j] == id;
                        assert(segment_ids(segments@)[j] < segment_ids(segments@)[i as int]);
                    }
                }
                let new_segs = segs.insert(id, seg.bytes@);
                assert forall|k: int| 0 <= k < rep.log@.len() implies {
                    &&& entry_in(new_segs, (#[trigger] rep.log@[k]).entry)
                    &&& decoded_record(record_at(new_segs, rep.log@[k].entry)) == Some(
                        (rep.log@[k].kind, rep.log@[k].key, rep.log@[k].value),
                    )
                } by {
                    assert(entry_in(segs, rep.log@[k].entry));
                    assert(record_at(new_segs, rep.log@[k].entry) == record_at(segs, rep.log@[k].entry));
                }
                assert forall|j: int| 0 <= j < i implies new_segs[(#[trigger] segments@[j]).file_id]
                    == segments@[j].bytes@ by {
                    assert(segment_ids(segments@)[j] < segment_ids(segments@)[i as int]);
                }
                segs = new_segs;
            }
            let res = rep.read_segment(seg.file_id, seg.bytes.as_slice(), Ghost(segs));
            proof {
                assert(segments@.subrange(0, i + 1).drop_last() =~= segments@.subrange(0, i as int));
                assert(segments@.subrange(0, i + 1).last() == segments@[i as int]);
            }
            if let Err(e) = res {
                proof {
                    lemma_segments_log_extends(segments@, i as int + 1);
                }
                return Err(e);
            }
            file_ids.push(seg.file_id);
            i += 1;
            proof {
                assert(file_ids@ =~= segment_ids(segments@).subrange(0, i as int));
                assert forall|id: u64| #[trigger] segs.contains_key(id) <==> file_ids@.contains(id) by {
                    if file_ids@.contains(id) && id != seg.file_id {
                        let j = choose|j: int| 0 <= j < file_ids@.len() && file_ids@[j] == id;
                        assert(file_ids@.subrange(0, file_ids@.len() - 1)[j] == id);
                    }
                    if id == seg.file_id {
                        assert(file_ids@[file_ids@.len() - 1] == id);
                    }
                }
                assert forall|k: Seq<char>| #[trigger] rep.index@.contains_key(k) implies file_ids@.contains(
                    rep.index@[k].file_id,
                ) by {
                    if before.contains_key(k) && rep.index@[k] == before[k] {
                        let j = choose|j: int| 0 <= j < file_ids@.len() - 1 && file_ids@[j] == before[k].file_id;
                        assert(file_ids@[j] == before[k].file_id);
                    } else {
                        assert(file_ids@[i - 1] == rep.index@[k].file_id);
                    }
                }
            }
        }
        assert(segments@.subrange(0, i as int) =~= segments@);
        assert(file_ids@ =~= segment_ids(segments@));
        let last = &segments[segments.len() - 1];
        let active_file_id = last.file_id;
        let active_len = last.bytes.len() as u64;
        proof {
            lemma_replay_backed(rep.log@, segs);
            assert(segments@[segments@.len() - 1] == *last);
        }
        Ok(KvStore {
            index: rep.index,
            uncompacted_size: rep.uncompacted_size,
            active_file_id,
            active_len,
            file_ids,
            log: rep.log,
            segments: Ghost(segs),
        })
    }

    /// The live entries in copy order.
    pub closed spec fn spec_entries(&self) -> Seq<IndexEntry> {
        Seq::new(self.index.order().len(), |i: int| self.index@[self.index.order()[i]])
    }

    /// Whether the ids and offsets of a compaction fit in a `u64`.
    pub open spec fn compaction_fits(&self) -> bool {
        &&& self.spec_active_file_id() + 2 <= u64::MAX
        &&& prefix_size(self.spec_entries(), self.spec_entries().len() as int) <= u64::MAX
    }

    /// Whether `p` is the compaction plan of this state.
    pub open spec fn plans(&self, p: CompactionPlan) -> bool {
        &&& self.compaction_fits()
        &&& p.target_id == self.spec_active_file_id() + 1
        &&& p.active_id == self.spec_active_file_id() + 2
        &&& p.copies@ == self.spec_entries()
        &&& p.obsolete@ == self.spec_file_ids()
    }

    /// Plans a compaction: segment `n+1` receives a copy of every live
    /// record, segment `n+2` becomes active, and every present segment goes.
    /// `None` when the new ids or offsets would not fit in a `u64`.
    pub fn compaction_plan(&self) -> (r: Option<CompactionPlan>)
        requires
            self.wf(),
        ensures
            r is Some <==> self.compaction_fits(),
            r matches Some(p) ==> self.plans(p),
    {
        if self.active_file_id > u64::MAX - 2 {
            return None;
        }
        let n = self.index.len();
        proof {
            self.index.lemma_order();
        }
        let mut copies: Vec<IndexEntry> = Vec::new();
        let mut total: u64 = 0;
        let mut i: usize = 0;
        while i < n
            invariant
                self.wf(),
                n == self.spec_entries().len(),
                i <= n,
                copies@ == self.spec_entries().subrange(0, i as int),
                total == prefix_size(self.spec_entries(), i as int),
                forall|j: int| 0 <= j < n ==> self.index@.contains_key(#[trigger] self.index.order()[j]),
            decreases n - i,
        {
            let e = self.index.get(self.index.key_at(i).as_str()).unwrap();
            if total > u64::MAX - e.value_sz {
                proof {
                    lemma_prefix_size_monotone(self.spec_entries(), i + 1, n as int);
                }
                return None;
            }
            total = total + e.value_sz;
            copies.push(e);
            i += 1;
            assert(copies@ =~= self.spec_entries().subrange(0, i as int));
        }
        assert(copies@ =~= self.spec_entries());
        Some(CompactionPlan {
            target_id: self.active_file_id + 1,
            active_id: self.active_file_id + 2,
            copies,
            obsolete: self.file_ids.clone(),
        })
    }

    /// Records that `plan` has been carried out: every live key now points
    /// into the compacted segment, the two new segments are the only ones,
    /// and no byte is dead.
    pub fn finish_compaction(&mut self, plan: &CompactionPlan)
        requires
            old(self).wf(),
            old(self).plans(*plan),
        ensures
            final(self).wf(),
            final(self).spec_file_ids() == seq![plan.target_id, plan.active_id],
            final(self).spec_active_file_id() == plan.active_id,
            final(self).spec_active_len() == 0,
            final(self).spec_uncompacted() == 0,
            final(self).spec_contents() == old(self).spec_contents(),
            final(self).spec_order() == old(self).spec_order(),
            final(self).spec_index().dom() == old(self).spec_index().dom(),
            forall|k: Seq<char>| #[trigger]
                final(self).spec_index().contains_key(k) ==> final(self).spec_index()[k].file_id == plan.target_id,
            forall|i: int|
                0 <= i < old(self).spec_order().len() ==> final(self).spec_index()[#[trigger] old(self).spec_order()[i]]
                    == compacted_entry(plan.target_id, plan.copies@, i),
            final(self).spec_log() == compacted_log(
                plan.target_id,
                old(self).spec_order(),
                plan.copies@,
                old(self).spec_contents(),
            ),
            final(self).spec_segments() == Map::<u64, Seq<u8>>::empty().insert(
                plan.target_id,
                compacted_bytes(old(self).spec_segments(), plan.copies@, plan.copies@.len() as int),
            ).insert(plan.active_id, Seq::<u8>::empty()),
    {
        let ghost entries = old(self).spec_entries();
        let ghost order = old(self).index.order();
        proof {
            old(self).index.lemma_order();
        }
        let n = self.index.len();
        let mut pos: u64 = 0;
        let mut i: usize = 0;
        while i < n
            invariant
                self.index.wf(),
                n == order.len(),
                entries.len() == n,
                i <= n,
                self.index.order() == order,
                order.no_duplicates(),
                self.index@.dom() == old(self).index@.dom(),
                forall|j: int| 0 <= j < n ==> (#[trigger] entries[j]) == old(self).index@[order[j]],
                forall|j: int| 0 <= j < i ==> self.index@[#[trigger] order[j]] == compacted_entry(plan.target_id, entries, j),
                forall|j: int| i <= j < n ==> self.index@[#[trigger] order[j]] == old(self).index@[order[j]],
                forall|j: int| 0 <= j < n ==> self.index@.contains_key(#[trigger] order[j]),
                pos == prefix_size(entries, i as int),
                prefix_size(entries, n as int) <= u64::MAX,
                plan.target_id == old(self).active_file_id + 1,
                plan.copies@ == entries,
            decreases n - i,
        {
            let key = self.index.key_at(i).clone();
            let e = self.index.get(key.as_str()).unwrap();
            proof {
                lemma_prefix_size_monotone(entries, i + 1, n as int);
            }
            self.index.insert(key, IndexEntry { file_id: plan.target_id, value_pos: pos, value_sz: e.value_sz });
            pos = pos + e.value_sz;
            i += 1;
            proof {
                assert forall|j: int| 0 <= j < i implies self.index@[#[trigger] order[j]] == compacted_entry(
                    plan.target_id,
                    entries,
                    j,
                ) by {
                    if j < i - 1 {
                        assert(order[j] != order[i - 1]);
                    }
                }
                assert forall|j: int| i <= j < n implies self.index@[#[trigger] order[j]] == old(self).index@[order[j]] by {
                    assert(order[j] != order[i - 1]);
                }
            }
        }
        let mut file_ids: Vec<u64> = Vec::new();
        file_ids.push(plan.target_id);
        file_ids.push(plan.active_id);
        self.file_ids = file_ids;
        self.active_file_id = plan.active_id;
        self.active_len = 0;
        self.uncompacted_size = 0;
        let ghost values = replay(old(self).log@).values;
        let ghost log = compacted_log(plan.target_id, order, entries, values);
        proof {
            assert forall|a: int, b: int| 0 <= a < b < log.len() implies log[a].key != log[b].key by {
                assert(order[a] != order[b]);
            }
            assert forall|a: int| 0 <= a < log.len() implies (#[trigger] log[a]).kind == RecordKind::Put by {}
            lemma_replay_distinct_puts(log);
            lemma_replay_domains(old(self).log@);
            assert forall|k: Seq<char>| #[trigger] self.index@.contains_key(k) <==> replay(log).index.contains_key(k) by {
                if self.index@.contains_key(k) {
                    assert(order.contains(k));
                    let j = choose|j: int| 0 <= j < order.len() && order[j] == k;
                    assert(log[j].key == k);
                }
                if replay(log).index.contains_key(k) {
                    let j = choose|j: int| 0 <= j < log.len() && log[j].key == k;
                    assert(order[j] == k);
                }
            }
            assert forall|k: Seq<char>| #[trigger] self.index@.contains_key(k) implies self.index@[k] == replay(log).index[k] by {
                assert(order.contains(k));
                let j = choose|j: int| 0 <= j < order.len() && order[j] == k;
                assert(log[j].key == k);
            }
            assert(self.index@ =~= replay(log).index);
            assert forall|k: Seq<char>| #[trigger] values.contains_key(k) <==> replay(log).values.contains_key(k) by {
                lemma_replay_domains(log);
                if values.contains_key(k) {
                    assert(old(self).index@.contains_key(k));
                }
            }
            assert forall|k: Seq<char>| #[trigger] values.contains_key(k) implies values[k] == replay(log).values[k] by {
                assert(old(self).index@.contains_key(k));
                assert(order.contains(k));
                let j = choose|j: int| 0 <= j < order.len() && order[j] == k;
                assert(log[j].key == k);
            }
            assert(values =~= replay(log).values);
            assert(self.file_ids@ =~= seq![plan.target_id, plan.active_id]);
            assert forall|k: Seq<char>| #[trigger] self.index@.contains_key(k) implies self.file_ids@.contains(
                self.index@[k].file_id,
            ) by {
                assert(order.contains(k));
                let j = choose|j: int| 0 <= j < order.len() && order[j] == k;
                assert(self.file_ids@[0] == plan.target_id);
            }
        }
        let ghost old_segs = old(self).segments@;
        let ghost target_bytes = compacted_bytes(old_segs, entries, n as int);
        let ghost new_segs = Map::<u64, Seq<u8>>::empty().insert(plan.target_id, target_bytes).insert(
            plan.active_id,
            Seq::<u8>::empty(),
        );
        proof {
            assert forall|j: int| 0 <= j < n implies entry_in(old_segs, #[trigger] entries[j]) by {
                assert(old(self).index@.contains_key(order[j]));
            }
            lemma_compacted_bytes(old_segs, entries, n as int);
            assert forall|k: Seq<char>| #[trigger] self.index@.contains_key(k) implies {
                &&& entry_in(new_segs, self.index@[k])
                &&& decoded_record(record_at(new_segs, self.index@[k])) == Some(
                    (RecordKind::Put, k, replay(log).values[k]),
                )
            } by {
                assert(order.contains(k));
                let j = choose|j: int| 0 <= j < order.len() && order[j] == k;
                assert(old(self).index@.contains_key(k));
                lemma_prefix_size_monotone(entries, j + 1, n as int);
                lemma_prefix_size_monotone(entries, j, j + 1);
                let e = self.index@[k];
                assert(e == compacted_entry(plan.target_id, entries, j));
                assert(record_at(new_segs, e) == target_bytes.subrange(
                    prefix_size(entries, j) as int,
                    prefix_size(entries, j + 1) as int,
                ));
                assert(record_at(new_segs, e) == record_at(old_segs, entries[j]));
            }
            assert forall|id: u64| #[trigger] new_segs.contains_key(id) <==> self.file_ids@.contains(id) by {
                assert(self.file_ids@[0] == plan.target_id);
                assert(self.file_ids@[1] == plan.active_id);
            }
        }
        self.log = Ghost(log);
        self.segments = Ghost(new_segs);
    }
}

} // verus!
