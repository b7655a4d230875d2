//! Properties of the store that span several operations.
use crate::record::{MIN_RECORD_LEN, RecordKind};
use crate::store::TRIGGER_COMPACT_SIZE;
use crate::store::{KvStore, LogEvent, Segment, replay, segments_log};
use vstd::prelude::*;

verus! {

/// The value bound to a key is the value of its last put, provided that no
/// later record of the log names the key.
pub proof fn lemma_last_put_wins(log: Seq<LogEvent>, i: int)
    requires
        0 <= i < log.len(),
        log[i].kind == RecordKind::Put,
        forall|j: int| i < j < log.len() ==> (#[trigger] log[j]).key != log[i].key,
    ensures
        replay(log).values.contains_key(log[i].key),
        replay(log).values[log[i].key] == log[i].value,
        replay(log).index.contains_key(log[i].key),
        replay(log).index[log[i].key] == log[i].entry,
    decreases log.len(),
{
    if i < log.len() - 1 {
        let prev = log.drop_last();
        assert forall|j: int| i < j < prev.len() implies (#[trigger] prev[j]).key != prev[i].key by {
            assert(prev[j] == log[j]);
        }
        lemma_last_put_wins(prev, i);
        assert(log[log.len() - 1].key != log[i].key);
    }
}

/// A key that was never put, or whose every put is followed by a remove, is
/// not bound.
pub proof fn lemma_unset_key_absent(log: Seq<LogEvent>, k: Seq<char>)
    requires
        forall|i: int|
            0 <= i < log.len() && (#[trigger] log[i]).key == k && log[i].kind == RecordKind::Put ==> exists|j: int|
                i < j < log.len() && log[j].key == k && log[j].kind == RecordKind::Remove,
    ensures
        !replay(log).index.contains_key(k),
        !replay(log).values.contains_key(k),
    decreases log.len(),
{
    if log.len() > 0 {
        let prev = log.drop_last();
        let last = log.last();
        if last.key == k && last.kind == RecordKind::Remove {
        } else {
            assert(!(last.key == k && last.kind == RecordKind::Put)) by {
                if last.key == k && last.kind == RecordKind::Put {
                    let j = choose|j: int|
                        log.len() - 1 < j < log.len() && log[j].key == k && log[j].kind == RecordKind::Remove;
                }
            }
            assert forall|i: int|
                0 <= i < prev.len() && (#[trigger] prev[i]).key == k && prev[i].kind == RecordKind::Put implies exists|j: int|
                i < j < prev.len() && prev[j].key == k && prev[j].kind == RecordKind::Remove by {
                assert(log[i] == prev[i]);
                let j = choose|j: int| i < j < log.len() && log[j].key == k && log[j].kind == RecordKind::Remove;
                assert(j != log.len() - 1);
                assert(prev[j] == log[j]);
            }
            lemma_unset_key_absent(prev, k);
        }
    }
}

/// Reopening restores the index: when the segments on disk hold exactly the
/// records of a store's log, the store that `KvStore::recover` rebuilds from
/// them has the same index, the same contents and the same dead bytes.
pub proof fn lemma_reopen_same_index(s: KvStore, segs: Seq<Segment>, t: KvStore)
    requires
        s.wf(),
        segments_log(segs) == Some(s.spec_log()),
        t.wf(),
        segments_log(segs) == Some(t.spec_log()),
    ensures
        t.spec_index() == s.spec_index(),
        t.spec_contents() == s.spec_contents(),
        t.spec_uncompacted() == s.spec_uncompacted(),
{
    s.lemma_state_is_replay();
    t.lemma_state_is_replay();
}

/// Putting the same key and value twice leaves the same contents and the
/// same live keys as putting them once.
pub proof fn lemma_put_twice(log: Seq<LogEvent>, first: LogEvent, second: LogEvent)
    requires
        first.kind == RecordKind::Put,
        second.kind == RecordKind::Put,
        first.key == second.key,
        first.value == second.value,
    ensures
        replay(log.push(first).push(second)).values == replay(log.push(first)).values,
        replay(log.push(first).push(second)).index.dom() == replay(log.push(first)).index.dom(),
{
    assert(log.push(first).push(second).drop_last() =~= log.push(first));
    assert(log.push(first).drop_last() =~= log);
    let once = replay(log.push(first));
    assert(once.values.insert(second.key, second.value) =~= once.values);
    assert(once.index.insert(second.key, second.entry).dom() =~= once.index.dom());
}

/// After a remove, its key is unbound, so a second remove of it finds
/// nothing.
pub proof fn lemma_remove_unbinds(log: Seq<LogEvent>, ev: LogEvent)
    requires
        ev.kind == RecordKind::Remove,
    ensures
        !replay(log.push(ev)).index.contains_key(ev.key),
        !replay(log.push(ev)).values.contains_key(ev.key),
{
    assert(log.push(ev).drop_last() =~= log);
}

/// Each put of a key that is already bound makes the record it replaces
/// dead: after `j` puts of one key, at least `j - 1` records are dead.
proof fn lemma_puts_dead_bytes(prefix: Seq<LogEvent>, puts: Seq<LogEvent>, j: int)
    requires
        1 <= j <= puts.len(),
        forall|i: int|
            0 <= i < puts.len() ==> (#[trigger] puts[i]).kind == RecordKind::Put && puts[i].key == puts[0].key
                && puts[i].entry.value_sz >= MIN_RECORD_LEN,
    ensures
        replay(prefix + puts.take(j)).dead >= replay(prefix).dead + (j - 1) * MIN_RECORD_LEN,
        replay(prefix + puts.take(j)).index.contains_key(puts[0].key),
        replay(prefix + puts.take(j)).index[puts[0].key] == puts[j - 1].entry,
        replay(prefix + puts.take(j)).values[puts[0].key] == puts[j - 1].value,
    decreases j,
{
    assert((prefix + puts.take(j)).drop_last() =~= prefix + puts.take(j - 1));
    assert((prefix + puts.take(j)).last() == puts[j - 1]);
    if j == 1 {
        assert(prefix + puts.take(0) =~= prefix);
    } else {
        lemma_puts_dead_bytes(prefix, puts, j - 1);
    }
}

/// Putting one key at least a thousand times in a row, each record being a
/// real record, makes more bytes dead than the compaction threshold, so a
/// compaction falls due; the last value put is the one bound.
pub proof fn lemma_repeated_puts_trigger_compaction(prefix: Seq<LogEvent>, puts: Seq<LogEvent>)
    requires
        puts.len() >= 1000,
        forall|i: int|
            0 <= i < puts.len() ==> (#[trigger] puts[i]).kind == RecordKind::Put && puts[i].key == puts[0].key
                && puts[i].entry.value_sz >= MIN_RECORD_LEN,
    ensures
        replay(prefix + puts).dead > TRIGGER_COMPACT_SIZE,
        replay(prefix + puts).values[puts[0].key] == puts.last().value,
{
    lemma_puts_dead_bytes(prefix, puts, puts.len() as int);
    assert(puts.take(puts.len() as int) =~= puts);
}

/// The records of `log` that name `k`, in their order.
pub open spec fn records_of(log: Seq<LogEvent>, k: Seq<char>) -> Seq<LogEvent> {
    log.filter(|e: LogEvent| e.key == k)
}

/// What a key is bound to depends only on the records that name it, in
/// their order: records of other keys, however they are interleaved with
/// them (as when clients work on disjoint keys at once), change nothing.
pub proof fn lemma_key_locality(log: Seq<LogEvent>, k: Seq<char>)
    ensures
        replay(log).values.contains_key(k) == replay(records_of(log, k)).values.contains_key(k),
        replay(log).values.contains_key(k) ==> replay(log).values[k] == replay(records_of(log, k)).values[k],
        replay(log).index.contains_key(k) == replay(records_of(log, k)).index.contains_key(k),
        replay(log).index.contains_key(k) ==> replay(log).index[k] == replay(records_of(log, k)).index[k],
    decreases log.len(),
{
    reveal(Seq::filter);
    if log.len() > 0 {
        lemma_key_locality(log.drop_last(), k);
        let f = records_of(log, k);
        if log.last().key == k {
            assert(f.drop_last() =~= records_of(log.drop_last(), k));
        } else {
            assert(f =~= records_of(log.drop_last(), k));
        }
    }
}

/// When every record that names `k` puts one of the values of `written`,
/// and there is at least one, then `k` is bound to one of them, whatever
/// the order in which the puts were made.
pub proof fn lemma_bound_to_a_written_value(log: Seq<LogEvent>, k: Seq<char>, written: Set<Seq<char>>)
    requires
        exists|i: int| 0 <= i < log.len() && (#[trigger] log[i]).key == k,
        forall|i: int|
            0 <= i < log.len() && (#[trigger] log[i]).key == k ==> log[i].kind == RecordKind::Put && written.contains(
                log[i].value,
            ),
    ensures
        replay(log).values.contains_key(k),
        written.contains(replay(log).values[k]),
    decreases log.len(),
{
    let prev = log.drop_last();
    let last = log.last();
    if last.key != k {
        let i = choose|i: int| 0 <= i < log.len() && (#[trigger] log[i]).key == k;
        assert(prev[i] == log[i]);
        assert forall|j: int| 0 <= j < prev.len() && (#[trigger] prev[j]).key == k implies prev[j].kind
            == RecordKind::Put && written.contains(prev[j].value) by {
            assert(prev[j] == log[j]);
        }
        lemma_bound_to_a_written_value(prev, k, written);
    } else {
        assert(log[log.len() - 1] == last);
    }
}

} // verus!
