//! The log-structured storage engine.
//!
//! A `KvStore` owns the bytes of its append-only command log and an
//! in-memory index from key to the byte offset of the most recent
//! `SetCmd` record for that key.  The log is the source of truth: the
//! index is a derived cache, rebuilt by replaying the log from the start
//! (`open`).  When the log grows past a byte threshold after a mutation,
//! the engine compacts it: it rewrites one `SetCmd` record per live key
//! and drops tombstones and superseded records.
//!
//! Reading and writing the log file itself is the embedding program's
//! job: it hands the log bytes to `open` and persists `log_bytes` (or the
//! appended suffix) after each mutation.

use crate::record::{
    cmd_encodable, decode_record, lemma_parse_bounds, lemma_parse_of_record,
    lemma_parse_stable, lemma_record_canonical, push_remove_record, push_set_record,
    spec_parse_record, spec_record, spec_remove_record, spec_set_record, Command, SpecCommand,
};
use vstd::prelude::*;

verus! {

/// The errors of the storage engine.
#[derive(Debug, Clone, Copy, PartialEq, Eq, Structural)]
pub enum KvError {
    /// `remove` was asked for a key that has no current value.
    KeyNotFound,
    /// A log record could not be decoded.
    CorruptLog,
    /// The surrounding program could not read or write the underlying storage.
    IoFailure,
}

// ---------------------------------------------------------------------------
// Replaying a log
// ---------------------------------------------------------------------------
/// Replay the log from byte `pos` with the index accumulated so far:
/// a `SetCmd` points its key at the record's offset, a `RemoveCmd` deletes
/// the key.  `None` means a record failed to parse (a corrupt log).
pub open spec fn spec_replay_from(
    log: Seq<u8>,
    pos: int,
    idx: Map<Seq<char>, int>,
) -> Option<Map<Seq<char>, int>>
    decreases log.len() - pos,
{
    if pos == log.len() {
        Some(idx)
    } else {
        match spec_parse_record(log, pos) {
            None => None,
            Some((cmd, end)) => match cmd {
                SpecCommand::SetCmd { key, value } => spec_replay_from(
                    log,
                    end,
                    idx.insert(key, pos),
                ),
                SpecCommand::RemoveCmd { key } => spec_replay_from(log, end, idx.remove(key)),
            },
        }
    }
}

/// The index that replaying the whole log yields, or `None` for a corrupt log.
pub open spec fn spec_replay(log: Seq<u8>) -> Option<Map<Seq<char>, int>> {
    spec_replay_from(log, 0, Map::empty())
}

/// The value of the `SetCmd` record at byte `off` of the log.
pub open spec fn spec_value_at(log: Seq<u8>, off: int) -> Seq<char> {
    match spec_parse_record(log, off) {
        Some((SpecCommand::SetCmd { key: _, value }, _)) => value,
        _ => Seq::empty(),
    }
}

/// The position just past the record at `off` (or `off` itself if none parses).
pub open spec fn rec_end(log: Seq<u8>, off: int) -> int {
    match spec_parse_record(log, off) {
        Some((_, end)) => end,
        None => off,
    }
}

/// The key-to-value mapping that a log and an index together denote.
pub open spec fn spec_log_view(log: Seq<u8>, idx: Map<Seq<char>, int>) -> Map<
    Seq<char>,
    Seq<char>,
> {
    Map::new(|k: Seq<char>| idx.contains_key(k), |k: Seq<char>| spec_value_at(log, idx[k]))
}

/// The mapping denoted by a log alone, when it replays cleanly.
pub open spec fn spec_replay_view(log: Seq<u8>) -> Map<Seq<char>, Seq<char>>
    recommends
        spec_replay(log) is Some,
{
    spec_log_view(log, spec_replay(log)->Some_0)
}

/// The log that compaction produces for keys `keys` (in index order) and
/// state `m`: one `SetCmd` record per live key, holding that key's
/// current value — no tombstones, no superseded records.
pub open spec fn spec_compacted_log(
    keys: Seq<Seq<char>>,
    m: Map<Seq<char>, Seq<char>>,
) -> Seq<u8>
    decreases keys.len(),
{
    if keys.len() == 0 {
        Seq::empty()
    } else {
        spec_compacted_log(keys.drop_last(), m) + spec_set_record(keys.last(), m[keys.last()])
    }
}

/// What `get` returns on a store in state `m`.
pub open spec fn spec_get(m: Map<Seq<char>, Seq<char>>, k: Seq<char>) -> Option<Seq<char>> {
    if m.contains_key(k) {
        Some(m[k])
    } else {
        None
    }
}

// ---------------------------------------------------------------------------
// Facts that replaying establishes about every index entry
// ---------------------------------------------------------------------------
/// The index entry `(k, off)` points at a still-valid `SetCmd` record for
/// `k` that ends at or before `pos`.
pub open spec fn idx_entry_ok(log: Seq<u8>, k: Seq<char>, off: int, pos: int) -> bool {
    &&& 0 <= off
    &&& rec_end(log, off) <= pos
    &&& spec_parse_record(log, off) matches Some((cmd, _end)) && cmd == (SpecCommand::SetCmd {
        key: k,
        value: spec_value_at(log, off),
    })
}

/// Every entry of `idx` points at a valid `SetCmd` record ending by `pos`,
/// and the records of distinct keys do not overlap.
pub open spec fn idx_ok(log: Seq<u8>, idx: Map<Seq<char>, int>, pos: int) -> bool {
    &&& forall|k: Seq<char>| #[trigger]
        idx.contains_key(k) ==> idx_entry_ok(log, k, idx[k], pos)
    &&& forall|k1: Seq<char>, k2: Seq<char>|
        #![trigger idx[k1], idx[k2]]
        idx.contains_key(k1) && idx.contains_key(k2) && k1 != k2 ==> rec_end(log, idx[k1])
            <= idx[k2] || rec_end(log, idx[k2]) <= idx[k1]
}

proof fn lemma_replay_preserves_idx_ok(
    log: Seq<u8>,
    pos: int,
    idx: Map<Seq<char>, int>,
    m: Map<Seq<char>, int>,
)
    requires
        0 <= pos <= log.len(),
        spec_replay_from(log, pos, idx) == Some(m),
        idx_ok(log, idx, pos),
    ensures
        idx_ok(log, m, log.len() as int),
    decreases log.len() - pos,
{
    if pos == log.len() {
    } else {
        match spec_parse_record(log, pos) {
            None => {
                assert(false);
            },
            Some((cmd, end)) => {
                lemma_parse_bounds(log, pos);
                match cmd {
                    SpecCommand::SetCmd { key, value } => {
                        let idx2 = idx.insert(key, pos);
                        assert(idx_ok(log, idx2, end)) by {
                            assert(idx_entry_ok(log, key, pos, end));
                            assert forall|k: Seq<char>| #[trigger]
                                idx2.contains_key(k) implies idx_entry_ok(
                                log,
                                k,
                                idx2[k],
                                end,
                            ) by {
                                if k != key {
                                    assert(idx.contains_key(k));
                                }
                            }
                        }
                        lemma_replay_preserves_idx_ok(log, end, idx2, m);
                    },
                    SpecCommand::RemoveCmd { key } => {
                        let idx2 = idx.remove(key);
                        assert(idx_ok(log, idx2, end)) by {
                            assert forall|k: Seq<char>| #[trigger]
                                idx2.contains_key(k) implies idx_entry_ok(
                                log,
                                k,
                                idx2[k],
                                end,
                            ) by {
                                assert(idx.contains_key(k));
                            }
                        }
                        lemma_replay_preserves_idx_ok(log, end, idx2, m);
                    },
                }
            },
        }
    }
}

/// Replaying an extended log first walks the records of the original log,
/// reaching the same index at the seam.
proof fn lemma_replay_extend(
    log: Seq<u8>,
    ext: Seq<u8>,
    pos: int,
    idx: Map<Seq<char>, int>,
    m: Map<Seq<char>, int>,
)
    requires
        0 <= pos <= log.len(),
        spec_replay_from(log, pos, idx) == Some(m),
    ensures
        spec_replay_from(log + ext, pos, idx) == spec_replay_from(log + ext, log.len() as int, m),
    decreases log.len() - pos,
{
    if pos == log.len() {
    } else {
        match spec_parse_record(log, pos) {
            None => {
                assert(false);
            },
            Some((cmd, end)) => {
                lemma_parse_bounds(log, pos);
                lemma_parse_stable(log, ext, pos);
                match cmd {
                    SpecCommand::SetCmd { key, value } => {
                        lemma_replay_extend(log, ext, end, idx.insert(key, pos), m);
                    },
                    SpecCommand::RemoveCmd { key } => {
                        lemma_replay_extend(log, ext, end, idx.remove(key), m);
                    },
                }
            },
        }
    }
}

/// Appending one encoded command to a clean log replays to the expected
/// one-step update of the index.
proof fn lemma_replay_append_record(log: Seq<u8>, cmd: SpecCommand, m: Map<Seq<char>, int>)
    requires
        spec_replay(log) == Some(m),
        cmd_encodable(cmd),
    ensures
        spec_replay(log + spec_record(cmd)) == Some(
            match cmd {
                SpecCommand::SetCmd { key, value } => m.insert(key, log.len() as int),
                SpecCommand::RemoveCmd { key } => m.remove(key),
            },
        ),
{
    let ext = spec_record(cmd);
    let w = log + ext;
    vstd::bytes::lemma_auto_spec_u64_to_from_le_bytes();
    assert(ext.len() >= 9);
    lemma_replay_extend(log, ext, 0, Map::empty(), m);
    assert(w.subrange(log.len() as int, (log.len() + ext.len()) as int) =~= ext);
    lemma_parse_of_record(w, log.len() as int, cmd);
    let end = (log.len() + ext.len()) as int;
    assert(w.len() == end);
    match cmd {
        SpecCommand::SetCmd { key, value } => {
            let m2 = m.insert(key, log.len() as int);
            assert(spec_replay_from(w, log.len() as int, m) == spec_replay_from(w, end, m2));
            assert(spec_replay_from(w, end, m2) == Some(m2));
        },
        SpecCommand::RemoveCmd { key } => {
            let m2 = m.remove(key);
            assert(spec_replay_from(w, log.len() as int, m) == spec_replay_from(w, end, m2));
            assert(spec_replay_from(w, end, m2) == Some(m2));
        },
    }
}

// ---------------------------------------------------------------------------
// The association list behind the in-memory index
// ---------------------------------------------------------------------------
/// The mapping that an association list of `(key, offset)` entries denotes;
/// a later entry wins, though the store keeps keys unique anyway.
pub open spec fn index_map(entries: Seq<(String, usize)>) -> Map<Seq<char>, int>
    decreases entries.len(),
{
    if entries.len() == 0 {
        Map::empty()
    } else {
        index_map(entries.drop_last()).insert(
            entries.last().0@,
            entries.last().1 as int,
        )
    }
}

/// No two entries name the same key.
pub open spec fn unique_keys(entries: Seq<(String, usize)>) -> bool {
    forall|i: int, j: int| 0 <= i < j < entries.len() ==> (#[trigger] entries[i]).0@ != (
    #[trigger] entries[j]).0@
}

proof fn lemma_index_map_domain(entries: Seq<(String, usize)>, k: Seq<char>)
    ensures
        index_map(entries).contains_key(k) <==> exists|i: int|
            0 <= i < entries.len() && (#[trigger] entries[i]).0@ == k,
    decreases entries.len(),
{
    if entries.len() == 0 {
    } else {
        lemma_index_map_domain(entries.drop_last(), k);
        if index_map(entries).contains_key(k) {
            if entries.last().0@ == k {
                assert((entries[entries.len() - 1]).0@ == k);
            } else {
                let i = choose|i: int|
                    0 <= i < entries.drop_last().len() && (#[trigger] entries.drop_last()[i]).0@
                        == k;
                assert((entries[i]).0@ == k);
            }
        }
        if exists|i: int| 0 <= i < entries.len() && (#[trigger] entries[i]).0@ == k {
            let i = choose|i: int| 0 <= i < entries.len() && (#[trigger] entries[i]).0@ == k;
            if i < entries.len() - 1 {
                assert((entries.drop_last()[i]).0@ == k);
            }
        }
    }
}

proof fn lemma_index_map_value(entries: Seq<(String, usize)>, i: int)
    requires
        unique_keys(entries),
        0 <= i < entries.len(),
    ensures
        index_map(entries).contains_key(entries[i].0@),
        index_map(entries)[entries[i].0@] == entries[i].1 as int,
    decreases entries.len(),
{
    lemma_index_map_domain(entries, entries[i].0@);
    if i == entries.len() - 1 {
    } else {
        assert(unique_keys(entries.drop_last()));
        lemma_index_map_value(entries.drop_last(), i);
        assert(entries.last().0@ != entries[i].0@);
    }
}

proof fn lemma_index_map_push_fresh(entries: Seq<(String, usize)>, key: String, off: usize)
    requires
        forall|i: int| 0 <= i < entries.len() ==> (#[trigger] entries[i]).0@ != key@,
    ensures
        index_map(entries.push((key, off))) == index_map(entries).insert(key@, off as int),
        unique_keys(entries) ==> unique_keys(entries.push((key, off))),
{
    let p = entries.push((key, off));
    assert(p.drop_last() =~= entries);
    assert(p.last() == (key, off));
    if unique_keys(entries) {
        assert forall|i: int, j: int| 0 <= i < j < p.len() implies (#[trigger] p[i]).0@ != (
        #[trigger] p[j]).0@ by {
            if j < p.len() - 1 {
                assert(entries[i] == p[i] && entries[j] == p[j]);
            } else {
                assert(p[i] == entries[i]);
            }
        }
    }
}

proof fn lemma_index_map_remove(entries: Seq<(String, usize)>, i: int)
    requires
        unique_keys(entries),
        0 <= i < entries.len(),
    ensures
        index_map(entries.remove(i)) == index_map(entries).remove(entries[i].0@),
        unique_keys(entries.remove(i)),
    decreases entries.len(),
{
    let k = entries[i].0@;
    let r = entries.remove(i);
    assert forall|a: int, b: int| 0 <= a < b < r.len() implies (#[trigger] r[a]).0@ != (
    #[trigger] r[b]).0@ by {
        let a2 = if a < i { a } else { a + 1 };
        let b2 = if b < i { b } else { b + 1 };
        assert(r[a] == entries[a2] && r[b] == entries[b2]);
    }
    if i == entries.len() - 1 {
        assert(r =~= entries.drop_last());
        lemma_index_map_domain(entries.drop_last(), k);
        assert(!index_map(entries.drop_last()).contains_key(k));
        assert(index_map(entries.remove(i)) =~= index_map(entries).remove(k));
    } else {
        let dl = entries.drop_last();
        assert(unique_keys(dl));
        lemma_index_map_remove(dl, i);
        assert(r.drop_last() =~= dl.remove(i));
        assert(r.last() == entries.last());
        assert(entries.last().0@ != k);
        assert(index_map(r) == index_map(dl.remove(i)).insert(
            entries.last().0@,
            entries.last().1 as int,
        ));
        assert(index_map(entries.remove(i)) =~= index_map(entries).remove(k));
    }
}

/// Find the position of `key` in the index, if any.
fn find_key(entries: &Vec<(String, usize)>, key: &String) -> (r: Option<usize>)
    ensures
        r matches Some(i) ==> 0 <= i < entries@.len() && entries@[i as int].0@ == key@,
        r is None ==> forall|j: int| 0 <= j < entries@.len() ==> (#[trigger] entries@[j]).0@
            != key@,
{
    let n = entries.len();
    let mut i: usize = 0;
    while i < n
        invariant
            n == entries@.len(),
            0 <= i <= n,
            forall|j: int| 0 <= j < i ==> (#[trigger] entries@[j]).0@ != key@,
        decreases n - i,
    {
        if entries[i].0 == *key {
            return Some(i);
        }
        i = i + 1;
    }
    None
}

// ---------------------------------------------------------------------------
// Sums of disjoint byte ranges (for the compaction size bound)
// ---------------------------------------------------------------------------
spec fn sum_lens(ivs: Seq<(int, int)>) -> int
    decreases ivs.len(),
{
    if ivs.len() == 0 {
        0
    } else {
        sum_lens(ivs.drop_last()) + ivs.last().1
    }
}

spec fn ivs_within(ivs: Seq<(int, int)>, bound: int) -> bool {
    forall|i: int| 0 <= i < ivs.len() ==> 0 <= (#[trigger] ivs[i]).0 && 0 <= ivs[i].1 && ivs[i].0
        + ivs[i].1 <= bound
}

spec fn ivs_disjoint(ivs: Seq<(int, int)>) -> bool {
    forall|i: int, j: int|
        #![trigger ivs[i], ivs[j]]
        0 <= i < ivs.len() && 0 <= j < ivs.len() && i != j ==> ivs[i].0 + ivs[i].1 <= ivs[j].0
            || ivs[j].0 + ivs[j].1 <= ivs[i].0
}

proof fn lemma_sum_lens_remove(ivs: Seq<(int, int)>, i: int)
    requires
        0 <= i < ivs.len(),
    ensures
        sum_lens(ivs.remove(i)) == sum_lens(ivs) - ivs[i].1,
    decreases ivs.len(),
{
    if i == ivs.len() - 1 {
        assert(ivs.remove(i) =~= ivs.drop_last());
    } else {
        let dl = ivs.drop_last();
        lemma_sum_lens_remove(dl, i);
        assert(ivs.remove(i).drop_last() =~= dl.remove(i));
        assert(ivs.remove(i).last() == ivs.last());
    }
}

spec fn is_max_start(ivs: Seq<(int, int)>, m: int) -> bool {
    &&& 0 <= m < ivs.len()
    &&& forall|j: int| 0 <= j < ivs.len() ==> (#[trigger] ivs[j]).0 <= ivs[m].0
}

proof fn lemma_argmax_start(ivs: Seq<(int, int)>)
    requires
        ivs.len() > 0,
    ensures
        exists|m: int| is_max_start(ivs, m),
    decreases ivs.len(),
{
    if ivs.len() == 1 {
        assert(is_max_start(ivs, 0));
    } else {
        let dl = ivs.drop_last();
        lemma_argmax_start(dl);
        let m = choose|m: int| is_max_start(dl, m);
        if ivs.last().0 <= ivs[m].0 {
            assert(is_max_start(ivs, m)) by {
                assert forall|j: int| 0 <= j < ivs.len() implies (#[trigger] ivs[j]).0
                    <= ivs[m].0 by {
                    if j < ivs.len() - 1 {
                        assert(dl[j] == ivs[j]);
                    }
                }
            }
        } else {
            assert(is_max_start(ivs, ivs.len() - 1)) by {
                assert forall|j: int| 0 <= j < ivs.len() implies (#[trigger] ivs[j]).0
                    <= ivs[ivs.len() - 1].0 by {
                    if j < ivs.len() - 1 {
                        assert(dl[j] == ivs[j]);
                    }
                }
            }
        }
    }
}

/// Pairwise-disjoint byte ranges inside `[0, bound)` cover at most `bound`
/// bytes in total.
proof fn lemma_disjoint_sum(ivs: Seq<(int, int)>, bound: int)
    requires
        ivs_within(ivs, bound),
        ivs_disjoint(ivs),
        0 <= bound,
    ensures
        sum_lens(ivs) <= bound,
    decreases ivs.len(),
{
    if ivs.len() == 0 {
    } else {
        lemma_argmax_start(ivs);
        let m = choose|m: int| is_max_start(ivs, m);
        let s = ivs[m].0;
        let l = ivs[m].1;
        let rest = ivs.remove(m);
        lemma_sum_lens_remove(ivs, m);
        assert forall|a: int| 0 <= a < rest.len() implies 0 <= (#[trigger] rest[a]).0 && 0
            <= rest[a].1 by {
            let a2 = if a < m { a } else { a + 1 };
            assert(rest[a] == ivs[a2]);
        }
        assert forall|a: int, b: int|
            #![trigger rest[a], rest[b]]
            0 <= a < rest.len() && 0 <= b < rest.len() && a != b implies rest[a].0 + rest[a].1
            <= rest[b].0 || rest[b].0 + rest[b].1 <= rest[a].0 by {
            let a2 = if a < m { a } else { a + 1 };
            let b2 = if b < m { b } else { b + 1 };
            assert(rest[a] == ivs[a2] && rest[b] == ivs[b2]);
        }
        if l == 0 {
            lemma_disjoint_sum(rest, bound);
        } else {
            assert forall|a: int| 0 <= a < rest.len() implies (#[trigger] rest[a]).0 + rest[a].1
                <= s by {
                let a2 = if a < m { a } else { a + 1 };
                assert(rest[a] == ivs[a2]);
                assert(ivs[a2].0 <= s);
            }
            lemma_disjoint_sum(rest, s);
        }
    }
}

// ---------------------------------------------------------------------------
// The engine
// ---------------------------------------------------------------------------
/// The log-structured storage engine: log bytes, key index, and the byte
/// threshold past which a mutation triggers compaction.
pub struct KvStore {
    log: Vec<u8>,
    index: Vec<(String, usize)>,
    threshold: usize,
    compactions: u64,
}

impl View for KvStore {
    type V = Map<Seq<char>, Seq<char>>;

    closed spec fn view(&self) -> Map<Seq<char>, Seq<char>> {
        spec_log_view(self.log@, index_map(self.index@))
    }
}

impl KvStore {
    /// The bytes of the command log.
    pub closed spec fn spec_log(&self) -> Seq<u8> {
        self.log@
    }

    /// The compaction threshold, in bytes.
    pub closed spec fn spec_threshold(&self) -> usize {
        self.threshold
    }

    /// How often the log has been compacted.  While this stays put, the
    /// log only grows by appending, so the embedding program can persist
    /// just the new suffix; when it moves, the log was rewritten wholesale.
    pub closed spec fn spec_compactions(&self) -> u64 {
        self.compactions
    }

    /// The keys that currently have a value, in the index's order.
    pub closed spec fn spec_keys(&self) -> Seq<Seq<char>> {
        Seq::new(self.index@.len(), |i: int| self.index@[i].0@)
    }

    /// The store is well formed: its index keys are unique and replaying
    /// its log yields exactly its index.
    pub closed spec fn wf(&self) -> bool {
        &&& unique_keys(self.index@)
        &&& spec_replay(self.log@) == Some(index_map(self.index@))
    }

    proof fn lemma_wf_idx_ok(&self)
        requires
            self.wf(),
        ensures
            idx_ok(self.log@, index_map(self.index@), self.log@.len() as int),
    {
        lemma_replay_preserves_idx_ok(
            self.log@,
            0,
            Map::empty(),
            index_map(self.index@),
        );
    }

    /// A fresh, empty store.
    pub fn new(threshold: usize) -> (r: KvStore)
        ensures
            r.wf(),
            r@ == Map::<Seq<char>, Seq<char>>::empty(),
            r.spec_log() == Seq::<u8>::empty(),
            r.spec_threshold() == threshold,
            r.spec_compactions() == 0,
    {
        let r = KvStore { log: Vec::new(), index: Vec::new(), threshold, compactions: 0 };
        proof {
            assert(index_map(r.index@) =~= Map::<Seq<char>, int>::empty());
            assert(r@ =~= Map::<Seq<char>, Seq<char>>::empty());
        }
        r
    }

    /// Open a store from the bytes of an existing command log, replaying
    /// them to rebuild the index.  Fails with `CorruptLog` exactly when some
    /// record cannot be decoded.
    pub fn open(log: Vec<u8>, threshold: usize) -> (r: Result<KvStore, KvError>)
        ensures
            r matches Ok(st) ==> st.wf() && st.spec_log() == log@ && st.spec_threshold()
                == threshold && st.spec_compactions() == 0 && spec_replay(log@) is Some && st@
                == spec_replay_view(log@),
            r matches Err(e) ==> e == KvError::CorruptLog && spec_replay(log@) is None,
    {
        let mut index: Vec<(String, usize)> = Vec::new();
        let mut pos: usize = 0;
        proof {
            assert(index_map(index@) =~= Map::<Seq<char>, int>::empty());
        }
        while pos < log.len()
            invariant
                pos <= log@.len(),
                unique_keys(index@),
                spec_replay(log@) == spec_replay_from(log@, pos as int, index_map(index@)),
            decreases log@.len() - pos,
        {
            match decode_record(&log, pos) {
                None => {
                    return Err(KvError::CorruptLog);
                },
                Some((cmd, end)) => {
                    proof {
                        lemma_parse_bounds(log@, pos as int);
                    }
                    match cmd {
                        Command::SetCmd { key, value } => {
                            let old_pos = pos;
                            pos = end;
                            match find_key(&index, &key) {
                                Some(i) => {
                                    proof {
                                        lemma_index_map_remove(index@, i as int);
                                    }
                                    let ghost pre = index@;
                                    let _ = index.remove(i);
                                    proof {
                                        assert forall|j: int|
                                            0 <= j < index@.len() implies (
                                        #[trigger] index@[j]).0@ != key@ by {
                                            let j2 = if j < i as int {
                                                j
                                            } else {
                                                j + 1
                                            };
                                            assert(index@[j] == pre[j2]);
                                            assert(pre[i as int].0@ == key@);
                                        }
                                        lemma_index_map_push_fresh(index@, key, old_pos);
                                    }
                                    index.push((key, old_pos));
                                    proof {
                                        assert(index_map(index@) =~= index_map(pre).insert(
                                            key@,
                                            old_pos as int,
                                        ));
                                    }
                                },
                                None => {
                                    proof {
                                        lemma_index_map_push_fresh(index@, key, old_pos);
                                    }
                                    index.push((key, old_pos));
                                },
                            }
                        },
                        Command::RemoveCmd { key } => {
                            let old_pos = pos;
                            pos = end;
                            match find_key(&index, &key) {
                                Some(i) => {
                                    proof {
                                        lemma_index_map_remove(index@, i as int);
                                    }
                                    let _ = index.remove(i);
                                },
                                None => {
                                    proof {
                                        lemma_index_map_domain(index@, key@);
                                        assert(index_map(index@) =~= index_map(index@).remove(
                                            key@,
                                        ));
                                    }
                                },
                            }
                        },
                    }
                },
            }
        }
        Ok(KvStore { log, index, threshold, compactions: 0 })
    }

    /// Look a key up.  Never writes; returns the key's current value or
    /// `None` when the key has none.
    pub fn get(&self, key: String) -> (r: Result<Option<String>, KvError>)
        requires
            self.wf(),
        ensures
            r is Ok,
            r matches Ok(v) ==> match v {
                Some(s) => spec_get(self@, key@) == Some(s@),
                None => spec_get(self@, key@) is None,
            },
    {
        match find_key(&self.index, &key) {
            None => {
                proof {
                    lemma_index_map_domain(self.index@, key@);
                }
                Ok(None)
            },
            Some(i) => {
                let off = self.index[i].1;
                proof {
                    self.lemma_wf_idx_ok();
                    lemma_index_map_value(self.index@, i as int);
                    assert(index_map(self.index@).contains_key(key@));
                }
                match decode_record(&self.log, off) {
                    Some((Command::SetCmd { key: _k2, value }, _end)) => {
                        Ok(Some(value))
                    },
                    _ => {
                        proof {
                            assert(false);
                        }
                        Err(KvError::CorruptLog)
                    },
                }
            },
        }
    }

    /// Bind `key` to `value`: append a `SetCmd` record, point the index at
    /// it, and compact if the log has outgrown the threshold.
    pub fn set(&mut self, key: String, value: String) -> (r: Result<(), KvError>)
        requires
            old(self).wf(),
        ensures
            r is Ok,
            final(self).wf(),
            final(self)@ == old(self)@.insert(key@, value@),
            final(self).spec_threshold() == old(self).spec_threshold(),
            final(self).spec_compactions() == old(self).spec_compactions()
                ==> final(self).spec_log() == old(self).spec_log() + spec_set_record(
                key@,
                value@,
            ),
            final(self).spec_log().len() <= old(self).spec_log().len() + spec_set_record(
                key@,
                value@,
            ).len(),
            final(self).spec_compactions() == old(self).spec_compactions()
                <==> old(self).spec_log().len() + spec_set_record(key@, value@).len()
                <= old(self).spec_threshold(),
            final(self).spec_compactions() != old(self).spec_compactions()
                ==> final(self).spec_log() == spec_compacted_log(
                final(self).spec_keys(),
                final(self)@,
            ),
    {
        let ghost old_log = self.log@;
        let ghost old_im = index_map(self.index@);
        let ghost cmd = SpecCommand::SetCmd { key: key@, value: value@ };
        proof {
            self.lemma_wf_idx_ok();
        }
        let off = self.log.len();
        push_set_record(&mut self.log, &key, &value);
        proof {
            lemma_replay_append_record(old_log, cmd, old_im);
        }
        match find_key(&self.index, &key) {
            Some(i) => {
                proof {
                    lemma_index_map_remove(self.index@, i as int);
                }
                let ghost pre = self.index@;
                let _ = self.index.remove(i);
                proof {
                    assert forall|j: int| 0 <= j < self.index@.len() implies (
                    #[trigger] self.index@[j]).0@ != key@ by {
                        let j2 = if j < i as int {
                            j
                        } else {
                            j + 1
                        };
                        assert(self.index@[j] == pre[j2]);
                        assert(pre[i as int].0@ == key@);
                    }
                    lemma_index_map_push_fresh(self.index@, key, off);
                }
                self.index.push((key, off));
                proof {
                    assert(index_map(self.index@) =~= old_im.insert(key@, off as int));
                }
            },
            None => {
                proof {
                    lemma_index_map_push_fresh(self.index@, key, off);
                }
                self.index.push((key, off));
            },
        }
        proof {
            self.lemma_set_view(old_log, old_im, cmd, off as int);
        }
        if self.log.len() > self.threshold {
            self.compact();
        }
        Ok(())
    }

    proof fn lemma_set_view(
        &self,
        old_log: Seq<u8>,
        old_im: Map<Seq<char>, int>,
        cmd: SpecCommand,
        off: int,
    )
        requires
            cmd matches SpecCommand::SetCmd { key, value },
            cmd_encodable(cmd),
            idx_ok(old_log, old_im, old_log.len() as int),
            off == old_log.len(),
            self.log@ == old_log + spec_record(cmd),
            index_map(self.index@) == old_im.insert(cmd->SetCmd_key, off),
            unique_keys(self.index@),
            spec_replay(self.log@) == Some(index_map(self.index@)),
        ensures
            self.wf(),
            self@ == spec_log_view(old_log, old_im).insert(cmd->SetCmd_key, cmd->SetCmd_value),
    {
        let key = cmd->SetCmd_key;
        let value = cmd->SetCmd_value;
        let im2 = old_im.insert(key, off);
        assert(self.log@.subrange(off, off + spec_record(cmd).len()) =~= spec_record(cmd));
        lemma_parse_of_record(self.log@, off, cmd);
        assert(spec_value_at(self.log@, off) == value);
        assert forall|k: Seq<char>| #[trigger]
            old_im.contains_key(k) && k != key implies spec_value_at(self.log@, old_im[k])
            == spec_value_at(old_log, old_im[k]) by {
            assert(idx_entry_ok(old_log, k, old_im[k], old_log.len() as int));
            lemma_parse_stable(old_log, spec_record(cmd), old_im[k]);
        }
        assert(self@ =~= spec_log_view(old_log, old_im).insert(key, value));
    }

    /// Delete `key`: fails with `KeyNotFound` when the key has no current
    /// value; otherwise appends a tombstone, drops the index entry, and
    /// compacts if the log has outgrown the threshold.
    pub fn remove(&mut self, key: String) -> (r: Result<(), KvError>)
        requires
            old(self).wf(),
        ensures
            final(self).wf(),
            final(self).spec_threshold() == old(self).spec_threshold(),
            old(self)@.contains_key(key@) ==> r is Ok && final(self)@ == old(self)@.remove(key@),
            !old(self)@.contains_key(key@) ==> r == Err::<(), KvError>(KvError::KeyNotFound)
                && *final(self) == *old(self),
            r is Ok && final(self).spec_compactions() == old(self).spec_compactions()
                ==> final(self).spec_log() == old(self).spec_log() + spec_remove_record(key@),
            final(self).spec_log().len() <= old(self).spec_log().len() + spec_remove_record(
                key@,
            ).len(),
            old(self)@.contains_key(key@) ==> (final(self).spec_compactions()
                == old(self).spec_compactions() <==> old(self).spec_log().len()
                + spec_remove_record(key@).len() <= old(self).spec_threshold()),
            final(self).spec_compactions() != old(self).spec_compactions()
                ==> final(self).spec_log() == spec_compacted_log(
                final(self).spec_keys(),
                final(self)@,
            ),
    {
        let ghost old_log = self.log@;
        let ghost old_im = index_map(self.index@);
        let ghost cmd = SpecCommand::RemoveCmd { key: key@ };
        proof {
            self.lemma_wf_idx_ok();
        }
        match find_key(&self.index, &key) {
            None => {
                proof {
                    lemma_index_map_domain(self.index@, key@);
                }
                Err(KvError::KeyNotFound)
            },
            Some(i) => {
                proof {
                    lemma_index_map_value(self.index@, i as int);
                }
                push_remove_record(&mut self.log, &key);
                proof {
                    lemma_replay_append_record(old_log, cmd, old_im);
                }
                proof {
                    lemma_index_map_remove(self.index@, i as int);
                }
                let _ = self.index.remove(i);
                proof {
                    assert forall|k: Seq<char>| #[trigger]
                        old_im.contains_key(k) && k != key@ implies spec_value_at(
                        self.log@,
                        old_im[k],
                    ) == spec_value_at(old_log, old_im[k]) by {
                        assert(idx_entry_ok(old_log, k, old_im[k], old_log.len() as int));
                        lemma_parse_stable(old_log, spec_record(cmd), old_im[k]);
                    }
                    assert(self@ =~= spec_log_view(old_log, old_im).remove(key@));
                }
                if self.log.len() > self.threshold {
                    self.compact();
                }
                Ok(())
            },
        }
    }

    /// Rewrite the log to one `SetCmd` record per live key, in index order.
    /// Compaction preserves every key's value and never grows the log.
    #[verifier::rlimit(100)]
    fn compact(&mut self)
        requires
            old(self).wf(),
        ensures
            final(self).wf(),
            final(self)@ == old(self)@,
            final(self).spec_log().len() <= old(self).spec_log().len(),
            final(self).spec_threshold() == old(self).spec_threshold(),
            final(self).spec_compactions() != old(self).spec_compactions(),
            final(self).spec_log() == spec_compacted_log(final(self).spec_keys(), final(self)@),
    {
        proof {
            self.lemma_wf_idx_ok();
        }
        let ghost old_log = self.log@;
        let ghost old_entries = self.index@;
        let ghost old_im = index_map(old_entries);
        let ghost old_view = spec_log_view(old_log, old_im);
        let ghost keys_all = Seq::new(old_entries.len(), |j: int| old_entries[j].0@);
        let ghost ivs = Seq::new(
            old_entries.len(),
            |j: int|
                (
                    old_entries[j].1 as int,
                    rec_end(old_log, old_entries[j].1 as int) - old_entries[j].1,
                ),
        );
        let mut new_log: Vec<u8> = Vec::new();
        let mut new_index: Vec<(String, usize)> = Vec::new();
        let n = self.index.len();
        let mut i: usize = 0;
        proof {
            assert(index_map(new_index@) =~= Map::<Seq<char>, int>::empty());
            assert(ivs.take(0) =~= Seq::<(int, int)>::empty());
            assert(keys_all.take(0) =~= Seq::<Seq<char>>::empty());
            assert forall|j: int| 0 <= j < old_entries.len() implies idx_entry_ok(
                old_log,
                old_entries[j].0@,
                old_entries[j].1 as int,
                old_log.len() as int,
            ) by {
                lemma_index_map_value(old_entries, j);
            }
        }
        while i < n
            invariant
                0 <= i <= n,
                n == old_entries.len(),
                self.log@ == old_log,
                self.index@ == old_entries,
                unique_keys(old_entries),
                idx_ok(old_log, old_im, old_log.len() as int),
                forall|j: int| 0 <= j < old_entries.len() ==> idx_entry_ok(
                    old_log,
                    (#[trigger] old_entries[j]).0@,
                    old_entries[j].1 as int,
                    old_log.len() as int,
                ),
                ivs == Seq::new(
                    old_entries.len(),
                    |j: int|
                        (
                            old_entries[j].1 as int,
                            rec_end(old_log, old_entries[j].1 as int) - old_entries[j].1,
                        ),
                ),
                new_index@.len() == i,
                forall|j: int| 0 <= j < i ==> (#[trigger] new_index@[j]).0@ == old_entries[j].0@,
                unique_keys(new_index@),
                spec_replay(new_log@) == Some(index_map(new_index@)),
                forall|j: int| 0 <= j < i ==> idx_entry_ok(
                    new_log@,
                    (#[trigger] new_index@[j]).0@,
                    new_index@[j].1 as int,
                    new_log@.len() as int,
                ),
                forall|j: int| 0 <= j < i ==> spec_value_at(
                    new_log@,
                    (#[trigger] new_index@[j]).1 as int,
                ) == spec_value_at(old_log, old_entries[j].1 as int),
                new_log@.len() == sum_lens(ivs.take(i as int)),
                old_im == index_map(old_entries),
                keys_all == Seq::new(old_entries.len(), |j: int| old_entries[j].0@),
                old_view == spec_log_view(old_log, old_im),
                new_log@ == spec_compacted_log(keys_all.take(i as int), old_view),
            decreases n - i,
        {
            let off = self.index[i].1;
            proof {
                lemma_index_map_value(old_entries, i as int);
                assert(idx_entry_ok(old_log, old_entries[i as int].0@, off as int,
                    old_log.len() as int));
            }
            match decode_record(&self.log, off) {
                Some((Command::SetCmd { key, value }, _end)) => {
                    let newoff = new_log.len();
                    let ghost pre_log = new_log@;
                    let ghost pre_index = new_index@;
                    let ghost cmd = SpecCommand::SetCmd { key: key@, value: value@ };
                    push_set_record(&mut new_log, &key, &value);
                    proof {
                        lemma_replay_append_record(pre_log, cmd, index_map(pre_index));
                        assert forall|j: int| 0 <= j < i implies (
                        #[trigger] pre_index[j]).0@ != key@ by {
                            assert(pre_index[j].0@ == old_entries[j].0@);
                            assert(old_entries[j].0@ != old_entries[i as int].0@);
                        }
                        lemma_index_map_push_fresh(pre_index, key, newoff);
                    }
                    new_index.push((key, newoff));
                    proof {
                        // the new record parses at its offset
                        assert(new_log@.subrange(
                            newoff as int,
                            newoff + spec_record(cmd).len(),
                        ) =~= spec_record(cmd));
                        lemma_parse_of_record(new_log@, newoff as int, cmd);
                        // earlier records are untouched
                        assert forall|j: int| 0 <= j < i implies idx_entry_ok(
                            new_log@,
                            (#[trigger] new_index@[j]).0@,
                            new_index@[j].1 as int,
                            new_log@.len() as int,
                        ) && spec_value_at(new_log@, new_index@[j].1 as int) == spec_value_at(
                            old_log,
                            old_entries[j].1 as int,
                        ) by {
                            assert(new_index@[j] == pre_index[j]);
                            assert(idx_entry_ok(pre_log, pre_index[j].0@,
                                pre_index[j].1 as int, pre_log.len() as int));
                            lemma_parse_stable(pre_log, spec_record(cmd),
                                pre_index[j].1 as int);
                        }
                        // the old record at `off` equals the bytes just written
                        lemma_record_canonical(old_log, off as int);
                        assert(spec_value_at(new_log@, newoff as int) == spec_value_at(
                            old_log,
                            off as int,
                        ));
                        // byte accounting
                        assert(spec_record(cmd).len() == rec_end(old_log, off as int)
                            - off);
                        assert(ivs.take(i + 1).drop_last() =~= ivs.take(i as int));
                        assert(new_log@.len() == sum_lens(ivs.take(i + 1)));
                        // the record written is the compacted form's next piece
                        assert(key@ == old_entries[i as int].0@);
                        assert(value@ == spec_value_at(old_log, off as int));
                        lemma_index_map_value(old_entries, i as int);
                        assert(off == old_entries[i as int].1);
                        assert(old_im.contains_key(old_entries[i as int].0@));
                        assert(old_im[old_entries[i as int].0@] == off as int);
                        assert(keys_all[i as int] == old_entries[i as int].0@);
                        assert(old_view[keys_all[i as int]] == spec_value_at(
                            old_log,
                            off as int,
                        ));
                        assert(keys_all.take(i as int + 1).drop_last() =~= keys_all.take(
                            i as int,
                        ));
                        assert(keys_all.take(i as int + 1).last() == keys_all[i as int]);
                        assert(new_log@ == spec_compacted_log(
                            keys_all.take(i as int + 1),
                            old_view,
                        ));
                    }
                },
                _ => {
                    proof {
                        assert(false);
                    }
                },
            }
            i = i + 1;
        }
        proof {
            // total size: the old records were pairwise disjoint in the old log
            assert(ivs.take(n as int) =~= ivs);
            assert(ivs_within(ivs, old_log.len() as int)) by {
                assert forall|j: int| 0 <= j < ivs.len() implies 0 <= (#[trigger] ivs[j]).0 && 0
                    <= ivs[j].1 && ivs[j].0 + ivs[j].1 <= old_log.len() by {
                    assert(idx_entry_ok(old_log, old_entries[j].0@, old_entries[j].1 as int,
                        old_log.len() as int));
                    lemma_parse_bounds(old_log, old_entries[j].1 as int);
                }
            }
            assert(ivs_disjoint(ivs)) by {
                assert forall|a: int, b: int|
                    #![trigger ivs[a], ivs[b]]
                    0 <= a < ivs.len() && 0 <= b < ivs.len() && a != b implies ivs[a].0 + ivs[a].1
                    <= ivs[b].0 || ivs[b].0 + ivs[b].1 <= ivs[a].0 by {
                    lemma_index_map_value(old_entries, a);
                    lemma_index_map_value(old_entries, b);
                    assert(old_entries[a].0@ != old_entries[b].0@);
                }
            }
            lemma_disjoint_sum(ivs, old_log.len() as int);
        }
        self.log = new_log;
        self.index = new_index;
        self.compactions = self.compactions.wrapping_add(1);
        proof {
            // same keys, same values: the view is unchanged
            assert forall|k: Seq<char>|
                index_map(self.index@).contains_key(k) <==> #[trigger] old_im.contains_key(
                k,
            ) by {
                lemma_index_map_domain(self.index@, k);
                lemma_index_map_domain(old_entries, k);
                assert forall|j: int| 0 <= j < old_entries.len() implies (
                #[trigger] old_entries[j]).0@ == self.index@[j].0@ by {}
            }
            assert forall|k: Seq<char>| #[trigger] old_im.contains_key(k) implies spec_value_at(
                self.log@,
                index_map(self.index@)[k],
            ) == spec_value_at(old_log, old_im[k]) by {
                lemma_index_map_domain(old_entries, k);
                let j = choose|j: int|
                    0 <= j < old_entries.len() && (#[trigger] old_entries[j]).0@ == k;
                lemma_index_map_value(old_entries, j);
                lemma_index_map_value(self.index@, j);
            }
            assert(self@ =~= spec_log_view(old_log, old_im));
            // the new log is exactly the compacted form of the (unchanged)
            // state over the (unchanged) key order
            assert(keys_all.take(n as int) =~= keys_all);
            assert(self.spec_keys() =~= keys_all);
            assert(self.log@ == spec_compacted_log(self.spec_keys(), self@));
        }
    }

    /// The bytes of the command log, for the embedding program to persist.
    pub fn log_bytes(&self) -> (r: &Vec<u8>)
        ensures
            r@ == self.spec_log(),
    {
        &self.log
    }

    /// How often the log has been compacted since this store was opened.
    /// While two readings agree, everything written in between only
    /// appended to the log.
    pub fn compaction_count(&self) -> (r: u64)
        ensures
            r == self.spec_compactions(),
    {
        self.compactions
    }

    /// The current size of the command log in bytes.
    pub fn log_size(&self) -> (r: usize)
        ensures
            r == self.spec_log().len(),
    {
        self.log.len()
    }

    /// The number of keys that currently have a value.
    pub closed spec fn spec_key_count(&self) -> nat {
        self.index@.len()
    }

    /// The number of keys that currently have a value.
    pub fn key_count(&self) -> (r: usize)
        ensures
            r == self.spec_key_count(),
    {
        self.index.len()
    }
}

// ---------------------------------------------------------------------------
// Laws
// ---------------------------------------------------------------------------
/// Law: after `set(k, v)`, a `get(k)` returns `Some(v)` — binding `k` and
/// then reading it yields exactly the bound value.
pub proof fn lemma_set_then_get(m: Map<Seq<char>, Seq<char>>, k: Seq<char>, v: Seq<char>)
    ensures
        spec_get(m.insert(k, v), k) == Some(v),
{
}

/// Law: a `remove(k)` with no prior `set(k, _)` fails with `KeyNotFound`
/// (the `ensures` of `remove`), and a `get(k)` afterwards still returns
/// `None`: the failed removal changes nothing.
pub proof fn lemma_remove_absent_get_none(m: Map<Seq<char>, Seq<char>>, k: Seq<char>)
    requires
        !m.contains_key(k),
    ensures
        spec_get(m, k) is None,
{
}

/// Law: reading is idempotent — any two `get(k)` results computed from the
/// same store state are equal, so repeated reads without an intervening
/// mutation agree.
pub proof fn lemma_get_idempotent(
    m: Map<Seq<char>, Seq<char>>,
    k: Seq<char>,
    r1: Option<Seq<char>>,
    r2: Option<Seq<char>>,
)
    requires
        r1 == spec_get(m, k),
        r2 == spec_get(m, k),
    ensures
        r1 == r2,
{
}

/// Law: the key order `spec_keys` names exactly the keys that currently
/// have a value, each exactly once.  Together with the `spec_compacted_log`
/// clauses of `set` and `remove`, this pins the compacted log down to one
/// record per live key, in index order, with no tombstone and no
/// superseded record.
pub proof fn lemma_keys_match_state(s: KvStore)
    requires
        s.wf(),
    ensures
        s.spec_keys().no_duplicates(),
        forall|k: Seq<char>| #[trigger] s@.contains_key(k) <==> #[trigger] s.spec_keys().contains(
            k,
        ),
{
    assert forall|i: int, j: int|
        0 <= i < s.spec_keys().len() && 0 <= j < s.spec_keys().len() && i
            != j implies s.spec_keys()[i] != s.spec_keys()[j] by {
        if i < j {
            assert((s.index@[i]).0@ != (s.index@[j]).0@);
        } else {
            assert((s.index@[j]).0@ != (s.index@[i]).0@);
        }
    }
    assert forall|k: Seq<char>| #[trigger] s@.contains_key(k) implies s.spec_keys().contains(
        k,
    ) by {
        lemma_index_map_domain(s.index@, k);
        let i = choose|i: int| 0 <= i < s.index@.len() && (#[trigger] s.index@[i]).0@ == k;
        assert(s.spec_keys()[i] == k);
    }
    assert forall|k: Seq<char>| #[trigger] s.spec_keys().contains(k) implies s@.contains_key(
        k,
    ) by {
        let i = choose|i: int| 0 <= i < s.spec_keys().len() && s.spec_keys()[i] == k;
        assert((s.index@[i]).0@ == k);
        lemma_index_map_domain(s.index@, k);
    }
}

/// Law (round trip across reopen): the log of a well-formed store replays
/// cleanly, and a store reopened from those bytes has exactly the same
/// key-to-value state, hence identical `get` results for every key.
pub proof fn lemma_reopen_round_trip(s: KvStore)
    requires
        s.wf(),
    ensures
        spec_replay(s.spec_log()) is Some,
        spec_replay_view(s.spec_log()) == s@,
{
}

} // verus!
