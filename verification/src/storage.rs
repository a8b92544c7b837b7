//! The storage facade the consensus engine drives: the replicated command
//! log, the installed snapshot with its chunk-reassembly buffer, and the
//! per-term voting record. Everything lives in memory; `save_log` is the
//! durability hook and does nothing here.

use vstd::prelude::*;

use crate::state_machine::{
    clone_state_machine, dec_state, enc_state, state_fits, KvStateMachine, SetValueCommand,
};

verus! {

/// What one log entry carries.
pub enum LogEntryType {
    /// A client command for the application state machine.
    Command(SetValueCommand),
    /// A cluster-configuration change, carried as bytes this store never
    /// interprets.
    Config(Vec<u8>),
}

/// One record of the replicated command sequence. Its position in the log is
/// its index; entries are immutable once appended and leave only by
/// truncation.
pub struct LogEntry {
    pub term: u32,
    pub entry_type: LogEntryType,
}

pub open spec fn is_config_entry(e: LogEntry) -> bool {
    e.entry_type is Config
}

/// The abstract state of the store: the log as a sequence, the two byte
/// buffers as byte sequences, and the scalars as themselves.
pub ghost struct StorageView {
    pub log: Seq<LogEntry>,
    pub current_term: u32,
    pub voted_for: Option<u32>,
    pub snapshot_bytes: Seq<u8>,
    pub snapshot_last_index: u32,
    pub snapshot_last_term: u32,
    pub chunk_bytes: Seq<u8>,
    pub init_state: Seq<(Seq<char>, Seq<char>)>,
}

/// The log after dropping the prefix `[0, index)`.
pub open spec fn log_after_prefix_removal(log: Seq<LogEntry>, index: int) -> Seq<LogEntry>
    recommends
        0 <= index <= log.len(),
{
    log.subrange(index, log.len() as int)
}

/// The log after dropping the suffix `[index, end)`; an index at or past the
/// end removes nothing.
pub open spec fn log_after_suffix_removal(log: Seq<LogEntry>, index: int) -> Seq<LogEntry>
    recommends
        0 <= index,
{
    if index >= log.len() {
        log
    } else {
        log.take(index)
    }
}

/// One mutation of the log: what `add_log_entry`,
/// `remove_log_entries_before` and `remove_log_entries_starting_at` do to the
/// stored sequence.
pub ghost enum LogOp {
    Append(LogEntry),
    RemoveBefore(int),
    RemoveStartingAt(int),
}

/// The bounds each mutation asks of its caller.
pub open spec fn log_op_allowed(log: Seq<LogEntry>, op: LogOp) -> bool {
    match op {
        LogOp::Append(_) => true,
        LogOp::RemoveBefore(i) => 0 <= i <= log.len(),
        LogOp::RemoveStartingAt(i) => 0 <= i,
    }
}

pub open spec fn apply_log_op(log: Seq<LogEntry>, op: LogOp) -> Seq<LogEntry> {
    match op {
        LogOp::Append(e) => log.push(e),
        LogOp::RemoveBefore(i) => log_after_prefix_removal(log, i),
        LogOp::RemoveStartingAt(i) => log_after_suffix_removal(log, i),
    }
}

/// Log contiguity: every mutation leaves a dense sequence — its length counts
/// exactly the entries not removed, and every position below the length holds
/// the surviving entry it should, in the old order. So after any sequence of
/// mutations, `log_entry` answers for precisely the positions below
/// `num_log_entries`.
pub proof fn lemma_log_contiguity(log: Seq<LogEntry>, op: LogOp)
    requires
        log_op_allowed(log, op),
    ensures
        match op {
            LogOp::Append(e) => {
                let l = apply_log_op(log, op);
                &&& l.len() == log.len() + 1
                &&& l[log.len() as int] == e
                &&& forall|j: int| 0 <= j < log.len() ==> l[j] == log[j]
            },
            LogOp::RemoveBefore(i) => {
                let l = apply_log_op(log, op);
                &&& l.len() == log.len() - i
                &&& forall|j: int| 0 <= j < l.len() ==> l[j] == log[i + j]
            },
            LogOp::RemoveStartingAt(i) => {
                let l = apply_log_op(log, op);
                &&& l.len() == (if i >= log.len() {
                    log.len() as int
                } else {
                    i
                })
                &&& forall|j: int| 0 <= j < l.len() ==> l[j] == log[j]
            },
        },
{
}

/// Dropping the empty prefix changes nothing.
pub proof fn lemma_prefix_removal_at_zero_is_noop(log: Seq<LogEntry>)
    ensures
        log_after_prefix_removal(log, 0) == log,
{
    assert(log_after_prefix_removal(log, 0) =~= log);
}

/// Dropping the suffix that starts at the log's length changes nothing.
pub proof fn lemma_suffix_removal_at_len_is_noop(log: Seq<LogEntry>)
    ensures
        log_after_suffix_removal(log, log.len() as int) == log,
{
}

/// The chunk buffer after writing `data` at `offset`: it grows to at least
/// `offset + data.len()`, a gap before `offset` is zero-filled, and the
/// written range takes `data`'s bytes, last write winning.
pub open spec fn write_chunk(buf: Seq<u8>, offset: int, data: Seq<u8>) -> Seq<u8>
    recommends
        0 <= offset,
{
    let end = offset + data.len();
    let newlen = if buf.len() >= end {
        buf.len() as int
    } else {
        end
    };
    Seq::new(
        newlen as nat,
        |i: int|
            if offset <= i < end {
                data[i - offset]
            } else if i < buf.len() {
                buf[i]
            } else {
                0u8
            },
    )
}

/// One network chunk of a snapshot transfer: a byte range at an absolute
/// offset.
pub ghost struct Chunk {
    pub offset: int,
    pub data: Seq<u8>,
}

pub open spec fn chunk_end(c: Chunk) -> int {
    c.offset + c.data.len()
}

/// The chunk carries exactly the bytes of `master` at its range.
pub open spec fn chunk_from(master: Seq<u8>, c: Chunk) -> bool {
    0 <= c.offset && chunk_end(c) <= master.len() && c.data == master.subrange(
        c.offset,
        chunk_end(c),
    )
}

pub open spec fn chunks_from(master: Seq<u8>, cs: Seq<Chunk>) -> bool {
    forall|j: int| 0 <= j < cs.len() ==> chunk_from(master, #[trigger] cs[j])
}

/// Some chunk of the sequence covers position `i`.
pub open spec fn covered(cs: Seq<Chunk>, i: int) -> bool {
    exists|j: int| 0 <= j < cs.len() && (#[trigger] cs[j]).offset <= i < chunk_end(cs[j])
}

/// The largest end offset any chunk reaches, or 0 with no chunks.
pub open spec fn chunks_end(cs: Seq<Chunk>) -> int
    decreases cs.len(),
{
    if cs.len() == 0 {
        0
    } else {
        let rest = chunks_end(cs.drop_first());
        if chunk_end(cs[0]) >= rest {
            chunk_end(cs[0])
        } else {
            rest
        }
    }
}

/// The buffer after delivering the chunks one at a time, in order.
pub open spec fn apply_chunks(buf: Seq<u8>, cs: Seq<Chunk>) -> Seq<u8>
    decreases cs.len(),
{
    if cs.len() == 0 {
        buf
    } else {
        apply_chunks(write_chunk(buf, cs[0].offset, cs[0].data), cs.drop_first())
    }
}

/// A chunk written right at the buffer's end extends it with the chunk's
/// bytes: delivering consecutive chunks in order concatenates them, so a
/// transfer's first chunks alone leave exactly a strict prefix of the
/// encoded snapshot in the buffer.
pub proof fn lemma_write_chunk_appends(buf: Seq<u8>, data: Seq<u8>)
    ensures
        write_chunk(buf, buf.len() as int, data) == buf + data,
{
    assert(write_chunk(buf, buf.len() as int, data) =~= buf + data);
}

/// What a delivered chunk sequence leaves in the buffer, position by
/// position: a covered position holds the master's byte, an uncovered one
/// keeps what the starting buffer had, or zero beyond it.
proof fn lemma_apply_chunks_characterized(master: Seq<u8>, buf: Seq<u8>, cs: Seq<Chunk>)
    requires
        chunks_from(master, cs),
        buf.len() <= master.len(),
    ensures
        apply_chunks(buf, cs).len() == vstd::math::max(buf.len() as int, chunks_end(cs)),
        forall|i: int|
            0 <= i < apply_chunks(buf, cs).len() ==> #[trigger] apply_chunks(buf, cs)[i] == (
            if covered(cs, i) {
                master[i]
            } else if i < buf.len() {
                buf[i]
            } else {
                0u8
            }),
    decreases cs.len(),
{
    if cs.len() == 0 {
    } else {
        let c0 = cs[0];
        let rest = cs.drop_first();
        let buf1 = write_chunk(buf, c0.offset, c0.data);
        let out = apply_chunks(buf, cs);
        assert(chunk_from(master, c0));
        assert(chunks_from(master, rest)) by {
            assert(forall|j: int| 0 <= j < rest.len() ==> #[trigger] rest[j] == cs[j + 1]);
        }
        assert(buf1.len() <= master.len());
        lemma_apply_chunks_characterized(master, buf1, rest);
        assert(out == apply_chunks(buf1, rest));
        assert(out.len() == vstd::math::max(buf.len() as int, chunks_end(cs)));
        assert forall|i: int| 0 <= i < out.len() implies #[trigger] out[i] == (
        if covered(cs, i) {
            master[i]
        } else if i < buf.len() {
            buf[i]
        } else {
            0u8
        }) by {
            if covered(rest, i) {
                let j = choose|j: int|
                    0 <= j < rest.len() && (#[trigger] rest[j]).offset <= i < chunk_end(rest[j]);
                assert(cs[j + 1] == rest[j]);
                assert(covered(cs, i));
            } else if c0.offset <= i < chunk_end(c0) {
                assert(covered(cs, i));
                assert(i < buf1.len());
                assert(buf1[i] == c0.data[i - c0.offset]);
                assert(c0.data[i - c0.offset] == master[i]);
            } else {
                assert(!covered(cs, i)) by {
                    if covered(cs, i) {
                        let j = choose|j: int|
                            0 <= j < cs.len() && (#[trigger] cs[j]).offset <= i < chunk_end(cs[j]);
                        if j >= 1 {
                            assert(rest[j - 1] == cs[j]);
                            assert(covered(rest, i));
                        }
                    }
                }
            }
        }
    }
}

/// Every chunk ends at or before `chunks_end`, and with at least one chunk
/// some chunk reaches it.
proof fn lemma_chunks_end_bounds(cs: Seq<Chunk>)
    requires
        forall|j: int| 0 <= j < cs.len() ==> chunk_end(#[trigger] cs[j]) >= 0,
    ensures
        chunks_end(cs) >= 0,
        forall|j: int| 0 <= j < cs.len() ==> chunk_end(#[trigger] cs[j]) <= chunks_end(cs),
        cs.len() > 0 ==> exists|j: int|
            0 <= j < cs.len() && chunk_end(#[trigger] cs[j]) == chunks_end(cs),
    decreases cs.len(),
{
    if cs.len() == 0 {
    } else {
        let rest = cs.drop_first();
        assert(forall|j: int| 0 <= j < rest.len() ==> #[trigger] rest[j] == cs[j + 1]);
        lemma_chunks_end_bounds(rest);
        assert(chunks_end(cs) >= chunks_end(rest));
        assert(chunks_end(cs) >= chunk_end(cs[0]));
        assert forall|j: int| 0 <= j < cs.len() implies chunk_end(#[trigger] cs[j]) <= chunks_end(
            cs,
        ) by {
            if j >= 1 {
                assert(rest[j - 1] == cs[j]);
                assert(chunk_end(rest[j - 1]) <= chunks_end(rest));
            }
        }
        if rest.len() > 0 && chunks_end(rest) > chunk_end(cs[0]) {
            let j = choose|j: int|
                0 <= j < rest.len() && chunk_end(#[trigger] rest[j]) == chunks_end(rest);
            assert(chunk_end(cs[j + 1]) == chunks_end(cs));
        } else {
            assert(chunk_end(cs[0]) == chunks_end(cs));
        }
    }
}

/// Reassembly is order-independent: delivering the same chunks of one master
/// byte string in any order — repeats and overlaps included — leaves the
/// same buffer, so a later decode of the buffer yields the same outcome.
pub proof fn lemma_reassembly_order_independent(master: Seq<u8>, cs1: Seq<Chunk>, cs2: Seq<Chunk>)
    requires
        chunks_from(master, cs1),
        cs1.to_multiset() == cs2.to_multiset(),
    ensures
        apply_chunks(Seq::<u8>::empty(), cs1) == apply_chunks(Seq::<u8>::empty(), cs2),
{
    broadcast use vstd::seq_lib::group_to_multiset_ensures;

    assert(forall|j: int| 0 <= j < cs1.len() ==> cs2.contains(#[trigger] cs1[j])) by {
        assert(forall|j: int|
            0 <= j < cs1.len() ==> cs1.to_multiset().contains(#[trigger] cs1[j]));
    }
    assert(forall|j: int| 0 <= j < cs2.len() ==> cs1.contains(#[trigger] cs2[j])) by {
        assert(forall|j: int|
            0 <= j < cs2.len() ==> cs2.to_multiset().contains(#[trigger] cs2[j]));
    }
    assert(chunks_from(master, cs2)) by {
        assert forall|j: int| 0 <= j < cs2.len() implies chunk_from(master, #[trigger] cs2[j]) by {
            let w = choose|w: int| 0 <= w < cs1.len() && cs1[w] == cs2[j];
            assert(chunk_from(master, cs1[w]));
        }
    }
    lemma_chunks_end_bounds(cs1);
    lemma_chunks_end_bounds(cs2);
    assert(cs1.len() == cs2.len()) by {
        assert(cs1.to_multiset().len() == cs1.len());
        assert(cs2.to_multiset().len() == cs2.len());
    }
    assert(chunks_end(cs1) == chunks_end(cs2)) by {
        if cs1.len() > 0 {
            let a = choose|j: int|
                0 <= j < cs1.len() && chunk_end(#[trigger] cs1[j]) == chunks_end(cs1);
            let b = choose|j: int|
                0 <= j < cs2.len() && chunk_end(#[trigger] cs2[j]) == chunks_end(cs2);
            let a2 = choose|w: int| 0 <= w < cs2.len() && cs2[w] == cs1[a];
            let b1 = choose|w: int| 0 <= w < cs1.len() && cs1[w] == cs2[b];
            assert(chunk_end(cs2[a2]) <= chunks_end(cs2));
            assert(chunk_end(cs1[b1]) <= chunks_end(cs1));
        }
    }
    assert(forall|i: int| covered(cs1, i) <==> covered(cs2, i)) by {
        assert forall|i: int| covered(cs1, i) implies covered(cs2, i) by {
            let j = choose|j: int|
                0 <= j < cs1.len() && (#[trigger] cs1[j]).offset <= i < chunk_end(cs1[j]);
            let w = choose|w: int| 0 <= w < cs2.len() && cs2[w] == cs1[j];
            assert((cs2[w]).offset <= i < chunk_end(cs2[w]));
        }
        assert forall|i: int| covered(cs2, i) implies covered(cs1, i) by {
            let j = choose|j: int|
                0 <= j < cs2.len() && (#[trigger] cs2[j]).offset <= i < chunk_end(cs2[j]);
            let w = choose|w: int| 0 <= w < cs1.len() && cs1[w] == cs2[j];
            assert((cs1[w]).offset <= i < chunk_end(cs1[w]));
        }
    }
    lemma_apply_chunks_characterized(master, Seq::<u8>::empty(), cs1);
    lemma_apply_chunks_characterized(master, Seq::<u8>::empty(), cs2);
    assert(apply_chunks(Seq::<u8>::empty(), cs1) =~= apply_chunks(Seq::<u8>::empty(), cs2));
}

/// The in-memory store behind the consensus engine.
pub struct RamStorage {
    log: Vec<LogEntry>,
    current_term: u32,
    voted_for: Option<u32>,
    snapshot_bytes: Vec<u8>,
    snapshot_last_index: u32,
    snapshot_last_term: u32,
    snapshot_chunk_bytes: Vec<u8>,
    init_state_machine: KvStateMachine,
}

impl View for RamStorage {
    type V = StorageView;

    closed spec fn view(&self) -> StorageView {
        StorageView {
            log: self.log@,
            current_term: self.current_term,
            voted_for: self.voted_for,
            snapshot_bytes: self.snapshot_bytes@,
            snapshot_last_index: self.snapshot_last_index,
            snapshot_last_term: self.snapshot_last_term,
            chunk_bytes: self.snapshot_chunk_bytes@,
            init_state: self.init_state_machine@,
        }
    }
}

impl RamStorage {
    /// Both byte buffers stay addressable by the 32-bit offsets and lengths
    /// of the chunk-transfer interface.
    pub open spec fn inv(&self) -> bool {
        self@.snapshot_bytes.len() <= u32::MAX && self@.chunk_bytes.len() <= u32::MAX
    }

    /// A fresh store: empty log, no snapshot, no transfer in progress, term 0
    /// and no vote; `init_state_machine` is what `snapshot` falls back to
    /// until a snapshot is installed.
    pub fn new(init_state_machine: KvStateMachine) -> (r: RamStorage)
        ensures
            r@ == (StorageView {
                log: Seq::<LogEntry>::empty(),
                current_term: 0u32,
                voted_for: None::<u32>,
                snapshot_bytes: Seq::<u8>::empty(),
                snapshot_last_index: 0u32,
                snapshot_last_term: 0u32,
                chunk_bytes: Seq::<u8>::empty(),
                init_state: init_state_machine@,
            }),
            r.inv(),
    {
        RamStorage {
            log: Vec::new(),
            current_term: 0,
            voted_for: None,
            snapshot_bytes: Vec::new(),
            snapshot_last_index: 0,
            snapshot_last_term: 0,
            snapshot_chunk_bytes: Vec::new(),
            init_state_machine,
        }
    }

    /// Appends one entry at the end of the log.
    pub fn add_log_entry(&mut self, entry: LogEntry)
        ensures
            final(self)@ == (StorageView { log: old(self)@.log.push(entry), ..old(self)@ }),
    {
        self.log.push(entry);
    }

    /// Drops the log entries at positions `[0, index)`, once a snapshot has
    /// made them obsolete; the survivors keep their relative order.
    pub fn remove_log_entries_before(&mut self, index: usize)
        requires
            index <= old(self)@.log.len(),
        ensures
            final(self)@ == (StorageView {
                log: log_after_prefix_removal(old(self)@.log, index as int),
                ..old(self)@
            }),
    {
        let ghost n = old(self)@.log.len() as int;
        proof {
            assert(self@.log =~= old(self)@.log.subrange(0, n));
        }
        for k in 0..index
            invariant
                n == old(self)@.log.len(),
                index <= n,
                self@.log == old(self)@.log.subrange(k as int, n),
                self@ == (StorageView { log: self@.log, ..old(self)@ }),
        {
            proof {
                assert(self@.log.len() == n - k);
            }
            self.log.remove(0);
            proof {
                assert(self@.log =~= old(self)@.log.subrange(k + 1, n));
            }
        }
    }

    /// Drops the log entries at positions `[index, end)`, where a conflicting
    /// suffix is being overwritten; an index at or past the end drops
    /// nothing.
    pub fn remove_log_entries_starting_at(&mut self, index: usize)
        ensures
            final(self)@ == (StorageView {
                log: log_after_suffix_removal(old(self)@.log, index as int),
                ..old(self)@
            }),
    {
        self.log.truncate(index);
        proof {
            assert(self@.log =~= log_after_suffix_removal(old(self)@.log, index as int));
        }
    }

    /// The durability hook: a persistent store must not acknowledge the
    /// mutations before this returns. In memory there is nothing to do.
    pub fn save_log(&mut self)
        ensures
            final(self)@ == old(self)@,
    {
    }

    /// The entry at `index`, or nothing when the position is out of range —
    /// the caller decides whether that means "compacted away" or "not yet
    /// received".
    pub fn log_entry(&self, index: usize) -> (r: Option<&LogEntry>)
        ensures
            r is Some <==> index < self@.log.len(),
            r matches Some(e) ==> *e == self@.log[index as int],
    {
        if index < self.log.len() {
            Some(&self.log[index])
        } else {
            None
        }
    }

    /// The contiguous entries from `start_index` to the end of the log.
    pub fn log_entries(&self, start_index: usize) -> (r: &[LogEntry])
        requires
            start_index <= self@.log.len(),
        ensures
            r@ == self@.log.subrange(start_index as int, self@.log.len() as int),
    {
        vstd::slice::slice_subrange(self.log.as_slice(), start_index, self.log.len())
    }

    /// The position of the most recent configuration-change entry, found by a
    /// backward scan, or nothing when none remains since the last truncation.
    pub fn get_index_of_last_config_in_log(&self) -> (r: Option<usize>)
        ensures
            r matches Some(i) ==> i < self@.log.len() && is_config_entry(self@.log[i as int])
                && (forall|j: int|
                i < j < self@.log.len() ==> !is_config_entry(#[trigger] self@.log[j])),
            r is None ==> forall|j: int|
                0 <= j < self@.log.len() ==> !is_config_entry(#[trigger] self@.log[j]),
    {
        let mut idx = self.log.len();
        while idx > 0
            invariant
                idx <= self@.log.len(),
                forall|j: int|
                    idx <= j < self@.log.len() ==> !is_config_entry(#[trigger] self@.log[j]),
            decreases idx,
        {
            idx = idx - 1;
            if let LogEntryType::Config(_) = &self.log[idx].entry_type {
                return Some(idx);
            }
        }
        None
    }

    /// How many entries the log holds.
    pub fn num_log_entries(&self) -> (r: usize)
        ensures
            r == self@.log.len(),
    {
        self.log.len()
    }

    /// Encodes `snapshot` and installs it with its metadata, replacing any
    /// previous snapshot; fails, changing nothing, when the encoding
    /// overflows the wire format's or the chunk interface's 32-bit limits.
    pub fn set_snapshot_checked(
        &mut self,
        last_index: u32,
        last_term: u32,
        snapshot: &KvStateMachine,
    ) -> (ok: bool)
        requires
            old(self).inv(),
            last_index >= old(self)@.snapshot_last_index,
            last_term >= old(self)@.snapshot_last_term,
        ensures
            ok <==> (state_fits(snapshot@) && enc_state(snapshot@).len() <= u32::MAX),
            ok ==> final(self)@ == (StorageView {
                snapshot_bytes: enc_state(snapshot@),
                snapshot_last_index: last_index,
                snapshot_last_term: last_term,
                ..old(self)@
            }),
            !ok ==> final(self)@ == old(self)@,
            final(self).inv(),
    {
        let bytes = match snapshot.write_bytes() {
            None => {
                return false;
            },
            Some(bytes) => bytes,
        };
        if bytes.len() > u32::MAX as usize {
            return false;
        }
        self.snapshot_bytes = bytes;
        self.snapshot_last_index = last_index;
        self.snapshot_last_term = last_term;
        true
    }

    /// Encodes `snapshot` and installs it with its metadata atomically: no
    /// reader ever sees the new metadata with the old payload or the reverse.
    pub fn set_snapshot(&mut self, last_index: u32, last_term: u32, snapshot: &KvStateMachine)
        requires
            old(self).inv(),
            state_fits(snapshot@),
            enc_state(snapshot@).len() <= u32::MAX,
            last_index >= old(self)@.snapshot_last_index,
            last_term >= old(self)@.snapshot_last_term,
        ensures
            final(self)@ == (StorageView {
                snapshot_bytes: enc_state(snapshot@),
                snapshot_last_index: last_index,
                snapshot_last_term: last_term,
                ..old(self)@
            }),
            final(self).inv(),
    {
        let ok = self.set_snapshot_checked(last_index, last_term, snapshot);
        assert(ok);
    }

    /// The state machine held by the installed snapshot; a store that decoded
    /// no snapshot yet (a brand-new node) answers with the initial state it
    /// was constructed with.
    pub fn snapshot(&self) -> (r: KvStateMachine)
        ensures
            match dec_state(self@.snapshot_bytes) {
                Some(kv) => r@ == kv,
                None => r@ == self@.init_state,
            },
    {
        match KvStateMachine::try_from_bytes(self.snapshot_bytes.as_slice()) {
            Some(sm) => sm,
            None => clone_state_machine(&self.init_state_machine),
        }
    }

    /// The log index the installed snapshot subsumes up to.
    pub fn snapshot_last_index(&self) -> (r: u32)
        ensures
            r == self@.snapshot_last_index,
    {
        self.snapshot_last_index
    }

    /// The term of the last entry the installed snapshot subsumes.
    pub fn snapshot_last_term(&self) -> (r: u32)
        ensures
            r == self@.snapshot_last_term,
    {
        self.snapshot_last_term
    }

    /// The byte range `[offset, offset + amt)` of the installed snapshot, for
    /// serving an outbound transfer; the caller bounds the range by
    /// `total_snapshot_bytes` first.
    pub fn snapshot_chunk(&self, offset: u32, amt: u32) -> (r: &[u8])
        requires
            self.inv(),
            offset + amt <= self@.snapshot_bytes.len(),
        ensures
            r@ == self@.snapshot_bytes.subrange(offset as int, offset + amt),
    {
        vstd::slice::slice_subrange(
            self.snapshot_bytes.as_slice(),
            offset as usize,
            offset as usize + amt as usize,
        )
    }

    /// How many bytes the installed snapshot has.
    pub fn total_snapshot_bytes(&self) -> (r: u32)
        requires
            self.inv(),
        ensures
            r == self@.snapshot_bytes.len(),
    {
        self.snapshot_bytes.len() as u32
    }

    /// Writes `data` into the in-progress transfer buffer at `offset`: the
    /// buffer grows to at least `offset + data.len()`, any gap before
    /// `offset` is zero-filled, and rewriting a range is idempotent — the
    /// last write wins for the overlapped bytes. Chunks may arrive in any
    /// order and may repeat.
    pub fn add_new_snapshot_chunk(&mut self, offset: u32, data: &[u8])
        requires
            old(self).inv(),
            offset + data@.len() <= u32::MAX,
        ensures
            final(self)@ == (StorageView {
                chunk_bytes: write_chunk(old(self)@.chunk_bytes, offset as int, data@),
                ..old(self)@
            }),
            final(self).inv(),
    {
        let ghost target = write_chunk(self@.chunk_bytes, offset as int, data@);
        let start = offset as usize;
        let end = start + data.len();
        let newlen = if self.snapshot_chunk_bytes.len() >= end {
            self.snapshot_chunk_bytes.len()
        } else {
            end
        };
        let mut buf: Vec<u8> = Vec::new();
        for i in 0..newlen
            invariant
                start == offset as int,
                end == offset + data@.len(),
                newlen == target.len(),
                target == write_chunk(self@.chunk_bytes, offset as int, data@),
                end <= newlen,
                self@ == old(self)@,
                buf@ =~= target.take(i as int),
        {
            let b = if start <= i && i < end {
                data[i - start]
            } else if i < self.snapshot_chunk_bytes.len() {
                self.snapshot_chunk_bytes[i]
            } else {
                0u8
            };
            buf.push(b);
            proof {
                assert(buf@ =~= target.take(i + 1));
            }
        }
        proof {
            assert(buf@ =~= target);
        }
        self.snapshot_chunk_bytes = buf;
    }

    /// Tries to decode the whole transfer buffer as a snapshot. Success is
    /// the completion test: a decoded state is installed atomically with the
    /// given metadata, the buffer is cleared, and the state is returned. On
    /// failure — the transfer is still partial, or the bytes are corrupt —
    /// nothing changes, so later chunks and a later retry can still succeed.
    pub fn try_use_chunks_as_new_snapshot(&mut self, last_index: u32, last_term: u32) -> (r: Option<
        KvStateMachine,
    >)
        requires
            old(self).inv(),
            last_index >= old(self)@.snapshot_last_index,
            last_term >= old(self)@.snapshot_last_term,
        ensures
            r is Some <==> dec_state(old(self)@.chunk_bytes) is Some,
            r matches Some(sm) ==> dec_state(old(self)@.chunk_bytes) == Some(sm@) && final(self)@
                == (StorageView {
                snapshot_bytes: old(self)@.chunk_bytes,
                snapshot_last_index: last_index,
                snapshot_last_term: last_term,
                chunk_bytes: Seq::<u8>::empty(),
                ..old(self)@
            }),
            r is None ==> final(self)@ == old(self)@,
            final(self).inv(),
    {
        match KvStateMachine::try_from_bytes(self.snapshot_chunk_bytes.as_slice()) {
            None => None,
            Some(sm) => {
                self.snapshot_bytes = vstd::slice::slice_to_vec(
                    self.snapshot_chunk_bytes.as_slice(),
                );
                self.snapshot_chunk_bytes.clear();
                self.snapshot_last_index = last_index;
                self.snapshot_last_term = last_term;
                Some(sm)
            },
        }
    }

    /// Records the vote cast in the current term, or clears it.
    pub fn set_voted_for(&mut self, voted_for: Option<u32>)
        ensures
            final(self)@ == (StorageView { voted_for, ..old(self)@ }),
    {
        self.voted_for = voted_for;
    }

    /// Whom this node voted for in the current term, if anyone.
    pub fn voted_for(&self) -> (r: Option<u32>)
        ensures
            r == self@.voted_for,
    {
        self.voted_for
    }

    /// Records the current term.
    pub fn set_current_term(&mut self, current_term: u32)
        ensures
            final(self)@ == (StorageView { current_term, ..old(self)@ }),
    {
        self.current_term = current_term;
    }

    /// The current term.
    pub fn current_term(&self) -> (r: u32)
        ensures
            r == self@.current_term,
    {
        self.current_term
    }
}

} // verus!
