//! Replay: what a segment's bytes do to the key directory.

use vstd::prelude::*;
use vstd::slice::slice_subrange;
use crate::codec::{decode, parse_record, CommandView, Decoded, KvsCommand, Parsed};
use crate::error::{ErrorKind, KvsError, Result};
use crate::keydir::KeyDir;
use crate::pointer::LogPointer;

verus! {

/// What a log amounts to: the pointer of each live key, and the number of
/// bytes that no pointer refers to any more.
pub struct LogState {
    pub index: Map<Seq<char>, LogPointer>,
    pub uncompacted: nat,
}

impl LogState {
    /// The state of an empty log.
    pub open spec fn empty() -> LogState {
        LogState { index: Map::empty(), uncompacted: 0 }
    }
}

/// The bytes that die when `key` gets a new record: those of the record
/// that its pointer refers to, if it has one.
pub open spec fn dead_bytes(index: Map<Seq<char>, LogPointer>, key: Seq<char>) -> nat {
    if index.contains_key(key) {
        index[key].length as nat
    } else {
        0
    }
}

/// The state after the record `c`, which stands at offset `at` of the
/// segment `generation` and takes `len` bytes. A `Put` gives its key the
/// pointer to itself; an `Rm` takes the key's pointer away and is dead at
/// once.
pub open spec fn apply(st: LogState, c: CommandView, generation: u64, at: nat, len: nat) -> LogState {
    match c {
        CommandView::Put { key, .. } => LogState {
            index: st.index.insert(
                key,
                LogPointer { generation, offset: at as u64, length: len as u64 },
            ),
            uncompacted: st.uncompacted + dead_bytes(st.index, key),
        },
        CommandView::Rm { key } => LogState {
            index: st.index.remove(key),
            uncompacted: st.uncompacted + dead_bytes(st.index, key) + len,
        },
    }
}

/// Whether a whole record stands at some offset of `bytes` from `from` on.
pub open spec fn record_follows(bytes: Seq<u8>, from: int) -> bool {
    exists|q: int| from <= q < bytes.len() && (#[trigger] parse_record(bytes.skip(q))) is Record
}

/// Where a replay stopped, and whether it may be trusted.
pub struct Replayed {
    /// The state after the last record that was read whole.
    pub state: LogState,
    /// Whether the segment was sound: behind its last whole record stands
    /// nothing, or a record that was cut short, or bytes that are no
    /// record and hold no whole record anywhere. Bytes that are no record
    /// and stand before a whole record are not sound.
    pub sound: bool,
}

/// Replays the records of `bytes` from offset `pos` on, one after the
/// other, starting from `st`. The replay stops where no whole record
/// stands; what follows is a damaged end of the segment if no whole
/// record stands in it, and damage in the middle if one does.
pub open spec fn replay_from(bytes: Seq<u8>, pos: nat, generation: u64, st: LogState) -> Replayed
    decreases bytes.len() - pos,
{
    if pos >= bytes.len() {
        Replayed { state: st, sound: true }
    } else {
        match parse_record(bytes.skip(pos as int)) {
            Parsed::Record(c, len) => if 0 < len <= bytes.len() - pos {
                replay_from(bytes, pos + len, generation, apply(st, c, generation, pos, len))
            } else {
                Replayed { state: st, sound: false }
            },
            Parsed::Truncated => Replayed { state: st, sound: true },
            Parsed::Corrupt => Replayed { state: st, sound: !record_follows(bytes, pos as int + 1) },
        }
    }
}

/// Replays the whole segment `generation`, starting from `st`.
pub open spec fn replay_segment(bytes: Seq<u8>, generation: u64, st: LogState) -> Replayed {
    replay_from(bytes, 0, generation, st)
}

/// The count of dead bytes is carried along: a replay that starts with
/// `more` dead bytes more ends with `more` dead bytes more, and is the same
/// otherwise.
pub proof fn lemma_replay_carries_count(
    bytes: Seq<u8>,
    pos: nat,
    generation: u64,
    st: LogState,
    more: nat,
)
    ensures
        ({
            let a = replay_from(bytes, pos, generation, st);
            let b = replay_from(
                bytes,
                pos,
                generation,
                LogState { index: st.index, uncompacted: st.uncompacted + more },
            );
            &&& b.sound == a.sound
            &&& b.state.index == a.state.index
            &&& b.state.uncompacted == a.state.uncompacted + more
        }),
    decreases bytes.len() - pos,
{
    if pos < bytes.len() {
        match parse_record(bytes.skip(pos as int)) {
            Parsed::Record(c, len) => {
                if 0 < len <= bytes.len() - pos {
                    let st2 = apply(st, c, generation, pos, len);
                    lemma_replay_carries_count(bytes, pos + len, generation, st2, more);
                    let with_more = apply(
                        LogState { index: st.index, uncompacted: st.uncompacted + more },
                        c,
                        generation,
                        pos,
                        len,
                    );
                    assert(with_more == LogState {
                        index: st2.index,
                        uncompacted: st2.uncompacted + more,
                    });
                }
            },
            _ => {},
        }
    }
}

/// A count of bytes as the engine keeps it: it stops at the largest `u64`.
pub open spec fn clip(n: nat) -> u64 {
    if n > u64::MAX {
        u64::MAX
    } else {
        n as u64
    }
}

/// Whether a whole record stands at some offset of `bytes` from `from` on.
fn whole_record_follows(bytes: &[u8], from: usize) -> (r: bool)
    requires
        from <= bytes@.len(),
    ensures
        r == record_follows(bytes@, from as int),
{
    let total: usize = bytes.len();
    let mut q: usize = from;
    while q < total
        invariant
            total == bytes@.len(),
            from <= q <= total,
            forall|k: int| from <= k < q ==> !((#[trigger] parse_record(bytes@.skip(k))) is Record),
        decreases total - q,
    {
        let rest = slice_subrange(bytes, q, total);
        assert(rest@ == bytes@.skip(q as int));
        if let Decoded::Record(_, _) = decode(rest) {
            return true;
        }
        q += 1;
    }
    false
}

/// Replays the segment `idx`, whose whole content is `bytes`, into `index`,
/// and returns the number of bytes of the segment, and of records that it
/// supersedes, that no pointer refers to any more.
///
/// The segment is read up to its last whole record. Behind it may stand a
/// record that was cut short, or bytes that are no record, as long as no
/// whole record stands in them: such an end is passed over. Bytes that are
/// no record and stand before a whole record are an error; `index` then
/// stands as the records before them left it.
pub fn build_index_from_reader(idx: u64, bytes: &[u8], index: &mut KeyDir) -> (r: Result<u64>)
    requires
        old(index).wf(),
    ensures
        final(index).wf(),
        ({
            let replayed = replay_segment(
                bytes@,
                idx,
                LogState { index: old(index)@, uncompacted: 0 },
            );
            &&& final(index)@ == replayed.state.index
            &&& match r {
                Ok(n) => replayed.sound && n == clip(replayed.state.uncompacted),
                Err(e) => !replayed.sound && e.plain(ErrorKind::Integrity),
            }
        }),
{
    let total: usize = bytes.len();
    let mut pos: usize = 0;
    let mut uncompacted: u64 = 0;
    let ghost mut st = LogState { index: index@, uncompacted: 0 };
    while pos < total
        invariant
            total == bytes@.len(),
            pos <= total,
            index.wf(),
            st.index == index@,
            uncompacted == clip(st.uncompacted),
            replay_from(bytes@, pos as nat, idx, st) == replay_segment(
                bytes@,
                idx,
                LogState { index: old(index)@, uncompacted: 0 },
            ),
        decreases total - pos,
    {
        let rest = slice_subrange(bytes, pos, total);
        assert(rest@ == bytes@.skip(pos as int));
        match decode(rest) {
            Decoded::Record(cmd, len) => {
                let pointer = LogPointer::spanning(idx, pos as u64, (pos + len) as u64);
                proof {
                    st = apply(st, cmd@, idx, pos as nat, len as nat);
                }
                match cmd {
                    KvsCommand::Put { key, .. } => {
                        if let Some(before) = index.insert(key, pointer) {
                            uncompacted = uncompacted.saturating_add(before.length);
                        }
                    },
                    KvsCommand::Rm { key } => {
                        if let Some(before) = index.remove(key.as_str()) {
                            uncompacted = uncompacted.saturating_add(before.length);
                        }
                        uncompacted = uncompacted.saturating_add(len as u64);
                    },
                }
                pos = pos + len;
            },
            Decoded::Truncated => {
                return Ok(uncompacted);
            },
            Decoded::Corrupt => {
                if whole_record_follows(bytes, pos + 1) {
                    return Err(KvsError::of(ErrorKind::Integrity));
                }
                return Ok(uncompacted);
            },
        }
    }
    Ok(uncompacted)
}

} // verus!
