//! The store: the key directory, the segments that are alive, the write
//! position in the active one, and the count of dead bytes.
//!
//! The store touches no file. Each operation comes in two steps, with the
//! caller's I/O between them. `set` and `remove` hand out the record to
//! append; once it is on disk, `commit` enters it into the key directory.
//! `get` hands out the pointer to read at; `read_value` reads the value
//! from the bytes found there. `compact` hands out what to copy;
//! `finish_compaction` moves the pointers over once the copy is on disk.

use vstd::prelude::*;
use crate::codec::{
    decode, encodable, encode, parse_record, record_bytes, CommandView, Decoded, KvsCommand,
    Parsed,
};
use crate::error::{ErrorKind, KvsError, Result};
use crate::keydir::{dir_map, ordered, same_key, KeyDir};
use crate::names::ascending;
use crate::pointer::LogPointer;
use crate::replay::{
    apply, build_index_from_reader, clip, lemma_replay_carries_count, replay_segment, LogState,
    Replayed,
};

verus! {

/// The number of dead bytes above which the log is to be compacted.
pub const COMPACTION_THRESHOLD: u64 = 1048576;

/// One segment as it was found on disk.
pub struct Segment {
    /// The generation that the file's name gives.
    pub generation: u64,
    /// The whole content of the file.
    pub bytes: Vec<u8>,
}

/// A segment as a mathematical value.
pub struct SegmentView {
    pub generation: u64,
    pub bytes: Seq<u8>,
}

impl View for Segment {
    type V = SegmentView;

    open spec fn view(&self) -> SegmentView {
        SegmentView { generation: self.generation, bytes: self.bytes@ }
    }
}

/// The generations of `segments`, in their order.
pub open spec fn generations_of(segments: Seq<SegmentView>) -> Seq<u64> {
    segments.map_values(|s: SegmentView| s.generation)
}

/// Replays the first `n` of `segments`, one after the other, starting
/// from the empty log. After a segment that is not sound no further one
/// is read.
pub open spec fn replay_all(segments: Seq<SegmentView>, n: nat) -> Replayed
    decreases n,
{
    if n == 0 || n > segments.len() {
        Replayed { state: LogState::empty(), sound: n == 0 }
    } else {
        let before = replay_all(segments, (n - 1) as nat);
        if before.sound {
            replay_segment(segments[n - 1].bytes, segments[n - 1].generation, before.state)
        } else {
            before
        }
    }
}

/// The store as a mathematical value.
pub struct StoreView {
    /// The pointer of each live key.
    pub index: Map<Seq<char>, LogPointer>,
    /// The generations of the segments that are alive, ascending. The last
    /// one is the active segment.
    pub generations: Seq<u64>,
    /// The length of the active segment: where its next byte goes.
    pub position: u64,
    /// The bytes that no pointer refers to any more; the count stops at
    /// the largest `u64`.
    pub uncompacted: u64,
}

impl StoreView {
    /// What holds of every store.
    pub open spec fn wf(self) -> bool {
        &&& self.generations.len() > 0
        &&& ascending(self.generations)
    }

    /// The generation of the active segment.
    pub open spec fn active(self) -> u64 {
        self.generations.last()
    }

    /// The store after a record that reads as `c` and takes `len` bytes has
    /// been appended to the active segment.
    pub open spec fn after(self, c: CommandView, len: nat) -> StoreView {
        let st = apply(
            LogState { index: self.index, uncompacted: self.uncompacted as nat },
            c,
            self.active(),
            self.position as nat,
            len,
        );
        StoreView {
            index: st.index,
            generations: self.generations,
            position: (self.position + len) as u64,
            uncompacted: clip(st.uncompacted),
        }
    }

    /// The store after a compaction, where `keys` and `pointers` are those
    /// of the store in the order of the keys: every pointer refers to its
    /// record's copy, the compaction segment and the new active segment
    /// are the only ones alive, and no byte is dead.
    pub open spec fn compacted(self, keys: Seq<Seq<char>>, pointers: Seq<LogPointer>) -> StoreView {
        StoreView {
            index: dir_map(keys, compacted_pointers(pointers, (self.active() + 1) as u64)),
            generations: seq![(self.active() + 1) as u64, (self.active() + 2) as u64],
            position: 0,
            uncompacted: 0,
        }
    }
}

/// The store that `open` builds from the segments of a directory, or the
/// kind of the error that it gives.
pub open spec fn opened(segments: Seq<SegmentView>) -> core::result::Result<StoreView, ErrorKind> {
    let generations = generations_of(segments);
    let replayed = replay_all(segments, segments.len());
    if !ascending(generations) || !replayed.sound {
        Err(ErrorKind::Integrity)
    } else if generations.len() > 0 && generations.last() == u64::MAX {
        Err(ErrorKind::Io)
    } else {
        Ok(
            StoreView {
                index: replayed.state.index,
                generations: generations.push(
                    if generations.len() == 0 {
                        0
                    } else {
                        (generations.last() + 1) as u64
                    },
                ),
                position: 0,
                uncompacted: clip(replayed.state.uncompacted),
            },
        )
    }
}

/// The segments of a vector as mathematical values.
pub open spec fn segment_views(segments: Seq<Segment>) -> Seq<SegmentView> {
    segments.map_values(|s: Segment| s@)
}

/// Once a segment was not sound, the replay stays where it stopped.
pub proof fn lemma_replay_all_stays_unsound(segments: Seq<SegmentView>, m: nat, n: nat)
    requires
        m <= n <= segments.len(),
        !replay_all(segments, m).sound,
    ensures
        replay_all(segments, n) == replay_all(segments, m),
    decreases n,
{
    if m < n {
        lemma_replay_all_stays_unsound(segments, m, (n - 1) as nat);
    }
}

/// The length of the records of the first `i` pointers together: the
/// offset at which a compaction writes the record of position `i`.
pub open spec fn offset_before(pointers: Seq<LogPointer>, i: int) -> nat
    decreases i,
{
    if i <= 0 {
        0
    } else {
        offset_before(pointers, i - 1) + pointers[i - 1].length as nat
    }
}

/// The length of a compaction segment: that of all live records together.
pub open spec fn total_length(pointers: Seq<LogPointer>) -> nat {
    offset_before(pointers, pointers.len() as int)
}

/// The pointers after a compaction into `generation`: the records stand
/// there one after the other, in the order of the keys, each as long as it
/// was.
pub open spec fn compacted_pointers(pointers: Seq<LogPointer>, generation: u64) -> Seq<LogPointer> {
    Seq::new(
        pointers.len(),
        |i: int|
            LogPointer {
                generation,
                offset: offset_before(pointers, i) as u64,
                length: pointers[i].length,
            },
    )
}

/// The offsets of a compaction grow with the position.
pub proof fn lemma_offset_before_grows(pointers: Seq<LogPointer>, i: int, j: int)
    requires
        0 <= i <= j <= pointers.len(),
    ensures
        offset_before(pointers, i) <= offset_before(pointers, j),
    decreases j - i,
{
    if i < j {
        lemma_offset_before_grows(pointers, i, j - 1);
    }
}

/// What a compaction asks of the caller.
pub struct CompactionPlan {
    /// The generation of the segment to create and to copy into.
    pub compact_generation: u64,
    /// The generation of the segment to create as the new active one.
    pub active_generation: u64,
    /// The records to copy, in this order, one behind the other.
    pub copies: Vec<LogPointer>,
    /// The segments to delete once the copy is on disk.
    pub stale: Vec<u64>,
}

/// A record that is to be appended to the active segment, or has been:
/// the mutation, and the bytes that stand for it.
pub struct Append {
    /// The mutation.
    pub command: KvsCommand,
    /// The bytes of the record.
    pub record: Vec<u8>,
}

impl Append {
    /// The bytes stand for the mutation: they read back as it, whole.
    pub open spec fn wf(&self) -> bool {
        parse_record(self.record@) == Parsed::Record(self.command@, self.record@.len())
    }

    /// The bytes to append.
    pub fn bytes(&self) -> (bytes: &Vec<u8>)
        ensures
            bytes@ == self.record@,
    {
        &self.record
    }
}

/// The store.
pub struct KvStore {
    index: KeyDir,
    generations: Vec<u64>,
    position: u64,
    uncompacted: u64,
}

impl View for KvStore {
    type V = StoreView;

    closed spec fn view(&self) -> StoreView {
        StoreView {
            index: self.index@,
            generations: self.generations@,
            position: self.position,
            uncompacted: self.uncompacted,
        }
    }
}

impl KvStore {
    /// What holds of every store.
    pub closed spec fn wf(&self) -> bool {
        &&& self.index.wf()
        &&& self@.wf()
    }

    /// The keys, in their order.
    pub closed spec fn keys(&self) -> Seq<Seq<char>> {
        self.index.keys()
    }

    /// The pointers, each at the position of its key.
    pub closed spec fn pointers(&self) -> Seq<LogPointer> {
        self.index.pointers()
    }

    /// Builds the store from the segments of a directory, which stand in
    /// the order of their generations, and gives it a new, empty active
    /// segment: generation 0 in an empty directory, else the successor of
    /// the last generation.
    ///
    /// Segments out of order, and bytes in a segment that are no record
    /// and stand before a whole record, are an `Integrity` error; a last
    /// generation without a successor is an `Io` error. A damaged end of a
    /// segment is passed over.
    pub fn open(segments: &Vec<Segment>) -> (r: Result<KvStore>)
        ensures
            match r {
                Ok(store) => store.wf() && opened(segment_views(segments@)) == Ok::<
                    StoreView,
                    ErrorKind,
                >(store@),
                Err(e) => e.plain(e.kind) && opened(segment_views(segments@)) == Err::<
                    StoreView,
                    ErrorKind,
                >(e.kind),
            },
    {
        let ghost views = segment_views(segments@);
        let mut index = KeyDir::new();
        let mut generations: Vec<u64> = Vec::new();
        let mut uncompacted: u64 = 0;
        let mut i: usize = 0;
        while i < segments.len()
            invariant
                i <= segments@.len(),
                views == segment_views(segments@),
                index.wf(),
                generations@ == generations_of(views).take(i as int),
                ascending(generations@),
                replay_all(views, i as nat).sound,
                index@ == replay_all(views, i as nat).state.index,
                uncompacted == clip(replay_all(views, i as nat).state.uncompacted),
            decreases segments@.len() - i,
        {
            let segment = &segments[i];
            assert(views[i as int] == segment@);
            if i > 0 && segment.generation <= generations[i - 1] {
                assert(!ascending(generations_of(views))) by {
                    assert(generations_of(views)[i as int] <= generations_of(views)[i - 1]);
                }
                return Err(KvsError::of(ErrorKind::Integrity));
            }
            let ghost before = replay_all(views, i as nat).state;
            proof {
                lemma_replay_carries_count(
                    segment@.bytes,
                    0,
                    segment.generation,
                    LogState { index: before.index, uncompacted: 0 },
                    before.uncompacted,
                );
            }
            match build_index_from_reader(segment.generation, segment.bytes.as_slice(), &mut index) {
                Ok(n) => {
                    uncompacted = uncompacted.saturating_add(n);
                },
                Err(e) => {
                    proof {
                        lemma_replay_all_stays_unsound(views, (i + 1) as nat, views.len());
                    }
                    return Err(e);
                },
            }
            generations.push(segment.generation);
            assert(generations@ =~= generations_of(views).take(i + 1));
            i += 1;
        }
        assert(generations@ =~= generations_of(views));
        let count: usize = generations.len();
        let next: u64 = if count == 0 {
            0
        } else {
            let last: u64 = generations[count - 1];
            if last == u64::MAX {
                return Err(KvsError::of(ErrorKind::Io));
            }
            last + 1
        };
        generations.push(next);
        proof {
            index.lemma_view();
        }
        Ok(KvStore { index, generations, position: 0, uncompacted })
    }

    /// A compaction needs two generations behind the active one, and a
    /// segment that can hold all live records.
    pub open spec fn can_compact(&self) -> bool {
        &&& self@.active() + 2 <= u64::MAX
        &&& total_length(self.pointers()) <= u64::MAX
    }

    /// The key directory of a store is the map of its keys and pointers.
    pub proof fn lemma_index(&self)
        requires
            self.wf(),
        ensures
            self@.wf(),
            ordered(self.keys()),
            self.keys().len() == self.pointers().len(),
            self@.index == dir_map(self.keys(), self.pointers()),
    {
    }

    /// The length of all live records together, if a `u64` holds it.
    fn live_length(&self) -> (r: Option<u64>)
        requires
            self.wf(),
        ensures
            r == if total_length(self.pointers()) <= u64::MAX {
                Some(total_length(self.pointers()) as u64)
            } else {
                None
            },
    {
        let count: usize = self.index.len();
        let mut total: u64 = 0;
        let mut i: usize = 0;
        while i < count
            invariant
                self.wf(),
                count == self.pointers().len(),
                i <= count,
                total == offset_before(self.pointers(), i as int),
            decreases count - i,
        {
            let length: u64 = self.index.pointer_at(i).length;
            if length > u64::MAX - total {
                proof {
                    lemma_offset_before_grows(self.pointers(), i + 1, count as int);
                }
                return None;
            }
            total = total + length;
            i += 1;
        }
        Some(total)
    }

    /// The first step of a compaction: what to create, what to copy and
    /// what to delete afterwards. The store does not change before
    /// `finish_compaction`.
    pub fn compact(&self) -> (r: Result<CompactionPlan>)
        requires
            self.wf(),
        ensures
            match r {
                Ok(plan) => {
                    &&& self.can_compact()
                    &&& plan.compact_generation == self@.active() + 1
                    &&& plan.active_generation == self@.active() + 2
                    &&& plan.copies@ == self.pointers()
                    &&& plan.stale@ == self@.generations
                    &&& forall|i: int|
                        0 <= i < plan.stale@.len() ==> #[trigger] plan.stale@[i]
                            < plan.compact_generation
                },
                Err(e) => e.plain(ErrorKind::Io) && !self.can_compact(),
            },
    {
        let active: u64 = self.generations[self.generations.len() - 1];
        if active > u64::MAX - 2 || self.live_length().is_none() {
            return Err(KvsError::of(ErrorKind::Io));
        }
        let count: usize = self.index.len();
        let mut copies: Vec<LogPointer> = Vec::new();
        let mut i: usize = 0;
        while i < count
            invariant
                self.wf(),
                count == self.pointers().len(),
                i <= count,
                copies@ == self.pointers().take(i as int),
            decreases count - i,
        {
            copies.push(self.index.pointer_at(i));
            assert(copies@ =~= self.pointers().take(i + 1));
            i += 1;
        }
        assert(copies@ =~= self.pointers());
        assert forall|i: int| 0 <= i < self.generations@.len() implies #[trigger] self.generations@[i]
            <= active by {
            if i < self.generations@.len() - 1 {
                assert(self.generations@[i] < self.generations@[self.generations@.len() - 1]);
            }
        }
        Ok(
            CompactionPlan {
                compact_generation: active + 1,
                active_generation: active + 2,
                copies,
                stale: self.generations.clone(),
            },
        )
    }

    /// The second step of a compaction, for when the copy is on disk:
    /// every pointer moves to its record's copy, the two new segments are
    /// the only ones alive, the new active one is empty, and no byte is
    /// dead.
    pub fn finish_compaction(&mut self) -> (r: Result<()>)
        requires
            old(self).wf(),
        ensures
            final(self).wf(),
            match r {
                Ok(_) => {
                    &&& old(self).can_compact()
                    &&& final(self).keys() == old(self).keys()
                    &&& final(self).pointers() == compacted_pointers(
                        old(self).pointers(),
                        (old(self)@.active() + 1) as u64,
                    )
                    &&& final(self)@ == old(self)@.compacted(old(self).keys(), old(self).pointers())
                },
                Err(e) => {
                    &&& !old(self).can_compact()
                    &&& e.plain(ErrorKind::Io)
                    &&& *final(self) == *old(self)
                },
            },
    {
        let active: u64 = self.generations[self.generations.len() - 1];
        if active > u64::MAX - 2 || self.live_length().is_none() {
            return Err(KvsError::of(ErrorKind::Io));
        }
        let generation: u64 = active + 1;
        let ghost before = self.pointers();
        let count: usize = self.index.len();
        let mut offset: u64 = 0;
        let mut i: usize = 0;
        while i < count
            invariant
                self.index.wf(),
                self.index.keys() == old(self).keys(),
                before == old(self).pointers(),
                total_length(before) <= u64::MAX,
                count == before.len(),
                self.index.pointers().len() == count,
                i <= count,
                offset == offset_before(before, i as int),
                forall|j: int|
                    0 <= j < i ==> self.index.pointers()[j] == compacted_pointers(
                        before,
                        generation,
                    )[j],
                forall|j: int| i <= j < count ==> self.index.pointers()[j] == before[j],
            decreases count - i,
        {
            let length: u64 = self.index.pointer_at(i).length;
            proof {
                lemma_offset_before_grows(before, i + 1, count as int);
            }
            self.index.set_pointer_at(i, LogPointer { generation, offset, length });
            offset = offset + length;
            i += 1;
        }
        assert(self.index.pointers() =~= compacted_pointers(before, generation));
        let mut generations: Vec<u64> = Vec::new();
        generations.push(generation);
        generations.push(active + 2);
        self.generations = generations;
        self.position = 0;
        self.uncompacted = 0;
        proof {
            self.index.lemma_view();
            assert(self.generations@ =~= seq![generation, (active + 2) as u64]);
        }
        Ok(())
    }

    /// The generation of the active segment.
    pub fn active_generation(&self) -> (generation: u64)
        requires
            self.wf(),
        ensures
            generation == self@.active(),
    {
        self.generations[self.generations.len() - 1]
    }

    /// The generations of the segments that are alive, ascending.
    pub fn generations(&self) -> (generations: Vec<u64>)
        ensures
            generations@ == self@.generations,
    {
        self.generations.clone()
    }

    /// The length of the active segment.
    pub fn position(&self) -> (position: u64)
        ensures
            position == self@.position,
    {
        self.position
    }

    /// The number of bytes that no pointer refers to any more.
    pub fn uncompacted(&self) -> (uncompacted: u64)
        ensures
            uncompacted == self@.uncompacted,
    {
        self.uncompacted
    }

    /// The number of keys that have a value.
    pub fn len(&self) -> (n: usize)
        requires
            self.wf(),
        ensures
            n == self.keys().len(),
            n == self@.index.dom().len(),
    {
        self.index.len()
    }

    /// Whether a record of `len` bytes still fits behind the write position.
    pub open spec fn has_room(&self, len: nat) -> bool {
        self@.position + len <= u64::MAX
    }

    /// Takes `command` with its encoding, as `encode` gave it, for the
    /// active segment. An encoding that failed is handed on; a record
    /// that does not fit behind the write position is an `Io` error.
    pub fn stage(&self, command: KvsCommand, encoded: Result<Vec<u8>>) -> (r: Result<Append>)
        ensures
            match encoded {
                Ok(record) => if self.has_room(record@.len()) {
                    r == Ok::<Append, KvsError>((Append { command, record }))
                } else {
                    r matches Err(e) && e.plain(ErrorKind::Io)
                },
                Err(e) => r == Err::<Append, KvsError>(e),
            },
    {
        let record = match encoded {
            Ok(record) => record,
            Err(e) => {
                return Err(e);
            },
        };
        if record.len() as u64 > u64::MAX - self.position {
            return Err(KvsError::of(ErrorKind::Io));
        }
        Ok(Append { command, record })
    }

    /// The first step of setting `key` to `value`: the record to append to
    /// the active segment. It is there where the strings are read back from
    /// their texts and the record fits behind the write position; else the
    /// error is of kind `Codec`, or without room of kind `Io`. The store does
    /// not change before `commit`.
    pub fn set(&self, key: String, value: String) -> (r: Result<Append>)
        requires
            self.wf(),
        ensures
            ({
                let c = CommandView::Put { key: key@, value: value@ };
                &&& r is Ok <==> encodable(c) && self.has_room(record_bytes(c).len())
                &&& (r matches Err(e) && e.kind == ErrorKind::Codec) <==> !encodable(c)
                &&& match r {
                    Ok(append) => {
                        &&& append.wf()
                        &&& append.command@ == c
                        &&& append.record@ == record_bytes(c)
                    },
                    Err(e) => e.plain(ErrorKind::Codec) || e.plain(ErrorKind::Io),
                }
            }),
    {
        let command = KvsCommand::Put { key, value };
        let outcome = encode(&command);
        self.stage(command, outcome)
    }

    /// The first step of removing `key`: the record to append to the
    /// active segment. A key without a value is an error of kind
    /// `KeyNotFound`, and nothing is to be written. Else the record is
    /// there where the key is read back from its text and the record fits
    /// behind the write position; else the error is of kind `Codec`, or
    /// without room of kind `Io`. The store does not change before `commit`.
    pub fn remove(&self, key: String) -> (r: Result<Append>)
        requires
            self.wf(),
        ensures
            ({
                let c = CommandView::Rm { key: key@ };
                let found = self@.index.contains_key(key@);
                &&& r is Ok <==> found && encodable(c) && self.has_room(record_bytes(c).len())
                &&& (r matches Err(e) && e.kind == ErrorKind::KeyNotFound) <==> !found
                &&& (r matches Err(e) && e.kind == ErrorKind::Codec) <==> found && !encodable(c)
                &&& match r {
                    Ok(append) => {
                        &&& append.wf()
                        &&& append.command@ == c
                        &&& append.record@ == record_bytes(c)
                    },
                    Err(e) => e.plain(ErrorKind::KeyNotFound) || e.plain(ErrorKind::Codec)
                        || e.plain(ErrorKind::Io),
                }
            }),
    {
        if !self.index.contains_key(key.as_str()) {
            return Err(KvsError::of(ErrorKind::KeyNotFound));
        }
        let command = KvsCommand::Rm { key };
        let outcome = encode(&command);
        self.stage(command, outcome)
    }

    /// The second step of `set` and `remove`, for when the record is on
    /// disk: enters it into the key directory, moves the write position
    /// behind it, and counts the bytes that died with it. Returns whether
    /// the log is now to be compacted.
    ///
    /// A record that does not fit behind the write position is an error,
    /// and the store does not change.
    pub fn commit(&mut self, append: Append) -> (r: Result<bool>)
        requires
            old(self).wf(),
        ensures
            final(self).wf(),
            match r {
                Ok(compact) => {
                    &&& old(self).has_room(append.record@.len())
                    &&& final(self)@ == old(self)@.after(append.command@, append.record@.len())
                    &&& compact == (final(self)@.uncompacted > COMPACTION_THRESHOLD)
                },
                Err(e) => {
                    &&& !old(self).has_room(append.record@.len())
                    &&& e.plain(ErrorKind::Io)
                    &&& *final(self) == *old(self)
                },
            },
    {
        let len: u64 = append.record.len() as u64;
        if len > u64::MAX - self.position {
            return Err(KvsError::of(ErrorKind::Io));
        }
        let active: u64 = self.generations[self.generations.len() - 1];
        let pointer = LogPointer::spanning(active, self.position, self.position + len);
        match append.command {
            KvsCommand::Put { key, .. } => {
                if let Some(before) = self.index.insert(key, pointer) {
                    self.uncompacted = self.uncompacted.saturating_add(before.length);
                }
            },
            KvsCommand::Rm { key } => {
                if let Some(before) = self.index.remove(key.as_str()) {
                    self.uncompacted = self.uncompacted.saturating_add(before.length);
                }
                self.uncompacted = self.uncompacted.saturating_add(len);
            },
        }
        self.position = self.position + len;
        proof {
            self.index.lemma_view();
        }
        Ok(self.uncompacted > COMPACTION_THRESHOLD)
    }

    /// The first step of getting the value of `key`: the pointer to its
    /// record, or `None` for a key without a value.
    pub fn get(&self, key: &str) -> (r: Option<LogPointer>)
        requires
            self.wf(),
        ensures
            r == if self@.index.contains_key(key@) {
                Some(self@.index[key@])
            } else {
                None
            },
    {
        self.index.get(key)
    }

    /// The second step of `get`: the value of `key` in the bytes that its
    /// pointer refers to. Bytes that are not one whole `Put` record of
    /// `key` are an error.
    pub fn read_value(key: &str, bytes: &[u8]) -> (r: Result<String>)
        ensures
            match r {
                Ok(value) => parse_record(bytes@) == Parsed::Record(
                    CommandView::Put { key: key@, value: value@ },
                    bytes@.len(),
                ),
                Err(e) => {
                    &&& e.plain(ErrorKind::Integrity)
                    &&& forall|value: Seq<char>|
                        parse_record(bytes@) != Parsed::Record(
                            CommandView::Put { key: key@, value },
                            bytes@.len(),
                        )
                },
            },
    {
        match decode(bytes) {
            Decoded::Record(KvsCommand::Put { key: found, value }, len) => {
                if len == bytes.len() && same_key(found.as_str(), key) {
                    Ok(value)
                } else {
                    Err(KvsError::of(ErrorKind::Integrity))
                }
            },
            _ => Err(KvsError::of(ErrorKind::Integrity)),
        }
    }
}

} // verus!
