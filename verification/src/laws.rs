//! What the engine guarantees, stated over a directory as a mathematical
//! value: a map from each generation to the bytes of its segment.
//!
//! The store never sees the directory. These laws say what holds when the
//! caller does to the directory what each step asks for: append the record
//! before `commit`, copy the records before `finish_compaction`, create the
//! new active segment after `open`.

use vstd::prelude::*;
use crate::codec::{
    agree, lemma_record_alone, lemma_record_bounds, lemma_record_cut_short, parse_record,
    CommandView, Parsed,
};
use crate::error::ErrorKind;
use crate::keydir::{
    dir_map, key_before, lemma_dir_map_insert, lemma_key_before_one_way, lemma_ordered_position,
    ordered,
};
use crate::names::ascending;
use crate::pointer::LogPointer;
use crate::replay::{
    apply, clip, record_follows, replay_from, replay_segment, LogState, Replayed,
};
use crate::store::{
    compacted_pointers, generations_of, lemma_offset_before_grows, offset_before, opened,
    replay_all, total_length, SegmentView, StoreView,
};

verus! {

/// The bytes that a pointer refers to.
pub open spec fn record_at(disk: Map<u64, Seq<u8>>, p: LogPointer) -> Seq<u8> {
    disk[p.generation].subrange(p.offset as int, p.end())
}

/// The value that a `get` of `key` finds through the pointer `p`: that of
/// the `Put` record of `key` that the pointer's bytes are, if they are one.
pub open spec fn value_at(disk: Map<u64, Seq<u8>>, key: Seq<char>, p: LogPointer) -> Option<
    Seq<char>,
> {
    if disk.contains_key(p.generation) && p.end() <= disk[p.generation].len() {
        match parse_record(record_at(disk, p)) {
            Parsed::Record(CommandView::Put { key: found, value }, len) => if found == key && len
                == p.length {
                Some(value)
            } else {
                None
            },
            _ => None,
        }
    } else {
        None
    }
}

/// Every key of the directory can be read.
pub open spec fn readable(index: Map<Seq<char>, LogPointer>, disk: Map<u64, Seq<u8>>) -> bool {
    forall|key: Seq<char>| #[trigger]
        index.contains_key(key) ==> value_at(disk, key, index[key]) is Some
}

/// The mapping from keys to values that the store holds.
pub open spec fn contents(index: Map<Seq<char>, LogPointer>, disk: Map<u64, Seq<u8>>) -> Map<
    Seq<char>,
    Seq<char>,
> {
    Map::new(
        |key: Seq<char>| index.contains_key(key),
        |key: Seq<char>| value_at(disk, key, index[key])->Some_0,
    )
}

/// From `pos` on, the bytes are whole records and nothing else.
pub open spec fn whole_from(bytes: Seq<u8>, pos: nat) -> bool
    decreases bytes.len() - pos,
{
    if pos >= bytes.len() {
        true
    } else {
        match parse_record(bytes.skip(pos as int)) {
            Parsed::Record(_, len) => 0 < len <= bytes.len() - pos && whole_from(bytes, pos + len),
            _ => false,
        }
    }
}

/// The segments of the given generations as they stand in the directory.
pub open spec fn disk_segments(disk: Map<u64, Seq<u8>>, generations: Seq<u64>) -> Seq<SegmentView> {
    Seq::new(
        generations.len(),
        |i: int| SegmentView { generation: generations[i], bytes: disk[generations[i]] },
    )
}

/// The store and the directory belong together: the directory holds the
/// store's segments and no other, the active one is as long as the write
/// position says and holds whole records only, no segment is longer than a
/// `u64` can say, and the store is what a replay of the directory gives.
pub open spec fn consistent(s: StoreView, disk: Map<u64, Seq<u8>>) -> bool {
    let replayed = replay_all(disk_segments(disk, s.generations), s.generations.len());
    &&& s.wf()
    &&& disk.dom() == s.generations.to_set()
    &&& forall|g: u64| #[trigger] disk.contains_key(g) ==> disk[g].len() <= u64::MAX
    &&& disk[s.active()].len() == s.position
    &&& whole_from(disk[s.active()], 0)
    &&& replayed.sound
    &&& replayed.state.index == s.index
    &&& clip(replayed.state.uncompacted) == s.uncompacted
    &&& readable(s.index, disk)
}

/// The bytes of a record, cut out of a longer sequence, read as the record.
pub proof fn lemma_record_cut(bytes: Seq<u8>, pos: int)
    requires
        0 <= pos <= bytes.len(),
        parse_record(bytes.skip(pos)) is Record,
    ensures
        ({
            let len = parse_record(bytes.skip(pos))->Record_1;
            &&& 0 < len <= bytes.len() - pos
            &&& parse_record(bytes.subrange(pos, pos + len)) == parse_record(bytes.skip(pos))
        }),
{
    let rest = bytes.skip(pos);
    let len = parse_record(rest)->Record_1;
    lemma_record_bounds(rest);
    lemma_record_alone(rest, bytes.subrange(pos, pos + len));
}

/// A replay leaves every key readable in the segment's directory.
pub proof fn lemma_replay_readable(
    disk: Map<u64, Seq<u8>>,
    generation: u64,
    pos: nat,
    st: LogState,
)
    requires
        disk.contains_key(generation),
        disk[generation].len() <= u64::MAX,
        pos <= disk[generation].len(),
        readable(st.index, disk),
    ensures
        readable(replay_from(disk[generation], pos, generation, st).state.index, disk),
    decreases disk[generation].len() - pos,
{
    let bytes = disk[generation];
    if pos < bytes.len() {
        match parse_record(bytes.skip(pos as int)) {
            Parsed::Record(c, len) => {
                if 0 < len <= bytes.len() - pos {
                    lemma_record_cut(bytes, pos as int);
                    let st2 = apply(st, c, generation, pos, len);
                    let p = LogPointer { generation, offset: pos as u64, length: len as u64 };
                    assert(record_at(disk, p) == bytes.subrange(pos as int, (pos + len) as int));
                    assert forall|key: Seq<char>| #[trigger]
                        st2.index.contains_key(key) implies value_at(disk, key, st2.index[key])
                        is Some by {
                        if c is Put && key == c.key() {
                            assert(st2.index[key] == p);
                        } else {
                            assert(st.index.contains_key(key));
                        }
                    }
                    lemma_replay_readable(disk, generation, pos + len, st2);
                }
            },
            _ => {},
        }
    }
}

/// A replay of segments of the directory leaves every key readable.
pub proof fn lemma_replay_all_readable(disk: Map<u64, Seq<u8>>, generations: Seq<u64>, n: nat)
    requires
        n <= generations.len(),
        forall|i: int|
            0 <= i < generations.len() ==> disk.contains_key(#[trigger] generations[i])
                && disk[generations[i]].len() <= u64::MAX,
    ensures
        readable(replay_all(disk_segments(disk, generations), n).state.index, disk),
    decreases n,
{
    if n > 0 {
        let segments = disk_segments(disk, generations);
        lemma_replay_all_readable(disk, generations, (n - 1) as nat);
        let before = replay_all(segments, (n - 1) as nat);
        if before.sound {
            let g = generations[n - 1];
            assert(disk.contains_key(g));
            lemma_replay_readable(disk, g, 0, before.state);
        }
    }
}

/// A replay of the first `n` segments looks at no other segment.
pub proof fn lemma_replay_all_local(a: Seq<SegmentView>, b: Seq<SegmentView>, n: nat)
    requires
        n <= a.len(),
        n <= b.len(),
        forall|i: int| 0 <= i < n ==> a[i] == b[i],
    ensures
        replay_all(a, n) == replay_all(b, n),
    decreases n,
{
    if n > 0 {
        lemma_replay_all_local(a, b, (n - 1) as nat);
    }
}

/// Behind a segment of whole records, one more record is replayed as one
/// more step.
pub proof fn lemma_replay_appended(
    bytes: Seq<u8>,
    rec: Seq<u8>,
    c: CommandView,
    pos: nat,
    generation: u64,
    st: LogState,
)
    requires
        pos <= bytes.len(),
        whole_from(bytes, pos),
        parse_record(rec) == Parsed::Record(c, rec.len()),
    ensures
        ({
            let r = replay_from(bytes, pos, generation, st);
            let r2 = replay_from(bytes + rec, pos, generation, st);
            &&& r.sound
            &&& r2.sound
            &&& r2.state == apply(r.state, c, generation, bytes.len(), rec.len())
        }),
        whole_from(bytes + rec, pos),
    decreases bytes.len() - pos,
{
    let longer = bytes + rec;
    lemma_record_bounds(rec);
    if pos < bytes.len() {
        let rest = bytes.skip(pos as int);
        let c0 = parse_record(rest)->Record_0;
        let len = parse_record(rest)->Record_1;
        lemma_record_alone(rest, longer.skip(pos as int));
        lemma_replay_appended(
            bytes,
            rec,
            c,
            pos + len,
            generation,
            apply(st, c0, generation, pos, len),
        );
    } else {
        assert(longer.skip(pos as int) =~= rec);
        let st2 = apply(st, c, generation, pos, rec.len());
        assert(replay_from(longer, pos + rec.len(), generation, st2) == Replayed {
            state: st2,
            sound: true,
        });
        assert(whole_from(longer, pos + rec.len()));
    }
}

/// A pointer reads the same where its segment has only grown.
pub proof fn lemma_value_stays(
    disk: Map<u64, Seq<u8>>,
    disk2: Map<u64, Seq<u8>>,
    key: Seq<char>,
    p: LogPointer,
)
    requires
        value_at(disk, key, p) is Some,
        disk2.contains_key(p.generation),
        disk[p.generation].len() <= disk2[p.generation].len(),
        disk2[p.generation].take(disk[p.generation].len() as int) == disk[p.generation],
    ensures
        value_at(disk2, key, p) == value_at(disk, key, p),
{
    let a = disk[p.generation];
    let b = disk2[p.generation];
    assert forall|i: int| 0 <= i < a.len() implies a[i] == b[i] by {
        assert(b.take(a.len() as int)[i] == b[i]);
    }
    assert(record_at(disk2, p) =~= record_at(disk, p));
}

/// Counting on from a count that has stopped gives the count.
pub proof fn lemma_clip_sum(a: nat, b: nat)
    ensures
        clip(clip(a) as nat + b) == clip(a + b),
{
}

/// The directory after `rec` has been appended to the active segment.
pub open spec fn appended(s: StoreView, disk: Map<u64, Seq<u8>>, rec: Seq<u8>) -> Map<
    u64,
    Seq<u8>,
> {
    disk.insert(s.active(), disk[s.active()] + rec)
}

/// What a committed record does. Where the store and the directory belong
/// together, and the caller has appended to the active segment a record
/// that reads as `c`, then after `commit` they belong together again, and
/// the mapping from keys to values has changed by `c` alone: a `Put` gives
/// its key its value, an `Rm` takes its key out, and every other key keeps
/// what it had.
pub proof fn law_commit(s: StoreView, disk: Map<u64, Seq<u8>>, c: CommandView, rec: Seq<u8>)
    requires
        consistent(s, disk),
        parse_record(rec) == Parsed::Record(c, rec.len()),
        s.position + rec.len() <= u64::MAX,
    ensures
        ({
            let s2 = s.after(c, rec.len());
            let disk2 = appended(s, disk, rec);
            &&& consistent(s2, disk2)
            &&& contents(s2.index, disk2) == match c {
                CommandView::Put { key, value } => contents(s.index, disk).insert(key, value),
                CommandView::Rm { key } => contents(s.index, disk).remove(key),
            }
        }),
{
    let s2 = s.after(c, rec.len());
    let active = s.active();
    let bytes = disk[active];
    let disk2 = appended(s, disk, rec);
    let gens = s.generations;
    let n = gens.len();
    let segs = disk_segments(disk, gens);
    let segs2 = disk_segments(disk2, gens);
    assert(gens.to_set().contains(active)) by {
        assert(gens[n - 1] == active);
    }
    assert(disk.contains_key(active));
    assert(disk2.dom() =~= disk.dom());
    assert forall|i: int| 0 <= i < n - 1 implies segs[i] == segs2[i] by {
        assert(gens[i] < gens[n - 1]);
    }
    lemma_replay_all_local(segs, segs2, (n - 1) as nat);
    let before = replay_all(segs, (n - 1) as nat);
    let r = replay_all(segs, n);
    let r2 = replay_all(segs2, n);
    assert(before.sound);
    assert(segs[n - 1].bytes == bytes);
    assert(segs2[n - 1].bytes == bytes + rec);
    lemma_replay_appended(bytes, rec, c, 0, active, before.state);
    assert(r2.state == apply(r.state, c, active, bytes.len(), rec.len()));
    lemma_clip_sum(r.state.uncompacted, (r2.state.uncompacted - r.state.uncompacted) as nat);
    lemma_record_bounds(rec);
    let p = LogPointer { generation: active, offset: s.position, length: rec.len() as u64 };
    assert(record_at(disk2, p) =~= rec);
    assert forall|key: Seq<char>| #[trigger] s.index.contains_key(key) implies value_at(
        disk2,
        key,
        s.index[key],
    ) == value_at(disk, key, s.index[key]) by {
        let q = s.index[key];
        assert(disk.contains_key(q.generation));
        if q.generation == active {
            assert((bytes + rec).take(bytes.len() as int) =~= bytes);
        } else {
            assert(disk2[q.generation].take(disk[q.generation].len() as int) =~= disk[q.generation]);
        }
        lemma_value_stays(disk, disk2, key, q);
    }
    assert(readable(s2.index, disk2)) by {
        assert forall|key: Seq<char>| #[trigger] s2.index.contains_key(key) implies value_at(
            disk2,
            key,
            s2.index[key],
        ) is Some by {
            if c is Put && key == c.key() {
                assert(s2.index[key] == p);
            } else {
                assert(s.index.contains_key(key));
            }
        }
    }
    match c {
        CommandView::Put { key, value } => {
            assert(s2.index[key] == p);
            assert(contents(s2.index, disk2) =~= contents(s.index, disk).insert(key, value));
        },
        CommandView::Rm { key } => {
            assert(contents(s2.index, disk2) =~= contents(s.index, disk).remove(key));
        },
    }
}

/// Values stay where every segment of the directory has only grown.
pub proof fn lemma_contents_stay(
    index: Map<Seq<char>, LogPointer>,
    disk: Map<u64, Seq<u8>>,
    disk2: Map<u64, Seq<u8>>,
)
    requires
        readable(index, disk),
        forall|g: u64| #[trigger]
            disk.contains_key(g) ==> disk2.contains_key(g) && disk2[g] == disk[g],
    ensures
        readable(index, disk2),
        contents(index, disk2) == contents(index, disk),
{
    assert forall|key: Seq<char>| #[trigger] index.contains_key(key) implies value_at(
        disk2,
        key,
        index[key],
    ) == value_at(disk, key, index[key]) by {
        let p = index[key];
        assert(disk.contains_key(p.generation));
        assert(disk2[p.generation].take(disk[p.generation].len() as int) =~= disk[p.generation]);
        lemma_value_stays(disk, disk2, key, p);
    }
    assert(contents(index, disk2) =~= contents(index, disk));
}

/// What `open` gives. Where the directory holds the segments of
/// `generations` and `open` builds the store `s` from them, then, once the
/// caller has created the new active segment, empty, the store and the
/// directory belong together.
pub proof fn law_open(disk: Map<u64, Seq<u8>>, generations: Seq<u64>, s: StoreView)
    requires
        disk.dom() == generations.to_set(),
        forall|g: u64| #[trigger] disk.contains_key(g) ==> disk[g].len() <= u64::MAX,
        opened(disk_segments(disk, generations)) == Ok::<StoreView, ErrorKind>(s),
    ensures
        s.generations == generations.push(s.active()),
        !disk.contains_key(s.active()),
        consistent(s, disk.insert(s.active(), Seq::empty())),
{
    let segs = disk_segments(disk, generations);
    let n = generations.len();
    assert(generations_of(segs) =~= generations);
    let next = s.active();
    assert(s.generations == generations.push(next));
    assert forall|i: int| 0 <= i < n implies #[trigger] generations[i] < next by {
        if i < n - 1 {
            assert(generations[i] < generations[n - 1]);
        }
    }
    assert(!disk.contains_key(next)) by {
        if disk.contains_key(next) {
            assert(generations.to_set().contains(next));
            let i = generations.index_of(next);
            assert(generations[i] < next);
        }
    }
    let disk2 = disk.insert(next, Seq::<u8>::empty());
    let segs2 = disk_segments(disk2, s.generations);
    assert forall|i: int| 0 <= i < n implies segs[i] == segs2[i] by {
        assert(generations[i] < next);
        assert(s.generations[i] == generations[i]);
    }
    lemma_replay_all_local(segs, segs2, n);
    assert(segs2[n as int].bytes == Seq::<u8>::empty());
    assert(replay_all(segs2, n + 1) == replay_all(segs, n));
    assert forall|i: int| 0 <= i < n implies disk.contains_key(#[trigger] generations[i])
        && disk[generations[i]].len() <= u64::MAX by {
        assert(generations.to_set().contains(generations[i]));
    }
    lemma_replay_all_readable(disk, generations, n);
    lemma_contents_stay(s.index, disk, disk2);
    assert(disk2.dom() =~= s.generations.to_set()) by {
        assert forall|g: u64| disk2.dom().contains(g) <==> s.generations.to_set().contains(g) by {
            if s.generations.to_set().contains(g) {
                let i = s.generations.index_of(g);
                if i < n {
                    assert(generations.to_set().contains(generations[i]));
                }
            }
            if disk2.dom().contains(g) {
                if g == next {
                    assert(s.generations[n as int] == g);
                } else {
                    assert(generations.to_set().contains(g));
                    let i = generations.index_of(g);
                    assert(s.generations[i] == g);
                }
            }
        }
    }
    assert(ascending(s.generations));
}

/// Persistence. Where the store and the directory belong together, a
/// store that is opened anew on the directory holds the same pointers and
/// the same count of dead bytes, and so the same mapping from keys to
/// values. It fails only where the active generation has no successor.
pub proof fn law_reopen(s: StoreView, disk: Map<u64, Seq<u8>>)
    requires
        consistent(s, disk),
    ensures
        match opened(disk_segments(disk, s.generations)) {
            Ok(s2) => {
                let disk2 = disk.insert(s2.active(), Seq::empty());
                &&& s.active() < u64::MAX
                &&& s2.active() == s.active() + 1
                &&& s2.index == s.index
                &&& s2.uncompacted == s.uncompacted
                &&& consistent(s2, disk2)
                &&& contents(s2.index, disk2) == contents(s.index, disk)
            },
            Err(kind) => kind == ErrorKind::Io && s.active() == u64::MAX,
        },
{
    let segs = disk_segments(disk, s.generations);
    assert(generations_of(segs) =~= s.generations);
    if s.active() < u64::MAX {
        let s2 = opened(segs)->Ok_0;
        law_open(disk, s.generations, s2);
        lemma_contents_stay(s.index, disk, disk.insert(s2.active(), Seq::empty()));
    }
}

/// The bytes of a compaction segment when the records of the first `i`
/// pointers have been copied into it.
pub open spec fn copied(disk: Map<u64, Seq<u8>>, pointers: Seq<LogPointer>, i: int) -> Seq<u8>
    decreases i,
{
    if i <= 0 {
        Seq::empty()
    } else {
        copied(disk, pointers, i - 1) + record_at(disk, pointers[i - 1])
    }
}

/// The record at a position of a readable directory: a whole `Put` of the
/// key there, as long as the pointer says, and not empty.
pub proof fn lemma_live_record(
    disk: Map<u64, Seq<u8>>,
    keys: Seq<Seq<char>>,
    pointers: Seq<LogPointer>,
    i: int,
)
    requires
        ordered(keys),
        keys.len() == pointers.len(),
        readable(dir_map(keys, pointers), disk),
        0 <= i < keys.len(),
    ensures
        dir_map(keys, pointers).contains_key(keys[i]),
        dir_map(keys, pointers)[keys[i]] == pointers[i],
        value_at(disk, keys[i], pointers[i]) is Some,
        record_at(disk, pointers[i]).len() == pointers[i].length,
        pointers[i].length > 0,
        parse_record(record_at(disk, pointers[i])) == Parsed::Record(
            CommandView::Put {
                key: keys[i],
                value: value_at(disk, keys[i], pointers[i])->Some_0,
            },
            pointers[i].length as nat,
        ),
{
    lemma_ordered_position(keys, i);
    assert(dir_map(keys, pointers).contains_key(keys[i]));
    lemma_record_bounds(record_at(disk, pointers[i]));
}

/// A compaction segment is as long as the records copied into it.
pub proof fn lemma_copied_len(
    disk: Map<u64, Seq<u8>>,
    keys: Seq<Seq<char>>,
    pointers: Seq<LogPointer>,
    i: int,
)
    requires
        ordered(keys),
        keys.len() == pointers.len(),
        readable(dir_map(keys, pointers), disk),
        0 <= i <= keys.len(),
    ensures
        copied(disk, pointers, i).len() == offset_before(pointers, i),
        i > 0 ==> offset_before(pointers, i) > 0,
    decreases i,
{
    if i > 0 {
        lemma_copied_len(disk, keys, pointers, i - 1);
        lemma_live_record(disk, keys, pointers, i - 1);
    }
}

/// Each record stands in the compaction segment where its new pointer
/// says, whatever is copied behind it.
pub proof fn lemma_copied_slice(
    disk: Map<u64, Seq<u8>>,
    keys: Seq<Seq<char>>,
    pointers: Seq<LogPointer>,
    i: int,
    n: int,
)
    requires
        ordered(keys),
        keys.len() == pointers.len(),
        readable(dir_map(keys, pointers), disk),
        0 <= i < n <= keys.len(),
    ensures
        offset_before(pointers, i) + pointers[i].length <= copied(disk, pointers, n).len(),
        copied(disk, pointers, n).subrange(
            offset_before(pointers, i) as int,
            offset_before(pointers, i) + pointers[i].length,
        ) == record_at(disk, pointers[i]),
    decreases n,
{
    lemma_copied_len(disk, keys, pointers, n - 1);
    lemma_copied_len(disk, keys, pointers, n);
    lemma_live_record(disk, keys, pointers, n - 1);
    let off = offset_before(pointers, i) as int;
    let len = pointers[i].length as int;
    if i == n - 1 {
        assert(copied(disk, pointers, n).subrange(off, off + len) =~= record_at(disk, pointers[i]));
    } else {
        lemma_copied_slice(disk, keys, pointers, i, n - 1);
        assert(copied(disk, pointers, n).subrange(off, off + len) =~= copied(
            disk,
            pointers,
            n - 1,
        ).subrange(off, off + len));
    }
}

/// The state of a replay of a compaction segment that has read the
/// records of the first `i` keys.
pub open spec fn copied_state(
    keys: Seq<Seq<char>>,
    pointers: Seq<LogPointer>,
    generation: u64,
    i: int,
) -> LogState {
    LogState {
        index: dir_map(keys.take(i), compacted_pointers(pointers, generation).take(i)),
        uncompacted: 0,
    }
}

/// A replay of a compaction segment gives each key the pointer to its
/// copy, and finds no dead byte.
pub proof fn lemma_replay_copied(
    disk: Map<u64, Seq<u8>>,
    keys: Seq<Seq<char>>,
    pointers: Seq<LogPointer>,
    generation: u64,
    i: int,
)
    requires
        ordered(keys),
        keys.len() == pointers.len(),
        readable(dir_map(keys, pointers), disk),
        total_length(pointers) <= u64::MAX,
        0 <= i <= keys.len(),
    ensures
        ({
            let all = copied(disk, pointers, keys.len() as int);
            &&& replay_from(
                all,
                offset_before(pointers, i),
                generation,
                copied_state(keys, pointers, generation, i),
            ) == Replayed {
                state: copied_state(keys, pointers, generation, keys.len() as int),
                sound: true,
            }
            &&& whole_from(all, offset_before(pointers, i))
        }),
    decreases keys.len() - i,
{
    let n = keys.len() as int;
    let all = copied(disk, pointers, n);
    let moved = compacted_pointers(pointers, generation);
    let off = offset_before(pointers, i);
    lemma_copied_len(disk, keys, pointers, n);
    if i < n {
        lemma_live_record(disk, keys, pointers, i);
        lemma_copied_slice(disk, keys, pointers, i, n);
        lemma_offset_before_grows(pointers, i + 1, n);
        let rec = record_at(disk, pointers[i]);
        let len = pointers[i].length as nat;
        let value = value_at(disk, keys[i], pointers[i])->Some_0;
        let c = CommandView::Put { key: keys[i], value };
        assert(agree(rec, all.skip(off as int), len as int)) by {
            assert forall|k: int| 0 <= k < len implies rec[k] == all.skip(off as int)[k] by {
                assert(all.subrange(off as int, (off + len) as int)[k] == all[off + k]);
            }
        }
        lemma_record_alone(rec, all.skip(off as int));
        let st = copied_state(keys, pointers, generation, i);
        let st2 = apply(st, c, generation, off, len);
        assert(!st.index.contains_key(keys[i])) by {
            if keys.take(i).contains(keys[i]) {
                let j = keys.take(i).index_of(keys[i]);
                assert(key_before(keys[j], keys[i]));
                lemma_key_before_one_way(keys[j], keys[i]);
            }
        }
        assert(ordered(keys.take(i))) by {
            assert forall|a: int, b: int| 0 <= a < b < keys.take(i).len() implies key_before(
             #[trigger] keys.take(i)[a], #[trigger] keys.take(i)[b]) by {
                assert(key_before(keys[a], keys[b]));
            }
        }
        assert forall|a: int| 0 <= a < i implies key_before(
            #[trigger] keys.take(i)[a],
            keys[i],
        ) by {
            assert(key_before(keys[a], keys[i]));
        }
        lemma_dir_map_insert(keys.take(i), moved.take(i), i, keys[i], moved[i]);
        assert(keys.take(i).insert(i, keys[i]) =~= keys.take(i + 1));
        assert(moved.take(i).insert(i, moved[i]) =~= moved.take(i + 1));
        assert(st2 == copied_state(keys, pointers, generation, i + 1));
        lemma_replay_copied(disk, keys, pointers, generation, i + 1);
    } else {
        assert(keys.take(n) =~= keys);
    }
}

/// The directory after a compaction: the compaction segment with the
/// copies, the empty new active segment, and nothing else.
pub open spec fn compacted_disk(
    s: StoreView,
    disk: Map<u64, Seq<u8>>,
    pointers: Seq<LogPointer>,
) -> Map<u64, Seq<u8>> {
    Map::<u64, Seq<u8>>::empty().insert(
        (s.active() + 1) as u64,
        copied(disk, pointers, pointers.len() as int),
    ).insert((s.active() + 2) as u64, Seq::empty())
}

/// Compaction keeps the state, and leaves two segments. Where the store
/// and the directory belong together and a compaction is possible, the
/// directory that holds the copies in the compaction segment, the empty
/// new active segment and nothing else belongs together with the store
/// after `finish_compaction`; every key has the value that it had; the
/// compaction segment is as long as the live records together, and empty
/// only for a store without keys.
pub proof fn law_compaction(
    s: StoreView,
    disk: Map<u64, Seq<u8>>,
    keys: Seq<Seq<char>>,
    pointers: Seq<LogPointer>,
)
    requires
        consistent(s, disk),
        ordered(keys),
        keys.len() == pointers.len(),
        s.index == dir_map(keys, pointers),
        s.active() + 2 <= u64::MAX,
        total_length(pointers) <= u64::MAX,
    ensures
        ({
            let into = (s.active() + 1) as u64;
            let active = (s.active() + 2) as u64;
            let s2 = s.compacted(keys, pointers);
            let disk2 = compacted_disk(s, disk, pointers);
            &&& consistent(s2, disk2)
            &&& contents(s2.index, disk2) == contents(s.index, disk)
            &&& disk2.dom() == set![into, active]
            &&& disk2[active].len() == 0
            &&& disk2[into].len() == total_length(pointers)
            &&& (disk2[into].len() == 0 <==> keys.len() == 0)
        }),
{
    let n = keys.len() as int;
    let into = (s.active() + 1) as u64;
    let active = (s.active() + 2) as u64;
    let moved = compacted_pointers(pointers, into);
    let all = copied(disk, pointers, n);
    let s2 = StoreView {
        index: dir_map(keys, moved),
        generations: seq![into, active],
        position: 0,
        uncompacted: 0,
    };
    let disk2 = Map::<u64, Seq<u8>>::empty().insert(into, all).insert(active, Seq::empty());
    lemma_copied_len(disk, keys, pointers, n);
    lemma_replay_copied(disk, keys, pointers, into, 0);
    assert(copied_state(keys, pointers, into, 0).index =~= LogState::empty().index);
    assert(keys.take(n) =~= keys);
    assert(moved.take(n) =~= moved);
    let segs2 = disk_segments(disk2, s2.generations);
    assert(segs2[0] == SegmentView { generation: into, bytes: all });
    assert(segs2[1] == SegmentView { generation: active, bytes: Seq::<u8>::empty() });
    assert(replay_all(segs2, 0) == Replayed { state: LogState::empty(), sound: true });
    assert(replay_all(segs2, 1) == replay_segment(all, into, LogState::empty()));
    assert(replay_all(segs2, 2) == replay_all(segs2, 1));
    assert(disk2.dom() =~= set![into, active]);
    assert(disk2.dom() =~= s2.generations.to_set()) by {
        assert(s2.generations[0] == into);
        assert(s2.generations[1] == active);
    }
    assert forall|key: Seq<char>| #[trigger] s2.index.contains_key(key) implies s.index.contains_key(
        key,
    ) && value_at(disk2, key, s2.index[key]) == value_at(disk, key, s.index[key]) && value_at(
        disk,
        key,
        s.index[key],
    ) is Some by {
        let i = keys.index_of(key);
        lemma_live_record(disk, keys, pointers, i);
        lemma_copied_slice(disk, keys, pointers, i, n);
        lemma_offset_before_grows(pointers, i + 1, n);
        assert(s2.index[key] == moved[i]);
        assert(record_at(disk2, moved[i]) == record_at(disk, pointers[i]));
    }
    assert(contents(s2.index, disk2) =~= contents(s.index, disk));
}

/// Bounded segments after compaction. After a compaction of a store that
/// holds a key, the directory holds two segments and no more: the
/// compaction segment, which is not empty, and the new active segment,
/// which is.
pub proof fn law_bounded_segments(
    s: StoreView,
    disk: Map<u64, Seq<u8>>,
    keys: Seq<Seq<char>>,
    pointers: Seq<LogPointer>,
)
    requires
        consistent(s, disk),
        ordered(keys),
        keys.len() == pointers.len(),
        s.index == dir_map(keys, pointers),
        s.active() + 2 <= u64::MAX,
        total_length(pointers) <= u64::MAX,
        keys.len() > 0,
    ensures
        ({
            let into = (s.active() + 1) as u64;
            let active = (s.active() + 2) as u64;
            let disk2 = compacted_disk(s, disk, pointers);
            &&& disk2.dom() == set![into, active]
            &&& into != active
            &&& disk2[into].len() > 0
            &&& disk2[active].len() == 0
        }),
{
    law_compaction(s, disk, keys, pointers);
}

/// What `get` finds. The value that is read through a pointer is `value`
/// exactly where the bytes that the pointer refers to are, whole, the
/// `Put` record of the key with that value: the bytes of which `read_value`
/// returns `value`.
pub proof fn law_get(disk: Map<u64, Seq<u8>>, key: Seq<char>, p: LogPointer, value: Seq<char>)
    requires
        disk.contains_key(p.generation),
        p.end() <= disk[p.generation].len(),
    ensures
        value_at(disk, key, p) == Some(value) <==> parse_record(record_at(disk, p))
            == Parsed::Record(CommandView::Put { key, value }, record_at(disk, p).len()),
{
}

/// Read your writes. After a `set` of `key` to `value` has been committed,
/// `get` finds a pointer for `key`, and the value read through it is
/// `value`.
pub proof fn law_read_your_writes(
    s: StoreView,
    disk: Map<u64, Seq<u8>>,
    key: Seq<char>,
    value: Seq<char>,
    rec: Seq<u8>,
)
    requires
        consistent(s, disk),
        parse_record(rec) == Parsed::Record(CommandView::Put { key, value }, rec.len()),
        s.position + rec.len() <= u64::MAX,
    ensures
        ({
            let s2 = s.after(CommandView::Put { key, value }, rec.len());
            let disk2 = appended(s, disk, rec);
            &&& s2.index.contains_key(key)
            &&& value_at(disk2, key, s2.index[key]) == Some(value)
        }),
{
    let c = CommandView::Put { key, value };
    law_commit(s, disk, c, rec);
    let s2 = s.after(c, rec.len());
    let disk2 = appended(s, disk, rec);
    assert(contents(s2.index, disk2).contains_key(key));
    assert(contents(s2.index, disk2)[key] == value);
}

/// A value stays until its key is written again. A committed record
/// about another key leaves `key` as it was: with the same value, or
/// without one.
pub proof fn law_other_keys_stay(
    s: StoreView,
    disk: Map<u64, Seq<u8>>,
    c: CommandView,
    rec: Seq<u8>,
    key: Seq<char>,
)
    requires
        consistent(s, disk),
        parse_record(rec) == Parsed::Record(c, rec.len()),
        s.position + rec.len() <= u64::MAX,
        c.key() != key,
    ensures
        ({
            let s2 = s.after(c, rec.len());
            let disk2 = appended(s, disk, rec);
            &&& s2.index.contains_key(key) == s.index.contains_key(key)
            &&& s.index.contains_key(key) ==> value_at(disk2, key, s2.index[key]) == value_at(
                disk,
                key,
                s.index[key],
            )
        }),
{
    law_commit(s, disk, c, rec);
    let s2 = s.after(c, rec.len());
    let disk2 = appended(s, disk, rec);
    if s.index.contains_key(key) {
        assert(contents(s.index, disk).contains_key(key));
        assert(contents(s2.index, disk2)[key] == contents(s.index, disk)[key]);
    }
}

/// Remove hides. After a `remove` of `key` has been committed, `key` has
/// no pointer: `get` finds nothing, and another `remove` is refused with
/// `KeyNotFound`.
pub proof fn law_remove_hides(s: StoreView, disk: Map<u64, Seq<u8>>, key: Seq<char>, rec: Seq<u8>)
    requires
        consistent(s, disk),
        parse_record(rec) == Parsed::Record(CommandView::Rm { key }, rec.len()),
        s.position + rec.len() <= u64::MAX,
    ensures
        ({
            let s2 = s.after(CommandView::Rm { key }, rec.len());
            let disk2 = appended(s, disk, rec);
            &&& consistent(s2, disk2)
            &&& !s2.index.contains_key(key)
            &&& !contents(s2.index, disk2).contains_key(key)
        }),
{
    law_commit(s, disk, CommandView::Rm { key }, rec);
}

/// An end of a segment that a replay passes over: nothing, a record that
/// was cut short, or bytes that are no record and hold no whole record.
pub open spec fn passed_over(tail: Seq<u8>) -> bool {
    ||| tail.len() == 0
    ||| parse_record(tail) is Truncated
    ||| parse_record(tail) is Corrupt && !record_follows(tail, 1)
}

/// Behind a segment of whole records, an end that is passed over changes
/// nothing in a replay.
pub proof fn lemma_replay_torn(
    bytes: Seq<u8>,
    torn: Seq<u8>,
    pos: nat,
    generation: u64,
    st: LogState,
)
    requires
        pos <= bytes.len(),
        whole_from(bytes, pos),
        passed_over(torn),
    ensures
        replay_from(bytes + torn, pos, generation, st) == replay_from(bytes, pos, generation, st),
        replay_from(bytes, pos, generation, st).sound,
    decreases bytes.len() - pos,
{
    let longer = bytes + torn;
    if pos < bytes.len() {
        let rest = bytes.skip(pos as int);
        let c0 = parse_record(rest)->Record_0;
        let len = parse_record(rest)->Record_1;
        lemma_record_alone(rest, longer.skip(pos as int));
        lemma_replay_torn(bytes, torn, pos + len, generation, apply(st, c0, generation, pos, len));
    } else {
        assert(longer.skip(pos as int) =~= torn);
        if record_follows(longer, pos as int + 1) {
            let q = choose|q: int|
                pos + 1 <= q < longer.len() && (#[trigger] parse_record(longer.skip(q))) is Record;
            assert(longer.skip(q) =~= torn.skip(q - pos));
            assert(record_follows(torn, 1));
        }
    }
}

/// With an end that is passed over behind the active segment, a store that
/// is opened anew holds what the store held.
proof fn lemma_reopen_behind_tail(s: StoreView, disk: Map<u64, Seq<u8>>, tail: Seq<u8>)
    requires
        consistent(s, disk),
        passed_over(tail),
        s.position + tail.len() <= u64::MAX,
    ensures
        ({
            let torn = appended(s, disk, tail);
            match opened(disk_segments(torn, s.generations)) {
                Ok(s2) => {
                    let disk2 = torn.insert(s2.active(), Seq::empty());
                    &&& s2.index == s.index
                    &&& s2.uncompacted == s.uncompacted
                    &&& consistent(s2, disk2)
                    &&& contents(s2.index, disk2) == contents(s.index, disk)
                },
                Err(kind) => kind == ErrorKind::Io && s.active() == u64::MAX,
            }
        }),
{
    let active = s.active();
    let bytes = disk[active];
    let torn = appended(s, disk, tail);
    let gens = s.generations;
    let n = gens.len();
    let segs = disk_segments(disk, gens);
    let segs2 = disk_segments(torn, gens);
    assert(gens.to_set().contains(active)) by {
        assert(gens[n - 1] == active);
    }
    assert(torn.dom() =~= disk.dom());
    assert forall|i: int| 0 <= i < n - 1 implies segs[i] == segs2[i] by {
        assert(gens[i] < gens[n - 1]);
    }
    lemma_replay_all_local(segs, segs2, (n - 1) as nat);
    let before = replay_all(segs, (n - 1) as nat);
    assert(before.sound);
    assert(segs[n - 1].bytes == bytes);
    assert(segs2[n - 1].bytes == bytes + tail);
    lemma_replay_torn(bytes, tail, 0, active, before.state);
    assert(replay_all(segs2, n) == replay_all(segs, n));
    assert(generations_of(segs2) =~= gens);
    if active < u64::MAX {
        let s2 = opened(segs2)->Ok_0;
        law_open(torn, gens, s2);
        let disk2 = torn.insert(s2.active(), Seq::empty());
        assert forall|key: Seq<char>| #[trigger] s.index.contains_key(key) implies value_at(
            disk2,
            key,
            s.index[key],
        ) == value_at(disk, key, s.index[key]) by {
            let q = s.index[key];
            assert(disk.contains_key(q.generation));
            if q.generation == active {
                assert((bytes + tail).take(bytes.len() as int) =~= bytes);
            } else {
                assert(disk2[q.generation].take(disk[q.generation].len() as int)
                    =~= disk[q.generation]);
            }
            lemma_value_stays(disk, disk2, key, q);
        }
        assert(contents(s2.index, disk2) =~= contents(s.index, disk));
    }
}

/// A write that was cut short is forgotten. Where the store and the
/// directory belong together, and only a beginning of a record has reached
/// the active segment, a store that is opened anew on the directory holds
/// what the store held before that write: the same pointers, the same
/// count of dead bytes, the same values.
pub proof fn law_torn_write(s: StoreView, disk: Map<u64, Seq<u8>>, rec: Seq<u8>, k: int)
    requires
        consistent(s, disk),
        parse_record(rec) matches Parsed::Record(_, len) && 0 <= k < len,
        s.position + k <= u64::MAX,
    ensures
        ({
            let torn = appended(s, disk, rec.take(k));
            match opened(disk_segments(torn, s.generations)) {
                Ok(s2) => {
                    let disk2 = torn.insert(s2.active(), Seq::empty());
                    &&& s2.index == s.index
                    &&& s2.uncompacted == s.uncompacted
                    &&& consistent(s2, disk2)
                    &&& contents(s2.index, disk2) == contents(s.index, disk)
                },
                Err(kind) => kind == ErrorKind::Io && s.active() == u64::MAX,
            }
        }),
{
    lemma_record_bounds(rec);
    lemma_record_cut_short(rec, k);
    lemma_reopen_behind_tail(s, disk, rec.take(k));
}

/// A damaged end is passed over. Where the store and the directory belong
/// together, and bytes that are no record, and hold no whole record, have
/// reached the end of the active segment, a store that is opened anew on
/// the directory holds what the store held: no record before the damage
/// is lost.
pub proof fn law_damaged_end(s: StoreView, disk: Map<u64, Seq<u8>>, tail: Seq<u8>)
    requires
        consistent(s, disk),
        parse_record(tail) is Corrupt,
        !record_follows(tail, 1),
        s.position + tail.len() <= u64::MAX,
    ensures
        ({
            let torn = appended(s, disk, tail);
            match opened(disk_segments(torn, s.generations)) {
                Ok(s2) => {
                    let disk2 = torn.insert(s2.active(), Seq::empty());
                    &&& s2.index == s.index
                    &&& s2.uncompacted == s.uncompacted
                    &&& consistent(s2, disk2)
                    &&& contents(s2.index, disk2) == contents(s.index, disk)
                },
                Err(kind) => kind == ErrorKind::Io && s.active() == u64::MAX,
            }
        }),
{
    lemma_reopen_behind_tail(s, disk, tail);
}

} // verus!
