//! Histories: what holds after any sequence of writes, compactions and
//! reopenings.

use vstd::prelude::*;
use crate::codec::{parse_record, CommandView, Parsed};
use crate::keydir::{dir_map, ordered};
use crate::laws::{
    appended, compacted_disk, consistent, contents, disk_segments, law_commit, law_compaction,
    law_reopen,
};
use crate::pointer::LogPointer;
use crate::store::{opened, total_length, StoreView};

verus! {

/// A store together with its directory.
pub struct World {
    pub store: StoreView,
    pub disk: Map<u64, Seq<u8>>,
}

/// One thing that happens to a store and its directory.
pub enum Step {
    /// A record is appended to the active segment and committed.
    Write { command: CommandView, record: Seq<u8> },
    /// The log is compacted. The keys and pointers are those of the store,
    /// in the order of the keys.
    Compact { keys: Seq<Seq<char>>, pointers: Seq<LogPointer> },
    /// The store is closed and opened again, and its new active segment
    /// is created.
    Reopen,
}

/// Whether `step` can happen in `w`: the record reads as the command and
/// fits behind the write position; the keys and pointers are the store's
/// and a compaction is possible; the active generation has a successor.
#[verifier::opaque]
pub open spec fn allowed(w: World, step: Step) -> bool {
    match step {
        Step::Write { command, record } => {
            &&& parse_record(record) == Parsed::Record(command, record.len())
            &&& w.store.position + record.len() <= u64::MAX
        },
        Step::Compact { keys, pointers } => {
            &&& ordered(keys)
            &&& keys.len() == pointers.len()
            &&& w.store.index == dir_map(keys, pointers)
            &&& w.store.active() + 2 <= u64::MAX
            &&& total_length(pointers) <= u64::MAX
        },
        Step::Reopen => w.store.active() < u64::MAX,
    }
}

/// The store and the directory after `step`.
#[verifier::opaque]
pub open spec fn after(w: World, step: Step) -> World {
    match step {
        Step::Write { command, record } => World {
            store: w.store.after(command, record.len()),
            disk: appended(w.store, w.disk, record),
        },
        Step::Compact { keys, pointers } => World {
            store: w.store.compacted(keys, pointers),
            disk: compacted_disk(w.store, w.disk, pointers),
        },
        Step::Reopen => {
            let store = opened(disk_segments(w.disk, w.store.generations))->Ok_0;
            World { store, disk: w.disk.insert(store.active(), Seq::empty()) }
        },
    }
}

/// The store and the directory after all of `steps`.
pub open spec fn run(w: World, steps: Seq<Step>) -> World
    decreases steps.len(),
{
    if steps.len() == 0 {
        w
    } else {
        after(run(w, steps.drop_last()), steps.last())
    }
}

/// Whether each of `steps` can happen where the steps before it lead.
pub open spec fn run_allowed(w: World, steps: Seq<Step>) -> bool
    decreases steps.len(),
{
    steps.len() == 0 || (run_allowed(w, steps.drop_last()) && allowed(
        run(w, steps.drop_last()),
        steps.last(),
    ))
}

/// The mutations among `steps`, in their order.
pub open spec fn writes(steps: Seq<Step>) -> Seq<CommandView>
    decreases steps.len(),
{
    if steps.len() == 0 {
        Seq::empty()
    } else {
        match steps.last() {
            Step::Write { command, .. } => writes(steps.drop_last()).push(command),
            _ => writes(steps.drop_last()),
        }
    }
}

/// The mapping that `commands` make of `m`: each `Put` gives its key its
/// value, each `Rm` takes its key out.
pub open spec fn written(m: Map<Seq<char>, Seq<char>>, commands: Seq<CommandView>) -> Map<
    Seq<char>,
    Seq<char>,
>
    decreases commands.len(),
{
    if commands.len() == 0 {
        m
    } else {
        let before = written(m, commands.drop_last());
        match commands.last() {
            CommandView::Put { key, value } => before.insert(key, value),
            CommandView::Rm { key } => before.remove(key),
        }
    }
}

/// The mapping from keys to values of a store and its directory.
pub open spec fn mapping(w: World) -> Map<Seq<char>, Seq<char>> {
    contents(w.store.index, w.disk)
}

/// One step. A store and a directory that belong together do so after
/// every step that can happen. A write changes the mapping from keys to
/// values as its mutation says; a compaction and a reopening do not change
/// it.
pub proof fn law_step(w: World, step: Step)
    requires
        consistent(w.store, w.disk),
        allowed(w, step),
    ensures
        consistent(after(w, step).store, after(w, step).disk),
        mapping(after(w, step)) == match step {
            Step::Write { command, .. } => written(mapping(w), seq![command]),
            _ => mapping(w),
        },
{
    reveal(allowed);
    reveal(after);
    match step {
        Step::Write { command, record } => {
            law_commit(w.store, w.disk, command, record);
            assert(seq![command].drop_last() =~= Seq::<CommandView>::empty());
            assert(written(mapping(w), seq![command].drop_last()) == mapping(w));
        },
        Step::Compact { keys, pointers } => {
            law_compaction(w.store, w.disk, keys, pointers);
        },
        Step::Reopen => {
            law_reopen(w.store, w.disk);
        },
    }
}

/// Any history. After any sequence of steps, the store and the directory
/// belong together, and the mapping from keys to values is what the
/// mutations among the steps make of the mapping at the start, whatever
/// compactions and reopenings stand between them.
pub proof fn law_run(w: World, steps: Seq<Step>)
    requires
        consistent(w.store, w.disk),
        run_allowed(w, steps),
    ensures
        consistent(run(w, steps).store, run(w, steps).disk),
        mapping(run(w, steps)) == written(mapping(w), writes(steps)),
    decreases steps.len(),
{
    if steps.len() > 0 {
        let before = steps.drop_last();
        let last = steps.last();
        let mid = run(w, before);
        law_run(w, before);
        law_step(mid, last);
        assert(run(w, steps) == after(mid, last));
        let m = written(mapping(w), writes(before));
        match last {
            Step::Write { command, .. } => {
                assert(writes(steps) == writes(before).push(command));
                assert(writes(steps).drop_last() =~= writes(before));
                assert(writes(steps).last() == command);
                assert(seq![command].drop_last() =~= Seq::<CommandView>::empty());
                assert(seq![command].last() == command);
                assert(written(m, seq![command].drop_last()) == m);
            },
            _ => {
                assert(writes(steps) == writes(before));
            },
        }
    }
}

/// Compaction preserves state. Two histories of the same store that hold
/// the same mutations in the same order end with the same mapping from
/// keys to values, however many compactions and reopenings either of them
/// holds, and wherever.
pub proof fn law_compactions_change_nothing(w: World, a: Seq<Step>, b: Seq<Step>)
    requires
        consistent(w.store, w.disk),
        run_allowed(w, a),
        run_allowed(w, b),
        writes(a) == writes(b),
    ensures
        mapping(run(w, a)) == mapping(run(w, b)),
{
    law_run(w, a);
    law_run(w, b);
}

} // verus!
