//! The key directory: an ordered map from each live key to its pointer.
//!
//! The entries are kept in a vector, in the order of the keys' UTF-8 bytes,
//! which is the order of `str`.

use vstd::prelude::*;
use vstd::utf8::{encode_utf8, encode_utf8_decode_utf8};
use crate::pointer::LogPointer;

verus! {

/// `a` comes before `b`, looking at the bytes from `i` on.
pub open spec fn before_from(a: Seq<u8>, b: Seq<u8>, i: int) -> bool
    decreases a.len() - i,
{
    if i < 0 || i >= b.len() {
        false
    } else if i >= a.len() {
        true
    } else if a[i] != b[i] {
        a[i] < b[i]
    } else {
        before_from(a, b, i + 1)
    }
}

/// The order of keys: that of their UTF-8 bytes, byte by byte, a proper
/// prefix first.
pub open spec fn key_before(a: Seq<char>, b: Seq<char>) -> bool {
    before_from(encode_utf8(a), encode_utf8(b), 0)
}

proof fn lemma_before_chain(a: Seq<u8>, b: Seq<u8>, c: Seq<u8>, i: int)
    requires
        before_from(a, b, i),
        before_from(b, c, i),
    ensures
        before_from(a, c, i),
    decreases a.len() - i,
{
    if i < a.len() && a[i] == b[i] && b[i] == c[i] {
        lemma_before_chain(a, b, c, i + 1);
    }
}

proof fn lemma_before_one_way(a: Seq<u8>, b: Seq<u8>, i: int)
    requires
        before_from(a, b, i),
    ensures
        !before_from(b, a, i),
    decreases a.len() - i,
{
    if i < a.len() && a[i] == b[i] {
        lemma_before_one_way(a, b, i + 1);
    }
}

proof fn lemma_before_or_same(a: Seq<u8>, b: Seq<u8>, i: int)
    requires
        0 <= i <= a.len(),
        i <= b.len(),
        forall|k: int| 0 <= k < i ==> a[k] == b[k],
        !before_from(a, b, i),
        !before_from(b, a, i),
    ensures
        a == b,
    decreases a.len() - i,
{
    if i < a.len() && i < b.len() {
        lemma_before_or_same(a, b, i + 1);
    } else {
        assert(a =~= b);
    }
}

/// The order of keys is transitive.
pub proof fn lemma_key_before_chain(a: Seq<char>, b: Seq<char>, c: Seq<char>)
    requires
        key_before(a, b),
        key_before(b, c),
    ensures
        key_before(a, c),
{
    lemma_before_chain(encode_utf8(a), encode_utf8(b), encode_utf8(c), 0);
}

/// Of two keys at most one comes before the other, and none before itself.
pub proof fn lemma_key_before_one_way(a: Seq<char>, b: Seq<char>)
    requires
        key_before(a, b),
    ensures
        !key_before(b, a),
        a != b,
{
    lemma_before_one_way(encode_utf8(a), encode_utf8(b), 0);
}

/// Two keys of which neither comes before the other are the same key.
pub proof fn lemma_key_before_or_same(a: Seq<char>, b: Seq<char>)
    requires
        !key_before(a, b),
        !key_before(b, a),
    ensures
        a == b,
{
    lemma_before_or_same(encode_utf8(a), encode_utf8(b), 0);
    encode_utf8_decode_utf8(a);
    encode_utf8_decode_utf8(b);
}

/// How one key stands to another.
#[derive(Clone, Copy, Debug, PartialEq, Eq, Structural)]
pub enum Side {
    /// It comes first.
    Before,
    /// It is the same key.
    Same,
    /// It comes later.
    After,
}

/// How `a` stands to `b` in the order of keys.
pub fn key_side(a: &str, b: &str) -> (side: Side)
    ensures
        match side {
            Side::Before => key_before(a@, b@),
            Side::Same => a@ == b@,
            Side::After => key_before(b@, a@),
        },
{
    let x = a.as_bytes();
    let y = b.as_bytes();
    let mut i: usize = 0;
    while i < x.len() && i < y.len()
        invariant
            i <= x@.len(),
            i <= y@.len(),
            x@ == encode_utf8(a@),
            y@ == encode_utf8(b@),
            forall|k: int| 0 <= k < i ==> x@[k] == y@[k],
            before_from(x@, y@, i as int) == key_before(a@, b@),
            before_from(y@, x@, i as int) == key_before(b@, a@),
        decreases x@.len() - i,
    {
        if x[i] < y[i] {
            return Side::Before;
        }
        if x[i] > y[i] {
            return Side::After;
        }
        i += 1;
    }
    if i < y.len() {
        Side::Before
    } else if i < x.len() {
        Side::After
    } else {
        proof {
            lemma_key_before_or_same(a@, b@);
        }
        Side::Same
    }
}

/// Whether two keys are the same.
pub fn same_key(a: &str, b: &str) -> (same: bool)
    ensures
        same == (a@ == b@),
{
    match key_side(a, b) {
        Side::Same => true,
        Side::Before => {
            proof {
                lemma_key_before_one_way(a@, b@);
            }
            false
        },
        Side::After => {
            proof {
                lemma_key_before_one_way(b@, a@);
            }
            false
        },
    }
}

/// The keys stand in their order, each before all that follow it.
pub open spec fn ordered(keys: Seq<Seq<char>>) -> bool {
    forall|i: int, j: int| 0 <= i < j < keys.len() ==> key_before(#[trigger] keys[i], #[trigger] keys[j])
}

/// In an ordered sequence a key is found at one position only.
pub proof fn lemma_ordered_position(keys: Seq<Seq<char>>, i: int)
    requires
        ordered(keys),
        0 <= i < keys.len(),
    ensures
        keys.contains(keys[i]),
        keys.index_of(keys[i]) == i,
{
    let j = keys.index_of(keys[i]);
    if j < i {
        lemma_key_before_one_way(keys[j], keys[i]);
    } else if i < j {
        lemma_key_before_one_way(keys[i], keys[j]);
    }
}

/// The map that gives each key of `keys` the pointer at its position.
pub open spec fn dir_map(keys: Seq<Seq<char>>, pointers: Seq<LogPointer>) -> Map<
    Seq<char>,
    LogPointer,
> {
    Map::new(|k: Seq<char>| keys.contains(k), |k: Seq<char>| pointers[keys.index_of(k)])
}

/// A new pointer at a position is a new pointer for the key there.
pub proof fn lemma_dir_map_update(keys: Seq<Seq<char>>, pointers: Seq<LogPointer>, at: int, p: LogPointer)
    requires
        ordered(keys),
        keys.len() == pointers.len(),
        0 <= at < keys.len(),
    ensures
        dir_map(keys, pointers.update(at, p)) == dir_map(keys, pointers).insert(keys[at], p),
{
    let a = dir_map(keys, pointers.update(at, p));
    let b = dir_map(keys, pointers).insert(keys[at], p);
    lemma_ordered_position(keys, at);
    assert forall|k: Seq<char>| a.contains_key(k) implies a[k] == b[k] by {
        let i = keys.index_of(k);
        lemma_ordered_position(keys, i);
    }
    assert(a =~= b);
}

/// Entering a key at its place in the order enters it into the map.
pub proof fn lemma_dir_map_insert(
    keys: Seq<Seq<char>>,
    pointers: Seq<LogPointer>,
    at: int,
    k: Seq<char>,
    p: LogPointer,
)
    requires
        ordered(keys),
        keys.len() == pointers.len(),
        0 <= at <= keys.len(),
        forall|i: int| 0 <= i < at ==> key_before(#[trigger] keys[i], k),
        forall|i: int| at <= i < keys.len() ==> key_before(k, #[trigger] keys[i]),
    ensures
        ordered(keys.insert(at, k)),
        dir_map(keys.insert(at, k), pointers.insert(at, p)) == dir_map(keys, pointers).insert(k, p),
{
    let keys2 = keys.insert(at, k);
    let pointers2 = pointers.insert(at, p);
    assert forall|i: int, j: int| 0 <= i < j < keys2.len() implies key_before(
        #[trigger] keys2[i],
        #[trigger] keys2[j],
    ) by {
        if i < at && j > at {
            assert(key_before(keys[i], keys[j - 1]));
        } else if i < at && j < at {
            assert(key_before(keys[i], keys[j]));
        } else if i > at {
            assert(key_before(keys[i - 1], keys[j - 1]));
        }
    }
    let a = dir_map(keys2, pointers2);
    let b = dir_map(keys, pointers).insert(k, p);
    assert forall|x: Seq<char>| a.contains_key(x) <==> b.contains_key(x) by {
        if a.contains_key(x) {
            let i = keys2.index_of(x);
            if i < at {
                assert(keys[i] == x);
            } else if i > at {
                assert(keys[i - 1] == x);
            }
        }
        if b.contains_key(x) {
            if x == k {
                assert(keys2[at] == x);
            } else {
                let i = keys.index_of(x);
                if i < at {
                    assert(keys2[i] == x);
                } else {
                    assert(keys2[i + 1] == x);
                }
            }
        }
    }
    assert forall|x: Seq<char>| a.contains_key(x) implies a[x] == b[x] by {
        let i = keys2.index_of(x);
        lemma_ordered_position(keys2, i);
        if i < at {
            lemma_ordered_position(keys, i);
            lemma_key_before_one_way(x, k);
        } else if i > at {
            lemma_ordered_position(keys, i - 1);
            lemma_key_before_one_way(k, x);
        }
    }
    assert(a =~= b);
}

/// Taking a position out takes its key out of the map.
pub proof fn lemma_dir_map_remove(keys: Seq<Seq<char>>, pointers: Seq<LogPointer>, at: int)
    requires
        ordered(keys),
        keys.len() == pointers.len(),
        0 <= at < keys.len(),
    ensures
        ordered(keys.remove(at)),
        dir_map(keys.remove(at), pointers.remove(at)) == dir_map(keys, pointers).remove(keys[at]),
{
    let keys2 = keys.remove(at);
    let pointers2 = pointers.remove(at);
    assert forall|i: int, j: int| 0 <= i < j < keys2.len() implies key_before(
        #[trigger] keys2[i],
        #[trigger] keys2[j],
    ) by {
        let i0 = if i < at { i } else { i + 1 };
        let j0 = if j < at { j } else { j + 1 };
        assert(key_before(keys[i0], keys[j0]));
    }
    let a = dir_map(keys2, pointers2);
    let b = dir_map(keys, pointers).remove(keys[at]);
    lemma_ordered_no_duplicates(keys);
    assert forall|x: Seq<char>| a.contains_key(x) <==> b.contains_key(x) by {
        if a.contains_key(x) {
            let i = keys2.index_of(x);
            let i0 = if i < at { i } else { i + 1 };
            assert(keys[i0] == x);
        }
        if b.contains_key(x) {
            let i = keys.index_of(x);
            if i < at {
                assert(keys2[i] == x);
            } else {
                assert(keys2[i - 1] == x);
            }
        }
    }
    assert forall|x: Seq<char>| a.contains_key(x) implies a[x] == b[x] by {
        let i = keys2.index_of(x);
        lemma_ordered_position(keys2, i);
        let i0 = if i < at { i } else { i + 1 };
        lemma_ordered_position(keys, i0);
    }
    assert(a =~= b);
}

/// One key with its pointer.
struct Entry {
    key: String,
    pointer: LogPointer,
}

/// The key directory.
pub struct KeyDir {
    entries: Vec<Entry>,
}

impl View for KeyDir {
    type V = Map<Seq<char>, LogPointer>;

    /// The directory as a map.
    open spec fn view(&self) -> Map<Seq<char>, LogPointer> {
        dir_map(self.keys(), self.pointers())
    }
}

impl KeyDir {
    /// The keys, in their order.
    pub closed spec fn keys(&self) -> Seq<Seq<char>> {
        self.entries@.map_values(|e: Entry| e.key@)
    }

    /// The pointers, each at the position of its key.
    pub closed spec fn pointers(&self) -> Seq<LogPointer> {
        self.entries@.map_values(|e: Entry| e.pointer)
    }

    /// What holds of every key directory: a pointer for each key, and the
    /// keys in order.
    pub open spec fn wf(&self) -> bool {
        &&& self.keys().len() == self.pointers().len()
        &&& ordered(self.keys())
    }

    /// A directory holds what its positions hold.
    pub proof fn lemma_view(&self)
        requires
            self.wf(),
        ensures
            self@.dom().finite(),
            self@.dom() == self.keys().to_set(),
            forall|i: int|
                0 <= i < self.keys().len() ==> self@.contains_key(#[trigger] self.keys()[i])
                    && self@[self.keys()[i]] == self.pointers()[i],
    {
        assert(self@.dom() =~= self.keys().to_set());
        vstd::seq_lib::seq_to_set_is_finite(self.keys());
        assert forall|i: int| 0 <= i < self.keys().len() implies self@.contains_key(
            #[trigger] self.keys()[i],
        ) && self@[self.keys()[i]] == self.pointers()[i] by {
            lemma_ordered_position(self.keys(), i);
        }
    }

    /// The empty directory.
    pub fn new() -> (dir: KeyDir)
        ensures
            dir.wf(),
            dir@ == Map::<Seq<char>, LogPointer>::empty(),
            dir.keys().len() == 0,
    {
        let dir = KeyDir { entries: Vec::new() };
        assert(dir@ =~= Map::<Seq<char>, LogPointer>::empty());
        dir
    }

    /// The number of keys.
    pub fn len(&self) -> (n: usize)
        requires
            self.wf(),
        ensures
            n == self.keys().len(),
            n == self@.dom().len(),
    {
        proof {
            self.lemma_view();
            lemma_ordered_no_duplicates(self.keys());
            self.keys().unique_seq_to_set();
        }
        self.entries.len()
    }

    /// Looks for `key`: whether it is there, and its position, or else the
    /// position at which it would stand.
    fn search(&self, key: &str) -> (r: (bool, usize))
        requires
            self.wf(),
        ensures
            r.1 <= self.keys().len(),
            r.0 ==> r.1 < self.keys().len() && self.keys()[r.1 as int] == key@,
            !r.0 ==> !self.keys().contains(key@),
            forall|i: int| 0 <= i < r.1 ==> key_before(#[trigger] self.keys()[i], key@),
            forall|i: int|
                r.1 <= i < self.keys().len() && !(r.0 && i == r.1) ==> key_before(
                    key@,
                    #[trigger] self.keys()[i],
                ),
    {
        let mut low: usize = 0;
        let mut high: usize = self.entries.len();
        while low < high
            invariant
                self.wf(),
                low <= high <= self.entries@.len(),
                forall|i: int| 0 <= i < low ==> key_before(#[trigger] self.keys()[i], key@),
                forall|i: int|
                    high <= i < self.keys().len() ==> key_before(key@, #[trigger] self.keys()[i]),
            decreases high - low,
        {
            let mid: usize = low + (high - low) / 2;
            match key_side(self.entries[mid].key.as_str(), key) {
                Side::Same => {
                    proof {
                        assert forall|i: int| 0 <= i < mid implies key_before(
                            #[trigger] self.keys()[i],
                            key@,
                        ) by {
                            assert(key_before(self.keys()[i], self.keys()[mid as int]));
                        }
                        assert forall|i: int| mid < i < self.keys().len() implies key_before(
                            key@,
                            #[trigger] self.keys()[i],
                        ) by {
                            assert(key_before(self.keys()[mid as int], self.keys()[i]));
                        }
                    }
                    return (true, mid);
                },
                Side::Before => {
                    proof {
                        assert forall|i: int| 0 <= i < mid + 1 implies key_before(
                            #[trigger] self.keys()[i],
                            key@,
                        ) by {
                            if i < mid {
                                assert(key_before(self.keys()[i], self.keys()[mid as int]));
                                lemma_key_before_chain(self.keys()[i], self.keys()[mid as int], key@);
                            }
                        }
                    }
                    low = mid + 1;
                },
                Side::After => {
                    proof {
                        assert forall|i: int| mid <= i < self.keys().len() implies key_before(
                            key@,
                            #[trigger] self.keys()[i],
                        ) by {
                            if mid < i {
                                assert(key_before(self.keys()[mid as int], self.keys()[i]));
                                lemma_key_before_chain(key@, self.keys()[mid as int], self.keys()[i]);
                            }
                        }
                    }
                    high = mid;
                },
            }
        }
        proof {
            if self.keys().contains(key@) {
                let i = self.keys().index_of(key@);
                if i < low {
                    lemma_key_before_one_way(self.keys()[i], key@);
                } else {
                    lemma_key_before_one_way(key@, self.keys()[i]);
                }
            }
        }
        (false, low)
    }

    /// The pointer of `key`, if it has one.
    pub fn get(&self, key: &str) -> (r: Option<LogPointer>)
        requires
            self.wf(),
        ensures
            r == if self@.contains_key(key@) {
                Some(self@[key@])
            } else {
                None
            },
    {
        let (found, at) = self.search(key);
        if found {
            proof {
                self.lemma_view();
            }
            Some(self.entries[at].pointer)
        } else {
            None
        }
    }

    /// Whether `key` has a pointer.
    pub fn contains_key(&self, key: &str) -> (r: bool)
        requires
            self.wf(),
        ensures
            r == self@.contains_key(key@),
    {
        self.search(key).0
    }

    /// Gives `key` the pointer `pointer`, and returns the pointer that it
    /// had before.
    pub fn insert(&mut self, key: String, pointer: LogPointer) -> (r: Option<LogPointer>)
        requires
            old(self).wf(),
        ensures
            final(self).wf(),
            final(self)@ == old(self)@.insert(key@, pointer),
            r == if old(self)@.contains_key(key@) {
                Some(old(self)@[key@])
            } else {
                None
            },
    {
        let (found, at) = self.search(key.as_str());
        let ghost keys = self.keys();
        let ghost pointers = self.pointers();
        if found {
            proof {
                self.lemma_view();
                lemma_dir_map_update(keys, pointers, at as int, pointer);
            }
            let before = self.entries[at].pointer;
            self.entries.set(at, Entry { key, pointer });
            assert(self.keys() =~= keys);
            assert(self.pointers() =~= pointers.update(at as int, pointer));
            Some(before)
        } else {
            proof {
                lemma_dir_map_insert(keys, pointers, at as int, key@, pointer);
            }
            self.entries.insert(at, Entry { key, pointer });
            assert(self.keys() =~= keys.insert(at as int, key@));
            assert(self.pointers() =~= pointers.insert(at as int, pointer));
            None
        }
    }

    /// Takes the pointer of `key` away, and returns it.
    pub fn remove(&mut self, key: &str) -> (r: Option<LogPointer>)
        requires
            old(self).wf(),
        ensures
            final(self).wf(),
            final(self)@ == old(self)@.remove(key@),
            r == if old(self)@.contains_key(key@) {
                Some(old(self)@[key@])
            } else {
                None
            },
    {
        let (found, at) = self.search(key);
        let ghost keys = self.keys();
        let ghost pointers = self.pointers();
        if found {
            proof {
                self.lemma_view();
                lemma_dir_map_remove(keys, pointers, at as int);
            }
            let entry = self.entries.remove(at);
            assert(self.keys() =~= keys.remove(at as int));
            assert(self.pointers() =~= pointers.remove(at as int));
            Some(entry.pointer)
        } else {
            assert(self@.remove(key@) =~= self@);
            None
        }
    }

    /// The key at position `i` of the order.
    pub fn key_at(&self, i: usize) -> (key: &String)
        requires
            self.wf(),
            i < self.keys().len(),
        ensures
            key@ == self.keys()[i as int],
    {
        &self.entries[i].key
    }

    /// The pointer of the key at position `i` of the order.
    pub fn pointer_at(&self, i: usize) -> (pointer: LogPointer)
        requires
            self.wf(),
            i < self.keys().len(),
        ensures
            pointer == self.pointers()[i as int],
    {
        self.entries[i].pointer
    }

    /// Gives the key at position `i` of the order the pointer `pointer`.
    pub fn set_pointer_at(&mut self, i: usize, pointer: LogPointer)
        requires
            old(self).wf(),
            i < old(self).keys().len(),
        ensures
            final(self).wf(),
            final(self).keys() == old(self).keys(),
            final(self).pointers() == old(self).pointers().update(i as int, pointer),
            final(self)@ == old(self)@.insert(old(self).keys()[i as int], pointer),
    {
        proof {
            lemma_dir_map_update(self.keys(), self.pointers(), i as int, pointer);
        }
        let ghost keys = self.keys();
        let ghost pointers = self.pointers();
        let key = self.entries[i].key.clone();
        self.entries.set(i, Entry { key, pointer });
        assert(self.keys() =~= keys);
        assert(self.pointers() =~= pointers.update(i as int, pointer));
    }
}

/// The keys of an ordered sequence differ from one another.
pub proof fn lemma_ordered_no_duplicates(keys: Seq<Seq<char>>)
    requires
        ordered(keys),
    ensures
        keys.no_duplicates(),
{
    assert forall|i: int, j: int| 0 <= i < keys.len() && 0 <= j < keys.len() && i != j implies keys[i]
        != keys[j] by {
        if i < j {
            lemma_key_before_one_way(keys[i], keys[j]);
        } else {
            lemma_key_before_one_way(keys[j], keys[i]);
        }
    }
}

} // verus!
