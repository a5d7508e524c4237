//! The ordered in-memory table of the key/value store: a skip list over
//! integer keys whose entries are kept, marked as deleted, when their key is
//! deleted.
//!
//! The elements live in an arena and point to one another by position. The
//! element at position 0 is the head, which carries no entry of the table.
//! On the base level the elements form one chain in the order of their keys;
//! on each higher level a pointer leads forward to an element of that level.

use rand::random;
use vstd::prelude::*;

verus! {

/// What the table holds under one key: the value written last, and whether
/// the key was deleted since.
#[derive(Debug)]
pub struct Entry {
    key: usize,
    value: Vec<u8>,
    tombstone: bool,
}

/// Mathematical value of an entry.
pub struct EntryView {
    pub key: usize,
    pub value: Seq<u8>,
    pub tombstone: bool,
}

impl View for Entry {
    type V = EntryView;

    closed spec fn view(&self) -> EntryView {
        EntryView { key: self.key, value: self.value@, tombstone: self.tombstone }
    }
}

impl Entry {
    /// A live entry for `key` with the given value.
    pub fn new(key: usize, value: Vec<u8>) -> (entry: Self)
        ensures
            entry@ == (EntryView { key, value: value@, tombstone: false }),
    {
        Entry { key, value, tombstone: false }
    }

    /// The key.
    pub fn key(&self) -> (key: usize)
        ensures
            key == self@.key,
    {
        self.key
    }

    /// The value.
    pub fn value(&self) -> (value: &Vec<u8>)
        ensures
            value@ == self@.value,
    {
        &self.value
    }

    /// Whether the key was deleted.
    pub fn tombstone(&self) -> (deleted: bool)
        ensures
            deleted == self@.tombstone,
    {
        self.tombstone
    }
}

impl Clone for Entry {
    fn clone(&self) -> (entry: Self)
        ensures
            entry@ == self@,
    {
        let mut value: Vec<u8> = Vec::with_capacity(self.value.len());
        let mut i: usize = 0;
        while i < self.value.len()
            invariant
                i <= self.value@.len(),
                value@ == self.value@.take(i as int),
            decreases self.value@.len() - i,
        {
            value.push(self.value[i]);
            i = i + 1;
            assert(self.value@.take(i as int) == self.value@.take(i - 1).push(self.value@[i - 1]));
        }
        assert(self.value@.take(i as int) == self.value@);
        Entry { key: self.key, value, tombstone: self.tombstone }
    }
}

impl PartialEq for Entry {
    /// Two entries are equal where key, value and tombstone are.
    fn eq(&self, other: &Self) -> (equal: bool) {
        if self.key != other.key || self.tombstone != other.tombstone || self.value.len()
            != other.value.len() {
            return false;
        }
        let mut i: usize = 0;
        while i < self.value.len()
            invariant
                i <= self.value@.len(),
                self.value@.len() == other.value@.len(),
                forall|k: int| 0 <= k < i ==> self.value@[k] == other.value@[k],
            decreases self.value@.len() - i,
        {
            if self.value[i] != other.value[i] {
                return false;
            }
            i = i + 1;
        }
        assert(self.value@ =~= other.value@);
        true
    }
}

impl vstd::std_specs::cmp::PartialEqSpecImpl for Entry {
    open spec fn obeys_eq_spec() -> bool {
        true
    }

    open spec fn eq_spec(&self, other: &Self) -> bool {
        self@ == other@
    }
}

/// `rand::random` for 32-bit numbers: a number drawn anew at each call, of
/// which nothing is known beforehand.
#[verifier::external_body]
fn random_bits() -> (bits: u32) {
    random::<u32>()
}

/// One element of the arena: an entry and, for each level the element is
/// on, the position of the element that follows it there.
struct Element {
    entry: Entry,
    next: Vec<Option<usize>>,
}

/// An ordered table from keys to entries.
pub struct SkipList {
    max_level: usize,
    threshold: u32,
    level: usize,
    size: usize,
    elements: Vec<Element>,
    rank: Ghost<Seq<int>>,
}

/// Number of live entries among the elements at the positions 1 to `upto`
/// exclusive.
spec fn live_upto(elements: Seq<Element>, upto: int) -> int
    decreases upto,
{
    if upto <= 1 {
        0
    } else {
        live_upto(elements, upto - 1) + if elements[upto - 1].entry.tombstone {
            0int
        } else {
            1int
        }
    }
}

/// The count of live entries does not depend on what lies beyond `upto`.
proof fn lemma_live_upto_same(a: Seq<Element>, b: Seq<Element>, upto: int)
    requires
        upto <= a.len(),
        upto <= b.len(),
        forall|i: int| 1 <= i < upto ==> a[i].entry.tombstone == b[i].entry.tombstone,
    ensures
        live_upto(a, upto) == live_upto(b, upto),
    decreases upto,
{
    if upto > 1 {
        lemma_live_upto_same(a, b, upto - 1);
    }
}

/// The count of live entries is between zero and the number of entries.
proof fn lemma_live_upto_bounds(a: Seq<Element>, upto: int)
    ensures
        0 <= live_upto(a, upto),
        upto >= 1 ==> live_upto(a, upto) <= upto - 1,
    decreases upto,
{
    if upto > 1 {
        lemma_live_upto_bounds(a, upto - 1);
    }
}

/// Changing the mark of one entry changes the count of live entries by one,
/// or not at all.
proof fn lemma_live_upto_change(a: Seq<Element>, b: Seq<Element>, at: int, upto: int)
    requires
        1 <= at < upto <= a.len(),
        a.len() == b.len(),
        forall|i: int| 1 <= i < a.len() && i != at ==> a[i].entry.tombstone == b[i].entry.tombstone,
    ensures
        live_upto(b, upto) == live_upto(a, upto) + (if a[at].entry.tombstone {
            0int
        } else {
            -1int
        }) + (if b[at].entry.tombstone {
            0int
        } else {
            1int
        }),
    decreases upto,
{
    if upto - 1 == at {
        lemma_live_upto_same(a, b, upto - 1);
    } else {
        lemma_live_upto_change(a, b, at, upto - 1);
    }
}

impl View for SkipList {
    type V = Map<usize, EntryView>;

    /// What the table holds: under each key written, the entry, live or
    /// deleted.
    closed spec fn view(&self) -> Map<usize, EntryView> {
        Map::new(|key: usize| self.has(key), |key: usize| self.at(key))
    }
}

impl SkipList {
    /// Key of the entry at `position`.
    pub closed spec fn key_at(&self, position: int) -> usize {
        self.elements@[position].entry.key
    }

    /// The table holds an entry, live or not, under `key`.
    spec fn has(&self, key: usize) -> bool {
        exists|i: int| 1 <= i < self.elements@.len() && #[trigger] self.key_at(i) == key
    }

    /// The entry held under `key`.
    spec fn at(&self, key: usize) -> EntryView {
        let i = choose|i: int| 1 <= i < self.elements@.len() && #[trigger] self.key_at(i) == key;
        self.elements@[i].entry@
    }

    /// The level above which no element reaches.
    pub closed spec fn spec_max_level(&self) -> usize {
        self.max_level
    }

    /// The highest level in use.
    pub closed spec fn spec_level(&self) -> usize {
        self.level
    }

    /// Number of live entries.
    pub closed spec fn spec_len(&self) -> usize {
        self.size
    }

    /// Number of entries, live or not.
    pub closed spec fn spec_entries(&self) -> nat {
        (self.elements@.len() - 1) as nat
    }

    /// Every element has a rank of its own, the head the lowest, and the keys
    /// rise with the ranks.
    #[verifier::opaque]
    spec fn ranked(&self) -> bool {
        let len = self.elements@.len() as int;
        let rank = self.rank@;
        &&& len >= 1
        &&& rank.len() == len
        &&& rank[0] == 0
        &&& forall|i: int| 0 <= i < len ==> 0 <= #[trigger] rank[i] < len
        &&& forall|i: int, j: int|
            0 <= i < len && 0 <= j < len && i != j ==> #[trigger] rank[i] != #[trigger] rank[j]
        &&& forall|i: int, j: int|
            1 <= i < len && 1 <= j < len && #[trigger] rank[i] < #[trigger] rank[j]
                ==> self.key_at(i) < self.key_at(j)
    }

    /// On the base level each element points to the element of the next
    /// rank, and the element of the highest rank points nowhere.
    #[verifier::opaque]
    spec fn chained(&self) -> bool {
        let len = self.elements@.len() as int;
        let rank = self.rank@;
        forall|i: int|
            0 <= i < len ==> (#[trigger] self.elements@[i]).next@.len() >= 1 && (match self.elements@[i].next@[0] {
                Some(j) => 0 <= j < len && rank[j as int] == rank[i] + 1,
                None => rank[i] == len - 1,
            })
    }

    /// On every level a pointer leads to an element of that level and of a
    /// higher rank. No element reaches above the level in use, which the
    /// head reaches.
    #[verifier::opaque]
    spec fn linked(&self) -> bool {
        let len = self.elements@.len() as int;
        let rank = self.rank@;
        &&& len >= 1
        &&& rank.len() == len
        &&& forall|i: int, l: int|
            0 <= i < len && 0 <= l < self.elements@[i].next@.len() ==> (match #[trigger] self.elements@[i].next@[l] {
                Some(j) => 1 <= j < len && self.elements@[j as int].next@.len() > l && rank[i]
                    < rank[j as int] < len,
                None => true,
            })
        &&& self.elements@[0].next@.len() == self.level + 1
        &&& forall|i: int|
            0 <= i < len ==> 1 <= (#[trigger] self.elements@[i]).next@.len() <= self.level + 1
        &&& self.level <= self.max_level
        &&& self.max_level < usize::MAX
    }

    /// The invariant of the list: its elements are ranked by their keys,
    /// chained in that order on the base level and linked forward on every
    /// level, and the size is the number of live entries.
    pub closed spec fn wf(&self) -> bool {
        &&& self.ranked()
        &&& self.chained()
        &&& self.linked()
        &&& self.size == live_upto(self.elements@, self.elements@.len() as int)
    }

    /// Under each key the table holds at most one entry.
    proof fn lemma_keys_differ(&self, i: int, j: int)
        requires
            self.wf(),
            1 <= i < self.elements@.len(),
            1 <= j < self.elements@.len(),
            self.key_at(i) == self.key_at(j),
        ensures
            i == j,
    {
        reveal(SkipList::ranked);
        if i != j {
            assert(self.rank@[i] != self.rank@[j]);
            if self.rank@[i] < self.rank@[j] {
                assert(self.key_at(i) < self.key_at(j));
            } else {
                assert(self.key_at(j) < self.key_at(i));
            }
        }
    }

    /// The entry at `position` is the one the table holds under its key.
    proof fn lemma_at_position(&self, position: int)
        requires
            self.wf(),
            1 <= position < self.elements@.len(),
        ensures
            self.has(self.key_at(position)),
            self.at(self.key_at(position)) == self.elements@[position].entry@,
    {
        let key = self.key_at(position);
        let i = choose|i: int| 1 <= i < self.elements@.len() && #[trigger] self.key_at(i) == key;
        self.lemma_keys_differ(i, position);
    }

    /// An empty list whose elements reach up to `max_level`. A new element
    /// rises by one more level with the probability `threshold` / 2^32.
    pub fn new(max_level: usize, threshold: u32) -> (list: Self)
        requires
            max_level < usize::MAX,
        ensures
            list.wf(),
            list.spec_len() == 0,
            list.spec_entries() == 0,
            list.spec_level() == 0,
            list.spec_max_level() == max_level,
            list.spec_threshold() == threshold,
            list@ == Map::<usize, EntryView>::empty(),
    {
        let mut next: Vec<Option<usize>> = Vec::new();
        next.push(None);
        let head = Element { entry: Entry::new(0, Vec::new()), next };
        let mut elements: Vec<Element> = Vec::new();
        elements.push(head);
        let ghost rank = Seq::<int>::empty().push(0int);
        let list = SkipList { max_level, threshold, level: 0, size: 0, elements, rank: Ghost(rank) };
        proof {
            reveal(SkipList::ranked);
            reveal(SkipList::chained);
            reveal(SkipList::linked);
            assert(live_upto(list.elements@, 1) == 0);
            assert(list@ =~= Map::<usize, EntryView>::empty());
        }
        list
    }

    /// Number of live entries.
    #[verifier::when_used_as_spec(spec_len)]
    pub fn len(&self) -> (n: usize)
        ensures
            n == self.spec_len(),
    {
        self.size
    }

    /// The level above which no element reaches.
    #[verifier::when_used_as_spec(spec_max_level)]
    pub fn max_level(&self) -> (level: usize)
        ensures
            level == self.spec_max_level(),
    {
        self.max_level
    }

    /// The highest level in use.
    #[verifier::when_used_as_spec(spec_level)]
    pub fn level(&self) -> (level: usize)
        ensures
            level == self.spec_level(),
    {
        self.level
    }

    /// Draws the number of levels that a new element rises above the base
    /// level: one more for each random number below the threshold, up to
    /// the highest level allowed.
    pub fn random_level(&self) -> (level: usize)
        ensures
            level <= self.spec_max_level(),
            self.spec_threshold() == 0 ==> level == 0,
    {
        let mut level: usize = 0;
        while self.rises(level, random_bits())
            invariant
                level <= self.max_level,
                self.threshold == 0 ==> level == 0,
            decreases self.max_level - level,
        {
            level = level + 1;
        }
        level
    }

    /// The threshold below which a random number lets an element rise.
    pub closed spec fn spec_threshold(&self) -> u32 {
        self.threshold
    }

    /// The threshold below which a random number lets an element rise.
    #[verifier::when_used_as_spec(spec_threshold)]
    pub fn threshold(&self) -> (threshold: u32)
        ensures
            threshold == self.spec_threshold(),
    {
        self.threshold
    }

    /// Whether an element that has risen `level` levels rises one more on
    /// the random number `bits`: it does below the highest level, where the
    /// number lies below the threshold.
    pub fn rises(&self, level: usize, bits: u32) -> (more: bool)
        ensures
            more == (level < self.spec_max_level() && bits < self.spec_threshold()),
    {
        level < self.max_level && bits < self.threshold
    }

    /// The position `at` is that of the entry with the greatest key below
    /// `key`; it is 0, the position of the head, where no key lies below.
    pub open spec fn precedes(&self, at: usize, key: usize) -> bool {
        &&& at <= self.spec_entries()
        &&& at == 0 ==> forall|other: usize| #[trigger] self@.contains_key(other) ==> other >= key
        &&& at != 0 ==> self@.contains_key(self.key_at(at as int)) && self.key_at(at as int) < key
            && forall|other: usize| #[trigger]
            self@.contains_key(other) && other < key ==> other <= self.key_at(at as int)
    }

    /// Every entry with a key below `key` has a rank up to that of `at`.
    spec fn rank_precedes(&self, at: usize, key: usize) -> bool {
        &&& at < self.elements@.len()
        &&& at == 0 || self.key_at(at as int) < key
        &&& forall|i: int|
            1 <= i < self.elements@.len() && #[trigger] self.key_at(i) < key ==> self.rank@[i]
                <= self.rank@[at as int]
    }

    /// The table holds an entry under a key exactly where an element of the
    /// list carries the key, and it is the entry of that element.
    proof fn lemma_view(&self)
        ensures
            forall|key: usize| #[trigger] self@.contains_key(key) == self.has(key),
            forall|key: usize| self.has(key) ==> #[trigger] self@[key] == self.at(key),
    {
    }

    /// The two ways to say that `at` precedes `key` agree.
    proof fn lemma_precedes(&self, at: usize, key: usize)
        requires
            self.wf(),
        ensures
            self.precedes(at, key) <==> self.rank_precedes(at, key),
    {
        self.lemma_view();
        if self.rank_precedes(at, key) {
            self.lemma_rank_to_keys(at, key);
        }
        if self.precedes(at, key) {
            self.lemma_keys_to_rank(at, key);
        }
    }

    /// An element that outranks every entry below `key` holds the greatest
    /// key below `key`.
    proof fn lemma_rank_to_keys(&self, at: usize, key: usize)
        requires
            self.wf(),
            self.rank_precedes(at, key),
        ensures
            self.precedes(at, key),
    {
        reveal(SkipList::ranked);
        self.lemma_view();
        let len = self.elements@.len() as int;
        let rank = self.rank@;
        if at != 0 {
            assert(self.has(self.key_at(at as int)));
        }
        assert forall|other: usize| #[trigger] self.has(other) && other < key implies at != 0
            && other <= self.key_at(at as int) by {
            let i = choose|i: int| 1 <= i < len && #[trigger] self.key_at(i) == other;
            assert(rank[i] <= rank[at as int]);
            if i != at as int {
                assert(rank[i] != rank[at as int]);
                assert(rank[at as int] != 0);
                assert(at != 0);
                assert(rank[i] < rank[at as int]);
                assert(self.key_at(i) < self.key_at(at as int));
            }
        }
    }

    /// An element that holds the greatest key below `key` outranks every
    /// entry below `key`.
    proof fn lemma_keys_to_rank(&self, at: usize, key: usize)
        requires
            self.wf(),
            self.precedes(at, key),
        ensures
            self.rank_precedes(at, key),
    {
        reveal(SkipList::ranked);
        self.lemma_view();
        let len = self.elements@.len() as int;
        let rank = self.rank@;
        assert forall|i: int| 1 <= i < len && #[trigger] self.key_at(i) < key implies rank[i]
            <= rank[at as int] by {
            assert(self.has(self.key_at(i)));
            assert(self@.contains_key(self.key_at(i)));
            if rank[i] > rank[at as int] {
                assert(at != 0);
                assert(self.key_at(at as int) < self.key_at(i));
            }
        }
    }

    /// On each level in use, `path` holds an element of that level that lies
    /// below `key` and whose pointer there leads to no element below `key`.
    pub closed spec fn flanks(&self, path: Seq<usize>, key: usize) -> bool {
        path.len() == self.level + 1 && self.flanked(path, key, 0)
    }

    /// Key of the entry at `position`; `None` for the head and beyond the
    /// elements.
    pub fn key_of(&self, position: usize) -> (key: Option<usize>)
        requires
            self.wf(),
        ensures
            match key {
                Some(k) => 1 <= position <= self.spec_entries() && k == self.key_at(
                    position as int,
                ) && self@.contains_key(k),
                None => position == 0 || position > self.spec_entries(),
            },
    {
        proof {
            reveal(SkipList::linked);
            self.lemma_view();
        }
        if position == 0 || position >= self.elements.len() {
            None
        } else {
            let key = self.elements[position].entry.key;
            assert(key == self.key_at(position as int));
            assert(self.has(key));
            Some(key)
        }
    }

    /// What the walk of a search has arrived at when it is over: on each
    /// level, an element below `key` whose pointer leads to none below it.
    spec fn flanked(&self, path: Seq<usize>, key: usize, from: int) -> bool {
        forall|l: int|
            from <= l < path.len() ==> {
                &&& (#[trigger] path[l]) < self.elements@.len()
                &&& self.elements@[path[l] as int].next@.len() > l
                &&& path[l] == 0 || self.key_at(path[l] as int) < key
                &&& match self.elements@[path[l] as int].next@[l] {
                    Some(j) => self.key_at(j as int) >= key,
                    None => true,
                }
            }
    }

    /// An element below `key` whose pointer on the base level leads to none
    /// below `key` is the last below `key`.
    proof fn lemma_last_below(&self, current: usize, key: usize)
        requires
            self.wf(),
            current < self.elements@.len(),
            current == 0 || self.key_at(current as int) < key,
            match self.elements@[current as int].next@[0] {
                Some(j) => self.key_at(j as int) >= key,
                None => true,
            },
        ensures
            self.rank_precedes(current, key),
            self.precedes(current, key),
    {
        reveal(SkipList::ranked);
        reveal(SkipList::chained);
        let len = self.elements@.len() as int;
        let rank = self.rank@;
        assert forall|i: int| 1 <= i < len && #[trigger] self.key_at(i) < key implies rank[i]
            <= rank[current as int] by {
            assert(self.elements@[current as int].next@.len() >= 1);
            match self.elements@[current as int].next@[0] {
                Some(j) => {
                    if rank[i] > rank[current as int] {
                        if i != j as int {
                            assert(rank[i] != rank[j as int]);
                            assert(self.key_at(j as int) < self.key_at(i));
                        }
                    }
                },
                None => {},
            }
        }
        self.lemma_precedes(current, key);
    }

    /// Finds where `key` belongs: the position of the last element below
    /// it, and, level by level from the bottom, the elements after which it
    /// would stand.
    pub fn search(&self, key: &usize) -> (found: (usize, Vec<usize>))
        requires
            self.wf(),
        ensures
            self.precedes(found.0, *key),
            self.flanks(found.1@, *key),
            found.1@[0] == found.0,
    {
        let ghost len = self.elements@.len() as int;
        let ghost rank = self.rank@;
        proof {
            reveal(SkipList::linked);
            reveal(SkipList::ranked);
            assert(rank.len() == len && rank[0] == 0 && len >= 1);
            assert(self.elements@[0].next@.len() == self.level + 1);
            assert(self.level < usize::MAX);
        }
        let mut path: Vec<usize> = Vec::new();
        let mut filled: usize = 0;
        while filled <= self.level
            invariant
                self.level < usize::MAX,
                filled <= self.level + 1,
                path@.len() == filled,
            decreases self.level + 1 - filled,
        {
            path.push(0);
            filled = filled + 1;
        }
        let mut current: usize = 0;
        let mut lc: usize = self.level;
        let mut done = false;
        while !done
            invariant
                self.linked(),
                len == self.elements@.len(),
                rank == self.rank@,
                current < len,
                0 <= rank[current as int] < len,
                lc <= self.level,
                self.elements@[current as int].next@.len() > lc,
                current == 0 || self.key_at(current as int) < *key,
                path@.len() == self.level + 1,
                self.flanked(path@, *key, lc + 1),
                done ==> lc == 0 && path@[0] == current && self.flanked(path@, *key, 0),
            decreases
                    if done {
                        0int
                    } else {
                        1int
                    },
                    lc,
                    len - rank[current as int],
        {
            let mut move_down = true;
            proof {
                reveal(SkipList::linked);
            }
            match self.elements[current].next[lc] {
                Some(next) => {
                    assert(self.elements@[current as int].next@[lc as int] == Some(next));
                    if self.elements[next].entry.key < *key {
                        current = next;
                        move_down = false;
                    }
                },
                None => {},
            }
            if move_down {
                let ghost walked = path@;
                path.set(lc, current);
                proof {
                    assert forall|l: int| lc <= l < path@.len() implies {
                        &&& (#[trigger] path@[l]) < self.elements@.len()
                        &&& self.elements@[path@[l] as int].next@.len() > l
                        &&& path@[l] == 0 || self.key_at(path@[l] as int) < *key
                        &&& match self.elements@[path@[l] as int].next@[l] {
                            Some(j) => self.key_at(j as int) >= *key,
                            None => true,
                        }
                    } by {
                        if l > lc {
                            assert(path@[l] == walked[l]);
                        }
                    }
                }
                if lc == 0 {
                    done = true;
                } else {
                    lc = lc - 1;
                }
            } else {
                proof {
                    assert(self.flanked(path@, *key, lc + 1));
                }
            }
        }
        proof {
            assert(path@[0] == current);
            self.lemma_last_below(current, *key);
        }
        (current, path)
    }

    /// The live entry under `key`, or `None` where the table holds none.
    pub fn get(&self, key: &usize) -> (found: Option<Entry>)
        requires
            self.wf(),
        ensures
            match found {
                Some(entry) => self@.contains_key(*key) && !self@[*key].tombstone && entry@
                    == self@[*key],
                None => !self@.contains_key(*key) || self@[*key].tombstone,
            },
    {
        let (before, _) = self.search(key);
        proof {
            reveal(SkipList::linked);
            self.lemma_precedes(before, *key);
            self.lemma_view();
        }
        match self.elements[before].next[0] {
            Some(next) => {
                proof {
                    assert(self.elements@[before as int].next@[0] == Some(next));
                    self.lemma_at_position(next as int);
                    self.lemma_absent(before, *key);
                }
                if self.elements[next].entry.key == *key && !self.elements[next].entry.tombstone {
                    Some(self.elements[next].entry.clone())
                } else {
                    None
                }
            },
            None => {
                proof {
                    self.lemma_absent(before, *key);
                }
                None
            },
        }
    }

    /// Where the element after the one that precedes `key` does not hold
    /// `key`, no element does.
    proof fn lemma_absent(&self, before: usize, key: usize)
        requires
            self.wf(),
            self.rank_precedes(before, key),
        ensures
            match self.elements@[before as int].next@[0] {
                Some(j) => self.key_at(j as int) != key ==> !self.has(key),
                None => !self.has(key),
            },
            match self.elements@[before as int].next@[0] {
                Some(j) => self.key_at(j as int) >= key,
                None => true,
            },
    {
        reveal(SkipList::ranked);
        reveal(SkipList::chained);
        let len = self.elements@.len() as int;
        let rank = self.rank@;
        assert(self.elements@[before as int].next@.len() >= 1);
        match self.elements@[before as int].next@[0] {
            Some(j) => {
                if self.key_at(j as int) < key {
                    assert(rank[j as int] <= rank[before as int]);
                }
                if self.key_at(j as int) != key && self.has(key) {
                    let i = choose|i: int| 1 <= i < len && #[trigger] self.key_at(i) == key;
                    if i != before as int {
                        assert(rank[i] != rank[before as int]);
                    }
                    if rank[i] < rank[before as int] {
                        assert(before != 0);
                        assert(self.key_at(i) < self.key_at(before as int));
                    }
                    assert(rank[i] != rank[j as int]);
                    if rank[i] > rank[j as int] {
                        assert(self.key_at(j as int) < self.key_at(i));
                    }
                }
            },
            None => {
                if self.has(key) {
                    let i = choose|i: int| 1 <= i < len && #[trigger] self.key_at(i) == key;
                    if i != before as int {
                        assert(rank[i] != rank[before as int]);
                        assert(before != 0);
                        assert(self.key_at(i) < self.key_at(before as int));
                    }
                }
            },
        }
    }

    /// Every entry but the one at `position` is as in `old`, and so are all
    /// the keys, the pointers and the ranks.
    spec fn rewritten(&self, old: &SkipList, position: int) -> bool {
        &&& self.max_level == old.max_level
        &&& self.threshold == old.threshold
        &&& self.level == old.level
        &&& self.rank@ == old.rank@
        &&& self.elements@.len() == old.elements@.len()
        &&& forall|i: int|
            0 <= i < self.elements@.len() ==> (#[trigger] self.elements@[i]).next@
                == old.elements@[i].next@ && self.elements@[i].entry.key
                == old.elements@[i].entry.key
        &&& forall|i: int|
            0 <= i < self.elements@.len() && i != position ==> (#[trigger] self.elements@[i]).entry
                == old.elements@[i].entry
    }

    /// Rewriting the value or the mark of one entry keeps the shape of the
    /// list, and changes what the table holds under the key of that entry
    /// only.
    proof fn lemma_rewritten(&self, old: &SkipList, position: int)
        requires
            old.wf(),
            self.rewritten(old, position),
            1 <= position < old.elements@.len(),
            self.size == old.size + (if old.elements@[position].entry.tombstone {
                0int
            } else {
                -1int
            }) + (if self.elements@[position].entry.tombstone {
                0int
            } else {
                1int
            }),
        ensures
            self.wf(),
            self@ == old@.insert(old.key_at(position), self.elements@[position].entry@),
            self.spec_entries() == old.spec_entries(),
    {
        let len = self.elements@.len() as int;
        assert forall|i: int| 0 <= i < len implies self.key_at(i) == old.key_at(i) by {
            assert(self.elements@[i].entry.key == old.elements@[i].entry.key);
        }
        assert(self.ranked()) by {
            reveal(SkipList::ranked);
        }
        assert(self.chained()) by {
            reveal(SkipList::chained);
        }
        assert(self.linked()) by {
            reveal(SkipList::linked);
        }
        lemma_live_upto_change(old.elements@, self.elements@, position, len);
        self.lemma_view();
        old.lemma_view();
        assert forall|key: usize| self.has(key) == old.has(key) by {
            if old.has(key) {
                let i = choose|i: int| 1 <= i < len && #[trigger] old.key_at(i) == key;
                assert(self.key_at(i) == key);
            }
            if self.has(key) {
                let i = choose|i: int| 1 <= i < len && #[trigger] self.key_at(i) == key;
                assert(old.key_at(i) == key);
            }
        }
        self.lemma_at_position(position);
        old.lemma_at_position(position);
        let want = old@.insert(old.key_at(position), self.elements@[position].entry@);
        assert forall|key: usize| self@.contains_key(key) implies #[trigger] self@[key]
            == want[key] by {
            let i = choose|i: int| 1 <= i < len && #[trigger] self.key_at(i) == key;
            assert(old.key_at(i) == key);
            old.lemma_at_position(i);
            self.lemma_at_position(i);
        }
        assert(self@ =~= want);
    }

    /// Writes `value` under the key of the entry at `position`, which is
    /// live afterwards.
    fn update(&mut self, position: usize, value: Vec<u8>)
        requires
            old(self).wf(),
            1 <= position < old(self).elements@.len(),
        ensures
            final(self).wf(),
            final(self)@ == old(self)@.insert(
                old(self).key_at(position as int),
                EntryView {
                    key: old(self).key_at(position as int),
                    value: value@,
                    tombstone: false,
                },
            ),
            final(self).size == old(self).size + if old(self).elements@[position as int].entry.tombstone {
                1int
            } else {
                0int
            },
            final(self).spec_entries() == old(self).spec_entries(),
            final(self).spec_max_level() == old(self).spec_max_level(),
            final(self).spec_threshold() == old(self).spec_threshold(),
    {
        let ghost before = *self;
        let count = self.elements.len();
        let was_deleted = self.elements[position].entry.tombstone;
        self.elements[position].entry.value = value;
        self.elements[position].entry.tombstone = false;
        proof {
            lemma_live_upto_change(before.elements@, self.elements@, position as int, count as int);
            lemma_live_upto_bounds(self.elements@, count as int);
        }
        if was_deleted {
            self.size = self.size + 1;
        }
        proof {
            self.lemma_rewritten(&before, position as int);
        }
    }

    /// Marks the entry under `key` as deleted. Returns whether the table
    /// holds an entry under `key`, live or deleted already.
    pub fn delete(&mut self, key: &usize) -> (deleted: bool)
        requires
            old(self).wf(),
        ensures
            final(self).wf(),
            deleted == old(self)@.contains_key(*key),
            deleted ==> final(self)@ == old(self)@.insert(
                *key,
                EntryView { key: *key, value: old(self)@[*key].value, tombstone: true },
            ),
            !deleted ==> final(self)@ == old(self)@,
            final(self).spec_len() == old(self).spec_len() - if deleted && !old(
                self,
            )@[*key].tombstone {
                1int
            } else {
                0int
            },
            final(self).spec_max_level() == old(self).spec_max_level(),
            final(self).spec_threshold() == old(self).spec_threshold(),
    {
        let ghost before = *self;
        let (prev, _) = self.search(key);
        proof {
            reveal(SkipList::linked);
            self.lemma_precedes(prev, *key);
            self.lemma_absent(prev, *key);
            self.lemma_view();
        }
        match self.elements[prev].next[0] {
            Some(next) => {
                proof {
                    assert(self.elements@[prev as int].next@[0] == Some(next));
                    self.lemma_at_position(next as int);
                }
                if self.elements[next].entry.key == *key {
                    let was_live = !self.elements[next].entry.tombstone;
                    self.elements[next].entry.tombstone = true;
                    proof {
                        lemma_live_upto_change(
                            before.elements@,
                            self.elements@,
                            next as int,
                            self.elements@.len() as int,
                        );
                        lemma_live_upto_bounds(self.elements@, self.elements@.len() as int);
                    }
                    if was_live {
                        self.size = self.size - 1;
                    }
                    proof {
                        self.lemma_rewritten(&before, next as int);
                    }
                    return true;
                }
            },
            None => {},
        }
        false
    }

    /// The rank that a new entry under `key` takes: the entries below `key`
    /// rank lower, the entries above `key` at least as high.
    spec fn splits(&self, key: usize, rank: int) -> bool {
        &&& 1 <= rank <= self.elements@.len()
        &&& forall|i: int|
            1 <= i < self.elements@.len() ==> (#[trigger] self.key_at(i)) != key && (self.key_at(i)
                < key <==> self.rank@[i] < rank)
    }

    /// After the element that precedes an absent key, the ranks split at that
    /// key.
    proof fn lemma_splits(&self, before: usize, key: usize)
        requires
            self.wf(),
            self.rank_precedes(before, key),
            !self.has(key),
        ensures
            self.splits(key, self.rank@[before as int] + 1),
    {
        reveal(SkipList::ranked);
        let len = self.elements@.len() as int;
        let rank = self.rank@;
        let r = rank[before as int] + 1;
        assert forall|i: int| 1 <= i < len implies (#[trigger] self.key_at(i)) != key && (
        self.key_at(i) < key <==> rank[i] < r) by {
            if self.key_at(i) == key {
                assert(self.has(key));
            }
            if rank[i] < r && self.key_at(i) > key {
                if i != before as int {
                    assert(rank[i] != rank[before as int]);
                    assert(rank[before as int] != 0);
                    assert(before != 0);
                    assert(self.key_at(i) < self.key_at(before as int));
                }
            }
        }
    }

    /// How the list `self` arises from `old` when an element for `key` is
    /// added that rises `rise` levels above the base level and stands, on
    /// each level, after the element that `path` names.
    spec fn inserted(&self, old: &SkipList, path: Seq<usize>, entry: EntryView, rise: int) -> bool {
        let n = old.elements@.len() as int;
        let shared = if rise < old.level {
            rise
        } else {
            old.level as int
        };
        let r = old.rank@[path[0] as int] + 1;
        &&& self.elements@.len() == n + 1
        &&& self.max_level == old.max_level
        &&& self.threshold == old.threshold
        &&& self.level == (if rise > old.level {
            rise
        } else {
            old.level as int
        })
        &&& self.size == old.size + 1
        &&& self.rank@.len() == n + 1
        &&& forall|i: int|
            0 <= i < n ==> #[trigger] self.rank@[i] == (if old.rank@[i] >= r {
                old.rank@[i] + 1
            } else {
                old.rank@[i]
            })
        &&& self.rank@[n] == r
        &&& self.elements@[n].entry@ == entry
        &&& self.elements@[n].next@.len() == rise + 1
        &&& forall|l: int|
            0 <= l <= rise ==> #[trigger] self.elements@[n].next@[l] == (if l <= shared {
                old.elements@[path[l] as int].next@[l]
            } else {
                None
            })
        &&& forall|i: int|
            0 <= i < n ==> (#[trigger] self.elements@[i]).entry == old.elements@[i].entry
        &&& forall|i: int|
            0 <= i < n ==> (#[trigger] self.elements@[i]).next@.len() == (if i == 0 {
                self.level + 1
            } else {
                old.elements@[i].next@.len() as int
            })
        &&& forall|i: int, l: int|
            0 <= i < n && 0 <= l < self.elements@[i].next@.len()
                ==> #[trigger] self.elements@[i].next@[l] == (if l <= shared && path[l] == i {
                Some(n as usize)
            } else if l > old.level {
                Some(n as usize)
            } else {
                old.elements@[i].next@[l]
            })
    }

    /// The list with the new element is ranked.
    proof fn lemma_inserted_ranked(
        &self,
        old: &SkipList,
        path: Seq<usize>,
        entry: EntryView,
        rise: int,
    )
        requires
            old.ranked(),
            path.len() >= 1,
            path[0] < old.elements@.len(),
            old.splits(entry.key, old.rank@[path[0] as int] + 1),
            self.inserted(old, path, entry, rise),
        ensures
            self.ranked(),
    {
        reveal(SkipList::ranked);
        let n = old.elements@.len() as int;
        let r = old.rank@[path[0] as int] + 1;
        assert forall|i: int| 0 <= i <= n implies self.key_at(i) == (if i == n {
            entry.key
        } else {
            old.key_at(i)
        }) by {
            if i < n {
                assert(self.elements@[i].entry == old.elements@[i].entry);
            }
        }
        assert forall|i: int| 0 <= i < n + 1 implies 0 <= #[trigger] self.rank@[i] < n + 1 by {
            if i < n {
                assert(0 <= old.rank@[i] < n);
            }
        }
        assert forall|i: int, j: int| 0 <= i < n + 1 && 0 <= j < n + 1 && i != j implies #[trigger] self.rank@[i]
            != #[trigger] self.rank@[j] by {
            if i < n && j < n {
                assert(old.rank@[i] != old.rank@[j]);
            }
        }
        assert forall|i: int, j: int|
            1 <= i < n + 1 && 1 <= j < n + 1 && #[trigger] self.rank@[i] < #[trigger] self.rank@[j] implies self.key_at(
            i,
        ) < self.key_at(j) by {
            if i < n && j < n {
                assert(old.rank@[i] < old.rank@[j]);
            } else if i < n {
                assert(old.key_at(i) != entry.key);
            } else if j < n {
                assert(old.key_at(j) != entry.key);
            }
        }
    }

    /// The ranks are within the elements, and no other element has the rank
    /// of the element at `at`.
    spec fn rank_alone(&self, at: int) -> bool {
        &&& self.rank@.len() == self.elements@.len()
        &&& forall|i: int| 0 <= i < self.elements@.len() ==> 0 <= #[trigger] self.rank@[i]
            < self.elements@.len()
        &&& forall|i: int|
            0 <= i < self.elements@.len() && i != at ==> #[trigger] self.rank@[i] != self.rank@[at]
    }

    /// In a ranked list every element has its rank alone.
    proof fn lemma_rank_alone(&self, at: int)
        requires
            self.ranked(),
            0 <= at < self.elements@.len(),
        ensures
            self.rank_alone(at),
    {
        reveal(SkipList::ranked);
    }

    /// The list with the new element is chained on the base level.
    proof fn lemma_inserted_chained(
        &self,
        old: &SkipList,
        path: Seq<usize>,
        entry: EntryView,
        rise: int,
    )
        requires
            old.rank_alone(path[0] as int),
            old.chained(),
            path.len() >= 1,
            path[0] < old.elements@.len(),
            old.elements@.len() <= usize::MAX,
            0 <= rise,
            self.inserted(old, path, entry, rise),
        ensures
            self.chained(),
    {
        reveal(SkipList::chained);
        let n = old.elements@.len() as int;
        let before = path[0] as int;
        let r = old.rank@[before] + 1;
        assert forall|i: int| 0 <= i < n + 1 implies (#[trigger] self.elements@[i]).next@.len() >= 1
            && (match self.elements@[i].next@[0] {
            Some(j) => 0 <= j < n + 1 && self.rank@[j as int] == self.rank@[i] + 1,
            None => self.rank@[i] == n,
        }) by {
            if i == n {
                assert(self.elements@[n].next@[0] == old.elements@[before].next@[0]);
                assert(old.elements@[before].next@.len() >= 1);
            } else {
                assert(old.elements@[i].next@.len() >= 1);
                if i == before {
                    assert(self.elements@[i].next@[0] == Some(n as usize));
                } else {
                    assert(self.elements@[i].next@[0] == old.elements@[i].next@[0]);
                    assert(old.rank@[i] != old.rank@[before]);
                }
            }
        }
    }

    /// What the pointers of the new element and the pointers to it rest on:
    /// each element of `path` is of its level and ranks below `rank`, and
    /// what follows it on its level ranks at least as high as `rank`.
    spec fn path_fits(&self, path: Seq<usize>, rank: int) -> bool {
        &&& path.len() == self.level + 1
        &&& forall|l: int|
            0 <= l < path.len() ==> {
                &&& (#[trigger] path[l]) < self.elements@.len()
                &&& self.elements@[path[l] as int].next@.len() > l
                &&& self.rank@[path[l] as int] < rank
                &&& match self.elements@[path[l] as int].next@[l] {
                    Some(j) => self.rank@[j as int] >= rank,
                    None => true,
                }
            }
    }

    /// A path that flanks an absent key fits the rank at which the ranks
    /// split at that key.
    proof fn lemma_path_fits(&self, path: Seq<usize>, key: usize, rank: int)
        requires
            self.ranked(),
            self.linked(),
            self.flanks(path, key),
            self.splits(key, rank),
        ensures
            self.path_fits(path, rank),
    {
        reveal(SkipList::ranked);
        reveal(SkipList::linked);
        assert forall|l: int| 0 <= l < path.len() implies {
            &&& (#[trigger] path[l]) < self.elements@.len()
            &&& self.elements@[path[l] as int].next@.len() > l
            &&& self.rank@[path[l] as int] < rank
            &&& match self.elements@[path[l] as int].next@[l] {
                Some(j) => self.rank@[j as int] >= rank,
                None => true,
            }
        } by {
            let p = path[l] as int;
            if p != 0 {
                assert(self.key_at(p) < key);
            }
            match self.elements@[p].next@[l] {
                Some(j) => {
                    assert(1 <= j < self.elements@.len());
                    assert(self.key_at(j as int) >= key);
                },
                None => {},
            }
        }
    }

    /// The list with the new element is linked forward on every level.
    proof fn lemma_inserted_linked(
        &self,
        old: &SkipList,
        path: Seq<usize>,
        entry: EntryView,
        rise: int,
    )
        requires
            old.linked(),
            old.rank_alone(0),
            old.rank@[0] == 0,
            old.elements@.len() <= usize::MAX,
            old.path_fits(path, old.rank@[path[0] as int] + 1),
            0 <= rise <= old.max_level,
            self.inserted(old, path, entry, rise),
        ensures
            self.linked(),
    {
        reveal(SkipList::linked);
        let n = old.elements@.len() as int;
        let r = old.rank@[path[0] as int] + 1;
        let shared = if rise < old.level {
            rise
        } else {
            old.level as int
        };
        assert forall|i: int| 0 <= i < n + 1 implies 1 <= (#[trigger] self.elements@[i]).next@.len()
            <= self.level + 1 by {
            if 1 <= i < n {
                assert(1 <= old.elements@[i].next@.len() <= old.level + 1);
            }
        }
        assert forall|i: int, l: int|
            0 <= i < n + 1 && 0 <= l < self.elements@[i].next@.len() implies (match #[trigger] self.elements@[i].next@[l] {
            Some(j) => 1 <= j < n + 1 && self.elements@[j as int].next@.len() > l && self.rank@[i]
                < self.rank@[j as int] < n + 1,
            None => true,
        }) by {
            if i == n {
                if l <= shared {
                    let p = path[l] as int;
                    assert(self.elements@[n].next@[l] == old.elements@[p].next@[l]);
                    match old.elements@[p].next@[l] {
                        Some(j) => {
                            assert(1 <= j < n);
                            assert(old.rank@[j as int] >= r);
                            assert(old.elements@[j as int].next@.len() > l);
                            assert(self.elements@[j as int].next@.len() == old.elements@[j as int].next@.len());
                            assert(self.rank@[j as int] == old.rank@[j as int] + 1);
                        },
                        None => {},
                    }
                } else {
                    assert(self.elements@[n].next@[l] == None::<usize>);
                }
            } else {
                assert(1 <= old.elements@[i].next@.len() <= old.level + 1);
                if l <= shared && path[l] == i {
                    assert(self.elements@[i].next@[l] == Some(n as usize));
                    assert(old.rank@[i] < r);
                    assert(self.rank@[i] == old.rank@[i]);
                } else if l > old.level {
                    assert(self.elements@[i].next@[l] == Some(n as usize));
                    assert(i == 0);
                    assert(self.rank@[0] == 0);
                } else {
                    assert(self.elements@[i].next@[l] == old.elements@[i].next@[l]);
                    match old.elements@[i].next@[l] {
                        Some(j) => {
                            assert(1 <= j < n);
                            assert(old.rank@[i] < old.rank@[j as int] < n);
                            assert(old.elements@[j as int].next@.len() > l);
                            assert(self.elements@[j as int].next@.len() == old.elements@[j as int].next@.len());
                        },
                        None => {},
                    }
                }
            }
        }
    }

    /// The list with the new element is in order, and the table holds the
    /// new entry besides what it held.
    proof fn lemma_inserted(
        &self,
        old: &SkipList,
        path: Seq<usize>,
        entry: EntryView,
        rise: int,
    )
        requires
            old.wf(),
            old.flanks(path, entry.key),
            old.precedes(path[0], entry.key),
            old.elements@.len() <= usize::MAX,
            !old@.contains_key(entry.key),
            !entry.tombstone,
            0 <= rise <= old.max_level,
            self.inserted(old, path, entry, rise),
        ensures
            self.wf(),
            self@ == old@.insert(entry.key, entry),
            self.spec_entries() == old.spec_entries() + 1,
    {
        let n = old.elements@.len() as int;
        old.lemma_view();
        self.lemma_view();
        old.lemma_precedes(path[0], entry.key);
        old.lemma_splits(path[0], entry.key);
        self.lemma_inserted_ranked(old, path, entry, rise);
        old.lemma_rank_alone(path[0] as int);
        self.lemma_inserted_chained(old, path, entry, rise);
        old.lemma_path_fits(path, entry.key, old.rank@[path[0] as int] + 1);
        assert(old.rank@[0] == 0) by {
            reveal(SkipList::ranked);
        }
        old.lemma_rank_alone(0);
        self.lemma_inserted_linked(old, path, entry, rise);
        assert(self.size == live_upto(self.elements@, n + 1)) by {
            assert forall|i: int| 1 <= i < n implies self.elements@[i].entry.tombstone
                == old.elements@[i].entry.tombstone by {
                assert(self.elements@[i].entry == old.elements@[i].entry);
            }
            lemma_live_upto_same(self.elements@, old.elements@, n);
        }
        assert forall|i: int| 0 <= i <= n implies self.key_at(i) == (if i == n {
            entry.key
        } else {
            old.key_at(i)
        }) by {
            if i < n {
                assert(self.elements@[i].entry == old.elements@[i].entry);
            }
        }
        let want = old@.insert(entry.key, entry);
        assert forall|key: usize| self.has(key) == want.contains_key(key) by {
            if old.has(key) {
                let i = choose|i: int| 1 <= i < n && #[trigger] old.key_at(i) == key;
                assert(self.key_at(i) == key);
            }
            if key == entry.key {
                assert(self.key_at(n) == key);
            }
            if self.has(key) {
                let i = choose|i: int| 1 <= i < n + 1 && #[trigger] self.key_at(i) == key;
                if i < n {
                    assert(old.key_at(i) == key);
                }
            }
        }
        assert forall|key: usize| self@.contains_key(key) implies #[trigger] self@[key]
            == want[key] by {
            let i = choose|i: int| 1 <= i < n + 1 && #[trigger] self.key_at(i) == key;
            self.lemma_at_position(i);
            if i < n {
                assert(old.key_at(i) == key);
                old.lemma_at_position(i);
                assert(self.elements@[i].entry == old.elements@[i].entry);
            }
        }
        assert(self@ =~= want);
    }

    /// Adds an element for `key`, which the table does not hold yet, with
    /// the pointers of `level_num` levels above the base level. On each
    /// level the element stands after the one that `path` names.
    fn insert(&mut self, path: Vec<usize>, key: usize, value: Vec<u8>, level_num: usize)
        requires
            old(self).wf(),
            old(self).flanks(path@, key),
            old(self).precedes(path@[0], key),
            !old(self)@.contains_key(key),
            level_num <= old(self).max_level,
            old(self).elements@.len() < usize::MAX,
        ensures
            final(self).wf(),
            final(self)@ == old(self)@.insert(
                key,
                EntryView { key, value: value@, tombstone: false },
            ),
            final(self).size == old(self).size + 1,
            final(self).spec_entries() == old(self).spec_entries() + 1,
            final(self).spec_max_level() == old(self).spec_max_level(),
            final(self).spec_threshold() == old(self).spec_threshold(),
    {
        let ghost before = *self;
        let ghost entry = EntryView { key, value: value@, tombstone: false };
        let n = self.elements.len();
        proof {
            reveal(SkipList::linked);
            lemma_live_upto_bounds(self.elements@, n as int);
        }
        let shared = if level_num < self.level {
            level_num
        } else {
            self.level
        };
        let mut next: Vec<Option<usize>> = Vec::new();
        let mut lc: usize = 0;
        while lc <= shared
            invariant
                *self == before,
                before.flanks(path@, key),
                shared <= before.level < usize::MAX,
                lc <= shared + 1,
                next@.len() == lc,
                forall|l: int|
                    0 <= l < lc ==> #[trigger] next@[l]
                        == before.elements@[path@[l] as int].next@[l],
            decreases shared + 1 - lc,
        {
            let prev = path[lc];
            next.push(self.elements[prev].next[lc]);
            lc = lc + 1;
        }
        while lc <= level_num
            invariant
                shared < lc <= level_num + 1,
                level_num < usize::MAX,
                next@.len() == lc,
                forall|l: int|
                    0 <= l <= shared ==> #[trigger] next@[l]
                        == before.elements@[path@[l] as int].next@[l],
                forall|l: int| shared < l < lc ==> #[trigger] next@[l] == None::<usize>,
            decreases level_num + 1 - lc,
        {
            next.push(None);
            lc = lc + 1;
        }
        let ghost pointers = next@;
        self.elements.push(Element { entry: Entry::new(key, value), next });
        let ghost added = self.elements@[n as int];
        lc = 0;
        while lc <= shared
            invariant
                before.flanks(path@, key),
                shared <= before.level < usize::MAX,
                n == before.elements@.len(),
                lc <= shared + 1,
                self.max_level == before.max_level,
                self.threshold == before.threshold,
                self.level == before.level,
                self.size == before.size,
                self.rank@ == before.rank@,
                self.elements@.len() == n + 1,
                self.elements@[n as int] == added,
                forall|i: int|
                    0 <= i < n ==> (#[trigger] self.elements@[i]).entry
                        == before.elements@[i].entry && self.elements@[i].next@.len()
                        == before.elements@[i].next@.len(),
                forall|i: int, l: int|
                    0 <= i < n && 0 <= l < self.elements@[i].next@.len()
                        ==> #[trigger] self.elements@[i].next@[l] == (if l < lc && path@[l] == i {
                        Some(n)
                    } else {
                        before.elements@[i].next@[l]
                    }),
            decreases shared + 1 - lc,
        {
            let prev = path[lc];
            self.elements[prev].next.set(lc, Some(n));
            lc = lc + 1;
        }
        if level_num > self.level {
            let mut rising: usize = self.level + 1;
            while rising <= level_num
                invariant
                    before.level < rising <= level_num + 1,
                    level_num < usize::MAX,
                    n == before.elements@.len(),
                    n >= 1,
                    shared == before.level,
                    self.max_level == before.max_level,
                    self.threshold == before.threshold,
                    self.level == before.level,
                    self.size == before.size,
                    self.rank@ == before.rank@,
                    self.elements@.len() == n + 1,
                    self.elements@[n as int] == added,
                    before.elements@[0].next@.len() == before.level + 1,
                    forall|i: int|
                        0 <= i < n ==> (#[trigger] self.elements@[i]).entry
                            == before.elements@[i].entry && self.elements@[i].next@.len() == (if i
                            == 0 {
                            rising as int
                        } else {
                            before.elements@[i].next@.len() as int
                        }),
                    forall|i: int, l: int|
                        0 <= i < n && 0 <= l < self.elements@[i].next@.len()
                            ==> #[trigger] self.elements@[i].next@[l] == (if l <= shared && path@[l]
                            == i {
                            Some(n)
                        } else if l > before.level {
                            Some(n)
                        } else {
                            before.elements@[i].next@[l]
                        }),
                decreases level_num + 1 - rising,
            {
                self.elements[0].next.push(Some(n));
                rising = rising + 1;
            }
            self.level = level_num;
        }
        self.size = self.size + 1;
        proof {
            let split = before.rank@[path@[0] as int] + 1;
            let ranks = Seq::new(
                (n + 1) as nat,
                |i: int|
                    if i == n {
                        split
                    } else if before.rank@[i] >= split {
                        before.rank@[i] + 1
                    } else {
                        before.rank@[i]
                    },
            );
            self.rank = Ghost(ranks);
            assert(self.elements@[n as int].next@ == pointers);
            assert(self.inserted(&before, path@, entry, level_num as int));
            self.lemma_inserted(&before, path@, entry, level_num as int);
        }
    }

    /// Writes `value` under `key`: over the value, live or deleted, that the
    /// table holds there, or as a new entry.
    pub fn update_or_insert(&mut self, key: &usize, value: Vec<u8>)
        requires
            old(self).wf(),
            old(self).spec_entries() + 2 <= usize::MAX,
        ensures
            final(self).wf(),
            final(self)@ == old(self)@.insert(
                *key,
                EntryView { key: *key, value: value@, tombstone: false },
            ),
            final(self).spec_len() == old(self).spec_len() + if old(self)@.contains_key(*key)
                && !old(self)@[*key].tombstone {
                0int
            } else {
                1int
            },
            final(self).spec_entries() == old(self).spec_entries() + if old(self)@.contains_key(
                *key,
            ) {
                0int
            } else {
                1int
            },
            final(self).spec_max_level() == old(self).spec_max_level(),
            final(self).spec_threshold() == old(self).spec_threshold(),
    {
        let (prev, path) = self.search(key);
        proof {
            reveal(SkipList::linked);
            self.lemma_precedes(prev, *key);
            self.lemma_absent(prev, *key);
            self.lemma_view();
        }
        match self.elements[prev].next[0] {
            Some(next) => {
                proof {
                    assert(self.elements@[prev as int].next@[0] == Some(next));
                    self.lemma_at_position(next as int);
                }
                if self.elements[next].entry.key == *key {
                    self.update(next, value);
                } else {
                    let level_num = self.random_level();
                    self.insert(path, *key, value, level_num);
                }
            },
            None => {
                let level_num = self.random_level();
                self.insert(path, *key, value, level_num);
            },
        }
    }

    /// The keys under which the table holds a live entry.
    pub open spec fn live_keys(&self) -> Set<usize> {
        self@.dom().filter(|key: usize| !self@[key].tombstone)
    }

    /// The keys of the live entries at the positions below `upto`.
    spec fn live_keys_upto(&self, upto: int) -> Set<usize> {
        Set::new(
            |key: usize|
                exists|i: int|
                    1 <= i < upto && #[trigger] self.key_at(i) == key
                        && !self.elements@[i].entry.tombstone,
        )
    }

    /// There are as many keys of live entries below a position as live
    /// entries.
    proof fn lemma_live_keys_upto(&self, upto: int)
        requires
            self.wf(),
            1 <= upto <= self.elements@.len(),
        ensures
            self.live_keys_upto(upto).finite(),
            self.live_keys_upto(upto).len() == live_upto(self.elements@, upto),
        decreases upto,
    {
        if upto == 1 {
            assert(self.live_keys_upto(upto) =~= Set::empty());
        } else {
            self.lemma_live_keys_upto(upto - 1);
            let fewer = self.live_keys_upto(upto - 1);
            let key = self.key_at(upto - 1);
            if self.elements@[upto - 1].entry.tombstone {
                assert(self.live_keys_upto(upto) =~= fewer);
            } else {
                assert(!fewer.contains(key)) by {
                    if fewer.contains(key) {
                        let i = choose|i: int|
                            1 <= i < upto - 1 && #[trigger] self.key_at(i) == key
                                && !self.elements@[i].entry.tombstone;
                        self.lemma_keys_differ(i, upto - 1);
                    }
                }
                assert(self.live_keys_upto(upto) =~= fewer.insert(key));
            }
        }
    }

    /// The size of the table is the number of keys with a live entry.
    pub proof fn lemma_len_counts_live(&self)
        requires
            self.wf(),
        ensures
            self.live_keys().finite(),
            self.spec_len() == self.live_keys().len(),
    {
        let len = self.elements@.len() as int;
        assert(len >= 1) by {
            reveal(SkipList::ranked);
        }
        self.lemma_live_keys_upto(len);
        self.lemma_view();
        assert forall|key: usize| self.live_keys().contains(key) == self.live_keys_upto(
            len,
        ).contains(key) by {
            if self.live_keys().contains(key) {
                let i = choose|i: int| 1 <= i < len && #[trigger] self.key_at(i) == key;
                self.lemma_at_position(i);
            }
            if self.live_keys_upto(len).contains(key) {
                let i = choose|i: int|
                    1 <= i < len && #[trigger] self.key_at(i) == key
                        && !self.elements@[i].entry.tombstone;
                self.lemma_at_position(i);
            }
        }
        assert(self.live_keys() =~= self.live_keys_upto(len));
    }
}

} // verus!
