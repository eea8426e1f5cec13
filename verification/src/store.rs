//! Thread-local counter stores.
//!
//! A [`CounterStore`] maps event keys — an event name together with a signed
//! sub-index — to how often the event was recorded. One store belongs to one
//! worker thread; the aggregator reads stores only through snapshots.

use vstd::prelude::*;

verus! {

/// An event key as the specification sees it: the event name's characters
/// and the sub-index as a mathematical integer.
pub type Key = (Seq<char>, int);

/// The hashed map a counter store is built on. The map itself comes from an
/// outside crate, so it is held opaquely; everything the library knows about
/// it is stated on the accessor functions below over [`map_counts`].
#[verifier::external_body]
pub struct CountMap {
    map: hashbrown::HashMap<(String, i64), u64>,
}

/// What a counter map holds: a finite mapping from event keys to counts.
pub uninterp spec fn map_counts(m: CountMap) -> Map<Key, u64>;

/// The key of one listed entry.
pub open spec fn entry_key(e: (String, i64, u64)) -> Key {
    (e.0@, e.1 as int)
}

/// Relies on hashbrown::HashMap::new: a freshly created map holds nothing.
#[verifier::external_body]
fn new_count_map() -> (r: CountMap)
    ensures
        map_counts(r) =~= Map::empty(),
{
    CountMap { map: hashbrown::HashMap::new() }
}

/// Relies on hashbrown::HashMap::get: returns the value stored under the
/// given key, or None when the key is absent.
#[verifier::external_body]
fn get_count(m: &CountMap, name: &str, index: i64) -> (r: Option<u64>)
    ensures
        r == if map_counts(*m).contains_key((name@, index as int)) {
            Some(map_counts(*m)[(name@, index as int)])
        } else {
            None::<u64>
        },
{
    m.map.get(&(name.to_owned(), index)).copied()
}

/// Relies on hashbrown::HashMap::insert: stores the value under the given
/// key, replacing any previous value held for that key.
#[verifier::external_body]
fn set_count(m: &mut CountMap, name: &str, index: i64, count: u64)
    ensures
        map_counts(*final(m)) == map_counts(*old(m)).insert((name@, index as int), count),
{
    m.map.insert((name.to_owned(), index), count);
}

/// Relies on hashbrown::HashMap::clone: the copy holds exactly the entries
/// of the original.
#[verifier::external_body]
fn clone_count_map(m: &CountMap) -> (r: CountMap)
    ensures
        map_counts(r) == map_counts(*m),
{
    CountMap { map: m.map.clone() }
}

/// Relies on hashbrown::HashMap::iter: visits every entry exactly once, in
/// no promised order. Each listed entry carries a key the map contains with
/// the count stored under it, no key is listed twice, and every key the map
/// contains is listed.
#[verifier::external_body]
fn entry_list(m: &CountMap) -> (r: Vec<(String, i64, u64)>)
    ensures
        forall|i: int|
            0 <= i < r@.len() ==> map_counts(*m).contains_key(entry_key(#[trigger] r@[i]))
                && map_counts(*m)[entry_key(r@[i])] == r@[i].2,
        forall|i: int, j: int|
            0 <= i < j < r@.len() ==> entry_key(r@[i]) != entry_key(r@[j]),
        forall|k: Key|
            #[trigger] map_counts(*m).contains_key(k) ==> exists|i: int|
                0 <= i < r@.len() && entry_key(#[trigger] r@[i]) == k,
{
    m.map.iter().map(|(k, c)| (k.0.clone(), k.1, *c)).collect()
}

/// The count a mapping holds for a key, with absent keys counting as zero.
pub open spec fn count_in(m: Map<Key, u64>, k: Key) -> nat {
    if m.contains_key(k) {
        m[k] as nat
    } else {
        0
    }
}

/// The effect of recording one event on a store's counts: the key's count
/// grows by one, starting from one when the key was absent.
pub open spec fn bumped(m: Map<Key, u64>, k: Key) -> Map<Key, u64> {
    m.insert(k, (count_in(m, k) + 1) as u64)
}

/// Every count a store holds is at least one: an entry exists only after at
/// least one recorded event.
pub open spec fn counts_wf(m: Map<Key, u64>) -> bool {
    forall|k: Key| #[trigger] m.contains_key(k) ==> 1 <= m[k]
}

/// One thread's counter store: how often each event key was recorded by the
/// owning thread.
pub struct CounterStore {
    counts: CountMap,
}

impl View for CounterStore {
    type V = Map<Key, u64>;

    closed spec fn view(&self) -> Map<Key, u64> {
        map_counts(self.counts)
    }
}

impl CounterStore {
    /// Every count present is at least one.
    pub open spec fn wf(self) -> bool {
        counts_wf(self@)
    }

    /// A fresh store, holding no counts at all.
    pub fn new() -> (r: CounterStore)
        ensures
            r@ =~= Map::empty(),
            r.wf(),
    {
        CounterStore { counts: new_count_map() }
    }

    /// The count currently held for the given name and sub-index; zero when
    /// the pair was never recorded.
    pub fn count_of(&self, name: &str, index: i64) -> (r: u64)
        ensures
            r as nat == count_in(self@, (name@, index as int)),
    {
        match get_count(&self.counts, name, index) {
            Some(c) => c,
            None => 0,
        }
    }

    /// Record one occurrence of the event `name` qualified by `index`: its
    /// count grows by one, starting at one when the pair was never recorded.
    pub fn record(&mut self, name: &str, index: i64)
        requires
            count_in(old(self)@, (name@, index as int)) < u64::MAX,
        ensures
            final(self)@ == bumped(old(self)@, (name@, index as int)),
            old(self).wf() ==> final(self).wf(),
    {
        let c = self.count_of(name, index);
        set_count(&mut self.counts, name, index, c + 1);
        proof {
            assert forall|k: Key| old(self).wf() && #[trigger] self@.contains_key(k) implies 1
                <= self@[k] by {
                if k != (name@, index as int) {
                    assert(old(self)@.contains_key(k));
                }
            }
        }
    }

    /// Record one occurrence of the event `name` with the default sub-index:
    /// the very same effect as recording it with sub-index zero.
    pub fn record_default(&mut self, name: &str)
        requires
            count_in(old(self)@, (name@, 0)) < u64::MAX,
        ensures
            final(self)@ == bumped(old(self)@, (name@, 0)),
            old(self).wf() ==> final(self).wf(),
    {
        self.record(name, 0)
    }

    /// An owned copy holding exactly the same counts, for the aggregator to
    /// read while the original stays with its thread.
    pub fn snapshot(&self) -> (r: CounterStore)
        ensures
            r@ == self@,
    {
        CounterStore { counts: clone_count_map(&self.counts) }
    }

    /// Every entry the store holds, listed in no promised order: each key
    /// exactly once, paired with its count.
    pub fn entries(&self) -> (r: Vec<(String, i64, u64)>)
        ensures
            forall|i: int|
                0 <= i < r@.len() ==> self@.contains_key(entry_key(#[trigger] r@[i]))
                    && self@[entry_key(r@[i])] == r@[i].2,
            forall|i: int, j: int|
                0 <= i < j < r@.len() ==> entry_key(r@[i]) != entry_key(r@[j]),
            forall|k: Key|
                #[trigger] self@.contains_key(k) ==> exists|i: int|
                    0 <= i < r@.len() && entry_key(#[trigger] r@[i]) == k,
    {
        entry_list(&self.counts)
    }
}

} // verus!

