//! Merging all counter stores into one consolidated view.
//!
//! The aggregated view is rebuilt from scratch for every report: one group
//! per event name, ordered by name, and inside each group one entry per
//! sub-index, ordered by sub-index, holding the count summed over every
//! registered store. The view's meaning is its *model*: the sequence of
//! (name, entries) pairs, against which all counting facts are stated.

use vstd::prelude::*;

use crate::order::{compare_names, lemma_lex_total, lemma_lex_trans, lex_lt, NameOrder};
use crate::store::{count_in, entry_key, CounterStore, Key};

verus! {

/// One sub-index with its merged count.
#[derive(Clone, Copy, Debug, PartialEq, Eq, Structural)]
pub struct IndexCount {
    pub index: i64,
    pub count: u64,
}

/// All counts recorded under one event name, ordered by sub-index.
pub struct EventGroup {
    pub name: String,
    pub items: Vec<IndexCount>,
}

/// The consolidated view of all stores: one group per event name, ordered
/// by event name.
pub struct AggregatedView {
    pub groups: Vec<EventGroup>,
}

/// A group's entries as the specification sees them: sub-index and count.
pub type Entries = Seq<(int, u64)>;

/// The whole view as the specification sees it: names with their entries.
pub type GroupsModel = Seq<(Seq<char>, Entries)>;

/// The model of a group's item vector.
pub open spec fn items_model(items: Seq<IndexCount>) -> Entries {
    items.map_values(|ic: IndexCount| (ic.index as int, ic.count))
}

/// The model of one group.
pub open spec fn group_model(g: EventGroup) -> (Seq<char>, Entries) {
    (g.name@, items_model(g.items@))
}

/// The model of the whole view.
pub open spec fn view_model(v: AggregatedView) -> GroupsModel {
    v.groups@.map_values(|g: EventGroup| group_model(g))
}

/// What one entry contributes to the count of a sub-index.
pub open spec fn entry_contrib(e: (int, u64), idx: int) -> nat {
    if e.0 == idx {
        e.1 as nat
    } else {
        0
    }
}

/// The count a group's entries hold for one sub-index.
pub open spec fn entry_count(es: Entries, idx: int) -> nat
    decreases es.len(),
{
    if es.len() == 0 {
        0
    } else {
        entry_contrib(es[0], idx) + entry_count(es.drop_first(), idx)
    }
}

/// What one group contributes to the count of a key.
pub open spec fn group_contrib(g: (Seq<char>, Entries), k: Key) -> nat {
    if g.0 == k.0 {
        entry_count(g.1, k.1)
    } else {
        0
    }
}

/// The count a whole model holds for one key.
pub open spec fn model_count(m: GroupsModel, k: Key) -> nat
    decreases m.len(),
{
    if m.len() == 0 {
        0
    } else {
        group_contrib(m[0], k) + model_count(m.drop_first(), k)
    }
}

/// A group's entries are well-formed: at least one entry, every count at
/// least one, sub-indexes strictly ascending.
pub open spec fn entries_wf(es: Entries) -> bool {
    &&& es.len() > 0
    &&& forall|i: int| 0 <= i < es.len() ==> 1 <= (#[trigger] es[i]).1
    &&& forall|i: int, j: int| 0 <= i < j < es.len() ==> es[i].0 < es[j].0
}

/// The whole model is well-formed: every group well-formed, names strictly
/// ascending in the report's order.
pub open spec fn model_wf(m: GroupsModel) -> bool {
    &&& forall|i: int| 0 <= i < m.len() ==> entries_wf((#[trigger] m[i]).1)
    &&& forall|i: int, j: int| 0 <= i < j < m.len() ==> lex_lt(m[i].0, m[j].0)
}

/// What one listed store entry contributes to the count of a key.
pub open spec fn list_contrib(e: (String, i64, u64), k: Key) -> nat {
    if entry_key(e) == k {
        e.2 as nat
    } else {
        0
    }
}

/// The count a listed sequence of store entries holds for one key.
pub open spec fn entries_count(es: Seq<(String, i64, u64)>, k: Key) -> nat
    decreases es.len(),
{
    if es.len() == 0 {
        0
    } else {
        entries_count(es.drop_last(), k) + list_contrib(es.last(), k)
    }
}

/// The true global count of a key: the sum of that key's count over a
/// sequence of store mappings.
pub open spec fn total_count(ss: Seq<Map<Key, u64>>, k: Key) -> nat
    decreases ss.len(),
{
    if ss.len() == 0 {
        0
    } else {
        total_count(ss.drop_last(), k) + count_in(ss.last(), k)
    }
}

/// The mappings a sequence of stores holds, in order.
pub open spec fn store_views(ss: Seq<CounterStore>) -> Seq<Map<Key, u64>> {
    ss.map_values(|s: CounterStore| s@)
}

/// Every key's global count fits the count type: what machine arithmetic
/// needs of the merge.
pub open spec fn fits_u64(ss: Seq<Map<Key, u64>>) -> bool {
    forall|k: Key| total_count(ss, k) <= u64::MAX
}

/// A single entry counts exactly its own contribution.
pub proof fn lemma_entry_count_singleton(e: (int, u64), idx: int)
    ensures
        entry_count(seq![e], idx) == entry_contrib(e, idx),
{
    let s = seq![e];
    let empty_entries: Entries = Seq::empty();
    assert(s.drop_first() =~= empty_entries);
    assert(entry_count(empty_entries, idx) == 0);
}

/// Entries none of which carries the sub-index count nothing for it.
pub proof fn lemma_entry_count_absent(es: Entries, idx: int)
    requires
        forall|i: int| 0 <= i < es.len() ==> (#[trigger] es[i]).0 != idx,
    ensures
        entry_count(es, idx) == 0,
    decreases es.len(),
{
    if es.len() > 0 {
        lemma_entry_count_absent(es.drop_first(), idx);
    }
}

/// With pairwise distinct sub-indexes, the count for a sub-index is exactly
/// what its one entry holds.
pub proof fn lemma_entry_count_at(es: Entries, i: int, idx: int)
    requires
        0 <= i < es.len(),
        es[i].0 == idx,
        forall|a: int, b: int|
            0 <= a < b < es.len() ==> (#[trigger] es[a]).0 != (#[trigger] es[b]).0,
    ensures
        entry_count(es, idx) == es[i].1,
    decreases es.len(),
{
    if i == 0 {
        lemma_entry_count_absent(es.drop_first(), idx);
    } else {
        lemma_entry_count_at(es.drop_first(), i - 1, idx);
    }
}

/// Groups none of which carries the key's name count nothing for it.
pub proof fn lemma_model_count_absent(m: GroupsModel, k: Key)
    requires
        forall|i: int| 0 <= i < m.len() ==> (#[trigger] m[i]).0 != k.0,
    ensures
        model_count(m, k) == 0,
    decreases m.len(),
{
    if m.len() > 0 {
        lemma_model_count_absent(m.drop_first(), k);
    }
}

/// With pairwise distinct names, the count for a key is exactly what the one
/// group of that name holds.
pub proof fn lemma_model_count_at(m: GroupsModel, g: int, k: Key)
    requires
        0 <= g < m.len(),
        m[g].0 == k.0,
        forall|a: int, b: int|
            0 <= a < b < m.len() ==> (#[trigger] m[a]).0 != (#[trigger] m[b]).0,
    ensures
        model_count(m, k) == entry_count(m[g].1, k.1),
    decreases m.len(),
{
    if g == 0 {
        lemma_model_count_absent(m.drop_first(), k);
    } else {
        lemma_model_count_at(m.drop_first(), g - 1, k);
    }
}

/// Replacing one entry moves the count by the difference of the two
/// contributions.
pub proof fn lemma_entry_count_update(es: Entries, i: int, e: (int, u64), idx: int)
    requires
        0 <= i < es.len(),
    ensures
        entry_count(es.update(i, e), idx) + entry_contrib(es[i], idx) == entry_count(es, idx)
            + entry_contrib(e, idx),
    decreases es.len(),
{
    if i == 0 {
        assert(es.update(0, e).drop_first() =~= es.drop_first());
    } else {
        assert(es.update(i, e).drop_first() =~= es.drop_first().update(i - 1, e));
        lemma_entry_count_update(es.drop_first(), i - 1, e, idx);
    }
}

/// Inserting one entry raises the count by that entry's contribution.
pub proof fn lemma_entry_count_insert(es: Entries, i: int, e: (int, u64), idx: int)
    requires
        0 <= i <= es.len(),
    ensures
        entry_count(es.insert(i, e), idx) == entry_count(es, idx) + entry_contrib(e, idx),
    decreases i,
{
    if i == 0 {
        assert(es.insert(0, e).drop_first() =~= es);
        assert(es.insert(0, e)[0] == e);
    } else {
        assert(es.insert(i, e).drop_first() =~= es.drop_first().insert(i - 1, e));
        assert(es.insert(i, e)[0] == es[0]);
        lemma_entry_count_insert(es.drop_first(), i - 1, e, idx);
    }
}

/// Replacing one group moves the count by the difference of the two
/// contributions.
pub proof fn lemma_model_count_update(m: GroupsModel, g: int, x: (Seq<char>, Entries), k: Key)
    requires
        0 <= g < m.len(),
    ensures
        model_count(m.update(g, x), k) + group_contrib(m[g], k) == model_count(m, k)
            + group_contrib(x, k),
    decreases m.len(),
{
    if g == 0 {
        assert(m.update(0, x).drop_first() =~= m.drop_first());
    } else {
        assert(m.update(g, x).drop_first() =~= m.drop_first().update(g - 1, x));
        lemma_model_count_update(m.drop_first(), g - 1, x, k);
    }
}

/// Inserting one group raises the count by that group's contribution.
pub proof fn lemma_model_count_insert(m: GroupsModel, g: int, x: (Seq<char>, Entries), k: Key)
    requires
        0 <= g <= m.len(),
    ensures
        model_count(m.insert(g, x), k) == model_count(m, k) + group_contrib(x, k),
    decreases g,
{
    if g == 0 {
        assert(m.insert(0, x).drop_first() =~= m);
        assert(m.insert(0, x)[0] == x);
    } else {
        assert(m.insert(g, x).drop_first() =~= m.drop_first().insert(g - 1, x));
        assert(m.insert(g, x)[0] == m[0]);
        lemma_model_count_insert(m.drop_first(), g - 1, x, k);
    }
}

/// A listing that covers a mapping exactly — every listed key is held with
/// that count, no key listed twice, every held key listed — sums, for every
/// key, to exactly the count the mapping holds.
pub proof fn lemma_entries_cover(es: Seq<(String, i64, u64)>, m: Map<Key, u64>)
    requires
        forall|i: int|
            0 <= i < es.len() ==> m.contains_key(entry_key(#[trigger] es[i]))
                && m[entry_key(es[i])] == es[i].2,
        forall|i: int, j: int| 0 <= i < j < es.len() ==> entry_key(es[i]) != entry_key(es[j]),
        forall|k: Key|
            #[trigger] m.contains_key(k) ==> exists|i: int|
                0 <= i < es.len() && entry_key(#[trigger] es[i]) == k,
    ensures
        forall|k: Key| entries_count(es, k) == count_in(m, k),
    decreases es.len(),
{
    if es.len() == 0 {
        assert forall|k: Key| entries_count(es, k) == count_in(m, k) by {
            assert(!m.contains_key(k));
        }
    } else {
        let last = es.last();
        let kl = entry_key(last);
        let m2 = m.remove(kl);
        let prefix = es.drop_last();
        assert forall|k: Key| #[trigger] m2.contains_key(k) implies exists|i: int|
            0 <= i < prefix.len() && entry_key(#[trigger] prefix[i]) == k by {
            assert(m.contains_key(k));
            let i = choose|i: int| 0 <= i < es.len() && entry_key(#[trigger] es[i]) == k;
            assert(i < es.len() - 1);
            assert(prefix[i] == es[i]);
        }
        assert forall|i: int|
            0 <= i < prefix.len() implies m2.contains_key(entry_key(#[trigger] prefix[i]))
            && m2[entry_key(prefix[i])] == prefix[i].2 by {
            assert(prefix[i] == es[i]);
            assert(entry_key(es[i]) != kl);
        }
        lemma_entries_cover(prefix, m2);
        assert forall|k: Key| entries_count(es, k) == count_in(m, k) by {
            assert(entries_count(prefix, k) == count_in(m2, k));
            if k == kl {
                assert(count_in(m2, k) == 0);
            }
        }
    }
}

/// One more listed entry adds exactly its contribution.
pub proof fn lemma_entries_count_take_step(es: Seq<(String, i64, u64)>, j: int, k: Key)
    requires
        0 <= j < es.len(),
    ensures
        entries_count(es.take(j + 1), k) == entries_count(es.take(j), k) + list_contrib(
            es[j],
            k,
        ),
{
    assert(es.take(j + 1).drop_last() =~= es.take(j));
    assert(es.take(j + 1).last() == es[j]);
}

/// A prefix of a listing never sums above the whole listing.
pub proof fn lemma_entries_count_take_le(es: Seq<(String, i64, u64)>, j: int, k: Key)
    requires
        0 <= j <= es.len(),
    ensures
        entries_count(es.take(j), k) <= entries_count(es, k),
    decreases es.len() - j,
{
    if j == es.len() {
        assert(es.take(j) =~= es);
    } else {
        lemma_entries_count_take_step(es, j, k);
        lemma_entries_count_take_le(es, j + 1, k);
    }
}

/// One more store adds exactly what it holds for the key.
pub proof fn lemma_total_count_take_step(ss: Seq<Map<Key, u64>>, i: int, k: Key)
    requires
        0 <= i < ss.len(),
    ensures
        total_count(ss.take(i + 1), k) == total_count(ss.take(i), k) + count_in(ss[i], k),
{
    assert(ss.take(i + 1).drop_last() =~= ss.take(i));
    assert(ss.take(i + 1).last() == ss[i]);
}

/// A prefix of the stores never sums above all of them.
pub proof fn lemma_total_count_take_le(ss: Seq<Map<Key, u64>>, i: int, k: Key)
    requires
        0 <= i <= ss.len(),
    ensures
        total_count(ss.take(i), k) <= total_count(ss, k),
    decreases ss.len() - i,
{
    if i == ss.len() {
        assert(ss.take(i) =~= ss);
    } else {
        lemma_total_count_take_step(ss, i, k);
        lemma_total_count_take_le(ss, i + 1, k);
    }
}

/// Sorted-strict names are pairwise distinct.
pub proof fn lemma_model_names_distinct(m: GroupsModel)
    requires
        forall|i: int, j: int| 0 <= i < j < m.len() ==> lex_lt(m[i].0, m[j].0),
    ensures
        forall|a: int, b: int|
            0 <= a < b < m.len() ==> (#[trigger] m[a]).0 != (#[trigger] m[b]).0,
{
    assert forall|a: int, b: int|
        0 <= a < b < m.len() implies (#[trigger] m[a]).0 != (#[trigger] m[b]).0 by {
        lemma_lex_total(m[a].0, m[b].0);
    }
}

impl AggregatedView {
    /// A view holding nothing yet.
    pub fn new() -> (r: AggregatedView)
        ensures
            view_model(r) =~= Seq::empty(),
            model_wf(view_model(r)),
    {
        AggregatedView { groups: Vec::new() }
    }

    /// The position where `name`'s group stands or would stand: everything
    /// before it comes earlier in the order, and what stands there — if
    /// anything — does not come earlier.
    fn find_group(&self, name: &str) -> (r: usize)
        ensures
            r <= view_model(*self).len(),
            forall|t: int| 0 <= t < r ==> lex_lt((#[trigger] view_model(*self)[t]).0, name@),
            r < view_model(*self).len() ==> !lex_lt(view_model(*self)[r as int].0, name@),
    {
        let n = self.groups.len();
        let mut gi: usize = 0;
        #[verifier::loop_isolation(false)]
        while gi < n
            invariant
                gi <= n,
                forall|t: int| 0 <= t < gi ==> lex_lt((#[trigger] view_model(*self)[t]).0, name@),
            decreases n - gi,
        {
            let ord = compare_names(self.groups[gi].name.as_str(), name);
            if !matches!(ord, NameOrder::Before) {
                return gi;
            }
            assert(view_model(*self)[gi as int].0 == self.groups@[gi as int].name@);
            gi = gi + 1;
        }
        gi
    }

    /// Add `count` occurrences of one key into the view: its merged count
    /// grows by exactly `count`, every other key's count stands unchanged,
    /// and the view stays well-formed.
    pub fn add_count(&mut self, name: &str, index: i64, count: u64)
        requires
            model_wf(view_model(*old(self))),
            1 <= count,
            model_count(view_model(*old(self)), (name@, index as int)) + count <= u64::MAX,
        ensures
            model_wf(view_model(*final(self))),
            forall|k: Key|
                model_count(view_model(*final(self)), k) == model_count(
                    view_model(*old(self)),
                    k,
                ) + (if k == (name@, index as int) {
                    count as nat
                } else {
                    0
                }),
    {
        let ghost m0 = view_model(*self);
        let ghost key: Key = (name@, index as int);
        proof {
            lemma_model_names_distinct(m0);
        }
        let gi = self.find_group(name);
        let glen = self.groups.len();
        if gi < glen && matches!(compare_names(self.groups[gi].name.as_str(), name), NameOrder::Same) {
            self.merge_into_group(gi, name, index, count);
        } else {
            proof {
                if gi < glen {
                    lemma_lex_total(m0[gi as int].0, name@);
                }
            }
            self.insert_group(gi, name, index, count);
        }
    }

    /// Merge `count` into the group at `gi`, whose name is `name`.
    fn merge_into_group(&mut self, gi: usize, name: &str, index: i64, count: u64)
        requires
            model_wf(view_model(*old(self))),
            gi < view_model(*old(self)).len(),
            view_model(*old(self))[gi as int].0 == name@,
            1 <= count,
            model_count(view_model(*old(self)), (name@, index as int)) + count <= u64::MAX,
        ensures
            model_wf(view_model(*final(self))),
            forall|k: Key|
                model_count(view_model(*final(self)), k) == model_count(
                    view_model(*old(self)),
                    k,
                ) + (if k == (name@, index as int) {
                    count as nat
                } else {
                    0
                }),
    {
        let ghost m0 = view_model(*old(self));
        let ghost key: Key = (name@, index as int);
        proof {
            lemma_model_names_distinct(m0);
            lemma_model_count_at(m0, gi as int, key);
        }
        let mut g = self.groups.remove(gi);
        let ghost es0 = items_model(g.items@);
        proof {
            assert(m0[gi as int] == group_model(old(self).groups@[gi as int]));
            assert(m0[gi as int].1 == es0);
            assert(entries_wf(es0));
        }
        let ilen = g.items.len();
        let mut ii: usize = 0;
        #[verifier::loop_isolation(false)]
        while ii < ilen && g.items[ii].index < index
            invariant
                ii <= ilen,
                forall|t: int| 0 <= t < ii ==> (#[trigger] es0[t]).0 < index as int,
            decreases ilen - ii,
        {
            assert(es0[ii as int].0 == g.items@[ii as int].index as int);
            ii = ii + 1;
        }
        if ii < ilen && g.items[ii].index == index {
            let c0 = g.items[ii].count;
            proof {
                assert(es0[ii as int] == (index as int, c0));
                lemma_entry_count_at(es0, ii as int, index as int);
            }
            g.items[ii] = IndexCount { index: index, count: c0 + count };
            proof {
                let e: (int, u64) = (index as int, (c0 + count) as u64);
                assert(items_model(g.items@) =~= es0.update(ii as int, e));
                let es1 = items_model(g.items@);
                assert(entry_count(es1, index as int) == model_count(m0, key) + count) by {
                    lemma_entry_count_update(es0, ii as int, e, index as int);
                }
                assert forall|q: int| q != index as int implies entry_count(es1, q)
                    == entry_count(es0, q) by {
                    lemma_entry_count_update(es0, ii as int, e, q);
                }
                assert(entries_wf(es1)) by {
                    assert forall|a: int, b: int| 0 <= a < b < es1.len() implies es1[a].0
                        < es1[b].0 by {
                        assert(es1[a].0 == es0[a].0);
                        assert(es1[b].0 == es0[b].0);
                    }
                }
            }
        } else {
            proof {
                assert(ii < ilen ==> es0[ii as int].0 > index as int) by {
                    if ii < ilen {
                        assert(es0[ii as int].0 == g.items@[ii as int].index as int);
                    }
                }
                assert forall|t: int| 0 <= t < es0.len() implies (#[trigger] es0[t]).0
                    != index as int by {
                    if t >= ii {
                        if t > ii {
                            assert(es0[ii as int].0 < es0[t].0);
                        }
                    }
                }
                lemma_entry_count_absent(es0, index as int);
            }
            g.items.insert(ii, IndexCount { index: index, count: count });
            proof {
                let e: (int, u64) = (index as int, count);
                assert(items_model(g.items@) =~= es0.insert(ii as int, e));
                let es1 = items_model(g.items@);
                assert(entry_count(es1, index as int) == model_count(m0, key) + count) by {
                    lemma_entry_count_insert(es0, ii as int, e, index as int);
                }
                assert forall|q: int| q != index as int implies entry_count(es1, q)
                    == entry_count(es0, q) by {
                    lemma_entry_count_insert(es0, ii as int, e, q);
                }
                assert(entries_wf(es1)) by {
                    assert forall|a: int, b: int| 0 <= a < b < es1.len() implies es1[a].0
                        < es1[b].0 by {
                        if b < ii as int {
                            assert(es1[a] == es0[a]);
                            assert(es1[b] == es0[b]);
                        } else if a < ii as int && b == ii as int {
                            assert(es1[a] == es0[a]);
                        } else if a < ii as int && b > ii as int {
                            assert(es1[a] == es0[a]);
                            assert(es1[b] == es0[b - 1]);
                        } else if a == ii as int {
                            assert(es1[b] == es0[b - 1]);
                            assert(es0[ii as int].0 > index as int);
                            if b - 1 > ii as int {
                                assert(es0[ii as int].0 < es0[b - 1].0);
                            }
                        } else {
                            assert(es1[a] == es0[a - 1]);
                            assert(es1[b] == es0[b - 1]);
                        }
                    }
                }
            }
        }
        self.groups.insert(gi, g);
        proof {
            let es1 = items_model(g.items@);
            let x: (Seq<char>, Entries) = (name@, es1);
            assert(g.name@ == name@);
            assert(group_model(g) == x);
            assert(self.groups@ =~= old(self).groups@.update(gi as int, g));
            assert(view_model(*self) =~= m0.update(gi as int, x));
            assert forall|k: Key|
                model_count(view_model(*self), k) == model_count(m0, k) + (if k == key {
                    count as nat
                } else {
                    0
                }) by {
                lemma_model_count_update(m0, gi as int, x, k);
                assert(m0[gi as int].0 == name@);
                if k.0 == name@ && k != key {
                    assert(entry_count(es1, k.1) == entry_count(es0, k.1));
                }
            }
            let m1 = view_model(*self);
            assert forall|i: int, j: int| 0 <= i < j < m1.len() implies lex_lt(
                m1[i].0,
                m1[j].0,
            ) by {
                assert(m1[i].0 == m0[i].0);
                assert(m1[j].0 == m0[j].0);
            }
            assert forall|i: int| 0 <= i < m1.len() implies entries_wf((#[trigger] m1[i]).1) by {
                if i != gi as int {
                    assert(m1[i] == m0[i]);
                }
            }
        }
    }

    /// Insert a brand-new group for `name` at position `gi`.
    fn insert_group(&mut self, gi: usize, name: &str, index: i64, count: u64)
        requires
            model_wf(view_model(*old(self))),
            gi <= view_model(*old(self)).len(),
            forall|t: int| 0 <= t < gi ==> lex_lt((#[trigger] view_model(*old(self))[t]).0, name@),
            gi < view_model(*old(self)).len() ==> lex_lt(
                name@,
                view_model(*old(self))[gi as int].0,
            ),
            1 <= count,
        ensures
            model_wf(view_model(*final(self))),
            forall|k: Key|
                model_count(view_model(*final(self)), k) == model_count(
                    view_model(*old(self)),
                    k,
                ) + (if k == (name@, index as int) {
                    count as nat
                } else {
                    0
                }),
    {
        let ghost m0 = view_model(*old(self));
        let ghost key: Key = (name@, index as int);
        let mut items: Vec<IndexCount> = Vec::new();
        items.push(IndexCount { index: index, count: count });
        let g = EventGroup { name: name.to_owned(), items };
        let ghost x: (Seq<char>, Entries) = (name@, seq![(index as int, count)]);
        proof {
            assert(group_model(g) =~= x) by {
                assert(items_model(g.items@) =~= seq![(index as int, count)]);
            }
        }
        self.groups.insert(gi, g);
        proof {
            let empty_entries: Entries = Seq::empty();
            assert(x.1.drop_first() =~= empty_entries);
            assert(x.1[0] == (index as int, count));
            assert(view_model(*self) =~= m0.insert(gi as int, x));
            assert forall|k: Key|
                model_count(view_model(*self), k) == model_count(m0, k) + (if k == key {
                    count as nat
                } else {
                    0
                }) by {
                lemma_model_count_insert(m0, gi as int, x, k);
                lemma_entry_count_singleton((index as int, count), k.1);
                assert(x.1 =~= seq![(index as int, count)]);
            }
            assert(entries_wf(x.1));
            let m1 = view_model(*self);
            assert forall|i: int, j: int| 0 <= i < j < m1.len() implies lex_lt(
                m1[i].0,
                m1[j].0,
            ) by {
                if i < gi as int && j == gi as int {
                    assert(m1[i] == m0[i]);
                    assert(m1[j] == x);
                } else if i == gi as int && j > gi as int {
                    assert(m1[i] == x);
                    assert(m1[j] == m0[j - 1]);
                    if j - 1 > gi as int {
                        lemma_lex_trans(name@, m0[gi as int].0, m0[j - 1].0);
                    }
                } else if i < gi as int && j > gi as int {
                    assert(m1[i] == m0[i]);
                    assert(m1[j] == m0[j - 1]);
                } else if j < gi as int {
                    assert(m1[i] == m0[i]);
                    assert(m1[j] == m0[j]);
                } else {
                    assert(m1[i] == m0[i - 1]);
                    assert(m1[j] == m0[j - 1]);
                }
            }
            assert forall|i: int| 0 <= i < m1.len() implies entries_wf((#[trigger] m1[i]).1) by {
                if i < gi as int {
                    assert(m1[i] == m0[i]);
                } else if i > gi as int {
                    assert(m1[i] == m0[i - 1]);
                }
            }
        }
    }
}

/// Merge every store into one consolidated view: for every key, the view's
/// count is exactly the sum of that key's counts over all the stores, and
/// the view is well-formed — groups ordered by name, entries by sub-index,
/// every count at least one.
pub fn aggregate(stores: &Vec<CounterStore>) -> (v: AggregatedView)
    requires
        forall|i: int| 0 <= i < stores@.len() ==> (#[trigger] stores@[i]).wf(),
        fits_u64(store_views(stores@)),
    ensures
        model_wf(view_model(v)),
        forall|k: Key| model_count(view_model(v), k) == total_count(store_views(stores@), k),
{
    let ghost svs = store_views(stores@);
    let mut view = AggregatedView::new();
    let n = stores.len();
    let mut si: usize = 0;
    proof {
        assert forall|k: Key| model_count(view_model(view), k) == total_count(
            svs.take(0),
            k,
        ) by {
            assert(svs.take(0).len() == 0);
        }
    }
    #[verifier::loop_isolation(false)]
    while si < n
        invariant
            si <= n,
            model_wf(view_model(view)),
            forall|k: Key| model_count(view_model(view), k) == total_count(svs.take(si as int), k),
        decreases n - si,
    {
        let es = stores[si].entries();
        proof {
            lemma_entries_cover(es@, svs[si as int]);
        }
        let m = es.len();
        let mut j: usize = 0;
        proof {
            assert forall|k: Key|
                model_count(view_model(view), k) == total_count(svs.take(si as int), k)
                    + entries_count(es@.take(0), k) by {
                assert(es@.take(0).len() == 0);
            }
        }
        #[verifier::loop_isolation(false)]
        while j < m
            invariant
                j <= m,
                model_wf(view_model(view)),
                forall|k: Key|
                    model_count(view_model(view), k) == total_count(svs.take(si as int), k)
                        + entries_count(es@.take(j as int), k),
            decreases m - j,
        {
            let entry = &es[j];
            let ghost key: Key = (entry.0@, entry.1 as int);
            proof {
                assert(entry_key(es@[j as int]) == key);
                assert(svs[si as int].contains_key(key));
                assert(1 <= es@[j as int].2) by {
                    assert(stores@[si as int].wf());
                }
                lemma_entries_count_take_step(es@, j as int, key);
                lemma_entries_count_take_le(es@, j as int + 1, key);
                lemma_total_count_take_step(svs, si as int, key);
                lemma_total_count_take_le(svs, si as int + 1, key);
            }
            view.add_count(entry.0.as_str(), entry.1, entry.2);
            proof {
                assert forall|k: Key|
                    model_count(view_model(view), k) == total_count(svs.take(si as int), k)
                        + entries_count(es@.take(j as int + 1), k) by {
                    lemma_entries_count_take_step(es@, j as int, k);
                }
            }
            j = j + 1;
        }
        proof {
            assert(es@.take(m as int) =~= es@);
            assert forall|k: Key|
                model_count(view_model(view), k) == total_count(svs.take(si as int + 1), k) by {
                lemma_total_count_take_step(svs, si as int, k);
            }
        }
        si = si + 1;
    }
    proof {
        assert(svs.take(n as int) =~= svs);
    }
    view
}

} // verus!
