//! Laws about recording and aggregation.
//!
//! Recording is a per-store bump; the report sums over all stores. The laws
//! here state what that gives globally: however record calls interleave
//! across threads, every key's global count is exactly the number of calls
//! made with that key, and a store registered once keeps contributing its
//! counts to every later total, whether or not its thread still runs.

use vstd::prelude::*;

use crate::aggregate::{fits_u64, total_count};
use crate::store::{bumped, count_in, Key};

verus! {

/// One recording step: the position of the recording thread's store in the
/// registry, and the key it records.
pub type RecordOp = (int, Key);

/// The store mappings after a sequence of record operations, each applied —
/// in order — to the store of the thread that made it.
pub open spec fn apply_ops(ss: Seq<Map<Key, u64>>, ops: Seq<RecordOp>) -> Seq<Map<Key, u64>>
    decreases ops.len(),
{
    if ops.len() == 0 {
        ss
    } else {
        let rest = apply_ops(ss, ops.drop_last());
        let op = ops.last();
        rest.update(op.0, bumped(rest[op.0], op.1))
    }
}

/// How many of the operations record exactly the key `k`.
pub open spec fn ops_for(ops: Seq<RecordOp>, k: Key) -> nat
    decreases ops.len(),
{
    if ops.len() == 0 {
        0
    } else {
        ops_for(ops.drop_last(), k) + (if ops.last().1 == k {
            1nat
        } else {
            0
        })
    }
}

/// Every operation names a store the registry holds.
pub open spec fn ops_valid(ss_len: int, ops: Seq<RecordOp>) -> bool {
    forall|i: int| 0 <= i < ops.len() ==> 0 <= (#[trigger] ops[i]).0 < ss_len
}

/// A store registered at any position never sums above the global total: its
/// counts are retained in every later report, also after its thread has
/// terminated — nothing is ever removed from the registry.
pub proof fn lemma_store_retained(ss: Seq<Map<Key, u64>>, i: int, k: Key)
    requires
        0 <= i < ss.len(),
    ensures
        count_in(ss[i], k) <= total_count(ss, k),
    decreases ss.len(),
{
    if i == ss.len() - 1 {
        assert(ss.last() == ss[i]);
    } else {
        assert(ss.drop_last()[i] == ss[i]);
        lemma_store_retained(ss.drop_last(), i, k);
    }
}

/// Replacing one store moves the total by the difference of the two stores'
/// counts for the key.
proof fn lemma_total_count_update(ss: Seq<Map<Key, u64>>, i: int, m2: Map<Key, u64>, k: Key)
    requires
        0 <= i < ss.len(),
    ensures
        total_count(ss.update(i, m2), k) + count_in(ss[i], k) == total_count(ss, k) + count_in(
            m2,
            k,
        ),
    decreases ss.len(),
{
    if i == ss.len() - 1 {
        assert(ss.update(i, m2).drop_last() =~= ss.drop_last());
        assert(ss.update(i, m2).last() == m2);
    } else {
        assert(ss.update(i, m2).drop_last() =~= ss.drop_last().update(i, m2));
        assert(ss.update(i, m2).last() == ss.last());
        assert(ss.drop_last()[i] == ss[i]);
        lemma_total_count_update(ss.drop_last(), i, m2, k);
    }
}

/// No key is recorded more often than there are record operations.
pub proof fn lemma_ops_for_le_len(ops: Seq<RecordOp>, k: Key)
    ensures
        ops_for(ops, k) <= ops.len(),
    decreases ops.len(),
{
    if ops.len() > 0 {
        lemma_ops_for_le_len(ops.drop_last(), k);
    }
}

/// Stores that hold nothing total nothing.
proof fn lemma_total_count_empty(ss: Seq<Map<Key, u64>>, k: Key)
    requires
        forall|i: int| 0 <= i < ss.len() ==> (#[trigger] ss[i]) == Map::<Key, u64>::empty(),
    ensures
        total_count(ss, k) == 0,
    decreases ss.len(),
{
    if ss.len() > 0 {
        assert forall|i: int|
            0 <= i < ss.drop_last().len() implies (#[trigger] ss.drop_last()[i]) == Map::<
            Key,
            u64,
        >::empty() by {
            assert(ss.drop_last()[i] == ss[i]);
        }
        lemma_total_count_empty(ss.drop_last(), k);
    }
}

/// Starting from freshly created stores, any run of at most `u64::MAX`
/// record operations leaves every key's global total within the count type:
/// the report's arithmetic precondition holds of every such run.
pub proof fn lemma_fits_after_ops(ss: Seq<Map<Key, u64>>, ops: Seq<RecordOp>)
    requires
        forall|i: int| 0 <= i < ss.len() ==> (#[trigger] ss[i]) == Map::<Key, u64>::empty(),
        ops_valid(ss.len() as int, ops),
        ops.len() <= u64::MAX,
    ensures
        fits_u64(apply_ops(ss, ops)),
{
    assert forall|k: Key| total_count(apply_ops(ss, ops), k) <= u64::MAX by {
        lemma_total_count_empty(ss, k);
        lemma_ops_for_le_len(ops, k);
        lemma_record_tally(ss, ops, k);
    }
}

/// Commutativity of recording: for any sequence of record operations,
/// interleaved arbitrarily across any number of threads' stores, the global
/// count of a key afterwards is the count before plus exactly the number of
/// operations that recorded that key — the interleaving plays no role.
pub proof fn lemma_record_tally(ss: Seq<Map<Key, u64>>, ops: Seq<RecordOp>, k: Key)
    requires
        ops_valid(ss.len() as int, ops),
        total_count(ss, k) + ops_for(ops, k) <= u64::MAX,
    ensures
        apply_ops(ss, ops).len() == ss.len(),
        total_count(apply_ops(ss, ops), k) == total_count(ss, k) + ops_for(ops, k),
    decreases ops.len(),
{
    if ops.len() > 0 {
        let prefix = ops.drop_last();
        assert(ops_valid(ss.len() as int, prefix)) by {
            assert forall|i: int| 0 <= i < prefix.len() implies 0 <= (#[trigger] prefix[i]).0
                < ss.len() by {
                assert(prefix[i] == ops[i]);
            }
        }
        lemma_record_tally(ss, prefix, k);
        let rest = apply_ops(ss, prefix);
        let op = ops.last();
        assert(0 <= op.0 < ss.len()) by {
            assert(ops[ops.len() - 1] == op);
        }
        let bumped_store = bumped(rest[op.0], op.1);
        lemma_total_count_update(rest, op.0, bumped_store, k);
        if op.1 == k {
            lemma_store_retained(rest, op.0, k);
            assert(count_in(rest[op.0], k) < u64::MAX);
            assert(count_in(bumped_store, k) == count_in(rest[op.0], k) + 1);
        } else {
            assert(count_in(bumped_store, k) == count_in(rest[op.0], k));
        }
    }
}

} // verus!
