//! The process-wide store registry.
//!
//! Every counter store ever created is registered here exactly once, at
//! creation time, and never removed: stores of terminated threads keep their
//! last counts and still take part in every later report.

use vstd::prelude::*;

use crate::store::{counts_wf, CounterStore, Key};

verus! {

/// The append-only sequence of all registered counter stores. Its view is
/// the sequence of the stores' count mappings, in registration order.
pub struct Registry {
    stores: Vec<CounterStore>,
}

impl View for Registry {
    type V = Seq<Map<Key, u64>>;

    closed spec fn view(&self) -> Seq<Map<Key, u64>> {
        self.stores@.map_values(|s: CounterStore| s@)
    }
}

impl Registry {
    /// Every registered store is well-formed: counts present are at least one.
    pub open spec fn wf(self) -> bool {
        forall|i: int| 0 <= i < self@.len() ==> counts_wf(#[trigger] self@[i])
    }

    /// A fresh registry, with no store registered yet.
    pub fn new() -> (r: Registry)
        ensures
            r@ =~= Seq::empty(),
            r.wf(),
    {
        Registry { stores: Vec::new() }
    }

    /// How many stores have been registered.
    pub fn len(&self) -> (n: usize)
        ensures
            n == self@.len(),
    {
        self.stores.len()
    }

    /// Append one store to the registry. Nothing already registered moves or
    /// disappears: the new store stands at the end.
    pub fn register(&mut self, store: CounterStore)
        ensures
            final(self)@ == old(self)@.push(store@),
            old(self).wf() && store.wf() ==> final(self).wf(),
    {
        let ghost svw = store@;
        self.stores.push(store);
        proof {
            assert(self@ =~= old(self)@.push(svw));
            assert forall|i: int|
                old(self).wf() && counts_wf(svw) && 0 <= i < self@.len() implies counts_wf(
                #[trigger] self@[i],
            ) by {
                if i < old(self)@.len() {
                    assert(self@[i] == old(self)@[i]);
                }
            }
        }
    }

    /// The current snapshot of all registered stores, in registration order.
    pub fn enumerate(&self) -> (r: &Vec<CounterStore>)
        ensures
            r@.len() == self@.len(),
            forall|i: int| 0 <= i < r@.len() ==> (#[trigger] r@[i])@ == self@[i],
    {
        &self.stores
    }
}

} // verus!
