use vstd::prelude::*;

use crate::compact_temp_mapping;
use crate::initial_context;
use crate::packed_context::{ContextDelta, same_deltas};

verus! {

/// A value that can be compared with another of its type by its view.
pub trait SameValue: View + Sized {
    /// Tells whether the two values have the same view.
    fn same(&self, other: &Self) -> (r: bool)
        ensures
            r == (self@ == other@),
    ;
}

impl View for initial_context::Context {
    type V = initial_context::Context;

    open spec fn view(&self) -> initial_context::Context {
        *self
    }
}

impl View for compact_temp_mapping::Context {
    type V = compact_temp_mapping::Context;

    open spec fn view(&self) -> compact_temp_mapping::Context {
        *self
    }
}

impl SameValue for initial_context::Context {
    fn same(&self, other: &Self) -> (r: bool) {
        *self == *other
    }
}

impl SameValue for compact_temp_mapping::Context {
    fn same(&self, other: &Self) -> (r: bool) {
        *self == *other
    }
}

impl SameValue for Vec<ContextDelta> {
    fn same(&self, other: &Self) -> (r: bool) {
        same_deltas(self.as_slice(), other.as_slice())
    }
}

/// A store that keeps one copy of each distinct value: deduplication by
/// value, the baseline for the interning schemes.
pub struct ContextStorage<C> {
    items: Vec<C>,
}

impl<C: SameValue> Default for ContextStorage<C> {
    fn default() -> (r: Self)
        ensures
            r.wf(),
            r.view() == Set::<C::V>::empty(),
            r.size() == 0,
    {
        ContextStorage::new()
    }
}

impl<C: SameValue> ContextStorage<C> {
    /// The values held, by view, in the order of first insertion.
    pub closed spec fn in_order(&self) -> Seq<C::V> {
        self.items@.map_values(|c: C| c@)
    }

    /// The values held, by view.
    pub open spec fn view(&self) -> Set<C::V> {
        self.in_order().to_set()
    }

    /// Number of values held.
    pub closed spec fn size(&self) -> nat {
        self.items@.len()
    }

    /// No two values held have the same view.
    pub closed spec fn wf(&self) -> bool {
        forall|i: int, j: int|
            0 <= i < self.items@.len() && 0 <= j < self.items@.len() && i != j
                ==> #[trigger] self.items@[i]@ != #[trigger] self.items@[j]@
    }

    /// An empty store.
    pub fn new() -> (r: Self)
        ensures
            r.wf(),
            r.view() == Set::<C::V>::empty(),
            r.in_order().len() == 0,
            r.size() == 0,
    {
        let r = ContextStorage { items: Vec::new() };
        assert(r.view() =~= Set::<C::V>::empty());
        r
    }

    /// Tells whether a value with the view of `context` is held.
    pub fn contains(&self, context: &C) -> (r: bool)
        ensures
            r == self.view().contains(context@),
    {
        let mut i: usize = 0;
        while i < self.items.len()
            invariant
                i <= self.items@.len(),
                forall|j: int| 0 <= j < i ==> self.items@[j]@ != context@,
            decreases self.items@.len() - i,
        {
            if self.items[i].same(context) {
                assert(self.items@.map_values(|c: C| c@)[i as int] == context@);
                return true;
            }
            i = i + 1;
        }
        assert(!self.items@.map_values(|c: C| c@).contains(context@));
        false
    }

    /// Stores `context` unless a value equal to it is held already.
    pub fn insert(&mut self, context: C) -> (r: bool)
        requires
            old(self).wf(),
        ensures
            final(self).wf(),
            final(self).view() == old(self).view().insert(context@),
            r == !old(self).view().contains(context@),
            final(self).size() == old(self).size() + if r { 1nat } else { 0nat },
            final(self).in_order() == if r {
                old(self).in_order().push(context@)
            } else {
                old(self).in_order()
            },
    {
        if self.contains(&context) {
            assert(self.view().insert(context@) =~= self.view());
            return false;
        }
        let ghost old_items = self.items@;
        self.items.push(context);
        proof {
            assert(self.items@.map_values(|c: C| c@) =~= old_items.map_values(|c: C| c@).push(
                context@,
            ));
            old_items.map_values(|c: C| c@).lemma_push_to_set_commute(context@);
            assert forall|i: int| 0 <= i < old_items.len() implies old_items[i]@ != context@ by {
                assert(old_items.map_values(|c: C| c@)[i] == old_items[i]@);
            }
        }
        true
    }

    /// Number of values held.
    pub fn len(&self) -> (r: usize)
        ensures
            r == self.size(),
    {
        self.items.len()
    }

    /// The value held at position `i`, in the order of first insertion.
    pub fn get(&self, i: usize) -> (r: &C)
        requires
            i < self.size(),
        ensures
            r@ == self.in_order()[i as int],
            self.view().contains(r@),
    {
        assert(self.items@.map_values(|c: C| c@)[i as int] == self.items@[i as int]@);
        &self.items[i]
    }
}

} // verus!
