use vstd::prelude::*;

use crate::compact_temp_mapping;
use crate::deduplicated::ContextStorage;
use crate::hash_cons::{self, ChainError, ContextHash, chain_input, delta_hash};
use crate::hash_cons_2::ContextTree;
use crate::initial_context::{Context, ContextWithCount};
use crate::packed_context::{PackedContext, fits_small, pack_context, packed_deltas};

verus! {

/// The cost of the handles of a dataset: one handle of `handle` bytes per
/// occurrence, summed over the entries' counts.
pub open spec fn handles_size(counts: Seq<u64>, handle: nat) -> nat
    decreases counts.len(),
{
    if counts.len() == 0 {
        0nat
    } else {
        handles_size(counts.drop_last(), handle) + handle * (counts.last() as nat)
    }
}

/// The total cost of a dataset: its handles, plus the shared storage once.
pub open spec fn dataset_size(counts: Seq<u64>, handle: nat, storage: nat) -> nat {
    handles_size(counts, handle) + storage
}

/// The occurrence counts of a dataset's entries.
pub open spec fn counts_of(entries: Seq<ContextWithCount>) -> Seq<u64> {
    entries.map_values(|e: ContextWithCount| e.count)
}

/// The handles of a prefix of the dataset cost no more than those of all of it.
pub proof fn lemma_prefix_no_larger(counts: Seq<u64>, handle: nat, i: int)
    requires
        0 <= i <= counts.len(),
    ensures
        handles_size(counts.take(i), handle) <= handles_size(counts, handle),
    decreases counts.len() - i,
{
    if i < counts.len() {
        lemma_prefix_no_larger(counts, handle, i + 1);
        assert(counts.take(i + 1).drop_last() =~= counts.take(i));
    } else {
        assert(counts.take(i) =~= counts);
    }
}

/// Total cost of a dataset when each occurrence holds a handle of
/// `handle_size` bytes and the shared storage takes `storage_size` bytes;
/// none when the total does not fit in a `usize`.
pub fn total_size(entries: &Vec<ContextWithCount>, handle_size: usize, storage_size: usize) -> (r:
    Option<usize>)
    ensures
        match r {
            Some(t) => t == dataset_size(counts_of(entries@), handle_size as nat, storage_size as nat),
            None => dataset_size(counts_of(entries@), handle_size as nat, storage_size as nat)
                > usize::MAX,
        },
{
    let ghost counts = counts_of(entries@);
    let mut total: usize = 0;
    let mut i: usize = 0;
    while i < entries.len()
        invariant
            i <= entries@.len(),
            counts == counts_of(entries@),
            total == handles_size(counts.take(i as int), handle_size as nat),
        decreases entries@.len() - i,
    {
        let count = entries[i].count;
        assert(counts.take(i + 1).drop_last() =~= counts.take(i as int));
        assert(counts[i as int] == count);
        assert(counts.take(i + 1).last() == count);
        assert(handles_size(counts.take(i + 1), handle_size as nat) == handles_size(
            counts.take(i as int),
            handle_size as nat,
        ) + handle_size * count);
        if handle_size != 0 {
            if count > usize::MAX as u64 {
                proof {
                    lemma_prefix_no_larger(counts, handle_size as nat, i + 1);
                    assert(handle_size * count >= count) by (nonlinear_arith)
                        requires
                            handle_size > 0,
                    ;
                }
                return None;
            }
            let size = match handle_size.checked_mul(count as usize) {
                Some(s) => s,
                None => {
                    proof {
                        lemma_prefix_no_larger(counts, handle_size as nat, i + 1);
                    }
                    return None;
                },
            };
            total = match total.checked_add(size) {
                Some(t) => t,
                None => {
                    proof {
                        lemma_prefix_no_larger(counts, handle_size as nat, i + 1);
                    }
                    return None;
                },
            };
        } else {
            assert(handle_size * count == 0) by (nonlinear_arith)
                requires
                    handle_size == 0,
            ;
        }
        i = i + 1;
    }
    assert(counts.take(entries@.len() as int) =~= counts);
    total.checked_add(storage_size)
}

/// Adding an entry to a dataset does not lower the cost of its handles.
pub proof fn lemma_cost_grows_with_entries(counts: Seq<u64>, count: u64, handle: nat)
    ensures
        handles_size(counts, handle) <= handles_size(counts.push(count), handle),
{
    assert(counts.push(count).drop_last() =~= counts);
}

/// Raising the counts of a dataset's entries does not lower the cost of its
/// handles.
pub proof fn lemma_cost_grows_with_counts(a: Seq<u64>, b: Seq<u64>, handle: nat)
    requires
        a.len() == b.len(),
        forall|i: int| 0 <= i < a.len() ==> a[i] <= b[i],
    ensures
        handles_size(a, handle) <= handles_size(b, handle),
    decreases a.len(),
{
    if a.len() > 0 {
        lemma_cost_grows_with_counts(a.drop_last(), b.drop_last(), handle);
        let x = a.last();
        let y = b.last();
        assert(handle * x <= handle * y) by (nonlinear_arith)
            requires
                x <= y,
        ;
    }
}

/// One context seen `n` times: with handles smaller than the full context,
/// sharing costs less than a full copy per occurrence as soon as the saving
/// on the handles exceeds the one-time storage.
pub proof fn lemma_sharing_beats_copies(n: u64, handle: nat, full: nat, storage: nat)
    requires
        handle < full,
        storage < n * (full - handle),
    ensures
        dataset_size(seq![n], handle, storage) < dataset_size(seq![n], full, 0),
{
    let s = seq![n];
    assert(s.drop_last() =~= Seq::<u64>::empty());
    assert(handles_size(Seq::<u64>::empty(), handle) == 0);
    assert(handles_size(Seq::<u64>::empty(), full) == 0);
    assert(handles_size(s, handle) == handle * n);
    assert(handles_size(s, full) == full * n);
    assert(handle * n + storage < full * n) by (nonlinear_arith)
        requires
            handle < full,
            storage < n * (full - handle),
    ;
}

/// Why a strategy could not record a context.
#[derive(Copy, Clone, PartialEq, Eq, Structural, Debug)]
pub enum StoreError {
    /// The stack size or offset does not fit the small stack delta.
    UnsupportedValue,
    /// Two different delta lists have the same hash in the suffix chain.
    SuffixHashCollision,
}

/// The uniform face of an encoding strategy: it records each occurrence of
/// a context; what a handle and the shared storage cost is measured apart.
pub trait ContextSize: Sized {
    /// The strategy's storage is consistent.
    spec fn inv(&self) -> bool;

    /// The storage accounts for context `c`.
    spec fn holds(&self, c: Context) -> bool;

    /// The strategy can encode context `c`.
    spec fn accepts(c: Context) -> bool;

    /// Storing context `c` now succeeds.
    spec fn stores(&self, c: Context) -> bool;

    /// Storing can fail on a hash collision.
    spec fn may_collide() -> bool;

    /// Number of units (nodes, links, values) that the storage holds.
    spec fn size(&self) -> nat;

    /// Records one occurrence of `context`. A context that the storage
    /// already accounts for adds nothing to it.
    fn store_context(&mut self, context: &Context) -> (r: Result<(), StoreError>)
        requires
            old(self).inv(),
            context.wf(),
        ensures
            final(self).inv(),
            forall|c: Context| old(self).holds(c) ==> final(self).holds(c),
            r is Ok <==> old(self).stores(*context),
            r is Ok ==> final(self).holds(*context),
            r is Ok ==> Self::accepts(*context),
            r == Err::<(), StoreError>(StoreError::UnsupportedValue) <==> !Self::accepts(*context),
            !Self::may_collide() ==> (old(self).stores(*context) <==> Self::accepts(*context)),
            old(self).holds(*context) ==> final(self).size() == old(self).size(),
    ;
}

impl ContextSize for ContextTree {
    open spec fn inv(&self) -> bool {
        self.wf()
    }

    open spec fn holds(&self, c: Context) -> bool {
        fits_small(c) && exists|j: int| 0 <= j < self.node_count() && #[trigger] self.path(j) == packed_deltas(c)
    }

    open spec fn accepts(c: Context) -> bool {
        fits_small(c)
    }

    open spec fn stores(&self, c: Context) -> bool {
        fits_small(c)
    }

    open spec fn may_collide() -> bool {
        false
    }

    open spec fn size(&self) -> nat {
        self.node_count()
    }

    fn store_context(&mut self, context: &Context) -> (r: Result<(), StoreError>) {
        let ghost t0 = *self;
        let res = self.compress(context);
        assert forall|c: Context| t0.holds(c) implies self.holds(c) by {
            let j = choose|j: int| 0 <= j < t0.node_count() && #[trigger] t0.path(j) == packed_deltas(c);
            assert(self.path(j) == t0.path(j));
        }
        match res {
            Ok(n) => {
                assert(self.path(n as int) == packed_deltas(*context));
                Ok(())
            },
            Err(_) => Err(StoreError::UnsupportedValue),
        }
    }
}

impl ContextSize for ContextHash {
    open spec fn inv(&self) -> bool {
        self.wf()
    }

    open spec fn holds(&self, c: Context) -> bool {
        fits_small(c) && self@.contains_key(delta_hash(chain_input(c))) && self@[delta_hash(chain_input(c))] == chain_input(c)
    }

    open spec fn accepts(c: Context) -> bool {
        fits_small(c)
    }

    open spec fn stores(&self, c: Context) -> bool {
        fits_small(c) && hash_cons::conflict_free(self@, chain_input(c))
    }

    open spec fn may_collide() -> bool {
        true
    }

    open spec fn size(&self) -> nat {
        self@.len()
    }

    fn store_context(&mut self, context: &Context) -> (r: Result<(), StoreError>) {
        let ghost m0 = self@;
        let r = self.insert(context);
        proof {
            if old(self).holds(*context) {
                let d = chain_input(*context);
                assert(d.len() >= 1);
                assert(hash_cons::interned_with(m0, d) == Some(m0));
            }
            old(self).lemma_suffix_closed();
            if fits_small(*context) && r is Ok {
                let d = chain_input(*context);
                hash_cons::lemma_interned_holds_suffixes(m0, d);
                assert(d.subrange(0, d.len() as int) =~= d);
            }
            assert forall|c: Context| old(self).holds(c) implies self.holds(c) by {
                assert(m0.contains_key(delta_hash(chain_input(c))));
                assert(self@.dom().contains(delta_hash(chain_input(c))));
            }
        }
        match r {
            Ok(_) => Ok(()),
            Err(ChainError::Pack(_)) => Err(StoreError::UnsupportedValue),
            Err(ChainError::SuffixHashCollision) => Err(StoreError::SuffixHashCollision),
        }
    }
}

impl ContextSize for ContextStorage<Context> {
    open spec fn inv(&self) -> bool {
        self.wf()
    }

    open spec fn holds(&self, c: Context) -> bool {
        self.view().contains(c)
    }

    open spec fn accepts(c: Context) -> bool {
        true
    }

    open spec fn stores(&self, c: Context) -> bool {
        true
    }

    open spec fn may_collide() -> bool {
        false
    }

    open spec fn size(&self) -> nat {
        ContextStorage::size(self)
    }

    fn store_context(&mut self, context: &Context) -> (r: Result<(), StoreError>) {
        self.insert(*context);
        Ok(())
    }
}

impl ContextSize for ContextStorage<compact_temp_mapping::Context> {
    open spec fn inv(&self) -> bool {
        self.wf()
    }

    open spec fn holds(&self, c: Context) -> bool {
        exists|x: compact_temp_mapping::Context| #[trigger] self.view().contains(x) && compact_temp_mapping::is_compact_of(x, c)
    }

    open spec fn accepts(c: Context) -> bool {
        true
    }

    open spec fn stores(&self, c: Context) -> bool {
        true
    }

    open spec fn may_collide() -> bool {
        false
    }

    open spec fn size(&self) -> nat {
        ContextStorage::size(self)
    }

    fn store_context(&mut self, context: &Context) -> (r: Result<(), StoreError>) {
        let ghost s0 = self.view();
        let x = compact_temp_mapping::Context::from(context);
        proof {
            if old(self).holds(*context) {
                let y = choose|y: compact_temp_mapping::Context| #[trigger] s0.contains(y) && compact_temp_mapping::is_compact_of(y, *context);
                assert(y.temp_mapping =~= x.temp_mapping);
                assert(y == x);
            }
        }
        self.insert(x);
        assert(self.view().contains(x));
        assert forall|c: Context| old(self).holds(c) implies self.holds(c) by {
            let y = choose|y: compact_temp_mapping::Context| #[trigger] s0.contains(y) && compact_temp_mapping::is_compact_of(y, c);
            assert(self.view().contains(y));
        }
        Ok(())
    }
}

impl ContextSize for ContextStorage<PackedContext> {
    open spec fn inv(&self) -> bool {
        self.wf()
    }

    open spec fn holds(&self, c: Context) -> bool {
        fits_small(c) && self.view().contains(packed_deltas(c))
    }

    open spec fn accepts(c: Context) -> bool {
        fits_small(c)
    }

    open spec fn stores(&self, c: Context) -> bool {
        fits_small(c)
    }

    open spec fn may_collide() -> bool {
        false
    }

    open spec fn size(&self) -> nat {
        ContextStorage::size(self)
    }

    fn store_context(&mut self, context: &Context) -> (r: Result<(), StoreError>) {
        match pack_context(context) {
            Ok(p) => {
                self.insert(p);
                Ok(())
            },
            Err(_) => Err(StoreError::UnsupportedValue),
        }
    }
}

/// Feeds every occurrence of every entry of a dataset to a strategy, in
/// order, and stops at the first context that it cannot record.
pub fn store_dataset<S: ContextSize>(s: &mut S, entries: &Vec<ContextWithCount>) -> (r: Result<(), StoreError>)
    requires
        old(s).inv(),
        forall|i: int| 0 <= i < entries@.len() ==> (#[trigger] entries@[i]).context.wf(),
    ensures
        final(s).inv(),
        forall|c: Context| old(s).holds(c) ==> final(s).holds(c),
        r is Ok ==> forall|i: int|
            0 <= i < entries@.len() && (#[trigger] entries@[i]).count > 0 ==> final(s).holds(entries@[i].context)
                && S::accepts(entries@[i].context),
        (exists|i: int|
            0 <= i < entries@.len() && (#[trigger] entries@[i]).count > 0 && !S::accepts(entries@[i].context))
            ==> r is Err,
        !S::may_collide() && (forall|i: int|
            0 <= i < entries@.len() && (#[trigger] entries@[i]).count > 0 ==> S::accepts(entries@[i].context))
            ==> r is Ok,
        r == Err::<(), StoreError>(StoreError::SuffixHashCollision) ==> S::may_collide(),
        r == Err::<(), StoreError>(StoreError::UnsupportedValue) ==> exists|i: int|
            0 <= i < entries@.len() && (#[trigger] entries@[i]).count > 0 && !S::accepts(entries@[i].context),
        (forall|i: int|
            0 <= i < entries@.len() && (#[trigger] entries@[i]).count > 0 ==> old(s).holds(entries@[i].context))
            ==> final(s).size() == old(s).size(),
{
    let ghost s0 = *s;
    let mut i: usize = 0;
    while i < entries.len()
        invariant
            s.inv(),
            i <= entries@.len(),
            forall|j: int| 0 <= j < entries@.len() ==> (#[trigger] entries@[j]).context.wf(),
            s0 == *old(s),
            forall|c: Context| s0.holds(c) ==> s.holds(c),
            forall|j: int|
                0 <= j < i && (#[trigger] entries@[j]).count > 0 ==> s.holds(entries@[j].context)
                    && S::accepts(entries@[j].context),
            (forall|j: int|
                0 <= j < entries@.len() && (#[trigger] entries@[j]).count > 0 ==> s0.holds(entries@[j].context))
                ==> s.size() == s0.size(),
        decreases entries@.len() - i,
    {
        let context = entries[i].context;
        let count = entries[i].count;
        assert(entries@[i as int].context.wf());
        let mut k: u64 = 0;
        while k < count
            invariant
                s.inv(),
                i < entries@.len(),
                context == entries@[i as int].context,
                count == entries@[i as int].count,
                context.wf(),
                k <= count,
                k > 0 ==> s.holds(context) && S::accepts(context),
                s0 == *old(s),
                forall|c: Context| s0.holds(c) ==> s.holds(c),
                forall|j: int|
                    0 <= j < i && (#[trigger] entries@[j]).count > 0 ==> s.holds(entries@[j].context)
                        && S::accepts(entries@[j].context),
                (forall|j: int|
                    0 <= j < entries@.len() && (#[trigger] entries@[j]).count > 0 ==> s0.holds(entries@[j].context))
                    ==> s.size() == s0.size(),
            decreases count - k,
        {
            let ghost before = *s;
            proof {
                if forall|j: int|
                    0 <= j < entries@.len() && (#[trigger] entries@[j]).count > 0 ==> s0.holds(entries@[j].context) {
                    assert(s0.holds(entries@[i as int].context));
                }
            }
            let stored = s.store_context(&context);
            assert(forall|c: Context| before.holds(c) ==> s.holds(c));
            assert(forall|c: Context| s0.holds(c) ==> s.holds(c));
            match stored {
                Ok(()) => {},
                Err(e) => {
                    return Err(e);
                },
            }
            k = k + 1;
        }
        i = i + 1;
    }
    Ok(())
}

} // verus!
