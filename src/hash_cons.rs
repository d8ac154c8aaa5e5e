use vstd::prelude::*;

use std::collections::BTreeMap;

use crate::initial_context::Context;
use crate::packed_context::{ContextDelta, PackError, fits_small, pack_context, packed_deltas, same_deltas};

verus! {

/// Key of an interned delta list: the hash of the list.
#[derive(Copy, Clone, PartialEq, Eq, Structural, PartialOrd, Ord, Hash, Debug)]
pub struct ContextId(pub u64);

/// One link of an interned chain: its first delta and the key of the rest.
#[derive(Copy, Clone, PartialEq, Eq, Structural, Debug, Hash)]
pub struct SinglyLinkedList {
    pub head: Option<ContextDelta>,
    pub tail: Option<ContextId>,
}

/// Why a context could not be interned in the suffix chain.
#[derive(Copy, Clone, PartialEq, Eq, Structural, Debug)]
pub enum ChainError {
    /// The context does not pack.
    Pack(PackError),
    /// Two different delta lists have the same hash.
    SuffixHashCollision,
}

/// What hashing a delta list gives.
pub uninterp spec fn delta_hash(deltas: Seq<ContextDelta>) -> u64;

/// Relies on std's `BuildHasher::hash_one` with the default hasher, which
/// `DefaultHasher::new` makes the same in every instance: the result depends
/// on the deltas alone.
#[verifier::external_body]
fn hash_deltas(deltas: &[ContextDelta]) -> (r: u64)
    ensures
        r == delta_hash(deltas@),
{
    std::hash::BuildHasher::hash_one(
        &std::hash::BuildHasherDefault::<std::collections::hash_map::DefaultHasher>::default(),
        deltas,
    )
}

/// Every entry maps the hash of a non-empty delta list to that list, and the
/// list without its first delta has an entry of its own.
pub open spec fn suffix_closed(m: Map<u64, Seq<ContextDelta>>) -> bool {
    forall|k: u64|
        #[trigger] m.contains_key(k) ==> {
            let s = m[k];
            &&& s.len() >= 1
            &&& delta_hash(s) == k
            &&& s.len() > 1 ==> m.contains_key(delta_hash(s.drop_first())) && m[delta_hash(
                s.drop_first(),
            )] == s.drop_first()
        }
}

/// The table after interning `d` and, before it, each of its shorter
/// suffixes; none where a hash is found holding another list.
pub open spec fn interned_with(m: Map<u64, Seq<ContextDelta>>, d: Seq<ContextDelta>) -> Option<
    Map<u64, Seq<ContextDelta>>,
>
    decreases d.len(),
{
    if d.len() == 0 {
        None
    } else if m.contains_key(delta_hash(d)) {
        if m[delta_hash(d)] == d {
            Some(m)
        } else {
            None
        }
    } else if d.len() == 1 {
        Some(m.insert(delta_hash(d), d))
    } else {
        match interned_with(m, d.drop_first()) {
            Some(m2) => if m2.contains_key(delta_hash(d)) {
                None
            } else {
                Some(m2.insert(delta_hash(d), d))
            },
            None => None,
        }
    }
}

/// The list that the suffix chain interns for a context: its packed deltas,
/// last first, then a terminator.
pub open spec fn chain_input(c: Context) -> Seq<ContextDelta> {
    packed_deltas(c).reverse().push(ContextDelta::Terminator)
}

/// Interning by suffix: each delta list is a chain of links, keyed by the
/// hash of the list from that link on, so that lists with a common suffix
/// share its links.
pub struct ContextHash {
    hash: BTreeMap<u64, SinglyLinkedList>,
    keys: Vec<u64>,
    interned: Ghost<Map<u64, Seq<ContextDelta>>>,
}

/// The link that a suffix-closed table stores under key `k`.
pub open spec fn link_for(m: Map<u64, Seq<ContextDelta>>, k: u64) -> SinglyLinkedList {
    SinglyLinkedList {
        head: Some(m[k][0]),
        tail: if m[k].len() == 1 {
            None
        } else {
            Some(ContextId(delta_hash(m[k].drop_first())))
        },
    }
}

impl View for ContextHash {
    type V = Map<u64, Seq<ContextDelta>>;

    /// Each key with the delta list that it stands for.
    closed spec fn view(&self) -> Map<u64, Seq<ContextDelta>> {
        self.interned@
    }
}

impl Default for ContextHash {
    fn default() -> (r: Self)
        ensures
            r.wf(),
            r@ == Map::<u64, Seq<ContextDelta>>::empty(),
    {
        ContextHash::new()
    }
}

/// Adding a new key to the table's key list keeps the list free of
/// duplicates and in step with the table.
proof fn lemma_keys_push(keys: Seq<u64>, m: Map<u64, Seq<ContextDelta>>, k: u64, s: Seq<ContextDelta>)
    requires
        keys.no_duplicates(),
        forall|x: u64| m.contains_key(x) <==> #[trigger] keys.contains(x),
        !m.contains_key(k),
    ensures
        keys.push(k).no_duplicates(),
        forall|x: u64| m.insert(k, s).contains_key(x) <==> #[trigger] keys.push(k).contains(x),
{
    broadcast use vstd::seq_lib::lemma_seq_contains_after_push;

    assert forall|i: int, j: int|
        0 <= i < keys.push(k).len() && 0 <= j < keys.push(k).len() && i != j implies keys.push(k)[i]
        != keys.push(k)[j] by {
        if i == keys.len() {
            assert(keys.contains(keys[j]));
        } else if j == keys.len() {
            assert(keys.contains(keys[i]));
        }
    }
}

impl ContextHash {
    /// The table is consistent with the lists that its keys stand for.
    pub closed spec fn wf(&self) -> bool {
        let m = self.interned@;
        &&& suffix_closed(m)
        &&& self.hash@.dom() == m.dom()
        &&& forall|k: u64| #[trigger] m.contains_key(k) ==> self.hash@[k] == link_for(m, k)
        &&& self.keys@.no_duplicates()
        &&& forall|k: u64| m.contains_key(k) <==> #[trigger] self.keys@.contains(k)
    }

    /// An empty table.
    pub fn new() -> (r: Self)
        ensures
            r.wf(),
            r@ == Map::<u64, Seq<ContextDelta>>::empty(),
    {
        ContextHash { hash: BTreeMap::new(), keys: Vec::new(), interned: Ghost(Map::empty()) }
    }

    /// The key of a delta list.
    pub fn get_hash(&self, deltas: &[ContextDelta]) -> (r: ContextId)
        ensures
            r.0 == delta_hash(deltas@),
    {
        ContextId(hash_deltas(deltas))
    }

    /// The delta list that a key stands for, by following its links; empty
    /// for a key that is not in the table.
    pub fn get_deltas(&self, hash: ContextId) -> (r: Vec<ContextDelta>)
        requires
            self.wf(),
        ensures
            self@.contains_key(hash.0) ==> r@ == self@[hash.0],
            !self@.contains_key(hash.0) ==> r@.len() == 0,
    {
        let mut deltas: Vec<ContextDelta> = Vec::new();
        if !self.hash.contains_key(&hash.0) {
            return deltas;
        }
        let ghost m = self.interned@;
        let mut current: u64 = hash.0;
        loop
            invariant
                self.wf(),
                m == self.interned@,
                m.contains_key(current),
                m.contains_key(hash.0),
                deltas@ + m[current] == m[hash.0],
            decreases m[current].len(),
        {
            match self.hash.get(&current) {
                Some(link) => {
                    let ghost s = m[current];
                    if let Some(head) = link.head {
                        deltas.push(head);
                    }
                    match link.tail {
                        Some(t) => {
                            assert(deltas@ + s.drop_first() =~= m[hash.0]) by {
                                assert(deltas@ =~= deltas@.drop_last().push(s[0]));
                            }
                            current = t.0;
                        },
                        None => {
                            assert(deltas@ =~= m[hash.0]);
                            return deltas;
                        },
                    }
                },
                None => {
                    return deltas;
                },
            }
        }
    }

    /// Interns a non-empty delta list and, before it, each of its shorter
    /// suffixes; fails where a hash is found holding another list. On
    /// failure the entries added so far stay.
    pub fn insert_internal(&mut self, deltas: &[ContextDelta]) -> (r: Result<ContextId, ChainError>)
        requires
            old(self).wf(),
            deltas@.len() >= 1,
        ensures
            final(self).wf(),
            old(self)@.submap_of(final(self)@),
            match interned_with(old(self)@, deltas@) {
                Some(m) => r == Ok::<ContextId, ChainError>(ContextId(delta_hash(deltas@)))
                    && final(self)@ == m,
                None => r == Err::<ContextId, ChainError>(ChainError::SuffixHashCollision),
            },
            r is Ok <==> conflict_free(old(self)@, deltas@),
            held_for_another(old(self)@, deltas@) ==> r == Err::<ContextId, ChainError>(
                ChainError::SuffixHashCollision,
            ) && final(self)@ == old(self)@,
        decreases deltas@.len(),
    {
        proof {
            lemma_interning_outcome(self@, deltas@);
            assert(suffix_at(deltas@, 0) =~= deltas@);
        }
        let h = self.get_hash(deltas);
        if self.hash.contains_key(&h.0) {
            let stored = self.get_deltas(h);
            if same_deltas(stored.as_slice(), deltas) {
                proof {
                    assert forall|i: int|
                        0 <= i < deltas@.len() && #[trigger] self@.contains_key(
                            delta_hash(suffix_at(deltas@, i)),
                        ) implies self@[delta_hash(suffix_at(deltas@, i))] == suffix_at(deltas@, i) by {
                        lemma_closed_suffix(self@, h.0, i);
                    }
                }
                Ok(h)
            } else {
                Err(ChainError::SuffixHashCollision)
            }
        } else if deltas.len() == 1 {
            self.hash.insert(h.0, SinglyLinkedList { head: Some(deltas[0]), tail: None });
            proof {
                lemma_keys_push(self.keys@, self.interned@, h.0, deltas@);
            }
            self.keys.push(h.0);
            self.interned = Ghost(self.interned@.insert(h.0, deltas@));
            Ok(h)
        } else {
            let rest = vstd::slice::slice_subrange(deltas, 1, deltas.len());
            assert(rest@ =~= deltas@.drop_first());
            proof {
                if held_for_another(self@, deltas@) {
                    let i = choose|i: int|
                        0 <= i < deltas@.len() && #[trigger] self@.contains_key(
                            delta_hash(suffix_at(deltas@, i)),
                        ) && self@[delta_hash(suffix_at(deltas@, i))] != suffix_at(deltas@, i);
                    assert(i > 0);
                    assert(suffix_at(rest@, i - 1) =~= suffix_at(deltas@, i));
                    assert(self@.contains_key(delta_hash(suffix_at(rest@, i - 1))));
                }
            }
            match self.insert_internal(rest) {
                Ok(tail) => {
                    if self.hash.contains_key(&h.0) {
                        Err(ChainError::SuffixHashCollision)
                    } else {
                        self.hash.insert(
                            h.0,
                            SinglyLinkedList { head: Some(deltas[0]), tail: Some(tail) },
                        );
                        proof {
                            lemma_keys_push(self.keys@, self.interned@, h.0, deltas@);
                        }
                        self.keys.push(h.0);
                        self.interned = Ghost(self.interned@.insert(h.0, deltas@));
                        Ok(h)
                    }
                },
                Err(e) => Err(e),
            }
        }
    }

    /// A well-formed table is suffix-closed.
    pub proof fn lemma_suffix_closed(&self)
        requires
            self.wf(),
        ensures
            suffix_closed(self@),
    {
    }

    /// Number of links in the table.
    pub fn len(&self) -> (r: usize)
        requires
            self.wf(),
        ensures
            r == self@.len(),
    {
        proof {
            self.keys@.unique_seq_to_set();
            assert(self.keys@.to_set() =~= self@.dom());
        }
        self.keys.len()
    }

    /// The links of the table with their keys, in the order they were added.
    pub fn links(&self) -> (r: Vec<(ContextId, SinglyLinkedList)>)
        requires
            self.wf(),
        ensures
            r@.len() == self@.len(),
            forall|i: int|
                0 <= i < r@.len() ==> self@.contains_key((#[trigger] r@[i]).0.0) && r@[i].1
                    == link_for(self@, r@[i].0.0),
            forall|k: u64| self@.contains_key(k) ==> exists|i: int| 0 <= i < r@.len() && (#[trigger] r@[i]).0.0 == k,
    {
        let n = self.keys.len();
        proof {
            self.keys@.unique_seq_to_set();
            assert(self.keys@.to_set() =~= self@.dom());
        }
        let mut r: Vec<(ContextId, SinglyLinkedList)> = Vec::new();
        let mut i: usize = 0;
        while i < n
            invariant
                self.wf(),
                n == self.keys@.len(),
                i <= n,
                r@.len() == i,
                forall|j: int| 0 <= j < i ==> (#[trigger] r@[j]).0.0 == self.keys@[j],
                forall|j: int|
                    0 <= j < i ==> self@.contains_key((#[trigger] r@[j]).0.0) && r@[j].1 == link_for(
                        self@,
                        r@[j].0.0,
                    ),
            decreases n - i,
        {
            let k = self.keys[i];
            assert(self.keys@.contains(k));
            match self.hash.get(&k) {
                Some(link) => {
                    r.push((ContextId(k), *link));
                },
                None => {
                    return r;
                },
            }
            i = i + 1;
        }
        proof {
            assert forall|k: u64| self@.contains_key(k) implies exists|i: int| 0 <= i < r@.len() && (#[trigger] r@[i]).0.0 == k by {
                assert(self.keys@.contains(k));
                let j = choose|j: int| 0 <= j < self.keys@.len() && self.keys@[j] == k;
                assert(r@[j].0.0 == k);
            }
        }
        r
    }

    /// Interns a context: packs it, reverses the deltas, appends a
    /// terminator and interns that list. Returns the key of the whole list.
    pub fn insert(&mut self, ctx: &Context) -> (r: Result<ContextId, ChainError>)
        requires
            old(self).wf(),
            ctx.wf(),
        ensures
            final(self).wf(),
            old(self)@.submap_of(final(self)@),
            !fits_small(*ctx) ==> r == Err::<ContextId, ChainError>(
                ChainError::Pack(PackError::UnsupportedValue),
            ) && final(self)@ == old(self)@,
            fits_small(*ctx) ==> match interned_with(old(self)@, chain_input(*ctx)) {
                Some(m) => r == Ok::<ContextId, ChainError>(
                    ContextId(delta_hash(chain_input(*ctx))),
                ) && final(self)@ == m,
                None => r == Err::<ContextId, ChainError>(ChainError::SuffixHashCollision),
            },
            r is Ok <==> fits_small(*ctx) && conflict_free(old(self)@, chain_input(*ctx)),
            fits_small(*ctx) && held_for_another(old(self)@, chain_input(*ctx)) ==> r == Err::<
                ContextId,
                ChainError,
            >(ChainError::SuffixHashCollision) && final(self)@ == old(self)@,
    {
        let packed = match pack_context(ctx) {
            Ok(p) => p,
            Err(e) => {
                return Err(ChainError::Pack(e));
            },
        };
        let mut deltas: Vec<ContextDelta> = Vec::new();
        let mut i: usize = packed.len();
        while i > 0
            invariant
                i <= packed@.len(),
                deltas@ == packed@.subrange(i as int, packed@.len() as int).reverse(),
            decreases i,
        {
            i = i - 1;
            deltas.push(packed[i]);
            assert(deltas@ =~= packed@.subrange(i as int, packed@.len() as int).reverse());
        }
        assert(packed@.subrange(0, packed@.len() as int) =~= packed@);
        deltas.push(ContextDelta::Terminator);
        self.insert_internal(deltas.as_slice())
    }
}

/// Interning a list leaves in the table the list and each of its non-empty
/// suffixes, each under its own hash, and keeps every earlier entry.
pub proof fn lemma_interned_holds_suffixes(m: Map<u64, Seq<ContextDelta>>, d: Seq<ContextDelta>)
    requires
        suffix_closed(m),
        interned_with(m, d) is Some,
    ensures
        ({
            let m2 = interned_with(m, d)->Some_0;
            &&& m.submap_of(m2)
            &&& suffix_closed(m2)
            &&& forall|i: int|
                0 <= i < d.len() ==> m2.contains_key(#[trigger] delta_hash(d.subrange(i, d.len() as int)))
                    && m2[delta_hash(d.subrange(i, d.len() as int))] == d.subrange(i, d.len() as int)
        }),
    decreases d.len(),
{
    let m2 = interned_with(m, d)->Some_0;
    let h = delta_hash(d);
    if m.contains_key(h) {
        assert forall|i: int| 0 <= i < d.len() implies m2.contains_key(#[trigger] delta_hash(d.subrange(i, d.len() as int)))
            && m2[delta_hash(d.subrange(i, d.len() as int))] == d.subrange(i, d.len() as int) by {
            lemma_closed_suffix(m, h, i);
        }
    } else if d.len() == 1 {
        lemma_insert_closed(m, d);
        assert forall|i: int| 0 <= i < d.len() implies m2.contains_key(#[trigger] delta_hash(d.subrange(i, d.len() as int)))
            && m2[delta_hash(d.subrange(i, d.len() as int))] == d.subrange(i, d.len() as int) by {
            assert(d.subrange(i, d.len() as int) =~= d);
        }
    } else {
        let rest = d.drop_first();
        lemma_interned_holds_suffixes(m, rest);
        let m1 = interned_with(m, rest)->Some_0;
        assert(m2 == m1.insert(h, d));
        assert(rest.subrange(0, rest.len() as int) =~= rest);
        lemma_insert_closed(m1, d);
        assert forall|i: int| 0 <= i < d.len() implies m2.contains_key(#[trigger] delta_hash(d.subrange(i, d.len() as int)))
            && m2[delta_hash(d.subrange(i, d.len() as int))] == d.subrange(i, d.len() as int) by {
            if i == 0 {
                assert(d.subrange(i, d.len() as int) =~= d);
            } else {
                assert(d.subrange(i, d.len() as int) =~= rest.subrange(i - 1, rest.len() as int));
            }
        }
        assert(rest.subrange(0, rest.len() as int) =~= rest);
    }
}

/// Adding a list whose rest is already held keeps a table suffix-closed.
proof fn lemma_insert_closed(m: Map<u64, Seq<ContextDelta>>, d: Seq<ContextDelta>)
    requires
        suffix_closed(m),
        d.len() >= 1,
        !m.contains_key(delta_hash(d)),
        d.len() > 1 ==> m.contains_key(delta_hash(d.drop_first())) && m[delta_hash(d.drop_first())]
            == d.drop_first(),
    ensures
        suffix_closed(m.insert(delta_hash(d), d)),
{
    let m2 = m.insert(delta_hash(d), d);
    assert forall|k: u64| #[trigger] m2.contains_key(k) implies {
        let s = m2[k];
        &&& s.len() >= 1
        &&& delta_hash(s) == k
        &&& s.len() > 1 ==> m2.contains_key(delta_hash(s.drop_first())) && m2[delta_hash(
            s.drop_first(),
        )] == s.drop_first()
    } by {
        if k != delta_hash(d) {
            assert(m.contains_key(k));
            let s = m[k];
            if s.len() > 1 {
                assert(m.contains_key(delta_hash(s.drop_first())));
            }
        }
    }
}

/// In a suffix-closed table, every suffix of an entry has its own entry.
proof fn lemma_closed_suffix(m: Map<u64, Seq<ContextDelta>>, k: u64, i: int)
    requires
        suffix_closed(m),
        m.contains_key(k),
        0 <= i < m[k].len(),
    ensures
        m.contains_key(delta_hash(m[k].subrange(i, m[k].len() as int))),
        m[delta_hash(m[k].subrange(i, m[k].len() as int))] == m[k].subrange(i, m[k].len() as int),
    decreases i,
{
    let s = m[k];
    if i == 0 {
        assert(s.subrange(0, s.len() as int) =~= s);
    } else {
        let k1 = delta_hash(s.drop_first());
        lemma_closed_suffix(m, k1, i - 1);
        assert(s.drop_first().subrange(i - 1, s.len() - 1) =~= s.subrange(i, s.len() as int));
    }
}

/// Interning equal contexts gives the same key, and interning a context a
/// second time succeeds and leaves the table as it was.
pub proof fn lemma_chain_idempotent(m: Map<u64, Seq<ContextDelta>>, c1: Context, c2: Context)
    requires
        suffix_closed(m),
        c1 == c2,
        interned_with(m, chain_input(c1)) is Some,
    ensures
        delta_hash(chain_input(c1)) == delta_hash(chain_input(c2)),
        interned_with(interned_with(m, chain_input(c1))->Some_0, chain_input(c2))
            == Some(interned_with(m, chain_input(c1))->Some_0),
{
    let d = chain_input(c1);
    lemma_interned_holds_suffixes(m, d);
    assert(d.subrange(0, d.len() as int) =~= d);
}

/// Two lists interned one after the other that end in the same `k` deltas
/// share the entry of that common suffix: it is under one key, which the
/// chains of both reach.
pub proof fn lemma_suffix_sharing(
    m: Map<u64, Seq<ContextDelta>>,
    d1: Seq<ContextDelta>,
    d2: Seq<ContextDelta>,
    k: int,
)
    requires
        suffix_closed(m),
        interned_with(m, d1) is Some,
        interned_with(interned_with(m, d1)->Some_0, d2) is Some,
        1 <= k <= d1.len(),
        k <= d2.len(),
        d1.subrange(d1.len() - k, d1.len() as int) == d2.subrange(d2.len() - k, d2.len() as int),
    ensures
        ({
            let m2 = interned_with(interned_with(m, d1)->Some_0, d2)->Some_0;
            let s = d1.subrange(d1.len() - k, d1.len() as int);
            &&& m2.contains_key(delta_hash(s))
            &&& m2[delta_hash(s)] == s
            &&& m2[delta_hash(d1)].subrange(d1.len() - k, d1.len() as int) == s
            &&& m2[delta_hash(d2)].subrange(d2.len() - k, d2.len() as int) == s
        }),
{
    let m1 = interned_with(m, d1)->Some_0;
    lemma_interned_holds_suffixes(m, d1);
    lemma_interned_holds_suffixes(m1, d2);
    assert(d1.subrange(0, d1.len() as int) =~= d1);
    assert(d2.subrange(0, d2.len() as int) =~= d2);
    let m2 = interned_with(m1, d2)->Some_0;
    let s = d1.subrange(d1.len() - k, d1.len() as int);
    assert(m1.contains_key(delta_hash(d1.subrange(d1.len() - k, d1.len() as int))));
    assert(m1.contains_key(delta_hash(d1.subrange(0, d1.len() as int))));
    assert(m2.contains_key(delta_hash(d2.subrange(0, d2.len() as int))));
    assert(m2.contains_key(delta_hash(d2.subrange(d2.len() - k, d2.len() as int))));
    assert(m2[delta_hash(s)] == s);
    assert(m1[delta_hash(d1)] == d1);
    assert(m1.contains_key(delta_hash(d1)));
    assert(m2.dom().contains(delta_hash(d1)));
    assert(m2[delta_hash(d1)] == m1[delta_hash(d1)]);
}

/// The suffix of `d` that starts at `i`.
pub open spec fn suffix_at(d: Seq<ContextDelta>, i: int) -> Seq<ContextDelta> {
    d.subrange(i, d.len() as int)
}

/// Some suffix of `d` has its hash held in `m` for another list.
pub open spec fn held_for_another(m: Map<u64, Seq<ContextDelta>>, d: Seq<ContextDelta>) -> bool {
    exists|i: int|
        0 <= i < d.len() && #[trigger] m.contains_key(delta_hash(suffix_at(d, i))) && m[delta_hash(
            suffix_at(d, i),
        )] != suffix_at(d, i)
}

/// Interning `d` into `m` meets no collision: no suffix of `d` has its hash
/// held for another list, and no two suffixes of `d` have the same hash.
pub open spec fn conflict_free(m: Map<u64, Seq<ContextDelta>>, d: Seq<ContextDelta>) -> bool {
    &&& forall|i: int|
        0 <= i < d.len() && #[trigger] m.contains_key(delta_hash(suffix_at(d, i))) ==> m[delta_hash(
            suffix_at(d, i),
        )] == suffix_at(d, i)
    &&& forall|i: int, j: int|
        0 <= i < j < d.len() ==> #[trigger] delta_hash(suffix_at(d, i)) != #[trigger] delta_hash(
            suffix_at(d, j),
        )
}

proof fn lemma_conflict_free_rest(m: Map<u64, Seq<ContextDelta>>, d: Seq<ContextDelta>)
    requires
        d.len() > 1,
        conflict_free(m, d),
    ensures
        conflict_free(m, d.drop_first()),
{
    let rest = d.drop_first();
    assert forall|i: int| 0 <= i < rest.len() implies #[trigger] suffix_at(rest, i) == suffix_at(d, i + 1) by {
        assert(suffix_at(rest, i) =~= suffix_at(d, i + 1));
    }
    assert forall|i: int|
        0 <= i < rest.len() && #[trigger] m.contains_key(delta_hash(suffix_at(rest, i))) implies m[delta_hash(
            suffix_at(rest, i),
        )] == suffix_at(rest, i) by {
        assert(suffix_at(rest, i) == suffix_at(d, i + 1));
        assert(m.contains_key(delta_hash(suffix_at(d, i + 1))));
    }
    assert forall|i: int, j: int| 0 <= i < j < rest.len() implies #[trigger] delta_hash(suffix_at(rest, i)) != #[trigger] delta_hash(
        suffix_at(rest, j),
    ) by {
        assert(suffix_at(rest, i) == suffix_at(d, i + 1));
        assert(suffix_at(rest, j) == suffix_at(d, j + 1));
        assert(delta_hash(suffix_at(d, i + 1)) != delta_hash(suffix_at(d, j + 1)));
    }
}

/// Interning a list into a suffix-closed table succeeds exactly when it
/// meets no collision, and then the table gains the hashes of the list's
/// suffixes and nothing else.
pub proof fn lemma_interning_outcome(m: Map<u64, Seq<ContextDelta>>, d: Seq<ContextDelta>)
    requires
        suffix_closed(m),
        d.len() >= 1,
    ensures
        (interned_with(m, d) is Some) <==> conflict_free(m, d),
        interned_with(m, d) is Some ==> forall|k: u64|
            #[trigger] interned_with(m, d)->Some_0.contains_key(k) <==> (m.contains_key(k) || exists|i: int|
                0 <= i < d.len() && k == delta_hash(suffix_at(d, i))),
    decreases d.len(),
{
    let h = delta_hash(d);
    assert(suffix_at(d, 0) =~= d);
    if m.contains_key(h) {
        if m[h] == d {
            assert forall|i: int| 0 <= i < d.len() implies #[trigger] m.contains_key(delta_hash(suffix_at(d, i)))
                && m[delta_hash(suffix_at(d, i))] == suffix_at(d, i) by {
                lemma_closed_suffix(m, h, i);
            }
            assert forall|i: int, j: int| 0 <= i < j < d.len() implies #[trigger] delta_hash(suffix_at(d, i)) != #[trigger] delta_hash(
                suffix_at(d, j),
            ) by {
                assert(m.contains_key(delta_hash(suffix_at(d, i))));
                assert(m.contains_key(delta_hash(suffix_at(d, j))));
                assert(suffix_at(d, i).len() != suffix_at(d, j).len());
            }
        } else {
            assert(m.contains_key(delta_hash(suffix_at(d, 0))));
        }
    } else if d.len() == 1 {
        assert forall|i: int| 0 <= i < d.len() implies #[trigger] suffix_at(d, i) == d by {}
    } else {
        let rest = d.drop_first();
        lemma_interning_outcome(m, rest);
        assert forall|i: int| 0 <= i < rest.len() implies #[trigger] suffix_at(rest, i) == suffix_at(d, i + 1) by {
            assert(suffix_at(rest, i) =~= suffix_at(d, i + 1));
        }
        if conflict_free(m, d) {
            lemma_conflict_free_rest(m, d);
        }
        match interned_with(m, rest) {
            Some(m1) => {
                if m1.contains_key(h) {
                    let i = choose|i: int| 0 <= i < rest.len() && h == delta_hash(suffix_at(rest, i));
                    assert(suffix_at(rest, i) == suffix_at(d, i + 1));
                    assert(delta_hash(suffix_at(d, 0)) == delta_hash(suffix_at(d, i + 1)));
                } else {
                    assert forall|i: int|
                        0 <= i < d.len() && #[trigger] m.contains_key(delta_hash(suffix_at(d, i)))
                            implies m[delta_hash(suffix_at(d, i))] == suffix_at(d, i) by {
                        if i > 0 {
                            assert(suffix_at(rest, i - 1) == suffix_at(d, i));
                            assert(m.contains_key(delta_hash(suffix_at(rest, i - 1))));
                        }
                    }
                    assert forall|i: int, j: int| 0 <= i < j < d.len() implies #[trigger] delta_hash(suffix_at(d, i)) != #[trigger] delta_hash(
                        suffix_at(d, j),
                    ) by {
                        assert(suffix_at(rest, j - 1) == suffix_at(d, j));
                        if i == 0 {
                            assert(m1.contains_key(delta_hash(suffix_at(rest, j - 1))));
                        } else {
                            assert(suffix_at(rest, i - 1) == suffix_at(d, i));
                            assert(delta_hash(suffix_at(rest, i - 1)) != delta_hash(suffix_at(rest, j - 1)));
                        }
                    }
                    let m2 = m1.insert(h, d);
                    assert forall|k: u64| #[trigger] m2.contains_key(k) <==> (m.contains_key(k) || exists|i: int|
                        0 <= i < d.len() && k == delta_hash(suffix_at(d, i))) by {
                        if exists|i: int| 0 <= i < d.len() && k == delta_hash(suffix_at(d, i)) {
                            let i = choose|i: int| 0 <= i < d.len() && k == delta_hash(suffix_at(d, i));
                            if i > 0 {
                                assert(suffix_at(rest, i - 1) == suffix_at(d, i));
                                assert(m1.contains_key(k));
                            }
                        }
                        if m1.contains_key(k) && !m.contains_key(k) {
                            let i = choose|i: int| 0 <= i < rest.len() && k == delta_hash(suffix_at(rest, i));
                            assert(suffix_at(rest, i) == suffix_at(d, i + 1));
                        }
                    }
                }
            },
            None => {},
        }
    }
}

} // verus!
