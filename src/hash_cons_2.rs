use vstd::prelude::*;

use crate::initial_context::{Context, Type};
use crate::packed_context::{ContextDelta, PackError, fits_small, pack_context, packed_deltas};

verus! {

/// A node of the prefix tree: the delta on the edge from its parent, the
/// parent's index and the indices of its children.
pub struct ContextNode {
    pub delta: ContextDelta,
    pub parent: Option<usize>,
    pub children: Vec<usize>,
}

/// Interning by prefix: every context is a path from one root, each edge
/// labelled by the next delta of its packed list, so that contexts whose
/// lists begin alike share the nodes of that beginning. Nodes live in an
/// arena and refer to each other by index; the root is node 0.
pub struct ContextTree {
    nodes: Vec<ContextNode>,
}

impl ContextTree {
    /// Number of nodes, the root included.
    pub closed spec fn node_count(&self) -> nat {
        self.nodes@.len()
    }

    /// The delta on the edge into node `i`.
    pub closed spec fn delta_of(&self, i: int) -> ContextDelta {
        self.nodes@[i].delta
    }

    /// The parent of node `i`, for a node other than the root.
    pub closed spec fn parent_of(&self, i: int) -> int {
        self.nodes@[i].parent->Some_0 as int
    }

    /// The deltas on the path from the root to node `i`.
    pub closed spec fn path(&self, i: int) -> Seq<ContextDelta>
        decreases i,
    {
        if i <= 0 || i >= self.nodes@.len() || !(self.nodes@[i].parent is Some) || self.parent_of(
            i,
        ) >= i {
            Seq::empty()
        } else {
            self.path(self.parent_of(i)).push(self.nodes@[i].delta)
        }
    }

    /// Some node has path `s`.
    pub closed spec fn has_path(&self, s: Seq<ContextDelta>) -> bool {
        exists|j: int| 0 <= j < self.nodes@.len() && #[trigger] self.path(j) == s
    }

    /// How many of the first `k` prefixes of `p` (of lengths `0` to `k - 1`)
    /// are the path of no node.
    pub closed spec fn missing_prefixes(&self, p: Seq<ContextDelta>, k: nat) -> nat
        decreases k,
    {
        if k == 0 {
            0
        } else {
            self.missing_prefixes(p, (k - 1) as nat) + if self.has_path(p.take(k - 1)) {
                0nat
            } else {
                1nat
            }
        }
    }

    /// The node reached from node `i` by going up `up` times.
    pub closed spec fn ancestor(&self, i: int, up: nat) -> int
        decreases up,
    {
        if up == 0 {
            i
        } else {
            self.ancestor(self.parent_of(i), (up - 1) as nat)
        }
    }

    /// Node `c` is among the children of node `p`.
    pub closed spec fn has_child(&self, p: int, c: int) -> bool {
        exists|x: int|
            0 <= x < self.nodes@[p].children@.len() && #[trigger] self.nodes@[p].children@[x] as int
                == c
    }

    /// Every node but the root has an earlier node as parent, which lists it
    /// among its children; the children of a node are later nodes that name
    /// it as parent, and no two of them have the same delta.
    pub closed spec fn wf(&self) -> bool {
        let n = self.nodes@;
        &&& n.len() >= 1
        &&& n[0].parent is None
        &&& forall|i: int|
            0 < i < n.len() ==> {
                &&& (#[trigger] n[i]).parent is Some
                &&& n[i].parent->Some_0 < i
                &&& self.has_child(n[i].parent->Some_0 as int, i)
            }
        &&& forall|i: int, x: int|
            0 <= i < n.len() && 0 <= x < n[i].children@.len() ==> {
                let c = #[trigger] n[i].children@[x];
                &&& i < c < n.len()
                &&& n[c as int].parent == Some(i as usize)
            }
        &&& forall|i: int, x: int, y: int|
            0 <= i < n.len() && 0 <= x < n[i].children@.len() && 0 <= y < n[i].children@.len()
                && x != y ==> n[#[trigger] n[i].children@[x] as int].delta != n[#[trigger] n[
                i
            ].children@[y] as int].delta
    }

    /// A tree that holds only the root.
    pub fn new() -> (r: Self)
        ensures
            r.wf(),
            r.node_count() == 1,
    {
        let root = ContextNode { delta: ContextDelta::Terminator, parent: None, children: Vec::new() };
        let mut nodes: Vec<ContextNode> = Vec::new();
        nodes.push(root);
        ContextTree { nodes }
    }

    /// The child of `node` whose edge is labelled `delta`, if there is one.
    fn find_child(&self, node: usize, delta: ContextDelta) -> (r: Option<usize>)
        requires
            self.wf(),
            node < self.node_count(),
        ensures
            match r {
                Some(c) => self.nodes@[node as int].children@.contains(c) && self.nodes@[c as int].delta == delta,
                None => forall|x: int|
                    0 <= x < self.nodes@[node as int].children@.len() ==> self.nodes@[#[trigger] self.nodes@[node as int].children@[x] as int].delta != delta,
            },
    {
        let children = &self.nodes[node].children;
        let mut x: usize = 0;
        while x < children.len()
            invariant
                self.wf(),
                node < self.node_count(),
                children@ == self.nodes@[node as int].children@,
                x <= children@.len(),
                forall|y: int|
                    0 <= y < x ==> self.nodes@[#[trigger] children@[y] as int].delta != delta,
            decreases children@.len() - x,
        {
            let c = children[x];
            assert(c < self.nodes@.len());
            if self.nodes[c].delta == delta {
                return Some(c);
            }
            x = x + 1;
        }
        None
    }

    /// Interns a context: walks from the root along its packed deltas,
    /// adding a child wherever no edge has the next delta. Returns the node
    /// reached, whose path is the packed list; equal contexts reach the same
    /// node.
    pub fn compress(&mut self, ctx: &Context) -> (r: Result<usize, PackError>)
        requires
            old(self).wf(),
            ctx.wf(),
        ensures
            final(self).wf(),
            old(self).node_count() <= final(self).node_count(),
            forall|i: int| 0 <= i < old(self).node_count() ==> #[trigger] final(self).path(i) == old(self).path(i),
            final(self).node_count() <= old(self).node_count() + packed_deltas(*ctx).len(),
            forall|i: int|
                old(self).node_count() <= i < final(self).node_count() ==> #[trigger] final(self).path(i).len()
                    <= packed_deltas(*ctx).len() && final(self).path(i) == packed_deltas(*ctx).take(
                    final(self).path(i).len() as int,
                ),
            (exists|j: int| 0 <= j < old(self).node_count() && #[trigger] old(self).path(j) == packed_deltas(*ctx))
                ==> final(self).node_count() == old(self).node_count(),
            r is Ok ==> final(self).node_count() == old(self).node_count() + old(self).missing_prefixes(
                packed_deltas(*ctx),
                packed_deltas(*ctx).len() + 1,
            ),
            match r {
                Ok(n) => fits_small(*ctx) && n < final(self).node_count() && final(self).path(n as int) == packed_deltas(*ctx),
                Err(e) => !fits_small(*ctx) && e == PackError::UnsupportedValue && final(self).node_count() == old(self).node_count(),
            },
    {
        let deltas = match pack_context(ctx) {
            Ok(d) => d,
            Err(e) => {
                return Err(e);
            },
        };
        let ghost t0 = *self;
        proof {
            assert(t0.path(0) =~= deltas@.take(0));
            assert(t0.has_path(deltas@.take(0)));
            assert(t0.missing_prefixes(deltas@, 0) == 0);
        }
        let mut node: usize = 0;
        let mut i: usize = 0;
        while i < deltas.len()
            invariant
                self.wf(),
                i <= deltas@.len(),
                node < self.node_count(),
                self.path(node as int) == deltas@.take(i as int),
                t0.node_count() <= self.node_count(),
                forall|j: int| 0 <= j < t0.node_count() ==> #[trigger] self.path(j) == t0.path(j),
                self.node_count() <= t0.node_count() + i,
                forall|j: int|
                    t0.node_count() <= j < self.node_count() ==> #[trigger] self.path(j).len() <= i
                        && self.path(j) == deltas@.take(self.path(j).len() as int),
                (exists|j: int| 0 <= j < t0.node_count() && #[trigger] t0.path(j) == deltas@)
                    ==> self.node_count() == t0.node_count(),
                self.node_count() == t0.node_count() + t0.missing_prefixes(deltas@, (i + 1) as nat),
            decreases deltas@.len() - i,
        {
            let d = deltas[i];
            proof {
                assert(deltas@.take(i + 1).take(i as int) =~= deltas@.take(i as int));
                assert(t0.missing_prefixes(deltas@, (i + 2) as nat) == t0.missing_prefixes(
                    deltas@,
                    (i + 1) as nat,
                ) + if t0.has_path(deltas@.take(i + 1)) {
                    0nat
                } else {
                    1nat
                });
            }
            match self.find_child(node, d) {
                Some(c) => {
                    assert(self.nodes@[node as int].children@.contains(c));
                    assert(self.path(c as int) == self.path(node as int).push(d));
                    proof {
                        assert(self.path(c as int) =~= deltas@.take(i + 1));
                        if c >= t0.node_count() {
                            assert(self.path(c as int).len() <= i);
                        }
                        assert(t0.path(c as int) == deltas@.take(i + 1));
                        assert(t0.has_path(deltas@.take(i + 1)));
                    }
                    node = c;
                },
                None => {
                    proof {
                        if t0.has_path(deltas@.take(i + 1)) {
                            let j = choose|j: int| 0 <= j < t0.nodes@.len() && #[trigger] t0.path(j) == deltas@.take(i + 1);
                            assert(self.path(j) == t0.path(j));
                            self.lemma_existing_child(j, node, i as int, deltas@.take(i + 1));
                        }
                        if exists|j: int| 0 <= j < t0.node_count() && #[trigger] t0.path(j) == deltas@ {
                            let j = choose|j: int| 0 <= j < t0.node_count() && #[trigger] t0.path(j) == deltas@;
                            self.lemma_existing_child(j, node, i as int, deltas@);
                        }
                    }
                    let ghost t1 = *self;
                    let new_index = self.nodes.len();
                    self.nodes.push(ContextNode { delta: d, parent: Some(node), children: Vec::new() });
                    self.nodes[node].children.push(new_index);
                    proof {
                        self.lemma_extended(t1, node, new_index);
                        assert(self.path(new_index as int) =~= deltas@.take(i + 1));
                        assert forall|j: int|
                            t0.node_count() <= j < self.node_count() implies #[trigger] self.path(j).len() <= i + 1
                                && self.path(j) == deltas@.take(self.path(j).len() as int) by {
                            if j < t1.node_count() {
                                assert(self.path(j) == t1.path(j));
                            }
                        }
                    }
                    node = new_index;
                },
            }
            assert(deltas@.take(i + 1) =~= deltas@.take(i as int).push(d));
            i = i + 1;
        }
        assert(deltas@.take(deltas@.len() as int) =~= deltas@);
        Ok(node)
    }

    /// When some node's path is `s`, the node whose path is the first `i`
    /// deltas of `s` has a child labelled with the next one.
    proof fn lemma_existing_child(&self, j: int, node: usize, i: int, s: Seq<ContextDelta>)
        requires
            self.wf(),
            0 <= j < self.node_count(),
            node < self.node_count(),
            self.path(j) == s,
            0 <= i < s.len(),
            self.path(node as int) == s.take(i),
        ensures
            exists|x: int|
                0 <= x < self.nodes@[node as int].children@.len()
                    && self.nodes@[#[trigger] self.nodes@[node as int].children@[x] as int].delta
                    == s[i],
    {
        let up = (s.len() - (i + 1)) as nat;
        self.lemma_ancestor(j, up);
        let a = self.ancestor(j, up);
        assert(self.path(a) == s.take(i + 1));
        self.lemma_path_step(a);
        assert(a > 0);
        let p = self.parent_of(a);
        assert(self.path(p).push(self.delta_of(a)).drop_last() =~= self.path(p));
        assert(s.take(i + 1).drop_last() =~= s.take(i));
        assert(self.path(p) =~= s.take(i));
        assert(self.path(a).last() == self.delta_of(a));
        assert(s.take(i + 1).last() == s[i]);
        self.lemma_path_unique(p, node as int);
        assert(self.has_child(p, a));
        let x = choose|x: int| 0 <= x < self.nodes@[p].children@.len() && #[trigger] self.nodes@[p].children@[x] as int == a;
        assert(self.delta_of(a) == s[i]);
        assert(self.nodes@[self.nodes@[node as int].children@[x] as int].delta == s[i]);
    }

    /// Nodes below `k` that agree on delta and parent have the same paths.
    proof fn lemma_path_frame(&self, other: ContextTree, j: int, k: int)
        requires
            0 <= j < k,
            k <= self.nodes@.len(),
            k <= other.nodes@.len(),
            forall|i: int| 0 <= i < k ==> (#[trigger] self.nodes@[i]).delta == other.nodes@[i].delta
                && self.nodes@[i].parent == other.nodes@[i].parent,
        ensures
            self.path(j) == other.path(j),
        decreases j,
    {
        if j > 0 && self.nodes@[j].parent is Some && self.parent_of(j) < j {
            self.lemma_path_frame(other, self.parent_of(j), k);
        }
    }

    /// After a leaf with index `new_index` under `node` is added to `old`,
    /// the tree is still well formed, older paths are kept and the leaf's
    /// path extends that of `node`.
    proof fn lemma_extended(&self, old: ContextTree, node: usize, new_index: usize)
        requires
            old.wf(),
            node < old.nodes@.len(),
            new_index == old.nodes@.len(),
            self.nodes@.len() == new_index + 1,
            self.nodes@[new_index as int].parent == Some(node),
            self.nodes@[new_index as int].children@.len() == 0,
            forall|x: int|
                0 <= x < old.nodes@[node as int].children@.len() ==> old.nodes@[#[trigger] old.nodes@[node as int].children@[x] as int].delta != self.nodes@[new_index as int].delta,
            self.nodes@[node as int].children@ == old.nodes@[node as int].children@.push(new_index),
            self.nodes@[node as int].delta == old.nodes@[node as int].delta,
            self.nodes@[node as int].parent == old.nodes@[node as int].parent,
            forall|i: int| 0 <= i < old.nodes@.len() && i != node ==> #[trigger] self.nodes@[i] == old.nodes@[i],
        ensures
            self.wf(),
            forall|j: int| 0 <= j < old.nodes@.len() ==> #[trigger] self.path(j) == old.path(j),
            self.path(new_index as int) == old.path(node as int).push(self.nodes@[new_index as int].delta),
    {
        let n = self.nodes@;
        let o = old.nodes@;
        assert forall|i: int| 0 <= i < o.len() implies (#[trigger] n[i]).delta == o[i].delta
            && n[i].parent == o[i].parent by {
            if i != node {
                assert(n[i] == o[i]);
            }
        }
        assert forall|j: int| 0 <= j < o.len() implies #[trigger] self.path(j) == old.path(j) by {
            self.lemma_path_frame(old, j, o.len() as int);
        }
        assert(self.path(node as int) == old.path(node as int));
        assert(self.parent_of(new_index as int) == node);
        assert forall|i: int|
            0 < i < n.len() implies {
                &&& (#[trigger] n[i]).parent is Some
                &&& n[i].parent->Some_0 < i
                &&& self.has_child(n[i].parent->Some_0 as int, i)
            } by {
            if i < o.len() {
                let p = o[i].parent->Some_0 as int;
                assert(old.has_child(p, i));
                let x = choose|x: int| 0 <= x < o[p].children@.len() && #[trigger] o[p].children@[x] as int == i;
                if p == node {
                    assert(n[p].children@[x] as int == i);
                } else {
                    assert(n[p] == o[p]);
                    assert(n[p].children@[x] as int == i);
                }
            } else {
                assert(n[node as int].children@[o[node as int].children@.len() as int] as int == new_index);
            }
        }
        assert forall|i: int, x: int|
            0 <= i < n.len() && 0 <= x < n[i].children@.len() implies {
                let c = #[trigger] n[i].children@[x];
                &&& i < c < n.len()
                &&& n[c as int].parent == Some(i as usize)
            } by {
            if i != node && i < o.len() {
                assert(n[i] == o[i]);
                let c = o[i].children@[x];
                assert(i < c < o.len());
            } else if i == node && x < o[i].children@.len() {
                assert(n[i].children@[x] == o[i].children@[x]);
            }
        }
        assert forall|i: int, x: int, y: int|
            0 <= i < n.len() && 0 <= x < n[i].children@.len() && 0 <= y < n[i].children@.len()
                && x != y implies n[#[trigger] n[i].children@[x] as int].delta != n[#[trigger] n[
                i
            ].children@[y] as int].delta by {
            if i != node && i < o.len() {
                assert(n[i] == o[i]);
                let cx = o[i].children@[x];
                let cy = o[i].children@[y];
                assert(cx < o.len() && cy < o.len());
            } else if i == node {
                let ol = o[i].children@.len() as int;
                if x < ol {
                    assert(n[i].children@[x] == o[i].children@[x]);
                    assert(o[i].children@[x] < o.len());
                }
                if y < ol {
                    assert(n[i].children@[y] == o[i].children@[y]);
                    assert(o[i].children@[y] < o.len());
                }
            }
        }
    }

    /// The path of a node other than the root is its parent's path and its
    /// own delta; the root's path is empty.
    pub proof fn lemma_path_step(&self, i: int)
        requires
            self.wf(),
            0 <= i < self.node_count(),
        ensures
            i == 0 ==> self.path(i).len() == 0,
            i > 0 ==> 0 <= self.parent_of(i) < i && self.path(i) == self.path(self.parent_of(i)).push(
                self.delta_of(i),
            ),
    {
        if i > 0 {
            assert(self.nodes@[i].parent is Some);
        }
    }

    proof fn lemma_children_distinct(&self, i: int, x: int, y: int)
        requires
            self.wf(),
            0 <= i < self.node_count(),
            0 <= x < self.nodes@[i].children@.len(),
            0 <= y < self.nodes@[i].children@.len(),
            x != y,
        ensures
            self.nodes@[self.nodes@[i].children@[x] as int].delta != self.nodes@[self.nodes@[
                i
            ].children@[y] as int].delta,
    {
    }

    /// In a well-formed tree no two nodes have the same path.
    pub proof fn lemma_path_unique(&self, a: int, b: int)
        requires
            self.wf(),
            0 <= a < self.node_count(),
            0 <= b < self.node_count(),
            self.path(a) == self.path(b),
        ensures
            a == b,
        decreases self.path(a).len(),
    {
        self.lemma_path_step(a);
        self.lemma_path_step(b);
        if a > 0 && b > 0 {
            let pa = self.parent_of(a);
            let pb = self.parent_of(b);
            assert(self.path(pa) =~= self.path(a).drop_last());
            assert(self.path(pb) =~= self.path(b).drop_last());
            self.lemma_path_unique(pa, pb);
            assert(self.delta_of(a) == self.path(a).last());
            assert(self.delta_of(b) == self.path(b).last());
            let ch = self.nodes@[pa].children@;
            assert(self.has_child(pa, a));
            assert(self.has_child(pb, b));
            let x = choose|x: int| 0 <= x < ch.len() && #[trigger] ch[x] as int == a;
            let y = choose|y: int| 0 <= y < ch.len() && #[trigger] ch[y] as int == b;
            if x != y {
                self.lemma_children_distinct(pa, x, y);
            }
        }
    }

    /// Going up `up` times from a node whose path is at least that long
    /// reaches the node whose path is the first `len - up` deltas.
    pub proof fn lemma_ancestor(&self, i: int, up: nat)
        requires
            self.wf(),
            0 <= i < self.node_count(),
            up <= self.path(i).len(),
        ensures
            0 <= self.ancestor(i, up) < self.node_count(),
            self.path(self.ancestor(i, up)) == self.path(i).take(self.path(i).len() - up),
        decreases up,
    {
        self.lemma_path_step(i);
        if up == 0 {
            assert(self.path(i).take(self.path(i).len() as int) =~= self.path(i));
        } else {
            let p = self.parent_of(i);
            self.lemma_ancestor(p, (up - 1) as nat);
            assert(self.path(p).take(self.path(p).len() - (up - 1)) =~= self.path(i).take(
                self.path(i).len() - up,
            ));
        }
    }

    /// Interning equal contexts reaches the identical node: two nodes whose
    /// paths are the packed lists of equal contexts are one node.
    pub proof fn lemma_intern_identical(&self, a: int, b: int, c1: Context, c2: Context)
        requires
            self.wf(),
            0 <= a < self.node_count(),
            0 <= b < self.node_count(),
            c1 == c2,
            self.path(a) == packed_deltas(c1),
            self.path(b) == packed_deltas(c2),
        ensures
            a == b,
    {
        self.lemma_path_unique(a, b);
    }

    /// Two nodes whose paths agree on their first `k` deltas share the first
    /// `k` nodes below the root: the ancestors at depth `k` are one node,
    /// whose path is that common beginning.
    pub proof fn lemma_prefix_sharing(&self, a: int, b: int, k: nat)
        requires
            self.wf(),
            0 <= a < self.node_count(),
            0 <= b < self.node_count(),
            k <= self.path(a).len(),
            k <= self.path(b).len(),
            self.path(a).take(k as int) == self.path(b).take(k as int),
        ensures
            self.ancestor(a, (self.path(a).len() - k) as nat) == self.ancestor(
                b,
                (self.path(b).len() - k) as nat,
            ),
            self.path(self.ancestor(a, (self.path(a).len() - k) as nat)) == self.path(a).take(
                k as int,
            ),
    {
        self.lemma_ancestor(a, (self.path(a).len() - k) as nat);
        self.lemma_ancestor(b, (self.path(b).len() - k) as nat);
        self.lemma_path_unique(
            self.ancestor(a, (self.path(a).len() - k) as nat),
            self.ancestor(b, (self.path(b).len() - k) as nat),
        );
    }

    /// Two interned contexts that differ only in a non-zero chain depth share
    /// the node of their self type (the root where it is unknown), and below
    /// it hang two distinct siblings, one per chain depth.
    pub proof fn lemma_chain_depth_siblings(&self, a: int, b: int, ca: Context, cb: Context)
        requires
            self.wf(),
            0 <= a < self.node_count(),
            0 <= b < self.node_count(),
            self.path(a) == packed_deltas(ca),
            self.path(b) == packed_deltas(cb),
            ca == (Context { chain_depth: ca.chain_depth, ..cb }),
            ca.chain_depth > 0,
            cb.chain_depth > 0,
            ca.chain_depth != cb.chain_depth,
        ensures
            ({
                let d: nat = if ca.self_type != Type::Unknown { 1 } else { 0 };
                let xa = self.ancestor(a, (self.path(a).len() - (d + 1)) as nat);
                let xb = self.ancestor(b, (self.path(b).len() - (d + 1)) as nat);
                &&& xa != xb
                &&& self.parent_of(xa) == self.parent_of(xb)
                &&& self.path(self.parent_of(xa)) == if d == 1 {
                    seq![ContextDelta::SelfType(ca.self_type)]
                } else {
                    Seq::<ContextDelta>::empty()
                }
                &&& self.delta_of(xa) == ContextDelta::ChainDepth(ca.chain_depth)
                &&& self.delta_of(xb) == ContextDelta::ChainDepth(cb.chain_depth)
            }),
    {
        let d: nat = if ca.self_type != Type::Unknown { 1 } else { 0 };
        let s0 = if ca.self_type != Type::Unknown {
            seq![ContextDelta::SelfType(ca.self_type)]
        } else {
            Seq::<ContextDelta>::empty()
        };
        let pa = packed_deltas(ca);
        let pb = packed_deltas(cb);
        assert(pa.take((d + 1) as int) =~= s0.push(ContextDelta::ChainDepth(ca.chain_depth)));
        assert(pb.take((d + 1) as int) =~= s0.push(ContextDelta::ChainDepth(cb.chain_depth)));
        self.lemma_ancestor(a, (pa.len() - (d + 1)) as nat);
        self.lemma_ancestor(b, (pb.len() - (d + 1)) as nat);
        let xa = self.ancestor(a, (pa.len() - (d + 1)) as nat);
        let xb = self.ancestor(b, (pb.len() - (d + 1)) as nat);
        self.lemma_path_step(xa);
        self.lemma_path_step(xb);
        assert(self.path(xa).len() == d + 1);
        assert(xa > 0 && xb > 0);
        let qa = self.parent_of(xa);
        let qb = self.parent_of(xb);
        assert(self.path(xa).drop_last() =~= self.path(qa));
        assert(self.path(xb).drop_last() =~= self.path(qb));
        assert(s0.push(ContextDelta::ChainDepth(ca.chain_depth)).drop_last() =~= s0);
        assert(s0.push(ContextDelta::ChainDepth(cb.chain_depth)).drop_last() =~= s0);
        self.lemma_path_unique(qa, qb);
        assert(self.path(xa).last() == ContextDelta::ChainDepth(ca.chain_depth));
        assert(self.path(xb).last() == ContextDelta::ChainDepth(cb.chain_depth));
    }

    /// The delta on the edge into node `i`.
    pub fn delta(&self, i: usize) -> (r: ContextDelta)
        requires
            i < self.node_count(),
        ensures
            r == self.delta_of(i as int),
            self.wf() && i > 0 ==> r == self.path(i as int).last(),
    {
        proof {
            if self.wf() && i > 0 {
                self.lemma_path_step(i as int);
            }
        }
        self.nodes[i].delta
    }

    /// The children of node `i`.
    pub fn children(&self, i: usize) -> (r: &Vec<usize>)
        requires
            self.wf(),
            i < self.node_count(),
        ensures
            forall|x: int| 0 <= x < r@.len() ==> #[trigger] r@[x] < self.node_count() && self.parent_of(r@[x] as int) == i,
            forall|x: int| 0 <= x < r@.len() ==> self.has_child(i as int, #[trigger] r@[x] as int),
    {
        &self.nodes[i].children
    }

    /// The parent of node `i`; none for the root.
    pub fn parent(&self, i: usize) -> (r: Option<usize>)
        requires
            self.wf(),
            i < self.node_count(),
        ensures
            i == 0 ==> r is None,
            i > 0 ==> r == Some(self.parent_of(i as int) as usize),
    {
        self.nodes[i].parent
    }
}

impl Default for ContextTree {
    fn default() -> (r: Self)
        ensures
            r.wf(),
            r.node_count() == 1,
    {
        ContextTree::new()
    }
}

impl ContextNode {
    /// Number of nodes in the tree, the root included.
    pub fn _get_node_count(tree: &ContextTree) -> (r: usize)
        ensures
            r == tree.node_count(),
    {
        tree.nodes.len()
    }
}

} // verus!
