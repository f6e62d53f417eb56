//! The incremental engine: orchestrates node creation, edge creation, and the
//! stabilization pass, and lets callers observe typed results.
//!
//! The mathematical model: `denote` is the value every node would have if
//! everything were recomputed from the current inputs; `pass_epoch` and
//! `pass_value` describe, node by node, exactly what one stabilization pass
//! does, including the cutoff that stops propagation when a recomputed value
//! is unchanged.  `stabilize` is proved to realize `pass_epoch`/`pass_value`,
//! and a completed pass is proved to leave every node at its denotation.

use crate::id::Id;
use crate::kind::{Combine2, IntFn, Kind, Map2, Var};
use crate::store::{
    deps_ok, has_edge, ids_ok, is_cycle, lemma_sortable_shrink, node_val, sortable, stalled,
    valid_order, Node, Store,
};
use crate::Error;
use vstd::pervasive::unreached;
use vstd::prelude::*;

verus! {

/// A lightweight, copyable reference to a node, valid for the lifetime of the
/// engine that issued it.
#[derive(Debug, Clone, Copy, PartialEq, Eq, Structural)]
pub struct Handle {
    /// The node's identifier in the owning engine's store.
    pub id: usize,
}

/// The value inside an `Option`, with 0 for `None`.  Used only where the
/// option is separately proved to be `Some`.
pub open spec fn val_or(o: Option<i64>) -> i64 {
    match o {
        Some(v) => v,
        None => 0,
    }
}

/// The value a node would have if everything were recomputed from the current
/// inputs: an input denotes its stored value, a derived node the combination
/// of its dependencies' denotations.
pub open spec fn denote<C: Combine2>(nodes: Seq<Node<C>>, i: int) -> i64
    decreases i,
{
    if 0 <= i < nodes.len() {
        match nodes[i].kind {
            Kind::Var(v) => v.value,
            Kind::Map2(m) => {
                let ai = m.a - 1;
                let bi = m.b - 1;
                if 0 <= ai < i && 0 <= bi < i {
                    m.f.spec_combine(denote(nodes, ai), denote(nodes, bi))
                } else {
                    0
                }
            },
        }
    } else {
        0
    }
}

/// The stamp a node carries after a stabilization pass at epoch `e` over the
/// state `nodes`: an input keeps its stamp; a derived node is recomputed
/// exactly when it has never been computed or a dependency's stamp ends up at
/// `e`, and takes the stamp `e` only if the recomputed value differs from its
/// cache.
pub open spec fn pass_epoch<C: Combine2>(nodes: Seq<Node<C>>, e: nat, i: int) -> nat
    decreases i,
{
    if 0 <= i < nodes.len() {
        match nodes[i].kind {
            Kind::Var(_) => nodes[i].last_changed_epoch as nat,
            Kind::Map2(m) => {
                let ai = m.a - 1;
                let bi = m.b - 1;
                if 0 <= ai < i && 0 <= bi < i {
                    let own = nodes[i].last_changed_epoch as nat;
                    if own == 0 || pass_epoch(nodes, e, ai) == e || pass_epoch(nodes, e, bi)
                        == e {
                        let cand = m.f.spec_combine(
                            val_or(pass_value(nodes, e, ai)),
                            val_or(pass_value(nodes, e, bi)),
                        );
                        if m.cached == Some(cand) {
                            own
                        } else {
                            e
                        }
                    } else {
                        own
                    }
                } else {
                    nodes[i].last_changed_epoch as nat
                }
            },
        }
    } else {
        0
    }
}

/// The readable value a node carries after a stabilization pass at epoch `e`
/// over the state `nodes`.
pub open spec fn pass_value<C: Combine2>(nodes: Seq<Node<C>>, e: nat, i: int) -> Option<i64>
    decreases i,
{
    if 0 <= i < nodes.len() {
        match nodes[i].kind {
            Kind::Var(v) => Some(v.value),
            Kind::Map2(m) => {
                let ai = m.a - 1;
                let bi = m.b - 1;
                if 0 <= ai < i && 0 <= bi < i {
                    let own = nodes[i].last_changed_epoch as nat;
                    if own == 0 || pass_epoch(nodes, e, ai) == e || pass_epoch(nodes, e, bi)
                        == e {
                        Some(
                            m.f.spec_combine(
                                val_or(pass_value(nodes, e, ai)),
                                val_or(pass_value(nodes, e, bi)),
                            ),
                        )
                    } else {
                        m.cached
                    }
                } else {
                    m.cached
                }
            },
        }
    } else {
        None
    }
}

/// The whole node after a stabilization pass at epoch `e`: same identifier,
/// same kind structure, with the stamp and cache the pass produces.
pub open spec fn pass_node<C: Combine2>(nodes: Seq<Node<C>>, e: nat, i: int) -> Node<C> {
    Node {
        kind: match nodes[i].kind {
            Kind::Var(v) => Kind::Var(v),
            Kind::Map2(m) => Kind::Map2(
                Map2 { a: m.a, b: m.b, f: m.f, cached: pass_value(nodes, e, i) },
            ),
        },
        last_changed_epoch: pass_epoch(nodes, e, i) as usize,
        id: nodes[i].id,
    }
}

/// Two states with the same graph structure: equal inputs, and derived nodes
/// with equal dependencies and combining functions (caches may differ).
pub open spec fn same_shape<C: Combine2>(n1: Seq<Node<C>>, n2: Seq<Node<C>>) -> bool {
    &&& n1.len() == n2.len()
    &&& forall|j: int|
        0 <= j < n1.len() ==> {
            let k1 = (#[trigger] n1[j]).kind;
            let k2 = n2[j].kind;
            match (k1, k2) {
                (Kind::Var(v1), Kind::Var(v2)) => v1 == v2,
                (Kind::Map2(m1), Kind::Map2(m2)) => m1.a == m2.a && m1.b == m2.b && m1.f == m2.f,
                _ => false,
            }
        }
}

/// Epoch bookkeeping relative to the current epoch `c`: no stamp runs ahead
/// of the next pass, derived nodes are never stamped ahead of the current
/// epoch, and a derived node is stamped exactly when its cache is filled.
pub open spec fn epochs_ok<C: Combine2>(nodes: Seq<Node<C>>, c: nat) -> bool {
    forall|i: int|
        0 <= i < nodes.len() ==> {
            let nd = #[trigger] nodes[i];
            &&& nd.last_changed_epoch <= c + 1
            &&& match nd.kind {
                Kind::Map2(m) => nd.last_changed_epoch <= c && (nd.last_changed_epoch == 0
                    <==> m.cached is None),
                Kind::Var(_) => true,
            }
        }
}

/// A computed derived node has readable dependencies.
pub open spec fn computed_ok<C: Combine2>(nodes: Seq<Node<C>>) -> bool {
    forall|i: int|
        0 <= i < nodes.len() ==> match (#[trigger] nodes[i]).kind {
            Kind::Map2(m) => nodes[i].last_changed_epoch != 0 ==> node_val(nodes, m.a - 1) is Some
                && node_val(nodes, m.b - 1) is Some,
            Kind::Var(_) => true,
        }
}

/// Cache coherence: a computed derived node whose dependencies carry no
/// pending change caches exactly the combination of their current values.
pub open spec fn caches_ok<C: Combine2>(nodes: Seq<Node<C>>, c: nat) -> bool {
    forall|i: int|
        0 <= i < nodes.len() ==> match (#[trigger] nodes[i]).kind {
            Kind::Map2(m) => (nodes[i].last_changed_epoch != 0 && nodes[m.a
                - 1].last_changed_epoch <= c && nodes[m.b - 1].last_changed_epoch <= c)
                ==> m.cached == Some(
                m.f.spec_combine(
                    val_or(node_val(nodes, m.a - 1)),
                    val_or(node_val(nodes, m.b - 1)),
                ),
            ),
            Kind::Var(_) => true,
        }
}

/// What observing a node returns, as a function of the state.
pub open spec fn spec_observe<C: Combine2>(nodes: Seq<Node<C>>, id: usize) -> Result<i64, Error> {
    if 1 <= id <= nodes.len() {
        match node_val(nodes, id - 1) {
            Some(v) => Ok(v),
            None => Err(Error::NotYetComputed),
        }
    } else {
        Err(Error::UnknownNode)
    }
}

/// Denotation depends only on the graph structure, never on caches or
/// stamps: two states of the same shape denote the same values.
pub proof fn lemma_denote_shape<C: Combine2>(n1: Seq<Node<C>>, n2: Seq<Node<C>>, i: int)
    requires
        same_shape(n1, n2),
        0 <= i < n1.len(),
    ensures
        denote(n1, i) == denote(n2, i),
    decreases i,
{
    match n1[i].kind {
        Kind::Var(_) => {},
        Kind::Map2(m1) => {
            match n2[i].kind {
                Kind::Map2(m2) => {
                    if 0 <= m1.a - 1 < i && 0 <= m1.b - 1 < i {
                        lemma_denote_shape(n1, n2, m1.a - 1);
                        lemma_denote_shape(n1, n2, m1.b - 1);
                    }
                },
                Kind::Var(_) => {
                    assert(false);
                },
            }
        },
    }
}

/// The central lemma about one pass over a coherent state at epoch `c + 1`:
/// afterwards every node's readable value is exactly its denotation, and a
/// node that does not end with the pass stamp already carried its denotation.
pub proof fn lemma_pass_denote<C: Combine2>(nodes: Seq<Node<C>>, c: nat, i: int)
    requires
        deps_ok(nodes),
        epochs_ok(nodes, c),
        computed_ok(nodes),
        caches_ok(nodes, c),
        0 <= i < nodes.len(),
    ensures
        pass_value(nodes, c + 1, i) == Some(denote(nodes, i)),
        pass_epoch(nodes, c + 1, i) != c + 1 ==> node_val(nodes, i) == Some(denote(nodes, i)),
        pass_epoch(nodes, c + 1, i) <= c + 1,
        nodes[i].kind is Map2 ==> pass_epoch(nodes, c + 1, i) != 0,
    decreases i,
{
    let e = c + 1;
    match nodes[i].kind {
        Kind::Var(_) => {},
        Kind::Map2(m) => {
            let ai = m.a - 1;
            let bi = m.b - 1;
            assert(1 <= m.a <= i && 1 <= m.b <= i);
            lemma_pass_denote(nodes, c, ai);
            lemma_pass_denote(nodes, c, bi);
            let own = nodes[i].last_changed_epoch as nat;
            let cand = m.f.spec_combine(
                val_or(pass_value(nodes, e, ai)),
                val_or(pass_value(nodes, e, bi)),
            );
            assert(cand == m.f.spec_combine(denote(nodes, ai), denote(nodes, bi)));
            assert(denote(nodes, i) == m.f.spec_combine(denote(nodes, ai), denote(nodes, bi)));
            if own == 0 || pass_epoch(nodes, e, ai) == e || pass_epoch(nodes, e, bi) == e {
                assert(pass_value(nodes, e, i) == Some(cand));
                if m.cached == Some(cand) {
                    assert(own != 0);
                    assert(pass_epoch(nodes, e, i) == own);
                    assert(own <= c);
                } else {
                    assert(pass_epoch(nodes, e, i) == e);
                }
            } else {
                // not recomputed: both dependencies kept stamps other than
                // the pass epoch, so their caches carry their denotations and
                // cache coherence pins this node's cache
                assert(own != 0);
                assert(nodes[ai].last_changed_epoch <= c) by {
                    match nodes[ai].kind {
                        Kind::Var(_) => {
                            assert(pass_epoch(nodes, e, ai) == nodes[ai].last_changed_epoch as nat);
                        },
                        Kind::Map2(_) => {},
                    }
                }
                assert(nodes[bi].last_changed_epoch <= c) by {
                    match nodes[bi].kind {
                        Kind::Var(_) => {
                            assert(pass_epoch(nodes, e, bi) == nodes[bi].last_changed_epoch as nat);
                        },
                        Kind::Map2(_) => {},
                    }
                }
                assert(m.cached == Some(
                    m.f.spec_combine(val_or(node_val(nodes, ai)), val_or(node_val(nodes, bi))),
                ));
                assert(node_val(nodes, ai) == Some(denote(nodes, ai)));
                assert(node_val(nodes, bi) == Some(denote(nodes, bi)));
                assert(pass_value(nodes, e, i) == m.cached);
                assert(m.cached == Some(denote(nodes, i)));
            }
        },
    }
}

/// Law (no redundant recompute): over a state where every stamp is strictly
/// older than the pass epoch and every derived node has been computed — the
/// state right after a completed pass with nothing set in between — a further
/// pass leaves every node exactly as it is.
pub proof fn lemma_idle_pass_is_identity<C: Combine2>(nodes: Seq<Node<C>>, e: nat, i: int)
    requires
        deps_ok(nodes),
        0 <= i < nodes.len(),
        forall|j: int| 0 <= j < nodes.len() ==> (#[trigger] nodes[j]).last_changed_epoch < e,
        forall|j: int|
            0 <= j < nodes.len() ==> ((#[trigger] nodes[j]).kind is Map2
                ==> nodes[j].last_changed_epoch != 0),
    ensures
        pass_node(nodes, e, i) == nodes[i],
    decreases i,
{
    match nodes[i].kind {
        Kind::Var(_) => {},
        Kind::Map2(m) => {
            assert(1 <= m.a <= i && 1 <= m.b <= i);
            lemma_idle_pass_is_identity(nodes, e, m.a - 1);
            lemma_idle_pass_is_identity(nodes, e, m.b - 1);
        },
    }
}

/// Law (cutoff, first half): a derived node whose combining function is
/// constant, once it carries that constant, is never stamped by a pass: even
/// if a dependency changed, the recomputed value equals the cache.
pub proof fn lemma_constant_cutoff<C: Combine2>(nodes: Seq<Node<C>>, e: nat, k: int, c: i64)
    requires
        deps_ok(nodes),
        0 <= k < nodes.len(),
        nodes[k].kind is Map2,
        forall|x: i64, y: i64| #[trigger] nodes[k].kind->Map2_0.f.spec_combine(x, y) == c,
        nodes[k].kind->Map2_0.cached == Some(c),
        nodes[k].last_changed_epoch != 0,
    ensures
        pass_epoch(nodes, e, k) == nodes[k].last_changed_epoch,
        pass_value(nodes, e, k) == Some(c),
{
}

/// Law (cutoff, second half): a computed derived node neither of whose
/// dependencies ends the pass with the pass stamp keeps its stamp and its
/// cached value: propagation stops at unchanged dependencies.
pub proof fn lemma_quiet_node_untouched<C: Combine2>(nodes: Seq<Node<C>>, e: nat, m: int)
    requires
        deps_ok(nodes),
        0 <= m < nodes.len(),
        nodes[m].kind is Map2,
        nodes[m].last_changed_epoch != 0,
        pass_epoch(nodes, e, nodes[m].kind->Map2_0.a - 1) != e,
        pass_epoch(nodes, e, nodes[m].kind->Map2_0.b - 1) != e,
    ensures
        pass_epoch(nodes, e, m) == nodes[m].last_changed_epoch,
        pass_value(nodes, e, m) == nodes[m].kind->Map2_0.cached,
{
}

/// Law (propagation stops at equal output): take a derived node `k` whose
/// combining function returns the constant `c` regardless of inputs, already
/// carrying `c`.  However `k`'s own dependencies change in a pass, a dependent
/// `m` of `k` keeps its cached value and its stamp, provided `m`'s other
/// dependency does not change in the pass either (a dependent that also
/// depends on a changed node through another path is recomputed for that
/// reason, and is excluded here).
pub proof fn lemma_cutoff_shields_dependent<C: Combine2>(
    nodes: Seq<Node<C>>,
    e: nat,
    k: int,
    c: i64,
    m: int,
)
    requires
        deps_ok(nodes),
        0 <= k < nodes.len(),
        nodes[k].kind is Map2,
        forall|x: i64, y: i64| #[trigger] nodes[k].kind->Map2_0.f.spec_combine(x, y) == c,
        nodes[k].kind->Map2_0.cached == Some(c),
        nodes[k].last_changed_epoch != 0,
        nodes[k].last_changed_epoch != e,
        0 <= m < nodes.len(),
        nodes[m].kind is Map2,
        nodes[m].last_changed_epoch != 0,
        nodes[m].kind->Map2_0.a == k + 1 || pass_epoch(nodes, e, nodes[m].kind->Map2_0.a - 1)
            != e,
        nodes[m].kind->Map2_0.b == k + 1 || pass_epoch(nodes, e, nodes[m].kind->Map2_0.b - 1)
            != e,
    ensures
        pass_epoch(nodes, e, m) == nodes[m].last_changed_epoch,
        pass_value(nodes, e, m) == nodes[m].kind->Map2_0.cached,
{
    lemma_constant_cutoff(nodes, e, k, c);
    lemma_quiet_node_untouched(nodes, e, m);
}

/// Law (round trip): observing a freshly created input, with no stabilization
/// in between, returns exactly the value it was created with.
pub proof fn lemma_fresh_input_observable<C: Combine2>(
    nodes: Seq<Node<C>>,
    value: i64,
    stamp: usize,
    id: usize,
)
    requires
        id == nodes.len() + 1,
        nodes.len() + 1 <= usize::MAX,
    ensures
        spec_observe(
            nodes.push((Node { kind: Kind::Var((Var { value })), last_changed_epoch: stamp, id })),
            id,
        ) == Ok::<i64, Error>(value),
{
}

/// The incremental engine: the node store, the node identifier generator, and
/// the stabilization epoch counter.  Single-threaded: callers needing
/// concurrent access must serialize it externally.
pub struct Incremental<C> {
    /// The node store.
    pub store: Store<C>,
    /// Issues node identifiers; always in step with the store's node count.
    pub node_ids: Id,
    /// Issues stabilization epochs; its last value is the current epoch.
    pub epoch_ids: Id,
}

impl<C: Combine2> Incremental<C> {
    /// The current stabilization epoch: how many passes have completed.
    pub open spec fn epoch(self) -> nat {
        self.epoch_ids.last as nat
    }

    /// The engine's invariant, established by `new` and preserved by every
    /// operation.  Cache coherence is guaranteed only while the edge set is
    /// sortable: a failed pass consumes an epoch without touching any node,
    /// and once a cycle is present — cycles are permanent, since the graph
    /// only grows — no pass can succeed again, so no stale cache can ever be
    /// observed through a completed pass.
    pub open spec fn inv(self) -> bool {
        &&& self.store.wf()
        &&& self.node_ids.last == self.store.nodes@.len()
        &&& epochs_ok(self.store.nodes@, self.epoch())
        &&& computed_ok(self.store.nodes@)
        &&& (sortable(self.store.edges@, self.store.nodes@.len() as nat) ==> caches_ok(
            self.store.nodes@,
            self.epoch(),
        ))
    }

    /// An empty engine at epoch 0.
    pub fn new() -> (r: Incremental<C>)
        ensures
            r.inv(),
            r.store.nodes@ == Seq::<Node<C>>::empty(),
            r.store.edges@ == Seq::<(usize, usize)>::empty(),
            r.epoch_ids.last == 0,
    {
        Incremental { store: Store::new(), node_ids: Id::new(), epoch_ids: Id::new() }
    }

    /// Create an input node holding `value` and return its handle.  The node
    /// is stamped with the current epoch: a fresh input counts as up to date
    /// until it is set again, and is readable at once.
    pub fn create_input(&mut self, value: i64) -> (h: Handle)
        requires
            old(self).inv(),
            old(self).store.nodes@.len() < usize::MAX,
        ensures
            final(self).inv(),
            h.id == old(self).store.nodes@.len() + 1,
            final(self).store.nodes@ == old(self).store.nodes@.push(
                (Node {
                    kind: Kind::Var((Var { value })),
                    last_changed_epoch: old(self).epoch_ids.last,
                    id: h.id,
                }),
            ),
            final(self).store.edges@ == old(self).store.edges@,
            final(self).epoch_ids == old(self).epoch_ids,
    {
        let id = match self.node_ids.next() {
            Ok(i) => i,
            Err(_) => unreached(),
        };
        let sid = self.store.add_node(Kind::Var(Var::new(value)));
        let cur = self.epoch_ids.last;
        self.store.set_epoch(sid - 1, cur);
        proof {
            let nodes1 = self.store.nodes@;
            let nodes0 = old(self).store.nodes@;
            let nn = (Node {
                kind: Kind::Var((Var { value })),
                last_changed_epoch: cur,
                id: sid,
            });
            assert(nodes1 =~= nodes0.push(nn));
            assert forall|j: int| 0 <= j < nodes0.len() implies nodes1[j] == nodes0[j] by {}
            assert forall|j: int| 0 <= j < nodes1.len() implies node_val(nodes1, j) == (
            if j < nodes0.len() {
                node_val(nodes0, j)
            } else {
                Some(value)
            }) by {}
            if sortable(self.store.edges@, nodes1.len() as nat) {
                // a sortable grown graph restricts to a sortable original
                assert forall|k: int|
                    0 <= k < self.store.edges@.len() implies self.store.edges@.contains(
                    #[trigger] self.store.edges@[k],
                ) by {}
                lemma_sortable_shrink(self.store.edges@, nodes0.len() as nat, self.store.edges@);
            }
            assert(self.inv());
        }
        Handle { id }
    }

    /// Create a derived node that combines the values of `a` and `b` with the
    /// pure function `f`, record the two dependency edges, and return its
    /// handle.  The node is not yet computed (stamp 0, empty cache).  Fails
    /// with `UnknownNode`, changing nothing, exactly when either handle does
    /// not name a node of this engine.
    pub fn combine2(&mut self, a: Handle, b: Handle, f: C) -> (r: Result<Handle, Error>)
        requires
            old(self).inv(),
            old(self).store.nodes@.len() < usize::MAX,
        ensures
            final(self).inv(),
            !(1 <= a.id <= old(self).store.nodes@.len() && 1 <= b.id <= old(
                self,
            ).store.nodes@.len()) ==> {
                &&& r == Err::<Handle, Error>(Error::UnknownNode)
                &&& *final(self) == *old(self)
            },
            (1 <= a.id <= old(self).store.nodes@.len() && 1 <= b.id <= old(
                self,
            ).store.nodes@.len()) ==> match r {
                Ok(h) => {
                    &&& h.id == old(self).store.nodes@.len() + 1
                    &&& final(self).store.nodes@ == old(self).store.nodes@.push(
                        (Node {
                            kind: Kind::Map2((Map2 { a: a.id, b: b.id, f, cached: None })),
                            last_changed_epoch: 0,
                            id: h.id,
                        }),
                    )
                    &&& final(self).store.edges@ == old(self).store.edges@.push(
                        (a.id, h.id),
                    ).push((b.id, h.id))
                    &&& final(self).epoch_ids == old(self).epoch_ids
                },
                Err(_) => false,
            },
    {
        let n = self.store.nodes.len();
        if !(1 <= a.id && a.id <= n && 1 <= b.id && b.id <= n) {
            return Err(Error::UnknownNode);
        }
        let id = match self.node_ids.next() {
            Ok(i) => i,
            Err(_) => unreached(),
        };
        let sid = self.store.add_node(Kind::Map2(Map2::new(a.id, b.id, f)));
        match self.store.add_edge(a.id, sid) {
            Ok(()) => (),
            Err(_) => unreached(),
        }
        match self.store.add_edge(b.id, sid) {
            Ok(()) => (),
            Err(_) => unreached(),
        }
        proof {
            let nodes1 = self.store.nodes@;
            let nodes0 = old(self).store.nodes@;
            let edges1 = self.store.edges@;
            let edges0 = old(self).store.edges@;
            assert forall|j: int| 0 <= j < nodes0.len() implies nodes1[j] == nodes0[j] by {}
            assert forall|k: int| 0 <= k < edges0.len() implies edges1[k] == edges0[k] by {}
            assert(edges1[edges0.len() as int] == (a.id, sid));
            assert(edges1[edges0.len() as int + 1] == (b.id, sid));
            assert forall|i: int|
                0 <= i < nodes1.len() implies match (#[trigger] nodes1[i]).kind {
                Kind::Map2(m) => has_edge(edges1, m.a, (i + 1) as usize) && has_edge(
                    edges1,
                    m.b,
                    (i + 1) as usize,
                ),
                Kind::Var(_) => true,
            } by {
                if i < nodes0.len() {
                    match nodes0[i].kind {
                        Kind::Map2(m) => {
                            let ka = choose|k: int|
                                0 <= k < edges0.len() && edges0[k] == (m.a, (i + 1) as usize);
                            assert(edges1[ka] == (m.a, (i + 1) as usize));
                            let kb = choose|k: int|
                                0 <= k < edges0.len() && edges0[k] == (m.b, (i + 1) as usize);
                            assert(edges1[kb] == (m.b, (i + 1) as usize));
                        },
                        Kind::Var(_) => {},
                    }
                }
            }
            assert forall|j: int| 0 <= j < nodes1.len() implies node_val(nodes1, j) == (
            if j < nodes0.len() {
                node_val(nodes0, j)
            } else {
                None::<i64>
            }) by {}
            if sortable(edges1, nodes1.len() as nat) {
                // a sortable grown graph restricts to a sortable original
                assert forall|k: int|
                    0 <= k < edges0.len() implies edges1.contains(#[trigger] edges0[k]) by {
                    assert(edges1[k] == edges0[k]);
                }
                lemma_sortable_shrink(edges0, nodes0.len() as nat, edges1);
            }
            assert(self.inv());
        }
        Ok(Handle { id })
    }

    /// Overwrite the value of the input node `h` and stamp it with the epoch
    /// the next stabilization pass will use, marking its dependents stale.
    /// Fails with `UnknownNode` for a foreign handle and with `TypeMismatch`
    /// when `h` names a derived node; in both cases nothing changes.
    pub fn set_input(&mut self, h: Handle, value: i64) -> (r: Result<(), Error>)
        requires
            old(self).inv(),
            old(self).epoch_ids.last < usize::MAX,
        ensures
            final(self).inv(),
            !(1 <= h.id <= old(self).store.nodes@.len()) ==> {
                &&& r == Err::<(), Error>(Error::UnknownNode)
                &&& *final(self) == *old(self)
            },
            (1 <= h.id <= old(self).store.nodes@.len() && old(self).store.nodes@[h.id
                - 1].kind is Map2) ==> {
                &&& r == Err::<(), Error>(Error::TypeMismatch)
                &&& *final(self) == *old(self)
            },
            (1 <= h.id <= old(self).store.nodes@.len() && old(self).store.nodes@[h.id
                - 1].kind is Var) ==> {
                &&& r == Ok::<(), Error>(())
                &&& final(self).store.nodes@ == old(self).store.nodes@.update(
                    h.id - 1,
                    (Node {
                        kind: Kind::Var((Var { value })),
                        last_changed_epoch: (old(self).epoch_ids.last + 1) as usize,
                        id: h.id,
                    }),
                )
                &&& final(self).store.edges@ == old(self).store.edges@
                &&& final(self).epoch_ids == old(self).epoch_ids
                &&& final(self).node_ids == old(self).node_ids
            },
    {
        let n = self.store.nodes.len();
        if !(1 <= h.id && h.id <= n) {
            return Err(Error::UnknownNode);
        }
        if !self.store.is_var(h.id - 1) {
            return Err(Error::TypeMismatch);
        }
        let next_epoch = self.epoch_ids.last + 1;
        self.store.set_var(h.id - 1, value, next_epoch);
        proof {
            let nodes1 = self.store.nodes@;
            let nodes0 = old(self).store.nodes@;
            let hi = h.id - 1;
            assert forall|j: int| 0 <= j < nodes1.len() && j != hi implies nodes1[j] == nodes0[j]
                by {}
            assert forall|j: int| 0 <= j < nodes1.len() implies node_val(nodes1, j) == (
            if j == hi {
                Some(value)
            } else {
                node_val(nodes0, j)
            }) by {}
            assert(self.inv());
        }
        Ok(())
    }

    /// One stabilization pass: order the whole graph topologically, allocate
    /// the next epoch, and walk the order, recomputing exactly the derived
    /// nodes that have never been computed or one of whose dependencies ends
    /// this same pass with the new stamp; a recomputation whose value is
    /// unchanged keeps the old stamp, stopping propagation.  Every call
    /// consumes one epoch, a fresh value strictly greater than every earlier
    /// one of this engine.  Fails with `CycleDetected`, leaving every node —
    /// value, stamp, and edge — untouched, exactly when the edge set admits
    /// no topological order.  On success every node ends at `pass_node`, and
    /// every node's readable value equals its denotation.
    #[verifier::rlimit(100)]
    #[verifier::loop_isolation(false)]
    pub fn stabilize(&mut self) -> (r: Result<(), Error>)
        requires
            old(self).inv(),
            old(self).epoch_ids.last < usize::MAX,
            old(self).store.nodes@.len() < usize::MAX,
        ensures
            final(self).inv(),
            match r {
                Ok(()) => {
                    let nodes0 = old(self).store.nodes@;
                    let e = (old(self).epoch_ids.last + 1) as nat;
                    &&& sortable(old(self).store.edges@, nodes0.len() as nat)
                    &&& final(self).epoch_ids.last == old(self).epoch_ids.last + 1
                    &&& final(self).node_ids == old(self).node_ids
                    &&& final(self).store.edges@ == old(self).store.edges@
                    &&& final(self).store.nodes@.len() == nodes0.len()
                    &&& forall|i: int|
                        0 <= i < nodes0.len() ==> final(self).store.nodes@[i] == pass_node(
                            nodes0,
                            e,
                            i,
                        )
                    &&& forall|i: int|
                        0 <= i < nodes0.len() ==> node_val(final(self).store.nodes@, i) == Some(
                            denote(final(self).store.nodes@, i),
                        )
                },
                Err(err) => {
                    &&& final(self).store == old(self).store
                    &&& final(self).node_ids == old(self).node_ids
                    &&& final(self).epoch_ids.last == old(self).epoch_ids.last + 1
                    &&& match err {
                        Error::CycleDetected(left) => stalled(
                            old(self).store.edges@,
                            old(self).store.nodes@.len() as nat,
                            left@,
                        ),
                        _ => false,
                    }
                    &&& !sortable(
                        old(self).store.edges@,
                        old(self).store.nodes@.len() as nat,
                    )
                    &&& exists|p: Seq<usize>| is_cycle(old(self).store.edges@, p)
                },
            },
    {
        let n = self.store.nodes.len();
        let ghost nodes0 = self.store.nodes@;
        let ghost edges0 = self.store.edges@;
        let ghost c = self.epoch_ids.last as nat;
        // the epoch is consumed by every call, successful or not
        let e = match self.epoch_ids.next() {
            Ok(v) => v,
            Err(_) => unreached(),
        };
        let ghost ge = e as nat;
        let order = match self.store.topological_order() {
            Ok(o) => o,
            Err(err) => {
                return Err(err);
            },
        };
        proof {
            assert(sortable(edges0, n as nat));
            assert(caches_ok(nodes0, c));
        }
        let mut idx: usize = 0;
        while idx < n
            invariant
                0 <= idx <= n,
                self.store.nodes@.len() == n,
                self.store.edges@ == edges0,
                self.node_ids == old(self).node_ids,
                self.epoch_ids.last == e,
                forall|i: int|
                    0 <= i < n ==> {
                        let nd = #[trigger] self.store.nodes@[i];
                        if exists|k: int| 0 <= k < idx && order@[k] == i + 1 {
                            nd == pass_node(nodes0, ge, i)
                        } else {
                            nd == nodes0[i]
                        }
                    },
            decreases n - idx,
        {
            let id = order[idx];
            let i = id - 1;
            proof {
                assert(1 <= id <= n);
                // this node has not been processed yet: it occurs only once
                assert(self.store.nodes@[i as int] == nodes0[i as int]) by {
                    if exists|k: int| 0 <= k < idx && order@[k] == i + 1 {
                        let k = choose|k: int| 0 <= k < idx && order@[k] == i + 1;
                        assert(order@[k] == order@[idx as int]);
                        assert(false);
                    }
                }
            }
            if self.store.is_var(i) {
                // inputs are never recomputed by stabilization
                proof {
                    assert(self.store.nodes@[i as int] == pass_node(nodes0, ge, i as int));
                }
            } else {
                let deps = self.store.map2_deps(i);
                let da = deps.0;
                let db = deps.1;
                proof {
                    let m = nodes0[i as int].kind->Map2_0;
                    assert(1 <= m.a <= i as int && 1 <= m.b <= i as int);
                    // both dependencies were placed earlier in the order
                    assert(has_edge(edges0, m.a, id));
                    assert(has_edge(edges0, m.b, id));
                    let ka = choose|k: int| 0 <= k < edges0.len() && edges0[k] == (m.a, id);
                    assert(edges0[ka].1 == order@[idx as int]);
                    assert(exists|j: int| 0 <= j < idx && order@[j] == edges0[ka].0);
                    let kb = choose|k: int| 0 <= k < edges0.len() && edges0[k] == (m.b, id);
                    assert(edges0[kb].1 == order@[idx as int]);
                    assert(exists|j: int| 0 <= j < idx && order@[j] == edges0[kb].0);
                    assert(exists|k: int| 0 <= k < idx && order@[k] == da - 1 + 1);
                    assert(exists|k: int| 0 <= k < idx && order@[k] == db - 1 + 1);
                    assert(self.store.nodes@[da - 1] == pass_node(nodes0, ge, da - 1));
                    assert(self.store.nodes@[db - 1] == pass_node(nodes0, ge, db - 1));
                    lemma_pass_denote(nodes0, c, da - 1);
                    lemma_pass_denote(nodes0, c, db - 1);
                }
                let ea = self.store.read_epoch(da - 1);
                let eb = self.store.read_epoch(db - 1);
                let own = self.store.read_epoch(i);
                proof {
                    // the executable staleness test agrees with the pass spec
                    assert(ea == e <==> pass_epoch(nodes0, ge, da - 1) == ge);
                    assert(eb == e <==> pass_epoch(nodes0, ge, db - 1) == ge);
                    assert(own == nodes0[i as int].last_changed_epoch);
                }
                if own == 0 || ea == e || eb == e {
                    let va = match self.store.read_value(da - 1) {
                        Some(v) => v,
                        None => {
                            proof {
                                assert(false);
                            }
                            return Err(Error::DependencyNotReady);
                        },
                    };
                    let vb = match self.store.read_value(db - 1) {
                        Some(v) => v,
                        None => {
                            proof {
                                assert(false);
                            }
                            return Err(Error::DependencyNotReady);
                        },
                    };
                    let cand = self.store.combine_at(i, va, vb);
                    let cur = self.store.read_value(i);
                    let changed = match cur {
                        None => true,
                        Some(cv) => cand != cv,
                    };
                    let stamp = if changed {
                        e
                    } else {
                        own
                    };
                    let ghost pre = self.store.nodes@;
                    self.store.set_map2(i, cand, stamp);
                    proof {
                        let m = nodes0[i as int].kind->Map2_0;
                        assert(va == val_or(pass_value(nodes0, ge, m.a - 1)));
                        assert(vb == val_or(pass_value(nodes0, ge, m.b - 1)));
                        assert(pass_value(nodes0, ge, i as int) == Some(cand));
                        assert(pass_epoch(nodes0, ge, i as int) == stamp);
                        assert(self.store.nodes@[i as int] == pass_node(nodes0, ge, i as int));
                        assert forall|j: int| 0 <= j < n && j != i implies self.store.nodes@[j]
                            == pre[j] by {}
                    }
                } else {
                    proof {
                        // not stale: the pass spec keeps stamp and cache, so
                        // the untouched node already equals its target
                        assert(pass_epoch(nodes0, ge, i as int) == own);
                        assert(pass_value(nodes0, ge, i as int) == nodes0[i as int].kind->Map2_0.cached);
                        assert(self.store.nodes@[i as int] == pass_node(nodes0, ge, i as int));
                    }
                }
            }
            idx = idx + 1;
            proof {
                assert forall|i2: int| 0 <= i2 < n implies {
                    let nd = #[trigger] self.store.nodes@[i2];
                    if exists|k: int| 0 <= k < idx && order@[k] == i2 + 1 {
                        nd == pass_node(nodes0, ge, i2)
                    } else {
                        nd == nodes0[i2]
                    }
                } by {
                    if i2 == i as int {
                        assert(order@[idx - 1] == i2 + 1);
                    } else {
                        if exists|k: int| 0 <= k < idx && order@[k] == i2 + 1 {
                            let k = choose|k: int| 0 <= k < idx && order@[k] == i2 + 1;
                            assert(k != idx - 1);
                            assert(exists|k2: int| 0 <= k2 < idx - 1 && order@[k2] == i2 + 1);
                        }
                    }
                }
            }
        }
        proof {
            // all nodes processed
            assert forall|i: int| 0 <= i < n implies self.store.nodes@[i] == pass_node(
                nodes0,
                ge,
                i,
            ) by {
                assert(order@.contains((i + 1) as usize));
                let k = choose|k: int| 0 <= k < order@.len() && order@[k] == (i + 1) as usize;
                assert(order@[k] == i + 1);
            }
            let nodes1 = self.store.nodes@;
            // the pass preserves the graph structure
            assert(same_shape(nodes0, nodes1)) by {
                assert forall|j: int| 0 <= j < nodes0.len() implies {
                    let k1 = (#[trigger] nodes0[j]).kind;
                    let k2 = nodes1[j].kind;
                    match (k1, k2) {
                        (Kind::Var(v1), Kind::Var(v2)) => v1 == v2,
                        (Kind::Map2(m1), Kind::Map2(m2)) => m1.a == m2.a && m1.b == m2.b && m1.f
                            == m2.f,
                        _ => false,
                    }
                } by {
                    assert(nodes1[j] == pass_node(nodes0, ge, j));
                }
            }
            // every readable value is the denotation
            assert forall|i: int| 0 <= i < n implies node_val(nodes1, i) == Some(
                denote(nodes1, i),
            ) by {
                lemma_pass_denote(nodes0, c, i);
                lemma_denote_shape(nodes0, nodes1, i);
                assert(node_val(nodes1, i) == pass_value(nodes0, ge, i));
            }
            // the invariant holds at the new epoch
            assert(ids_ok(nodes1)) by {
                assert forall|i: int| 0 <= i < nodes1.len() implies (#[trigger] nodes1[i]).id == i
                    + 1 by {
                    assert(nodes1[i] == pass_node(nodes0, ge, i));
                }
            }
            assert(deps_ok(nodes1)) by {
                assert forall|i: int|
                    0 <= i < nodes1.len() implies match (#[trigger] nodes1[i]).kind {
                    Kind::Map2(m) => 1 <= m.a <= i && 1 <= m.b <= i,
                    Kind::Var(_) => true,
                } by {
                    assert(nodes1[i] == pass_node(nodes0, ge, i));
                }
            }
            assert forall|i: int|
                0 <= i < nodes1.len() implies match (#[trigger] nodes1[i]).kind {
                Kind::Map2(m) => has_edge(self.store.edges@, m.a, (i + 1) as usize) && has_edge(
                    self.store.edges@,
                    m.b,
                    (i + 1) as usize,
                ),
                Kind::Var(_) => true,
            } by {
                assert(nodes1[i] == pass_node(nodes0, ge, i));
            }
            assert(epochs_ok(nodes1, ge)) by {
                assert forall|i: int| 0 <= i < nodes1.len() implies {
                    let nd = #[trigger] nodes1[i];
                    &&& nd.last_changed_epoch <= ge + 1
                    &&& match nd.kind {
                        Kind::Map2(m) => nd.last_changed_epoch <= ge && (nd.last_changed_epoch == 0
                            <==> m.cached is None),
                        Kind::Var(_) => true,
                    }
                } by {
                    assert(nodes1[i] == pass_node(nodes0, ge, i));
                    lemma_pass_denote(nodes0, c, i);
                }
            }
            assert(computed_ok(nodes1)) by {
                assert forall|i: int|
                    0 <= i < nodes1.len() implies match (#[trigger] nodes1[i]).kind {
                    Kind::Map2(m) => nodes1[i].last_changed_epoch != 0 ==> node_val(
                        nodes1,
                        m.a - 1,
                    ) is Some && node_val(nodes1, m.b - 1) is Some,
                    Kind::Var(_) => true,
                } by {
                    assert(nodes1[i] == pass_node(nodes0, ge, i));
                    match nodes1[i].kind {
                        Kind::Map2(m) => {
                            assert(deps_ok(nodes1));
                            assert(node_val(nodes1, m.a - 1) == Some(denote(nodes1, m.a - 1)));
                            assert(node_val(nodes1, m.b - 1) == Some(denote(nodes1, m.b - 1)));
                        },
                        Kind::Var(_) => {},
                    }
                }
            }
            assert(caches_ok(nodes1, ge)) by {
                assert forall|i: int|
                    0 <= i < nodes1.len() implies match (#[trigger] nodes1[i]).kind {
                    Kind::Map2(m) => (nodes1[i].last_changed_epoch != 0 && nodes1[m.a
                        - 1].last_changed_epoch <= ge && nodes1[m.b - 1].last_changed_epoch <= ge)
                        ==> m.cached == Some(
                        m.f.spec_combine(
                            val_or(node_val(nodes1, m.a - 1)),
                            val_or(node_val(nodes1, m.b - 1)),
                        ),
                    ),
                    Kind::Var(_) => true,
                } by {
                    assert(nodes1[i] == pass_node(nodes0, ge, i));
                    match nodes1[i].kind {
                        Kind::Map2(m) => {
                            assert(1 <= m.a <= i && 1 <= m.b <= i);
                            assert(node_val(nodes1, i) == Some(denote(nodes1, i)));
                            assert(node_val(nodes1, m.a - 1) == Some(denote(nodes1, m.a - 1)));
                            assert(node_val(nodes1, m.b - 1) == Some(denote(nodes1, m.b - 1)));
                            assert(denote(nodes1, i) == m.f.spec_combine(
                                denote(nodes1, m.a - 1),
                                denote(nodes1, m.b - 1),
                            ));
                            assert(m.cached == node_val(nodes1, i));
                        },
                        Kind::Var(_) => {},
                    }
                }
            }
        }
        Ok(())
    }

    /// Read a node's current value: an input's stored value, or a derived
    /// node's cache.  Fails with `UnknownNode` for a foreign handle and with
    /// `NotYetComputed` for a derived node no pass has computed yet.  Inputs
    /// are readable without any stabilization.
    pub fn observe(&self, h: Handle) -> (r: Result<i64, Error>)
        ensures
            r == spec_observe(self.store.nodes@, h.id),
    {
        let n = self.store.nodes.len();
        if 1 <= h.id && h.id <= n {
            match self.store.read_value(h.id - 1) {
                Some(v) => Ok(v),
                None => Err(Error::NotYetComputed),
            }
        } else {
            Err(Error::UnknownNode)
        }
    }

    /// The stabilization epoch at which the node's value last changed; 0
    /// means it has never been computed.
    pub fn last_changed_epoch(&self, h: Handle) -> (r: Result<usize, Error>)
        ensures
            1 <= h.id <= self.store.nodes@.len() ==> r == Ok::<usize, Error>(
                self.store.nodes@[h.id - 1].last_changed_epoch,
            ),
            !(1 <= h.id <= self.store.nodes@.len()) ==> r == Err::<usize, Error>(
                Error::UnknownNode,
            ),
    {
        let n = self.store.nodes.len();
        if 1 <= h.id && h.id <= n {
            Ok(self.store.read_epoch(h.id - 1))
        } else {
            Err(Error::UnknownNode)
        }
    }
}

/// A state produced by one pass has the same graph structure as the state the
/// pass started from.
pub proof fn lemma_pass_same_shape<C: Combine2>(n0: Seq<Node<C>>, n1: Seq<Node<C>>, e: nat)
    requires
        n0.len() == n1.len(),
        forall|i: int| 0 <= i < n0.len() ==> n1[i] == pass_node(n0, e, i),
    ensures
        same_shape(n0, n1),
{
    assert forall|j: int| 0 <= j < n0.len() implies {
        let k1 = (#[trigger] n0[j]).kind;
        let k2 = n1[j].kind;
        match (k1, k2) {
            (Kind::Var(v1), Kind::Var(v2)) => v1 == v2,
            (Kind::Map2(m1), Kind::Map2(m2)) => m1.a == m2.a && m1.b == m2.b && m1.f == m2.f,
            _ => false,
        }
    } by {
        assert(n1[j] == pass_node(n0, e, j));
    }
}

proof fn lemma_demo_sortable(edges: Seq<(usize, usize)>)
    requires
        edges.len() == 4,
        edges[0] == (1usize, 3usize),
        edges[1] == (2usize, 3usize),
        edges[2] == (4usize, 5usize),
        edges[3] == (3usize, 5usize),
    ensures
        sortable(edges, 5nat),
{
    let ord = seq![1usize, 2usize, 3usize, 4usize, 5usize];
    assert(ord[0] == 1 && ord[1] == 2 && ord[2] == 3 && ord[3] == 4 && ord[4] == 5);
    assert forall|k: int| 0 <= k < 5 implies ord[k] == k + 1 by {}
    assert forall|id: usize| 1 <= id <= 5 implies ord.contains(id) by {
        assert(ord[id - 1] == id);
    }
    assert forall|k: int, ei: int|
        0 <= k < ord.len() && 0 <= ei < edges.len() && (#[trigger] edges[ei]).1
            == #[trigger] ord[k] implies exists|j: int| 0 <= j < k && ord[j] == edges[ei].0 by {
        assert(ord[k] == k + 1);
        if ei == 0 {
            assert(k == 2);
            assert(ord[0] == 1);
        } else if ei == 1 {
            assert(k == 2);
            assert(ord[1] == 2);
        } else if ei == 2 {
            assert(k == 4);
            assert(ord[3] == 4);
        } else {
            assert(k == 4);
            assert(ord[2] == 3);
        }
    }
    assert(valid_order(edges, 5nat, ord));
}

proof fn lemma_demo_value(nodes0: Seq<Node<IntFn>>, nodes1: Seq<Node<IntFn>>)
    requires
        nodes0.len() == 5,
        nodes0[0].kind == Kind::<IntFn>::Var((Var { value: 3 })),
        nodes0[1].kind == Kind::<IntFn>::Var((Var { value: 5 })),
        nodes0[2].kind == Kind::Map2((Map2 { a: 1, b: 2, f: IntFn::Add, cached: None })),
        nodes0[3].kind == Kind::<IntFn>::Var((Var { value: 1 })),
        nodes0[4].kind == Kind::Map2((Map2 { a: 4, b: 3, f: IntFn::Add, cached: None })),
        nodes1.len() == 5,
        forall|i: int| 0 <= i < 5 ==> nodes1[i] == pass_node(nodes0, 1nat, i),
        forall|i: int| 0 <= i < 5 ==> node_val(nodes1, i) == Some(denote(nodes1, i)),
    ensures
        node_val(nodes1, 4) == Some(9i64),
{
    assert(denote(nodes0, 0) == 3);
    assert(denote(nodes0, 1) == 5);
    assert(denote(nodes0, 2) == 8);
    assert(denote(nodes0, 3) == 1);
    assert(denote(nodes0, 4) == 9);
    lemma_pass_same_shape(nodes0, nodes1, 1nat);
    lemma_denote_shape(nodes0, nodes1, 4);
}

/// A demonstration run: inputs 3 and 5 combined by addition, the sum combined
/// with a third input 1, one stabilization, and the final node observed.  The
/// result is proved to be exactly `Ok(9)`.
#[verifier::rlimit(100)]
pub fn test_run() -> (r: Result<i64, Error>)
    ensures
        r == Ok::<i64, Error>(9),
{
    let mut incr = Incremental::<IntFn>::new();
    let a = incr.create_input(3);
    let b = incr.create_input(5);
    let c = match incr.combine2(a, b, IntFn::Add) {
        Ok(h) => h,
        Err(_) => unreached(),
    };
    let n = incr.create_input(1);
    let d = match incr.combine2(n, c, IntFn::Add) {
        Ok(h) => h,
        Err(_) => unreached(),
    };
    let ghost nodes0 = incr.store.nodes@;
    let ghost edges0 = incr.store.edges@;
    proof {
        assert(nodes0.len() == 5);
        assert(edges0.len() == 4);
        assert(edges0[0] == (1usize, 3usize));
        assert(edges0[1] == (2usize, 3usize));
        assert(edges0[2] == (4usize, 5usize));
        assert(edges0[3] == (3usize, 5usize));
        lemma_demo_sortable(edges0);
        assert(nodes0[0].kind == Kind::<IntFn>::Var((Var { value: 3 })));
        assert(nodes0[1].kind == Kind::<IntFn>::Var((Var { value: 5 })));
        assert(nodes0[2].kind == Kind::Map2((Map2 { a: 1, b: 2, f: IntFn::Add, cached: None })));
        assert(nodes0[3].kind == Kind::<IntFn>::Var((Var { value: 1 })));
        assert(nodes0[4].kind == Kind::Map2((Map2 { a: 4, b: 3, f: IntFn::Add, cached: None })));
    }
    match incr.stabilize() {
        Ok(()) => {},
        Err(_) => {
            return unreached();
        },
    }
    proof {
        lemma_demo_value(nodes0, incr.store.nodes@);
        assert(spec_observe(incr.store.nodes@, 5) == Ok::<i64, Error>(9));
    }
    incr.observe(d)
}

} // verus!
