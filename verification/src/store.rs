//! The node store: owns all graph nodes and directed dependency edges,
//! indexed by a stable identifier, and answers "give me the nodes in
//! dependency order" with a verified topological sort.

use crate::kind::{Combine2, Kind, Map2, Var};
use crate::Error;
use vstd::pervasive::unreached;
use vstd::prelude::*;

verus! {

/// One graph vertex: its payload, the stabilization epoch at which its value
/// last changed (0 = never computed), and its unique identifier.
pub struct Node<C> {
    /// The payload: how to recompute and how to read the current value.
    pub kind: Kind<C>,
    /// The epoch at which the value last changed; 0 means "never computed".
    pub last_changed_epoch: usize,
    /// Unique, monotonically assigned at creation, immutable, never reused.
    pub id: usize,
}

impl<C> Node<C> {
    /// A fresh node that has never been computed.
    pub fn new(kind: Kind<C>, id: usize) -> (r: Node<C>)
        ensures
            r.kind == kind,
            r.last_changed_epoch == 0,
            r.id == id,
    {
        Node { kind, last_changed_epoch: 0, id }
    }
}

/// The currently readable value of the node at index `i`: an input's value,
/// or a derived node's cache (`None` until first computed).
pub open spec fn node_val<C>(nodes: Seq<Node<C>>, i: int) -> Option<i64> {
    match nodes[i].kind {
        Kind::Var(v) => Some(v.value),
        Kind::Map2(m) => m.cached,
    }
}

/// Every node's identifier is its position plus one: identifiers are issued
/// in insertion order starting at 1, and 0 stays free as the sentinel.
pub open spec fn ids_ok<C>(nodes: Seq<Node<C>>) -> bool {
    forall|i: int| 0 <= i < nodes.len() ==> (#[trigger] nodes[i]).id == i + 1
}

/// Every derived node depends only on nodes created strictly before it.
pub open spec fn deps_ok<C>(nodes: Seq<Node<C>>) -> bool {
    forall|i: int| 0 <= i < nodes.len() ==> match (#[trigger] nodes[i]).kind {
        Kind::Map2(m) => 1 <= m.a <= i && 1 <= m.b <= i,
        Kind::Var(_) => true,
    }
}

/// The edge set records that `v` depends on `u`.
pub open spec fn has_edge(edges: Seq<(usize, usize)>, u: usize, v: usize) -> bool {
    exists|k: int| 0 <= k < edges.len() && edges[k] == (u, v)
}

/// All edge endpoints name nodes that are present in the store.
pub open spec fn edges_ok(edges: Seq<(usize, usize)>, n: nat) -> bool {
    forall|k: int|
        0 <= k < edges.len() ==> {
            let ed = #[trigger] edges[k];
            1 <= ed.0 <= n && 1 <= ed.1 <= n
        }
}

/// `ord` is a topological order of the `n` nodes: it lists every identifier
/// exactly once, and every edge source appears strictly before its target.
pub open spec fn valid_order(edges: Seq<(usize, usize)>, n: nat, ord: Seq<usize>) -> bool {
    &&& ord.len() == n
    &&& forall|k: int| 0 <= k < ord.len() ==> 1 <= #[trigger] ord[k] <= n
    &&& ord.no_duplicates()
    &&& forall|id: usize| 1 <= id <= n ==> ord.contains(id)
    &&& forall|k: int, ei: int|
        0 <= k < ord.len() && 0 <= ei < edges.len() && (#[trigger] edges[ei]).1 == #[trigger] ord[k]
            ==> exists|j: int| 0 <= j < k && ord[j] == edges[ei].0
}

/// The edge set admits some topological order.
pub open spec fn sortable(edges: Seq<(usize, usize)>, n: nat) -> bool {
    exists|ord: Seq<usize>| valid_order(edges, n, ord)
}

/// `id` appears among the first `k` entries of `ord`.
pub open spec fn placed(ord: Seq<usize>, k: int, id: usize) -> bool {
    exists|j: int| 0 <= j < k && ord[j] == id
}

/// The insertion-order tie-break: the order takes, at every step, the
/// smallest identifier whose dependencies are all already placed.  So an
/// identifier smaller than the one taken at step `k`, and itself still
/// unplaced there, must have an unplaced dependency.  Together with
/// `valid_order` this pins the order down uniquely.
pub open spec fn insertion_tie_break(edges: Seq<(usize, usize)>, ord: Seq<usize>) -> bool {
    forall|k: int, id: usize|
        0 <= k < ord.len() && 1 <= id < #[trigger] ord[k] && !#[trigger] placed(ord, k, id)
            ==> exists|ei: int|
            0 <= ei < edges.len() && (#[trigger] edges[ei]).1 == id && !placed(ord, k, edges[ei].0)
}

/// `p` walks forward along edges.
pub open spec fn is_path(edges: Seq<(usize, usize)>, p: Seq<usize>) -> bool {
    forall|k: int| 0 <= k < p.len() - 1 ==> has_edge(edges, #[trigger] p[k], p[k + 1])
}

/// `p` is a cycle: a nonempty walk along edges back to its starting node.
pub open spec fn is_cycle(edges: Seq<(usize, usize)>, p: Seq<usize>) -> bool {
    &&& p.len() >= 2
    &&& p[0] == p[p.len() - 1]
    &&& is_path(edges, p)
}

/// The certificate the sort returns on failure: a nonempty set of node
/// identifiers each of which has a dependency inside the same set.  No
/// topological order can begin such a set, so none exists.
pub open spec fn stalled(edges: Seq<(usize, usize)>, n: nat, left: Seq<usize>) -> bool {
    &&& left.len() >= 1
    &&& forall|t: int| 0 <= t < left.len() ==> 1 <= #[trigger] left[t] <= n
    &&& forall|t: int|
        0 <= t < left.len() ==> exists|ei: int|
            0 <= ei < edges.len() && (#[trigger] edges[ei]).1 == #[trigger] left[t]
                && left.contains(edges[ei].0)
}

proof fn lemma_order_step(
    edges: Seq<(usize, usize)>,
    n: nat,
    o1: Seq<usize>,
    o2: Seq<usize>,
    t: int,
)
    requires
        valid_order(edges, n, o1),
        valid_order(edges, n, o2),
        insertion_tie_break(edges, o2),
        0 <= t < n,
        forall|j: int| 0 <= j < t ==> o1[j] == o2[j],
    ensures
        o1[t] >= o2[t],
{
    if o1[t] < o2[t] {
        let x = o1[t];
        assert(!placed(o1, t, x)) by {
            if placed(o1, t, x) {
                let j = choose|j: int| 0 <= j < t && o1[j] == x;
                lemma_no_dup_unique_index(o1, j, t);
            }
        }
        assert(!placed(o2, t, x)) by {
            if placed(o2, t, x) {
                let j = choose|j: int| 0 <= j < t && o2[j] == x;
                assert(o1[j] == x);
                assert(placed(o1, t, x));
            }
        }
        assert(1 <= x < o2[t]);
        let ei = choose|ei: int|
            0 <= ei < edges.len() && (#[trigger] edges[ei]).1 == x && !placed(o2, t, edges[ei].0);
        assert(edges[ei].1 == o1[t]);
        let j = choose|j: int| 0 <= j < t && o1[j] == edges[ei].0;
        assert(o2[j] == edges[ei].0);
        assert(placed(o2, t, edges[ei].0));
        assert(false);
    }
}

proof fn lemma_order_prefix(
    edges: Seq<(usize, usize)>,
    n: nat,
    o1: Seq<usize>,
    o2: Seq<usize>,
    k: int,
)
    requires
        valid_order(edges, n, o1),
        insertion_tie_break(edges, o1),
        valid_order(edges, n, o2),
        insertion_tie_break(edges, o2),
        0 <= k <= n,
    ensures
        forall|j: int| 0 <= j < k ==> o1[j] == o2[j],
    decreases k,
{
    if k > 0 {
        lemma_order_prefix(edges, n, o1, o2, k - 1);
        let t = k - 1;
        lemma_order_step(edges, n, o1, o2, t);
        lemma_order_step(edges, n, o2, o1, t);
    }
}

/// Law (deterministic traversal): the sort's contract pins its result down
/// uniquely.  Two sequences that both topologically order the nodes and both
/// break ties by insertion order are equal.
pub proof fn lemma_order_deterministic(
    edges: Seq<(usize, usize)>,
    n: nat,
    ord1: Seq<usize>,
    ord2: Seq<usize>,
)
    requires
        valid_order(edges, n, ord1),
        insertion_tie_break(edges, ord1),
        valid_order(edges, n, ord2),
        insertion_tie_break(edges, ord2),
    ensures
        ord1 == ord2,
{
    lemma_order_prefix(edges, n, ord1, ord2, n as int);
    assert(ord1 =~= ord2);
}

proof fn lemma_find_cycle(
    edges: Seq<(usize, usize)>,
    n: nat,
    left: Seq<usize>,
    p: Seq<usize>,
) -> (cyc: Seq<usize>)
    requires
        stalled(edges, n, left),
        p.len() >= 1,
        p.no_duplicates(),
        is_path(edges, p),
        forall|k: int| 0 <= k < p.len() ==> left.contains(#[trigger] p[k]),
    ensures
        is_cycle(edges, cyc),
    decreases left.to_set().difference(p.to_set()).len(),
{
    broadcast use vstd::set::group_set_axioms;

    // the path's first node has a dependency inside the stalled set
    assert(left.contains(p[0]));
    let t = choose|t: int| 0 <= t < left.len() && left[t] == p[0];
    let ei = choose|ei: int|
        0 <= ei < edges.len() && (#[trigger] edges[ei]).1 == left[t] && left.contains(
            edges[ei].0,
        );
    let u = edges[ei].0;
    assert(edges[ei] == (u, p[0]));
    assert(has_edge(edges, u, p[0]));
    if p.contains(u) {
        // the walk closed on itself: cut the loop out
        let i = choose|i: int| 0 <= i < p.len() && p[i] == u;
        let cyc = seq![u] + p.take(i + 1);
        assert(cyc.len() == i + 2);
        assert(cyc[0] == u);
        assert(cyc[cyc.len() - 1] == p.take(i + 1)[i]);
        assert(cyc[cyc.len() - 1] == u);
        assert forall|k: int| 0 <= k < cyc.len() - 1 implies has_edge(
            edges,
            #[trigger] cyc[k],
            cyc[k + 1],
        ) by {
            if k == 0 {
                assert(cyc[1] == p.take(i + 1)[0]);
                assert(cyc[1] == p[0]);
            } else {
                assert(cyc[k] == p.take(i + 1)[k - 1]);
                assert(cyc[k + 1] == p.take(i + 1)[k]);
                assert(cyc[k] == p[k - 1]);
                assert(cyc[k + 1] == p[k]);
                assert(has_edge(edges, p[k - 1], p[k]));
            }
        }
        assert(is_cycle(edges, cyc));
        cyc
    } else {
        // extend the walk at the front and keep looking
        let p2 = seq![u] + p;
        assert(p2[0] == u);
        assert forall|x: usize| p2.contains(x) <==> (p.contains(x) || x == u) by {
            if p.contains(x) {
                let j = choose|j: int| 0 <= j < p.len() && p[j] == x;
                assert(p2[j + 1] == x);
            }
            if x == u {
                assert(p2[0] == x);
            }
            if p2.contains(x) {
                let j = choose|j: int| 0 <= j < p2.len() && p2[j] == x;
                if j > 0 {
                    assert(p[j - 1] == x);
                }
            }
        }
        assert forall|k: int| 0 <= k < p2.len() implies left.contains(#[trigger] p2[k]) by {
            if k > 0 {
                assert(p2[k] == p[k - 1]);
            }
        }
        assert(p2.no_duplicates()) by {
            assert forall|x: int, y: int|
                0 <= x < p2.len() && 0 <= y < p2.len() && x != y implies p2[x] != p2[y] by {
                if x == 0 {
                    assert(p2[y] == p[y - 1]);
                } else if y == 0 {
                    assert(p2[x] == p[x - 1]);
                } else {
                    assert(p2[x] == p[x - 1]);
                    assert(p2[y] == p[y - 1]);
                }
            }
        }
        assert(is_path(edges, p2)) by {
            assert forall|k: int| 0 <= k < p2.len() - 1 implies has_edge(
                edges,
                #[trigger] p2[k],
                p2[k + 1],
            ) by {
                if k == 0 {
                    assert(p2[1] == p[0]);
                } else {
                    assert(p2[k] == p[k - 1]);
                    assert(p2[k + 1] == p[k]);
                    assert(has_edge(edges, p[k - 1], p[k]));
                }
            }
        }
        // the walk grew by one node of the stalled set, so what is left of
        // the set outside the walk shrank
        vstd::seq_lib::seq_to_set_is_finite(left);
        let d1 = left.to_set().difference(p.to_set());
        let d2 = left.to_set().difference(p2.to_set());
        assert(d1.finite());
        assert(p2.to_set() =~= p.to_set().insert(u));
        assert(d2 =~= d1.remove(u));
        assert(d1.contains(u));
        vstd::set::axiom_set_remove_len(d1, u);
        assert(d2.len() < d1.len());
        lemma_find_cycle(edges, n, left, p2)
    }
}

/// Law: the stall certificate is honest.  A nonempty set of nodes, each with
/// a dependency inside the same set, pins an actual cycle: some walk along
/// the edges returns to its starting node.
pub proof fn lemma_stalled_has_cycle(edges: Seq<(usize, usize)>, n: nat, left: Seq<usize>)
    requires
        stalled(edges, n, left),
    ensures
        exists|p: Seq<usize>| is_cycle(edges, p),
{
    let p0 = seq![left[0]];
    assert(p0[0] == left[0]);
    assert(left.contains(left[0]));
    assert forall|k: int| 0 <= k < p0.len() implies left.contains(#[trigger] p0[k]) by {}
    let cyc = lemma_find_cycle(edges, n, left, p0);
    assert(is_cycle(edges, cyc));
}

/// Growing the graph cannot repair a cycle: adding a node (with the next
/// identifier, `n + 1`) and further edges to an unsortable edge set leaves it
/// unsortable.  Stated contrapositively: an order for the grown graph
/// restricts to an order for the original one.
pub proof fn lemma_sortable_shrink(
    edges1: Seq<(usize, usize)>,
    n: nat,
    edges2: Seq<(usize, usize)>,
)
    requires
        n < usize::MAX,
        edges_ok(edges1, n),
        forall|k: int| 0 <= k < edges1.len() ==> edges2.contains(#[trigger] edges1[k]),
        sortable(edges2, n + 1),
    ensures
        sortable(edges1, n),
{
    let n2: nat = n + 1;
    let ord = choose|ord: Seq<usize>| valid_order(edges2, n2, ord);
    let big: usize = (n + 1) as usize;
    assert(ord.contains(big));
    let r = choose|r: int| 0 <= r < ord.len() && ord[r] == big;
    let ord2 = ord.remove(r);
    ord.remove_ensures(r);
    assert(ord2.len() == n);
    assert forall|k: int| 0 <= k < ord2.len() implies 1 <= #[trigger] ord2[k] <= n by {
        let pk: int = if k < r {
            k
        } else {
            k + 1
        };
        assert(ord2[k] == ord[pk]);
        if ord[pk] == big {
            lemma_no_dup_unique_index(ord, pk, r);
        }
    }
    assert(ord2.no_duplicates()) by {
        assert forall|x: int, y: int|
            0 <= x < ord2.len() && 0 <= y < ord2.len() && x != y implies ord2[x] != ord2[y] by {
            let px: int = if x < r {
                x
            } else {
                x + 1
            };
            let py: int = if y < r {
                y
            } else {
                y + 1
            };
            assert(ord2[x] == ord[px]);
            assert(ord2[y] == ord[py]);
        }
    }
    assert forall|id: usize| 1 <= id <= n implies ord2.contains(id) by {
        assert(ord.contains(id));
        let p = choose|p: int| 0 <= p < ord.len() && ord[p] == id;
        assert(p != r);
        if p < r {
            assert(ord2[p] == id);
        } else {
            assert(ord2[p - 1] == id);
        }
    }
    assert forall|k: int, ei: int|
        0 <= k < ord2.len() && 0 <= ei < edges1.len() && (#[trigger] edges1[ei]).1
            == #[trigger] ord2[k] implies exists|j: int| 0 <= j < k && ord2[j] == edges1[ei].0 by {
        let pk: int = if k < r {
            k
        } else {
            k + 1
        };
        assert(ord[pk] == ord2[k]);
        assert(edges2.contains(edges1[ei]));
        let ei2 = choose|e2: int| 0 <= e2 < edges2.len() && edges2[e2] == edges1[ei];
        assert(edges2[ei2].1 == ord[pk]);
        let j = choose|j: int| 0 <= j < pk && ord[j] == edges2[ei2].0;
        assert(1 <= edges1[ei].0 <= n);
        assert(j != r) by {
            if j == r {
                assert(ord[j] == big);
            }
        }
        if j < r {
            assert(ord2[j] == ord[j]);
            assert(j < k);
        } else {
            assert(ord2[j - 1] == ord[j]);
            assert(j - 1 < k);
        }
    }
    assert(valid_order(edges1, n, ord2));
}

/// Which node identifiers have all their incoming edges already satisfied by
/// processed (`done`) nodes.
pub open spec fn ready(edges: Seq<(usize, usize)>, done: Seq<bool>, id: usize) -> bool {
    forall|ei: int|
        0 <= ei < edges.len() && (#[trigger] edges[ei]).1 == id ==> done[edges[ei].0 - 1]
}

/// How many entries of `s` are true.
pub open spec fn count_true(s: Seq<bool>) -> nat
    decreases s.len(),
{
    if s.len() == 0 {
        0
    } else {
        count_true(s.drop_last()) + if s.last() {
            1nat
        } else {
            0nat
        }
    }
}

proof fn lemma_count_true_le(s: Seq<bool>)
    ensures
        count_true(s) <= s.len(),
    decreases s.len(),
{
    if s.len() > 0 {
        lemma_count_true_le(s.drop_last());
    }
}

proof fn lemma_count_true_update(s: Seq<bool>, i: int)
    requires
        0 <= i < s.len(),
        !s[i],
    ensures
        count_true(s.update(i, true)) == count_true(s) + 1,
    decreases s.len(),
{
    let t = s.update(i, true);
    if i == s.len() - 1 {
        assert(t.drop_last() =~= s.drop_last());
    } else {
        assert(t.drop_last() =~= s.drop_last().update(i, true));
        lemma_count_true_update(s.drop_last(), i);
    }
}

proof fn lemma_count_true_full(s: Seq<bool>)
    requires
        count_true(s) == s.len(),
    ensures
        forall|i: int| 0 <= i < s.len() ==> s[i],
    decreases s.len(),
{
    if s.len() > 0 {
        lemma_count_true_le(s.drop_last());
        assert(s.last());
        lemma_count_true_full(s.drop_last());
        assert forall|i: int| 0 <= i < s.len() implies s[i] by {
            if i < s.len() - 1 {
                assert(s.drop_last()[i] == s[i]);
            }
        }
    }
}

proof fn lemma_count_true_missing(s: Seq<bool>)
    requires
        count_true(s) < s.len(),
    ensures
        exists|i: int| 0 <= i < s.len() && !s[i],
    decreases s.len(),
{
    if !s.last() {
        assert(!s[s.len() - 1]);
    } else {
        lemma_count_true_missing(s.drop_last());
        let i = choose|i: int| 0 <= i < s.len() - 1 && !s.drop_last()[i];
        assert(!s[i]);
    }
}

proof fn lemma_push_contains<T>(s: Seq<T>, x: T, y: T)
    ensures
        s.push(x).contains(y) <==> (s.contains(y) || y == x),
{
    if s.contains(y) {
        let i = choose|i: int| 0 <= i < s.len() && s[i] == y;
        assert(s.push(x)[i] == y);
    }
    if y == x {
        assert(s.push(x)[s.len() as int] == y);
    }
    if s.push(x).contains(y) {
        let i = choose|i: int| 0 <= i < s.push(x).len() && s.push(x)[i] == y;
        if i < s.len() {
            assert(s[i] == y);
        }
    }
}

/// In a duplicate-free sequence, an element has a single index.
proof fn lemma_no_dup_unique_index<T>(s: Seq<T>, i: int, j: int)
    requires
        s.no_duplicates(),
        0 <= i < s.len(),
        0 <= j < s.len(),
        s[i] == s[j],
    ensures
        i == j,
{
}

/// Walking a path forward only moves strictly later in a topological order:
/// from a position of the path's last node, the path's first node is found at
/// least `p.len() - 1` positions earlier.
proof fn lemma_path_positions(
    edges: Seq<(usize, usize)>,
    n: nat,
    ord: Seq<usize>,
    p: Seq<usize>,
    k_last: int,
) -> (j: int)
    requires
        valid_order(edges, n, ord),
        is_path(edges, p),
        p.len() >= 1,
        0 <= k_last < ord.len(),
        ord[k_last] == p[p.len() - 1],
    ensures
        0 <= j,
        j + p.len() - 1 <= k_last,
        ord[j] == p[0],
    decreases p.len(),
{
    if p.len() == 1 {
        k_last
    } else {
        assert(has_edge(edges, p[p.len() - 2], p[p.len() - 1]));
        let ei = choose|ei: int|
            0 <= ei < edges.len() && edges[ei] == (p[p.len() - 2], p[p.len() - 1]);
        assert(edges[ei].1 == ord[k_last]);
        let j2 = choose|j2: int| 0 <= j2 < k_last && ord[j2] == edges[ei].0;
        let q = p.drop_last();
        assert(q.len() == p.len() - 1);
        assert forall|k: int| 0 <= k < q.len() - 1 implies has_edge(edges, #[trigger] q[k], q[k + 1]) by {
            assert(q[k] == p[k]);
            assert(q[k + 1] == p[k + 1]);
        }
        assert(ord[j2] == q[q.len() - 1]);
        let j = lemma_path_positions(edges, n, ord, q, j2);
        assert(q[0] == p[0]);
        j
    }
}

/// Law: an edge set that contains a cycle admits no topological order.
pub proof fn lemma_cycle_unsortable(edges: Seq<(usize, usize)>, n: nat, p: Seq<usize>)
    requires
        edges_ok(edges, n),
        is_cycle(edges, p),
    ensures
        !sortable(edges, n),
{
    if sortable(edges, n) {
        let ord = choose|ord: Seq<usize>| valid_order(edges, n, ord);
        assert(has_edge(edges, p[0], p[1]));
        let e0 = choose|k: int| 0 <= k < edges.len() && edges[k] == (p[0], p[1]);
        assert(1 <= p[0] <= n);
        assert(ord.contains(p[0]));
        let k_last = choose|k: int| 0 <= k < ord.len() && ord[k] == p[0];
        assert(ord[k_last] == p[p.len() - 1]);
        let j = lemma_path_positions(edges, n, ord, p, k_last);
        assert(j + p.len() - 1 <= k_last);
        assert(j < k_last);
        assert(ord[j] == ord[k_last]);
        lemma_no_dup_unique_index(ord, j, k_last);
        assert(false);
    }
}

/// The index (into `left`) of the element whose position in `ord` is minimal.
proof fn lemma_min_position(ord: Seq<usize>, left: Seq<usize>) -> (r: (int, int))
    requires
        ord.no_duplicates(),
        left.len() >= 1,
        forall|t: int| 0 <= t < left.len() ==> ord.contains(#[trigger] left[t]),
    ensures
        0 <= r.0 < left.len(),
        0 <= r.1 < ord.len(),
        ord[r.1] == left[r.0],
        forall|t: int, k: int|
            0 <= t < left.len() && 0 <= k < ord.len() && ord[k] == left[t] ==> r.1 <= k,
    decreases left.len(),
{
    if left.len() == 1 {
        assert(ord.contains(left[0]));
        let k = choose|k: int| 0 <= k < ord.len() && ord[k] == left[0];
        assert forall|t: int, k2: int|
            0 <= t < left.len() && 0 <= k2 < ord.len() && ord[k2] == left[t] implies k <= k2 by {
            lemma_no_dup_unique_index(ord, k, k2);
        }
        (0, k)
    } else {
        let q = left.drop_last();
        assert forall|t: int| 0 <= t < q.len() implies ord.contains(#[trigger] q[t]) by {
            assert(q[t] == left[t]);
        }
        let r0 = lemma_min_position(ord, q);
        assert(ord.contains(left[left.len() - 1]));
        let kl = choose|k: int| 0 <= k < ord.len() && ord[k] == left[left.len() - 1];
        let r = if kl < r0.1 {
            (left.len() - 1, kl)
        } else {
            (r0.0, r0.1)
        };
        assert(q[r0.0] == left[r0.0]);
        assert forall|t: int, k2: int|
            0 <= t < left.len() && 0 <= k2 < ord.len() && ord[k2] == left[t] implies r.1 <= k2 by {
            if t < left.len() - 1 {
                assert(q[t] == left[t]);
                assert(r0.1 <= k2);
            } else {
                lemma_no_dup_unique_index(ord, kl, k2);
            }
        }
        r
    }
}

/// Law: a stalled set (each of its nodes depending on another in the set)
/// rules out every topological order.
pub proof fn lemma_stalled_unsortable(edges: Seq<(usize, usize)>, n: nat, left: Seq<usize>)
    requires
        edges_ok(edges, n),
        stalled(edges, n, left),
    ensures
        !sortable(edges, n),
{
    if sortable(edges, n) {
        let ord = choose|ord: Seq<usize>| valid_order(edges, n, ord);
        assert forall|t: int| 0 <= t < left.len() implies ord.contains(#[trigger] left[t]) by {
            assert(1 <= left[t] <= n);
        }
        let (tmin, kmin) = lemma_min_position(ord, left);
        let s = left[tmin];
        let ei = choose|ei: int|
            0 <= ei < edges.len() && (#[trigger] edges[ei]).1 == s && left.contains(edges[ei].0);
        let u = edges[ei].0;
        assert(edges[ei].1 == ord[kmin]);
        let j = choose|j: int| 0 <= j < kmin && ord[j] == edges[ei].0;
        let tu = choose|t: int| 0 <= t < left.len() && left[t] == u;
        assert(ord[j] == left[tu]);
        assert(kmin <= j);
        assert(false);
    }
}

/// The node store: owns nodes and edges.  Nodes are appended only; edges are
/// directed from a dependency to its dependent.  Cycles are not checked on
/// insertion (the check is deferred to [`Store::topological_order`]).
pub struct Store<C> {
    /// The nodes, in creation order; the node with identifier `id` sits at
    /// index `id - 1`.
    pub nodes: Vec<Node<C>>,
    /// The directed edges `(dependency, dependent)`, by identifier.
    pub edges: Vec<(usize, usize)>,
}

impl<C> Store<C> {
    /// Structural well-formedness: identifiers match positions, derived nodes
    /// depend on earlier nodes, edge endpoints exist, and each derived node's
    /// two dependencies are recorded as edges.
    pub open spec fn wf(self) -> bool {
        &&& ids_ok(self.nodes@)
        &&& deps_ok(self.nodes@)
        &&& edges_ok(self.edges@, self.nodes@.len() as nat)
        &&& forall|i: int|
            0 <= i < self.nodes@.len() ==> match (#[trigger] self.nodes@[i]).kind {
                Kind::Map2(m) => has_edge(self.edges@, m.a, (i + 1) as usize) && has_edge(
                    self.edges@,
                    m.b,
                    (i + 1) as usize,
                ),
                Kind::Var(_) => true,
            }
    }

    /// An empty store.
    pub fn new() -> (r: Store<C>)
        ensures
            r.nodes@ == Seq::<Node<C>>::empty(),
            r.edges@ == Seq::<(usize, usize)>::empty(),
            r.wf(),
    {
        Store { nodes: Vec::new(), edges: Vec::new() }
    }

    /// Append a node and return its identifier (its position plus one).
    pub fn add_node(&mut self, kind: Kind<C>) -> (id: usize)
        requires
            old(self).nodes@.len() < usize::MAX,
        ensures
            id == old(self).nodes@.len() + 1,
            final(self).nodes@ == old(self).nodes@.push(
                (Node { kind, last_changed_epoch: 0, id }),
            ),
            final(self).edges@ == old(self).edges@,
    {
        let id = self.nodes.len() + 1;
        let node = Node::new(kind, id);
        self.nodes.push(node);
        id
    }

    /// Record that `to` depends on `from`.  Fails with `UnknownNode` if
    /// either identifier is absent.  Does not itself check for cycles: the
    /// deferred check happens in [`Store::topological_order`].
    pub fn add_edge(&mut self, from: usize, to: usize) -> (r: Result<(), Error>)
        ensures
            1 <= from <= old(self).nodes@.len() && 1 <= to <= old(self).nodes@.len() ==> {
                &&& r == Ok::<(), Error>(())
                &&& final(self).edges@ == old(self).edges@.push((from, to))
                &&& final(self).nodes@ == old(self).nodes@
            },
            !(1 <= from <= old(self).nodes@.len() && 1 <= to <= old(self).nodes@.len()) ==> {
                &&& r == Err::<(), Error>(Error::UnknownNode)
                &&& *final(self) == *old(self)
            },
    {
        let n = self.nodes.len();
        if 1 <= from && from <= n && 1 <= to && to <= n {
            self.edges.push((from, to));
            Ok(())
        } else {
            Err(Error::UnknownNode)
        }
    }

    /// The currently readable value of the node at index `i`.
    pub fn read_value(&self, i: usize) -> (r: Option<i64>)
        requires
            i < self.nodes@.len(),
        ensures
            r == node_val(self.nodes@, i as int),
    {
        match &self.nodes[i].kind {
            Kind::Var(v) => Some(v.value),
            Kind::Map2(m) => m.cached,
        }
    }

    /// The stabilization stamp of the node at index `i`.
    pub fn read_epoch(&self, i: usize) -> (r: usize)
        requires
            i < self.nodes@.len(),
        ensures
            r == self.nodes@[i as int].last_changed_epoch,
    {
        self.nodes[i].last_changed_epoch
    }

    /// Whether the node at index `i` is an input.
    pub fn is_var(&self, i: usize) -> (r: bool)
        requires
            i < self.nodes@.len(),
        ensures
            r == (self.nodes@[i as int].kind is Var),
    {
        match &self.nodes[i].kind {
            Kind::Var(_) => true,
            Kind::Map2(_) => false,
        }
    }

    /// The two dependency identifiers of the derived node at index `i`.
    pub fn map2_deps(&self, i: usize) -> (r: (usize, usize))
        requires
            i < self.nodes@.len(),
            self.nodes@[i as int].kind is Map2,
        ensures
            r.0 == self.nodes@[i as int].kind->Map2_0.a,
            r.1 == self.nodes@[i as int].kind->Map2_0.b,
    {
        match &self.nodes[i].kind {
            Kind::Map2(m) => (m.a, m.b),
            Kind::Var(_) => unreached(),
        }
    }

    /// Overwrite the stabilization stamp of the node at index `i`.
    pub fn set_epoch(&mut self, i: usize, epoch: usize)
        requires
            i < old(self).nodes@.len(),
        ensures
            final(self).nodes@ == old(self).nodes@.update(
                i as int,
                (Node {
                    kind: old(self).nodes@[i as int].kind,
                    last_changed_epoch: epoch,
                    id: old(self).nodes@[i as int].id,
                }),
            ),
            final(self).edges@ == old(self).edges@,
    {
        let node = self.nodes.remove(i);
        let node = Node { kind: node.kind, last_changed_epoch: epoch, id: node.id };
        self.nodes.insert(i, node);
        proof {
            assert(self.nodes@ =~= old(self).nodes@.update(
                i as int,
                (Node {
                    kind: old(self).nodes@[i as int].kind,
                    last_changed_epoch: epoch,
                    id: old(self).nodes@[i as int].id,
                }),
            ));
        }
    }

    /// Overwrite the input node at index `i` with a new value and stamp.
    pub fn set_var(&mut self, i: usize, value: i64, epoch: usize)
        requires
            i < old(self).nodes@.len(),
            old(self).nodes@[i as int].kind is Var,
        ensures
            final(self).nodes@ == old(self).nodes@.update(
                i as int,
                (Node {
                    kind: Kind::Var((Var { value })),
                    last_changed_epoch: epoch,
                    id: old(self).nodes@[i as int].id,
                }),
            ),
            final(self).edges@ == old(self).edges@,
    {
        let node = self.nodes.remove(i);
        let node = Node { kind: Kind::Var(Var { value }), last_changed_epoch: epoch, id: node.id };
        self.nodes.insert(i, node);
        proof {
            assert(self.nodes@ =~= old(self).nodes@.update(
                i as int,
                (Node {
                    kind: Kind::Var((Var { value })),
                    last_changed_epoch: epoch,
                    id: old(self).nodes@[i as int].id,
                }),
            ));
        }
    }

    /// Overwrite the derived node at index `i` with a freshly computed cache
    /// value and stamp, keeping its dependencies and combining function.
    pub fn set_map2(&mut self, i: usize, value: i64, epoch: usize)
        requires
            i < old(self).nodes@.len(),
            old(self).nodes@[i as int].kind is Map2,
        ensures
            ({
                let m = old(self).nodes@[i as int].kind->Map2_0;
                final(self).nodes@ == old(self).nodes@.update(
                    i as int,
                    (Node {
                        kind: Kind::Map2((Map2 { a: m.a, b: m.b, f: m.f, cached: Some(value) })),
                        last_changed_epoch: epoch,
                        id: old(self).nodes@[i as int].id,
                    }),
                )
            }),
            final(self).edges@ == old(self).edges@,
    {
        let node = self.nodes.remove(i);
        let Node { kind, last_changed_epoch: _, id } = node;
        let kind = match kind {
            Kind::Map2(m) => Kind::Map2(Map2 { a: m.a, b: m.b, f: m.f, cached: Some(value) }),
            k => k,
        };
        let node = Node { kind, last_changed_epoch: epoch, id };
        self.nodes.insert(i, node);
        proof {
            let m = old(self).nodes@[i as int].kind->Map2_0;
            assert(self.nodes@ =~= old(self).nodes@.update(
                i as int,
                (Node {
                    kind: Kind::Map2((Map2 { a: m.a, b: m.b, f: m.f, cached: Some(value) })),
                    last_changed_epoch: epoch,
                    id: old(self).nodes@[i as int].id,
                }),
            ));
        }
    }

    /// Whether every dependency of `id` recorded in the edge set is done.
    #[verifier::loop_isolation(false)]
    fn deps_done(&self, done: &Vec<bool>, id: usize) -> (r: bool)
        requires
            self.wf(),
            done@.len() == self.nodes@.len(),
            1 <= id <= self.nodes@.len(),
        ensures
            r == ready(self.edges@, done@, id),
    {
        let m = self.edges.len();
        let mut ei: usize = 0;
        while ei < m
            invariant
                0 <= ei <= m,
                m == self.edges@.len(),
                forall|k: int|
                    0 <= k < ei && (#[trigger] self.edges@[k]).1 == id ==> done@[self.edges@[k].0
                        - 1],
            decreases m - ei,
        {
            let e = self.edges[ei];
            if e.1 == id && !done[e.0 - 1] {
                assert(!ready(self.edges@, done@, id));
                return false;
            }
            ei = ei + 1;
        }
        true
    }

    /// The smallest unprocessed identifier whose dependencies are all done,
    /// or 0 (the "none" sentinel) when no unprocessed node is ready.
    #[verifier::loop_isolation(false)]
    fn find_ready(&self, done: &Vec<bool>) -> (r: usize)
        requires
            self.wf(),
            self.nodes@.len() < usize::MAX,
            done@.len() == self.nodes@.len(),
        ensures
            r == 0 ==> forall|id: usize|
                1 <= id <= self.nodes@.len() && !done@[id - 1] ==> !ready(self.edges@, done@, id),
            r != 0 ==> {
                &&& 1 <= r <= self.nodes@.len()
                &&& !done@[r - 1]
                &&& ready(self.edges@, done@, r)
                &&& forall|id2: usize|
                    1 <= id2 < r && !done@[id2 - 1] ==> !ready(self.edges@, done@, id2)
            },
    {
        let n = self.nodes.len();
        let mut id: usize = 1;
        while id <= n
            invariant
                1 <= id <= n + 1,
                forall|j: usize| 1 <= j < id && !done@[j - 1] ==> !ready(self.edges@, done@, j),
            decreases n + 1 - id,
        {
            if !done[id - 1] && self.deps_done(done, id) {
                return id;
            }
            id = id + 1;
        }
        0
    }

    /// The unprocessed identifiers, as the certificate that the sort stalled:
    /// each of them has an unprocessed dependency, so each listed node has a
    /// dependency that is itself in the list.
    #[verifier::loop_isolation(false)]
    fn collect_stalled(&self, done: &Vec<bool>) -> (left: Vec<usize>)
        requires
            self.wf(),
            self.nodes@.len() < usize::MAX,
            done@.len() == self.nodes@.len(),
            count_true(done@) < self.nodes@.len(),
            forall|id: usize|
                1 <= id <= self.nodes@.len() && !done@[id - 1] ==> !ready(self.edges@, done@, id),
        ensures
            stalled(self.edges@, self.nodes@.len() as nat, left@),
    {
        let n = self.nodes.len();
        proof {
            lemma_count_true_missing(done@);
        }
        let mut left: Vec<usize> = Vec::new();
        let mut j: usize = 1;
        while j <= n
            invariant
                1 <= j <= n + 1,
                forall|t: int|
                    0 <= t < left@.len() ==> 1 <= #[trigger] left@[t] <= n && !done@[left@[t] - 1],
                forall|jj: usize| 1 <= jj < j && !done@[jj - 1] ==> left@.contains(jj),
            decreases n + 1 - j,
        {
            if !done[j - 1] {
                proof {
                    lemma_push_contains_all(left@, j);
                }
                left.push(j);
            }
            j = j + 1;
        }
        proof {
            let miss = choose|mi: int| 0 <= mi < done@.len() && !done@[mi];
            assert(left@.contains((miss + 1) as usize));
            assert(left@.len() >= 1);
            assert forall|t: int| 0 <= t < left@.len() implies exists|ei: int|
                0 <= ei < self.edges@.len() && (#[trigger] self.edges@[ei]).1 == #[trigger] left@[t]
                    && left@.contains(self.edges@[ei].0) by {
                let s = left@[t];
                assert(1 <= s <= n && !done@[s - 1]);
                assert(!ready(self.edges@, done@, s));
                let ei = choose|ei: int|
                    !(0 <= ei < self.edges@.len() && (#[trigger] self.edges@[ei]).1 == s
                        ==> done@[self.edges@[ei].0 - 1]);
                assert(0 <= ei < self.edges@.len() && self.edges@[ei].1 == s);
                assert(!done@[self.edges@[ei].0 - 1]);
                let u = self.edges@[ei].0;
                assert(1 <= u <= n);
                assert(left@.contains(u));
            }
        }
        left
    }

    /// The nodes in dependency order: for every edge `(u, v)`, `u` precedes
    /// `v`.  Nodes with no ordering constraint between them come in insertion
    /// order (lower identifier first).  Fails with `CycleDetected`, listing
    /// the identifiers that could not be ordered, exactly when the edge set
    /// admits no topological order.
    #[verifier::rlimit(80)]
    #[verifier::loop_isolation(false)]
    pub fn topological_order(&self) -> (r: Result<Vec<usize>, Error>)
        requires
            self.wf(),
            self.nodes@.len() < usize::MAX,
        ensures
            match r {
                Ok(ord) => valid_order(self.edges@, self.nodes@.len() as nat, ord@)
                    && insertion_tie_break(self.edges@, ord@),
                Err(e) => match e {
                    Error::CycleDetected(left) => {
                        &&& stalled(self.edges@, self.nodes@.len() as nat, left@)
                        &&& !sortable(self.edges@, self.nodes@.len() as nat)
                        &&& exists|p: Seq<usize>| is_cycle(self.edges@, p)
                    },
                    _ => false,
                },
            },
    {
        let n = self.nodes.len();
        let mut done: Vec<bool> = Vec::new();
        let mut i: usize = 0;
        while i < n
            invariant
                0 <= i <= n,
                done@.len() == i,
                forall|k: int| 0 <= k < i ==> !done@[k],
            decreases n - i,
        {
            done.push(false);
            i = i + 1;
        }
        proof {
            lemma_count_true_none(done@);
        }
        let mut order: Vec<usize> = Vec::new();
        while order.len() < n
            invariant
                done@.len() == n,
                order@.len() <= n,
                count_true(done@) == order@.len(),
                forall|k: int| 0 <= k < order@.len() ==> 1 <= #[trigger] order@[k] <= n,
                order@.no_duplicates(),
                forall|j: int| 0 <= j < n ==> (done@[j] <==> order@.contains((j + 1) as usize)),
                forall|k: int, ei: int|
                    0 <= k < order@.len() && 0 <= ei < self.edges@.len() && (
                    #[trigger] self.edges@[ei]).1 == #[trigger] order@[k] ==> exists|j: int|
                        0 <= j < k && order@[j] == self.edges@[ei].0,
                insertion_tie_break(self.edges@, order@),
            decreases n - order.len(),
        {
            let pick = self.find_ready(&done);
            if pick == 0 {
                // Stalled: every unprocessed node still has an unprocessed
                // dependency, so the edge set is cyclic.  Collect the
                // unprocessed identifiers as the certificate.
                let left = self.collect_stalled(&done);
                proof {
                    lemma_stalled_unsortable(self.edges@, n as nat, left@);
                    lemma_stalled_has_cycle(self.edges@, n as nat, left@);
                }
                return Err(Error::CycleDetected(left));
            }
            // `pick` is the smallest ready unprocessed identifier.
            proof {
                assert(!done@[pick - 1]);
                assert(!order@.contains(pick));
                lemma_count_true_update(done@, pick as int - 1);
                lemma_push_contains_all(order@, pick);
                assert forall|k: int|
                    0 <= k < order@.push(pick).len() && order@.push(pick)[k] != pick implies
                    order@.push(pick)[k] == order@[k] by {}
            }
            let ghost old_order = order@;
            let ghost old_done = done@;
            order.push(pick);
            done[pick - 1] = true;
            proof {
                // duplicate-freedom after the push
                assert forall|x: int, y: int|
                    0 <= x < order@.len() && 0 <= y < order@.len() && x != y implies order@[x]
                    != order@[y] by {
                    if x < old_order.len() && y < old_order.len() {
                    } else if x == old_order.len() {
                        assert(order@[y] == old_order[y]);
                        assert(!old_order.contains(pick));
                        if order@[y] == pick {
                            assert(old_order.contains(pick));
                        }
                    } else {
                        assert(order@[x] == old_order[x]);
                        if order@[x] == pick {
                            assert(old_order.contains(pick));
                        }
                    }
                }
                // done <==> contains, after flipping pick's flag
                assert forall|j: int| 0 <= j < n implies (done@[j] <==> order@.contains(
                    (j + 1) as usize,
                )) by {
                    lemma_push_contains_all(old_order, pick);
                    if j == pick - 1 {
                        assert(order@[old_order.len() as int] == pick);
                        assert(order@.contains(pick));
                    } else {
                        assert(done@[j] == old_done[j]);
                    }
                }
                // the tie-break is kept: earlier steps see the same prefix,
                // and the new step took the smallest ready identifier
                assert forall|k: int, id: usize|
                    0 <= k < order@.len() && 1 <= id < #[trigger] order@[k] && !#[trigger] placed(
                        order@,
                        k,
                        id,
                    ) implies exists|ei: int|
                    0 <= ei < self.edges@.len() && (#[trigger] self.edges@[ei]).1 == id && !placed(
                        order@,
                        k,
                        self.edges@[ei].0,
                    ) by {
                    if k < old_order.len() {
                        assert(order@[k] == old_order[k]);
                        assert(!placed(old_order, k, id)) by {
                            if placed(old_order, k, id) {
                                let j = choose|j: int| 0 <= j < k && old_order[j] == id;
                                assert(order@[j] == id);
                            }
                        }
                        let ei = choose|ei: int|
                            0 <= ei < self.edges@.len() && (#[trigger] self.edges@[ei]).1 == id
                                && !placed(old_order, k, self.edges@[ei].0);
                        assert(!placed(order@, k, self.edges@[ei].0)) by {
                            if placed(order@, k, self.edges@[ei].0) {
                                let j = choose|j: int|
                                    0 <= j < k && order@[j] == self.edges@[ei].0;
                                assert(old_order[j] == self.edges@[ei].0);
                            }
                        }
                        assert(0 <= ei < self.edges@.len() && self.edges@[ei].1 == id && !placed(
                            order@,
                            k,
                            self.edges@[ei].0,
                        ));
                    } else {
                        // the new step: identifiers below the pick that were
                        // unplaced were not ready
                        assert(order@[k] == pick);
                        assert(!old_done[id - 1]) by {
                            if old_done[id - 1] {
                                assert(old_order.contains(id));
                                let j = choose|j: int|
                                    0 <= j < old_order.len() && old_order[j] == id;
                                assert(order@[j] == id);
                                assert(placed(order@, k, id));
                            }
                        }
                        assert(!ready(self.edges@, old_done, id));
                        let ei = choose|ei: int|
                            !(0 <= ei < self.edges@.len() && (#[trigger] self.edges@[ei]).1 == id
                                ==> old_done[self.edges@[ei].0 - 1]);
                        assert(0 <= ei < self.edges@.len() && self.edges@[ei].1 == id
                            && !old_done[self.edges@[ei].0 - 1]);
                        let u = self.edges@[ei].0;
                        assert(1 <= u <= n);
                        assert(!placed(order@, k, u)) by {
                            if placed(order@, k, u) {
                                let j = choose|j: int| 0 <= j < k && order@[j] == u;
                                assert(old_order[j] == u);
                                assert(old_order.contains(u));
                                assert(old_done[u - 1]);
                            }
                        }
                        assert(0 <= ei < self.edges@.len() && self.edges@[ei].1 == id && !placed(
                            order@,
                            k,
                            u,
                        ));
                    }
                }
                // the order still respects all edges
                assert forall|k: int, ei: int|
                    0 <= k < order@.len() && 0 <= ei < self.edges@.len() && (
                    #[trigger] self.edges@[ei]).1 == #[trigger] order@[k] implies exists|j: int|
                    0 <= j < k && order@[j] == self.edges@[ei].0 by {
                    if k < old_order.len() {
                        assert(order@[k] == old_order[k]);
                        let j = choose|j: int| 0 <= j < k && old_order[j] == self.edges@[ei].0;
                        assert(order@[j] == self.edges@[ei].0);
                    } else {
                        // the new element: pick was ready, so the source of
                        // every edge into it was done, hence already placed
                        assert(order@[k] == pick);
                        assert(ready(self.edges@, old_done, pick));
                        assert(old_done[self.edges@[ei].0 - 1]);
                        assert(old_order.contains(self.edges@[ei].0));
                        let j = choose|j: int|
                            0 <= j < old_order.len() && old_order[j] == self.edges@[ei].0;
                        assert(order@[j] == self.edges@[ei].0);
                    }
                }
            }
        }
        proof {
            lemma_count_true_full(done@);
            assert forall|id: usize| 1 <= id <= n implies order@.contains(id) by {
                assert(done@[id - 1]);
            }
            assert(valid_order(self.edges@, n as nat, order@));
        }
        Ok(order)
    }
}

impl<C: Combine2> Store<C> {
    /// Apply the combining function of the derived node at index `i` to the
    /// two given dependency values.
    pub fn combine_at(&self, i: usize, va: i64, vb: i64) -> (r: i64)
        requires
            i < self.nodes@.len(),
            self.nodes@[i as int].kind is Map2,
        ensures
            r == self.nodes@[i as int].kind->Map2_0.f.spec_combine(va, vb),
    {
        match &self.nodes[i].kind {
            Kind::Map2(m) => m.f.combine(va, vb),
            Kind::Var(_) => unreached(),
        }
    }
}

proof fn lemma_count_true_none(s: Seq<bool>)
    requires
        forall|k: int| 0 <= k < s.len() ==> !s[k],
    ensures
        count_true(s) == 0,
    decreases s.len(),
{
    if s.len() > 0 {
        lemma_count_true_none(s.drop_last());
    }
}

/// Pushing extends containment: afterwards the sequence contains exactly what
/// it contained before, plus the new element.
proof fn lemma_push_contains_all<T>(s: Seq<T>, x: T)
    ensures
        forall|y: T| #[trigger] s.push(x).contains(y) <==> (s.contains(y) || y == x),
{
    assert forall|y: T| #[trigger] s.push(x).contains(y) <==> (s.contains(y) || y == x) by {
        lemma_push_contains(s, x, y);
    }
}

} // verus!
