//! Walks, reachability and acyclicity over the mathematical view of a graph.
//!
//! A graph is viewed as a `Map` from identifier to node model; an edge goes
//! from a node to each member of its `childs` sequence.  Everything the
//! library claims about cycles, roots and path uniqueness is stated with the
//! three predicates `edge`, `reaches` and `acyclic` defined here.

use vstd::prelude::*;

use crate::graph::NodeModel;

verus! {

/// One directed edge: `b` is listed among the children of `a`.
pub open spec fn edge(g: Map<u128, NodeModel>, a: u128, b: u128) -> bool {
    g.contains_key(a) && g[a].childs.contains(b)
}

/// A walk: a non-empty sequence of identifiers in which every step follows
/// an edge of the graph.  A single identifier is a walk from itself to
/// itself, whether or not the graph holds it.
pub open spec fn is_path(g: Map<u128, NodeModel>, p: Seq<u128>) -> bool {
    &&& p.len() >= 1
    &&& forall|i: int| 0 <= i < p.len() - 1 ==> edge(g, #[trigger] p[i], p[i + 1])
}

/// `b` can be reached from `a` by following zero or more edges.
pub open spec fn reaches(g: Map<u128, NodeModel>, a: u128, b: u128) -> bool {
    exists|p: Seq<u128>| #[trigger] is_path(g, p) && p.first() == a && p.last() == b
}

/// No walk of at least one edge returns to its starting point.
pub open spec fn acyclic(g: Map<u128, NodeModel>) -> bool {
    forall|p: Seq<u128>| #[trigger] is_path(g, p) && p.len() >= 2 ==> p.first() != p.last()
}

/// Reachability is reflexive: the one-element walk is its witness.
pub proof fn lemma_reaches_refl(g: Map<u128, NodeModel>, a: u128)
    ensures
        reaches(g, a, a),
{
    let p = seq![a];
    assert(is_path(g, p) && p.first() == a && p.last() == a);
}

/// A walk can be extended along one more edge.
pub proof fn lemma_reaches_step(g: Map<u128, NodeModel>, a: u128, b: u128, c: u128)
    requires
        reaches(g, a, b),
        edge(g, b, c),
    ensures
        reaches(g, a, c),
{
    let p = choose|p: Seq<u128>| #[trigger] is_path(g, p) && p.first() == a && p.last() == b;
    let q = p.push(c);
    assert forall|i: int| 0 <= i < q.len() - 1 implies edge(g, #[trigger] q[i], q[i + 1]) by {
        if i < p.len() - 1 {
            assert(edge(g, p[i], p[i + 1]));
        }
    }
    assert(is_path(g, q) && q.first() == a && q.last() == c);
}

/// Two walks that meet end to start concatenate to one walk.
pub proof fn lemma_path_concat(g: Map<u128, NodeModel>, p: Seq<u128>, q: Seq<u128>)
    requires
        is_path(g, p),
        is_path(g, q),
        p.last() == q.first(),
    ensures
        is_path(g, p + q.drop_first()),
        (p + q.drop_first()).first() == p.first(),
        (p + q.drop_first()).last() == q.last(),
{
    let r = p + q.drop_first();
    assert forall|i: int| 0 <= i < r.len() - 1 implies edge(g, #[trigger] r[i], r[i + 1]) by {
        if i < p.len() - 1 {
            assert(edge(g, p[i], p[i + 1]));
        } else if i == p.len() - 1 {
            assert(r[i] == p.last());
            assert(r[i + 1] == q[1]);
            assert(edge(g, q[0], q[1]));
        } else {
            let j = i - p.len();
            assert(r[i] == q[j + 1]);
            assert(r[i + 1] == q[j + 2]);
            assert(edge(g, q[j + 1], q[j + 2]));
        }
    }
    if q.len() == 1 {
        assert(r =~= p);
    } else {
        assert(r.last() == q.last());
    }
}

/// Every inner segment of a walk is itself a walk.
pub proof fn lemma_subpath(g: Map<u128, NodeModel>, p: Seq<u128>, i: int, j: int)
    requires
        is_path(g, p),
        0 <= i < j <= p.len(),
    ensures
        is_path(g, p.subrange(i, j)),
        p.subrange(i, j).first() == p[i],
        p.subrange(i, j).last() == p[j - 1],
{
    let s = p.subrange(i, j);
    assert forall|k: int| 0 <= k < s.len() - 1 implies edge(g, #[trigger] s[k], s[k + 1]) by {
        assert(edge(g, p[i + k], p[i + k + 1]));
    }
}

/// A set that contains `a` and is closed under edges traps every walk that
/// starts at `a`; anything outside the set is unreachable from `a`.
pub proof fn lemma_closed_set_blocks(g: Map<u128, NodeModel>, s: Set<u128>, a: u128, b: u128)
    requires
        s.contains(a),
        forall|x: u128, y: u128| s.contains(x) && #[trigger] edge(g, x, y) ==> s.contains(y),
        !s.contains(b),
    ensures
        !reaches(g, a, b),
{
    assert forall|p: Seq<u128>| #[trigger] is_path(g, p) && p.first() == a implies s.contains(
        p.last(),
    ) by {
        lemma_path_stays_in_closed_set(g, s, p);
    }
}

proof fn lemma_path_stays_in_closed_set(g: Map<u128, NodeModel>, s: Set<u128>, p: Seq<u128>)
    requires
        is_path(g, p),
        s.contains(p.first()),
        forall|x: u128, y: u128| s.contains(x) && #[trigger] edge(g, x, y) ==> s.contains(y),
    ensures
        s.contains(p.last()),
    decreases p.len(),
{
    if p.len() > 1 {
        assert(edge(g, p[0], p[1]));
        let q = p.drop_first();
        assert(is_path(g, q)) by {
            assert forall|i: int| 0 <= i < q.len() - 1 implies edge(g, #[trigger] q[i], q[i + 1]) by {
                assert(edge(g, p[i + 1], p[i + 2]));
            }
        }
        lemma_path_stays_in_closed_set(g, s, q);
    }
}

/// In an acyclic graph no walk repeats an identifier.
pub proof fn lemma_acyclic_path_no_dup(g: Map<u128, NodeModel>, p: Seq<u128>)
    requires
        acyclic(g),
        is_path(g, p),
    ensures
        p.no_duplicates(),
{
    assert forall|i: int, j: int| 0 <= i < j < p.len() implies p[i] != p[j] by {
        lemma_subpath(g, p, i, j + 1);
        let s = p.subrange(i, j + 1);
        assert(is_path(g, s) && s.len() >= 2);
    }
}

/// The graph after one edge insertion: `c` appended to the children of `p`.
pub open spec fn with_edge(g: Map<u128, NodeModel>, p: u128, c: u128) -> Map<u128, NodeModel> {
    g.insert(p, NodeModel { name: g[p].name, data: g[p].data, childs: g[p].childs.push(c) })
}

/// Appending one child adds exactly one edge.
pub proof fn lemma_with_edge_edges(g: Map<u128, NodeModel>, p: u128, c: u128)
    requires
        g.contains_key(p),
    ensures
        forall|x: u128, y: u128|
            #![trigger edge(with_edge(g, p, c), x, y)]
            edge(with_edge(g, p, c), x, y) <==> (edge(g, x, y) || (x == p && y == c)),
{
    let g2 = with_edge(g, p, c);
    assert forall|x: u128, y: u128| #![trigger edge(g2, x, y)]
        edge(g2, x, y) <==> (edge(g, x, y) || (x == p && y == c)) by {
        if x == p {
            let s = g[p].childs;
            assert(g2[p].childs == s.push(c));
            if edge(g2, x, y) {
                let i = choose|i: int| 0 <= i < s.push(c).len() && s.push(c)[i] == y;
                if i < s.len() {
                    assert(s[i] == y);
                } else {
                    assert(y == c);
                }
            }
            if edge(g, x, y) {
                let i = choose|i: int| 0 <= i < s.len() && s[i] == y;
                assert(s.push(c)[i] == y);
            }
            if y == c {
                assert(s.push(c)[s.len() as int] == y);
            }
        }
    }
}

/// A node with no children, inserted under a fresh key, adds no edge.
pub proof fn lemma_insert_isolated_edges(g: Map<u128, NodeModel>, id: u128, nm: NodeModel)
    requires
        !g.contains_key(id),
        nm.childs.len() == 0,
    ensures
        forall|x: u128, y: u128|
            #![trigger edge(g.insert(id, nm), x, y)]
            #![trigger edge(g, x, y)]
            edge(g.insert(id, nm), x, y) <==> edge(g, x, y),
{
    let g2 = g.insert(id, nm);
    assert forall|x: u128, y: u128| #![trigger edge(g2, x, y)] #![trigger edge(g, x, y)]
        edge(g2, x, y) <==> edge(g, x, y) by {
        if x == id {
            assert(!g2[id].childs.contains(y));
        }
    }
}

/// A walk survives into any graph with at least the same edges.
pub proof fn lemma_edges_subset_path(
    g1: Map<u128, NodeModel>,
    g2: Map<u128, NodeModel>,
    p: Seq<u128>,
)
    requires
        is_path(g1, p),
        forall|x: u128, y: u128| #[trigger] edge(g1, x, y) ==> edge(g2, x, y),
    ensures
        is_path(g2, p),
{
    assert forall|i: int| 0 <= i < p.len() - 1 implies edge(g2, #[trigger] p[i], p[i + 1]) by {
        assert(edge(g1, p[i], p[i + 1]));
    }
}

/// Graphs with the same edges have the same walks and the same cycles.
pub proof fn lemma_same_edges_same_reach(g1: Map<u128, NodeModel>, g2: Map<u128, NodeModel>)
    requires
        forall|x: u128, y: u128|
            #![trigger edge(g1, x, y)]
            #![trigger edge(g2, x, y)]
            edge(g1, x, y) <==> edge(g2, x, y),
    ensures
        forall|a: u128, b: u128| #[trigger] reaches(g1, a, b) <==> #[trigger] reaches(g2, a, b),
        acyclic(g1) <==> acyclic(g2),
{
    assert forall|a: u128, b: u128| #[trigger] reaches(g1, a, b) implies #[trigger] reaches(
        g2,
        a,
        b,
    ) by {
        let p = choose|p: Seq<u128>| #[trigger] is_path(g1, p) && p.first() == a && p.last() == b;
        lemma_edges_subset_path(g1, g2, p);
    }
    assert forall|a: u128, b: u128| #[trigger] reaches(g2, a, b) implies #[trigger] reaches(
        g1,
        a,
        b,
    ) by {
        let p = choose|p: Seq<u128>| #[trigger] is_path(g2, p) && p.first() == a && p.last() == b;
        lemma_edges_subset_path(g2, g1, p);
    }
    assert forall|p: Seq<u128>| #[trigger] is_path(g1, p) implies is_path(g2, p) by {
        lemma_edges_subset_path(g1, g2, p);
    }
    assert forall|p: Seq<u128>| #[trigger] is_path(g2, p) implies is_path(g1, p) by {
        lemma_edges_subset_path(g2, g1, p);
    }
}

/// A walk from `c` to `p` in the graph with the new edge `p -> c` yields one
/// already in the old graph: uses of the new edge only shorten it.
proof fn lemma_new_edge_unwind(
    g: Map<u128, NodeModel>,
    g2: Map<u128, NodeModel>,
    p: u128,
    c: u128,
    q: Seq<u128>,
)
    requires
        forall|x: u128, y: u128|
            #![trigger edge(g2, x, y)]
            edge(g2, x, y) <==> (edge(g, x, y) || (x == p && y == c)),
        is_path(g2, q),
        q.first() == c,
        q.last() == p,
    ensures
        reaches(g, c, p),
    decreases q.len(),
{
    if c == p {
        lemma_reaches_refl(g, c);
    } else if exists|i: int| 0 <= i < q.len() - 1 && (#[trigger] q[i]) == p && q[i + 1] == c {
        let i = choose|i: int| 0 <= i < q.len() - 1 && (#[trigger] q[i]) == p && q[i + 1] == c;
        lemma_subpath(g2, q, 0, i + 1);
        lemma_new_edge_unwind(g, g2, p, c, q.subrange(0, i + 1));
    } else {
        assert forall|i: int| 0 <= i < q.len() - 1 implies edge(g, #[trigger] q[i], q[i + 1]) by {
            assert(edge(g2, q[i], q[i + 1]));
        }
        assert(is_path(g, q));
    }
}

/// Inserting an edge whose target does not already reach its source keeps
/// the graph acyclic.
pub proof fn lemma_add_edge_acyclic(g: Map<u128, NodeModel>, p: u128, c: u128)
    requires
        acyclic(g),
        g.contains_key(p),
        !reaches(g, c, p),
    ensures
        acyclic(with_edge(g, p, c)),
{
    let g2 = with_edge(g, p, c);
    lemma_with_edge_edges(g, p, c);
    assert forall|q: Seq<u128>| #[trigger] is_path(g2, q) && q.len() >= 2 implies q.first()
        != q.last() by {
        if q.first() == q.last() {
            if exists|i: int| 0 <= i < q.len() - 1 && (#[trigger] q[i]) == p && q[i + 1] == c {
                let i = choose|i: int| 0 <= i < q.len() - 1 && (#[trigger] q[i]) == p && q[i + 1] == c;
                lemma_subpath(g2, q, i + 1, q.len() as int);
                lemma_subpath(g2, q, 0, i + 1);
                lemma_path_concat(g2, q.subrange(i + 1, q.len() as int), q.subrange(0, i + 1));
                let w = q.subrange(i + 1, q.len() as int) + q.subrange(0, i + 1).drop_first();
                assert(w.first() == c && w.last() == p);
                lemma_new_edge_unwind(g, g2, p, c, w);
            } else {
                assert forall|i: int| 0 <= i < q.len() - 1 implies edge(
                    g,
                    #[trigger] q[i],
                    q[i + 1],
                ) by {
                    assert(edge(g2, q[i], q[i + 1]));
                }
                assert(is_path(g, q));
            }
        }
    }
}

/// The graph is one tree grown downward from `root`: the root is a node, no
/// edge points at it, every node hangs off it, and no node has two parents.
pub open spec fn tree_rooted(g: Map<u128, NodeModel>, root: u128) -> bool {
    &&& g.contains_key(root)
    &&& forall|x: u128|
        #![trigger g.contains_key(x)]
        #![trigger reaches(g, root, x)]
        g.contains_key(x) ==> reaches(g, root, x)
    &&& forall|p: u128, c: u128| #[trigger] edge(g, p, c) ==> c != root
    &&& forall|p1: u128, p2: u128, c: u128|
        #![trigger edge(g, p1, c), edge(g, p2, c)]
        edge(g, p1, c) && edge(g, p2, c) ==> p1 == p2
}

/// Walks survive into a graph with at least the same edges.
pub proof fn lemma_reaches_monotone(
    g1: Map<u128, NodeModel>,
    g2: Map<u128, NodeModel>,
    a: u128,
    b: u128,
)
    requires
        forall|x: u128, y: u128| #[trigger] edge(g1, x, y) ==> edge(g2, x, y),
        reaches(g1, a, b),
    ensures
        reaches(g2, a, b),
{
    let p = choose|p: Seq<u128>| #[trigger] is_path(g1, p) && p.first() == a && p.last() == b;
    lemma_edges_subset_path(g1, g2, p);
}

/// A node without children reaches only itself.
pub proof fn lemma_no_childs_reaches(g: Map<u128, NodeModel>, a: u128, b: u128)
    requires
        reaches(g, a, b),
        g.contains_key(a) ==> g[a].childs.len() == 0,
    ensures
        a == b,
{
    let p = choose|p: Seq<u128>| #[trigger] is_path(g, p) && p.first() == a && p.last() == b;
    if p.len() >= 2 {
        assert(edge(g, p[0], p[1]));
    }
}

/// A single childless node is a tree.
pub proof fn lemma_tree_singleton(g: Map<u128, NodeModel>, root: u128, nm: NodeModel)
    requires
        g == Map::<u128, NodeModel>::empty().insert(root, nm),
        nm.childs.len() == 0,
    ensures
        tree_rooted(g, root),
{
    assert forall|x: u128| g.contains_key(x) implies reaches(g, root, x) by {
        assert(x == root);
        lemma_reaches_refl(g, root);
    }
    assert forall|p: u128, c: u128| #[trigger] edge(g, p, c) implies c != root by {
        assert(g[p].childs.len() == 0);
    }
    assert forall|p1: u128, p2: u128, c: u128|
        edge(g, p1, c) && edge(g, p2, c) implies p1 == p2 by {
        assert(g[p1].childs.len() == 0);
    }
}

/// Hanging a fresh childless node under an existing one keeps the graph a
/// tree with the same root.
pub proof fn lemma_tree_add_leaf(
    g: Map<u128, NodeModel>,
    root: u128,
    parent: u128,
    c: u128,
    nm: NodeModel,
)
    requires
        tree_rooted(g, root),
        forall|x: u128, y: u128| #[trigger] edge(g, x, y) ==> g.contains_key(y),
        g.contains_key(parent),
        !g.contains_key(c),
        nm.childs.len() == 0,
    ensures
        tree_rooted(with_edge(g.insert(c, nm), parent, c), root),
{
    let g1 = g.insert(c, nm);
    let g2 = with_edge(g1, parent, c);
    lemma_insert_isolated_edges(g, c, nm);
    lemma_with_edge_edges(g1, parent, c);
    assert(g1.contains_key(parent));
    assert forall|x: u128, y: u128| #[trigger] edge(g, x, y) implies edge(g2, x, y) by {
        assert(edge(g1, x, y));
    }
    assert(edge(g2, parent, c)) by {
        assert(edge(g1, parent, c) || (parent == parent && c == c));
    }
    assert forall|x: u128| g2.contains_key(x) implies reaches(g2, root, x) by {
        if x == c {
            assert(reaches(g, root, parent));
            lemma_reaches_monotone(g, g2, root, parent);
            lemma_reaches_step(g2, root, parent, c);
        } else {
            assert(g.contains_key(x));
            assert(reaches(g, root, x));
            lemma_reaches_monotone(g, g2, root, x);
        }
    }
    assert forall|p: u128, y: u128| #[trigger] edge(g2, p, y) implies y != root by {
        if !(p == parent && y == c) {
            assert(edge(g1, p, y));
            assert(edge(g, p, y));
        }
    }
    assert forall|p1: u128, p2: u128, y: u128|
        edge(g2, p1, y) && edge(g2, p2, y) implies p1 == p2 by {
        if y == c {
            assert(p1 == parent) by {
                if !(p1 == parent && y == c) {
                    assert(edge(g1, p1, y));
                    assert(edge(g, p1, c));
                    assert(g.contains_key(c));
                }
            }
            assert(p2 == parent) by {
                if !(p2 == parent && y == c) {
                    assert(edge(g1, p2, y));
                    assert(edge(g, p2, c));
                    assert(g.contains_key(c));
                }
            }
        } else {
            assert(edge(g1, p1, y) && edge(g1, p2, y));
            assert(edge(g, p1, y) && edge(g, p2, y));
        }
    }
}

/// In a finite acyclic graph a walk that ends inside the graph cannot be
/// longer than the number of nodes.
pub proof fn lemma_path_len_bound(g: Map<u128, NodeModel>, p: Seq<u128>)
    requires
        acyclic(g),
        g.dom().finite(),
        is_path(g, p),
        g.contains_key(p.last()),
    ensures
        p.len() <= g.dom().len(),
{
    lemma_acyclic_path_no_dup(g, p);
    p.unique_seq_to_set();
    assert forall|x: u128| p.to_set().contains(x) implies g.dom().contains(x) by {
        let i = choose|i: int| 0 <= i < p.len() && p[i] == x;
        if i < p.len() - 1 {
            assert(edge(g, p[i], p[i + 1]));
        }
    }
    assert(p.to_set().subset_of(g.dom()));
    vstd::set_lib::lemma_len_subset(p.to_set(), g.dom());
}

/// A walk that ends inside the graph extends to one that ends at a node
/// without children.
pub proof fn lemma_extend_to_leaf(g: Map<u128, NodeModel>, p: Seq<u128>)
    requires
        acyclic(g),
        g.dom().finite(),
        forall|x: u128, y: u128| #[trigger] edge(g, x, y) ==> g.contains_key(y),
        is_path(g, p),
        g.contains_key(p.last()),
    ensures
        exists|q: Seq<u128>|
            #![trigger is_path(g, q)]
            is_path(g, q) && q.first() == p.first() && q.len() >= p.len() && g.contains_key(
                q.last(),
            ) && g[q.last()].childs.len() == 0,
    decreases g.dom().len() + 1 - p.len(),
{
    lemma_path_len_bound(g, p);
    if g[p.last()].childs.len() == 0 {
        assert(is_path(g, p) && p.first() == p.first() && p.len() >= p.len() && g.contains_key(
            p.last(),
        ) && g[p.last()].childs.len() == 0);
    } else {
        let c = g[p.last()].childs[0];
        assert(g[p.last()].childs.contains(c));
        assert(edge(g, p.last(), c));
        let p2 = p.push(c);
        assert(is_path(g, p2)) by {
            assert forall|i: int| 0 <= i < p2.len() - 1 implies edge(g, #[trigger] p2[i], p2[i + 1]) by {
                if i < p.len() - 1 {
                    assert(edge(g, p[i], p[i + 1]));
                }
            }
        }
        assert(g.contains_key(c));
        lemma_path_len_bound(g, p2);
        lemma_extend_to_leaf(g, p2);
        let q = choose|q: Seq<u128>|
            #![trigger is_path(g, q)]
            is_path(g, q) && q.first() == p2.first() && q.len() >= p2.len() && g.contains_key(
                q.last(),
            ) && g[q.last()].childs.len() == 0;
        assert(q.first() == p.first());
    }
}

/// From an absent identifier the only walk is the trivial one.
pub proof fn lemma_absent_reaches_only_self(g: Map<u128, NodeModel>, a: u128, b: u128)
    requires
        !g.contains_key(a),
        reaches(g, a, b),
    ensures
        a == b,
{
    let p = choose|p: Seq<u128>| #[trigger] is_path(g, p) && p.first() == a && p.last() == b;
    if p.len() >= 2 {
        assert(edge(g, p[0], p[1]));
    }
}

} // verus!
