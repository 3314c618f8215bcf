//! Independent structural validation of a finished graph.
//!
//! Nothing here trusts the generator's bookkeeping: roots are recomputed
//! from a fresh reverse adjacency, depths are re-derived by a backward walk
//! from the leaves, and the tree property is certified by a forward walk
//! that must meet every node exactly once.

use vstd::prelude::*;

use crate::graph::{
    AcyclicGraph, Node, NodeModel, has_parent, ids, ids_of_pairs, lemma_map_of_dom,
    lemma_map_of_index, lemma_sorted_ids_no_dup, sum_childs, vec_contains,
};
use crate::paths::{
    edge, is_path, lemma_closed_set_blocks, lemma_reaches_refl, lemma_reaches_step, reaches,
};

verus! {

/// The nodes with no incoming edge.
pub open spec fn roots_of(g: Map<u128, NodeModel>) -> Set<u128> {
    g.dom().filter(|x: u128| !has_parent(g, x))
}

/// What the forward walk certifies: no reachable node feeds an edge back
/// into `root`, and no node is fed by two reachable parents.  Over an
/// acyclic graph this says every reachable node is reached by exactly one
/// walk.
pub open spec fn single_path_from(g: Map<u128, NodeModel>, root: u128) -> bool {
    &&& forall|p: u128, c: u128| reaches(g, root, p) && #[trigger] edge(g, p, c) ==> c != root
    &&& forall|p1: u128, p2: u128, c: u128|
        #![trigger edge(g, p1, c), edge(g, p2, c)]
        reaches(g, root, p1) && reaches(g, root, p2) && edge(g, p1, c) && edge(g, p2, c) ==> p1
            == p2
}

/// A walk that ends at a childless node of the graph.
pub open spec fn leaf_path(g: Map<u128, NodeModel>, p: Seq<u128>) -> bool {
    &&& is_path(g, p)
    &&& g.contains_key(p.last())
    &&& g[p.last()].childs.len() == 0
}

/// `x` starts a walk of exactly `n` identifiers that ends at a leaf.
pub open spec fn has_leaf_path(g: Map<u128, NodeModel>, x: u128, n: int) -> bool {
    exists|p: Seq<u128>| #[trigger] leaf_path(g, p) && p.first() == x && p.len() == n
}

/// The concatenation of the child lists of a level's nodes, in order.
pub open spec fn next_level(g: Map<u128, NodeModel>, lvl: Seq<u128>) -> Seq<u128>
    decreases lvl.len(),
{
    if lvl.len() == 0 {
        Seq::empty()
    } else {
        (if g.contains_key(lvl.first()) {
            g[lvl.first()].childs
        } else {
            Seq::empty()
        }) + next_level(g, lvl.drop_first())
    }
}

/// The breadth-first layering from `root`: each level is the concatenation
/// of the previous level's child lists, levels are non-empty, and the walk
/// stops when a level would be empty.  These clauses pin the sequence down
/// uniquely.
pub open spec fn levels_shape(g: Map<u128, NodeModel>, root: u128, lv: Seq<Seq<u128>>) -> bool {
    &&& lv.len() >= 1
    &&& lv[0] == seq![root]
    &&& forall|i: int| 0 <= i < lv.len() - 1 ==> (#[trigger] lv[i + 1]) == next_level(g, lv[i])
    &&& forall|i: int| 0 <= i < lv.len() ==> (#[trigger] lv[i]).len() >= 1
    &&& next_level(g, lv[lv.len() - 1]).len() == 0
}

/// How many nodes have at least one child.
pub open spec fn count_branching(s: Seq<(u128, Node)>) -> int
    decreases s.len(),
{
    if s.len() == 0 {
        0
    } else {
        count_branching(s.drop_last()) + (if s.last().1.childs@.len() > 0 {
            1int
        } else {
            0int
        })
    }
}

/// Total width of the levels below the root's.
pub open spec fn sum_widths(lv: Seq<Seq<u128>>) -> int
    decreases lv.len(),
{
    if lv.len() == 0 {
        0
    } else {
        sum_widths(lv.drop_last()) + lv.last().len()
    }
}

/// A walk to a leaf starts inside the graph.
proof fn lemma_leaf_path_starts_in(g: Map<u128, NodeModel>, p: Seq<u128>)
    requires
        leaf_path(g, p),
    ensures
        g.contains_key(p.first()),
{
    if p.len() >= 2 {
        assert(edge(g, p[0], p[1]));
    }
}

/// A leaf walk is no longer than the node count.
proof fn lemma_hlp_bound(g: Map<u128, NodeModel>, x: u128, n: int)
    requires
        crate::paths::acyclic(g),
        g.dom().finite(),
        has_leaf_path(g, x, n),
    ensures
        1 <= n <= g.dom().len(),
{
    let p = choose|p: Seq<u128>| #[trigger] leaf_path(g, p) && p.first() == x && p.len() == n;
    crate::paths::lemma_path_len_bound(g, p);
}

/// Chopping the first node off a leaf walk of two or more nodes leaves a
/// leaf walk from some child.
proof fn lemma_hlp_step_down(g: Map<u128, NodeModel>, y: u128, n: int)
    requires
        has_leaf_path(g, y, n),
        n >= 2,
    ensures
        exists|x: u128| #[trigger] edge(g, y, x) && has_leaf_path(g, x, n - 1),
{
    let p = choose|p: Seq<u128>| #[trigger] leaf_path(g, p) && p.first() == y && p.len() == n;
    let q = p.drop_first();
    assert(edge(g, p[0], p[1]));
    assert(is_path(g, q)) by {
        assert forall|i: int| 0 <= i < q.len() - 1 implies edge(g, #[trigger] q[i], q[i + 1]) by {
            assert(edge(g, p[i + 1], p[i + 2]));
        }
    }
    assert(q.last() == p.last());
    assert(leaf_path(g, q) && q.first() == p[1] && q.len() == n - 1);
    assert(has_leaf_path(g, p[1], n - 1));
}

/// Prefixing a parent onto a leaf walk lengthens it by one.
proof fn lemma_hlp_step_up(g: Map<u128, NodeModel>, y: u128, x: u128, n: int)
    requires
        edge(g, y, x),
        has_leaf_path(g, x, n),
    ensures
        has_leaf_path(g, y, n + 1),
{
    let p = choose|p: Seq<u128>| #[trigger] leaf_path(g, p) && p.first() == x && p.len() == n;
    let q = seq![y] + p;
    assert(is_path(g, q)) by {
        assert forall|i: int| 0 <= i < q.len() - 1 implies edge(g, #[trigger] q[i], q[i + 1]) by {
            if i == 0 {
                assert(q[0] == y && q[1] == p[0]);
            } else {
                assert(q[i] == p[i - 1] && q[i + 1] == p[i]);
                assert(edge(g, p[i - 1], p[i]));
            }
        }
    }
    assert(q.last() == p.last());
    assert(leaf_path(g, q) && q.first() == y && q.len() == n + 1);
}

/// Every node starts some leaf walk.
proof fn lemma_every_node_hlp(g: Map<u128, NodeModel>, x: u128)
    requires
        crate::paths::acyclic(g),
        g.dom().finite(),
        forall|a: u128, b: u128| #[trigger] edge(g, a, b) ==> g.contains_key(b),
        g.contains_key(x),
    ensures
        exists|n: int| 1 <= n && #[trigger] has_leaf_path(g, x, n),
{
    let p0 = seq![x];
    assert(is_path(g, p0) && p0.last() == x);
    crate::paths::lemma_extend_to_leaf(g, p0);
    let q = choose|q: Seq<u128>|
        #![trigger is_path(g, q)]
        is_path(g, q) && q.first() == p0.first() && q.len() >= p0.len() && g.contains_key(q.last())
            && g[q.last()].childs.len() == 0;
    assert(leaf_path(g, q) && q.first() == x && q.len() == q.len() as int);
    assert(has_leaf_path(g, x, q.len() as int));
}

/// Once no leaf walk of some length exists, none longer exists either.
proof fn lemma_no_hlp_above(g: Map<u128, NodeModel>, d: int)
    requires
        1 <= d,
        forall|x: u128| !has_leaf_path(g, x, d),
    ensures
        forall|y: u128, n: int| n >= d ==> !(#[trigger] has_leaf_path(g, y, n)),
{
    assert forall|y: u128, n: int| n >= d implies !(#[trigger] has_leaf_path(g, y, n)) by {
        if has_leaf_path(g, y, n) {
            let p = choose|p: Seq<u128>|
                #[trigger] leaf_path(g, p) && p.first() == y && p.len() == n;
            if n == d {
                assert(has_leaf_path(g, y, d));
            } else {
                crate::paths::lemma_subpath(g, p, n - d, n);
                let q = p.subrange(n - d, n);
                assert(q.last() == p.last());
                assert(leaf_path(g, q) && q.first() == p[n - d] && q.len() == d);
                assert(has_leaf_path(g, p[n - d], d));
            }
        }
    }
}

/// The map a (key, value) sequence denotes.
pub open spec fn pairs_map(s: Seq<(u128, usize)>) -> Map<u128, usize>
    decreases s.len(),
{
    if s.len() == 0 {
        Map::empty()
    } else {
        pairs_map(s.drop_last()).insert(s.last().0, s.last().1)
    }
}

/// The keys of a (key, value) sequence, in order.
pub open spec fn pair_keys(s: Seq<(u128, usize)>) -> Seq<u128> {
    s.map_values(|e: (u128, usize)| e.0)
}

/// The denoted map holds exactly the listed keys.
proof fn lemma_pairs_map_dom(s: Seq<(u128, usize)>)
    ensures
        forall|k: u128| pairs_map(s).contains_key(k) <==> pair_keys(s).contains(k),
    decreases s.len(),
{
    if s.len() == 0 {
        assert(forall|k: u128| !pair_keys(s).contains(k));
    } else {
        let t = s.drop_last();
        lemma_pairs_map_dom(t);
        assert(pairs_map(s) == pairs_map(t).insert(s.last().0, s.last().1));
        assert(pair_keys(s) =~= pair_keys(t).push(s.last().0));
        assert forall|k: u128| pairs_map(s).contains_key(k) <==> pair_keys(s).contains(k) by {
            if pair_keys(s).contains(k) {
                let i = choose|i: int|
                    0 <= i < pair_keys(s).len() && (#[trigger] pair_keys(s)[i]) == k;
                if i < t.len() {
                    assert(pair_keys(t)[i] == k);
                    assert(pair_keys(t).contains(k));
                    assert(pairs_map(t).contains_key(k));
                    assert(pairs_map(s).contains_key(k));
                } else {
                    assert(k == s.last().0);
                }
            }
            if pairs_map(s).contains_key(k) {
                if k == s.last().0 {
                    assert(pair_keys(s)[s.len() - 1] == k);
                } else {
                    assert(pairs_map(t).contains_key(k));
                    assert(pair_keys(t).contains(k));
                    let i = choose|i: int|
                        0 <= i < pair_keys(t).len() && (#[trigger] pair_keys(t)[i]) == k;
                    assert(pair_keys(s)[i] == k);
                }
            }
        }
    }
}

/// With distinct keys, each listed pair is what the map returns.
proof fn lemma_pairs_map_index(s: Seq<(u128, usize)>)
    requires
        pair_keys(s).no_duplicates(),
    ensures
        forall|i: int|
            0 <= i < s.len() ==> pairs_map(s).contains_key((#[trigger] s[i]).0) && pairs_map(
                s,
            )[s[i].0] == s[i].1,
    decreases s.len(),
{
    if s.len() > 0 {
        let t = s.drop_last();
        assert(pair_keys(t) =~= pair_keys(s).drop_last());
        lemma_pairs_map_index(t);
        assert forall|i: int|
            0 <= i < s.len() implies pairs_map(s).contains_key((#[trigger] s[i]).0) && pairs_map(
            s,
        )[s[i].0] == s[i].1 by {
            if i < s.len() - 1 {
                assert(pair_keys(s)[i] != pair_keys(s)[s.len() - 1]);
                assert(t[i] == s[i]);
                assert(pairs_map(t)[s[i].0] == s[i].1);
            }
        }
    }
}

/// Replacing one pair under its own key updates the denoted map pointwise.
proof fn lemma_pairs_map_update(s: Seq<(u128, usize)>, i: int, e: (u128, usize))
    requires
        pair_keys(s).no_duplicates(),
        0 <= i < s.len(),
        e.0 == s[i].0,
    ensures
        pairs_map(s.update(i, e)) == pairs_map(s).insert(e.0, e.1),
    decreases s.len(),
{
    let s2 = s.update(i, e);
    if i == s.len() - 1 {
        assert(s2.drop_last() =~= s.drop_last());
        assert(s2.last() == e);
    } else {
        let t = s.drop_last();
        assert(s2.last() == s.last());
        assert(s2.drop_last() =~= t.update(i, e));
        assert(pair_keys(t) =~= pair_keys(s).drop_last());
        assert(t[i] == s[i]);
        lemma_pairs_map_update(t, i, e);
        assert(pair_keys(s)[i] != pair_keys(s)[s.len() - 1]);
        assert(e.0 != s.last().0);
        assert(pairs_map(t).insert(e.0, e.1).insert(s.last().0, s.last().1) =~= pairs_map(
            t,
        ).insert(s.last().0, s.last().1).insert(e.0, e.1));
    }
}

/// Linear key search in a depth table.
fn pairs_find(m: &Vec<(u128, usize)>, x: u128) -> (r: Option<usize>)
    ensures
        match r {
            Some(k) => k < m@.len() && m@[k as int].0 == x,
            Option::None => !pair_keys(m@).contains(x),
        },
{
    let mut i: usize = 0;
    while i < m.len()
        invariant
            i <= m@.len(),
            forall|k: int| 0 <= k < i ==> (#[trigger] m@[k]).0 != x,
        decreases m@.len() - i,
    {
        if m[i].0 == x {
            return Some(i);
        }
        i += 1;
    }
    proof {
        if pair_keys(m@).contains(x) {
            let k = choose|k: int| 0 <= k < pair_keys(m@).len() && (#[trigger] pair_keys(m@)[k]) == x;
            assert(m@[k].0 == x);
        }
    }
    Option::None
}

/// Record a depth candidate: keep the larger of the stored and offered
/// values, or list the key with the offered one.
fn bump(m: &mut Vec<(u128, usize)>, key: u128, d: usize)
    requires
        pair_keys(old(m)@).no_duplicates(),
    ensures
        pair_keys(final(m)@).no_duplicates(),
        pairs_map(final(m)@) == pairs_map(old(m)@).insert(
            key,
            (if pairs_map(old(m)@).contains_key(key) && pairs_map(old(m)@)[key] > d {
                pairs_map(old(m)@)[key]
            } else {
                d
            }),
        ),
        forall|k: int|
            0 <= k < final(m)@.len() ==> (#[trigger] final(m)@[k]).0 == key || (exists|j: int|
                0 <= j < old(m)@.len() && old(m)@[j] == final(m)@[k]),
{
    proof {
        lemma_pairs_map_dom(m@);
        lemma_pairs_map_index(m@);
    }
    let ghost s0 = m@;
    match pairs_find(m, key) {
        Some(k) => {
            let (kk, v) = m.remove(k);
            let nv = if v >= d {
                v
            } else {
                d
            };
            m.insert(k, (kk, nv));
            proof {
                assert(m@ =~= s0.update(k as int, (key, nv)));
                lemma_pairs_map_update(s0, k as int, (key, nv));
                assert(pair_keys(m@) =~= pair_keys(s0));
                assert(pairs_map(s0).contains_key(key) && pairs_map(s0)[key] == v) by {
                    assert(s0[k as int].0 == key);
                }
                assert forall|k2: int|
                    0 <= k2 < m@.len() implies (#[trigger] m@[k2]).0 == key || (exists|j: int|
                    0 <= j < s0.len() && s0[j] == m@[k2]) by {
                    if k2 != k {
                        assert(s0[k2] == m@[k2]);
                    }
                }
            }
        },
        Option::None => {
            m.push((key, d));
            proof {
                assert(m@.drop_last() =~= s0);
                assert(pairs_map(m@) == pairs_map(s0).insert(key, d));
                assert(pair_keys(m@) =~= pair_keys(s0).push(key));
                assert forall|a: int, b: int|
                    0 <= a < pair_keys(m@).len() && 0 <= b < pair_keys(m@).len() && a
                        != b implies pair_keys(m@)[a] != pair_keys(m@)[b] by {
                    if a < s0.len() && b < s0.len() {
                        assert(pair_keys(s0)[a] == pair_keys(m@)[a]);
                        assert(pair_keys(s0)[b] == pair_keys(m@)[b]);
                    } else if a < s0.len() {
                        assert(pair_keys(m@)[a] == s0[a].0);
                        assert(pair_keys(s0).contains(s0[a].0)) by {
                            assert(pair_keys(s0)[a] == s0[a].0);
                        }
                    } else if b < s0.len() {
                        assert(pair_keys(m@)[b] == s0[b].0);
                        assert(pair_keys(s0).contains(s0[b].0)) by {
                            assert(pair_keys(s0)[b] == s0[b].0);
                        }
                    }
                }
                assert(!pairs_map(s0).contains_key(key));
                assert forall|k2: int|
                    0 <= k2 < m@.len() implies (#[trigger] m@[k2]).0 == key || (exists|j: int|
                    0 <= j < s0.len() && s0[j] == m@[k2]) by {
                    if k2 < s0.len() {
                        assert(s0[k2] == m@[k2]);
                    }
                }
            }
        },
    }
}

/// The reverse adjacency really describes this graph: each listed pair
/// holds exactly the parents of its key, and the keys are exactly the nodes
/// with a parent.
pub open spec fn adj_ok(g: Map<u128, NodeModel>, ps: Seq<(u128, Vec<u128>)>) -> bool {
    &&& forall|k: int, p: u128|
        0 <= k < ps.len() ==> ((#[trigger] ps[k].1@.contains(p)) <==> edge(g, p, ps[k].0))
    &&& forall|c: u128|
        #![trigger ids_of_pairs(ps).contains(c)]
        #![trigger has_parent(g, c)]
        ids_of_pairs(ps).contains(c) <==> has_parent(g, c)
}

/// Linear key search in a reverse-adjacency vector.
fn adj_find(v: &Vec<(u128, Vec<u128>)>, x: u128) -> (r: Option<usize>)
    ensures
        match r {
            Some(k) => k < v@.len() && v@[k as int].0 == x,
            Option::None => !ids_of_pairs(v@).contains(x),
        },
{
    let mut i: usize = 0;
    while i < v.len()
        invariant
            i <= v@.len(),
            forall|k: int| 0 <= k < i ==> (#[trigger] v@[k]).0 != x,
        decreases v@.len() - i,
    {
        if v[i].0 == x {
            return Some(i);
        }
        i += 1;
    }
    proof {
        if ids_of_pairs(v@).contains(x) {
            let k = choose|k: int|
                0 <= k < ids_of_pairs(v@).len() && (#[trigger] ids_of_pairs(v@)[k]) == x;
            assert(v@[k].0 == x);
        }
    }
    Option::None
}

/// The depth table after every backward round up to distance `dd` has run:
/// a node is listed exactly when it starts a leaf walk of at most `dd`
/// identifiers, and its value is one less than the longest such walk.
spec fn depth_char(g: Map<u128, NodeModel>, s: Seq<(u128, usize)>, dd: int) -> bool {
    &&& forall|x: u128|
        #[trigger] pairs_map(s).contains_key(x) <==> exists|n: int|
            1 <= n <= dd && #[trigger] has_leaf_path(g, x, n)
    &&& forall|x: u128|
        #[trigger] pairs_map(s).contains_key(x) ==> has_leaf_path(g, x, pairs_map(s)[x] + 1)
            && pairs_map(s)[x] + 1 <= dd && (forall|n: int|
            1 <= n <= dd && #[trigger] has_leaf_path(g, x, n) ==> n <= pairs_map(s)[x] + 1)
}

/// The depth table in the middle of the round at distance `dd`, with `p`
/// the parents already reached this round.
spec fn round_char(g: Map<u128, NodeModel>, s: Seq<(u128, usize)>, dd: int, p: Seq<u128>) -> bool {
    &&& forall|x: u128|
        #[trigger] pairs_map(s).contains_key(x) <==> ((exists|n: int|
            1 <= n <= dd && #[trigger] has_leaf_path(g, x, n)) || p.contains(x))
    &&& forall|x: u128|
        #[trigger] pairs_map(s).contains_key(x) ==> has_leaf_path(g, x, pairs_map(s)[x] + 1) && (
        if p.contains(x) {
            pairs_map(s)[x] + 1 <= dd + 1 && (forall|n: int|
                1 <= n <= dd + 1 && #[trigger] has_leaf_path(g, x, n) ==> n <= pairs_map(s)[x] + 1)
        } else {
            pairs_map(s)[x] + 1 <= dd && (forall|n: int|
                1 <= n <= dd && #[trigger] has_leaf_path(g, x, n) ==> n <= pairs_map(s)[x] + 1)
        })
}

/// For every node, one less than the longest walk from it down to a leaf,
/// derived backwards: leaves sit at distance zero, and each round lifts the
/// frontier to the parents of the last one.
#[verifier::rlimit(80)]
fn deepths(graph: &AcyclicGraph, parents: &Vec<(u128, Vec<u128>)>) -> (r: Vec<(u128, usize)>)
    requires
        graph.wf(),
        adj_ok(graph.model(), parents@),
    ensures
        pair_keys(r@).no_duplicates(),
        forall|k: int| 0 <= k < r@.len() ==> graph.model().contains_key((#[trigger] r@[k]).0),
        forall|x: u128|
            #![trigger pairs_map(r@).contains_key(x)]
            #![trigger graph.model().contains_key(x)]
            pairs_map(r@).contains_key(x) <==> graph.model().contains_key(x),
        forall|x: u128|
            #[trigger] pairs_map(r@).contains_key(x) ==> has_leaf_path(
                graph.model(),
                x,
                pairs_map(r@)[x] + 1,
            ) && (forall|n: int|
                #[trigger] has_leaf_path(graph.model(), x, n) ==> n <= pairs_map(r@)[x] + 1),
{
    let ghost g = graph.model();
    proof {
        lemma_sorted_ids_no_dup(graph.nodes@);
        lemma_map_of_dom(graph.nodes@);
        lemma_map_of_index(graph.nodes@);
    }
    let mut m: Vec<(u128, usize)> = Vec::new();
    let mut queue: Vec<u128> = Vec::new();
    let n = graph.nodes.len();
    let mut i: usize = 0;
    while i < n
        invariant
            graph.wf(),
            g == graph.model(),
            n == graph.nodes@.len(),
            i <= n,
            queue@ == pair_keys(m@),
            pair_keys(m@).no_duplicates(),
            forall|k: int|
                0 <= k < m@.len() ==> (#[trigger] m@[k]).1 == 0 && g.contains_key(m@[k].0),
            forall|x: u128|
                #[trigger] pairs_map(m@).contains_key(x) <==> (ids(graph.nodes@).take(
                    i as int,
                ).contains(x) && g.contains_key(x) && g[x].childs.len() == 0),
        decreases n - i,
    {
        let id = graph.nodes[i].0;
        let is_leaf = graph.nodes[i].1.childs.len() == 0;
        let ghost m0 = m@;
        if is_leaf {
            m.push((id, 0));
            queue.push(id);
        }
        proof {
            lemma_sorted_ids_no_dup(graph.nodes@);
            lemma_map_of_index(graph.nodes@);
            assert(ids(graph.nodes@)[i as int] == id);
            assert(g.contains_key(id) && g[id] == graph.nodes@[i as int].1@);
            crate::graph::lemma_take_push(ids(graph.nodes@), i as int, id);
            lemma_pairs_map_dom(m0);
            if is_leaf {
                assert(m@.drop_last() =~= m0);
                assert(pairs_map(m@) == pairs_map(m0).insert(id, 0));
                assert(pair_keys(m@) =~= pair_keys(m0).push(id));
                assert(queue@ =~= pair_keys(m@));
                assert(!pair_keys(m0).contains(id)) by {
                    if pairs_map(m0).contains_key(id) {
                        assert(ids(graph.nodes@).take(i as int).contains(id));
                        let j = choose|j: int|
                            0 <= j < i && (#[trigger] ids(graph.nodes@).take(i as int)[j]) == id;
                        assert(ids(graph.nodes@)[j] == ids(graph.nodes@)[i as int]);
                    }
                }
                assert forall|a: int, b: int|
                    0 <= a < pair_keys(m@).len() && 0 <= b < pair_keys(m@).len() && a
                        != b implies pair_keys(m@)[a] != pair_keys(m@)[b] by {
                    if a < m0.len() && b < m0.len() {
                        assert(pair_keys(m0)[a] == pair_keys(m@)[a]);
                        assert(pair_keys(m0)[b] == pair_keys(m@)[b]);
                    } else if a < m0.len() {
                        assert(pair_keys(m@)[a] == m0[a].0);
                        assert(pair_keys(m0).contains(m0[a].0)) by {
                            assert(pair_keys(m0)[a] == m0[a].0);
                        }
                    } else if b < m0.len() {
                        assert(pair_keys(m@)[b] == m0[b].0);
                        assert(pair_keys(m0).contains(m0[b].0)) by {
                            assert(pair_keys(m0)[b] == m0[b].0);
                        }
                    }
                }
            }
            assert forall|x: u128|
                #[trigger] pairs_map(m@).contains_key(x) <==> (ids(graph.nodes@).take(
                    i as int + 1,
                ).contains(x) && g.contains_key(x) && g[x].childs.len() == 0) by {
                if is_leaf {
                    if pairs_map(m@).contains_key(x) && x != id {
                        assert(pairs_map(m0).contains_key(x));
                    }
                    if x == id {
                        assert(pairs_map(m@).contains_key(x));
                    }
                    if ids(graph.nodes@).take(i as int + 1).contains(x) && g.contains_key(x) && g[x].childs.len()
                        == 0 && x != id {
                        assert(ids(graph.nodes@).take(i as int).contains(x));
                        assert(pairs_map(m0).contains_key(x));
                    }
                } else {
                    if ids(graph.nodes@).take(i as int + 1).contains(x) && g.contains_key(x) && g[x].childs.len()
                        == 0 {
                        if x == id {
                            assert(g[id].childs.len() > 0);
                        } else {
                            assert(ids(graph.nodes@).take(i as int).contains(x));
                        }
                    }
                }
            }
        }
        i += 1;
    }
    let mut d: usize = 1;
    proof {
        assert(g.dom().len() == n) by {
            lemma_sorted_ids_no_dup(graph.nodes@);
            lemma_map_of_index(graph.nodes@);
        }
        assert(ids(graph.nodes@).take(n as int) =~= ids(graph.nodes@));
        assert forall|y: u128| #![trigger queue@.contains(y)]
            queue@.contains(y) <==> has_leaf_path(g, y, d as int) by {
            lemma_pairs_map_dom(m@);
            if queue@.contains(y) {
                assert(pair_keys(m@).contains(y));
                assert(pairs_map(m@).contains_key(y));
                assert(g.contains_key(y) && g[y].childs.len() == 0);
                let p = seq![y];
                assert(is_path(g, p) && leaf_path(g, p) && p.first() == y && p.len() == 1);
                assert(has_leaf_path(g, y, 1));
            }
            if has_leaf_path(g, y, 1) {
                let p = choose|p: Seq<u128>|
                    #[trigger] leaf_path(g, p) && p.first() == y && p.len() == 1;
                assert(p.last() == y);
                assert(g.contains_key(y) && g[y].childs.len() == 0);
                assert(ids(graph.nodes@).contains(y));
                assert(pairs_map(m@).contains_key(y));
                assert(pair_keys(m@).contains(y));
            }
        }
        assert(depth_char(g, m@, d as int)) by {
            lemma_pairs_map_dom(m@);
            lemma_pairs_map_index(m@);
            assert forall|x: u128|
                #[trigger] pairs_map(m@).contains_key(x) <==> exists|n: int|
                    1 <= n <= d as int && #[trigger] has_leaf_path(g, x, n) by {
                if pairs_map(m@).contains_key(x) {
                    assert(queue@.contains(x)) by {
                        assert(pair_keys(m@).contains(x));
                    }
                    assert(has_leaf_path(g, x, 1));
                }
                if exists|n: int| 1 <= n <= d as int && #[trigger] has_leaf_path(g, x, n) {
                    assert(has_leaf_path(g, x, 1));
                    assert(queue@.contains(x));
                    assert(pair_keys(m@).contains(x));
                }
            }
            assert forall|x: u128|
                #[trigger] pairs_map(m@).contains_key(x) implies has_leaf_path(
                g,
                x,
                pairs_map(m@)[x] + 1,
            ) && pairs_map(m@)[x] + 1 <= d as int && (forall|n: int|
                1 <= n <= d as int && #[trigger] has_leaf_path(g, x, n) ==> n <= pairs_map(m@)[x]
                    + 1) by {
                assert(pair_keys(m@).contains(x));
                let k = choose|k: int|
                    0 <= k < pair_keys(m@).len() && (#[trigger] pair_keys(m@)[k]) == x;
                assert(m@[k].0 == x && m@[k].1 == 0);
                assert(pairs_map(m@)[x] == 0);
                assert(queue@.contains(x));
                assert(has_leaf_path(g, x, 1));
            }
        }
    }
    loop
        invariant
            graph.wf(),
            g == graph.model(),
            adj_ok(g, parents@),
            g.dom().len() == n,
            1 <= d,
            queue@.no_duplicates(),
            pair_keys(m@).no_duplicates(),
            forall|k: int| 0 <= k < m@.len() ==> g.contains_key((#[trigger] m@[k]).0),
            forall|y: u128| #![trigger queue@.contains(y)]
                queue@.contains(y) <==> has_leaf_path(g, y, d as int),
            depth_char(g, m@, d as int),
        ensures
            pair_keys(m@).no_duplicates(),
            forall|k: int| 0 <= k < m@.len() ==> g.contains_key((#[trigger] m@[k]).0),
            forall|x: u128|
                #[trigger] pairs_map(m@).contains_key(x) <==> exists|n: int|
                    1 <= n && #[trigger] has_leaf_path(g, x, n),
            forall|x: u128|
                #[trigger] pairs_map(m@).contains_key(x) ==> has_leaf_path(
                    g,
                    x,
                    pairs_map(m@)[x] + 1,
                ) && (forall|n: int|
                    #[trigger] has_leaf_path(g, x, n) ==> n <= pairs_map(m@)[x] + 1),
        decreases g.dom().len() + 1 - d,
    {
        if queue.len() == 0 {
            proof {
                assert forall|x: u128| !(#[trigger] has_leaf_path(g, x, d as int)) by {
                    if queue@.contains(x) {
                        let k = choose|k: int| 0 <= k < queue@.len() && queue@[k] == x;
                    }
                }
                lemma_no_hlp_above(g, d as int);
                assert forall|x: u128|
                    #[trigger] pairs_map(m@).contains_key(x) <==> exists|n: int|
                        1 <= n && #[trigger] has_leaf_path(g, x, n) by {
                    if exists|n: int| 1 <= n && #[trigger] has_leaf_path(g, x, n) {
                        let n = choose|n: int| 1 <= n && #[trigger] has_leaf_path(g, x, n);
                        assert(n < d as int);
                    }
                }
                assert forall|x: u128|
                    #[trigger] pairs_map(m@).contains_key(x) implies has_leaf_path(
                    g,
                    x,
                    pairs_map(m@)[x] + 1,
                ) && (forall|n: int|
                    #[trigger] has_leaf_path(g, x, n) ==> n <= pairs_map(m@)[x] + 1) by {
                    assert forall|n: int| #[trigger] has_leaf_path(g, x, n) implies n <= pairs_map(
                        m@,
                    )[x] + 1 by {
                        assert(n < d as int);
                        assert(1 <= n);
                    }
                }
            }
            break;
        }
        proof {
            let y0 = queue@[0];
            assert(queue@.contains(y0));
            lemma_hlp_bound(g, y0, d as int);
        }
        let mut nextq: Vec<u128> = Vec::new();
        let qlen = queue.len();
        let mut qi: usize = 0;
        proof {
            assert(queue@.take(0) =~= Seq::<u128>::empty());
            assert(round_char(g, m@, d as int, nextq@)) by {
                assert(forall|x: u128| !nextq@.contains(x));
            }
        }
        while qi < qlen
            invariant
                graph.wf(),
                g == graph.model(),
                adj_ok(g, parents@),
                1 <= d,
                forall|y: u128| #![trigger queue@.contains(y)]
                    queue@.contains(y) <==> has_leaf_path(g, y, d as int),
                qi <= qlen,
                qlen == queue@.len(),
                nextq@.no_duplicates(),
                forall|y: u128|
                    #[trigger] nextq@.contains(y) <==> exists|x2: u128|
                        #[trigger] queue@.take(qi as int).contains(x2) && edge(g, y, x2),
                pair_keys(m@).no_duplicates(),
                forall|k: int| 0 <= k < m@.len() ==> g.contains_key((#[trigger] m@[k]).0),
                round_char(g, m@, d as int, nextq@),
            decreases qlen - qi,
        {
            let x = queue[qi];
            proof {
                assert(queue@[qi as int] == x);
                assert(queue@.contains(x));
                assert(has_leaf_path(g, x, d as int));
                crate::graph::lemma_take_push(queue@, qi as int, x);
            }
            match adj_find(parents, x) {
                Option::None => {
                    proof {
                        assert(!has_parent(g, x));
                        assert forall|y: u128|
                            #[trigger] nextq@.contains(y) <==> exists|x2: u128|
                                #[trigger] queue@.take(qi as int + 1).contains(x2) && edge(
                                    g,
                                    y,
                                    x2,
                                ) by {
                            if nextq@.contains(y) {
                                let x2 = choose|x2: u128|
                                    #[trigger] queue@.take(qi as int).contains(x2) && edge(g, y, x2);
                                assert(queue@.take(qi as int + 1).contains(x2));
                            }
                            if exists|x2: u128|
                                #[trigger] queue@.take(qi as int + 1).contains(x2) && edge(g, y, x2) {
                                let x2 = choose|x2: u128|
                                    #[trigger] queue@.take(qi as int + 1).contains(x2) && edge(
                                        g,
                                        y,
                                        x2,
                                    );
                                if x2 == x {
                                    assert(edge(g, y, x));
                                    assert(has_parent(g, x));
                                } else {
                                    assert(queue@.take(qi as int).contains(x2));
                                }
                            }
                        }
                    }
                },
                Some(pk) => {
                    let plist = &parents[pk].1;
                    proof {
                        assert(parents@[pk as int].0 == x);
                        assert(forall|p: u128|
                            (#[trigger] plist@.contains(p)) <==> edge(g, p, x));
                    }
                    let pl = plist.len();
                    let mut pj: usize = 0;
                    proof {
                        assert(plist@.take(0) =~= Seq::<u128>::empty());
                    }
                    while pj < pl
                        invariant
                            graph.wf(),
                            g == graph.model(),
                            adj_ok(g, parents@),
                            1 <= d,
                            has_leaf_path(g, x, d as int),
                            pj <= pl,
                            pl == plist@.len(),
                            plist == &parents@[pk as int].1,
                            pk < parents@.len(),
                            parents@[pk as int].0 == x,
                            nextq@.no_duplicates(),
                            forall|y: u128|
                                #[trigger] nextq@.contains(y) <==> ((exists|x2: u128|
                                    #[trigger] queue@.take(qi as int).contains(x2) && edge(
                                        g,
                                        y,
                                        x2,
                                    )) || plist@.take(pj as int).contains(y)),
                            pair_keys(m@).no_duplicates(),
                            forall|k: int| 0 <= k < m@.len() ==> g.contains_key((#[trigger] m@[k]).0),
                            round_char(g, m@, d as int, nextq@),
                        decreases pl - pj,
                    {
                        let y = plist[pj];
                        proof {
                            assert(plist@[pj as int] == y);
                            assert(plist@.contains(y));
                            assert(edge(g, y, x));
                            lemma_hlp_step_up(g, y, x, d as int);
                            assert(g.contains_key(y));
                            lemma_pairs_map_dom(m@);
                        }
                        let ghost mpre = m@;
                        let ghost pm = pairs_map(mpre);
                        bump(&mut m, y, d);
                        let in_next = vec_contains(&nextq, y);
                        let ghost nq0 = nextq@;
                        if !in_next {
                            nextq.push(y);
                        }
                        proof {
                            let ghost vnew = (if pm.contains_key(y) && pm[y] > d {
                                pm[y]
                            } else {
                                d
                            });
                            assert(pairs_map(m@) == pm.insert(y, vnew));
                            crate::graph::lemma_take_push(plist@, pj as int, y);
                            assert forall|z: u128|
                                #[trigger] nextq@.contains(z) <==> (nq0.contains(z) || z == y) by {
                                if in_next {
                                } else {
                                    if nextq@.contains(z) {
                                        let k = choose|k: int|
                                            0 <= k < nextq@.len() && (#[trigger] nextq@[k]) == z;
                                        if k < nq0.len() {
                                            assert(nq0[k] == z);
                                        }
                                    }
                                    if nq0.contains(z) {
                                        let k = choose|k: int|
                                            0 <= k < nq0.len() && (#[trigger] nq0[k]) == z;
                                        assert(nextq@[k] == z);
                                    }
                                    if z == y {
                                        assert(nextq@[nextq@.len() - 1] == y);
                                    }
                                }
                            }
                            if !in_next {
                                assert forall|a: int, b: int|
                                    0 <= a < nextq@.len() && 0 <= b < nextq@.len() && a
                                        != b implies nextq@[a] != nextq@[b] by {
                                    if a < nq0.len() && b < nq0.len() {
                                    } else if a < nq0.len() {
                                        assert(!nq0.contains(y));
                                        if nextq@[a] == y {
                                            assert(nq0[a] == y);
                                            assert(nq0.contains(y));
                                        }
                                    } else if b < nq0.len() {
                                        assert(!nq0.contains(y));
                                        if nextq@[b] == y {
                                            assert(nq0[b] == y);
                                            assert(nq0.contains(y));
                                        }
                                    }
                                }
                            }
                            assert forall|z: u128|
                                #[trigger] nextq@.contains(z) <==> ((exists|x2: u128|
                                    #[trigger] queue@.take(qi as int).contains(x2) && edge(
                                        g,
                                        z,
                                        x2,
                                    )) || plist@.take(pj as int + 1).contains(z)) by {
                                if nextq@.contains(z) {
                                    if nq0.contains(z) {
                                        if !(exists|x2: u128|
                                            #[trigger] queue@.take(qi as int).contains(x2) && edge(
                                                g,
                                                z,
                                                x2,
                                            )) {
                                            assert(plist@.take(pj as int).contains(z));
                                            assert(plist@.take(pj as int + 1).contains(z));
                                        }
                                    } else {
                                        assert(z == y);
                                        assert(plist@.take(pj as int + 1).contains(y));
                                    }
                                }
                                if (exists|x2: u128|
                                    #[trigger] queue@.take(qi as int).contains(x2) && edge(
                                        g,
                                        z,
                                        x2,
                                    )) || plist@.take(pj as int + 1).contains(z) {
                                    if plist@.take(pj as int + 1).contains(z) && !plist@.take(
                                        pj as int,
                                    ).contains(z) {
                                        assert(z == y);
                                    } else {
                                        assert(nq0.contains(z));
                                    }
                                }
                            }
                            assert(round_char(g, m@, d as int, nextq@)) by {
                                lemma_pairs_map_dom(m@);
                                assert forall|z: u128|
                                    #[trigger] pairs_map(m@).contains_key(z) <==> ((exists|n: int|
                                        1 <= n <= d as int && #[trigger] has_leaf_path(g, z, n))
                                        || nextq@.contains(z)) by {
                                    if z == y {
                                        assert(pairs_map(m@).contains_key(y));
                                        assert(nextq@.contains(y));
                                    } else {
                                        assert(pairs_map(m@).contains_key(z) == pm.contains_key(z));
                                        assert(nextq@.contains(z) == nq0.contains(z));
                                    }
                                }
                                assert forall|z: u128|
                                    #[trigger] pairs_map(m@).contains_key(z) implies has_leaf_path(
                                    g,
                                    z,
                                    pairs_map(m@)[z] + 1,
                                ) && (if nextq@.contains(z) {
                                    pairs_map(m@)[z] + 1 <= d as int + 1 && (forall|n: int|
                                        1 <= n <= d as int + 1 && #[trigger] has_leaf_path(g, z, n)
                                            ==> n <= pairs_map(m@)[z] + 1)
                                } else {
                                    pairs_map(m@)[z] + 1 <= d as int && (forall|n: int|
                                        1 <= n <= d as int && #[trigger] has_leaf_path(g, z, n)
                                            ==> n <= pairs_map(m@)[z] + 1)
                                }) by {
                                    if z != y {
                                        assert(pairs_map(m@)[z] == pm[z]);
                                        assert(nextq@.contains(z) == nq0.contains(z));
                                    } else {
                                        assert(pairs_map(m@)[y] == vnew);
                                        assert(nextq@.contains(y));
                                        if pm.contains_key(y) && nq0.contains(y) {
                                            assert(has_leaf_path(g, y, vnew + 1)) by {
                                                if !(pm[y] > d) {
                                                    assert(vnew == d);
                                                }
                                            }
                                            assert forall|n: int|
                                                1 <= n <= d as int + 1 && #[trigger] has_leaf_path(
                                                    g,
                                                    y,
                                                    n,
                                                ) implies n <= vnew + 1 by {
                                                assert(n <= pm[y] + 1);
                                            }
                                        } else if pm.contains_key(y) {
                                            assert(pm[y] + 1 <= d as int);
                                            assert(vnew == d);
                                            assert forall|n: int|
                                                1 <= n <= d as int + 1 && #[trigger] has_leaf_path(
                                                    g,
                                                    y,
                                                    n,
                                                ) implies n <= vnew + 1 by {}
                                        } else {
                                            assert(vnew == d);
                                            assert forall|n: int|
                                                1 <= n <= d as int + 1 && #[trigger] has_leaf_path(
                                                    g,
                                                    y,
                                                    n,
                                                ) implies n <= vnew + 1 by {
                                                if n <= d as int {
                                                    assert(pm.contains_key(y));
                                                }
                                            }
                                        }
                                    }
                                }
                            }
                        }
                        pj += 1;
                    }
                    proof {
                        assert(plist@.take(pl as int) =~= plist@);
                        assert forall|y: u128|
                            #[trigger] nextq@.contains(y) <==> exists|x2: u128|
                                #[trigger] queue@.take(qi as int + 1).contains(x2) && edge(
                                    g,
                                    y,
                                    x2,
                                ) by {
                            if nextq@.contains(y) {
                                if plist@.contains(y) {
                                    assert(edge(g, y, x));
                                    assert(queue@.take(qi as int + 1).contains(x));
                                } else {
                                    let x2 = choose|x2: u128|
                                        #[trigger] queue@.take(qi as int).contains(x2) && edge(
                                            g,
                                            y,
                                            x2,
                                        );
                                    assert(queue@.take(qi as int + 1).contains(x2));
                                }
                            }
                            if exists|x2: u128|
                                #[trigger] queue@.take(qi as int + 1).contains(x2) && edge(g, y, x2) {
                                let x2 = choose|x2: u128|
                                    #[trigger] queue@.take(qi as int + 1).contains(x2) && edge(
                                        g,
                                        y,
                                        x2,
                                    );
                                if x2 == x {
                                    assert(plist@.contains(y));
                                } else {
                                    assert(queue@.take(qi as int).contains(x2));
                                }
                            }
                        }
                    }
                },
            }
            qi += 1;
        }
        proof {
            assert(queue@.take(qlen as int) =~= queue@);
            assert forall|y: u128|
                #[trigger] nextq@.contains(y) <==> has_leaf_path(g, y, d as int + 1) by {
                if nextq@.contains(y) {
                    let x2 = choose|x2: u128|
                        #[trigger] queue@.take(qlen as int).contains(x2) && edge(g, y, x2);
                    assert(queue@.contains(x2));
                    assert(has_leaf_path(g, x2, d as int));
                    lemma_hlp_step_up(g, y, x2, d as int);
                }
                if has_leaf_path(g, y, d as int + 1) {
                    lemma_hlp_step_down(g, y, d as int + 1);
                    let x2 = choose|x2: u128|
                        #[trigger] edge(g, y, x2) && has_leaf_path(g, x2, d as int);
                    assert(queue@.contains(x2));
                    assert(queue@.take(qlen as int).contains(x2));
                }
            }
        }
        if nextq.len() == 0 {
            proof {
                assert forall|y: u128| !(#[trigger] has_leaf_path(g, y, d as int + 1)) by {
                    if nextq@.contains(y) {
                        let k = choose|k: int| 0 <= k < nextq@.len() && nextq@[k] == y;
                    }
                }
                lemma_no_hlp_above(g, d as int + 1);
                assert forall|x: u128|
                    #[trigger] pairs_map(m@).contains_key(x) <==> exists|n: int|
                        1 <= n && #[trigger] has_leaf_path(g, x, n) by {
                    if exists|n: int| 1 <= n && #[trigger] has_leaf_path(g, x, n) {
                        let n = choose|n: int| 1 <= n && #[trigger] has_leaf_path(g, x, n);
                        assert(n < d as int + 1);
                    }
                }
                assert forall|x: u128|
                    #[trigger] pairs_map(m@).contains_key(x) implies has_leaf_path(
                    g,
                    x,
                    pairs_map(m@)[x] + 1,
                ) && (forall|n: int|
                    #[trigger] has_leaf_path(g, x, n) ==> n <= pairs_map(m@)[x] + 1) by {
                    assert forall|n: int| #[trigger] has_leaf_path(g, x, n) implies n <= pairs_map(
                        m@,
                    )[x] + 1 by {
                        assert(n < d as int + 1);
                        assert(1 <= n);
                        if nextq@.contains(x) {
                            let k = choose|k: int| 0 <= k < nextq@.len() && nextq@[k] == x;
                        }
                    }
                }
            }
            break;
        }
        queue = nextq;
        proof {
            let y0 = queue@[0];
            assert(queue@.contains(y0));
            lemma_hlp_bound(g, y0, d as int + 1);
        }
        d = d + 1;
        proof {
            assert forall|y: u128| #![trigger queue@.contains(y)]
                queue@.contains(y) <==> has_leaf_path(g, y, d as int) by {}
            assert(depth_char(g, m@, d as int)) by {
                assert forall|x: u128|
                    #[trigger] pairs_map(m@).contains_key(x) <==> exists|n: int|
                        1 <= n <= d as int && #[trigger] has_leaf_path(g, x, n) by {
                    if pairs_map(m@).contains_key(x) {
                        if queue@.contains(x) {
                            assert(has_leaf_path(g, x, d as int));
                        }
                    }
                    if exists|n: int| 1 <= n <= d as int && #[trigger] has_leaf_path(g, x, n) {
                        let n = choose|n: int|
                            1 <= n <= d as int && #[trigger] has_leaf_path(g, x, n);
                        if n == d as int {
                            assert(queue@.contains(x));
                        }
                    }
                }
                assert forall|x: u128|
                    #[trigger] pairs_map(m@).contains_key(x) implies has_leaf_path(
                    g,
                    x,
                    pairs_map(m@)[x] + 1,
                ) && pairs_map(m@)[x] + 1 <= d as int && (forall|n: int|
                    1 <= n <= d as int && #[trigger] has_leaf_path(g, x, n) ==> n <= pairs_map(
                        m@,
                    )[x] + 1) by {
                    if queue@.contains(x) {
                    } else {
                        assert forall|n: int|
                            1 <= n <= d as int && #[trigger] has_leaf_path(g, x, n) implies n
                            <= pairs_map(m@)[x] + 1 by {
                            if n == d as int {
                                assert(queue@.contains(x));
                            }
                        }
                    }
                }
            }
        }
    }
    proof {
        lemma_pairs_map_dom(m@);
        assert forall|x: u128|
            #![trigger pairs_map(m@).contains_key(x)]
            #![trigger g.contains_key(x)]
            pairs_map(m@).contains_key(x) <==> g.contains_key(x) by {
            if pairs_map(m@).contains_key(x) {
                assert(pair_keys(m@).contains(x));
                let k = choose|k: int|
                    0 <= k < pair_keys(m@).len() && (#[trigger] pair_keys(m@)[k]) == x;
                assert(m@[k].0 == x);
            }
            if g.contains_key(x) {
                lemma_every_node_hlp(g, x);
            }
        }
    }
    m
}

/// The longest distance from any node down to a leaf: the maximum entry of
/// the depth table, or zero for an empty graph.
#[verifier::rlimit(80)]
fn max_deepth(graph: &AcyclicGraph, parents: &Vec<(u128, Vec<u128>)>) -> (dmax: usize)
    requires
        graph.wf(),
        adj_ok(graph.model(), parents@),
    ensures
        forall|x: u128, n: int|
            #[trigger] has_leaf_path(graph.model(), x, n) ==> n <= dmax + 1,
        graph.model().dom().len() > 0 ==> exists|x: u128|
            #[trigger] has_leaf_path(graph.model(), x, dmax as int + 1),
        graph.model().dom().len() == 0 ==> dmax == 0,
{
    let ghost g = graph.model();
    let m = deepths(graph, parents);
    proof {
        lemma_pairs_map_dom(m@);
        lemma_pairs_map_index(m@);
        lemma_sorted_ids_no_dup(graph.nodes@);
        lemma_map_of_dom(graph.nodes@);
        lemma_map_of_index(graph.nodes@);
    }
    let mut best: usize = 0;
    let n = m.len();
    let mut i: usize = 0;
    while i < n
        invariant
            n == m@.len(),
            i <= n,
            forall|k: int| 0 <= k < i ==> (#[trigger] m@[k]).1 <= best,
            i > 0 ==> exists|k: int| 0 <= k < i && (#[trigger] m@[k]).1 == best,
            i == 0 ==> best == 0,
        decreases n - i,
    {
        if m[i].1 > best {
            best = m[i].1;
            proof {
                assert(m@[i as int].1 == best);
            }
        } else {
            proof {
                if i == 0 {
                    assert(m@[0].1 == best);
                }
            }
        }
        i += 1;
    }
    proof {
        assert forall|x: u128, n2: int|
            #[trigger] has_leaf_path(g, x, n2) implies n2 <= best + 1 by {
            let p = choose|p: Seq<u128>|
                #[trigger] leaf_path(g, p) && p.first() == x && p.len() == n2;
            lemma_leaf_path_starts_in(g, p);
            assert(g.contains_key(x));
            assert(pairs_map(m@).contains_key(x));
            assert(pair_keys(m@).contains(x));
            let k = choose|k: int|
                0 <= k < pair_keys(m@).len() && (#[trigger] pair_keys(m@)[k]) == x;
            assert(m@[k].0 == x);
            assert(pairs_map(m@)[x] == m@[k].1);
            assert(n2 <= pairs_map(m@)[x] + 1);
            assert(m@[k].1 <= best);
        }
        if g.dom().len() > 0 {
            assert(exists|x: u128| g.dom().contains(x)) by {
                if !(exists|x: u128| g.dom().contains(x)) {
                    assert(g.dom() =~= Set::<u128>::empty());
                }
            }
            let x0 = choose|x: u128| g.dom().contains(x);
            assert(pairs_map(m@).contains_key(x0));
            assert(pair_keys(m@).contains(x0));
            let k0 = choose|k: int|
                0 <= k < pair_keys(m@).len() && (#[trigger] pair_keys(m@)[k]) == x0;
            assert(m@.len() > 0);
            let k = choose|k: int| 0 <= k < m@.len() && (#[trigger] m@[k]).1 == best;
            let xk = m@[k].0;
            assert(pairs_map(m@).contains_key(xk) && pairs_map(m@)[xk] == best);
            assert(has_leaf_path(g, xk, best as int + 1));
        }
    }
    best
}

/// Linear key lookup in a reverse-adjacency vector.
fn pairs_has_key(v: &Vec<(u128, Vec<u128>)>, x: u128) -> (r: bool)
    ensures
        r == ids_of_pairs(v@).contains(x),
{
    let mut i: usize = 0;
    while i < v.len()
        invariant
            i <= v@.len(),
            forall|k: int| 0 <= k < i ==> (#[trigger] v@[k]).0 != x,
        decreases v@.len() - i,
    {
        if v[i].0 == x {
            proof {
                assert(ids_of_pairs(v@)[i as int] == x);
            }
            return true;
        }
        i += 1;
    }
    proof {
        if ids_of_pairs(v@).contains(x) {
            let k = choose|k: int|
                0 <= k < ids_of_pairs(v@).len() && (#[trigger] ids_of_pairs(v@)[k]) == x;
            assert(v@[k].0 == x);
        }
    }
    false
}

/// The nodes that the reverse adjacency lists no parent for, in store
/// order: exactly the roots.
fn roots(graph: &AcyclicGraph, parents: &Vec<(u128, Vec<u128>)>) -> (r: Vec<u128>)
    requires
        graph.wf(),
        forall|c: u128|
            #![trigger ids_of_pairs(parents@).contains(c)]
            #![trigger has_parent(graph.model(), c)]
            ids_of_pairs(parents@).contains(c) <==> has_parent(graph.model(), c),
    ensures
        forall|x: u128|
            #![trigger r@.contains(x)]
            #![trigger roots_of(graph.model()).contains(x)]
            r@.contains(x) <==> roots_of(graph.model()).contains(x),
        r@.no_duplicates(),
        r@.len() == roots_of(graph.model()).len(),
{
    proof {
        lemma_sorted_ids_no_dup(graph.nodes@);
        lemma_map_of_dom(graph.nodes@);
        lemma_map_of_index(graph.nodes@);
    }
    let ghost g = graph.model();
    let mut r: Vec<u128> = Vec::new();
    let n = graph.nodes.len();
    let mut i: usize = 0;
    while i < n
        invariant
            graph.wf(),
            g == graph.model(),
            forall|c: u128|
                #![trigger ids_of_pairs(parents@).contains(c)]
                #![trigger has_parent(g, c)]
                ids_of_pairs(parents@).contains(c) <==> has_parent(g, c),
            n == graph.nodes@.len(),
            i <= n,
            forall|x: u128|
                #![trigger r@.contains(x)]
                r@.contains(x) <==> (ids(graph.nodes@).take(i as int).contains(x) && !has_parent(
                    g,
                    x,
                )),
            r@.no_duplicates(),
        decreases n - i,
    {
        let id = graph.nodes[i].0;
        let ghost rold = r@;
        let found = pairs_has_key(parents, id);
        if !found {
            r.push(id);
        }
        proof {
            lemma_sorted_ids_no_dup(graph.nodes@);
            assert(ids(graph.nodes@)[i as int] == id);
            crate::graph::lemma_take_push(ids(graph.nodes@), i as int, id);
            if !found {
                assert(!rold.contains(id)) by {
                    if ids(graph.nodes@).take(i as int).contains(id) {
                        let j = choose|j: int|
                            0 <= j < i && (#[trigger] ids(graph.nodes@).take(i as int)[j]) == id;
                        assert(ids(graph.nodes@)[j] == ids(graph.nodes@)[i as int]);
                    }
                }
                assert(r@ == rold.push(id));
            }
            assert forall|x: u128| #![trigger r@.contains(x)]
                r@.contains(x) <==> (ids(graph.nodes@).take(i as int + 1).contains(x)
                    && !has_parent(g, x)) by {
                if !found {
                    if r@.contains(x) {
                        let j = choose|j: int| 0 <= j < r@.len() && (#[trigger] r@[j]) == x;
                        if j < rold.len() {
                            assert(rold[j] == x);
                            assert(rold.contains(x));
                        } else {
                            assert(x == id);
                        }
                    }
                    if ids(graph.nodes@).take(i as int + 1).contains(x) && !has_parent(g, x) {
                        if x == id {
                            assert(r@[r@.len() - 1] == id);
                        } else {
                            assert(ids(graph.nodes@).take(i as int).contains(x));
                            assert(rold.contains(x));
                            let j = choose|j: int| 0 <= j < rold.len() && (#[trigger] rold[j]) == x;
                            assert(r@[j] == x);
                        }
                    }
                } else {
                    if ids(graph.nodes@).take(i as int + 1).contains(x) && !has_parent(g, x) {
                        if x != id {
                            assert(ids(graph.nodes@).take(i as int).contains(x));
                        }
                    }
                }
            }
        }
        i += 1;
    }
    proof {
        assert(ids(graph.nodes@).take(n as int) =~= ids(graph.nodes@));
        assert forall|x: u128|
            #![trigger r@.contains(x)]
            #![trigger roots_of(g).contains(x)]
            r@.contains(x) <==> roots_of(g).contains(x) by {
            if r@.contains(x) {
                assert(ids(graph.nodes@).contains(x));
                assert(g.contains_key(x));
            }
            if roots_of(g).contains(x) {
                assert(g.contains_key(x));
                assert(ids(graph.nodes@).contains(x));
            }
        }
        r@.unique_seq_to_set();
        assert(r@.to_set() =~= roots_of(g));
    }
    r
}

/// `x` is the end of some walk of exactly `n` identifiers from `root`.
pub open spec fn from_root_len(g: Map<u128, NodeModel>, root: u128, x: u128, n: int) -> bool {
    exists|p: Seq<u128>|
        #[trigger] is_path(g, p) && p.first() == root && p.last() == x && p.len() == n
}

/// One more step onto the end of a walk from the root.
pub(crate) proof fn lemma_from_root_step(g: Map<u128, NodeModel>, root: u128, x: u128, c: u128, n: int)
    requires
        from_root_len(g, root, x, n),
        edge(g, x, c),
    ensures
        from_root_len(g, root, c, n + 1),
{
    let p = choose|p: Seq<u128>|
        #[trigger] is_path(g, p) && p.first() == root && p.last() == x && p.len() == n;
    let p2 = p.push(c);
    assert(is_path(g, p2)) by {
        assert forall|i: int| 0 <= i < p2.len() - 1 implies edge(g, #[trigger] p2[i], p2[i + 1]) by {
            if i < p.len() - 1 {
                assert(edge(g, p[i], p[i + 1]));
            }
        }
    }
    assert(is_path(g, p2) && p2.first() == root && p2.last() == c && p2.len() == n + 1);
}

/// A member of a level's child concatenation is some level member's child.
pub(crate) proof fn lemma_next_level_member(g: Map<u128, NodeModel>, l: Seq<u128>, y: u128)
    requires
        next_level(g, l).contains(y),
    ensures
        exists|x: u128| #[trigger] l.contains(x) && edge(g, x, y),
    decreases l.len(),
{
    let head = if g.contains_key(l.first()) {
        g[l.first()].childs
    } else {
        Seq::<u128>::empty()
    };
    let k = choose|k: int|
        0 <= k < next_level(g, l).len() && (#[trigger] next_level(g, l)[k]) == y;
    assert(next_level(g, l) == head + next_level(g, l.drop_first()));
    if k < head.len() {
        assert(head[k] == y);
        assert(g.contains_key(l.first()));
        assert(g[l.first()].childs.contains(y));
        assert(edge(g, l.first(), y));
        assert(l.contains(l.first())) by {
            assert(l[0] == l.first());
        }
    } else {
        assert(next_level(g, l.drop_first())[k - head.len()] == y);
        assert(next_level(g, l.drop_first()).contains(y));
        lemma_next_level_member(g, l.drop_first(), y);
        let x = choose|x: u128| #[trigger] l.drop_first().contains(x) && edge(g, x, y);
        assert(l.contains(x)) by {
            let j = choose|j: int|
                0 <= j < l.drop_first().len() && (#[trigger] l.drop_first()[j]) == x;
            assert(l[j + 1] == x);
        }
    }
}

/// Levels concatenate: the children of a joined level are the joined
/// children.
proof fn lemma_next_level_concat(g: Map<u128, NodeModel>, a: Seq<u128>, b: Seq<u128>)
    ensures
        next_level(g, a + b) == next_level(g, a) + next_level(g, b),
    decreases a.len(),
{
    if a.len() == 0 {
        assert(a + b =~= b);
        assert(next_level(g, a) + next_level(g, b) =~= next_level(g, b));
    } else {
        assert((a + b).first() == a.first());
        assert((a + b).drop_first() =~= a.drop_first() + b);
        lemma_next_level_concat(g, a.drop_first(), b);
        assert(next_level(g, a + b) =~= next_level(g, a) + next_level(g, b)) by {
            assert(next_level(g, a) == (if g.contains_key(a.first()) {
                g[a.first()].childs
            } else {
                Seq::<u128>::empty()
            }) + next_level(g, a.drop_first()));
        }
    }
}

/// Reading one more node of a level appends exactly its children.
proof fn lemma_next_level_take_step(g: Map<u128, NodeModel>, s: Seq<u128>, i: int)
    requires
        0 <= i < s.len(),
    ensures
        next_level(g, s.take(i + 1)) == next_level(g, s.take(i)) + (if g.contains_key(s[i]) {
            g[s[i]].childs
        } else {
            Seq::<u128>::empty()
        }),
{
    assert(s.take(i + 1) =~= s.take(i) + seq![s[i]]);
    lemma_next_level_concat(g, s.take(i), seq![s[i]]);
    assert(seq![s[i]].drop_first() =~= Seq::<u128>::empty());
    assert(seq![s[i]].drop_first().len() == 0);
    assert(next_level(g, seq![s[i]].drop_first()) =~= Seq::<u128>::empty());
    assert(next_level(g, seq![s[i]]) == (if g.contains_key(seq![s[i]].first()) {
        g[seq![s[i]].first()].childs
    } else {
        Seq::<u128>::empty()
    }) + next_level(g, seq![s[i]].drop_first()));
    assert(next_level(g, seq![s[i]]) =~= (if g.contains_key(s[i]) {
        g[s[i]].childs
    } else {
        Seq::<u128>::empty()
    }));
}

/// The breadth-first layering from `root`, outward along children edges.
/// Termination rests on acyclicity: a level can only be non-empty while
/// walks of its index's length exist, and no walk outgrows the node count.
fn levels(graph: &AcyclicGraph, root: u128) -> (r: Vec<Vec<u128>>)
    requires
        graph.wf(),
        graph.model().contains_key(root),
    ensures
        levels_shape(graph.model(), root, r@.map_values(|v: Vec<u128>| v@)),
        r@.len() <= graph.model().dom().len(),
{
    let ghost g = graph.model();
    proof {
        lemma_sorted_ids_no_dup(graph.nodes@);
        lemma_map_of_dom(graph.nodes@);
        lemma_map_of_index(graph.nodes@);
    }
    let mut lv: Vec<Vec<u128>> = Vec::new();
    let mut current: Vec<u128> = Vec::new();
    current.push(root);
    proof {
        assert(is_path(g, seq![root]) && seq![root].first() == root && seq![root].last() == root
            && seq![root].len() == 1);
        assert(from_root_len(g, root, root, 1));
    }
    while current.len() > 0
        invariant
            graph.wf(),
            g == graph.model(),
            g.contains_key(root),
            lv@.len() == 0 ==> current@ == seq![root],
            lv@.len() > 0 ==> lv@[0]@ == seq![root],
            lv@.len() > 0 ==> current@ == next_level(g, lv@[lv@.len() - 1]@),
            forall|i: int| 0 <= i < lv@.len() ==> (#[trigger] lv@[i]@).len() >= 1,
            forall|i: int|
                0 <= i < lv@.len() - 1 ==> (#[trigger] lv@[i + 1]@) == next_level(g, lv@[i]@),
            forall|k: int|
                0 <= k < current@.len() ==> g.contains_key(#[trigger] current@[k]) && from_root_len(
                    g,
                    root,
                    current@[k],
                    lv@.len() as int + 1,
                ),
            lv@.len() <= g.dom().len(),
        decreases g.dom().len() - lv@.len(),
    {
        proof {
            let x = current@[0];
            assert(from_root_len(g, root, x, lv@.len() as int + 1));
            let p = choose|p: Seq<u128>|
                #[trigger] is_path(g, p) && p.first() == root && p.last() == x && p.len() == lv@.len() as int + 1;
            crate::paths::lemma_path_len_bound(g, p);
        }
        let mut nxt: Vec<u128> = Vec::new();
        let clen_cur = current.len();
        let mut i: usize = 0;
        proof {
            assert(current@.take(0) =~= Seq::<u128>::empty());
        }
        while i < clen_cur
            invariant
                graph.wf(),
                g == graph.model(),
                clen_cur == current@.len(),
                i <= clen_cur,
                forall|k: int|
                    0 <= k < current@.len() ==> g.contains_key(#[trigger] current@[k])
                        && from_root_len(g, root, current@[k], lv@.len() as int + 1),
                nxt@ == next_level(g, current@.take(i as int)),
                forall|k: int|
                    0 <= k < nxt@.len() ==> g.contains_key(#[trigger] nxt@[k]) && from_root_len(
                        g,
                        root,
                        nxt@[k],
                        lv@.len() as int + 2,
                    ),
            decreases clen_cur - i,
        {
            let x = current[i];
            let idx = match graph.find_index(x) {
                Some(idx) => idx,
                Option::None => {
                    proof {
                        lemma_map_of_dom(graph.nodes@);
                        assert(ids(graph.nodes@).contains(x));
                    }
                    return lv;
                },
            };
            proof {
                lemma_sorted_ids_no_dup(graph.nodes@);
                lemma_map_of_index(graph.nodes@);
                assert(g.contains_key(x) && g[x] == graph.nodes@[idx as int].1@);
            }
            let node = &graph.nodes[idx].1;
            let cl = node.childs.len();
            let mut cj: usize = 0;
            let ghost nxt0 = nxt@;
            proof {
                assert(node.childs@.take(0) =~= Seq::<u128>::empty());
                assert(nxt@ =~= nxt0 + node.childs@.take(0));
            }
            while cj < cl
                invariant
                    graph.wf(),
                    g == graph.model(),
                    g.contains_key(x) && g[x] == node@,
                    node == &graph.nodes@[idx as int].1,
                    idx < graph.nodes@.len(),
                    cl == node.childs@.len(),
                    cj <= cl,
                    i < current@.len(),
                    x == current@[i as int],
                    from_root_len(g, root, x, lv@.len() as int + 1),
                    nxt@ == nxt0 + node.childs@.take(cj as int),
                    forall|k: int|
                        0 <= k < nxt0.len() ==> g.contains_key(#[trigger] nxt0[k]) && from_root_len(
                            g,
                            root,
                            nxt0[k],
                            lv@.len() as int + 2,
                        ),
                    forall|k: int|
                        0 <= k < nxt@.len() ==> g.contains_key(#[trigger] nxt@[k]) && from_root_len(
                            g,
                            root,
                            nxt@[k],
                            lv@.len() as int + 2,
                        ),
                decreases cl - cj,
            {
                let c = node.childs[cj];
                proof {
                    assert(edge(g, x, c)) by {
                        assert(node.childs@[cj as int] == c);
                    }
                    lemma_from_root_step(g, root, x, c, lv@.len() as int + 1);
                    assert(g.contains_key(c));
                }
                nxt.push(c);
                proof {
                    assert(nxt@ =~= nxt0 + node.childs@.take(cj as int + 1));
                }
                cj += 1;
            }
            proof {
                assert(node.childs@.take(cl as int) =~= node.childs@);
                lemma_next_level_take_step(g, current@, i as int);
                assert(nxt@ == next_level(g, current@.take(i as int + 1)));
            }
            i += 1;
        }
        proof {
            assert(current@.take(clen_cur as int) =~= current@);
            assert(nxt@ == next_level(g, current@));
        }
        let ghost lv0 = lv@;
        let ghost cur0 = current@;
        lv.push(current);
        current = nxt;
        proof {
            assert(lv@ == lv0.push(
                lv@[lv@.len() - 1],
            ));
            assert(lv@[lv@.len() - 1]@ == cur0);
            assert forall|i2: int|
                0 <= i2 < lv@.len() - 1 implies (#[trigger] lv@[i2 + 1]@) == next_level(
                g,
                lv@[i2]@,
            ) by {
                if i2 + 1 < lv0.len() {
                    assert(lv@[i2]@ == lv0[i2]@ && lv@[i2 + 1]@ == lv0[i2 + 1]@);
                } else {
                    assert(lv@[i2 + 1]@ == cur0);
                    if lv0.len() > 0 {
                        assert(lv@[i2]@ == lv0[lv0.len() - 1]@);
                    }
                }
            }
        }
    }
    proof {
        let m = lv@.map_values(|v: Vec<u128>| v@);
        assert(lv@.len() >= 1) by {
            if lv@.len() == 0 {
                assert(current@ == seq![root]);
            }
        }
        assert(m[0] == lv@[0]@);
        assert(m[m.len() - 1] == lv@[lv@.len() - 1]@);
        assert(next_level(g, m[m.len() - 1]).len() == 0);
        assert forall|i: int| 0 <= i < m.len() - 1 implies (#[trigger] m[i + 1]) == next_level(
            g,
            m[i],
        ) by {
            assert(lv@[i + 1]@ == next_level(g, lv@[i]@));
        }
        assert forall|i: int| 0 <= i < m.len() implies (#[trigger] m[i]).len() >= 1 by {
            assert(lv@[i]@.len() >= 1);
        }
        assert(levels_shape(g, root, m));
    }
    lv
}

/// Forward breadth-first walk from `root` that fails as soon as any node is
/// met twice: true exactly when every reachable node has a single reachable
/// parent and nothing points back at the root.
fn have_only_one_path(graph: &AcyclicGraph, root: u128) -> (r: bool)
    requires
        graph.wf(),
        graph.model().contains_key(root),
    ensures
        r == single_path_from(graph.model(), root),
{
    let ghost g = graph.model();
    proof {
        lemma_sorted_ids_no_dup(graph.nodes@);
        lemma_map_of_dom(graph.nodes@);
        lemma_map_of_index(graph.nodes@);
        lemma_reaches_refl(g, root);
    }
    let mut seen: Vec<u128> = Vec::new();
    seen.push(root);
    let ghost mut par: Map<u128, u128> = Map::empty();
    let mut head: usize = 0;
    proof {
        if g.dom().len() == 0 {
            g.dom().lemma_len0_is_empty();
        }
    }
    loop
        invariant
            graph.wf(),
            g == graph.model(),
            g.contains_key(root),
            head <= seen@.len(),
            1 <= seen@.len() <= g.dom().len(),
            seen@[0] == root,
            seen@.no_duplicates(),
            forall|k: int|
                0 <= k < seen@.len() ==> reaches(g, root, #[trigger] seen@[k]) && g.contains_key(
                    seen@[k],
                ),
            forall|k: int, c: u128|
                0 <= k < head && #[trigger] edge(g, seen@[k], c) ==> seen@.contains(c)
                    && par.contains_key(c) && par[c] == seen@[k] && c != root,
            forall|k: int|
                1 <= k < seen@.len() ==> par.contains_key(#[trigger] seen@[k]) && reaches(
                    g,
                    root,
                    par[seen@[k]],
                ) && edge(g, par[seen@[k]], seen@[k]),
            forall|x: u128|
                #[trigger] par.contains_key(x) ==> exists|k: int|
                    0 <= k < head && seen@[k] == par[x],
        decreases g.dom().len() - seen@.len(), seen@.len() - head,
    {
        if head == seen.len() {
            proof {
                let sset = seen@.to_set();
                assert(sset.contains(root)) by {
                    assert(seen@[0] == root);
                }
                assert forall|p: u128, c: u128|
                    reaches(g, root, p) && #[trigger] edge(g, p, c) implies c != root by {
                    if !sset.contains(p) {
                        lemma_closed_set_blocks(g, sset, root, p);
                    }
                    let k = choose|k: int| 0 <= k < seen@.len() && (#[trigger] seen@[k]) == p;
                    assert(edge(g, seen@[k], c));
                }
                assert forall|p1: u128, p2: u128, c: u128|
                    reaches(g, root, p1) && reaches(g, root, p2) && #[trigger] edge(g, p1, c)
                        && #[trigger] edge(g, p2, c) implies p1 == p2 by {
                    if !sset.contains(p1) {
                        lemma_closed_set_blocks(g, sset, root, p1);
                    }
                    if !sset.contains(p2) {
                        lemma_closed_set_blocks(g, sset, root, p2);
                    }
                    let k1 = choose|k: int| 0 <= k < seen@.len() && (#[trigger] seen@[k]) == p1;
                    let k2 = choose|k: int| 0 <= k < seen@.len() && (#[trigger] seen@[k]) == p2;
                    assert(edge(g, seen@[k1], c));
                    assert(edge(g, seen@[k2], c));
                    assert(par[c] == p1 && par[c] == p2);
                }
                assert(single_path_from(g, root));
            }
            return true;
        }
        let current = seen[head];
        let idx = match graph.find_index(current) {
            Some(i) => i,
            Option::None => {
                proof {
                    assert(ids(graph.nodes@).contains(current)) by {
                        lemma_map_of_dom(graph.nodes@);
                    }
                }
                return false;
            },
        };
        proof {
            assert(g.contains_key(current) && g[current] == graph.nodes@[idx as int].1@) by {
                lemma_sorted_ids_no_dup(graph.nodes@);
                lemma_map_of_index(graph.nodes@);
            }
        }
        let node = &graph.nodes[idx].1;
        let clen = node.childs.len();
        let ghost seen0 = seen@;
        let mut ci: usize = 0;
        while ci < clen
            invariant
                graph.wf(),
                g == graph.model(),
                g.contains_key(root),
                seen0.len() <= seen@.len(),
                idx < graph.nodes@.len(),
                g.contains_key(current) && g[current] == node@,
                node == &graph.nodes@[idx as int].1,
                clen == node.childs@.len(),
                ci <= clen,
                head < seen@.len(),
                seen@[head as int] == current,
                1 <= seen@.len() <= g.dom().len(),
                seen@[0] == root,
                seen@.no_duplicates(),
                forall|k: int|
                    0 <= k < seen@.len() ==> reaches(g, root, #[trigger] seen@[k])
                        && g.contains_key(seen@[k]),
                forall|k: int, c: u128|
                    0 <= k < head && #[trigger] edge(g, seen@[k], c) ==> seen@.contains(c)
                        && par.contains_key(c) && par[c] == seen@[k] && c != root,
                forall|k: int|
                    1 <= k < seen@.len() ==> par.contains_key(#[trigger] seen@[k]) && reaches(
                        g,
                        root,
                        par[seen@[k]],
                    ) && edge(g, par[seen@[k]], seen@[k]),
                forall|x: u128|
                    #[trigger] par.contains_key(x) ==> (exists|k: int|
                        0 <= k < head && seen@[k] == par[x]) || (par[x] == current
                        && node.childs@.take(ci as int).contains(x)),
                forall|j: int|
                    0 <= j < ci ==> seen@.contains(#[trigger] node.childs@[j]) && par.contains_key(
                        node.childs@[j],
                    ) && par[node.childs@[j]] == current && node.childs@[j] != root,
            decreases clen - ci,
        {
            let c = node.childs[ci];
            proof {
                assert(edge(g, current, c)) by {
                    assert(node.childs@[ci as int] == c);
                }
                assert(reaches(g, root, current));
                lemma_reaches_step(g, root, current, c);
            }
            if vec_contains(&seen, c) {
                proof {
                    if c == root {
                        if single_path_from(g, root) {
                            assert(edge(g, current, c));
                            assert(c != root);
                        }
                    } else {
                        let k = choose|k: int| 0 <= k < seen@.len() && (#[trigger] seen@[k]) == c;
                        assert(k >= 1) by {
                            assert(seen@[0] == root);
                        }
                        assert(par.contains_key(c) && reaches(g, root, par[c]) && edge(
                            g,
                            par[c],
                            c,
                        ));
                        assert(par[c] != current) by {
                            if par[c] == current {
                                assert(node.childs@.take(ci as int).contains(c)) by {
                                    if exists|k2: int| 0 <= k2 < head && seen@[k2] == par[c] {
                                        let k2 = choose|k2: int|
                                            0 <= k2 < head && (#[trigger] seen@[k2]) == par[c];
                                        assert(seen@[k2] == seen@[head as int]);
                                    }
                                }
                                let j = choose|j: int|
                                    0 <= j < ci && (#[trigger] node.childs@.take(ci as int)[j])
                                        == c;
                                assert(node.childs@[j] == node.childs@[ci as int]);
                            }
                        }
                        if single_path_from(g, root) {
                            assert(edge(g, par[c], c) && edge(g, current, c));
                            assert(par[c] == current);
                        }
                    }
                    assert(!single_path_from(g, root));
                }
                return false;
            }
            proof {
                assert(g.contains_key(c));
            }
            let ghost before = seen@;
            seen.push(c);
            proof {
                par = par.insert(c, current);
                assert(seen@ == before.push(c));
                assert forall|x: u128| before.contains(x) implies seen@.contains(x) by {
                    let k = choose|k: int| 0 <= k < before.len() && (#[trigger] before[k]) == x;
                    assert(seen@[k] == x);
                }
                assert forall|k: int, cc: u128|
                    0 <= k < head && #[trigger] edge(g, seen@[k], cc) implies seen@.contains(cc)
                        && par.contains_key(cc) && par[cc] == seen@[k] && cc != root by {
                    assert(seen@[k] == before[k]);
                    assert(edge(g, before[k], cc));
                    assert(before.contains(cc));
                    assert(cc != c) by {
                        if cc == c {
                            assert(before.contains(c));
                        }
                    }
                }
                assert forall|j: int|
                    0 <= j < ci + 1 implies seen@.contains(#[trigger] node.childs@[j])
                        && par.contains_key(node.childs@[j]) && par[node.childs@[j]] == current
                        && node.childs@[j] != root by {
                    if j < ci {
                        assert(before.contains(node.childs@[j]));
                        assert(node.childs@[j] != c) by {
                            if node.childs@[j] == c {
                                assert(before.contains(c));
                            }
                        }
                    } else {
                        assert(seen@[seen@.len() - 1] == c);
                        assert(c != root) by {
                            assert(before[0] == root);
                            assert(before.contains(root));
                        }
                    }
                }
                assert forall|x: u128|
                    #[trigger] par.contains_key(x) implies (exists|k: int|
                        0 <= k < head && seen@[k] == par[x]) || (par[x] == current
                        && node.childs@.take(ci as int + 1).contains(x)) by {
                    if x == c {
                        assert(node.childs@.take(ci as int + 1)[ci as int] == c);
                    } else {
                        if exists|k: int| 0 <= k < head && before[k] == par[x] {
                            let k = choose|k: int|
                                0 <= k < head && (#[trigger] before[k]) == par[x];
                            assert(seen@[k] == par[x]);
                        } else {
                            let j = choose|j: int|
                                0 <= j < ci && (#[trigger] node.childs@.take(ci as int)[j]) == x;
                            assert(node.childs@.take(ci as int + 1)[j] == x);
                        }
                    }
                }
                assert(seen@.len() <= g.dom().len()) by {
                    seen@.unique_seq_to_set();
                    assert forall|x: u128| seen@.to_set().contains(x) implies g.dom().contains(
                        x,
                    ) by {
                        let k = choose|k: int| 0 <= k < seen@.len() && (#[trigger] seen@[k]) == x;
                    }
                    vstd::set_lib::lemma_len_subset(seen@.to_set(), g.dom());
                }
            }
            ci += 1;
        }
        proof {
            assert forall|k: int, c: u128|
                0 <= k < head + 1 && #[trigger] edge(g, seen@[k], c) implies seen@.contains(c)
                    && par.contains_key(c) && par[c] == seen@[k] && c != root by {
                if k == head {
                    assert(g[current].childs == node.childs@);
                    let j = choose|j: int|
                        0 <= j < node.childs@.len() && (#[trigger] node.childs@[j]) == c;
                }
            }
            assert forall|x: u128|
                #[trigger] par.contains_key(x) implies exists|k: int|
                    0 <= k < head + 1 && seen@[k] == par[x] by {
                if par[x] == current && node.childs@.take(clen as int).contains(x) {
                    assert(seen@[head as int] == par[x]);
                }
            }
        }
        head += 1;
    }
}

/// Some node sits at exactly this distance from a leaf.
pub open spec fn deepest(g: Map<u128, NodeModel>, dmax: int) -> bool {
    exists|x: u128| #[trigger] has_leaf_path(g, x, dmax + 1)
}

/// The ways validation can reject a graph.
#[derive(Debug, Clone, Copy, PartialEq, Eq, Structural)]
pub enum ValidationFailure {
    /// The number of parentless nodes found, which was not one.
    RootCountMismatch { found: usize },
    /// Some node is reachable from the root along two different walks.
    MultiplePathsDetected,
}

/// The diagnostic metrics of a validated graph, as raw counts so that any
/// averages are the caller's to take, plus the root that was found.
#[derive(Debug, Clone, Copy, PartialEq, Eq, Structural)]
pub struct Report {
    pub root: u128,
    pub node_count: usize,
    pub childs_total: u128,
    pub branching_nodes: usize,
    pub max_deepth: usize,
    pub level_count: usize,
    pub levels_total_width: u128,
}

/// Re-derive the structural facts of a finished graph, independently of how
/// it was built: exactly one root must exist and every node must be
/// reachable from it along exactly one walk.  The returned report carries
/// the diagnostic statistics; the configuration is what the caller compares
/// them against, so it is not read here.
#[verifier::rlimit(100)]
pub fn validator(graph: &AcyclicGraph, _cfg: &crate::generator::Config) -> (r: Result<
    Report,
    ValidationFailure,
>)
    requires
        graph.wf(),
    ensures
        r matches Ok(rep) ==> roots_of(graph.model()).len() == 1,
        r matches Ok(rep) ==> roots_of(graph.model()).contains(rep.root) && single_path_from(
            graph.model(),
            rep.root,
        ),
        r matches Ok(rep) ==> rep.node_count == graph.nodes@.len() && rep.childs_total
            == sum_childs(graph.nodes@) && rep.branching_nodes == count_branching(graph.nodes@),
        r matches Ok(rep) ==> (forall|x: u128, n: int|
            #[trigger] has_leaf_path(graph.model(), x, n) ==> n <= rep.max_deepth + 1),
        r matches Ok(rep) ==> (graph.model().dom().len() > 0 ==> deepest(
            graph.model(),
            rep.max_deepth as int,
        )),
        r matches Ok(rep) ==> exists|root: u128, lv: Seq<Seq<u128>>|
            #[trigger] levels_shape(graph.model(), root, lv) && roots_of(graph.model()).contains(
                root,
            ) && rep.level_count == lv.len() && rep.levels_total_width == sum_widths(
                lv.drop_first(),
            ),
        r matches Err(ValidationFailure::RootCountMismatch { found }) ==> found == roots_of(
            graph.model(),
        ).len() && found != 1,
        r == Err::<Report, ValidationFailure>(ValidationFailure::MultiplePathsDetected)
            ==> roots_of(graph.model()).len() == 1 && exists|root: u128|
            #[trigger] roots_of(graph.model()).contains(root) && !single_path_from(
                graph.model(),
                root,
            ),
{
    let ghost g = graph.model();
    proof {
        lemma_sorted_ids_no_dup(graph.nodes@);
        lemma_map_of_dom(graph.nodes@);
        lemma_map_of_index(graph.nodes@);
    }
    let n = graph.nodes.len();
    let mut childs_total: u128 = 0;
    let mut branching: usize = 0;
    let mut i: usize = 0;
    proof {
        assert(graph.nodes@.take(0) =~= Seq::<(u128, Node)>::empty());
    }
    while i < n
        invariant
            graph.wf(),
            g == graph.model(),
            n == graph.nodes@.len(),
            i <= n,
            childs_total == sum_childs(graph.nodes@.take(i as int)),
            branching == count_branching(graph.nodes@.take(i as int)),
            childs_total <= (i as u128) * 0xffff_ffff_ffff_ffffu128,
            branching <= i,
        decreases n - i,
    {
        let cl = graph.nodes[i].1.childs.len();
        proof {
            assert(graph.nodes@.take(i as int + 1).drop_last() =~= graph.nodes@.take(i as int));
            assert(graph.nodes@.take(i as int + 1).last() == graph.nodes@[i as int]);
            assert(cl as u128 <= 0xffff_ffff_ffff_ffffu128);
            assert(childs_total + cl as u128 <= (i as u128 + 1) * 0xffff_ffff_ffff_ffffu128)
                by (nonlinear_arith)
                requires
                    childs_total <= (i as u128) * 0xffff_ffff_ffff_ffffu128,
                    cl as u128 <= 0xffff_ffff_ffff_ffffu128,
            {
            }
            assert((i as u128 + 1) * 0xffff_ffff_ffff_ffffu128 < 0xffff_ffff_ffff_ffff_ffff_ffff_ffff_ffffu128)
                by (nonlinear_arith)
                requires
                    i as u128 + 1 <= 0x1_0000_0000_0000_0000u128,
            {
            }
        }
        childs_total = childs_total + cl as u128;
        if cl > 0 {
            branching = branching + 1;
        }
        i += 1;
    }
    proof {
        assert(graph.nodes@.take(n as int) =~= graph.nodes@);
    }
    let parents = graph.parents();
    proof {
        assert(adj_ok(g, parents@));
    }
    let md = max_deepth(graph, &parents);
    let rts = roots(graph, &parents);
    if rts.len() != 1 {
        return Err(ValidationFailure::RootCountMismatch { found: rts.len() });
    }
    let root = rts[0];
    proof {
        assert(rts@[0] == root);
        assert(rts@.contains(root));
        assert(roots_of(g).contains(root));
        assert(g.contains_key(root));
    }
    let lv = levels(graph, root);
    let ghost lvv = lv@.map_values(|v: Vec<u128>| v@);
    let ghost t = lvv.drop_first();
    let lvn = lv.len();
    let mut total_w: u128 = 0;
    let mut li: usize = 1;
    proof {
        assert(lvn == lvv.len());
        assert(t.take(0) =~= Seq::<Seq<u128>>::empty());
        assert(lvn <= g.dom().len());
        assert(g.dom().len() == n);
    }
    while li < lvn
        invariant
            graph.wf(),
            g == graph.model(),
            n == graph.nodes@.len(),
            lvn == lv@.len(),
            lvv == lv@.map_values(|v: Vec<u128>| v@),
            t == lvv.drop_first(),
            lvn <= n,
            1 <= li <= lvn,
            total_w == sum_widths(t.take(li as int - 1)),
            total_w <= ((li - 1) as u128) * 0xffff_ffff_ffff_ffffu128,
        decreases lvn - li,
    {
        let w = lv[li].len();
        proof {
            assert(t.take(li as int).drop_last() =~= t.take(li as int - 1));
            assert(t.take(li as int).last() == t[li as int - 1]);
            assert(t[li as int - 1] == lvv[li as int]);
            assert(lvv[li as int] == lv@[li as int]@);
            assert(w as u128 <= 0xffff_ffff_ffff_ffffu128);
            assert(total_w + w as u128 <= (li as u128) * 0xffff_ffff_ffff_ffffu128)
                by (nonlinear_arith)
                requires
                    total_w <= ((li - 1) as u128) * 0xffff_ffff_ffff_ffffu128,
                    w as u128 <= 0xffff_ffff_ffff_ffffu128,
                    li >= 1,
            {
            }
            assert((li as u128) * 0xffff_ffff_ffff_ffffu128 < 0xffff_ffff_ffff_ffff_ffff_ffff_ffff_ffffu128)
                by (nonlinear_arith)
                requires
                    li as u128 <= 0x1_0000_0000_0000_0000u128,
            {
            }
        }
        total_w = total_w + w as u128;
        li += 1;
    }
    proof {
        assert(t.take(lvn as int - 1) =~= t);
    }
    if !have_only_one_path(graph, root) {
        proof {
            assert(roots_of(g).contains(root) && !single_path_from(g, root));
        }
        return Err(ValidationFailure::MultiplePathsDetected);
    }
    proof {
        assert(roots_of(g).contains(root) && single_path_from(g, root));
        assert(levels_shape(g, root, lvv) && roots_of(g).contains(root) && lvn == lvv.len()
            && total_w == sum_widths(lvv.drop_first()));
        assert(roots_of(g).len() == 1);
        assert(childs_total == sum_childs(graph.nodes@));
        assert(branching == count_branching(graph.nodes@));
        assert(forall|x: u128, n2: int| #[trigger] has_leaf_path(g, x, n2) ==> n2 <= md + 1);
        assert(g.dom().len() > 0 ==> deepest(g, md as int));
        assert(exists|root2: u128, lv2: Seq<Seq<u128>>|
            #[trigger] levels_shape(g, root2, lv2) && roots_of(g).contains(root2) && lvn
                == lv2.len() && total_w == sum_widths(lv2.drop_first()));
    }
    Ok(
        Report {
            root,
            node_count: n,
            childs_total,
            branching_nodes: branching,
            max_deepth: md,
            level_count: lvn,
            levels_total_width: total_w,
        },
    )
}

} // verus!
