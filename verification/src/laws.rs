//! Crate-level laws: facts that tie the public operations together.

use vstd::prelude::*;

use crate::graph::{Error, add_edge_err, graph_wf, has_parent};
use crate::paths::{
    acyclic, edge, is_path, lemma_add_edge_acyclic, lemma_reaches_refl, lemma_with_edge_edges,
    reaches, tree_rooted, with_edge,
};
use crate::generator::within_depth;
use crate::validator::{
    from_root_len, lemma_from_root_step, lemma_next_level_member, levels_shape, next_level,
    roots_of, single_path_from,
};

verus! {

/// Inserting the same edge twice: a pair that `add_child` has just accepted
/// is refused as a duplicate if offered again, never as a cycle, and the
/// refusal leaves the graph unchanged (`add_child`'s own contract already
/// says every refusal leaves the store exactly as it was).
pub proof fn lemma_add_edge_idempotent_rejection(
    g: Map<u128, crate::graph::NodeModel>,
    parent: u128,
    child: u128,
)
    requires
        graph_wf(g),
        add_edge_err(g, parent, child) is None,
    ensures
        add_edge_err(with_edge(g, parent, child), parent, child) == Some(
            (Error::ChildAlreadyExist { parent, child }),
        ),
{
    let g2 = with_edge(g, parent, child);
    lemma_with_edge_edges(g, parent, child);
    lemma_add_edge_acyclic(g, parent, child);
    assert(parent != child) by {
        lemma_reaches_refl(g, child);
    }
    assert(g2.contains_key(parent) && g2.contains_key(child));
    assert(g2[parent].childs.contains(child)) by {
        let cs = g[parent].childs;
        assert(g2[parent].childs == cs.push(child));
        assert(cs.push(child)[cs.len() as int] == child);
    }
    assert(!reaches(g2, child, parent)) by {
        if reaches(g2, child, parent) {
            let p = choose|p: Seq<u128>|
                #[trigger] is_path(g2, p) && p.first() == child && p.last() == parent;
            let q = p.push(child);
            assert(edge(g2, parent, child));
            assert(is_path(g2, q)) by {
                assert forall|i: int| 0 <= i < q.len() - 1 implies edge(
                    g2,
                    #[trigger] q[i],
                    q[i + 1],
                ) by {
                    if i < p.len() - 1 {
                        assert(edge(g2, p[i], p[i + 1]));
                    }
                }
            }
            assert(q.len() >= 2 && q.first() == q.last());
        }
    }
}

/// Every graph the generator returns passes both validator checks: a tree
/// has exactly one parentless node, and nothing reachable from it is
/// reachable along two walks.
pub proof fn lemma_tree_validates(g: Map<u128, crate::graph::NodeModel>, root: u128)
    requires
        graph_wf(g),
        tree_rooted(g, root),
    ensures
        roots_of(g) =~= set![root],
        roots_of(g).len() == 1,
        single_path_from(g, root),
{
    assert(!has_parent(g, root)) by {
        if has_parent(g, root) {
            let p = choose|p: u128| #[trigger] edge(g, p, root);
        }
    }
    assert(roots_of(g).contains(root));
    assert forall|x: u128| #[trigger] roots_of(g).contains(x) implies x == root by {
        if x != root {
            assert(g.contains_key(x));
            assert(reaches(g, root, x));
            let p = choose|p: Seq<u128>|
                #[trigger] is_path(g, p) && p.first() == root && p.last() == x;
            assert(p.len() >= 2) by {
                if p.len() == 1 {
                    assert(p.first() == p.last());
                }
            }
            assert(edge(g, p[p.len() - 2], p[p.len() - 1]));
            assert(has_parent(g, x));
        }
    }
    assert(roots_of(g) =~= set![root]);
    assert(set![root] =~= Set::<u128>::empty().insert(root));
    assert(Set::<u128>::empty().insert(root).len() == 1);
    assert forall|p: u128, c: u128|
        reaches(g, root, p) && #[trigger] edge(g, p, c) implies c != root by {}
    assert forall|p1: u128, p2: u128, c: u128|
        reaches(g, root, p1) && reaches(g, root, p2) && #[trigger] edge(g, p1, c)
            && #[trigger] edge(g, p2, c) implies p1 == p2 by {}
}

/// Under the validator's single-path condition, any two walks from the root
/// to the same node are one and the same: "exactly one path" in full.
pub proof fn lemma_single_path_unique_walks(
    g: Map<u128, crate::graph::NodeModel>,
    root: u128,
    p1: Seq<u128>,
    p2: Seq<u128>,
)
    requires
        single_path_from(g, root),
        is_path(g, p1),
        is_path(g, p2),
        p1.first() == root,
        p2.first() == root,
        p1.last() == p2.last(),
    ensures
        p1 == p2,
    decreases p1.len() + p2.len(),
{
    let x = p1.last();
    if p1.len() == 1 && p2.len() == 1 {
        assert(p1 =~= p2);
    } else if p1.len() == 1 {
        assert(x == root);
        let q = p2.drop_last();
        assert(is_path(g, q)) by {
            crate::paths::lemma_subpath(g, p2, 0, p2.len() - 1);
            assert(p2.subrange(0, p2.len() - 1) =~= q);
        }
        assert(reaches(g, root, q.last())) by {
            assert(q.first() == root);
        }
        assert(edge(g, p2[p2.len() - 2], root)) by {
            assert(q.last() == p2[p2.len() - 2]);
        }
    } else if p2.len() == 1 {
        assert(x == root);
        let q = p1.drop_last();
        assert(is_path(g, q)) by {
            crate::paths::lemma_subpath(g, p1, 0, p1.len() - 1);
            assert(p1.subrange(0, p1.len() - 1) =~= q);
        }
        assert(reaches(g, root, q.last())) by {
            assert(q.first() == root);
        }
        assert(edge(g, p1[p1.len() - 2], root)) by {
            assert(q.last() == p1[p1.len() - 2]);
        }
    } else {
        let q1 = p1.drop_last();
        let q2 = p2.drop_last();
        assert(is_path(g, q1) && is_path(g, q2)) by {
            crate::paths::lemma_subpath(g, p1, 0, p1.len() - 1);
            crate::paths::lemma_subpath(g, p2, 0, p2.len() - 1);
            assert(p1.subrange(0, p1.len() - 1) =~= q1);
            assert(p2.subrange(0, p2.len() - 1) =~= q2);
        }
        assert(edge(g, q1.last(), x)) by {
            assert(q1.last() == p1[p1.len() - 2]);
            assert(edge(g, p1[p1.len() - 2], p1[p1.len() - 1]));
        }
        assert(edge(g, q2.last(), x)) by {
            assert(q2.last() == p2[p2.len() - 2]);
            assert(edge(g, p2[p2.len() - 2], p2[p2.len() - 1]));
        }
        assert(reaches(g, root, q1.last()) && reaches(g, root, q2.last())) by {
            assert(q1.first() == root && q2.first() == root);
        }
        assert(q1.last() == q2.last());
        lemma_single_path_unique_walks(g, root, q1, q2);
        assert(p1 =~= p2) by {
            assert(p1 =~= q1.push(x));
            assert(p2 =~= q2.push(x));
        }
    }
}

/// Every member of a breadth-first level ends a walk from the root whose
/// length is the level's index plus one.
proof fn lemma_level_members_from_root(
    g: Map<u128, crate::graph::NodeModel>,
    root: u128,
    lv: Seq<Seq<u128>>,
    i: int,
)
    requires
        levels_shape(g, root, lv),
        0 <= i < lv.len(),
    ensures
        forall|y: u128| #[trigger] lv[i].contains(y) ==> from_root_len(g, root, y, i + 1),
    decreases i,
{
    if i == 0 {
        assert forall|y: u128| #[trigger] lv[0].contains(y) implies from_root_len(
            g,
            root,
            y,
            1,
        ) by {
            assert(y == root) by {
                let k = choose|k: int| 0 <= k < lv[0].len() && (#[trigger] lv[0][k]) == y;
            }
            assert(is_path(g, seq![root]) && seq![root].first() == root && seq![root].last() == root
                && seq![root].len() == 1);
        }
    } else {
        lemma_level_members_from_root(g, root, lv, i - 1);
        assert(lv[i] == next_level(g, lv[i - 1])) by {
            assert(lv[(i - 1) + 1] == next_level(g, lv[i - 1]));
        }
        assert forall|y: u128| #[trigger] lv[i].contains(y) implies from_root_len(
            g,
            root,
            y,
            i + 1,
        ) by {
            lemma_next_level_member(g, lv[i - 1], y);
            let x = choose|x: u128| #[trigger] lv[i - 1].contains(x) && edge(g, x, y);
            lemma_from_root_step(g, root, x, y, i);
        }
    }
}

/// A graph whose walks from the root stay within the configured level count
/// has at most that many breadth-first levels.
pub proof fn lemma_generated_levels_bounded(
    g: Map<u128, crate::graph::NodeModel>,
    root: u128,
    deepth: int,
    lv: Seq<Seq<u128>>,
)
    requires
        within_depth(g, root, deepth),
        levels_shape(g, root, lv),
    ensures
        lv.len() <= (if deepth < 1 { 1int } else { deepth }),
{
    let bound: int = if deepth < 1 { 1int } else { deepth };
    if lv.len() > bound {
        let i = lv.len() - 1;
        lemma_level_members_from_root(g, root, lv, i);
        assert(lv[i].len() >= 1);
        let y = lv[i][0];
        assert(lv[i].contains(y));
        assert(from_root_len(g, root, y, i + 1));
        let p = choose|p: Seq<u128>|
            #[trigger] is_path(g, p) && p.first() == root && p.last() == y && p.len() == i + 1;
    }
}

} // verus!
