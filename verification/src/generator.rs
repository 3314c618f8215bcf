//! Level-by-level stochastic construction of a family-tree-shaped graph.
//!
//! From a seeded generator the algorithm draws one target width per level
//! and one branching factor per frontier node, shuffles the frontier so that
//! the width cap favours no creation order, and attaches every new node to
//! exactly one parent.  Whatever the draws, the result is proved to be a
//! tree: one root, one parent for everything else, no walk longer than the
//! level count, and the empty payload everywhere below the root.

use vstd::prelude::*;

use crate::graph::{AcyclicGraph, NodeData, NodeModel, add_edge_err, no_dangling, sum_childs};
use crate::paths::{
    edge, is_path, lemma_insert_isolated_edges, lemma_no_childs_reaches, lemma_tree_add_leaf,
    lemma_tree_singleton, lemma_with_edge_edges, reaches, tree_rooted, with_edge,
};
use crate::random::{
    fresh_id_from_rng, normal_check, normal_params_ok, petname_pick, sample_normal_round, seed_rng,
    shuffle_ids,
};

verus! {

/// What the generator consumes: the level count (root level included), the
/// two Gaussian parameter pairs as decimal numerals, the seed, and an
/// optional display name for the graph.
pub struct Config {
    pub name: Option<String>,
    pub deepth: usize,
    pub width_mean: String,
    pub width_std: String,
    pub child_mean: String,
    pub child_std: String,
    pub seed: u64,
}

/// The ways generation can abort, each before a finished graph exists.
#[derive(Debug, Clone, Copy, PartialEq, Eq, Structural)]
pub enum Error {
    /// A Gaussian sampler could not be built from the numerals handed in.
    RandNormalDistribution,
    /// A freshly drawn identifier was already in the store: the identifier
    /// uniqueness assumption is broken and the run is abandoned whole.
    IdCollision,
}

/// The root node the generator plants: named "Root", with a fixed text
/// payload.
pub open spec fn is_root_node(g: Map<u128, NodeModel>, root: u128) -> bool {
    &&& g.contains_key(root)
    &&& g[root].name matches Some(n) && n@ == "Root"@
    &&& g[root].data matches NodeData::Text(t) && t@ == "I'm the root of all evil"@
}

/// Every node below the root carries the empty payload.
pub open spec fn non_root_payloads_empty(g: Map<u128, NodeModel>, root: u128) -> bool {
    forall|x: u128| #[trigger] g.contains_key(x) && x != root ==> g[x].data == NodeData::Empty
}

/// A depth label for every node: the root at zero, each edge one step down,
/// and nothing deeper than the bound.
pub open spec fn depth_labeled(
    g: Map<u128, NodeModel>,
    root: u128,
    dm: Map<u128, int>,
    bound: int,
) -> bool {
    &&& dm.dom() == g.dom()
    &&& (g.contains_key(root) ==> dm[root] == 0)
    &&& forall|x: u128, c: u128| #[trigger] edge(g, x, c) ==> dm[c] == dm[x] + 1
    &&& forall|x: u128| #[trigger] g.contains_key(x) ==> 0 <= dm[x] <= bound
}

/// No walk from the root visits more identifiers than the level count
/// (a level count below one still leaves the root's own trivial walk).
pub open spec fn within_depth(g: Map<u128, NodeModel>, root: u128, deepth: int) -> bool {
    forall|p: Seq<u128>|
        #[trigger] is_path(g, p) && p.first() == root ==> p.len() <= (if deepth < 1 {
            1int
        } else {
            deepth
        })
}

/// Everything `generate` promises of its output, seen from one root: a tree
/// hanging off the fixed root node, empty payloads below it, and no walk
/// longer than the level count.
pub open spec fn generated_tree(g: Map<u128, NodeModel>, root: u128, deepth: int) -> bool {
    &&& tree_rooted(g, root)
    &&& is_root_node(g, root)
    &&& non_root_payloads_empty(g, root)
    &&& within_depth(g, root, deepth)
}

/// Some root makes the graph a generated tree.
pub open spec fn some_generated_root(g: Map<u128, NodeModel>, deepth: int) -> bool {
    exists|root: u128| #[trigger] generated_tree(g, root, deepth)
}

/// Along a walk from the root, the depth label counts the steps.
proof fn lemma_depth_label_on_path(
    g: Map<u128, NodeModel>,
    root: u128,
    dm: Map<u128, int>,
    bound: int,
    p: Seq<u128>,
)
    requires
        depth_labeled(g, root, dm, bound),
        forall|x: u128, c: u128| #[trigger] edge(g, x, c) ==> g.contains_key(c),
        g.contains_key(root),
        is_path(g, p),
        p.first() == root,
    ensures
        g.contains_key(p.last()),
        dm[p.last()] == p.len() - 1,
    decreases p.len(),
{
    if p.len() > 1 {
        let q = p.drop_last();
        assert(is_path(g, q)) by {
            crate::paths::lemma_subpath(g, p, 0, p.len() - 1);
            assert(p.subrange(0, p.len() - 1) =~= q);
        }
        lemma_depth_label_on_path(g, root, dm, bound, q);
        assert(edge(g, q.last(), p.last())) by {
            assert(q.last() == p[p.len() - 2]);
            assert(edge(g, p[p.len() - 2], p[p.len() - 1]));
        }
    }
}

/// Build one graph from the configuration: a tree, grown level by level.
///
/// The sampler check fails exactly on bad distribution parameters, before
/// any node exists.  On success the result is well-formed, keeps the
/// caller's name when one was given, and is a tree: some root node carries
/// the fixed name and payload, every node hangs off it along exactly one
/// parent, every other payload is empty, and no walk from the root is
/// longer than the configured level count.
#[verifier::rlimit(100)]
pub fn generate(cfg: &Config) -> (r: Result<AcyclicGraph, Error>)
    ensures
        r == Err::<AcyclicGraph, Error>(Error::RandNormalDistribution) <==> (!normal_params_ok(
            cfg.width_mean@,
            cfg.width_std@,
        ) || !normal_params_ok(cfg.child_mean@, cfg.child_std@)),
        r matches Ok(g) ==> g.wf(),
        r matches Ok(g) ==> (cfg.name matches Some(s) ==> g.name == s),
        r matches Ok(g) ==> some_generated_root(g.model(), cfg.deepth as int),
        r matches Ok(g) ==> sum_childs(g.nodes@) + 1 == g.nodes@.len(),
        r matches Err(e) ==> e == Error::RandNormalDistribution || e == Error::IdCollision,
{
    let mut rng = seed_rng(cfg.seed);
    if !normal_check(cfg.width_mean.as_str(), cfg.width_std.as_str()) {
        return Err(Error::RandNormalDistribution);
    }
    if !normal_check(cfg.child_mean.as_str(), cfg.child_std.as_str()) {
        return Err(Error::RandNormalDistribution);
    }
    let gname = match &cfg.name {
        Some(n) => n.clone(),
        Option::None => {
            let s = petname_pick(&mut rng, 2, "_");
            if s.as_str().is_empty() {
                "output".to_owned()
            } else {
                s
            }
        },
    };
    let mut graph = AcyclicGraph::new(gname);
    let root_id = match graph.add_node_with_rng(
        Some("Root".to_owned()),
        NodeData::Text("I'm the root of all evil".to_owned()),
        &mut rng,
    ) {
        Some(id) => id,
        Option::None => {
            return Err(Error::IdCollision);
        },
    };
    proof {
        lemma_tree_singleton(graph.model(), root_id, graph.model()[root_id]);
        assert(non_root_payloads_empty(graph.model(), root_id)) by {
            assert forall|x: u128|
                #[trigger] graph.model().contains_key(x) && x != root_id implies graph.model()[x].data
                == NodeData::Empty by {
                assert(x == root_id);
            }
        }
        let dm0 = Map::<u128, int>::empty().insert(root_id, 0);
        assert(depth_labeled(graph.model(), root_id, dm0, 0)) by {
            assert(dm0.dom() =~= graph.model().dom());
            assert forall|x: u128, c: u128| #[trigger] edge(graph.model(), x, c) implies dm0[c]
                == dm0[x] + 1 by {
                assert(x == root_id);
                assert(graph.model()[x].childs.len() == 0);
            }
            assert forall|x: u128| #[trigger] graph.model().contains_key(x) implies 0 <= dm0[x]
                <= 0 by {
                assert(x == root_id);
            }
        }
    }
    let mut current: Vec<u128> = Vec::new();
    current.push(root_id);
    let mut level: usize = 1;
    while level < cfg.deepth
        invariant
            graph.wf(),
            tree_rooted(graph.model(), root_id),
            is_root_node(graph.model(), root_id),
            non_root_payloads_empty(graph.model(), root_id),
            cfg.name matches Some(s) ==> graph.name == s,
            exists|dm: Map<u128, int>|
                #[trigger] depth_labeled(graph.model(), root_id, dm, level as int - 1),
            normal_params_ok(cfg.width_mean@, cfg.width_std@),
            normal_params_ok(cfg.child_mean@, cfg.child_std@),
            sum_childs(graph.nodes@) + 1 == graph.nodes@.len(),
            forall|k: int|
                0 <= k < current@.len() ==> graph.model().contains_key(#[trigger] current@[k]),
            1 <= level,
            cfg.deepth >= 1 ==> level <= cfg.deepth,
            cfg.deepth < 1 ==> level == 1,
        decreases cfg.deepth - level,
    {
        let n0 = sample_normal_round(cfg.width_mean.as_str(), cfg.width_std.as_str(), &mut rng);
        let width_cap = if n0 < 1 {
            1
        } else {
            n0
        };
        let ghost before_shuffle = current@;
        shuffle_ids(&mut current, &mut rng);
        proof {
            broadcast use vstd::seq_lib::group_to_multiset_ensures;

            assert forall|k: int|
                0 <= k < current@.len() implies graph.model().contains_key(
                #[trigger] current@[k],
            ) by {
                let x = current@[k];
                assert(current@.contains(x));
                assert(current@.to_multiset().count(x) > 0);
                assert(before_shuffle.to_multiset().count(x) > 0);
                assert(before_shuffle.contains(x));
            }
        }
        let next = match populate_level(
            &mut graph,
            &current,
            width_cap,
            cfg.child_mean.as_str(),
            cfg.child_std.as_str(),
            &mut rng,
            Ghost(root_id),
            Ghost(level as int),
        ) {
            Ok(v) => v,
            Err(e) => {
                return Err(e);
            },
        };
        current = next;
        proof {
            let dmw = choose|dm: Map<u128, int>|
                #[trigger] depth_labeled(graph.model(), root_id, dm, level as int);
            assert(depth_labeled(graph.model(), root_id, dmw, (level + 1) as int - 1));
        }
        level = level + 1;
    }
    proof {
        let gm = graph.model();
        let dm = choose|dm: Map<u128, int>|
            #[trigger] depth_labeled(gm, root_id, dm, level as int - 1);
        assert(no_dangling(gm));
        assert(within_depth(gm, root_id, cfg.deepth as int)) by {
            assert forall|p: Seq<u128>|
                #[trigger] is_path(gm, p) && p.first() == root_id implies p.len() <= (if (
            cfg.deepth as int) < 1 {
                1int
            } else {
                cfg.deepth as int
            }) by {
                lemma_depth_label_on_path(gm, root_id, dm, level as int - 1, p);
            }
        }
        assert(generated_tree(gm, root_id, cfg.deepth as int));
        assert(some_generated_root(gm, cfg.deepth as int));
    }
    Ok(graph)
}

/// Grow one level: walk the (already shuffled) frontier, draw a branching
/// factor per node, and create children until the level's width cap binds.
/// Hitting the cap stops the whole level, not just the current parent, so
/// earlier frontier positions are favoured.  At most `width_cap` nodes are
/// created, each a fresh empty-payload leaf under exactly one frontier
/// node, so a depth labeling bounded by the previous level extends to one
/// bounded by this level.
fn populate_level(
    graph: &mut AcyclicGraph,
    frontier: &Vec<u128>,
    width_cap: usize,
    child_mean: &str,
    child_std: &str,
    rng: &mut rand::rngs::StdRng,
    root: Ghost<u128>,
    level: Ghost<int>,
) -> (r: Result<Vec<u128>, Error>)
    requires
        old(graph).wf(),
        normal_params_ok(child_mean@, child_std@),
        tree_rooted(old(graph).model(), root@),
        is_root_node(old(graph).model(), root@),
        non_root_payloads_empty(old(graph).model(), root@),
        level@ >= 1,
        exists|dm: Map<u128, int>|
            #[trigger] depth_labeled(old(graph).model(), root@, dm, level@ - 1),
        forall|k: int|
            0 <= k < frontier@.len() ==> old(graph).model().contains_key(#[trigger] frontier@[k]),
    ensures
        match r {
            Ok(created) => {
                &&& created@.len() <= width_cap
                &&& created@.no_duplicates()
                &&& final(graph).wf()
                &&& tree_rooted(final(graph).model(), root@)
                &&& is_root_node(final(graph).model(), root@)
                &&& non_root_payloads_empty(final(graph).model(), root@)
                &&& exists|dm: Map<u128, int>|
                    #[trigger] depth_labeled(final(graph).model(), root@, dm, level@)
                &&& final(graph).name == old(graph).name
                &&& final(graph).nodes@.len() == old(graph).nodes@.len() + created@.len()
                &&& sum_childs(final(graph).nodes@) == sum_childs(old(graph).nodes@)
                    + created@.len()
                &&& forall|k: int|
                    0 <= k < created@.len() ==> final(graph).model().contains_key(
                        #[trigger] created@[k],
                    ) && !old(graph).model().contains_key(created@[k])
                &&& final(graph).model().dom() == old(graph).model().dom() + created@.to_set()
            },
            Err(e) => e == Error::IdCollision,
        },
{
    let ghost g0 = graph.model();
    let ghost mut dm = choose|dm: Map<u128, int>| #[trigger] depth_labeled(g0, root@, dm, level@ - 1);
    let mut next: Vec<u128> = Vec::new();
    let mut capped = false;
    let mut fi: usize = 0;
    proof {
        assert(next@.to_set() =~= Set::<u128>::empty());
        assert(graph.model().dom() =~= g0.dom() + next@.to_set());
        assert(depth_labeled(graph.model(), root@, dm, level@));
    }
    while fi < frontier.len()
        invariant
            graph.wf(),
            tree_rooted(graph.model(), root@),
            is_root_node(graph.model(), root@),
            non_root_payloads_empty(graph.model(), root@),
            normal_params_ok(child_mean@, child_std@),
            graph.name == old(graph).name,
            g0 == old(graph).model(),
            graph.nodes@.len() == old(graph).nodes@.len() + next@.len(),
            sum_childs(graph.nodes@) == sum_childs(old(graph).nodes@) + next@.len(),
            level@ >= 1,
            depth_labeled(graph.model(), root@, dm, level@),
            forall|x: u128| #[trigger] g0.contains_key(x) ==> dm[x] <= level@ - 1,
            fi <= frontier@.len(),
            forall|k: int|
                0 <= k < frontier@.len() ==> g0.contains_key(#[trigger] frontier@[k]),
            forall|k: int|
                0 <= k < frontier@.len() ==> graph.model().contains_key(#[trigger] frontier@[k]),
            next@.len() <= width_cap,
            next@.no_duplicates(),
            forall|k: int|
                0 <= k < next@.len() ==> graph.model().contains_key(#[trigger] next@[k]) && !g0
                    .contains_key(next@[k]),
            graph.model().dom() == g0.dom() + next@.to_set(),
        decreases frontier@.len() - fi,
    {
        let parent = frontier[fi];
        let draws = sample_normal_round(child_mean, child_std, rng);
        let mut j: usize = 0;
        while j < draws
            invariant
                graph.wf(),
                tree_rooted(graph.model(), root@),
                is_root_node(graph.model(), root@),
                non_root_payloads_empty(graph.model(), root@),
                normal_params_ok(child_mean@, child_std@),
                graph.name == old(graph).name,
                g0 == old(graph).model(),
                graph.nodes@.len() == old(graph).nodes@.len() + next@.len(),
                sum_childs(graph.nodes@) == sum_childs(old(graph).nodes@) + next@.len(),
                level@ >= 1,
                depth_labeled(graph.model(), root@, dm, level@),
                forall|x: u128| #[trigger] g0.contains_key(x) ==> dm[x] <= level@ - 1,
                fi < frontier@.len(),
                parent == frontier@[fi as int],
                forall|k: int|
                    0 <= k < frontier@.len() ==> g0.contains_key(#[trigger] frontier@[k]),
                forall|k: int|
                    0 <= k < frontier@.len() ==> graph.model().contains_key(
                        #[trigger] frontier@[k],
                    ),
                j <= draws,
                next@.len() <= width_cap,
                next@.no_duplicates(),
                forall|k: int|
                    0 <= k < next@.len() ==> graph.model().contains_key(#[trigger] next@[k]) && !g0
                        .contains_key(next@[k]),
                graph.model().dom() == g0.dom() + next@.to_set(),
            decreases draws - j,
        {
            if next.len() >= width_cap {
                capped = true;
                break;
            }
            {
                let cname = petname_pick(rng, 1, "_");
                let name_opt = if cname.as_str().is_empty() {
                    Option::None
                } else {
                    Some(cname)
                };
                let ghost gpre = graph.model();
                let id = match graph.add_node_with_rng(name_opt, NodeData::Empty, rng) {
                    Some(id) => id,
                    Option::None => {
                        return Err(Error::IdCollision);
                    },
                };
                let ghost gmid = graph.model();
                proof {
                    assert(gmid == gpre.insert(
                        id,
                        (NodeModel { name: name_opt, data: NodeData::Empty, childs: Seq::empty() }),
                    ));
                    assert(gmid[id].childs.len() == 0);
                    if reaches(gmid, id, parent) {
                        lemma_no_childs_reaches(gmid, id, parent);
                    }
                    assert(!gmid[parent].childs.contains(id)) by {
                        assert(gmid[parent] == gpre[parent]);
                        if gpre[parent].childs.contains(id) {
                            assert(edge(gpre, parent, id));
                            assert(gpre.contains_key(id));
                        }
                    }
                    assert(add_edge_err(gmid, parent, id) is None);
                }
                let res = graph.add_child(parent, id);
                proof {
                    assert(res == Ok::<(), crate::graph::Error>(()));
                    assert(graph.model() == with_edge(gmid, parent, id));
                    lemma_tree_add_leaf(
                        gpre,
                        root@,
                        parent,
                        id,
                        (NodeModel { name: name_opt, data: NodeData::Empty, childs: Seq::empty() }),
                    );
                    assert(tree_rooted(graph.model(), root@));
                    assert(is_root_node(graph.model(), root@)) by {
                        assert(root@ != id);
                        let gm = graph.model();
                        if root@ == parent {
                            assert(gm[root@].name == gmid[parent].name);
                            assert(gm[root@].data == gmid[parent].data);
                            assert(gmid[parent] == gpre[parent]);
                        } else {
                            assert(gm[root@] == gmid[root@]);
                            assert(gmid[root@] == gpre[root@]);
                        }
                    }
                    assert(non_root_payloads_empty(graph.model(), root@)) by {
                        let gm = graph.model();
                        assert forall|x: u128|
                            #[trigger] gm.contains_key(x) && x != root@ implies gm[x].data
                            == NodeData::Empty by {
                            if x == id {
                                assert(gm[id] == gmid[id]);
                            } else if x == parent {
                                assert(gm[parent].data == gmid[parent].data);
                                assert(gmid[parent] == gpre[parent]);
                                assert(gpre.contains_key(parent));
                            } else {
                                assert(gm[x] == gmid[x]);
                                assert(gmid[x] == gpre[x]);
                                assert(gpre.contains_key(x));
                            }
                        }
                    }
                    assert(!next@.contains(id)) by {
                        if next@.contains(id) {
                            let k = choose|k: int| 0 <= k < next@.len() && next@[k] == id;
                            assert(gpre.contains_key(next@[k]));
                        }
                    }
                }
                let ghost next0 = next@;
                next.push(id);
                proof {
                    assert(next@ == next0.push(id));
                    assert forall|k: int|
                        0 <= k < next@.len() implies graph.model().contains_key(
                        #[trigger] next@[k],
                    ) && !g0.contains_key(next@[k]) by {
                        if k < next0.len() {
                            assert(next0[k] == next@[k]);
                        } else {
                            assert(next@[k] == id);
                            assert(!g0.contains_key(id)) by {
                                assert(g0.dom() + next0.to_set() == gpre.dom());
                                if g0.contains_key(id) {
                                    assert(gpre.dom().contains(id));
                                }
                            }
                        }
                    }
                    assert(graph.model().dom() == g0.dom() + next@.to_set()) by {
                        assert(graph.model().dom() =~= gmid.dom());
                        assert(gmid.dom() =~= gpre.dom().insert(id));
                        assert forall|x: u128|
                            next@.contains(x) <==> next0.contains(x) || x == id by {
                            if next@.contains(x) {
                                let k = choose|k: int|
                                    0 <= k < next@.len() && (#[trigger] next@[k]) == x;
                                if k < next0.len() {
                                    assert(next0[k] == x);
                                }
                            }
                            if next0.contains(x) {
                                let k = choose|k: int|
                                    0 <= k < next0.len() && (#[trigger] next0[k]) == x;
                                assert(next@[k] == x);
                            }
                            if x == id {
                                assert(next@[next@.len() - 1] == id);
                            }
                        }
                        assert(next@.to_set() =~= next0.to_set().insert(id));
                        assert(gpre.dom().insert(id) =~= (g0.dom() + next0.to_set()).insert(id));
                        assert((g0.dom() + next0.to_set()).insert(id) =~= g0.dom() + next0.to_set().insert(id));
                    }
                    let dmold = dm;
                    dm = dm.insert(id, dmold[parent] + 1);
                    lemma_insert_isolated_edges(
                        gpre,
                        id,
                        (NodeModel { name: name_opt, data: NodeData::Empty, childs: Seq::empty() }),
                    );
                    lemma_with_edge_edges(gmid, parent, id);
                    assert(!g0.contains_key(id)) by {
                        if g0.contains_key(id) {
                            assert(gpre.dom().contains(id));
                        }
                    }
                    assert(depth_labeled(graph.model(), root@, dm, level@)) by {
                        let gm = graph.model();
                        assert(dm.dom() =~= gm.dom()) by {
                            assert(dmold.dom() == gpre.dom());
                        }
                        assert(dm[root@] == 0);
                        assert forall|x: u128, c: u128| #[trigger] edge(gm, x, c) implies dm[c]
                            == dm[x] + 1 by {
                            if x == parent && c == id {
                                assert(dm[id] == dmold[parent] + 1);
                                assert(dm[parent] == dmold[parent]);
                            } else {
                                assert(edge(gmid, x, c));
                                assert(edge(gpre, x, c));
                                assert(gpre.contains_key(x));
                                assert(gpre.contains_key(c));
                                assert(x != id && c != id);
                                assert(dmold[c] == dmold[x] + 1);
                            }
                        }
                        assert forall|x: u128| #[trigger] gm.contains_key(x) implies 0 <= dm[x]
                            <= level@ by {
                            if x == id {
                                assert(g0.contains_key(parent));
                                assert(dmold[parent] <= level@ - 1);
                            } else {
                                assert(gpre.contains_key(x));
                            }
                        }
                    }
                    assert forall|x: u128| #[trigger] g0.contains_key(x) implies dm[x] <= level@
                        - 1 by {
                        assert(x != id);
                    }
                }
                j = j + 1;
            }
        }
        if capped {
            break;
        }
        fi = fi + 1;
    }
    Ok(next)
}

} // verus!
