//! The node store and the acyclic graph built on it.
//!
//! Nodes are keyed by a 128-bit identifier and held in a vector kept
//! strictly sorted by identifier; the sortedness gives key uniqueness and a
//! canonical enumeration order in one stroke.  The graph is append-only:
//! nodes are inserted, edges are added under an incremental cycle check, and
//! nothing is ever removed.

use vstd::prelude::*;

use crate::paths::{acyclic, edge, reaches, with_edge};
use crate::paths::{
    lemma_absent_reaches_only_self, lemma_add_edge_acyclic, lemma_closed_set_blocks,
    lemma_insert_isolated_edges, lemma_reaches_refl, lemma_reaches_step,
    lemma_same_edges_same_reach, lemma_with_edge_edges,
};

verus! {

/// The payload a node carries.
#[derive(Debug, Clone, PartialEq, Eq)]
pub enum NodeData {
    Number(u64),
    Text(String),
    Empty,
}

/// A stored node: an optional display name, a payload, and the identifiers
/// of its children.  The children sequence never holds a duplicate.
#[derive(Debug, Clone, PartialEq, Eq)]
pub struct Node {
    pub name: Option<String>,
    pub data: NodeData,
    pub childs: Vec<u128>,
}

/// The mathematical view of a node: the same fields with the children as a
/// sequence.
pub struct NodeModel {
    pub name: Option<String>,
    pub data: NodeData,
    pub childs: Seq<u128>,
}

impl View for Node {
    type V = NodeModel;

    open spec fn view(&self) -> NodeModel {
        NodeModel { name: self.name, data: self.data, childs: self.childs@ }
    }
}

/// The ways an edge insertion can be refused.
#[derive(Debug, Clone, Copy, PartialEq, Eq, Structural)]
pub enum Error {
    /// The new edge would close a directed cycle.
    Cycle { src: u128, dst: u128 },
    /// An identifier is not a key of the store.
    UuidNotFound { uuid: u128 },
    /// The ordered pair is already an edge.
    ChildAlreadyExist { parent: u128, child: u128 },
}

impl Node {
    pub fn new(name: Option<String>, data: NodeData) -> (n: Node)
        ensures
            n.name == name,
            n.data == data,
            n.childs@ == Seq::<u128>::empty(),
    {
        Node { name, data, childs: Vec::new() }
    }

    pub fn childs(&self) -> (r: &Vec<u128>)
        ensures
            r@ == self.childs@,
    {
        &self.childs
    }
}

impl From<u64> for NodeData {
    fn from(n: u64) -> Self {
        NodeData::Number(n)
    }
}

impl vstd::std_specs::convert::FromSpecImpl<u64> for NodeData {
    open spec fn obeys_from_spec() -> bool {
        true
    }

    open spec fn from_spec(n: u64) -> Self {
        NodeData::Number(n)
    }
}

impl From<String> for NodeData {
    fn from(s: String) -> Self {
        NodeData::Text(s)
    }
}

impl vstd::std_specs::convert::FromSpecImpl<String> for NodeData {
    open spec fn obeys_from_spec() -> bool {
        true
    }

    open spec fn from_spec(s: String) -> Self {
        NodeData::Text(s)
    }
}

impl From<()> for NodeData {
    fn from(u: ()) -> Self {
        NodeData::Empty
    }
}

impl vstd::std_specs::convert::FromSpecImpl<()> for NodeData {
    open spec fn obeys_from_spec() -> bool {
        true
    }

    open spec fn from_spec(u: ()) -> Self {
        NodeData::Empty
    }
}

/// A directed graph over identifier-keyed nodes that admits no cycle.
#[derive(Debug, Clone)]
pub struct AcyclicGraph {
    pub name: String,
    pub nodes: Vec<(u128, Node)>,
}

/// The identifiers of the entries, in store order.
pub open spec fn ids(s: Seq<(u128, Node)>) -> Seq<u128> {
    s.map_values(|e: (u128, Node)| e.0)
}

/// Entries are in strictly increasing identifier order.
pub open spec fn ids_strictly_sorted(s: Seq<(u128, Node)>) -> bool {
    forall|i: int, j: int| 0 <= i < j < s.len() ==> (#[trigger] s[i]).0 < (#[trigger] s[j]).0
}

/// The map the entry sequence denotes.
pub open spec fn map_of(s: Seq<(u128, Node)>) -> Map<u128, NodeModel>
    decreases s.len(),
{
    if s.len() == 0 {
        Map::empty()
    } else {
        map_of(s.drop_last()).insert(s.last().0, s.last().1@)
    }
}

/// Total number of child references in the store: the edge count.
pub open spec fn sum_childs(s: Seq<(u128, Node)>) -> int
    decreases s.len(),
{
    if s.len() == 0 {
        0
    } else {
        sum_childs(s.drop_last()) + s.last().1.childs@.len()
    }
}

/// Inserting an entry adds exactly its child count to the total.
pub proof fn lemma_sum_childs_insert(s: Seq<(u128, Node)>, i: int, e: (u128, Node))
    requires
        0 <= i <= s.len(),
    ensures
        sum_childs(s.insert(i, e)) == sum_childs(s) + e.1.childs@.len(),
    decreases s.len(),
{
    let s2 = s.insert(i, e);
    if i == s.len() {
        assert(s2.drop_last() =~= s);
        assert(s2.last() == e);
    } else {
        let t = s.drop_last();
        assert(s2.last() == s.last());
        assert(s2.drop_last() =~= t.insert(i, e));
        lemma_sum_childs_insert(t, i, e);
    }
}

/// Replacing an entry shifts the total by the change in its child count.
pub proof fn lemma_sum_childs_update(s: Seq<(u128, Node)>, i: int, e: (u128, Node))
    requires
        0 <= i < s.len(),
    ensures
        sum_childs(s.update(i, e)) == sum_childs(s) - s[i].1.childs@.len() + e.1.childs@.len(),
    decreases s.len(),
{
    let s2 = s.update(i, e);
    if i == s.len() - 1 {
        assert(s2.drop_last() =~= s.drop_last());
        assert(s2.last() == e);
    } else {
        let t = s.drop_last();
        assert(s2.last() == s.last());
        assert(s2.drop_last() =~= t.update(i, e));
        assert(t[i] == s[i]);
        lemma_sum_childs_update(t, i, e);
    }
}

/// Every identifier any node lists as a child is a key of the graph.
pub open spec fn no_dangling(g: Map<u128, NodeModel>) -> bool {
    forall|x: u128, c: u128| #[trigger] edge(g, x, c) ==> g.contains_key(c)
}

/// No node lists the same child twice.
pub open spec fn no_dup_childs(g: Map<u128, NodeModel>) -> bool {
    forall|x: u128| g.contains_key(x) ==> (#[trigger] g[x].childs).no_duplicates()
}

/// The structural invariant of a graph view: finitely many nodes, no
/// dangling child identifier, no parallel edge, no cycle.
pub open spec fn graph_wf(g: Map<u128, NodeModel>) -> bool {
    &&& g.dom().finite()
    &&& no_dangling(g)
    &&& no_dup_childs(g)
    &&& acyclic(g)
}

impl AcyclicGraph {
    /// The graph as a map from identifier to node model.
    pub open spec fn model(&self) -> Map<u128, NodeModel> {
        map_of(self.nodes@)
    }

    /// The store invariant: sorted entries denoting a well-formed graph.
    pub open spec fn wf(&self) -> bool {
        &&& ids_strictly_sorted(self.nodes@)
        &&& graph_wf(self.model())
    }
}

/// Strict sortedness makes the identifiers pairwise distinct.
pub proof fn lemma_sorted_ids_no_dup(s: Seq<(u128, Node)>)
    requires
        ids_strictly_sorted(s),
    ensures
        ids(s).no_duplicates(),
{
    assert forall|i: int, j: int|
        0 <= i < ids(s).len() && 0 <= j < ids(s).len() && i != j implies ids(s)[i] != ids(
        s,
    )[j] by {
        if i < j {
            assert(s[i].0 < s[j].0);
        } else {
            assert(s[j].0 < s[i].0);
        }
    }
}

/// What the denoted map holds: its domain is exactly the identifier
/// sequence, and it is finite.
pub proof fn lemma_map_of_dom(s: Seq<(u128, Node)>)
    ensures
        map_of(s).dom().finite(),
        forall|k: u128| map_of(s).contains_key(k) <==> ids(s).contains(k),
        map_of(s).dom() =~= ids(s).to_set(),
    decreases s.len(),
{
    if s.len() == 0 {
        assert(forall|k: u128| !ids(s).contains(k));
    } else {
        let t = s.drop_last();
        lemma_map_of_dom(t);
        assert(ids(s) =~= ids(t).push(s.last().0));
        assert forall|k: u128| map_of(s).contains_key(k) <==> ids(s).contains(k) by {
            if ids(s).contains(k) {
                let i = choose|i: int| 0 <= i < ids(s).len() && ids(s)[i] == k;
                if i < t.len() {
                    assert(ids(t).contains(k)) by {
                        assert(ids(t)[i] == k);
                    }
                } else {
                    assert(k == s.last().0);
                }
            }
            if map_of(s).contains_key(k) {
                if k == s.last().0 {
                    assert(ids(s)[s.len() - 1] == k);
                } else {
                    let i = choose|i: int| 0 <= i < ids(t).len() && ids(t)[i] == k;
                    assert(ids(s)[i] == k);
                }
            }
        }
    }
}

/// With distinct identifiers, each entry is what the map returns for its key.
pub proof fn lemma_map_of_index(s: Seq<(u128, Node)>)
    requires
        ids(s).no_duplicates(),
    ensures
        forall|i: int|
            0 <= i < s.len() ==> map_of(s).contains_key((#[trigger] s[i]).0) && map_of(s)[s[i].0]
                == s[i].1@,
        map_of(s).dom().len() == s.len(),
    decreases s.len(),
{
    lemma_map_of_dom(s);
    if s.len() > 0 {
        let t = s.drop_last();
        assert(ids(t) =~= ids(s).drop_last());
        assert(ids(t).no_duplicates());
        lemma_map_of_index(t);
        lemma_map_of_dom(t);
        assert forall|i: int|
            0 <= i < s.len() implies map_of(s).contains_key((#[trigger] s[i]).0) && map_of(
            s,
        )[s[i].0] == s[i].1@ by {
            if i < s.len() - 1 {
                assert(ids(s)[i] != ids(s)[s.len() - 1]);
                assert(t[i] == s[i]);
                assert(map_of(t)[s[i].0] == s[i].1@);
            }
        }
        assert(!map_of(t).contains_key(s.last().0)) by {
            if ids(t).contains(s.last().0) {
                let i = choose|i: int| 0 <= i < ids(t).len() && ids(t)[i] == s.last().0;
                assert(ids(s)[i] == ids(s)[s.len() - 1]);
            }
        }
        assert(map_of(s).dom().len() == map_of(t).dom().len() + 1);
    }
}

/// Replacing one entry under its own key updates the denoted map pointwise.
pub proof fn lemma_map_of_update(s: Seq<(u128, Node)>, i: int, e: (u128, Node))
    requires
        ids(s).no_duplicates(),
        0 <= i < s.len(),
        e.0 == s[i].0,
    ensures
        map_of(s.update(i, e)) == map_of(s).insert(e.0, e.1@),
    decreases s.len(),
{
    let s2 = s.update(i, e);
    if i == s.len() - 1 {
        assert(s2.drop_last() =~= s.drop_last());
        assert(s2.last() == e);
    } else {
        let t = s.drop_last();
        assert(s2.last() == s.last());
        assert(s2.drop_last() =~= t.update(i, e));
        assert(ids(t) =~= ids(s).drop_last());
        assert(t[i] == s[i]);
        lemma_map_of_update(t, i, e);
        assert(ids(s)[i] != ids(s)[s.len() - 1]);
        assert(e.0 != s.last().0);
        assert(map_of(t).insert(e.0, e.1@).insert(s.last().0, s.last().1@) =~= map_of(t).insert(
            s.last().0,
            s.last().1@,
        ).insert(e.0, e.1@));
    }
}

/// The update lemma quantified over the new entry, for use before a
/// mutable borrow whose final value is not yet known.
pub proof fn lemma_map_of_update_any(s: Seq<(u128, Node)>)
    requires
        ids(s).no_duplicates(),
    ensures
        forall|i: int, e: (u128, Node)|
            0 <= i < s.len() && e.0 == (#[trigger] s[i]).0 ==> #[trigger] map_of(s.update(i, e))
                == map_of(s).insert(e.0, e.1@),
        forall|i: int, e: (u128, Node)|
            #![trigger s.update(i, e)]
            0 <= i < s.len() && e.0 == s[i].0 ==> ids(s.update(i, e)) == ids(s),
{
    assert forall|i: int, e: (u128, Node)|
        0 <= i < s.len() && e.0 == (#[trigger] s[i]).0 implies #[trigger] map_of(s.update(i, e))
        == map_of(s).insert(e.0, e.1@) by {
        lemma_map_of_update(s, i, e);
    }
    assert forall|i: int, e: (u128, Node)| #![trigger s.update(i, e)]
        0 <= i < s.len() && e.0 == s[i].0 implies ids(s.update(i, e)) == ids(s) by {
        assert(ids(s.update(i, e)) =~= ids(s));
    }
}

/// Inserting an entry under a fresh key extends the denoted map by that key.
pub proof fn lemma_map_of_insert_entry(s: Seq<(u128, Node)>, i: int, id: u128, node: Node)
    requires
        0 <= i <= s.len(),
        !ids(s).contains(id),
    ensures
        map_of(s.insert(i, (id, node))) == map_of(s).insert(id, node@),
    decreases s.len(),
{
    let s2 = s.insert(i, (id, node));
    if i == s.len() {
        assert(s2.drop_last() =~= s);
        assert(s2.last() == (id, node));
    } else {
        let t = s.drop_last();
        assert(s2.last() == s.last());
        assert(s2.drop_last() =~= t.insert(i, (id, node)));
        assert(!ids(t).contains(id)) by {
            if ids(t).contains(id) {
                let k = choose|k: int| 0 <= k < ids(t).len() && ids(t)[k] == id;
                assert(ids(s)[k] == id);
            }
        }
        lemma_map_of_insert_entry(t, i, id, node);
        assert(id != s.last().0) by {
            assert(ids(s)[s.len() - 1] == s.last().0);
        }
        assert(map_of(t).insert(id, node@).insert(s.last().0, s.last().1@) =~= map_of(t).insert(
            s.last().0,
            s.last().1@,
        ).insert(id, node@));
    }
}

/// A sequence of distinct elements drawn from a finite set, plus possibly
/// one outsider, cannot outgrow that set by more than one.
proof fn lemma_seen_bound(g: Map<u128, NodeModel>, s: Seq<u128>, extra: u128)
    requires
        g.dom().finite(),
        s.no_duplicates(),
        forall|k: int| 0 <= k < s.len() ==> #[trigger] s[k] == extra || g.contains_key(s[k]),
    ensures
        s.len() <= g.dom().len() + 1,
{
    s.unique_seq_to_set();
    let big = g.dom().insert(extra);
    assert(s.to_set().subset_of(big));
    vstd::set_lib::lemma_len_subset(s.to_set(), big);
}

/// Linear membership test on an identifier vector.
pub fn vec_contains(v: &Vec<u128>, x: u128) -> (r: bool)
    ensures
        r == v@.contains(x),
{
    let mut i: usize = 0;
    while i < v.len()
        invariant
            i <= v@.len(),
            forall|k: int| 0 <= k < i ==> v@[k] != x,
        decreases v@.len() - i,
    {
        if v[i] == x {
            assert(v@[i as int] == x);
            return true;
        }
        i += 1;
    }
    false
}

/// What `add_child` answers on a given graph: the cycle scan dominates, a
/// missing child is seen before a missing parent, and a duplicate edge is
/// reported only for an otherwise insertable pair.
pub open spec fn add_edge_err(g: Map<u128, NodeModel>, parent: u128, child: u128) -> Option<Error> {
    if reaches(g, child, parent) {
        Some(Error::Cycle { src: parent, dst: child })
    } else if !g.contains_key(child) {
        Some(Error::UuidNotFound { uuid: child })
    } else if !g.contains_key(parent) {
        Some(Error::UuidNotFound { uuid: parent })
    } else if g[parent].childs.contains(child) {
        Some(Error::ChildAlreadyExist { parent, child })
    } else {
        Option::None
    }
}

impl AcyclicGraph {
    /// An empty, trivially well-formed graph.
    pub fn new(name: String) -> (g: AcyclicGraph)
        ensures
            g.wf(),
            g.name == name,
            g.nodes@.len() == 0,
            g.model() == Map::<u128, NodeModel>::empty(),
    {
        let g = AcyclicGraph { name, nodes: Vec::new() };
        proof {
            assert(acyclic(g.model())) by {
                assert forall|p: Seq<u128>| #[trigger] crate::paths::is_path(g.model(), p)
                    && p.len() >= 2 implies p.first() != p.last() by {
                    assert(!edge(g.model(), p[0], p[1]));
                }
            }
        }
        g
    }

    /// The entries of the store, in increasing identifier order.
    pub fn nodes(&self) -> (r: &Vec<(u128, Node)>)
        ensures
            r@ == self.nodes@,
    {
        &self.nodes
    }

    /// Position of an identifier in the store, if it is there.
    pub(crate) fn find_index(&self, id: u128) -> (r: Option<usize>)
        ensures
            match r {
                Some(i) => i < self.nodes@.len() && self.nodes@[i as int].0 == id,
                Option::None => !ids(self.nodes@).contains(id),
            },
    {
        let mut i: usize = 0;
        let n = self.nodes.len();
        while i < n
            invariant
                n == self.nodes@.len(),
                i <= n,
                forall|k: int| 0 <= k < i ==> (#[trigger] self.nodes@[k]).0 != id,
            decreases n - i,
        {
            if self.nodes[i].0 == id {
                return Some(i);
            }
            i += 1;
        }
        proof {
            if ids(self.nodes@).contains(id) {
                let k = choose|k: int| 0 <= k < ids(self.nodes@).len() && ids(self.nodes@)[k] == id;
                assert(self.nodes@[k].0 == id);
            }
        }
        Option::None
    }

    /// Look a node up by identifier.
    pub fn get_node(&self, uuid: u128) -> (r: Result<&Node, Error>)
        requires
            self.wf(),
        ensures
            match r {
                Ok(n) => self.model().contains_key(uuid) && n@ == self.model()[uuid],
                Err(e) => !self.model().contains_key(uuid) && e == (Error::UuidNotFound { uuid }),
            },
    {
        proof {
            lemma_sorted_ids_no_dup(self.nodes@);
            lemma_map_of_dom(self.nodes@);
            lemma_map_of_index(self.nodes@);
        }
        match self.find_index(uuid) {
            Some(i) => Ok(&self.nodes[i].1),
            Option::None => Err(Error::UuidNotFound { uuid }),
        }
    }

    /// Look a node up by identifier for in-place change.  What the caller
    /// writes through the reference decides the final graph, so
    /// well-formedness is the caller's to re-establish.
    pub fn get_node_mut(&mut self, uuid: u128) -> (r: Result<&mut Node, Error>)
        requires
            old(self).wf(),
        ensures
            match r {
                Ok(n) => {
                    &&& old(self).model().contains_key(uuid)
                    &&& n@ == old(self).model()[uuid]
                    &&& final(self).model() == old(self).model().insert(uuid, final(n)@)
                    &&& final(self).name == old(self).name
                    &&& ids(final(self).nodes@) == ids(old(self).nodes@)
                    &&& ids_strictly_sorted(final(self).nodes@)
                },
                Err(e) => {
                    &&& !old(self).model().contains_key(uuid)
                    &&& e == (Error::UuidNotFound { uuid })
                    &&& *final(self) == *old(self)
                },
            },
    {
        proof {
            lemma_sorted_ids_no_dup(self.nodes@);
            lemma_map_of_dom(self.nodes@);
            lemma_map_of_index(self.nodes@);
            lemma_map_of_update_any(self.nodes@);
        }
        match self.find_index(uuid) {
            Some(i) => Ok(&mut self.nodes[i].1),
            Option::None => Err(Error::UuidNotFound { uuid }),
        }
    }

    /// Insert a node under a key that is not yet in the store.
    pub fn add_node_id(&mut self, id: u128, name: Option<String>, data: NodeData)
        requires
            old(self).wf(),
            !old(self).model().contains_key(id),
        ensures
            final(self).wf(),
            final(self).name == old(self).name,
            final(self).nodes@.len() == old(self).nodes@.len() + 1,
            sum_childs(final(self).nodes@) == sum_childs(old(self).nodes@),
            final(self).model() == old(self).model().insert(
                id,
                (NodeModel { name, data, childs: Seq::empty() }),
            ),
    {
        proof {
            lemma_sorted_ids_no_dup(self.nodes@);
            lemma_map_of_dom(self.nodes@);
        }
        let n = self.nodes.len();
        let mut i: usize = 0;
        while i < n && self.nodes[i].0 < id
            invariant
                n == self.nodes@.len(),
                i <= n,
                forall|k: int| 0 <= k < i ==> (#[trigger] self.nodes@[k]).0 < id,
            decreases n - i,
        {
            i += 1;
        }
        let node = Node { name, data, childs: Vec::new() };
        let ghost s = self.nodes@;
        let ghost g = self.model();
        self.nodes.insert(i, (id, node));
        proof {
            let s2 = self.nodes@;
            assert(s2 == s.insert(i as int, (id, node)));
            assert forall|k: int| i <= k < s.len() implies id < (#[trigger] s[k]).0 by {
                assert(s[k].0 != id) by {
                    if s[k].0 == id {
                        assert(ids(s)[k] == id);
                    }
                }
                assert(!(s[i as int].0 < id));
                if k > i {
                    assert(s[i as int].0 < s[k].0);
                }
            }
            assert forall|a: int, b: int| 0 <= a < b < s2.len() implies (#[trigger] s2[a]).0 < (
            #[trigger] s2[b]).0 by {
                if a != i && b != i {
                    let ia: int = if a < i { a } else { a - 1 };
                    let ib: int = if b < i { b } else { b - 1 };
                    assert(s2[a] == s[ia] && s2[b] == s[ib]);
                    assert(s[ia].0 < s[ib].0);
                } else if a == i {
                    assert(s2[b] == s[b - 1]);
                } else {
                    assert(s2[a] == s[a]);
                    assert(s[a].0 < id);
                }
            }
            lemma_map_of_insert_entry(s, i as int, id, node);
            lemma_sum_childs_insert(s, i as int, (id, node));
            let g2 = self.model();
            assert(g2 == g.insert(id, node@));
            lemma_insert_isolated_edges(g, id, node@);
            lemma_same_edges_same_reach(g, g2);
            assert(no_dangling(g2)) by {
                assert forall|x: u128, c: u128| #[trigger] edge(g2, x, c) implies g2.contains_key(
                    c,
                ) by {
                    assert(edge(g, x, c));
                }
            }
            assert(no_dup_childs(g2)) by {
                assert forall|x: u128| g2.contains_key(x) implies (
                #[trigger] g2[x].childs).no_duplicates() by {
                    if x == id {
                        assert(g2[x].childs.len() == 0);
                    } else {
                        assert(g2[x] == g[x]);
                    }
                }
            }
        }
    }

    /// Create a node under an identifier drawn from the given generator; the
    /// astronomically unlikely collision with an existing key is refused
    /// rather than overwriting, and leaves the graph untouched.
    pub fn add_node_with_rng(
        &mut self,
        name: Option<String>,
        data: NodeData,
        rng: &mut rand::rngs::StdRng,
    ) -> (r: Option<u128>)
        requires
            old(self).wf(),
        ensures
            match r {
                Some(id) => {
                    &&& !old(self).model().contains_key(id)
                    &&& final(self).wf()
                    &&& final(self).name == old(self).name
                    &&& final(self).nodes@.len() == old(self).nodes@.len() + 1
                    &&& sum_childs(final(self).nodes@) == sum_childs(old(self).nodes@)
                    &&& final(self).model() == old(self).model().insert(
                        id,
                        (NodeModel { name, data, childs: Seq::empty() }),
                    )
                },
                Option::None => *final(self) == *old(self),
            },
    {
        let id = crate::random::fresh_id_from_rng(rng);
        proof {
            lemma_sorted_ids_no_dup(self.nodes@);
            lemma_map_of_dom(self.nodes@);
        }
        match self.find_index(id) {
            Some(_) => Option::None,
            Option::None => {
                self.add_node_id(id, name, data);
                Some(id)
            },
        }
    }

    /// Create a node under an identifier drawn from the process entropy
    /// source; a collision is refused as in `add_node_with_rng`.
    pub fn add_node(&mut self, name: Option<String>, data: NodeData) -> (r: Option<u128>)
        requires
            old(self).wf(),
        ensures
            match r {
                Some(id) => {
                    &&& !old(self).model().contains_key(id)
                    &&& final(self).wf()
                    &&& final(self).name == old(self).name
                    &&& final(self).nodes@.len() == old(self).nodes@.len() + 1
                    &&& sum_childs(final(self).nodes@) == sum_childs(old(self).nodes@)
                    &&& final(self).model() == old(self).model().insert(
                        id,
                        (NodeModel { name, data, childs: Seq::empty() }),
                    )
                },
                Option::None => *final(self) == *old(self),
            },
    {
        let id = crate::random::fresh_id();
        proof {
            lemma_sorted_ids_no_dup(self.nodes@);
            lemma_map_of_dom(self.nodes@);
        }
        match self.find_index(id) {
            Some(_) => Option::None,
            Option::None => {
                self.add_node_id(id, name, data);
                Some(id)
            },
        }
    }

    /// Breadth-first scan from `child` along existing edges: the new edge
    /// `parent -> child` would close a cycle exactly when `parent` is
    /// reached, counting the trivial walk `child == parent`.
    fn check_cycle(&self, parent: u128, child: u128) -> (r: Result<(), Error>)
        requires
            self.wf(),
        ensures
            ({
                let g = self.model();
                if reaches(g, child, parent) {
                    r == Err::<(), Error>((Error::Cycle { src: parent, dst: child }))
                } else if !g.contains_key(child) {
                    r == Err::<(), Error>((Error::UuidNotFound { uuid: child }))
                } else {
                    r == Ok::<(), Error>(())
                }
            }),
    {
        let ghost g = self.model();
        proof {
            lemma_sorted_ids_no_dup(self.nodes@);
            lemma_map_of_dom(self.nodes@);
            lemma_map_of_index(self.nodes@);
            lemma_reaches_refl(g, child);
        }
        let mut seen: Vec<u128> = Vec::new();
        seen.push(child);
        let mut head: usize = 0;
        proof {
            lemma_seen_bound(g, seen@, child);
        }
        loop
            invariant
                self.wf(),
                g == self.model(),
                head <= seen@.len(),
                1 <= seen@.len() <= g.dom().len() + 1,
                seen@[0] == child,
                seen@.no_duplicates(),
                forall|k: int| 0 <= k < seen@.len() ==> reaches(g, child, #[trigger] seen@[k]),
                forall|k: int|
                    0 <= k < seen@.len() ==> #[trigger] seen@[k] == child || g.contains_key(
                        seen@[k],
                    ),
                forall|k: int|
                    0 <= k < head ==> g.contains_key(#[trigger] seen@[k]) && seen@[k] != parent,
                forall|k: int, c: u128|
                    0 <= k < head && #[trigger] edge(g, seen@[k], c) ==> seen@.contains(c),
            decreases g.dom().len() + 1 - seen@.len(), seen@.len() - head,
        {
            if head == seen.len() {
                proof {
                    let sset = seen@.to_set();
                    assert(sset.contains(child)) by {
                        assert(seen@[0] == child);
                    }
                    assert forall|x: u128, y: u128|
                        sset.contains(x) && #[trigger] edge(g, x, y) implies sset.contains(y) by {
                        let k = choose|k: int| 0 <= k < seen@.len() && seen@[k] == x;
                        assert(seen@.contains(y));
                    }
                    assert(!sset.contains(parent)) by {
                        if seen@.contains(parent) {
                            let k = choose|k: int| 0 <= k < seen@.len() && seen@[k] == parent;
                        }
                    }
                    lemma_closed_set_blocks(g, sset, child, parent);
                }
                return Ok(());
            }
            let current = seen[head];
            if current == parent {
                return Err(Error::Cycle { src: parent, dst: child });
            }
            match self.find_index(current) {
                Option::None => {
                    proof {
                        assert(!g.contains_key(current)) by {
                            if g.contains_key(current) {
                                lemma_map_of_dom(self.nodes@);
                            }
                        }
                        assert(current == child);
                        if reaches(g, child, parent) {
                            lemma_absent_reaches_only_self(g, child, parent);
                        }
                    }
                    return Err(Error::UuidNotFound { uuid: current });
                },
                Some(idx) => {
                    proof {
                        assert(g.contains_key(current) && g[current] == self.nodes@[idx as int].1@)
                            by {
                            lemma_sorted_ids_no_dup(self.nodes@);
                            lemma_map_of_index(self.nodes@);
                        }
                    }
                    let ghost seen0 = seen@;
                    let node = &self.nodes[idx].1;
                    let clen = node.childs.len();
                    let mut ci: usize = 0;
                    while ci < clen
                        invariant
                            self.wf(),
                            g == self.model(),
                            seen0.len() <= seen@.len(),
                            idx < self.nodes@.len(),
                            node == &self.nodes@[idx as int].1,
                            g.contains_key(current) && g[current] == node@,
                            clen == node.childs@.len(),
                            ci <= clen,
                            reaches(g, child, current),
                            head < seen@.len(),
                            seen@[head as int] == current,
                            1 <= seen@.len() <= g.dom().len() + 1,
                            seen@[0] == child,
                            seen@.no_duplicates(),
                            forall|k: int|
                                0 <= k < seen@.len() ==> reaches(g, child, #[trigger] seen@[k]),
                            forall|k: int|
                                0 <= k < seen@.len() ==> #[trigger] seen@[k] == child
                                    || g.contains_key(seen@[k]),
                            forall|k: int|
                                0 <= k < head ==> g.contains_key(#[trigger] seen@[k]) && seen@[k]
                                    != parent,
                            forall|k: int, c: u128|
                                0 <= k < head && #[trigger] edge(g, seen@[k], c) ==> seen@.contains(
                                    c,
                                ),
                            forall|j: int| 0 <= j < ci ==> seen@.contains(#[trigger] node.childs@[j]),
                        decreases clen - ci,
                    {
                        let c = node.childs[ci];
                        if !vec_contains(&seen, c) {
                            proof {
                                assert(edge(g, current, c)) by {
                                    assert(node.childs@[ci as int] == c);
                                }
                                lemma_reaches_step(g, child, current, c);
                                assert(g.contains_key(c));
                            }
                            let ghost before = seen@;
                            seen.push(c);
                            proof {
                                assert(seen@ == before.push(c));
                                assert forall|x: u128| before.contains(x) implies seen@.contains(
                                    x,
                                ) by {
                                    let k = choose|k: int| 0 <= k < before.len() && before[k] == x;
                                    assert(seen@[k] == x);
                                }
                                assert forall|k: int, cc: u128|
                                    0 <= k < head && #[trigger] edge(g, seen@[k], cc) implies seen@
                                    .contains(cc) by {
                                    assert(seen@[k] == before[k]);
                                    assert(before.contains(cc));
                                }
                                assert forall|j: int| 0 <= j < ci + 1 implies seen@.contains(
                                    #[trigger] node.childs@[j],
                                ) by {
                                    if j < ci {
                                        assert(before.contains(node.childs@[j]));
                                    } else {
                                        assert(seen@[seen@.len() - 1] == c);
                                    }
                                }
                                lemma_seen_bound(g, seen@, child);
                            }
                        }
                        ci += 1;
                    }
                    proof {
                        assert forall|k: int, c: u128|
                            0 <= k < head + 1 && #[trigger] edge(g, seen@[k], c) implies seen@
                            .contains(c) by {
                            if k == head {
                                assert(g[current].childs == node.childs@);
                                let j = choose|j: int|
                                    0 <= j < node.childs@.len() && node.childs@[j] == c;
                                assert(seen@.contains(node.childs@[j]));
                            }
                        }
                    }
                    head += 1;
                },
            }
        }
    }

    /// Insert the edge `parent -> child` unless the cycle scan, a missing
    /// endpoint or a duplicate edge forbids it; a refused call leaves the
    /// graph exactly as it was.
    pub fn add_child(&mut self, parent: u128, child: u128) -> (r: Result<(), Error>)
        requires
            old(self).wf(),
        ensures
            final(self).wf(),
            final(self).name == old(self).name,
            match add_edge_err(old(self).model(), parent, child) {
                Some(e) => r == Err::<(), Error>(e) && *final(self) == *old(self),
                Option::None => r == Ok::<(), Error>(()) && final(self).model() == with_edge(
                    old(self).model(),
                    parent,
                    child,
                ) && final(self).nodes@.len() == old(self).nodes@.len() && sum_childs(
                    final(self).nodes@,
                ) == sum_childs(old(self).nodes@) + 1,
            },
    {
        let ghost g = self.model();
        match self.check_cycle(parent, child) {
            Err(e) => {
                return Err(e);
            },
            Ok(()) => {},
        }
        proof {
            lemma_sorted_ids_no_dup(self.nodes@);
            lemma_map_of_dom(self.nodes@);
            lemma_map_of_index(self.nodes@);
        }
        let idx = match self.find_index(parent) {
            Option::None => {
                return Err(Error::UuidNotFound { uuid: parent });
            },
            Some(i) => i,
        };
        proof {
            assert(g.contains_key(parent) && g[parent] == self.nodes@[idx as int].1@);
        }
        let dup = vec_contains(&self.nodes[idx].1.childs, child);
        if dup {
            return Err(Error::ChildAlreadyExist { parent, child });
        }
        let ghost s = self.nodes@;
        let (pid, mut pnode) = self.nodes.remove(idx);
        let ghost oldnode = pnode;
        pnode.childs.push(child);
        self.nodes.insert(idx, (pid, pnode));
        proof {
            let s2 = self.nodes@;
            assert(s2 =~= s.update(idx as int, (pid, pnode)));
            assert(pid == parent);
            assert(pnode@ == (NodeModel {
                name: g[parent].name,
                data: g[parent].data,
                childs: g[parent].childs.push(child),
            }));
            lemma_map_of_update(s, idx as int, (pid, pnode));
            lemma_sum_childs_update(s, idx as int, (pid, pnode));
            assert(sum_childs(self.nodes@) == sum_childs(s) + 1);
            let g2 = self.model();
            assert(g2 == with_edge(g, parent, child));
            assert forall|a: int, b: int| 0 <= a < b < s2.len() implies (#[trigger] s2[a]).0 < (
            #[trigger] s2[b]).0 by {
                assert(s[a].0 == s2[a].0 && s[b].0 == s2[b].0);
            }
            lemma_with_edge_edges(g, parent, child);
            assert(no_dangling(g2)) by {
                assert forall|x: u128, c: u128| #[trigger] edge(g2, x, c) implies g2.contains_key(
                    c,
                ) by {
                    if !(x == parent && c == child) {
                        assert(edge(g, x, c));
                    }
                }
            }
            assert(no_dup_childs(g2)) by {
                assert forall|x: u128| g2.contains_key(x) implies (
                #[trigger] g2[x].childs).no_duplicates() by {
                    if x == parent {
                        let cs = g[parent].childs;
                        assert(cs.no_duplicates());
                        assert(!cs.contains(child));
                        assert forall|a: int, b: int|
                            0 <= a < cs.push(child).len() && 0 <= b < cs.push(child).len() && a
                                != b implies cs.push(child)[a] != cs.push(child)[b] by {
                            if a < cs.len() && b < cs.len() {
                            } else if a < cs.len() {
                                assert(cs[a] != child) by {
                                    if cs[a] == child {
                                        assert(cs.contains(child));
                                    }
                                }
                            } else {
                                assert(cs[b] != child) by {
                                    if cs[b] == child {
                                        assert(cs.contains(child));
                                    }
                                }
                            }
                        }
                    } else {
                        assert(g2[x] == g[x]);
                    }
                }
            }
            lemma_add_edge_acyclic(g, parent, child);
        }
        Ok(())
    }

    /// The reverse adjacency: each identifier with at least one incoming
    /// edge, paired with all its parents.  Recomputed from scratch on every
    /// call by scanning the children of every node.
    pub fn parents(&self) -> (r: Vec<(u128, Vec<u128>)>)
        requires
            self.wf(),
        ensures
            forall|k: int, p: u128|
                0 <= k < r@.len() ==> ((#[trigger] r@[k].1@.contains(p)) <==> edge(
                    self.model(),
                    p,
                    r@[k].0,
                )),
            forall|k: int| 0 <= k < r@.len() ==> (#[trigger] r@[k]).1@.len() >= 1,
            forall|c: u128|
                #![trigger ids_of_pairs(r@).contains(c)]
                #![trigger has_parent(self.model(), c)]
                ids_of_pairs(r@).contains(c) <==> has_parent(self.model(), c),
            forall|k: int| 0 <= k < r@.len() ==> (#[trigger] r@[k]).1@.no_duplicates(),
            ids_of_pairs(r@).no_duplicates(),
    {
        proof {
            lemma_sorted_ids_no_dup(self.nodes@);
            lemma_map_of_dom(self.nodes@);
            lemma_map_of_index(self.nodes@);
        }
        let ghost g = self.model();
        let mut r: Vec<(u128, Vec<u128>)> = Vec::new();
        let n = self.nodes.len();
        let mut i: usize = 0;
        while i < n
            invariant
                self.wf(),
                g == self.model(),
                n == self.nodes@.len(),
                i <= n,
                forall|k: int, p: u128|
                    0 <= k < r@.len() ==> ((#[trigger] r@[k].1@.contains(p)) <==> edge(
                        g,
                        p,
                        r@[k].0,
                    )),
                forall|k: int| 0 <= k < r@.len() ==> (#[trigger] r@[k]).1@.len() >= 1,
                forall|k: int| 0 <= k < r@.len() ==> (#[trigger] r@[k]).1@.no_duplicates(),
                forall|c: u128|
                    #![trigger ids_of_pairs(r@).contains(c)]
                    #![trigger has_parent(g, c)]
                    ids_of_pairs(r@).contains(c) <==> (ids(self.nodes@).take(i as int).contains(c)
                        && has_parent(g, c)),
                ids_of_pairs(r@).no_duplicates(),
            decreases n - i,
        {
            let cid = self.nodes[i].0;
            proof {
                assert(ids(self.nodes@)[i as int] == cid);
            }
            let ps = self.collect_parents(cid);
            let ghost rold = r@;
            if ps.len() > 0 {
                r.push((cid, ps));
            }
            proof {
                lemma_take_push(ids(self.nodes@), i as int, cid);
                let rnew = r@;
                if ps@.len() > 0 {
                    assert(rnew == rold.push((cid, ps)));
                    assert(ids_of_pairs(rnew) =~= ids_of_pairs(rold).push(cid));
                }
                assert forall|c: u128|
                    #![trigger ids_of_pairs(rnew).contains(c)]
                    #![trigger has_parent(g, c)]
                    ids_of_pairs(rnew).contains(c) <==> (ids(self.nodes@).take(
                        i as int + 1,
                    ).contains(c) && has_parent(g, c)) by {
                    if ids_of_pairs(rnew).contains(c) {
                        let k = choose|k: int|
                            0 <= k < ids_of_pairs(rnew).len() && (#[trigger] ids_of_pairs(
                                rnew,
                            )[k]) == c;
                        assert(rnew[k].0 == c);
                        if k < rold.len() {
                            assert(ids_of_pairs(rold)[k] == c);
                            assert(ids_of_pairs(rold).contains(c));
                        } else {
                            assert(c == cid);
                            assert(rnew[k].1@.len() >= 1);
                            let p = rnew[k].1@[0];
                            assert(rnew[k].1@.contains(p));
                            assert(edge(g, p, c));
                            assert(has_parent(g, c));
                        }
                    }
                    if ids(self.nodes@).take(i as int + 1).contains(c) && has_parent(g, c) {
                        if c == cid {
                            let p = choose|p: u128| #[trigger] edge(g, p, c);
                            assert(ps@.contains(p));
                            assert(rnew[rnew.len() - 1].0 == cid);
                            assert(ids_of_pairs(rnew)[rnew.len() - 1] == cid);
                            assert(ids_of_pairs(rnew).contains(c));
                        } else {
                            assert(ids(self.nodes@).take(i as int).contains(c));
                            assert(ids_of_pairs(rold).contains(c));
                            let k = choose|k: int|
                                0 <= k < ids_of_pairs(rold).len() && (#[trigger] ids_of_pairs(
                                    rold,
                                )[k]) == c;
                            assert(ids_of_pairs(rnew)[k] == c);
                            assert(ids_of_pairs(rnew).contains(c));
                        }
                    }
                }
                if ps@.len() > 0 {
                    assert(!ids_of_pairs(rold).contains(cid)) by {
                        if ids_of_pairs(rold).contains(cid) {
                            assert(ids(self.nodes@).take(i as int).contains(cid));
                            let j = choose|j: int|
                                0 <= j < i && (#[trigger] ids(self.nodes@).take(i as int)[j])
                                    == cid;
                            assert(ids(self.nodes@)[j] == ids(self.nodes@)[i as int]);
                        }
                    }
                    assert forall|a: int, b: int|
                        0 <= a < ids_of_pairs(rnew).len() && 0 <= b < ids_of_pairs(rnew).len() && a
                            != b implies ids_of_pairs(rnew)[a] != ids_of_pairs(rnew)[b] by {
                        if a < rold.len() && b < rold.len() {
                            assert(ids_of_pairs(rold)[a] == ids_of_pairs(rnew)[a]);
                            assert(ids_of_pairs(rold)[b] == ids_of_pairs(rnew)[b]);
                        } else if a < rold.len() {
                            assert(!(rold[a].0 == cid)) by {
                                if rold[a].0 == cid {
                                    assert(ids_of_pairs(rold)[a] == cid);
                                    assert(ids_of_pairs(rold).contains(cid));
                                }
                            }
                        } else if b < rold.len() {
                            assert(!(rold[b].0 == cid)) by {
                                if rold[b].0 == cid {
                                    assert(ids_of_pairs(rold)[b] == cid);
                                    assert(ids_of_pairs(rold).contains(cid));
                                }
                            }
                        }
                    }
                }
            }
            i += 1;
        }
        proof {
            assert(ids(self.nodes@).take(n as int) =~= ids(self.nodes@));
            assert forall|c: u128|
                #![trigger ids_of_pairs(r@).contains(c)]
                #![trigger has_parent(self.model(), c)]
                ids_of_pairs(r@).contains(c) <==> has_parent(self.model(), c) by {
                if has_parent(g, c) {
                    let p = choose|p: u128| #[trigger] edge(g, p, c);
                    assert(g.contains_key(c));
                    assert(ids(self.nodes@).contains(c));
                }
            }
        }
        r
    }

    /// All identifiers whose children list holds `c`, in store order.
    fn collect_parents(&self, c: u128) -> (r: Vec<u128>)
        requires
            self.wf(),
        ensures
            forall|p: u128|
                #![trigger r@.contains(p)]
                #![trigger edge(self.model(), p, c)]
                r@.contains(p) <==> edge(self.model(), p, c),
            r@.no_duplicates(),
    {
        proof {
            lemma_sorted_ids_no_dup(self.nodes@);
            lemma_map_of_dom(self.nodes@);
            lemma_map_of_index(self.nodes@);
        }
        let ghost g = self.model();
        let mut r: Vec<u128> = Vec::new();
        let n = self.nodes.len();
        let mut i: usize = 0;
        while i < n
            invariant
                self.wf(),
                g == self.model(),
                n == self.nodes@.len(),
                i <= n,
                forall|p: u128|
                    #![trigger r@.contains(p)]
                    #![trigger edge(g, p, c)]
                    r@.contains(p) <==> (edge(g, p, c) && ids(self.nodes@).take(i as int).contains(
                        p,
                    )),
                r@.no_duplicates(),
            decreases n - i,
        {
            let pid = self.nodes[i].0;
            let has = vec_contains(&self.nodes[i].1.childs, c);
            let ghost rold = r@;
            if has {
                r.push(pid);
            }
            proof {
                lemma_sorted_ids_no_dup(self.nodes@);
                lemma_map_of_index(self.nodes@);
                assert(ids(self.nodes@)[i as int] == pid);
                lemma_take_push(ids(self.nodes@), i as int, pid);
                assert(g.contains_key(pid) && g[pid] == self.nodes@[i as int].1@);
                if has {
                    assert(edge(g, pid, c));
                    assert(!rold.contains(pid)) by {
                        if ids(self.nodes@).take(i as int).contains(pid) {
                            let j = choose|j: int|
                                0 <= j < i && (#[trigger] ids(self.nodes@).take(i as int)[j])
                                    == pid;
                            assert(ids(self.nodes@)[j] == ids(self.nodes@)[i as int]);
                        }
                    }
                    assert forall|p: u128|
                        #![trigger r@.contains(p)]
                        #![trigger edge(g, p, c)]
                        r@.contains(p) <==> (edge(g, p, c) && ids(self.nodes@).take(
                            i as int + 1,
                        ).contains(p)) by {
                        if r@.contains(p) {
                            let j = choose|j: int| 0 <= j < r@.len() && (#[trigger] r@[j]) == p;
                            if j < rold.len() {
                                assert(rold[j] == p);
                                assert(rold.contains(p));
                            } else {
                                assert(p == pid);
                            }
                        }
                        if edge(g, p, c) && ids(self.nodes@).take(i as int + 1).contains(p) {
                            if p == pid {
                                assert(r@[r@.len() - 1] == pid);
                            } else {
                                assert(ids(self.nodes@).take(i as int).contains(p));
                                assert(rold.contains(p));
                                let j = choose|j: int|
                                    0 <= j < rold.len() && (#[trigger] rold[j]) == p;
                                assert(r@[j] == p);
                            }
                        }
                    }
                } else {
                    assert(!g[pid].childs.contains(c));
                    assert forall|p: u128|
                        #![trigger r@.contains(p)]
                        #![trigger edge(g, p, c)]
                        r@.contains(p) <==> (edge(g, p, c) && ids(self.nodes@).take(
                            i as int + 1,
                        ).contains(p)) by {
                        if edge(g, p, c) && ids(self.nodes@).take(i as int + 1).contains(p) {
                            if p != pid {
                                assert(ids(self.nodes@).take(i as int).contains(p));
                            }
                        }
                    }
                }
            }
            i += 1;
        }
        proof {
            assert(ids(self.nodes@).take(n as int) =~= ids(self.nodes@));
            assert forall|p: u128|
                #![trigger r@.contains(p)]
                #![trigger edge(self.model(), p, c)]
                r@.contains(p) <==> edge(g, p, c) by {
                if edge(g, p, c) {
                    assert(ids(self.nodes@).contains(p));
                }
            }
        }
        r
    }
}

/// Some node of the graph lists `c` among its children.
pub open spec fn has_parent(g: Map<u128, NodeModel>, c: u128) -> bool {
    exists|p: u128| #[trigger] edge(g, p, c)
}

/// The first components of a pair sequence.
pub open spec fn ids_of_pairs(s: Seq<(u128, Vec<u128>)>) -> Seq<u128> {
    s.map_values(|e: (u128, Vec<u128>)| e.0)
}

/// Taking one more element of a sequence appends exactly that element.
pub proof fn lemma_take_push(s: Seq<u128>, i: int, c: u128)
    requires
        0 <= i < s.len(),
        s[i] == c,
    ensures
        s.take(i + 1) =~= s.take(i).push(c),
        forall|x: u128|
            #![trigger s.take(i + 1).contains(x)]
            #![trigger s.take(i).contains(x)]
            s.take(i + 1).contains(x) <==> s.take(i).contains(x) || x == c,
{
    assert(s.take(i + 1) =~= s.take(i).push(c));
    assert forall|x: u128| s.take(i + 1).contains(x) <==> s.take(i).contains(x) || x == c by {
        if s.take(i + 1).contains(x) {
            let j = choose|j: int| 0 <= j < i + 1 && (#[trigger] s.take(i + 1)[j]) == x;
            if j < i {
                assert(s.take(i)[j] == x);
            }
        }
        if s.take(i).contains(x) {
            let j = choose|j: int| 0 <= j < i && (#[trigger] s.take(i)[j]) == x;
            assert(s.take(i + 1)[j] == x);
        }
        if x == c {
            assert(s.take(i + 1)[i] == c);
        }
    }
}

} // verus!
