//! Two textual renderings of a graph, each a pure function of the store.
//!
//! Nodes are emitted in increasing identifier order (the store's own
//! order) and each node's children are sorted before printing, so the same
//! graph always renders to the same bytes.

use vstd::prelude::*;

use crate::graph::{AcyclicGraph, Node};

verus! {

/// What `short_uuid` encodes an identifier as; the text is a function of
/// the identifier alone.
pub uninterp spec fn short_id_of(id: u128) -> Seq<char>;

/// Relies on `uuid::Uuid::from_u128` and `short_uuid::ShortUuid::from_uuid`:
/// encodes the identifier in the short base-58 form.
#[verifier::external_body]
fn short_id(id: u128) -> (r: String)
    ensures
        r@ == short_id_of(id),
{
    let uuid = uuid::Uuid::from_u128(id);
    format!("{}", short_uuid::ShortUuid::from_uuid(&uuid))
}

pub assume_specification[ String::push_str ](s: &mut String, other: &str)
    ensures
        final(s)@ == old(s)@ + other@,
;

/// Where `x` belongs in an ascending sequence.
pub open spec fn insert_sorted(x: u128, s: Seq<u128>) -> Seq<u128>
    decreases s.len(),
{
    if s.len() == 0 {
        seq![x]
    } else if x <= s.first() {
        seq![x] + s
    } else {
        seq![s.first()] + insert_sorted(x, s.drop_first())
    }
}

/// The ascending rearrangement of a sequence, by insertion.
pub open spec fn sort_ids(s: Seq<u128>) -> Seq<u128>
    decreases s.len(),
{
    if s.len() == 0 {
        Seq::empty()
    } else {
        insert_sorted(s.first(), sort_ids(s.drop_first()))
    }
}

/// Insert into an ascending vector at the first fitting position.
fn insert_sorted_exec(x: u128, v: &mut Vec<u128>)
    ensures
        final(v)@ == insert_sorted(x, old(v)@),
{
    let ghost s = v@;
    let n = v.len();
    let mut i: usize = 0;
    while i < n && v[i] < x
        invariant
            n == v@.len(),
            v@ == s,
            i <= n,
            forall|k: int| 0 <= k < i ==> (#[trigger] s[k]) < x,
        decreases n - i,
    {
        i += 1;
    }
    v.insert(i, x);
    proof {
        lemma_insert_sorted_at(x, s, i as int);
    }
}

/// Inserting at the first position whose element is not below `x` is what
/// the specification computes.
proof fn lemma_insert_sorted_at(x: u128, s: Seq<u128>, i: int)
    requires
        0 <= i <= s.len(),
        forall|k: int| 0 <= k < i ==> (#[trigger] s[k]) < x,
        i < s.len() ==> !(s[i] < x),
    ensures
        insert_sorted(x, s) == s.insert(i, x),
    decreases s.len(),
{
    if s.len() == 0 {
        assert(insert_sorted(x, s) =~= s.insert(0, x));
    } else if i == 0 {
        assert(x <= s.first());
        assert(seq![x] + s =~= s.insert(0, x));
    } else {
        assert(s[0] < x);
        let t = s.drop_first();
        assert(forall|k: int| 0 <= k < i - 1 ==> (#[trigger] t[k]) < x) by {
            assert(forall|k: int| 0 <= k < i - 1 ==> t[k] == s[k + 1]);
        }
        lemma_insert_sorted_at(x, t, i - 1);
        assert(seq![s.first()] + t.insert(i - 1, x) =~= s.insert(i, x));
    }
}

/// An ascending copy of a child list.
fn sorted_copy(v: &Vec<u128>) -> (r: Vec<u128>)
    ensures
        r@ == sort_ids(v@),
{
    let mut r: Vec<u128> = Vec::new();
    let n = v.len();
    let mut i: usize = n;
    proof {
        assert(v@.subrange(n as int, n as int) =~= Seq::<u128>::empty());
    }
    while i > 0
        invariant
            n == v@.len(),
            i <= n,
            r@ == sort_ids(v@.subrange(i as int, n as int)),
        decreases i,
    {
        i = i - 1;
        insert_sorted_exec(v[i], &mut r);
        proof {
            let sub = v@.subrange(i as int, n as int);
            assert(sub.first() == v@[i as int]);
            assert(sub.drop_first() =~= v@.subrange(i as int + 1, n as int));
        }
    }
    proof {
        assert(v@.subrange(0, n as int) =~= v@);
    }
    r
}

/// One node's declaration line in the interchange format.
pub open spec fn dot_node_line(e: (u128, Node)) -> Seq<char> {
    "  \""@ + short_id_of(e.0) + "\""@ + (match e.1.name {
        Some(nm) => " [label = \""@ + nm@ + "\"]"@,
        Option::None => Seq::<char>::empty(),
    }) + ";\n"@
}

/// The tail of an adjacency line: one quoted child after another.
pub open spec fn dot_childs_tail(cs: Seq<u128>) -> Seq<char>
    decreases cs.len(),
{
    if cs.len() == 0 {
        Seq::empty()
    } else {
        " \""@ + short_id_of(cs.first()) + "\""@ + dot_childs_tail(cs.drop_first())
    }
}

/// One node's adjacency line, or nothing when it has no children.
pub open spec fn dot_edges_line(p: u128, cs: Seq<u128>) -> Seq<char> {
    if cs.len() == 0 {
        Seq::empty()
    } else {
        "  \""@ + short_id_of(p) + "\" -> {\""@ + short_id_of(cs.first()) + "\""@
            + dot_childs_tail(cs.drop_first()) + "};\n"@
    }
}

/// The per-node block of the interchange format, in store order.
pub open spec fn dot_body(s: Seq<(u128, Node)>) -> Seq<char>
    decreases s.len(),
{
    if s.len() == 0 {
        Seq::empty()
    } else {
        dot_node_line(s.first()) + dot_edges_line(s.first().0, sort_ids(s.first().1.childs@))
            + dot_body(s.drop_first())
    }
}

/// The whole interchange-format text of a graph.
pub open spec fn dot_text(name: Seq<char>, s: Seq<(u128, Node)>) -> Seq<char> {
    "digraph \""@ + name + "\" {\n"@ + "  node [shape = box]\n"@ + "  graph [rankdir = TB]\n"@
        + "\n"@ + dot_body(s) + "}\n"@
}

/// One node's line in the flow-diagram format.
pub open spec fn mermaid_node_line(e: (u128, Node)) -> Seq<char> {
    "  "@ + short_id_of(e.0) + (match e.1.name {
        Some(nm) => "["@ + nm@ + "]"@,
        Option::None => Seq::<char>::empty(),
    }) + mermaid_edges(sort_ids(e.1.childs@)) + "\n"@
}

/// The arrow part of a flow-diagram line: nothing, or an arrow to the first
/// child with the rest joined by the connector.
pub open spec fn mermaid_edges(cs: Seq<u128>) -> Seq<char> {
    if cs.len() == 0 {
        Seq::empty()
    } else {
        " --> "@ + short_id_of(cs.first()) + mermaid_tail(cs.drop_first())
    }
}

/// The joined remainder of a flow-diagram adjacency.
pub open spec fn mermaid_tail(cs: Seq<u128>) -> Seq<char>
    decreases cs.len(),
{
    if cs.len() == 0 {
        Seq::empty()
    } else {
        " & "@ + short_id_of(cs.first()) + mermaid_tail(cs.drop_first())
    }
}

/// The per-node block of the flow-diagram format, in store order.
pub open spec fn mermaid_body(s: Seq<(u128, Node)>) -> Seq<char>
    decreases s.len(),
{
    if s.len() == 0 {
        Seq::empty()
    } else {
        mermaid_node_line(s.first()) + mermaid_body(s.drop_first())
    }
}

/// The whole flow-diagram text of a graph.
pub open spec fn mermaid_text(name: Seq<char>, s: Seq<(u128, Node)>) -> Seq<char> {
    "---\n"@ + "title: "@ + name + "\n"@ + "---\n"@ + "flowchart TB\n"@ + mermaid_body(s)
}

/// A node block sequence renders piecewise.
proof fn lemma_dot_body_concat(a: Seq<(u128, Node)>, b: Seq<(u128, Node)>)
    ensures
        dot_body(a + b) == dot_body(a) + dot_body(b),
    decreases a.len(),
{
    if a.len() == 0 {
        assert(a + b =~= b);
        assert(dot_body(a) + dot_body(b) =~= dot_body(b));
    } else {
        assert((a + b).first() == a.first());
        assert((a + b).drop_first() =~= a.drop_first() + b);
        lemma_dot_body_concat(a.drop_first(), b);
        assert(dot_body(a + b) =~= dot_body(a) + dot_body(b));
    }
}

/// A node block sequence renders piecewise in the flow format too.
proof fn lemma_mermaid_body_concat(a: Seq<(u128, Node)>, b: Seq<(u128, Node)>)
    ensures
        mermaid_body(a + b) == mermaid_body(a) + mermaid_body(b),
    decreases a.len(),
{
    if a.len() == 0 {
        assert(a + b =~= b);
        assert(mermaid_body(a) + mermaid_body(b) =~= mermaid_body(b));
    } else {
        assert((a + b).first() == a.first());
        assert((a + b).drop_first() =~= a.drop_first() + b);
        lemma_mermaid_body_concat(a.drop_first(), b);
        assert(mermaid_body(a + b) =~= mermaid_body(a) + mermaid_body(b));
    }
}

/// Lazy interchange-format view of a graph.
pub struct Dot<'a> {
    pub graph: &'a AcyclicGraph,
}

/// Lazy flow-diagram view of a graph.
pub struct Mermaid<'a> {
    pub graph: &'a AcyclicGraph,
}

impl AcyclicGraph {
    pub fn dot(&self) -> (r: Dot<'_>)
        ensures
            r.graph == self,
    {
        Dot { graph: self }
    }

    pub fn mermaid(&self) -> (r: Mermaid<'_>)
        ensures
            r.graph == self,
    {
        Mermaid { graph: self }
    }
}

impl<'a> Dot<'a> {
    /// Render the graph: a function of the store alone, so the same graph
    /// always yields byte-identical text.
    #[verifier::rlimit(80)]
    pub fn to_text(&self) -> (r: String)
        ensures
            r@ == dot_text(self.graph.name@, self.graph.nodes@),
    {
        let s = &self.graph.nodes;
        let mut out = String::new();
        out.push_str("digraph \"");
        out.push_str(self.graph.name.as_str());
        out.push_str("\" {\n");
        out.push_str("  node [shape = box]\n");
        out.push_str("  graph [rankdir = TB]\n");
        out.push_str("\n");
        let ghost header = "digraph \""@ + self.graph.name@ + "\" {\n"@ + "  node [shape = box]\n"@
            + "  graph [rankdir = TB]\n"@ + "\n"@;
        proof {
            assert(out@ =~= header);
            assert(s@.take(0) =~= Seq::<(u128, Node)>::empty());
            assert(out@ =~= header + dot_body(s@.take(0)));
        }
        let n = s.len();
        let mut i: usize = 0;
        while i < n
            invariant
                s == &self.graph.nodes,
                n == s@.len(),
                i <= n,
                header == "digraph \""@ + self.graph.name@ + "\" {\n"@ + "  node [shape = box]\n"@
                    + "  graph [rankdir = TB]\n"@ + "\n"@,
                out@ == header + dot_body(s@.take(i as int)),
            decreases n - i,
        {
            let ghost out0 = out@;
            let sid = short_id(s[i].0);
            out.push_str("  \"");
            out.push_str(sid.as_str());
            out.push_str("\"");
            match &s[i].1.name {
                Some(nm) => {
                    out.push_str(" [label = \"");
                    out.push_str(nm.as_str());
                    out.push_str("\"]");
                },
                Option::None => {},
            }
            out.push_str(";\n");
            proof {
                assert(out@ =~= out0 + dot_node_line(s@[i as int]));
            }
            let cs = sorted_copy(&s[i].1.childs);
            let ghost oute = out@;
            if cs.len() > 0 {
                out.push_str("  \"");
                out.push_str(sid.as_str());
                out.push_str("\" -> {\"");
                let firstsid = short_id(cs[0]);
                out.push_str(firstsid.as_str());
                out.push_str("\"");
                let cn = cs.len();
                let mut cj: usize = 1;
                proof {
                    assert(cs@.subrange(1, 1) =~= Seq::<u128>::empty());
                    assert(out@ =~= oute + "  \""@ + short_id_of(s@[i as int].0) + "\" -> {\""@
                        + short_id_of(cs@[0]) + "\""@ + dot_childs_tail(cs@.subrange(1, 1)));
                }
                while cj < cn
                    invariant
                        cn == cs@.len(),
                        1 <= cj <= cn,
                        s == &self.graph.nodes,
                        i < s@.len(),
                        out@ == oute + "  \""@ + short_id_of(s@[i as int].0) + "\" -> {\""@
                            + short_id_of(cs@[0]) + "\""@ + dot_childs_tail(
                            cs@.subrange(1, cj as int),
                        ),
                    decreases cn - cj,
                {
                    let ghost outc = out@;
                    let csid = short_id(cs[cj]);
                    out.push_str(" \"");
                    out.push_str(csid.as_str());
                    out.push_str("\"");
                    proof {
                        lemma_dot_childs_tail_snoc(cs@, 1, cj as int);
                        assert(out@ =~= oute + "  \""@ + short_id_of(s@[i as int].0) + "\" -> {\""@
                            + short_id_of(cs@[0]) + "\""@ + dot_childs_tail(
                            cs@.subrange(1, cj as int + 1),
                        ));
                    }
                    cj += 1;
                }
                out.push_str("};\n");
                proof {
                    assert(cs@.subrange(1, cn as int) =~= cs@.drop_first());
                    assert(out@ =~= oute + dot_edges_line(s@[i as int].0, cs@));
                }
            } else {
                proof {
                    assert(dot_edges_line(s@[i as int].0, cs@) =~= Seq::<char>::empty());
                    assert(out@ =~= oute + dot_edges_line(s@[i as int].0, cs@));
                }
            }
            proof {
                let se = s@.take(i as int + 1);
                assert(se =~= s@.take(i as int) + seq![s@[i as int]]);
                lemma_dot_body_concat(s@.take(i as int), seq![s@[i as int]]);
                assert(seq![s@[i as int]].drop_first() =~= Seq::<(u128, Node)>::empty());
                assert(seq![s@[i as int]].drop_first().len() == 0);
                assert(dot_body(seq![s@[i as int]].drop_first()) =~= Seq::<char>::empty());
                assert(dot_body(seq![s@[i as int]]) =~= dot_node_line(s@[i as int])
                    + dot_edges_line(s@[i as int].0, sort_ids(s@[i as int].1.childs@)));
                assert(out@ =~= header + dot_body(se));
            }
            i += 1;
        }
        out.push_str("}\n");
        proof {
            assert(s@.take(n as int) =~= s@);
            assert(out@ =~= dot_text(self.graph.name@, self.graph.nodes@));
        }
        out
    }
}

/// Reading one more sorted child appends exactly its quoted name.
proof fn lemma_dot_childs_tail_snoc(cs: Seq<u128>, from: int, j: int)
    requires
        0 <= from <= j < cs.len(),
    ensures
        dot_childs_tail(cs.subrange(from, j + 1)) == dot_childs_tail(cs.subrange(from, j)) + " \""@
            + short_id_of(cs[j]) + "\""@,
    decreases j - from,
{
    let a = cs.subrange(from, j + 1);
    let b = cs.subrange(from, j);
    if from == j {
        assert(b.len() == 0);
        assert(a =~= seq![cs[j]]);
        assert(a.drop_first() =~= Seq::<u128>::empty());
        assert(a.drop_first().len() == 0);
        assert(dot_childs_tail(a.drop_first()) =~= Seq::<char>::empty());
        assert(dot_childs_tail(a) =~= " \""@ + short_id_of(cs[j]) + "\""@);
        assert(dot_childs_tail(b) + " \""@ + short_id_of(cs[j]) + "\""@ =~= dot_childs_tail(a));
    } else {
        assert(a.first() == cs[from] && b.first() == cs[from]);
        assert(a.drop_first() =~= cs.subrange(from + 1, j + 1));
        assert(b.drop_first() =~= cs.subrange(from + 1, j));
        lemma_dot_childs_tail_snoc(cs, from + 1, j);
        assert(dot_childs_tail(a) =~= dot_childs_tail(b) + " \""@ + short_id_of(cs[j]) + "\""@);
    }
}

/// Reading one more joined child appends exactly its connector and name.
proof fn lemma_mermaid_tail_snoc(cs: Seq<u128>, from: int, j: int)
    requires
        0 <= from <= j < cs.len(),
    ensures
        mermaid_tail(cs.subrange(from, j + 1)) == mermaid_tail(cs.subrange(from, j)) + " & "@
            + short_id_of(cs[j]),
    decreases j - from,
{
    let a = cs.subrange(from, j + 1);
    let b = cs.subrange(from, j);
    if from == j {
        assert(b.len() == 0);
        assert(a =~= seq![cs[j]]);
        assert(a.drop_first() =~= Seq::<u128>::empty());
        assert(a.drop_first().len() == 0);
        assert(mermaid_tail(a.drop_first()) =~= Seq::<char>::empty());
        assert(mermaid_tail(a) =~= " & "@ + short_id_of(cs[j]));
        assert(mermaid_tail(b) + " & "@ + short_id_of(cs[j]) =~= mermaid_tail(a));
    } else {
        assert(a.first() == cs[from] && b.first() == cs[from]);
        assert(a.drop_first() =~= cs.subrange(from + 1, j + 1));
        assert(b.drop_first() =~= cs.subrange(from + 1, j));
        lemma_mermaid_tail_snoc(cs, from + 1, j);
        assert(mermaid_tail(a) =~= mermaid_tail(b) + " & "@ + short_id_of(cs[j]));
    }
}

impl<'a> Mermaid<'a> {
    /// Render the graph: a function of the store alone, so the same graph
    /// always yields byte-identical text.
    #[verifier::rlimit(80)]
    pub fn to_text(&self) -> (r: String)
        ensures
            r@ == mermaid_text(self.graph.name@, self.graph.nodes@),
    {
        let s = &self.graph.nodes;
        let mut out = String::new();
        out.push_str("---\n");
        out.push_str("title: ");
        out.push_str(self.graph.name.as_str());
        out.push_str("\n");
        out.push_str("---\n");
        out.push_str("flowchart TB\n");
        let ghost header = "---\n"@ + "title: "@ + self.graph.name@ + "\n"@ + "---\n"@
            + "flowchart TB\n"@;
        proof {
            assert(out@ =~= header);
            assert(s@.take(0) =~= Seq::<(u128, Node)>::empty());
            assert(out@ =~= header + mermaid_body(s@.take(0)));
        }
        let n = s.len();
        let mut i: usize = 0;
        while i < n
            invariant
                s == &self.graph.nodes,
                n == s@.len(),
                i <= n,
                header == "---\n"@ + "title: "@ + self.graph.name@ + "\n"@ + "---\n"@
                    + "flowchart TB\n"@,
                out@ == header + mermaid_body(s@.take(i as int)),
            decreases n - i,
        {
            let ghost out0 = out@;
            let sid = short_id(s[i].0);
            out.push_str("  ");
            out.push_str(sid.as_str());
            match &s[i].1.name {
                Some(nm) => {
                    out.push_str("[");
                    out.push_str(nm.as_str());
                    out.push_str("]");
                },
                Option::None => {},
            }
            let ghost outn = out@;
            let cs = sorted_copy(&s[i].1.childs);
            if cs.len() > 0 {
                out.push_str(" --> ");
                let firstsid = short_id(cs[0]);
                out.push_str(firstsid.as_str());
                let cn = cs.len();
                let mut cj: usize = 1;
                proof {
                    assert(cs@.subrange(1, 1) =~= Seq::<u128>::empty());
                    assert(out@ =~= outn + " --> "@ + short_id_of(cs@[0]) + mermaid_tail(
                        cs@.subrange(1, 1),
                    ));
                }
                while cj < cn
                    invariant
                        cn == cs@.len(),
                        1 <= cj <= cn,
                        out@ == outn + " --> "@ + short_id_of(cs@[0]) + mermaid_tail(
                            cs@.subrange(1, cj as int),
                        ),
                    decreases cn - cj,
                {
                    let csid = short_id(cs[cj]);
                    out.push_str(" & ");
                    out.push_str(csid.as_str());
                    proof {
                        lemma_mermaid_tail_snoc(cs@, 1, cj as int);
                        assert(out@ =~= outn + " --> "@ + short_id_of(cs@[0]) + mermaid_tail(
                            cs@.subrange(1, cj as int + 1),
                        ));
                    }
                    cj += 1;
                }
                proof {
                    assert(cs@.subrange(1, cn as int) =~= cs@.drop_first());
                    assert(out@ =~= outn + mermaid_edges(cs@));
                }
            } else {
                proof {
                    assert(mermaid_edges(cs@) =~= Seq::<char>::empty());
                    assert(out@ =~= outn + mermaid_edges(cs@));
                }
            }
            out.push_str("\n");
            proof {
                let se = s@.take(i as int + 1);
                assert(se =~= s@.take(i as int) + seq![s@[i as int]]);
                lemma_mermaid_body_concat(s@.take(i as int), seq![s@[i as int]]);
                assert(seq![s@[i as int]].drop_first() =~= Seq::<(u128, Node)>::empty());
                assert(seq![s@[i as int]].drop_first().len() == 0);
                assert(mermaid_body(seq![s@[i as int]].drop_first()) =~= Seq::<char>::empty());
                assert(mermaid_body(seq![s@[i as int]]) =~= mermaid_node_line(s@[i as int]));
                assert(out@ =~= header + mermaid_body(se));
            }
            i += 1;
        }
        proof {
            assert(s@.take(n as int) =~= s@);
            assert(out@ =~= mermaid_text(self.graph.name@, self.graph.nodes@));
        }
        out
    }
}

/// Rendering is deterministic: graphs with the same name and entries render
/// to the same text, in either format.
pub proof fn lemma_render_deterministic(g1: AcyclicGraph, g2: AcyclicGraph)
    requires
        g1.name@ == g2.name@,
        g1.nodes@ == g2.nodes@,
    ensures
        dot_text(g1.name@, g1.nodes@) == dot_text(g2.name@, g2.nodes@),
        mermaid_text(g1.name@, g1.nodes@) == mermaid_text(g2.name@, g2.nodes@),
{
}

} // verus!
