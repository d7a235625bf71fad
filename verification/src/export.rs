//! The export layer: a snapshot of the final equivalence-class graph as one
//! record per live class and one directed link per (node, child) edge. The
//! link's `iter` field is a constant placeholder, since export happens once
//! after saturation ends.

use vstd::prelude::*;

use crate::ache::ache_sum;
use crate::rebuild::all_canonical;
use crate::ses::Ses;
use crate::uf::root_of;

verus! {

pub struct GraphNode {
    pub id: usize,
    pub label: String,
    pub ache: u64,
}

pub struct GraphLink {
    pub source: usize,
    pub target: usize,
    pub op: String,
    pub iter: usize,
}

pub struct GraphExport {
    pub nodes: Vec<GraphNode>,
    pub links: Vec<GraphLink>,
}

/// The aggregate ache scalar a class is exported with: the sum of its
/// vector's components (zero in the unreachable case of a vector too long to
/// sum).
pub open spec fn export_ache(s: Ses, c: int) -> int {
    if s.classes@[c].ache.vals@.len() < 0xFFFF_FFFF {
        ache_sum(s.classes@[c].ache.vals@)
    } else {
        0
    }
}

/// The label a class is exported with: its first member node's operator, or
/// the empty string for a class owning no nodes.
pub open spec fn export_label(s: Ses, c: int) -> Seq<char> {
    if s.classes@[c].nodes@.len() > 0 {
        s.classes@[c].nodes@[0].op@
    } else {
        Seq::<char>::empty()
    }
}

/// The exported record of class `c`.
pub open spec fn node_record_ok(s: Ses, g: GraphNode) -> bool {
    &&& (g.id as int) < s.len()
    &&& root_of(s.p(), g.id as int) == g.id as int
    &&& g.label@ == export_label(s, g.id as int)
    &&& g.ache as int == export_ache(s, g.id as int)
}

/// The link records the edge from class `c`'s member node `j` to that node's
/// `k`-th child.
pub open spec fn link_records_edge(s: Ses, l: GraphLink, c: int, j: int, k: int) -> bool {
    &&& 0 <= c < s.classes@.len()
    &&& 0 <= j < s.classes@[c].nodes@.len()
    &&& 0 <= k < s.classes@[c].nodes@[j].children@.len()
    &&& root_of(s.p(), c) == c
    &&& l.source as int == c
    &&& l.target == s.classes@[c].nodes@[j].children@[k]
    &&& l.op@ == s.classes@[c].nodes@[j].op@
    &&& l.iter == 0
}

/// Some link records the (class, member node, child position) edge.
pub open spec fn edge_linked(s: Ses, links: Seq<GraphLink>, c: int, j: int, k: int) -> bool {
    exists|q: int| 0 <= q < links.len() && link_records_edge(s, links[q], c, j, k)
}

/// The link records some owned edge.
pub open spec fn link_sound(s: Ses, l: GraphLink) -> bool {
    exists|c: int, j: int, k: int| link_records_edge(s, l, c, j, k)
}

/// Some node record carries the class id `c`.
pub open spec fn class_exported(nodes: Seq<GraphNode>, c: int) -> bool {
    exists|q: int| 0 <= q < nodes.len() && nodes[q].id as int == c
}

proof fn lemma_edge_linked_grow(s: Ses, l1: Seq<GraphLink>, l2: Seq<GraphLink>, c: int, j: int, k: int)
    requires
        edge_linked(s, l1, c, j, k),
        l1.len() <= l2.len(),
        forall|q: int| 0 <= q < l1.len() ==> #[trigger] l2[q] == l1[q],
    ensures
        edge_linked(s, l2, c, j, k),
{
    let q = choose|q: int| 0 <= q < l1.len() && link_records_edge(s, l1[q], c, j, k);
    assert(link_records_edge(s, l2[q], c, j, k));
}

proof fn lemma_class_exported_grow(n1: Seq<GraphNode>, n2: Seq<GraphNode>, c: int)
    requires
        class_exported(n1, c),
        n1.len() <= n2.len(),
        forall|q: int| 0 <= q < n1.len() ==> #[trigger] n2[q] == n1[q],
    ensures
        class_exported(n2, c),
{
    let q = choose|q: int| 0 <= q < n1.len() && n1[q].id as int == c;
    assert(n2[q].id as int == c);
}

/// Snapshots the graph: exactly one record per canonical class, in increasing
/// id order (so ids are pairwise distinct), carrying that class's first
/// member's operator as label and its ache aggregate; and one directed link
/// per (class, member node, child position) edge, every endpoint a canonical
/// class id, with the constant placeholder round. The structure is only read.
pub fn export_graph(ses: &Ses) -> (r: GraphExport)
    requires
        ses.wf(),
        all_canonical(*ses),
    ensures
        forall|q: int| 0 <= q < r.nodes@.len() ==> node_record_ok(*ses, #[trigger] r.nodes@[q]),
        forall|q1: int, q2: int|
            0 <= q1 < q2 < r.nodes@.len() ==> r.nodes@[q1].id < r.nodes@[q2].id,
        forall|c: int|
            #![trigger class_exported(r.nodes@, c)]
            0 <= c < ses.len() && root_of(ses.p(), c) == c ==> class_exported(r.nodes@, c),
        forall|q: int| 0 <= q < r.links@.len() ==> link_sound(*ses, #[trigger] r.links@[q]),
        forall|c: int, j: int, k: int|
            #![trigger edge_linked(*ses, r.links@, c, j, k)]
            0 <= c < ses.classes@.len() && root_of(ses.p(), c) == c && 0 <= j
                < ses.classes@[c].nodes@.len() && 0 <= k
                < ses.classes@[c].nodes@[j].children@.len() ==> edge_linked(
                *ses,
                r.links@,
                c,
                j,
                k,
            ),
        forall|q: int|
            0 <= q < r.links@.len() ==> root_of(ses.p(), (#[trigger] r.links@[q]).source as int)
                == r.links@[q].source as int && root_of(ses.p(), r.links@[q].target as int)
                == r.links@[q].target as int && r.links@[q].iter == 0,
{
    let n = ses.classes.len();
    let mut nodes: Vec<GraphNode> = Vec::new();
    let mut links: Vec<GraphLink> = Vec::new();
    let mut c: usize = 0;
    while c < n
        invariant
            ses.wf(),
            all_canonical(*ses),
            n == ses.len(),
            c <= n,
            forall|q: int|
                0 <= q < nodes@.len() ==> node_record_ok(*ses, #[trigger] nodes@[q]),
            forall|q: int| 0 <= q < nodes@.len() ==> (#[trigger] nodes@[q]).id < c,
            forall|q1: int, q2: int|
                0 <= q1 < q2 < nodes@.len() ==> nodes@[q1].id < nodes@[q2].id,
            forall|c2: int|
                #![trigger class_exported(nodes@, c2)]
                0 <= c2 < c && root_of(ses.p(), c2) == c2 ==> class_exported(nodes@, c2),
            forall|q: int| 0 <= q < links@.len() ==> link_sound(*ses, #[trigger] links@[q]),
            forall|c2: int, j: int, k: int|
                #![trigger edge_linked(*ses, links@, c2, j, k)]
                0 <= c2 < c && root_of(ses.p(), c2) == c2 && 0 <= j
                    < ses.classes@[c2].nodes@.len() && 0 <= k
                    < ses.classes@[c2].nodes@[j].children@.len() ==> edge_linked(
                    *ses,
                    links@,
                    c2,
                    j,
                    k,
                ),
        decreases n - c,
    {
        if ses.uf.parents[c] == c {
            proof {
                assert(root_of(ses.p(), c as int) == c as int);
            }
            let label: String = if ses.classes[c].nodes.len() > 0 {
                ses.classes[c].nodes[0].op.clone()
            } else {
                String::new()
            };
            let ache: u64 = if ses.classes[c].ache.vals.len() < 0xFFFF_FFFF {
                ses.classes[c].ache.sum()
            } else {
                0
            };
            let ghost nodes0 = nodes@;
            nodes.push(GraphNode { id: c, label, ache });
            proof {
                assert(nodes@[nodes@.len() - 1].id as int == c as int);
                assert forall|c2: int|
                    #![trigger class_exported(nodes@, c2)]
                    0 <= c2 <= c as int && root_of(ses.p(), c2) == c2 implies class_exported(
                    nodes@,
                    c2,
                ) by {
                    if c2 == c as int {
                        assert(nodes@[nodes@.len() - 1].id as int == c2);
                    } else {
                        assert(class_exported(nodes0, c2));
                        lemma_class_exported_grow(nodes0, nodes@, c2);
                    }
                }
            }
            let m = ses.classes[c].nodes.len();
            let mut j: usize = 0;
            while j < m
                invariant
                    ses.wf(),
                    all_canonical(*ses),
                    n == ses.len(),
                    c < n,
                    root_of(ses.p(), c as int) == c as int,
                    m == ses.classes@[c as int].nodes@.len(),
                    j <= m,
                    forall|q: int| 0 <= q < links@.len() ==> link_sound(*ses, #[trigger] links@[q]),
                    forall|c2: int, j2: int, k: int|
                        #![trigger edge_linked(*ses, links@, c2, j2, k)]
                        0 <= c2 < c && root_of(ses.p(), c2) == c2 && 0 <= j2
                            < ses.classes@[c2].nodes@.len() && 0 <= k
                            < ses.classes@[c2].nodes@[j2].children@.len() ==> edge_linked(
                            *ses,
                            links@,
                            c2,
                            j2,
                            k,
                        ),
                    forall|j2: int, k: int|
                        #![trigger edge_linked(*ses, links@, c as int, j2, k)]
                        0 <= j2 < j && 0 <= k
                            < ses.classes@[c as int].nodes@[j2].children@.len() ==> edge_linked(
                            *ses,
                            links@,
                            c as int,
                            j2,
                            k,
                        ),
                decreases m - j,
            {
                let nk = ses.classes[c].nodes[j].children.len();
                let mut k: usize = 0;
                while k < nk
                    invariant
                        ses.wf(),
                        all_canonical(*ses),
                        n == ses.len(),
                        c < n,
                        root_of(ses.p(), c as int) == c as int,
                        j < ses.classes@[c as int].nodes@.len(),
                        nk == ses.classes@[c as int].nodes@[j as int].children@.len(),
                        k <= nk,
                        forall|q: int|
                            0 <= q < links@.len() ==> link_sound(*ses, #[trigger] links@[q]),
                        forall|c2: int, j2: int, k2: int|
                            #![trigger edge_linked(*ses, links@, c2, j2, k2)]
                            0 <= c2 < c && root_of(ses.p(), c2) == c2 && 0 <= j2
                                < ses.classes@[c2].nodes@.len() && 0 <= k2
                                < ses.classes@[c2].nodes@[j2].children@.len() ==> edge_linked(
                                *ses,
                                links@,
                                c2,
                                j2,
                                k2,
                            ),
                        forall|j2: int, k2: int|
                            #![trigger edge_linked(*ses, links@, c as int, j2, k2)]
                            0 <= j2 < j && 0 <= k2
                                < ses.classes@[c as int].nodes@[j2].children@.len()
                                ==> edge_linked(*ses, links@, c as int, j2, k2),
                        forall|k2: int|
                            #![trigger edge_linked(*ses, links@, c as int, j as int, k2)]
                            0 <= k2 < k ==> edge_linked(*ses, links@, c as int, j as int, k2),
                    decreases nk - k,
                {
                    proof {
                        assert(crate::ses::node_valid(
                            ses.classes@[c as int].nodes@[j as int],
                            ses.len() as int,
                        ));
                    }
                    let tgt = ses.classes[c].nodes[j].children[k];
                    let ghost links0 = links@;
                    links.push(
                        GraphLink {
                            source: c,
                            target: tgt,
                            op: ses.classes[c].nodes[j].op.clone(),
                            iter: 0,
                        },
                    );
                    proof {
                        assert(link_records_edge(
                            *ses,
                            links@[links@.len() - 1],
                            c as int,
                            j as int,
                            k as int,
                        ));
                        assert(link_sound(*ses, links@[links@.len() - 1]));
                        assert forall|c2: int, j2: int, k2: int|
                            #![trigger edge_linked(*ses, links@, c2, j2, k2)]
                            0 <= c2 < c && root_of(ses.p(), c2) == c2 && 0 <= j2
                                < ses.classes@[c2].nodes@.len() && 0 <= k2
                                < ses.classes@[c2].nodes@[j2].children@.len() implies edge_linked(
                            *ses,
                            links@,
                            c2,
                            j2,
                            k2,
                        ) by {
                            assert(edge_linked(*ses, links0, c2, j2, k2));
                            lemma_edge_linked_grow(*ses, links0, links@, c2, j2, k2);
                        }
                        assert forall|j2: int, k2: int|
                            #![trigger edge_linked(*ses, links@, c as int, j2, k2)]
                            0 <= j2 < j && 0 <= k2
                                < ses.classes@[c as int].nodes@[j2].children@.len() implies edge_linked(
                            *ses,
                            links@,
                            c as int,
                            j2,
                            k2,
                        ) by {
                            assert(edge_linked(*ses, links0, c as int, j2, k2));
                            lemma_edge_linked_grow(*ses, links0, links@, c as int, j2, k2);
                        }
                        assert forall|k2: int|
                            #![trigger edge_linked(*ses, links@, c as int, j as int, k2)]
                            0 <= k2 <= k as int implies edge_linked(
                            *ses,
                            links@,
                            c as int,
                            j as int,
                            k2,
                        ) by {
                            if k2 == k as int {
                                assert(link_records_edge(
                                    *ses,
                                    links@[links@.len() - 1],
                                    c as int,
                                    j as int,
                                    k2,
                                ));
                            } else {
                                assert(edge_linked(*ses, links0, c as int, j as int, k2));
                                lemma_edge_linked_grow(
                                    *ses,
                                    links0,
                                    links@,
                                    c as int,
                                    j as int,
                                    k2,
                                );
                            }
                        }
                    }
                    k = k + 1;
                }
                j = j + 1;
            }
        } else {
            proof {
                if root_of(ses.p(), c as int) == c as int {
                    crate::uf::lemma_root_bounds(ses.p(), ses.uf.parents@[c as int] as int);
                }
            }
        }
        c = c + 1;
    }
    proof {
        assert forall|q: int|
            0 <= q < links@.len() implies root_of(ses.p(), (#[trigger] links@[q]).source as int)
            == links@[q].source as int && root_of(ses.p(), links@[q].target as int)
            == links@[q].target as int && links@[q].iter == 0 by {
            let (c2, j2, k2) = choose|c2: int, j2: int, k2: int|
                link_records_edge(*ses, links@[q], c2, j2, k2);
            assert(crate::rebuild::node_canonical(ses.p(), ses.classes@[c2].nodes@[j2]));
        }
    }
    GraphExport { nodes, links }
}

} // verus!
