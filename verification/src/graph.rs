//! The topology builder: one snapshot of the aggregated state becomes a
//! node-and-edge graph.
//!
//! Every workload of either map gets a Pod node; every internal domain a
//! Service node with a Pod -> Service edge; every external domain an
//! External node with an External -> Pod edge. Nodes are keyed by their bare
//! identifier: when the same string occurs under several kinds, the first
//! occurrence wins and the later ones collapse into it — a documented
//! ambiguity of the design. Edges keep duplicates: one edge per observed
//! query.

use vstd::prelude::*;
use vstd::string::StrSliceExecFns;
use vstd::string::StringExecFns;

use crate::state::AggregatedState;
use crate::state::DomainMap;
use crate::text::str_eq;

verus! {

/// Which ring a node belongs to.
#[derive(Clone, Copy, Debug, PartialEq, Eq, Structural)]
pub enum NodeKind {
    External,
    Pod,
    Service,
}

/// A displayable node; position is the renderer's business, not the graph's.
#[derive(Clone, Debug)]
pub struct GraphNode {
    pub id: String,
    pub kind: NodeKind,
}

/// A directed edge, pointing inward: Pod -> Service, External -> Pod.
#[derive(Clone, Debug)]
pub struct GraphEdge {
    pub from: String,
    pub to: String,
}

#[derive(Clone, Debug)]
pub struct Graph {
    pub nodes: Vec<GraphNode>,
    pub edges: Vec<GraphEdge>,
}

/// The mathematical shadow of one node.
pub struct NodeModel {
    pub id: Seq<char>,
    pub kind: NodeKind,
}

/// The entries of a map as plain (key, domains) pairs.
pub open spec fn map_models(m: DomainMap) -> Seq<(Seq<char>, Seq<Seq<char>>)> {
    Seq::new(m.len_spec() as nat, |i: int| (m.key_at(i), m.domains_at(i)))
}

pub open spec fn node_models(nodes: Seq<GraphNode>) -> Seq<NodeModel> {
    nodes.map_values(|n: GraphNode| NodeModel { id: n.id@, kind: n.kind })
}

pub open spec fn edge_models(edges: Seq<GraphEdge>) -> Seq<(Seq<char>, Seq<char>)> {
    edges.map_values(|e: GraphEdge| (e.from@, e.to@))
}

/// Some node already carries `id`.
pub open spec fn has_id(ns: Seq<NodeModel>, id: Seq<char>) -> bool {
    exists|i: int| 0 <= i < ns.len() && #[trigger] ns[i].id == id
}

/// Node identifiers are pairwise distinct.
pub open spec fn unique_ids(ns: Seq<NodeModel>) -> bool {
    forall|i: int, j: int| 0 <= i < j < ns.len() ==> #[trigger] ns[i].id != #[trigger] ns[j].id
}

/// Adding a node: a no-op when the identifier is already taken.
pub open spec fn add_node(ns: Seq<NodeModel>, id: Seq<char>, kind: NodeKind) -> Seq<NodeModel> {
    if has_id(ns, id) {
        ns
    } else {
        ns.push(NodeModel { id, kind })
    }
}

/// Adds one node per domain, left to right.
pub open spec fn fold_domains(ns: Seq<NodeModel>, ds: Seq<Seq<char>>, kind: NodeKind) -> Seq<
    NodeModel,
>
    decreases ds.len(),
{
    if ds.len() == 0 {
        ns
    } else {
        fold_domains(add_node(ns, ds[0], kind), ds.drop_first(), kind)
    }
}

/// Adds, for each entry in order, its Pod node and then its domain nodes.
pub open spec fn fold_entries(
    ns: Seq<NodeModel>,
    es: Seq<(Seq<char>, Seq<Seq<char>>)>,
    kind: NodeKind,
) -> Seq<NodeModel>
    decreases es.len(),
{
    if es.len() == 0 {
        ns
    } else {
        fold_entries(
            fold_domains(add_node(ns, es[0].0, NodeKind::Pod), es[0].1, kind),
            es.drop_first(),
            kind,
        )
    }
}

/// All nodes of the graph a snapshot builds: internal entries first, then
/// external ones.
pub open spec fn graph_nodes_spec(st: AggregatedState) -> Seq<NodeModel> {
    fold_entries(
        fold_entries(Seq::empty(), map_models(st.internal), NodeKind::Service),
        map_models(st.external),
        NodeKind::External,
    )
}

/// The edges one entry contributes, in domain order.
pub open spec fn entry_edges(key: Seq<char>, ds: Seq<Seq<char>>, internal: bool) -> Seq<
    (Seq<char>, Seq<char>),
> {
    ds.map_values(|d: Seq<char>| if internal { (key, d) } else { (d, key) })
}

/// The edges of a whole map, entry by entry.
pub open spec fn fold_edges(es: Seq<(Seq<char>, Seq<Seq<char>>)>, internal: bool) -> Seq<
    (Seq<char>, Seq<char>),
>
    decreases es.len(),
{
    if es.len() == 0 {
        Seq::empty()
    } else {
        fold_edges(es.drop_last(), internal) + entry_edges(es.last().0, es.last().1, internal)
    }
}

/// All edges of the graph a snapshot builds.
pub open spec fn graph_edges_spec(st: AggregatedState) -> Seq<(Seq<char>, Seq<char>)> {
    fold_edges(map_models(st.internal), true) + fold_edges(map_models(st.external), false)
}

/// Whether some node of `nodes` carries `id`.
pub fn has_node(nodes: &Vec<GraphNode>, id: &str) -> (r: bool)
    ensures
        r == has_id(node_models(nodes@), id@),
{
    let n = nodes.len();
    let mut i: usize = 0;
    while i < n
        invariant
            n == nodes@.len(),
            0 <= i <= n,
            forall|j: int| 0 <= j < i ==> #[trigger] node_models(nodes@)[j].id != id@,
        decreases n - i,
    {
        if str_eq(nodes[i].id.as_str(), id) {
            proof {
                assert(node_models(nodes@)[i as int].id == id@);
            }
            return true;
        }
        i += 1;
    }
    false
}

fn push_node(nodes: &mut Vec<GraphNode>, id: &str, kind: NodeKind)
    requires
        unique_ids(node_models(old(nodes)@)),
    ensures
        node_models(final(nodes)@) == add_node(node_models(old(nodes)@), id@, kind),
        unique_ids(node_models(final(nodes)@)),
{
    if !has_node(nodes, id) {
        nodes.push(GraphNode { id: id.to_owned(), kind });
        proof {
            assert(node_models(nodes@) =~= node_models(old(nodes)@).push(
                NodeModel { id: id@, kind },
            ));
            assert forall|a: int, b: int|
                0 <= a < b < node_models(nodes@).len() implies #[trigger] node_models(
                nodes@,
            )[a].id != #[trigger] node_models(nodes@)[b].id by {
                if b == node_models(nodes@).len() - 1 {
                    assert(!has_id(node_models(old(nodes)@), id@));
                    assert(node_models(old(nodes)@)[a].id != id@);
                }
            }
        }
    }
}

/// Builds the full graph for one snapshot. The result is pinned down by the
/// node and edge folds; node identifiers come out pairwise distinct.
pub fn build_graph(st: &AggregatedState) -> (g: Graph)
    requires
        st.wf(),
    ensures
        node_models(g.nodes@) == graph_nodes_spec(*st),
        edge_models(g.edges@) == graph_edges_spec(*st),
        unique_ids(node_models(g.nodes@)),
{
    let mut nodes: Vec<GraphNode> = Vec::new();
    let mut edges: Vec<GraphEdge> = Vec::new();
    let ghost target_int = fold_entries(
        Seq::empty(),
        map_models(st.internal),
        NodeKind::Service,
    );
    let n1 = st.internal.entries.len();
    let mut i: usize = 0;
    proof {
        assert(node_models(nodes@) =~= Seq::<NodeModel>::empty());
        assert(edge_models(edges@) =~= Seq::<(Seq<char>, Seq<char>)>::empty());
        assert(map_models(st.internal).skip(0) =~= map_models(st.internal));
        assert(fold_edges(map_models(st.internal).take(0), true) =~= Seq::<
            (Seq<char>, Seq<char>),
        >::empty());
    }
    while i < n1
        invariant
            st.wf(),
            n1 == st.internal.entries@.len(),
            0 <= i <= n1,
            unique_ids(node_models(nodes@)),
            fold_entries(node_models(nodes@), map_models(st.internal).skip(i as int), NodeKind::Service)
                == target_int,
            edge_models(edges@) == fold_edges(map_models(st.internal).take(i as int), true),
        decreases n1 - i,
    {
        let ghost es = map_models(st.internal).skip(i as int);
        let key = &st.internal.entries[i].workload;
        push_node(&mut nodes, key.as_str(), NodeKind::Pod);
        let ghost ns_start = node_models(nodes@);
        let ghost ds = map_models(st.internal)[i as int].1;
        let m = st.internal.entries[i].domains.len();
        let mut j: usize = 0;
        proof {
            assert(es[0].0 == st.internal.key_at(i as int));
            assert(es[0].1 == ds);
            assert(ds.skip(0) =~= ds);
        }
        while j < m
            invariant
                st.wf(),
                0 <= i < st.internal.entries@.len(),
                m == st.internal.entries@[i as int].domains@.len(),
                0 <= j <= m,
                ds == map_models(st.internal)[i as int].1,
                ds.len() == m,
                forall|k: int|
                    0 <= k < m ==> ds[k] == #[trigger] st.internal.entries@[i as int].domains@[k]@,
                unique_ids(node_models(nodes@)),
                fold_domains(node_models(nodes@), ds.skip(j as int), NodeKind::Service)
                    == fold_domains(ns_start, ds, NodeKind::Service),
                edge_models(edges@) == fold_edges(map_models(st.internal).take(i as int), true)
                    + entry_edges(st.internal.key_at(i as int), ds, true).take(j as int),
            decreases m - j,
        {
            let d = &st.internal.entries[i].domains[j];
            push_node(&mut nodes, d.as_str(), NodeKind::Service);
            let ghost edges_pre = edges@;
            edges.push(GraphEdge { from: st.internal.entries[i].workload.clone(), to: d.clone() });
            proof {
                let ghost k = st.internal.key_at(i as int);
                assert(ds.skip(j as int).drop_first() =~= ds.skip(j + 1));
                assert(ds.skip(j as int)[0] == ds[j as int]);
                assert(edges@.last().from@ == k);
                assert(edges@.last().to@ == ds[j as int]);
                assert(edge_models(edges@) =~= edge_models(edges_pre).push((k, ds[j as int])));
                assert(entry_edges(k, ds, true).take(j + 1) =~= entry_edges(k, ds, true).take(
                    j as int,
                ).push((k, ds[j as int])));
                assert(edge_models(edges@) =~= fold_edges(
                    map_models(st.internal).take(i as int),
                    true,
                ) + entry_edges(k, ds, true).take(j + 1));
            }
            j += 1;
        }
        proof {
            assert(ds.skip(m as int) =~= Seq::<Seq<char>>::empty());
            assert(es.drop_first() =~= map_models(st.internal).skip(i + 1));
            assert(entry_edges(st.internal.key_at(i as int), ds, true).take(m as int)
                =~= entry_edges(st.internal.key_at(i as int), ds, true));
            assert(map_models(st.internal).take(i + 1).drop_last() =~= map_models(
                st.internal,
            ).take(i as int));
            assert(map_models(st.internal).take(i + 1).last() == map_models(
                st.internal,
            )[i as int]);
            assert(edge_models(edges@) =~= fold_edges(map_models(st.internal).take(i + 1), true));
        }
        i += 1;
    }
    proof {
        assert(map_models(st.internal).take(n1 as int) =~= map_models(st.internal));
        assert(map_models(st.internal).skip(n1 as int) =~= Seq::<
            (Seq<char>, Seq<Seq<char>>),
        >::empty());
        assert(map_models(st.external).skip(0) =~= map_models(st.external));
        assert(fold_edges(map_models(st.external).take(0), false) =~= Seq::<
            (Seq<char>, Seq<char>),
        >::empty());
    }
    let ghost int_edges = fold_edges(map_models(st.internal), true);
    let n2 = st.external.entries.len();
    let mut i2: usize = 0;
    while i2 < n2
        invariant
            st.wf(),
            n2 == st.external.entries@.len(),
            0 <= i2 <= n2,
            unique_ids(node_models(nodes@)),
            int_edges == fold_edges(map_models(st.internal), true),
            fold_entries(node_models(nodes@), map_models(st.external).skip(i2 as int), NodeKind::External)
                == fold_entries(target_int, map_models(st.external), NodeKind::External),
            edge_models(edges@) == int_edges + fold_edges(
                map_models(st.external).take(i2 as int),
                false,
            ),
        decreases n2 - i2,
    {
        let ghost es = map_models(st.external).skip(i2 as int);
        let key = &st.external.entries[i2].workload;
        push_node(&mut nodes, key.as_str(), NodeKind::Pod);
        let ghost ns_start = node_models(nodes@);
        let ghost ds = map_models(st.external)[i2 as int].1;
        let m = st.external.entries[i2].domains.len();
        let mut j: usize = 0;
        proof {
            assert(es[0].0 == st.external.key_at(i2 as int));
            assert(es[0].1 == ds);
            assert(ds.skip(0) =~= ds);
        }
        while j < m
            invariant
                st.wf(),
                0 <= i2 < st.external.entries@.len(),
                m == st.external.entries@[i2 as int].domains@.len(),
                0 <= j <= m,
                ds == map_models(st.external)[i2 as int].1,
                ds.len() == m,
                forall|k: int|
                    0 <= k < m ==> ds[k] == #[trigger] st.external.entries@[i2 as int].domains@[k]@,
                unique_ids(node_models(nodes@)),
                int_edges == fold_edges(map_models(st.internal), true),
                fold_domains(node_models(nodes@), ds.skip(j as int), NodeKind::External)
                    == fold_domains(ns_start, ds, NodeKind::External),
                edge_models(edges@) == int_edges + (fold_edges(
                    map_models(st.external).take(i2 as int),
                    false,
                ) + entry_edges(st.external.key_at(i2 as int), ds, false).take(j as int)),
            decreases m - j,
        {
            let d = &st.external.entries[i2].domains[j];
            push_node(&mut nodes, d.as_str(), NodeKind::External);
            let ghost edges_pre = edges@;
            edges.push(
                GraphEdge { from: d.clone(), to: st.external.entries[i2].workload.clone() },
            );
            proof {
                let ghost k = st.external.key_at(i2 as int);
                assert(ds.skip(j as int).drop_first() =~= ds.skip(j + 1));
                assert(ds.skip(j as int)[0] == ds[j as int]);
                assert(edges@.last().from@ == ds[j as int]);
                assert(edges@.last().to@ == k);
                assert(edge_models(edges@) =~= edge_models(edges_pre).push((ds[j as int], k)));
                assert(entry_edges(k, ds, false).take(j + 1) =~= entry_edges(k, ds, false).take(
                    j as int,
                ).push((ds[j as int], k)));
                assert(edge_models(edges@) =~= int_edges + (fold_edges(
                    map_models(st.external).take(i2 as int),
                    false,
                ) + entry_edges(k, ds, false).take(j + 1)));
            }
            j += 1;
        }
        proof {
            assert(ds.skip(m as int) =~= Seq::<Seq<char>>::empty());
            assert(es.drop_first() =~= map_models(st.external).skip(i2 + 1));
            assert(entry_edges(st.external.key_at(i2 as int), ds, false).take(m as int)
                =~= entry_edges(st.external.key_at(i2 as int), ds, false));
            assert(map_models(st.external).take(i2 + 1).drop_last() =~= map_models(
                st.external,
            ).take(i2 as int));
            assert(map_models(st.external).take(i2 + 1).last() == map_models(
                st.external,
            )[i2 as int]);
            assert(edge_models(edges@) =~= int_edges + fold_edges(
                map_models(st.external).take(i2 + 1),
                false,
            ));
        }
        i2 += 1;
    }
    proof {
        assert(map_models(st.external).take(n2 as int) =~= map_models(st.external));
        assert(map_models(st.external).skip(n2 as int) =~= Seq::<
            (Seq<char>, Seq<Seq<char>>),
        >::empty());
    }
    Graph { nodes, edges }
}

} // verus!
