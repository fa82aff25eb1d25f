//! The filter engine: from the user's filters to the allowed workload set
//! and to the visible subset of the graph.
//!
//! The allowed set starts unconstrained; each set filter intersects it with
//! the workloads that pass: a pod filter keeps workloads whose identifier
//! contains it, a service filter keeps workloads with at least one internal
//! domain containing it, an external filter likewise over external domains.
//! With no filter set everything is visible. Intersection makes the engine
//! idempotent and order-independent, and both laws are proved here.

use vstd::prelude::*;
use vstd::string::StrSliceExecFns;
use vstd::string::StringExecFns;

use crate::graph::Graph;
use crate::graph::GraphEdge;
use crate::graph::GraphNode;
use crate::graph::NodeKind;
use crate::graph::NodeModel;
use crate::graph::edge_models;
use crate::graph::node_models;
use crate::state::AggregatedState;
use crate::state::DomainMap;
use crate::text::contains_sub;
use crate::text::is_substring;
use crate::text::str_eq;
use crate::text::views_of;

verus! {

/// The three independent, optional substring filters.
#[derive(Clone, Debug)]
pub struct Filters {
    pub pod: Option<String>,
    pub service: Option<String>,
    pub external: Option<String>,
}

impl Filters {
    /// At least one filter is set.
    pub open spec fn any_set(self) -> bool {
        self.pod is Some || self.service is Some || self.external is Some
    }

    /// No filter set: everything visible.
    pub fn none() -> (f: Filters)
        ensures
            f.pod is None,
            f.service is None,
            f.external is None,
    {
        Filters { pod: None, service: None, external: None }
    }
}

/// The universe: every workload either map knows.
pub open spec fn workload_set(st: AggregatedState) -> Set<Seq<char>> {
    Set::new(|w: Seq<char>| st.internal.has_key(w) || st.external.has_key(w))
}

/// The domain keys a map holds for `w`; empty when `w` is unknown to it.
pub open spec fn key_domains(m: DomainMap, w: Seq<char>) -> Seq<Seq<char>> {
    if m.has_key(w) {
        m.domains_at(m.index_of_key(w))
    } else {
        Seq::empty()
    }
}

/// Some domain of `ds` contains `needle`.
pub open spec fn some_domain_contains(ds: Seq<Seq<char>>, needle: Seq<char>) -> bool {
    exists|x: int| 0 <= x < ds.len() && is_substring(#[trigger] ds[x], needle)
}

/// Whether workload `w` passes every filter that is set.
pub open spec fn workload_allowed(st: AggregatedState, f: Filters, w: Seq<char>) -> bool {
    &&& (f.pod matches Some(p) ==> is_substring(w, p@))
    &&& (f.service matches Some(s) ==> some_domain_contains(key_domains(st.internal, w), s@))
    &&& (f.external matches Some(e) ==> some_domain_contains(key_domains(st.external, w), e@))
}

/// One filter application: intersect the set built so far with the
/// workloads that pass; an unconstrained accumulator is the whole universe.
pub open spec fn constrain(
    acc: Option<Set<Seq<char>>>,
    pass: Set<Seq<char>>,
    univ: Set<Seq<char>>,
) -> Option<Set<Seq<char>>> {
    match acc {
        None => Some(univ.intersect(pass)),
        Some(a) => Some(a.intersect(pass)),
    }
}

/// Workloads whose identifier contains the pod filter.
pub open spec fn pass_pod(st: AggregatedState, p: Seq<char>) -> Set<Seq<char>> {
    Set::new(|w: Seq<char>| is_substring(w, p))
}

/// Workloads with an internal domain containing the service filter.
pub open spec fn pass_service(st: AggregatedState, s: Seq<char>) -> Set<Seq<char>> {
    Set::new(|w: Seq<char>| some_domain_contains(key_domains(st.internal, w), s))
}

/// Workloads with an external domain containing the external filter.
pub open spec fn pass_external(st: AggregatedState, e: Seq<char>) -> Set<Seq<char>> {
    Set::new(|w: Seq<char>| some_domain_contains(key_domains(st.external, w), e))
}

/// The allowed workload set: unconstrained when no filter is set, else the
/// fold of one `constrain` step per set filter over the universe.
pub open spec fn allowed_set_spec(st: AggregatedState, f: Filters) -> Option<Set<Seq<char>>> {
    let a0 = None::<Set<Seq<char>>>;
    let a1 = match f.pod {
        Some(p) => constrain(a0, pass_pod(st, p@), workload_set(st)),
        None => a0,
    };
    let a2 = match f.service {
        Some(s) => constrain(a1, pass_service(st, s@), workload_set(st)),
        None => a1,
    };
    match f.external {
        Some(e) => constrain(a2, pass_external(st, e@), workload_set(st)),
        None => a2,
    }
}

/// Law (idempotence): applying the same non-empty filter twice yields the
/// same allowed set as applying it once.
pub proof fn lemma_constrain_idempotent(
    acc: Option<Set<Seq<char>>>,
    pass: Set<Seq<char>>,
    univ: Set<Seq<char>>,
)
    ensures
        constrain(constrain(acc, pass, univ), pass, univ) == constrain(acc, pass, univ),
{
    match acc {
        None => {
            assert(univ.intersect(pass).intersect(pass) =~= univ.intersect(pass));
        },
        Some(a) => {
            assert(a.intersect(pass).intersect(pass) =~= a.intersect(pass));
        },
    }
}

/// Law (order-independence): two filter applications commute.
pub proof fn lemma_constrain_commutes(
    acc: Option<Set<Seq<char>>>,
    pass1: Set<Seq<char>>,
    pass2: Set<Seq<char>>,
    univ: Set<Seq<char>>,
)
    ensures
        constrain(constrain(acc, pass1, univ), pass2, univ) == constrain(
            constrain(acc, pass2, univ),
            pass1,
            univ,
        ),
{
    match acc {
        None => {
            assert(univ.intersect(pass1).intersect(pass2) =~= univ.intersect(pass2).intersect(
                pass1,
            ));
        },
        Some(a) => {
            assert(a.intersect(pass1).intersect(pass2) =~= a.intersect(pass2).intersect(pass1));
        },
    }
}

/// The fold of constrain steps, pointwise: a workload is in the allowed set
/// exactly when it is in the universe and passes every set filter.
pub proof fn lemma_allowed_pointwise(st: AggregatedState, f: Filters)
    ensures
        (allowed_set_spec(st, f) is Some) == f.any_set(),
        allowed_set_spec(st, f) matches Some(a) ==> a == Set::new(
            |w: Seq<char>| workload_set(st).contains(w) && workload_allowed(st, f, w),
        ),
{
    if f.any_set() {
        let a = allowed_set_spec(st, f)->Some_0;
        assert(a =~= Set::new(
            |w: Seq<char>| workload_set(st).contains(w) && workload_allowed(st, f, w),
        ));
    }
}

/// Whether some domain the map holds for `w` contains `needle`.
fn any_domain_contains(m: &DomainMap, w: &str, needle: &str) -> (r: bool)
    requires
        m.wf(),
    ensures
        r == some_domain_contains(key_domains(*m, w@), needle@),
{
    let n = m.entries.len();
    let mut i: usize = 0;
    while i < n
        invariant
            m.wf(),
            n == m.entries@.len(),
            0 <= i <= n,
            forall|j: int| 0 <= j < i ==> #[trigger] m.key_at(j) != w@,
        decreases n - i,
    {
        if str_eq(m.entries[i].workload.as_str(), w) {
            proof {
                assert(m.key_at(i as int) == w@);
                assert(m.has_key(w@));
                assert(m.index_of_key(w@) == i) by {
                    let k = m.index_of_key(w@);
                    assert(0 <= k < m.len_spec() && m.key_at(k) == w@);
                    assert(m.entries@[k].workload@ == w@);
                    assert(m.entries@[i as int].workload@ == w@);
                    if k < i {
                        assert(m.entries@[k].workload@ != m.entries@[i as int].workload@);
                    } else if i < k {
                        assert(m.entries@[i as int].workload@ != m.entries@[k].workload@);
                    }
                }
            }
            let ds = &m.entries[i].domains;
            let dn = ds.len();
            let mut x: usize = 0;
            while x < dn
                invariant
                    dn == ds@.len(),
                    0 <= x <= dn,
                    key_domains(*m, w@) == views_of(ds@),
                    forall|y: int|
                        0 <= y < x ==> !is_substring(#[trigger] views_of(ds@)[y], needle@),
                decreases dn - x,
            {
                if contains_sub(ds[x].as_str(), needle) {
                    proof {
                        assert(is_substring(views_of(ds@)[x as int], needle@));
                    }
                    return true;
                }
                x += 1;
            }
            return false;
        }
        i += 1;
    }
    proof {
        assert(!m.has_key(w@));
        assert(key_domains(*m, w@) =~= Seq::<Seq<char>>::empty());
    }
    false
}

/// Whether `w` passes every filter that is set.
fn workload_passes(st: &AggregatedState, f: &Filters, w: &str) -> (r: bool)
    requires
        st.wf(),
    ensures
        r == workload_allowed(*st, *f, w@),
{
    match &f.pod {
        Some(p) => {
            if !contains_sub(w, p.as_str()) {
                return false;
            }
        },
        None => {},
    }
    match &f.service {
        Some(s) => {
            if !any_domain_contains(&st.internal, w, s.as_str()) {
                return false;
            }
        },
        None => {},
    }
    match &f.external {
        Some(e) => {
            if !any_domain_contains(&st.external, w, e.as_str()) {
                return false;
            }
        },
        None => {},
    }
    true
}

/// Computes the allowed workload set. `None` means unconstrained — no
/// filter is set and everything is visible. With at least one filter set,
/// the returned identifiers are exactly the universe members that pass
/// every set filter, without duplicates.
pub fn allowed_workloads(st: &AggregatedState, f: &Filters) -> (r: Option<Vec<String>>)
    requires
        st.wf(),
    ensures
        (r is Some) == f.any_set(),
        r matches Some(v) ==> {
            &&& forall|w: Seq<char>|
                #[trigger] views_of(v@).contains(w) == (workload_set(*st).contains(w)
                    && workload_allowed(*st, *f, w))
            &&& forall|a: int, b: int|
                0 <= a < b < v@.len() ==> #[trigger] v@[a]@ != #[trigger] v@[b]@
        },
{
    if match &f.pod {
        Some(_) => false,
        None => true,
    } && match &f.service {
        Some(_) => false,
        None => true,
    } && match &f.external {
        Some(_) => false,
        None => true,
    } {
        return None;
    }
    let mut out: Vec<String> = Vec::new();
    let n1 = st.internal.entries.len();
    let mut i: usize = 0;
    while i < n1
        invariant
            st.wf(),
            n1 == st.internal.entries@.len(),
            0 <= i <= n1,
            forall|w: Seq<char>|
                #[trigger] views_of(out@).contains(w) == (exists|j: int|
                    0 <= j < i && #[trigger] st.internal.key_at(j) == w && workload_allowed(
                        *st,
                        *f,
                        w,
                    )),
            forall|a: int, b: int|
                0 <= a < b < out@.len() ==> #[trigger] out@[a]@ != #[trigger] out@[b]@,
        decreases n1 - i,
    {
        let key = &st.internal.entries[i].workload;
        if workload_passes(st, f, key.as_str()) {
            let ghost pre = out@;
            out.push(key.clone());
            proof {
                assert(st.internal.key_at(i as int) == key@);
                assert forall|w: Seq<char>| #[trigger]
                    views_of(out@).contains(w) == (exists|j: int|
                        0 <= j < i + 1 && #[trigger] st.internal.key_at(j) == w
                            && workload_allowed(*st, *f, w)) by {
                    assert(views_of(out@) =~= views_of(pre).push(key@));
                    if views_of(out@).contains(w) {
                        if w == key@ {
                            assert(st.internal.key_at(i as int) == w);
                        } else {
                            assert(views_of(pre).contains(w));
                        }
                    }
                    if exists|j: int|
                        0 <= j < i + 1 && #[trigger] st.internal.key_at(j) == w
                            && workload_allowed(*st, *f, w) {
                        let j = choose|j: int|
                            0 <= j < i + 1 && #[trigger] st.internal.key_at(j) == w
                                && workload_allowed(*st, *f, w);
                        if j == i {
                            assert(views_of(out@)[out@.len() - 1] == key@);
                        } else {
                            assert(views_of(pre).contains(w));
                            assert(views_of(out@)[choose|x: int|
                                0 <= x < pre.len() && views_of(pre)[x] == w] == w);
                        }
                    }
                }
                assert forall|a: int, b: int|
                    0 <= a < b < out@.len() implies #[trigger] out@[a]@ != #[trigger] out@[b]@ by {
                    if b == out@.len() - 1 {
                        assert(views_of(pre).contains(out@[a]@)) by {
                            assert(views_of(pre)[a] == out@[a]@);
                        }
                        let j = choose|j: int|
                            0 <= j < i && #[trigger] st.internal.key_at(j) == out@[a]@
                                && workload_allowed(*st, *f, out@[a]@);
                        assert(st.internal.key_at(j) != st.internal.key_at(i as int));
                    }
                }
            }
        } else {
            proof {
                assert forall|w: Seq<char>| #[trigger]
                    views_of(out@).contains(w) == (exists|j: int|
                        0 <= j < i + 1 && #[trigger] st.internal.key_at(j) == w
                            && workload_allowed(*st, *f, w)) by {
                    if exists|j: int|
                        0 <= j < i + 1 && #[trigger] st.internal.key_at(j) == w
                            && workload_allowed(*st, *f, w) {
                        let j = choose|j: int|
                            0 <= j < i + 1 && #[trigger] st.internal.key_at(j) == w
                                && workload_allowed(*st, *f, w);
                        assert(j < i || !(workload_allowed(*st, *f, w)));
                    }
                }
            }
        }
        i += 1;
    }
    let n2 = st.external.entries.len();
    let mut i2: usize = 0;
    while i2 < n2
        invariant
            st.wf(),
            n2 == st.external.entries@.len(),
            0 <= i2 <= n2,
            forall|w: Seq<char>|
                #[trigger] views_of(out@).contains(w) == ((st.internal.has_key(w) || (
                exists|j: int| 0 <= j < i2 && #[trigger] st.external.key_at(j) == w))
                    && workload_allowed(*st, *f, w)),
            forall|a: int, b: int|
                0 <= a < b < out@.len() ==> #[trigger] out@[a]@ != #[trigger] out@[b]@,
        decreases n2 - i2,
    {
        let key = &st.external.entries[i2].workload;
        if !st.internal.contains_key(key.as_str()) && !contains_str(&out, key.as_str())
            && workload_passes(st, f, key.as_str()) {
            let ghost pre = out@;
            out.push(key.clone());
            proof {
                assert(st.external.key_at(i2 as int) == key@);
                assert forall|w: Seq<char>| #[trigger]
                    views_of(out@).contains(w) == ((st.internal.has_key(w) || (
                    exists|j: int| 0 <= j < i2 + 1 && #[trigger] st.external.key_at(j) == w))
                        && workload_allowed(*st, *f, w)) by {
                    assert(views_of(out@) =~= views_of(pre).push(key@));
                    if views_of(out@).contains(w) && w != key@ {
                        assert(views_of(pre).contains(w));
                    }
                    if w != key@ && (st.internal.has_key(w) || (exists|j: int|
                        0 <= j < i2 + 1 && #[trigger] st.external.key_at(j) == w))
                        && workload_allowed(*st, *f, w) {
                        if !st.internal.has_key(w) {
                            let j = choose|j: int|
                                0 <= j < i2 + 1 && #[trigger] st.external.key_at(j) == w;
                            assert(j < i2);
                        }
                        assert(views_of(pre).contains(w));
                        assert(views_of(out@)[choose|x: int|
                            0 <= x < pre.len() && views_of(pre)[x] == w] == w);
                    }
                    if w == key@ {
                        assert(views_of(out@)[out@.len() - 1] == key@);
                        assert(st.external.key_at(i2 as int) == w);
                    }
                }
                assert forall|a: int, b: int|
                    0 <= a < b < out@.len() implies #[trigger] out@[a]@ != #[trigger] out@[b]@ by {
                    if b == out@.len() - 1 {
                        assert(views_of(pre).contains(out@[a]@)) by {
                            assert(views_of(pre)[a] == out@[a]@);
                        }
                    }
                }
            }
        } else {
            proof {
                assert forall|w: Seq<char>| #[trigger]
                    views_of(out@).contains(w) == ((st.internal.has_key(w) || (
                    exists|j: int| 0 <= j < i2 + 1 && #[trigger] st.external.key_at(j) == w))
                        && workload_allowed(*st, *f, w)) by {
                    if w == key@ {
                        if st.internal.has_key(w) && workload_allowed(*st, *f, w) {
                            assert(views_of(out@).contains(w));
                        }
                        if views_of(out@).contains(w) {
                            assert(st.internal.has_key(w) || (exists|j: int|
                                0 <= j < i2 && #[trigger] st.external.key_at(j) == w));
                        }
                    } else {
                        if (st.internal.has_key(w) || (exists|j: int|
                            0 <= j < i2 + 1 && #[trigger] st.external.key_at(j) == w))
                            && workload_allowed(*st, *f, w) {
                            if !st.internal.has_key(w) {
                                let j = choose|j: int|
                                    0 <= j < i2 + 1 && #[trigger] st.external.key_at(j) == w;
                                assert(j < i2);
                            }
                        }
                    }
                }
            }
        }
        i2 += 1;
    }
    proof {
        assert forall|w: Seq<char>| #[trigger]
            views_of(out@).contains(w) == (workload_set(*st).contains(w) && workload_allowed(
                *st,
                *f,
                w,
            )) by {
            if st.internal.has_key(w) {
                let j = st.internal.index_of_key(w);
            }
        }
    }
    Some(out)
}

/// Whether some string of `v` reads `s`.
fn contains_str(v: &Vec<String>, s: &str) -> (r: bool)
    ensures
        r == views_of(v@).contains(s@),
{
    let n = v.len();
    let mut i: usize = 0;
    while i < n
        invariant
            n == v@.len(),
            0 <= i <= n,
            forall|j: int| 0 <= j < i ==> #[trigger] views_of(v@)[j] != s@,
        decreases n - i,
    {
        if str_eq(v[i].as_str(), s) {
            proof {
                assert(views_of(v@)[i as int] == s@);
            }
            return true;
        }
        i += 1;
    }
    proof {
        if views_of(v@).contains(s@) {
            let j = choose|j: int| 0 <= j < v@.len() && views_of(v@)[j] == s@;
        }
    }
    false
}

/// Whether an edge may be drawn: exactly when both of its endpoints are
/// among the visible identifiers.
pub fn edge_visible(visible: &Vec<String>, from: &str, to: &str) -> (r: bool)
    ensures
        r == (views_of(visible@).contains(from@) && views_of(visible@).contains(to@)),
{
    contains_str(visible, from) && contains_str(visible, to)
}

/// Whether one node is visible under the allowed set: a Pod when it is
/// allowed, a Service when some allowed workload has an edge to it, an
/// External when it has an edge to some allowed workload; everything, when
/// no filter constrains the view.
pub open spec fn node_visible(
    es: Seq<(Seq<char>, Seq<char>)>,
    allowed: Option<Seq<Seq<char>>>,
    n: NodeModel,
) -> bool {
    match allowed {
        None => true,
        Some(a) => match n.kind {
            NodeKind::Pod => a.contains(n.id),
            NodeKind::Service => exists|k: int|
                0 <= k < es.len() && (#[trigger] es[k]).1 == n.id && a.contains(es[k].0),
            NodeKind::External => exists|k: int|
                0 <= k < es.len() && (#[trigger] es[k]).0 == n.id && a.contains(es[k].1),
        },
    }
}

/// The allowed identifiers as a sequence of views.
pub open spec fn allowed_views(allowed: Option<Vec<String>>) -> Option<Seq<Seq<char>>> {
    match allowed {
        None => None,
        Some(v) => Some(views_of(v@)),
    }
}

fn node_visible_exec(edges: &Vec<GraphEdge>, allowed: &Option<Vec<String>>, node: &GraphNode) -> (r:
    bool)
    ensures
        r == node_visible(
            edge_models(edges@),
            allowed_views(*allowed),
            NodeModel { id: node.id@, kind: node.kind },
        ),
{
    let a = match allowed {
        None => {
            return true;
        },
        Some(a) => a,
    };
    match node.kind {
        NodeKind::Pod => contains_str(a, node.id.as_str()),
        NodeKind::Service => {
            let n = edges.len();
            let mut k: usize = 0;
            while k < n
                invariant
                    n == edges@.len(),
                    0 <= k <= n,
                    node.kind == NodeKind::Service,
                    allowed_views(*allowed) == Some(views_of(a@)),
                    forall|j: int|
                        0 <= j < k ==> !((#[trigger] edge_models(edges@)[j]).1 == node.id@
                            && views_of(a@).contains(edge_models(edges@)[j].0)),
                decreases n - k,
            {
                if str_eq(edges[k].to.as_str(), node.id.as_str()) && contains_str(
                    a,
                    edges[k].from.as_str(),
                ) {
                    proof {
                        assert(allowed_views(*allowed) == Some(views_of(a@)));
                        assert((edge_models(edges@)[k as int]).1 == node.id@);
                        assert(views_of(a@).contains((edge_models(edges@)[k as int]).0));
                        assert(node_visible(
                            edge_models(edges@),
                            allowed_views(*allowed),
                            NodeModel { id: node.id@, kind: node.kind },
                        ));
                    }
                    return true;
                }
                k += 1;
            }
            false
        },
        NodeKind::External => {
            let n = edges.len();
            let mut k: usize = 0;
            while k < n
                invariant
                    n == edges@.len(),
                    0 <= k <= n,
                    node.kind == NodeKind::External,
                    allowed_views(*allowed) == Some(views_of(a@)),
                    forall|j: int|
                        0 <= j < k ==> !((#[trigger] edge_models(edges@)[j]).0 == node.id@
                            && views_of(a@).contains(edge_models(edges@)[j].1)),
                decreases n - k,
            {
                if str_eq(edges[k].from.as_str(), node.id.as_str()) && contains_str(
                    a,
                    edges[k].to.as_str(),
                ) {
                    proof {
                        assert(allowed_views(*allowed) == Some(views_of(a@)));
                        assert((edge_models(edges@)[k as int]).0 == node.id@);
                        assert(views_of(a@).contains((edge_models(edges@)[k as int]).1));
                        assert(node_visible(
                            edge_models(edges@),
                            allowed_views(*allowed),
                            NodeModel { id: node.id@, kind: node.kind },
                        ));
                    }
                    return true;
                }
                k += 1;
            }
            false
        },
    }
}

/// The visible identifiers of one kind, in graph order.
pub open spec fn visible_seq(
    ns: Seq<NodeModel>,
    es: Seq<(Seq<char>, Seq<char>)>,
    allowed: Option<Seq<Seq<char>>>,
    kind: NodeKind,
) -> Seq<Seq<char>>
    decreases ns.len(),
{
    if ns.len() == 0 {
        Seq::empty()
    } else {
        visible_seq(ns.drop_last(), es, allowed, kind) + (if ns.last().kind == kind
            && node_visible(es, allowed, ns.last()) {
            seq![ns.last().id]
        } else {
            Seq::empty()
        })
    }
}

/// Collects the visible node identifiers of `kind`, in graph order.
pub fn visible_ids(g: &Graph, allowed: &Option<Vec<String>>, kind: NodeKind) -> (r: Vec<String>)
    ensures
        views_of(r@) == visible_seq(
            node_models(g.nodes@),
            edge_models(g.edges@),
            allowed_views(*allowed),
            kind,
        ),
{
    let mut out: Vec<String> = Vec::new();
    let n = g.nodes.len();
    let mut i: usize = 0;
    proof {
        assert(views_of(out@) =~= Seq::<Seq<char>>::empty());
        assert(node_models(g.nodes@).take(0) =~= Seq::<NodeModel>::empty());
    }
    while i < n
        invariant
            n == g.nodes@.len(),
            0 <= i <= n,
            views_of(out@) == visible_seq(
                node_models(g.nodes@).take(i as int),
                edge_models(g.edges@),
                allowed_views(*allowed),
                kind,
            ),
        decreases n - i,
    {
        let node = &g.nodes[i];
        let keep = match (node.kind, kind) {
            (NodeKind::Pod, NodeKind::Pod) => true,
            (NodeKind::Service, NodeKind::Service) => true,
            (NodeKind::External, NodeKind::External) => true,
            _ => false,
        };
        let ghost pre = out@;
        if keep && node_visible_exec(&g.edges, allowed, node) {
            out.push(node.id.clone());
            proof {
                assert(views_of(out@) =~= views_of(pre).push(node.id@));
            }
        }
        proof {
            assert(node_models(g.nodes@).take(i + 1).drop_last() =~= node_models(
                g.nodes@,
            ).take(i as int));
            assert(node_models(g.nodes@).take(i + 1).last() == node_models(g.nodes@)[i as int]);
            assert(views_of(out@) =~= visible_seq(
                node_models(g.nodes@).take(i + 1),
                edge_models(g.edges@),
                allowed_views(*allowed),
                kind,
            ));
        }
        i += 1;
    }
    proof {
        assert(node_models(g.nodes@).take(n as int) =~= node_models(g.nodes@));
    }
    out
}

} // verus!
