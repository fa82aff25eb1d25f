use dns_topology::filter::allowed_workloads;
use dns_topology::filter::visible_ids;
use dns_topology::filter::Filters;
use dns_topology::graph::build_graph;
use dns_topology::graph::NodeKind;
use dns_topology::state::AggregatedState;

/// pod-a -> svc-auth, svc-api; pod-b -> svc-api; pod-a -> api.stripe.com;
/// pod-c only external: k8s.gcr.io
fn demo_state() -> AggregatedState {
    let mut st = AggregatedState::new();
    st.internal.append("pod-a", "svc-auth");
    st.internal.append("pod-a", "svc-api");
    st.internal.append("pod-b", "svc-api");
    st.external.append("pod-a", "api.stripe.com");
    st.external.append("pod-c", "k8s.gcr.io");
    st
}

#[test]
fn graph_has_expected_nodes_and_edges() {
    let g = build_graph(&demo_state());
    // pods a, b, c; services auth, api; externals stripe, gcr
    assert_eq!(g.nodes.len(), 7);
    let kind_of = |id: &str| {
        g.nodes
            .iter()
            .find(|n| n.id == id)
            .map(|n| n.kind)
            .expect("node present")
    };
    assert_eq!(kind_of("pod-a"), NodeKind::Pod);
    assert_eq!(kind_of("pod-b"), NodeKind::Pod);
    assert_eq!(kind_of("pod-c"), NodeKind::Pod);
    assert_eq!(kind_of("svc-auth"), NodeKind::Service);
    assert_eq!(kind_of("svc-api"), NodeKind::Service);
    assert_eq!(kind_of("api.stripe.com"), NodeKind::External);
    assert_eq!(kind_of("k8s.gcr.io"), NodeKind::External);

    assert_eq!(g.edges.len(), 5);
    // internal edges point pod -> service, external ones external -> pod
    assert_eq!(g.edges[0].from, "pod-a");
    assert_eq!(g.edges[0].to, "svc-auth");
    assert_eq!(g.edges[3].from, "api.stripe.com");
    assert_eq!(g.edges[3].to, "pod-a");
}

#[test]
fn duplicate_queries_duplicate_edges() {
    let mut st = AggregatedState::new();
    st.internal.append("pod-a", "svc-api");
    st.internal.append("pod-a", "svc-api");
    let g = build_graph(&st);
    assert_eq!(g.nodes.len(), 2);
    assert_eq!(g.edges.len(), 2);
}

#[test]
fn colliding_identifier_collapses_into_one_node() {
    let mut st = AggregatedState::new();
    // a service that carries the same string as a pod identifier
    st.internal.append("shared", "shared");
    let g = build_graph(&st);
    assert_eq!(g.nodes.len(), 1);
    // the first occurrence decides the kind
    assert_eq!(g.nodes[0].kind, NodeKind::Pod);
    assert_eq!(g.edges.len(), 1);
}

#[test]
fn no_filters_means_unconstrained() {
    let st = demo_state();
    let allowed = allowed_workloads(&st, &Filters::none());
    assert!(allowed.is_none());
    let g = build_graph(&st);
    assert_eq!(visible_ids(&g, &allowed, NodeKind::Pod).len(), 3);
    assert_eq!(visible_ids(&g, &allowed, NodeKind::Service).len(), 2);
    assert_eq!(visible_ids(&g, &allowed, NodeKind::External).len(), 2);
}

#[test]
fn pod_filter_keeps_matching_workloads() {
    let st = demo_state();
    let f = Filters { pod: Some("pod-a".to_string()), service: None, external: None };
    let allowed = allowed_workloads(&st, &f).expect("a filter is set");
    assert_eq!(allowed, vec!["pod-a".to_string()]);
    let g = build_graph(&st);
    let allowed = Some(allowed);
    assert_eq!(visible_ids(&g, &allowed, NodeKind::Pod), vec!["pod-a".to_string()]);
    let svcs = visible_ids(&g, &allowed, NodeKind::Service);
    assert_eq!(svcs, vec!["svc-auth".to_string(), "svc-api".to_string()]);
    assert_eq!(
        visible_ids(&g, &allowed, NodeKind::External),
        vec!["api.stripe.com".to_string()]
    );
}

#[test]
fn service_filter_selects_by_internal_domains() {
    let st = demo_state();
    let f = Filters { pod: None, service: Some("svc-api".to_string()), external: None };
    let allowed = allowed_workloads(&st, &f).expect("a filter is set");
    assert_eq!(allowed, vec!["pod-a".to_string(), "pod-b".to_string()]);
}

#[test]
fn filters_intersect() {
    let st = demo_state();
    let f = Filters {
        pod: Some("pod".to_string()),
        service: Some("auth".to_string()),
        external: Some("stripe".to_string()),
    };
    let allowed = allowed_workloads(&st, &f).expect("filters are set");
    assert_eq!(allowed, vec!["pod-a".to_string()]);
}

#[test]
fn disjoint_filters_empty_the_view() {
    // pod-a exists, svc-x is nobody's service: the allowed set is empty and
    // no Service or External node stays visible
    let st = demo_state();
    let f = Filters { pod: Some("pod-a".to_string()), service: Some("svc-x".to_string()), external: None };
    let allowed = allowed_workloads(&st, &f).expect("filters are set");
    assert!(allowed.is_empty());
    let g = build_graph(&st);
    let allowed = Some(allowed);
    assert_eq!(visible_ids(&g, &allowed, NodeKind::Service).len(), 0);
    assert_eq!(visible_ids(&g, &allowed, NodeKind::External).len(), 0);
    assert_eq!(visible_ids(&g, &allowed, NodeKind::Pod).len(), 0);
}

#[test]
fn substring_matching_is_used() {
    let st = demo_state();
    let f = Filters { pod: Some("od-b".to_string()), service: None, external: None };
    let allowed = allowed_workloads(&st, &f).expect("a filter is set");
    assert_eq!(allowed, vec!["pod-b".to_string()]);
}

#[test]
fn filtering_twice_equals_filtering_once() {
    // the engine recomputes the allowed set from the same filters: applying
    // the same non-empty filter again changes nothing
    let st = demo_state();
    let f = Filters { pod: Some("pod".to_string()), service: None, external: None };
    let once = allowed_workloads(&st, &f).expect("a filter is set");
    let twice = allowed_workloads(&st, &f).expect("a filter is set");
    assert_eq!(once, twice);
    assert_eq!(once, vec!["pod-a".to_string(), "pod-b".to_string(), "pod-c".to_string()]);
}
