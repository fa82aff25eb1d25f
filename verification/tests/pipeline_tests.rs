use dns_topology::pipeline::extract_event;
use dns_topology::pipeline::ingest_line;
use dns_topology::pipeline::resolve_workload;
use dns_topology::pipeline::strip_port;
use dns_topology::pipeline::Workload;
use dns_topology::state::AggregatedState;

fn suffixes() -> Vec<String> {
    vec!["com".to_string(), "io".to_string()]
}

fn pods() -> Vec<Workload> {
    vec![
        Workload { name: "frontend-7f9".to_string(), address: "10.0.0.5".to_string() },
        Workload { name: "billing-2c1".to_string(), address: "10.0.0.9".to_string() },
    ]
}

#[test]
fn strips_port_suffix() {
    assert_eq!(strip_port("10.0.0.5:53530"), "10.0.0.5");
    assert_eq!(strip_port("10.0.0.5"), "10.0.0.5");
}

#[test]
fn resolves_first_owner() {
    assert_eq!(resolve_workload("10.0.0.5:53", &pods()), "frontend-7f9");
    assert_eq!(resolve_workload("10.0.0.9", &pods()), "billing-2c1");
}

#[test]
fn resolves_unknown_when_no_match() {
    assert_eq!(resolve_workload("10.9.9.9:53", &pods()), "unknown");
    assert_eq!(resolve_workload("10.0.0.5", &Vec::new()), "unknown");
}

#[test]
fn resolver_prefers_first_of_equal_addresses() {
    let two = vec![
        Workload { name: "a".to_string(), address: "10.0.0.5".to_string() },
        Workload { name: "b".to_string(), address: "10.0.0.5".to_string() },
    ];
    assert_eq!(resolve_workload("10.0.0.5:1", &two), "a");
}

#[test]
fn internal_line_attributed_to_owner() {
    // the scenario line: an internal checkout query from 10.0.0.5
    let line = "[INFO] 10.0.0.5:53 - 12 \"A IN checkout.svc.cluster.local udp 40 udp 80\" NOERROR";
    let ev = extract_event(line, &suffixes()).expect("classified");
    assert_eq!(ev.source_addr, "10.0.0.5:53");
    assert_eq!(ev.domain, "checkout");
    assert!(ev.is_internal);

    let mut st = AggregatedState::new();
    assert!(ingest_line(&mut st, line, &suffixes(), &pods()));
    assert_eq!(st.internal.entries.len(), 1);
    assert_eq!(st.internal.entries[0].workload, "frontend-7f9");
    assert_eq!(st.internal.entries[0].domains, vec!["checkout".to_string()]);
    assert_eq!(st.external.entries.len(), 0);
}

#[test]
fn external_line_keeps_full_name() {
    let line = "[INFO] 10.0.0.9:40000 - 3 \"A IN api.stripe.com. udp 54 udp 512\" NOERROR";
    let ev = extract_event(line, &suffixes()).expect("classified");
    assert_eq!(ev.domain, "api.stripe.com");
    assert!(!ev.is_internal);

    let mut st = AggregatedState::new();
    assert!(ingest_line(&mut st, line, &suffixes(), &pods()));
    assert_eq!(st.external.entries.len(), 1);
    assert_eq!(st.external.entries[0].workload, "billing-2c1");
    assert_eq!(st.external.entries[0].domains, vec!["api.stripe.com".to_string()]);
}

#[test]
fn repeated_queries_append_duplicates() {
    let line = "[INFO] 10.0.0.5:53 - 12 \"A IN checkout.svc.cluster.local udp 40 udp 80\" NOERROR";
    let mut st = AggregatedState::new();
    assert!(ingest_line(&mut st, line, &suffixes(), &pods()));
    assert!(ingest_line(&mut st, line, &suffixes(), &pods()));
    assert_eq!(st.internal.entries.len(), 1);
    assert_eq!(
        st.internal.entries[0].domains,
        vec!["checkout".to_string(), "checkout".to_string()]
    );
}

#[test]
fn unparsable_and_unclassified_lines_change_nothing() {
    let mut st = AggregatedState::new();
    assert!(!ingest_line(&mut st, "some noise", &suffixes(), &pods()));
    let nx = "[INFO] 10.0.0.5:53 - 12 \"A IN gone.example.com udp 40 udp 80\" NXDOMAIN";
    assert!(!ingest_line(&mut st, nx, &suffixes(), &pods()));
    assert_eq!(st.internal.entries.len(), 0);
    assert_eq!(st.external.entries.len(), 0);
}

#[test]
fn unresolved_source_lands_on_sentinel() {
    let line = "[INFO] 10.7.7.7:53 - 12 \"A IN cdn.example.com udp 40 udp 80\" NOERROR";
    let mut st = AggregatedState::new();
    assert!(ingest_line(&mut st, line, &suffixes(), &Vec::new()));
    assert_eq!(st.external.entries[0].workload, "unknown");
}
