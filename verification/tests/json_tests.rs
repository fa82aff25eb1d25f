use dns_topology::json::decode_state;
use dns_topology::json::encode_state;
use dns_topology::state::AggregatedState;

fn sample_state() -> AggregatedState {
    let mut st = AggregatedState::new();
    st.internal.append("pod-a", "svc-auth");
    st.internal.append("pod-a", "svc-auth");
    st.internal.append("pod-b", "svc-db");
    st.external.append("pod-a", "api.stripe.com");
    st
}

#[test]
fn encodes_exact_wire_form() {
    let mut st = AggregatedState::new();
    st.internal.append("pod-a", "svc1");
    st.internal.append("pod-a", "svc1");
    let s = encode_state(&st);
    assert_eq!(s, "{\"internal\":{\"pod-a\":[\"svc1\",\"svc1\"]},\"external\":{}}");
}

#[test]
fn encodes_empty_state() {
    let st = AggregatedState::new();
    assert_eq!(encode_state(&st), "{\"internal\":{},\"external\":{}}");
}

#[test]
fn round_trip_preserves_structure() {
    let st = sample_state();
    let wire = encode_state(&st);
    let back = decode_state(&wire).expect("canonical encoding decodes");
    assert_eq!(back.internal.entries.len(), st.internal.entries.len());
    for (a, b) in back.internal.entries.iter().zip(st.internal.entries.iter()) {
        assert_eq!(a.workload, b.workload);
        assert_eq!(a.domains, b.domains);
    }
    assert_eq!(back.external.entries.len(), st.external.entries.len());
    for (a, b) in back.external.entries.iter().zip(st.external.entries.iter()) {
        assert_eq!(a.workload, b.workload);
        assert_eq!(a.domains, b.domains);
    }
}

#[test]
fn round_trip_keeps_duplicates() {
    let mut st = AggregatedState::new();
    st.external.append("w", "d.example.com");
    st.external.append("w", "d.example.com");
    let back = decode_state(&encode_state(&st)).expect("decodes");
    assert_eq!(
        back.external.entries[0].domains,
        vec!["d.example.com".to_string(), "d.example.com".to_string()]
    );
}

#[test]
fn escaping_round_trips() {
    let mut st = AggregatedState::new();
    st.internal.append("po\"d", "sv\\c");
    let wire = encode_state(&st);
    assert!(wire.contains("po\\\"d"));
    assert!(wire.contains("sv\\\\c"));
    let back = decode_state(&wire).expect("decodes");
    assert_eq!(back.internal.entries[0].workload, "po\"d");
    assert_eq!(back.internal.entries[0].domains, vec!["sv\\c".to_string()]);
}

#[test]
fn decode_rejects_trailing_garbage() {
    let st = sample_state();
    let mut wire = encode_state(&st);
    wire.push(' ');
    assert!(decode_state(&wire).is_none());
}

#[test]
fn decode_rejects_malformed_input() {
    assert!(decode_state("").is_none());
    assert!(decode_state("{}").is_none());
    assert!(decode_state("{\"internal\":{},\"external\":{}").is_none());
    assert!(decode_state("{\"internal\":{\"a\":[}},\"external\":{}}").is_none());
    // duplicate keys are not a canonical encoding
    assert!(decode_state("{\"internal\":{\"a\":[],\"a\":[]},\"external\":{}}").is_none());
}

#[test]
fn wire_form_is_valid_json() {
    let st = sample_state();
    let wire = encode_state(&st);
    let v: serde_json::Value = serde_json::from_str(&wire).expect("well-formed JSON");
    assert_eq!(v["internal"]["pod-a"][0], "svc-auth");
    assert_eq!(v["internal"]["pod-a"][1], "svc-auth");
    assert_eq!(v["internal"]["pod-b"][0], "svc-db");
    assert_eq!(v["external"]["pod-a"][0], "api.stripe.com");
}
