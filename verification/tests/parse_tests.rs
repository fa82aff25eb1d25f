use dns_topology::parse::parse_line;

#[test]
fn parses_core_log_line() {
    let line = "[INFO] 10.0.0.5:53 - 12 \"A IN checkout.svc.cluster.local udp 40 udp 80\" NOERROR";
    let rec = parse_line(line).expect("line matches the grammar");
    assert_eq!(rec.source, "10.0.0.5:53");
    assert_eq!(rec.qtype, "A");
    assert_eq!(rec.qname, "checkout.svc.cluster.local");
    assert_eq!(rec.code, "NOERROR");
}

#[test]
fn parses_external_line_with_trailer() {
    let line = "[INFO] 172.16.3.9:41953 - 7 \"AAAA IN api.stripe.com. udp 54 false 512\" NOERROR qr,rd,ra 98 0.000123s";
    let rec = parse_line(line).expect("line matches the grammar");
    assert_eq!(rec.source, "172.16.3.9:41953");
    assert_eq!(rec.qtype, "AAAA");
    assert_eq!(rec.qname, "api.stripe.com.");
    assert_eq!(rec.code, "NOERROR");
}

#[test]
fn rejects_line_without_header() {
    assert!(parse_line("10.0.0.5:53 - 12 \"A IN x.com udp 40 udp 80\" NOERROR").is_none());
}

#[test]
fn rejects_line_without_quoted_section() {
    assert!(parse_line("[INFO] 10.0.0.5:53 - 12 A IN x.com udp 40 udp 80 NOERROR").is_none());
}

#[test]
fn rejects_empty_source() {
    assert!(parse_line("[INFO]  - 12 \"A IN x.com udp 40 udp 80\" NOERROR").is_none());
}

#[test]
fn rejects_missing_code() {
    assert!(parse_line("[INFO] 10.0.0.5:53 - 12 \"A IN x.com udp 40 udp 80\" ").is_none());
}

#[test]
fn rejects_non_udp_marker() {
    assert!(parse_line("[INFO] 10.0.0.5:53 - 12 \"A IN x.com tcp 40 udp 80\" NOERROR").is_none());
}

#[test]
fn grammar_found_after_a_prefix() {
    // the structured part may start anywhere in the line
    let line = "2024-05-01T10:00:00Z [INFO] 10.0.0.5:53 - 12 \"A IN api.stripe.com udp 40 udp 80\" NOERROR";
    let rec = parse_line(line).expect("grammar matches at an offset");
    assert_eq!(rec.source, "10.0.0.5:53");
    assert_eq!(rec.qname, "api.stripe.com");
}
