use dns_topology::classify::classify;
use dns_topology::classify::Classification;

fn suffixes() -> Vec<String> {
    vec!["com".to_string(), "io".to_string(), "sh".to_string(), "dev".to_string()]
}

#[test]
fn internal_with_trailing_dot() {
    let c = classify("checkout.svc.cluster.local.", "NOERROR", &suffixes());
    assert_eq!(c, Classification::Internal("checkout".to_string()));
}

#[test]
fn internal_without_trailing_dot() {
    let c = classify("checkout.svc.cluster.local", "NOERROR", &suffixes());
    assert_eq!(c, Classification::Internal("checkout".to_string()));
}

#[test]
fn external_full_name() {
    let c = classify("api.stripe.com", "NOERROR", &suffixes());
    assert_eq!(c, Classification::External("api.stripe.com".to_string()));
}

#[test]
fn external_case_insensitive_suffix() {
    let c = classify("API.Stripe.COM", "NOERROR", &suffixes());
    assert_eq!(c, Classification::External("API.Stripe.COM".to_string()));
}

#[test]
fn external_trailing_dot_stripped() {
    let c = classify("charts.helm.sh.", "NOERROR", &suffixes());
    assert_eq!(c, Classification::External("charts.helm.sh".to_string()));
}

#[test]
fn non_success_is_unclassified() {
    assert_eq!(
        classify("checkout.svc.cluster.local", "NXDOMAIN", &suffixes()),
        Classification::Unclassified
    );
    assert_eq!(
        classify("api.stripe.com", "SERVFAIL", &suffixes()),
        Classification::Unclassified
    );
}

#[test]
fn unknown_suffix_is_unclassified() {
    assert_eq!(
        classify("router.fritz.box", "NOERROR", &suffixes()),
        Classification::Unclassified
    );
}

#[test]
fn internal_rule_wins_over_external() {
    // ends with the cluster suffix and with a known public suffix candidate
    let sfx = vec!["local".to_string()];
    let c = classify("db.svc.cluster.local", "NOERROR", &sfx);
    assert_eq!(c, Classification::Internal("db".to_string()));
}

#[test]
fn suffix_must_follow_a_dot() {
    // "stripecom" must not match ".com"
    let c = classify("stripecom", "NOERROR", &suffixes());
    assert_eq!(c, Classification::Unclassified);
}
