use dns_topology::graph::NodeKind;
use dns_topology::layout::layout_ring;
use dns_topology::layout::ring_radius_milli;
use dns_topology::layout::sort_ids;

#[test]
fn sorts_identifiers_lexicographically() {
    let v = vec![
        "svc-db".to_string(),
        "api".to_string(),
        "svc-api".to_string(),
        "api".to_string(),
    ];
    let sorted = sort_ids(&v);
    assert_eq!(
        sorted,
        vec!["api".to_string(), "api".to_string(), "svc-api".to_string(), "svc-db".to_string()]
    );
}

#[test]
fn slots_carry_rank_and_count() {
    let v = vec!["c".to_string(), "a".to_string(), "b".to_string()];
    let slots = layout_ring(&v);
    assert_eq!(slots.len(), 3);
    assert_eq!(slots[0].id, "a");
    assert_eq!(slots[1].id, "b");
    assert_eq!(slots[2].id, "c");
    for (j, s) in slots.iter().enumerate() {
        assert_eq!(s.index, j);
        assert_eq!(s.count, 3);
    }
}

#[test]
fn radii_are_ordered_outermost_to_innermost() {
    assert_eq!(ring_radius_milli(NodeKind::External), 950);
    assert_eq!(ring_radius_milli(NodeKind::Pod), 550);
    assert_eq!(ring_radius_milli(NodeKind::Service), 150);
    assert!(ring_radius_milli(NodeKind::External) > ring_radius_milli(NodeKind::Pod));
    assert!(ring_radius_milli(NodeKind::Pod) > ring_radius_milli(NodeKind::Service));
}

#[test]
fn ring_positions_equally_spaced_on_radius() {
    // the renderer's formula applied to the slots: five visible pods
    let v = vec![
        "p1".to_string(),
        "p2".to_string(),
        "p3".to_string(),
        "p4".to_string(),
        "p5".to_string(),
    ];
    let slots = layout_ring(&v);
    let n = slots.len() as f64;
    let radius = ring_radius_milli(NodeKind::Pod) as f64 / 1000.0;
    let tau = std::f64::consts::TAU;
    let mut angles: Vec<f64> = Vec::new();
    for s in &slots {
        let ang = tau * (s.index as f64) / (s.count as f64);
        let x = radius * ang.cos();
        let y = radius * ang.sin();
        // every node sits on its ring
        assert!(((x * x + y * y).sqrt() - radius).abs() < 1e-9);
        angles.push(ang);
    }
    // consecutive nodes differ by exactly one n-th of a turn
    for w in angles.windows(2) {
        assert!(((w[1] - w[0]) - tau / n).abs() < 1e-9);
    }
}
