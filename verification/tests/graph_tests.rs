use schnuffel::graph::{Graph, Node};
use schnuffel::types::{EmailAddress, IpAddress, PhoneNumber};

#[test]
fn new_graph_is_empty() {
    let g = Graph::new();
    assert_eq!(g.node_count(), 0);
    assert_eq!(g.edge_count(), 0);
}

#[test]
fn add_node_hands_out_stable_indices() {
    let mut g = Graph::new();
    let a = g.add_node(Node::Person("A".to_string()));
    let b = g.add_node(Node::Person("B".to_string()));
    assert_eq!(a, 0);
    assert_eq!(b, 1);
    assert_eq!(g.get_node(a), &Node::Person("A".to_string()));
    assert_eq!(g.get_node(b), &Node::Person("B".to_string()));
    let c = g.add_node(Node::IP(IpAddress::v4(10, 0, 0, 1)));
    assert_eq!(c, 2);
    // earlier handles still name the same vertices
    assert_eq!(g.get_node(a), &Node::Person("A".to_string()));
}

#[test]
fn add_edge_records_endpoints_and_label() {
    let mut g = Graph::new();
    let a = g.add_node(Node::Person("A".to_string()));
    let b = g.add_node(Node::PhoneNumber(PhoneNumber::from("+1555")));
    g.add_edge(a, b, Some("owns".to_string()));
    assert_eq!(g.edge_count(), 1);
    assert_eq!(g.get_edge(0).from, a);
    assert_eq!(g.get_edge(0).to, b);
    assert_eq!(g.get_edge(0).label, Some("owns".to_string()));
}

#[test]
fn merge_remaps_fragment_indices() {
    let mut base = Graph::new();
    let p = base.add_node(Node::Person("P".to_string()));
    let q = base.add_node(Node::Person("Q".to_string()));
    base.add_edge(p, q, None);

    let mut fragment = Graph::new();
    let x = fragment.add_node(Node::EmailAddress(EmailAddress::from("x@example.com")));
    let y = fragment.add_node(Node::EmailAddress(EmailAddress::from("y@example.com")));
    fragment.add_edge(x, y, Some("alias".to_string()));

    base.merge_from(fragment);
    assert_eq!(base.node_count(), 4);
    assert_eq!(base.edge_count(), 2);
    // the old edge is untouched
    assert_eq!(base.get_edge(0).from, 0);
    assert_eq!(base.get_edge(0).to, 1);
    // the fragment's edge now names the appended vertices
    assert_eq!(base.get_edge(1).from, 2);
    assert_eq!(base.get_edge(1).to, 3);
    assert_eq!(base.get_edge(1).label, Some("alias".to_string()));
    assert_eq!(base.get_node(2), &Node::EmailAddress(EmailAddress::from("x@example.com")));
}

#[test]
fn merge_empty_fragment_changes_nothing() {
    let mut base = Graph::new();
    base.add_node(Node::Person("P".to_string()));
    let before = base.clone();
    base.merge_from(Graph::new());
    assert_eq!(base, before);
}

#[test]
fn ip_v4_builder_packs_octets() {
    assert_eq!(IpAddress::v4(127, 0, 0, 1), IpAddress::V4(0x7F000001));
    assert_eq!(IpAddress::v4(192, 168, 0, 1), IpAddress::V4(0xC0A80001));
    assert_eq!(IpAddress::v4(0, 0, 0, 0), IpAddress::V4(0));
    assert_eq!(IpAddress::v4(255, 255, 255, 255), IpAddress::V4(0xFFFFFFFF));
}

#[test]
fn value_equality_is_structural() {
    assert_eq!(Node::Person("A".to_string()), Node::Person("A".to_string()));
    assert_ne!(Node::Person("A".to_string()), Node::Organization("A".to_string()));
    assert_eq!(PhoneNumber::from("+1555"), PhoneNumber::from("+1555"));
}
