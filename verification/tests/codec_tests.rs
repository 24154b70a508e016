use schnuffel::codec::{
    decode_config_response, graph_from_bytes, graph_to_bytes, node_from_bytes, node_to_bytes,
    record_from_bytes, record_to_bytes,
};
use schnuffel::graph::{Graph, Node};
use schnuffel::types::{DNSRecord, Domain, EmailAddress, IpAddress, PhoneNumber};

fn enc_str_bytes(s: &str) -> Vec<u8> {
    let chars: Vec<char> = s.chars().collect();
    let mut out = Vec::new();
    out.extend_from_slice(&(chars.len() as u64).to_le_bytes());
    for c in chars {
        out.extend_from_slice(&(c as u32).to_le_bytes());
    }
    out
}

fn enc_config_bytes(pairs: &[(&str, &str)]) -> Vec<u8> {
    let mut out = Vec::new();
    out.extend_from_slice(&(pairs.len() as u64).to_le_bytes());
    for (k, v) in pairs {
        out.extend_from_slice(&enc_str_bytes(k));
        out.extend_from_slice(&enc_str_bytes(v));
    }
    out
}

#[test]
fn round_trip_person() {
    let n = Node::Person("John Doe".to_string());
    let b = node_to_bytes(&n);
    assert_eq!(node_from_bytes(&b), Ok(n));
}

#[test]
fn round_trip_organization() {
    let n = Node::Organization("ACME Corp.".to_string());
    let b = node_to_bytes(&n);
    assert_eq!(node_from_bytes(&b), Ok(n));
}

#[test]
fn round_trip_social_media() {
    let n = Node::SocialMedia {
        social_media_url: "https://social.example.com".to_string(),
        account_url: "https://social.example.com/@jdoe".to_string(),
    };
    let b = node_to_bytes(&n);
    assert_eq!(node_from_bytes(&b), Ok(n));
}

#[test]
fn round_trip_website() {
    let n = Node::Website { url: "https://example.com/index.html".to_string() };
    let b = node_to_bytes(&n);
    assert_eq!(node_from_bytes(&b), Ok(n));
}

#[test]
fn round_trip_ip_v4() {
    let n = Node::IP(IpAddress::v4(127, 0, 0, 1));
    let b = node_to_bytes(&n);
    assert_eq!(node_from_bytes(&b), Ok(Node::IP(IpAddress::V4(0x7F000001))));
}

#[test]
fn round_trip_ip_v6() {
    let n = Node::IP(IpAddress::V6(0x2001_0db8_0000_0000_0000_0000_0000_0001));
    let b = node_to_bytes(&n);
    assert_eq!(node_from_bytes(&b), Ok(n));
}

#[test]
fn round_trip_phone_number() {
    let n = Node::PhoneNumber(PhoneNumber::from("+00000000000"));
    let b = node_to_bytes(&n);
    assert_eq!(node_from_bytes(&b), Ok(n));
}

#[test]
fn round_trip_email_address() {
    let n = Node::EmailAddress(EmailAddress::from("john.doe@example.com"));
    let b = node_to_bytes(&n);
    assert_eq!(node_from_bytes(&b), Ok(n));
}

#[test]
fn round_trip_domain_node() {
    let n = Node::Domain(Domain::from("example.com"));
    let b = node_to_bytes(&n);
    assert_eq!(node_from_bytes(&b), Ok(n));
}

#[test]
fn round_trip_non_ascii_text() {
    let n = Node::Person("J\u{00f8}rgen \u{4eba} \u{1f50d}".to_string());
    let b = node_to_bytes(&n);
    assert_eq!(node_from_bytes(&b), Ok(n));
}

#[test]
fn round_trip_empty_person_name() {
    let n = Node::Person(String::new());
    let b = node_to_bytes(&n);
    assert_eq!(node_from_bytes(&b), Ok(n));
}

#[test]
fn round_trip_record_a() {
    let r = DNSRecord::A(0xC0A80001);
    let b = record_to_bytes(&r);
    assert_eq!(record_from_bytes(&b), Ok(r));
}

#[test]
fn round_trip_record_aaaa() {
    let r = DNSRecord::AAAA(0xfe80_0000_0000_0000_0000_0000_0000_0009);
    let b = record_to_bytes(&r);
    assert_eq!(record_from_bytes(&b), Ok(r));
}

#[test]
fn round_trip_record_cname() {
    let r = DNSRecord::CNAME { from: "www.example.com".to_string(), to: Domain::from("example.com") };
    let b = record_to_bytes(&r);
    assert_eq!(record_from_bytes(&b), Ok(r));
}

#[test]
fn round_trip_record_mx() {
    let r = DNSRecord::MX(Domain::from("mail.example.com"));
    let b = record_to_bytes(&r);
    assert_eq!(record_from_bytes(&b), Ok(r));
}

#[test]
fn round_trip_record_srv() {
    let r = DNSRecord::SRV {
        service: "SFTP Server".to_string(),
        protocol: "ftp".to_string(),
        from: "example.com".to_string(),
        to: "ftp.example.com".to_string(),
        to_port: 21,
    };
    let b = record_to_bytes(&r);
    assert_eq!(record_from_bytes(&b), Ok(r));
}

#[test]
fn round_trip_record_txt() {
    let r = DNSRecord::TXT("v=spf1 -all".to_string());
    let b = record_to_bytes(&r);
    assert_eq!(record_from_bytes(&b), Ok(r));
}

#[test]
fn round_trip_dns_entry_node() {
    let n = Node::DNSEntry {
        nameserver: Domain::from("ns1.example.com"),
        record: DNSRecord::SRV {
            service: "SFTP Server".to_string(),
            protocol: "ftp".to_string(),
            from: "example.com".to_string(),
            to: "ftp.example.com".to_string(),
            to_port: 21,
        },
    };
    let b = node_to_bytes(&n);
    assert_eq!(node_from_bytes(&b), Ok(n));
}

#[test]
fn round_trip_empty_graph() {
    let g = Graph::new();
    let b = graph_to_bytes(&g);
    let decoded = graph_from_bytes(&b).unwrap();
    assert_eq!(decoded.node_count(), 0);
    assert_eq!(decoded.edge_count(), 0);
}

// Building a graph of a person with a phone number and an email address,
// then carrying it over the wire, keeps all three vertices and both
// edges with their endpoints.
#[test]
fn round_trip_person_phone_email_graph() {
    let mut g = Graph::new();
    let person = g.add_node(Node::Person("John Doe".to_string()));
    let phone = g.add_node(Node::PhoneNumber(PhoneNumber::from("+00000000000")));
    let email = g.add_node(Node::EmailAddress(EmailAddress::from("john.doe@example.com")));
    g.add_edge(person, phone, None);
    g.add_edge(person, email, None);
    let b = graph_to_bytes(&g);
    let decoded = graph_from_bytes(&b).unwrap();
    assert_eq!(decoded.node_count(), 3);
    assert_eq!(decoded.edge_count(), 2);
    assert_eq!(decoded.get_edge(0).from, person);
    assert_eq!(decoded.get_edge(0).to, phone);
    assert_eq!(decoded.get_edge(1).from, person);
    assert_eq!(decoded.get_edge(1).to, email);
    assert_eq!(decoded, g);
}

#[test]
fn round_trip_labeled_edges() {
    let mut g = Graph::new();
    let a = g.add_node(Node::Person("A".to_string()));
    let b_node = g.add_node(Node::Person("B".to_string()));
    g.add_edge(a, b_node, Some("knows".to_string()));
    g.add_edge(b_node, a, None);
    let bytes = graph_to_bytes(&g);
    let decoded = graph_from_bytes(&bytes).unwrap();
    assert_eq!(decoded, g);
    assert_eq!(decoded.get_edge(0).label, Some("knows".to_string()));
    assert_eq!(decoded.get_edge(1).label, None);
}

#[test]
fn decode_empty_bytes_fails() {
    assert!(node_from_bytes(&[]).is_err());
    assert!(record_from_bytes(&[]).is_err());
    assert!(graph_from_bytes(&[]).is_err());
}

#[test]
fn decode_unknown_tag_fails() {
    assert!(node_from_bytes(&[0xFF]).is_err());
    assert!(record_from_bytes(&[0xFF]).is_err());
}

#[test]
fn decode_truncated_bytes_fails() {
    let n = Node::Person("John Doe".to_string());
    let b = node_to_bytes(&n);
    for cut in 0..b.len() {
        assert!(node_from_bytes(&b[..cut]).is_err());
    }
}

#[test]
fn decode_trailing_bytes_fails() {
    let n = Node::Person("John Doe".to_string());
    let mut b = node_to_bytes(&n);
    b.push(0);
    assert!(node_from_bytes(&b).is_err());
}

#[test]
fn decode_surrogate_scalar_fails() {
    // A person node whose single character is a surrogate code point.
    let mut b = vec![6u8];
    b.extend_from_slice(&1u64.to_le_bytes());
    b.extend_from_slice(&0xD800u32.to_le_bytes());
    assert!(node_from_bytes(&b).is_err());
}

#[test]
fn decode_edge_out_of_bounds_fails() {
    // One vertex, one edge that names vertex 5.
    let mut b = Vec::new();
    b.extend_from_slice(&1u64.to_le_bytes());
    b.extend_from_slice(&node_to_bytes(&Node::Person("A".to_string())));
    b.extend_from_slice(&1u64.to_le_bytes());
    b.extend_from_slice(&5u64.to_le_bytes());
    b.extend_from_slice(&0u64.to_le_bytes());
    b.push(0);
    assert!(graph_from_bytes(&b).is_err());
}

#[test]
fn decode_config_response_accepts_mapping() {
    let b = enc_config_bytes(&[("key", "value"), ("other", "")]);
    let c = decode_config_response(&b).unwrap();
    assert_eq!(c.len(), 2);
    assert_eq!(c.get_field("key"), Some(&"value".to_string()));
    assert_eq!(c.get_field("other"), Some(&String::new()));
    assert_eq!(c.get_field("missing"), None);
}

#[test]
fn decode_config_response_rejects_duplicate_keys() {
    let b = enc_config_bytes(&[("key", "one"), ("key", "two")]);
    assert!(decode_config_response(&b).is_err());
}

#[test]
fn decode_config_response_rejects_trailing_bytes() {
    let mut b = enc_config_bytes(&[("key", "value")]);
    b.push(7);
    assert!(decode_config_response(&b).is_err());
}

// The wire format itself, pinned byte for byte: tag, then a 64-bit
// little-endian character count, then each character as a 32-bit
// little-endian scalar.
#[test]
fn person_node_exact_bytes() {
    let n = Node::Person("A".to_string());
    let expected: Vec<u8> = vec![
        6, // person tag
        1, 0, 0, 0, 0, 0, 0, 0, // one character
        0x41, 0, 0, 0, // 'A'
    ];
    assert_eq!(node_to_bytes(&n), expected);
}

#[test]
fn record_a_exact_bytes() {
    let r = DNSRecord::A(0x7F000001);
    let expected: Vec<u8> = vec![
        1, // address record tag
        1, 0, 0, 0x7F, // 127.0.0.1, little endian
    ];
    assert_eq!(record_to_bytes(&r), expected);
}

#[test]
fn empty_graph_exact_bytes() {
    let expected: Vec<u8> = vec![0u8; 16];
    assert_eq!(graph_to_bytes(&Graph::new()), expected);
}
