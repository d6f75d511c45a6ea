use p2pass::codec::{parse_address_bytes, parse_ipv4_bytes, Error, Host, Ipv4, Ipv6, Node};
use p2pass::text::{parse_octet_bytes, parse_port_bytes, push_decimal, split_bytes, trimmed};

fn local(port: u16) -> Node {
    Node::new(Host::V4(Ipv4::new(127, 0, 0, 1)), port)
}

#[test]
fn id_is_base64_of_address_text() {
    assert_eq!(local(4024).id(), "MTI3LjAuMC4xOjQwMjQ=");
}

#[test]
fn id_is_deterministic() {
    assert_eq!(local(4024).id(), local(4024).id());
    assert_ne!(local(4024).id(), local(4025).id());
}

#[test]
fn address_bytes_are_ip_colon_port() {
    assert_eq!(local(4024).address_bytes(), b"127.0.0.1:4024".to_vec());
    let n = Node::new(Host::V4(Ipv4::new(0, 0, 0, 0)), 0);
    assert_eq!(n.address_bytes(), b"0.0.0.0:0".to_vec());
}

#[test]
fn round_trip_examples() {
    let nodes = [
        local(4024),
        Node::new(Host::V4(Ipv4::new(0, 0, 0, 0)), 0),
        Node::new(Host::V4(Ipv4::new(255, 255, 255, 255)), 65535),
        Node::new(Host::V4(Ipv4::new(10, 20, 30, 40)), 8080),
        Node::new(Host::V4(Ipv4::new(192, 168, 1, 9)), 1),
    ];
    for n in nodes {
        assert_eq!(Node::from(n.id()), Ok(n));
    }
}

#[test]
fn decode_known_tokens() {
    assert_eq!(Node::from("MTI3LjAuMC4xOjQwMjQ=".to_string()), Ok(local(4024)));
    assert_eq!(
        Node::from("MjU1LjI1NS4yNTUuMjU1OjY1NTM1".to_string()),
        Ok(Node::new(Host::V4(Ipv4::new(255, 255, 255, 255)), 65535))
    );
}

#[test]
fn decode_rejects_text_that_is_not_base64() {
    assert_eq!(Node::from("not base64!".to_string()), Err(Error::MalformedToken));
    assert_eq!(Node::from("MTI3LjAuMC4xOjQwMjQ".to_string()), Err(Error::MalformedToken));
}

#[test]
fn decode_rejects_missing_colon() {
    assert_eq!(Node::from("MTI3LjAuMC4x".to_string()), Err(Error::MalformedToken));
}

#[test]
fn decode_rejects_non_numeric_port() {
    assert_eq!(Node::from("MTI3LjAuMC4xOmFiYw==".to_string()), Err(Error::MalformedToken));
    assert_eq!(Node::from("MTI3LjAuMC4xOg==".to_string()), Err(Error::MalformedToken));
}

#[test]
fn decode_rejects_out_of_range_values() {
    assert_eq!(Node::from("MTI3LjAuMC4xOjY1NTM2".to_string()), Err(Error::MalformedToken));
    assert_eq!(Node::from("MjU2LjAuMC4xOjgw".to_string()), Err(Error::MalformedToken));
}

#[test]
fn decode_rejects_malformed_hosts() {
    assert_eq!(Node::from("MTI3LjAuMC4wMTo4MA==".to_string()), Err(Error::MalformedToken));
    assert_eq!(Node::from("MS4yLjM6ODA=".to_string()), Err(Error::MalformedToken));
    assert_eq!(Node::from("MS4yLjMuNC41Ojgw".to_string()), Err(Error::MalformedToken));
    assert_eq!(Node::from("OjoxOjQwMjQ=".to_string()), Err(Error::MalformedToken));
}

#[test]
fn decode_rejects_invalid_utf8() {
    assert_eq!(Node::from("MTAuMC4wLjE6ODA6/w==".to_string()), Err(Error::MalformedToken));
}

#[test]
fn decode_ignores_text_after_a_second_colon() {
    assert_eq!(Node::from("MTI3LjAuMC4xOjgwOmV4dHJh".to_string()), Ok(local(80)));
}

#[test]
fn decode_accepts_plus_sign_on_port() {
    assert_eq!(Node::from("MTI3LjAuMC4xOis4MA==".to_string()), Ok(local(80)));
}

#[test]
fn port_parsing() {
    assert_eq!(parse_port_bytes(&b"4024".to_vec()), Some(4024));
    assert_eq!(parse_port_bytes(&b"0080".to_vec()), Some(80));
    assert_eq!(parse_port_bytes(&b"+7".to_vec()), Some(7));
    assert_eq!(parse_port_bytes(&b"65535".to_vec()), Some(65535));
    assert_eq!(parse_port_bytes(&b"65536".to_vec()), None);
    assert_eq!(parse_port_bytes(&b"+".to_vec()), None);
    assert_eq!(parse_port_bytes(&b"".to_vec()), None);
    assert_eq!(parse_port_bytes(&b"-1".to_vec()), None);
    assert_eq!(parse_port_bytes(&b"8 0".to_vec()), None);
}

#[test]
fn octet_parsing() {
    assert_eq!(parse_octet_bytes(&b"0".to_vec()), Some(0));
    assert_eq!(parse_octet_bytes(&b"255".to_vec()), Some(255));
    assert_eq!(parse_octet_bytes(&b"256".to_vec()), None);
    assert_eq!(parse_octet_bytes(&b"01".to_vec()), None);
    assert_eq!(parse_octet_bytes(&b"1000".to_vec()), None);
    assert_eq!(parse_octet_bytes(&b"".to_vec()), None);
    assert_eq!(parse_octet_bytes(&b"a".to_vec()), None);
}

#[test]
fn ipv4_and_address_parsing() {
    assert_eq!(parse_ipv4_bytes(&b"10.0.0.1".to_vec()), Some(Ipv4::new(10, 0, 0, 1)));
    assert_eq!(parse_ipv4_bytes(&b"10.0.0".to_vec()), None);
    assert_eq!(parse_ipv4_bytes(&b"10..0.1".to_vec()), None);
    assert_eq!(parse_address_bytes(&b"127.0.0.1:4024".to_vec()), Some(local(4024)));
    assert_eq!(parse_address_bytes(&b"127.0.0.1".to_vec()), None);
}

#[test]
fn splitting_keeps_empty_parts() {
    let parts = split_bytes(&b":a::b:".to_vec(), b':');
    let expected: Vec<Vec<u8>> = vec![vec![], b"a".to_vec(), vec![], b"b".to_vec(), vec![]];
    assert_eq!(parts, expected);
    assert_eq!(split_bytes(&Vec::new(), b':'), vec![Vec::<u8>::new()]);
}

#[test]
fn decimal_numerals() {
    let mut out = b"x".to_vec();
    push_decimal(&mut out, 0);
    push_decimal(&mut out, 65535);
    push_decimal(&mut out, 10);
    assert_eq!(out, b"x06553510".to_vec());
}

#[test]
fn trimming_removes_unicode_white_space() {
    let s: Vec<char> = " \t GOODBYE\n\u{a0}".chars().collect();
    assert_eq!(trimmed(&s), "GOODBYE".chars().collect::<Vec<char>>());
    let blank: Vec<char> = " \n ".chars().collect();
    assert!(trimmed(&blank).is_empty());
}

fn v6(a: u16, b: u16, c: u16, d: u16, e: u16, f: u16, g: u16, h: u16, port: u16) -> Node {
    Node::new(Host::V6(Ipv6::new(a, b, c, d, e, f, g, h)), port)
}

#[test]
fn ipv6_tokens() {
    assert_eq!(v6(0, 0, 0, 0, 0, 0, 0, 1, 8080).id(), "OjoxOjgwODA=");
    assert_eq!(
        v6(0x2001, 0xdb8, 0, 0, 0x8a2e, 0x370, 0x7334, 0, 443).address_bytes(),
        b"2001:db8::8a2e:370:7334:0:443".to_vec()
    );
    assert_eq!(v6(0, 0, 0, 0, 0, 0xffff, 0xc000, 0x0201, 80).id(), "OjpmZmZmOjE5Mi4wLjIuMTo4MA==");
    assert_eq!(v6(0, 0, 0, 0, 0, 0, 0, 0, 0).id(), "Ojo6MA==");
}

#[test]
fn ipv6_tokens_do_not_decode() {
    for n in [v6(0, 0, 0, 0, 0, 0, 0, 1, 8080), v6(0xfe80, 0, 0, 0, 0, 0, 0, 1, 22)] {
        assert_eq!(Node::from(n.id()), Err(Error::MalformedToken));
    }
}

#[test]
fn tokens_are_printable_base64() {
    let nodes = [
        local(4024),
        Node::new(Host::V4(Ipv4::new(255, 255, 255, 255)), 65535),
        v6(0x2001, 0xdb8, 0, 0, 0, 0, 0, 1, 443),
    ];
    for n in nodes {
        let t = n.id();
        assert!(!t.is_empty() && t.len() % 4 == 0);
        assert!(t.chars().all(|c| c.is_ascii_alphanumeric() || c == '+' || c == '/' || c == '='));
        assert_eq!(t.len(), 4 * ((n.address_bytes().len() + 2) / 3));
    }
}
