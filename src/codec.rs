//! Peer identifiers: an address and a port, written as `"<ip>:<port>"` and
//! carried as standard padded base64 text.

use vstd::prelude::*;
use vstd::utf8::valid_utf8;
use base64::engine::general_purpose::STANDARD;
use base64::Engine as _;
use crate::text::{
    all_digits, decimal, is_utf8, unsigned_digits, lemma_decimal, lemma_split_concat, lemma_split_whole, parse_octet,
    parse_octet_bytes, parse_port_bytes, parse_u16, push_decimal, split, split_bytes,
};

verus! {

/// An IPv4 address, by its four octets in network order.
#[derive(Clone, Copy, Debug, PartialEq, Eq, Structural)]
pub struct Ipv4 {
    pub a: u8,
    pub b: u8,
    pub c: u8,
    pub d: u8,
}

impl Ipv4 {
    pub fn new(a: u8, b: u8, c: u8, d: u8) -> (r: Ipv4)
        ensures
            r == (Ipv4 { a, b, c, d }),
    {
        Ipv4 { a, b, c, d }
    }
}

/// An IPv6 address, by its eight 16-bit segments in network order.
#[derive(Clone, Copy, Debug, PartialEq, Eq, Structural)]
pub struct Ipv6 {
    pub a: u16,
    pub b: u16,
    pub c: u16,
    pub d: u16,
    pub e: u16,
    pub f: u16,
    pub g: u16,
    pub h: u16,
}

impl Ipv6 {
    pub fn new(a: u16, b: u16, c: u16, d: u16, e: u16, f: u16, g: u16, h: u16) -> (r: Ipv6)
        ensures
            r == (Ipv6 { a, b, c, d, e, f, g, h }),
    {
        Ipv6 { a, b, c, d, e, f, g, h }
    }
}

/// The eight segments of an IPv6 address, in order.
pub open spec fn segments(ip: Ipv6) -> Seq<u16> {
    seq![ip.a, ip.b, ip.c, ip.d, ip.e, ip.f, ip.g, ip.h]
}

/// The host of a peer: an IPv4 or an IPv6 address.
#[derive(Clone, Copy, Debug, PartialEq, Eq, Structural)]
pub enum Host {
    V4(Ipv4),
    V6(Ipv6),
}

/// A peer: where it can be dialled or bound.
#[derive(Clone, Copy, Debug, PartialEq, Eq, Structural)]
pub struct Node {
    pub ip: Host,
    pub port: u16,
}

/// What can go wrong in this library.
#[derive(Clone, Copy, Debug, PartialEq, Eq, Structural)]
pub enum Error {
    /// A token that does not decode to an address and a port.
    MalformedToken,
    /// A control frame that the responder did not expect at that point.
    ProtocolViolation,
    /// A reply that the initiator did not expect at that point.
    UnexpectedResponse,
    /// A payload that is not UTF-8 text.
    InvalidEncoding,
    /// The connection itself failed.
    TransportFailure,
}

/// Dotted decimal text of an IPv4 address, `"a.b.c.d"`.
pub open spec fn ipv4_text(ip: Ipv4) -> Seq<u8> {
    decimal(ip.a as nat) + seq![46u8] + decimal(ip.b as nat) + seq![46u8] + decimal(ip.c as nat)
        + seq![46u8] + decimal(ip.d as nat)
}

/// The text of an IPv6 address as std's `Ipv6Addr` displays it (RFC 5952).
pub uninterp spec fn ipv6_text(segments: Seq<u16>) -> Seq<u8>;

/// Relies on the `Display` of `core::net::Ipv6Addr` (the address type that
/// std re-exports from core; no I/O): the RFC 5952 text of the address.
/// Like every `Vec<u8>`, the text holds at most `isize::MAX` bytes.
#[verifier::external_body]
fn ipv6_text_bytes(ip: &Ipv6) -> (r: Vec<u8>)
    ensures
        r@ == ipv6_text(segments(*ip)),
        r@.len() <= isize::MAX,
{
    core::net::Ipv6Addr::new(ip.a, ip.b, ip.c, ip.d, ip.e, ip.f, ip.g, ip.h).to_string().into_bytes()
}

/// The text of a host: dotted decimal for IPv4, RFC 5952 for IPv6.
pub open spec fn host_text(h: Host) -> Seq<u8> {
    match h {
        Host::V4(ip) => ipv4_text(ip),
        Host::V6(ip) => ipv6_text(segments(ip)),
    }
}

/// The text that a token carries, `"<ip>:<port>"`.
pub open spec fn address_text(n: Node) -> Seq<u8> {
    host_text(n.ip) + seq![58u8] + decimal(n.port as nat)
}

/// An IPv4 address in dotted decimal: exactly four parts between dots, each
/// a valid octet.
pub open spec fn parse_ipv4(s: Seq<u8>) -> Option<Ipv4> {
    let p = split(s, 46);
    if p.len() == 4 && parse_octet(p[0]) is Some && parse_octet(p[1]) is Some
        && parse_octet(p[2]) is Some && parse_octet(p[3]) is Some {
        Some(
            Ipv4 {
                a: parse_octet(p[0])->Some_0,
                b: parse_octet(p[1])->Some_0,
                c: parse_octet(p[2])->Some_0,
                d: parse_octet(p[3])->Some_0,
            },
        )
    } else {
        None
    }
}

/// The address in a token's text: the part before the first colon is the
/// host, the part after it (up to a second colon, if any) the port. The text
/// of an IPv6 host holds colons itself, so only IPv4 hosts come back.
pub open spec fn parse_address(s: Seq<u8>) -> Option<Node> {
    let p = split(s, 58);
    if p.len() >= 2 && parse_ipv4(p[0]) is Some && parse_u16(p[1]) is Some {
        Some(Node { ip: Host::V4(parse_ipv4(p[0])->Some_0), port: parse_u16(p[1])->Some_0 })
    } else {
        None
    }
}

/// Standard padded base64 of some bytes, as `Engine::encode` writes it.
pub uninterp spec fn base64_text(bytes: Seq<u8>) -> Seq<char>;

/// The bytes that `Engine::decode` recovers from a text, if it accepts it.
pub uninterp spec fn base64_bytes(text: Seq<char>) -> Option<Seq<u8>>;

/// The address that a token stands for, if any.
pub open spec fn token_address(token: Seq<char>) -> Option<Node> {
    match base64_bytes(token) {
        Some(b) => if valid_utf8(b) {
            parse_address(b)
        } else {
            None
        },
        None => None,
    }
}

/// The token of an address.
pub open spec fn node_token(n: Node) -> Seq<char> {
    base64_text(address_text(n))
}

/// base64's decoding error, carried as an opaque value.
#[verifier::external_type_specification]
#[verifier::external_body]
pub struct ExDecodeError(base64::DecodeError);

/// A character of the standard base64 alphabet, or the padding `=`.
pub open spec fn base64_char(c: char) -> bool {
    ||| 'A' <= c <= 'Z'
    ||| 'a' <= c <= 'z'
    ||| '0' <= c <= '9'
    ||| c == '+'
    ||| c == '/'
    ||| c == '='
}

/// Relies on base64's `Engine::encode` with the `STANDARD` engine: padded
/// text of four characters per started group of three bytes, drawn from the
/// standard alphabet and `=`, that the same engine decodes back to the
/// input. It panics only when the encoded length overflows `usize`.
#[verifier::external_body]
fn base64_encode(bytes: &Vec<u8>) -> (r: String)
    requires
        bytes@.len() <= usize::MAX / 4 * 3,
    ensures
        r@ == base64_text(bytes@),
        base64_bytes(r@) == Some(bytes@),
        r@.len() == 4 * ((bytes@.len() + 2) / 3),
        forall|i: int| 0 <= i < r@.len() ==> base64_char(#[trigger] r@[i]),
{
    STANDARD.encode(bytes)
}

/// Relies on base64's `Engine::decode` with the `STANDARD` engine: the
/// decoded bytes, or an error for text that is not canonical padded base64.
#[verifier::external_body]
fn base64_decode(text: &str) -> (r: Result<Vec<u8>, base64::DecodeError>)
    ensures
        match r {
            Ok(b) => base64_bytes(text@) == Some(b@),
            Err(_) => base64_bytes(text@) is None,
        },
{
    STANDARD.decode(text)
}

proof fn lemma_ascii_valid_utf8(s: Seq<u8>)
    requires
        forall|i: int| 0 <= i < s.len() ==> #[trigger] s[i] < 128,
    ensures
        valid_utf8(s),
    decreases s.len(),
{
    if s.len() > 0 {
        let b = s[0];
        assert(b & 0x7f <= 0x7f) by (bit_vector);
        let t = s.subrange(1, s.len() as int);
        assert forall|i: int| 0 <= i < t.len() implies #[trigger] t[i] < 128 by {
            assert(t[i] == s[i + 1]);
        }
        lemma_ascii_valid_utf8(t);
    }
}

/// The text of an IPv4 peer's address splits back into its host and its
/// port, and the host's text into its four octets; it is plain ASCII.
pub proof fn lemma_address_text_parses(n: Node)
    requires
        n.ip is V4,
    ensures
        parse_address(address_text(n)) == Some(n),
        valid_utf8(address_text(n)),
{
    let ip = n.ip->V4_0;
    lemma_decimal(ip.a as nat);
    lemma_decimal(ip.b as nat);
    lemma_decimal(ip.c as nat);
    lemma_decimal(ip.d as nat);
    lemma_decimal(n.port as nat);
    let da = decimal(ip.a as nat);
    let db = decimal(ip.b as nat);
    let dc = decimal(ip.c as nat);
    let dd = decimal(ip.d as nat);
    let dp = decimal(n.port as nat);
    let host = ipv4_text(ip);
    lemma_split_whole(dd, 46);
    lemma_split_concat(dc, 46, dd);
    lemma_split_concat(db, 46, dc + seq![46u8] + dd);
    lemma_split_concat(da, 46, db + seq![46u8] + dc + seq![46u8] + dd);
    assert(host =~= da + seq![46u8] + (db + seq![46u8] + dc + seq![46u8] + dd));
    assert(db + seq![46u8] + dc + seq![46u8] + dd =~= db + seq![46u8] + (dc + seq![46u8] + dd));
    let parts = split(host, 46);
    assert(parts =~= seq![da, db, dc, dd]);
    assert(parse_ipv4(host) == Some(ip));
    assert forall|i: int| 0 <= i < host.len() implies #[trigger] host[i] != 58u8 && host[i] < 128 by {
        if i < da.len() {
            assert(host[i] == da[i]);
        } else if i == da.len() {
        } else if i < da.len() + 1 + db.len() {
            assert(host[i] == db[i - da.len() - 1]);
        } else if i == da.len() + 1 + db.len() {
        } else if i < da.len() + 2 + db.len() + dc.len() {
            assert(host[i] == dc[i - da.len() - 2 - db.len()]);
        } else if i == da.len() + 2 + db.len() + dc.len() {
        } else {
            assert(host[i] == dd[i - da.len() - 3 - db.len() - dc.len()]);
        }
    }
    lemma_split_whole(dp, 58);
    lemma_split_concat(host, 58, dp);
    let t = address_text(n);
    assert(split(t, 58) =~= seq![host, dp]);
    assert(parse_u16(dp) == Some(n.port));
    assert forall|i: int| 0 <= i < t.len() implies #[trigger] t[i] < 128 by {
        if i < host.len() {
            assert(t[i] == host[i]);
        } else if i > host.len() {
            assert(t[i] == dp[i - host.len() - 1]);
        }
    }
    lemma_ascii_valid_utf8(t);
}

/// A token is rejected when its text is not base64, when its decoded text
/// has no colon, or when what follows the colon is not a number.
pub proof fn lemma_decode_rejects(token: Seq<char>)
    ensures
        base64_bytes(token) is None ==> token_address(token) is None,
        forall|b: Seq<u8>|
            base64_bytes(token) == Some(b) && (forall|i: int| 0 <= i < b.len() ==> #[trigger] b[i] != 58u8)
                ==> token_address(token) is None,
        forall|b: Seq<u8>|
            base64_bytes(token) == Some(b) && split(b, 58).len() >= 2 && !all_digits(
                unsigned_digits(#[trigger] split(b, 58)[1]),
            ) ==> token_address(token) is None,
{
    assert forall|b: Seq<u8>|
        base64_bytes(token) == Some(b) && (forall|i: int| 0 <= i < b.len() ==> #[trigger] b[i] != 58u8)
            implies token_address(token) is None by {
        lemma_split_whole(b, 58);
    }
}

impl Node {
    pub fn new(ip: Host, port: u16) -> (r: Node)
        ensures
            r == (Node { ip, port }),
    {
        Node { ip, port }
    }

    /// The text `"<ip>:<port>"` as bytes.
    pub fn address_bytes(&self) -> (r: Vec<u8>)
        ensures
            r@ == address_text(*self),
            r@.len() <= isize::MAX + 6,
    {
        let mut out: Vec<u8> = match self.ip {
            Host::V4(ip) => {
                let mut v: Vec<u8> = Vec::new();
                push_decimal(&mut v, ip.a as u16);
                v.push(46);
                push_decimal(&mut v, ip.b as u16);
                v.push(46);
                push_decimal(&mut v, ip.c as u16);
                v.push(46);
                push_decimal(&mut v, ip.d as u16);
                proof {
                    lemma_decimal(ip.a as nat);
                    lemma_decimal(ip.b as nat);
                    lemma_decimal(ip.c as nat);
                    lemma_decimal(ip.d as nat);
                }
                v
            },
            Host::V6(ip) => ipv6_text_bytes(&ip),
        };
        proof {
            assert(out@ =~= host_text(self.ip));
            lemma_decimal(self.port as nat);
        }
        out.push(58);
        push_decimal(&mut out, self.port);
        assert(out@ =~= address_text(*self));
        out
    }

    /// This peer's token: standard padded base64 of `"<ip>:<port>"`, four
    /// characters per started group of three bytes. An IPv4 peer's token
    /// decodes back to the peer.
    pub fn id(&self) -> (r: String)
        ensures
            r@ == node_token(*self),
            base64_bytes(r@) == Some(address_text(*self)),
            r@.len() == 4 * ((address_text(*self).len() + 2) / 3),
            r@.len() > 0,
            r@.len() % 4 == 0,
            forall|i: int| 0 <= i < r@.len() ==> base64_char(#[trigger] r@[i]),
            self.ip is V4 ==> token_address(r@) == Some(*self),
    {
        let text = self.address_bytes();
        proof {
            if self.ip is V4 {
                lemma_address_text_parses(*self);
            }
        }
        base64_encode(&text)
    }

    /// The peer that a token stands for; `MalformedToken` when the text is
    /// not base64, its bytes are not UTF-8, it has no colon, or its host or
    /// port does not parse.
    pub fn from(id: String) -> (r: Result<Node, Error>)
        ensures
            r == match token_address(id@) {
                Some(n) => Ok::<Node, Error>(n),
                None => Err(Error::MalformedToken),
            },
    {
        let bytes = match base64_decode(id.as_str()) {
            Ok(b) => b,
            Err(_) => return Err(Error::MalformedToken),
        };
        if !is_utf8(&bytes) {
            return Err(Error::MalformedToken);
        }
        match parse_address_bytes(&bytes) {
            Some(n) => Ok(n),
            None => Err(Error::MalformedToken),
        }
    }
}

/// The dotted decimal address in `s`, if it is one.
pub fn parse_ipv4_bytes(s: &Vec<u8>) -> (r: Option<Ipv4>)
    ensures
        r == parse_ipv4(s@),
{
    let parts = split_bytes(s, 46);
    if parts.len() != 4 {
        return None;
    }
    let a = parse_octet_bytes(&parts[0]);
    let b = parse_octet_bytes(&parts[1]);
    let c = parse_octet_bytes(&parts[2]);
    let d = parse_octet_bytes(&parts[3]);
    match (a, b, c, d) {
        (Some(a), Some(b), Some(c), Some(d)) => Some(Ipv4 { a, b, c, d }),
        _ => None,
    }
}

/// The address in a token's decoded text, if it holds one.
pub fn parse_address_bytes(s: &Vec<u8>) -> (r: Option<Node>)
    ensures
        r == parse_address(s@),
{
    let parts = split_bytes(s, 58);
    if parts.len() < 2 {
        return None;
    }
    let ip = parse_ipv4_bytes(&parts[0]);
    let port = parse_port_bytes(&parts[1]);
    match (ip, port) {
        (Some(ip), Some(port)) => Some(Node { ip: Host::V4(ip), port }),
        _ => None,
    }
}

} // verus!
