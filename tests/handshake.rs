use p2pass::codec::{Error, Host, Ipv4, Node};
use p2pass::handshake::{
    integrity_reply_bytes, Initiator, InitiatorAction, InitiatorPhase, Responder, ResponderAction,
    ResponderPhase, CHUNK,
};

fn line(s: &[u8]) -> Vec<char> {
    String::from_utf8_lossy(s).chars().collect()
}

/// What one in-memory transfer ended with on both sides.
struct Run {
    delivered: Option<Vec<u8>>,
    initiator: InitiatorPhase,
    responder: ResponderPhase,
    error: Option<Error>,
}

/// Drives an initiator and a responder against each other, each write
/// arriving as one chunk; `tamper` may rewrite the responder's replies.
fn run(payload: &[u8], check_digest: bool, tamper: &dyn Fn(Vec<u8>) -> Vec<u8>) -> Run {
    let mut init = Initiator::new(payload.to_vec(), check_digest);
    let mut resp = Responder::new();
    let mut out = init.start();
    let mut delivered = None;
    let mut error = None;
    loop {
        let (bytes, last) = match out {
            InitiatorAction::Send(b) => (b, false),
            InitiatorAction::Finish(b) => (b, true),
            InitiatorAction::Fail(e) => {
                error = Some(e);
                break;
            }
        };
        match resp.receive(bytes) {
            ResponderAction::Reply(r) => {
                assert!(!last);
                out = init.on_line(line(&tamper(r)));
            }
            ResponderAction::Deliver(d) => {
                delivered = Some(d);
                break;
            }
            ResponderAction::Close => break,
            ResponderAction::Fail(e) => {
                error = Some(e);
                break;
            }
            ResponderAction::ReadMore => panic!("every frame here is short"),
        }
    }
    Run { delivered, initiator: init.phase, responder: resp.phase, error }
}

fn same(r: Vec<u8>) -> Vec<u8> {
    r
}

#[test]
fn test_send() {
    let node = Node::from("MTI3LjAuMC4xOjQwMjQ=".to_string()).unwrap();
    assert_eq!(node, Node::new(Host::V4(Ipv4::new(127, 0, 0, 1)), 4024));
    let r = run(b"Hello, world!\n", false, &same);
    assert_eq!(r.delivered, Some(b"Hello, world!\n".to_vec()));
    assert_eq!(r.initiator, InitiatorPhase::Confirmed);
}

#[test]
fn test_listen() {
    let node = Node::new(Host::V4(Ipv4::new(127, 0, 0, 1)), 4024);
    assert_eq!(node.id(), "MTI3LjAuMC4xOjQwMjQ=");
    let mut messages = vec![];
    for payload in [b"one".to_vec(), b"two".to_vec()] {
        let r = run(&payload, true, &same);
        if let Some(m) = r.delivered {
            messages.push(m);
        }
    }
    assert_eq!(messages, vec![b"one".to_vec(), b"two".to_vec()]);
}

#[test]
fn happy_path_delivers_exact_bytes() {
    let r = run(b"Hello, world!", false, &same);
    assert_eq!(r.delivered, Some(b"Hello, world!".to_vec()));
    assert_eq!(r.initiator, InitiatorPhase::Confirmed);
    assert_eq!(r.responder, ResponderPhase::Delivered);
    assert_eq!(r.error, None);
}

#[test]
fn happy_path_with_digest_check() {
    let r = run(b"Hello, world!", true, &same);
    assert_eq!(r.delivered, Some(b"Hello, world!".to_vec()));
    assert_eq!(r.initiator, InitiatorPhase::Confirmed);
}

#[test]
fn wrong_digest_is_withdrawn_without_delivery() {
    let forge = |r: Vec<u8>| if r.starts_with(b"ACK-") { b"ACK-0000\n".to_vec() } else { r };
    let r = run(b"Hello, world!", true, &forge);
    assert_eq!(r.delivered, None);
    assert_eq!(r.initiator, InitiatorPhase::Withdrawn);
    assert_eq!(r.responder, ResponderPhase::Rejected);
    assert_eq!(r.error, None);
}

#[test]
fn wrong_digest_is_ignored_without_check() {
    let forge = |r: Vec<u8>| if r.starts_with(b"ACK-") { b"ACK-0000\n".to_vec() } else { r };
    let r = run(b"Hello, world!", false, &forge);
    assert_eq!(r.delivered, Some(b"Hello, world!".to_vec()));
}

#[test]
fn err_frame_closes_without_delivery() {
    let mut resp = Responder::new();
    assert!(matches!(resp.receive(b"WAKEUP".to_vec()), ResponderAction::Reply(_)));
    assert!(matches!(resp.receive(b"payload".to_vec()), ResponderAction::Reply(_)));
    assert!(matches!(resp.receive(b"ERR".to_vec()), ResponderAction::Close));
    assert_eq!(resp.phase, ResponderPhase::Rejected);
    assert!(matches!(resp.receive(b"GOODBYE".to_vec()), ResponderAction::Close));
    assert_eq!(resp.phase, ResponderPhase::Rejected);
}

#[test]
fn hello_instead_of_wakeup_is_a_protocol_violation() {
    let mut resp = Responder::new();
    match resp.receive(b"HELLO".to_vec()) {
        ResponderAction::Fail(e) => assert_eq!(e, Error::ProtocolViolation),
        other => panic!("unexpected {:?}", other),
    }
    assert_eq!(resp.phase, ResponderPhase::Failed);
    assert!(matches!(resp.receive(b"GOODBYE".to_vec()), ResponderAction::Close));
    // another connection is untouched
    let r = run(b"still fine", false, &same);
    assert_eq!(r.delivered, Some(b"still fine".to_vec()));
}

#[test]
fn wakeup_with_newline_is_rejected() {
    let mut resp = Responder::new();
    assert!(matches!(resp.receive(b"WAKEUP\n".to_vec()), ResponderAction::Fail(Error::ProtocolViolation)));
}

#[test]
fn unknown_farewell_is_a_protocol_violation() {
    let mut resp = Responder::new();
    resp.receive(b"WAKEUP".to_vec());
    resp.receive(b"data".to_vec());
    assert!(matches!(resp.receive(b"BYE".to_vec()), ResponderAction::Fail(Error::ProtocolViolation)));
    assert_eq!(resp.phase, ResponderPhase::Failed);
}

#[test]
fn farewell_is_trimmed() {
    let mut resp = Responder::new();
    resp.receive(b"WAKEUP".to_vec());
    resp.receive(b"data".to_vec());
    match resp.receive(b"  GOODBYE\r\n".to_vec()) {
        ResponderAction::Deliver(d) => assert_eq!(d, b"data".to_vec()),
        other => panic!("unexpected {:?}", other),
    }
}

#[test]
fn payload_that_is_not_utf8_fails() {
    let mut resp = Responder::new();
    resp.receive(b"WAKEUP".to_vec());
    assert!(matches!(resp.receive(vec![0xff, 0xfe]), ResponderAction::Fail(Error::InvalidEncoding)));
    assert_eq!(resp.phase, ResponderPhase::Failed);
}

#[test]
fn full_chunks_keep_reading() {
    let mut resp = Responder::new();
    resp.receive(b"WAKEUP".to_vec());
    let big = vec![b'a'; CHUNK];
    assert!(matches!(resp.receive(big.clone()), ResponderAction::ReadMore));
    assert!(matches!(resp.receive(b"bc".to_vec()), ResponderAction::Reply(_)));
    let mut expected = big;
    expected.extend_from_slice(b"bc");
    assert_eq!(resp.payload, expected);
}

#[test]
fn wakeup_split_over_chunks() {
    let mut resp = Responder::new();
    let mut first = vec![b' '; CHUNK];
    first[0] = b'W';
    assert!(matches!(resp.receive(first), ResponderAction::ReadMore));
    assert!(matches!(resp.receive(Vec::new()), ResponderAction::Fail(Error::ProtocolViolation)));
}

#[test]
fn integrity_reply_carries_sha256_hex() {
    let r = integrity_reply_bytes(&b"Hello, world!".to_vec());
    assert_eq!(
        r,
        b"ACK-315f5bdb76d078c43b8ac0064e4a0164612b1fce77c869345bfc94c75894edd3\n".to_vec()
    );
}

#[test]
fn initiator_rejects_unexpected_first_reply() {
    let mut init = Initiator::new(b"x".to_vec(), false);
    assert!(matches!(init.start(), InitiatorAction::Send(ref w) if w == b"WAKEUP"));
    assert!(matches!(init.on_line(line(b"NAK\n")), InitiatorAction::Fail(Error::UnexpectedResponse)));
    assert_eq!(init.phase, InitiatorPhase::Failed);
}

#[test]
fn initiator_rejects_reply_without_ack_prefix() {
    let mut init = Initiator::new(b"x".to_vec(), false);
    init.start();
    assert!(matches!(init.on_line(line(b" ACK \n")), InitiatorAction::Send(ref p) if p == b"x"));
    assert!(matches!(init.on_line(line(b"ACK\n")), InitiatorAction::Fail(Error::UnexpectedResponse)));
}

#[test]
fn initiator_says_goodbye_after_digest() {
    let mut init = Initiator::new(b"x".to_vec(), false);
    init.start();
    init.on_line(line(b"ACK\n"));
    assert!(matches!(init.on_line(line(b"ACK-abc\n")), InitiatorAction::Finish(ref g) if g == b"GOODBYE"));
    assert_eq!(init.phase, InitiatorPhase::Confirmed);
}

#[test]
fn interleaved_transfers_deliver_each_payload_once() {
    let payloads: Vec<Vec<u8>> = (0..8).map(|i| format!("payload {}", i).into_bytes()).collect();
    let mut inits: Vec<Initiator> = payloads.iter().map(|p| Initiator::new(p.clone(), true)).collect();
    let mut resps: Vec<Responder> = payloads.iter().map(|_| Responder::new()).collect();
    let mut pending: Vec<Option<InitiatorAction>> = inits.iter_mut().map(|i| Some(i.start())).collect();
    let mut sink: Vec<Vec<u8>> = Vec::new();
    let mut live = payloads.len();
    while live > 0 {
        for k in (0..payloads.len()).rev() {
            let Some(action) = pending[k].take() else { continue };
            let bytes = match action {
                InitiatorAction::Send(b) | InitiatorAction::Finish(b) => b,
                InitiatorAction::Fail(e) => panic!("{:?}", e),
            };
            match resps[k].receive(bytes) {
                ResponderAction::Reply(r) => pending[k] = Some(inits[k].on_line(line(&r))),
                ResponderAction::Deliver(d) => {
                    sink.push(d);
                    live -= 1;
                }
                other => panic!("unexpected {:?}", other),
            }
        }
    }
    assert_eq!(sink.len(), payloads.len());
    let mut got = sink.clone();
    got.sort();
    let mut want = payloads.clone();
    want.sort();
    assert_eq!(got, want);
}
