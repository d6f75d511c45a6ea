//! The two roles of the payload handshake, as state machines. A transport
//! drives each one: it performs the action a step returns and hands the next
//! event back.
//!
//! Wire exchange, initiator first: `WAKEUP`; `ACK\n`; the payload bytes;
//! `ACK-<sha256 hex>\n`; `GOODBYE` (or `ERR` to withdraw). The responder
//! reads each of its frames in chunks of at most `CHUNK` bytes and takes a
//! chunk shorter than that as the end of the frame; a frame whose length is
//! a multiple of `CHUNK` therefore needs the peer to send more before the
//! responder moves on.

use vstd::prelude::*;
use vstd::utf8::valid_utf8;
use crate::codec::Error;
use crate::text::{
    chars_from, is_utf8, lossy_chars, lossy_utf8, spells, spells_range, trim, trimmed,
};

verus! {

/// The largest chunk the responder reads at once.
pub const CHUNK: usize = 1024;

pub open spec fn wakeup_frame() -> Seq<u8> {
    seq![87u8, 65, 75, 69, 85, 80]
}

pub open spec fn ack_word() -> Seq<u8> {
    seq![65u8, 67, 75]
}

pub open spec fn ack_line() -> Seq<u8> {
    seq![65u8, 67, 75, 10]
}

pub open spec fn ack_prefix() -> Seq<u8> {
    seq![65u8, 67, 75, 45]
}

pub open spec fn goodbye_frame() -> Seq<u8> {
    seq![71u8, 79, 79, 68, 66, 89, 69]
}

pub open spec fn err_frame() -> Seq<u8> {
    seq![69u8, 82, 82]
}

fn wakeup() -> (r: Vec<u8>)
    ensures
        r@ == wakeup_frame(),
{
    let r: Vec<u8> = vec![87, 65, 75, 69, 85, 80];
    assert(r@ =~= wakeup_frame());
    r
}

fn ack() -> (r: Vec<u8>)
    ensures
        r@ == ack_word(),
{
    let r: Vec<u8> = vec![65, 67, 75];
    assert(r@ =~= ack_word());
    r
}

fn goodbye() -> (r: Vec<u8>)
    ensures
        r@ == goodbye_frame(),
{
    let r: Vec<u8> = vec![71, 79, 79, 68, 66, 89, 69];
    assert(r@ =~= goodbye_frame());
    r
}

fn err() -> (r: Vec<u8>)
    ensures
        r@ == err_frame(),
{
    let r: Vec<u8> = vec![69, 82, 82];
    assert(r@ =~= err_frame());
    r
}

/// Lower-case hex SHA-256 digest of some bytes, as the `sha256` crate writes it.
pub uninterp spec fn sha256_hex(bytes: Seq<u8>) -> Seq<u8>;

/// Relies on `sha256::digest`: the hex text of the bytes' SHA-256 digest.
#[verifier::external_body]
fn sha256_digest(bytes: &Vec<u8>) -> (r: Vec<u8>)
    ensures
        r@ == sha256_hex(bytes@),
{
    sha256::digest(bytes).into_bytes()
}

/// The responder's reply once the payload is in: `ACK-<digest>\n`.
pub open spec fn integrity_reply(payload: Seq<u8>) -> Seq<u8> {
    ack_prefix() + sha256_hex(payload) + seq![10u8]
}

/// A chunk shorter than `CHUNK` ends the frame being read.
pub open spec fn ends_frame(chunk: Seq<u8>) -> bool {
    chunk.len() < CHUNK
}

/// The integrity reply for `payload`.
pub fn integrity_reply_bytes(payload: &Vec<u8>) -> (r: Vec<u8>)
    ensures
        r@ == integrity_reply(payload@),
{
    let digest = sha256_digest(payload);
    let mut r: Vec<u8> = vec![65, 67, 75, 45];
    let mut i: usize = 0;
    proof {
        assert(r@ =~= ack_prefix());
    }
    while i < digest.len()
        invariant
            i <= digest@.len(),
            r@ == ack_prefix() + digest@.subrange(0, i as int),
        decreases digest@.len() - i,
    {
        r.push(digest[i]);
        i = i + 1;
        proof {
            assert(r@ =~= ack_prefix() + digest@.subrange(0, i as int));
        }
    }
    r.push(10);
    proof {
        assert(digest@.subrange(0, i as int) =~= digest@);
        assert(r@ =~= integrity_reply(payload@));
    }
    r
}

/// Where a responder's connection stands.
#[derive(Clone, Copy, Debug, PartialEq, Eq, Structural)]
pub enum ResponderPhase {
    AwaitingWakeup,
    ReceivingPayload,
    AwaitingFarewell,
    /// The payload was handed on; terminal.
    Delivered,
    /// The initiator withdrew the payload; terminal.
    Rejected,
    /// The exchange broke off on an error; terminal.
    Failed,
}

/// What the transport does next for a responder.
#[derive(Debug)]
pub enum ResponderAction {
    /// Read the next chunk.
    ReadMore,
    /// Write these bytes, flush, then read the next chunk.
    Reply(Vec<u8>),
    /// Hand these bytes to the delivery sink, then close the connection.
    Deliver(Vec<u8>),
    /// Close the connection without delivering.
    Close,
    /// Report the error and close the connection.
    Fail(Error),
}

/// The responder's side of one connection.
pub struct Responder {
    pub phase: ResponderPhase,
    /// The control frame read so far, as text.
    pub frame: Vec<char>,
    /// The payload read so far.
    pub payload: Vec<u8>,
}

pub open spec fn terminal(p: ResponderPhase) -> bool {
    p is Delivered || p is Rejected || p is Failed
}

/// What one chunk does to a responder, and the action it asks for.
pub open spec fn receive_step(pre: Responder, post: Responder, chunk: Seq<u8>, a: ResponderAction) -> bool {
    match pre.phase {
        ResponderPhase::AwaitingWakeup => {
            let text = pre.frame@ + lossy_utf8(chunk);
            if !ends_frame(chunk) {
                &&& a is ReadMore
                &&& post.phase == pre.phase
                &&& post.frame@ == text
                &&& post.payload@ == pre.payload@
            } else if spells(text, wakeup_frame()) {
                &&& a is Reply && a->Reply_0@ == ack_line()
                &&& post.phase == ResponderPhase::ReceivingPayload
                &&& post.frame@.len() == 0
                &&& post.payload@ == pre.payload@
            } else {
                &&& a == ResponderAction::Fail(Error::ProtocolViolation)
                &&& post.phase == ResponderPhase::Failed
            }
        },
        ResponderPhase::ReceivingPayload => {
            let data = pre.payload@ + chunk;
            if !ends_frame(chunk) {
                &&& a is ReadMore
                &&& post.phase == pre.phase
                &&& post.frame@ == pre.frame@
                &&& post.payload@ == data
            } else if valid_utf8(data) {
                &&& a is Reply && a->Reply_0@ == integrity_reply(data)
                &&& post.phase == ResponderPhase::AwaitingFarewell
                &&& post.frame@.len() == 0
                &&& post.payload@ == data
            } else {
                &&& a == ResponderAction::Fail(Error::InvalidEncoding)
                &&& post.phase == ResponderPhase::Failed
            }
        },
        ResponderPhase::AwaitingFarewell => {
            let text = pre.frame@ + lossy_utf8(chunk);
            if !ends_frame(chunk) {
                &&& a is ReadMore
                &&& post.phase == pre.phase
                &&& post.frame@ == text
                &&& post.payload@ == pre.payload@
            } else if spells(trim(text), goodbye_frame()) {
                &&& a is Deliver && a->Deliver_0@ == pre.payload@
                &&& post.phase == ResponderPhase::Delivered
            } else if spells(trim(text), err_frame()) {
                &&& a is Close
                &&& post.phase == ResponderPhase::Rejected
            } else {
                &&& a == ResponderAction::Fail(Error::ProtocolViolation)
                &&& post.phase == ResponderPhase::Failed
            }
        },
        _ => {
            &&& a is Close
            &&& post.phase == pre.phase
            &&& post.frame@ == pre.frame@
            &&& post.payload@ == pre.payload@
        },
    }
}

/// A first frame other than `WAKEUP` ends the connection with a protocol
/// violation and delivers nothing.
pub proof fn lemma_bad_wakeup_fails(pre: Responder, post: Responder, chunk: Seq<u8>, a: ResponderAction)
    requires
        pre.phase == ResponderPhase::AwaitingWakeup,
        ends_frame(chunk),
        !spells(pre.frame@ + lossy_utf8(chunk), wakeup_frame()),
        receive_step(pre, post, chunk, a),
    ensures
        a == ResponderAction::Fail(Error::ProtocolViolation),
        !(a is Deliver),
        post.phase == ResponderPhase::Failed,
{
}

/// A closing `ERR` ends the connection without delivering the payload.
pub proof fn lemma_withdrawal_not_delivered(pre: Responder, post: Responder, chunk: Seq<u8>, a: ResponderAction)
    requires
        pre.phase == ResponderPhase::AwaitingFarewell,
        ends_frame(chunk),
        spells(trim(pre.frame@ + lossy_utf8(chunk)), err_frame()),
        receive_step(pre, post, chunk, a),
    ensures
        a is Close,
        !(a is Deliver),
        post.phase == ResponderPhase::Rejected,
{
    assert(goodbye_frame().len() != err_frame().len());
}

/// The only payload a responder hands on is the one it read, and only once:
/// a finished connection stays finished and delivers nothing more.
pub proof fn lemma_single_delivery(pre: Responder, post: Responder, chunk: Seq<u8>, a: ResponderAction)
    requires
        receive_step(pre, post, chunk, a),
    ensures
        a is Deliver ==> a->Deliver_0@ == pre.payload@ && pre.phase == ResponderPhase::AwaitingFarewell
            && post.phase == ResponderPhase::Delivered,
        terminal(pre.phase) ==> a is Close && post.phase == pre.phase,
{
}

/// An initiator that checks digests and is answered with a digest other
/// than its payload's withdraws with `ERR` and ends without a delivery.
pub proof fn lemma_mismatch_withdraws(pre: Initiator, post: Initiator, line: Seq<char>, a: InitiatorAction)
    requires
        pre.phase == InitiatorPhase::AwaitingIntegrityAck,
        pre.check_digest,
        acknowledges(line),
        !spells(carried_digest(line), sha256_hex(pre.payload@)),
        line_step(pre, post, line, a),
    ensures
        a is Finish && a->Finish_0@ == err_frame(),
        post.phase == InitiatorPhase::Withdrawn,
{
}

/// `states[i + 1]` and `actions[i]` are what `chunks[i]` did to `states[i]`.
pub open spec fn responder_run(states: Seq<Responder>, chunks: Seq<Seq<u8>>, actions: Seq<ResponderAction>) -> bool {
    &&& states.len() == chunks.len() + 1
    &&& actions.len() == chunks.len()
    &&& forall|i: int| 0 <= i < chunks.len() ==> receive_step(#[trigger] states[i], states[i + 1], chunks[i], actions[i])
}

proof fn lemma_stays_delivered(states: Seq<Responder>, chunks: Seq<Seq<u8>>, actions: Seq<ResponderAction>, i: int, k: int)
    requires
        responder_run(states, chunks, actions),
        0 <= i < k <= chunks.len(),
        states[i + 1].phase == ResponderPhase::Delivered,
    ensures
        states[k].phase == ResponderPhase::Delivered,
    decreases k - i,
{
    if k > i + 1 {
        lemma_stays_delivered(states, chunks, actions, i, k - 1);
        assert(receive_step(states[k - 1], states[k], chunks[k - 1], actions[k - 1]));
    }
}

/// Over any run of one connection, the payload is delivered at most once.
pub proof fn lemma_run_delivers_once(
    states: Seq<Responder>,
    chunks: Seq<Seq<u8>>,
    actions: Seq<ResponderAction>,
    i: int,
    j: int,
)
    requires
        responder_run(states, chunks, actions),
        0 <= i < j < actions.len(),
        actions[i] is Deliver,
    ensures
        !(actions[j] is Deliver),
{
    assert(receive_step(states[i], states[i + 1], chunks[i], actions[i]));
    lemma_stays_delivered(states, chunks, actions, i, j);
    assert(receive_step(states[j], states[j + 1], chunks[j], actions[j]));
}

/// A fresh responder that reads `WAKEUP`, then a UTF-8 payload `p`, then
/// `GOODBYE`, each as one short chunk, acknowledges twice and then delivers
/// exactly `p`.
pub proof fn lemma_happy_path(states: Seq<Responder>, chunks: Seq<Seq<u8>>, actions: Seq<ResponderAction>)
    requires
        responder_run(states, chunks, actions),
        chunks.len() == 3,
        states[0].phase == ResponderPhase::AwaitingWakeup,
        states[0].frame@.len() == 0,
        states[0].payload@.len() == 0,
        forall|i: int| 0 <= i < 3 ==> ends_frame(#[trigger] chunks[i]),
        spells(lossy_utf8(chunks[0]), wakeup_frame()),
        valid_utf8(chunks[1]),
        spells(trim(lossy_utf8(chunks[2])), goodbye_frame()),
    ensures
        actions[0] is Reply && actions[0]->Reply_0@ == ack_line(),
        actions[1] is Reply && actions[1]->Reply_0@ == integrity_reply(chunks[1]),
        actions[2] is Deliver && actions[2]->Deliver_0@ == chunks[1],
        states[3].phase == ResponderPhase::Delivered,
{
    assert(ends_frame(chunks[0]) && ends_frame(chunks[1]) && ends_frame(chunks[2]));
    assert(receive_step(states[0], states[1], chunks[0], actions[0]));
    assert(states[0].frame@ + lossy_utf8(chunks[0]) =~= lossy_utf8(chunks[0]));
    assert(receive_step(states[1], states[2], chunks[1], actions[1]));
    assert(states[1].payload@ + chunks[1] =~= chunks[1]);
    assert(receive_step(states[2], states[3], chunks[2], actions[2]));
    assert(states[2].frame@ + lossy_utf8(chunks[2]) =~= lossy_utf8(chunks[2]));
}

/// The same exchange closed with `ERR` instead: the responder acknowledges
/// twice, then closes in the `Rejected` phase and delivers nothing.
pub proof fn lemma_err_path(states: Seq<Responder>, chunks: Seq<Seq<u8>>, actions: Seq<ResponderAction>)
    requires
        responder_run(states, chunks, actions),
        chunks.len() == 3,
        states[0].phase == ResponderPhase::AwaitingWakeup,
        states[0].frame@.len() == 0,
        states[0].payload@.len() == 0,
        forall|i: int| 0 <= i < 3 ==> ends_frame(#[trigger] chunks[i]),
        spells(lossy_utf8(chunks[0]), wakeup_frame()),
        valid_utf8(chunks[1]),
        spells(trim(lossy_utf8(chunks[2])), err_frame()),
    ensures
        actions[0] is Reply,
        actions[1] is Reply,
        actions[2] is Close,
        forall|i: int| 0 <= i < 3 ==> !(#[trigger] actions[i] is Deliver),
        states[3].phase == ResponderPhase::Rejected,
{
    assert(ends_frame(chunks[0]) && ends_frame(chunks[1]) && ends_frame(chunks[2]));
    assert(receive_step(states[0], states[1], chunks[0], actions[0]));
    assert(states[0].frame@ + lossy_utf8(chunks[0]) =~= lossy_utf8(chunks[0]));
    assert(receive_step(states[1], states[2], chunks[1], actions[1]));
    assert(states[1].payload@ + chunks[1] =~= chunks[1]);
    assert(receive_step(states[2], states[3], chunks[2], actions[2]));
    assert(states[2].frame@ + lossy_utf8(chunks[2]) =~= lossy_utf8(chunks[2]));
    assert(goodbye_frame().len() != err_frame().len());
}

impl Responder {
    /// A responder for a freshly accepted connection.
    pub fn new() -> (r: Responder)
        ensures
            r.phase == ResponderPhase::AwaitingWakeup,
            r.frame@.len() == 0,
            r.payload@.len() == 0,
    {
        Responder { phase: ResponderPhase::AwaitingWakeup, frame: Vec::new(), payload: Vec::new() }
    }

    /// Takes the next chunk read from the connection.
    pub fn receive(&mut self, chunk: Vec<u8>) -> (a: ResponderAction)
        ensures
            receive_step(*old(self), *final(self), chunk@, a),
    {
        match self.phase {
            ResponderPhase::AwaitingWakeup => {
                let mut text = lossy_chars(&chunk);
                self.frame.append(&mut text);
                if chunk.len() >= CHUNK {
                    return ResponderAction::ReadMore;
                }
                let w = wakeup();
                if spells_range(&self.frame, 0, self.frame.len(), &w) {
                    proof {
                        assert(self.frame@.subrange(0, self.frame@.len() as int) =~= self.frame@);
                    }
                    self.frame = Vec::new();
                    self.phase = ResponderPhase::ReceivingPayload;
                    let r: Vec<u8> = vec![65, 67, 75, 10];
                    assert(r@ =~= ack_line());
                    ResponderAction::Reply(r)
                } else {
                    proof {
                        assert(self.frame@.subrange(0, self.frame@.len() as int) =~= self.frame@);
                    }
                    self.phase = ResponderPhase::Failed;
                    ResponderAction::Fail(Error::ProtocolViolation)
                }
            },
            ResponderPhase::ReceivingPayload => {
                let mut c = chunk.clone();
                self.payload.append(&mut c);
                if chunk.len() >= CHUNK {
                    return ResponderAction::ReadMore;
                }
                if is_utf8(&self.payload) {
                    let reply = integrity_reply_bytes(&self.payload);
                    self.frame = Vec::new();
                    self.phase = ResponderPhase::AwaitingFarewell;
                    ResponderAction::Reply(reply)
                } else {
                    self.phase = ResponderPhase::Failed;
                    ResponderAction::Fail(Error::InvalidEncoding)
                }
            },
            ResponderPhase::AwaitingFarewell => {
                let mut text = lossy_chars(&chunk);
                self.frame.append(&mut text);
                if chunk.len() >= CHUNK {
                    return ResponderAction::ReadMore;
                }
                let trimmed_frame = trimmed(&self.frame);
                let g = goodbye();
                let e = err();
                if spells_range(&trimmed_frame, 0, trimmed_frame.len(), &g) {
                    proof {
                        assert(trimmed_frame@.subrange(0, trimmed_frame@.len() as int) =~= trimmed_frame@);
                    }
                    self.phase = ResponderPhase::Delivered;
                    ResponderAction::Deliver(self.payload.clone())
                } else if spells_range(&trimmed_frame, 0, trimmed_frame.len(), &e) {
                    proof {
                        assert(trimmed_frame@.subrange(0, trimmed_frame@.len() as int) =~= trimmed_frame@);
                    }
                    self.phase = ResponderPhase::Rejected;
                    ResponderAction::Close
                } else {
                    proof {
                        assert(trimmed_frame@.subrange(0, trimmed_frame@.len() as int) =~= trimmed_frame@);
                    }
                    self.phase = ResponderPhase::Failed;
                    ResponderAction::Fail(Error::ProtocolViolation)
                }
            },
            _ => ResponderAction::Close,
        }
    }
}

/// Where an initiator's handshake stands.
#[derive(Clone, Copy, Debug, PartialEq, Eq, Structural)]
pub enum InitiatorPhase {
    Idle,
    AwaitingWakeupAck,
    AwaitingIntegrityAck,
    /// `GOODBYE` went out: the responder takes the payload; terminal.
    Confirmed,
    /// `ERR` went out: the digest did not match, nothing is delivered; terminal.
    Withdrawn,
    /// The exchange broke off on an error; terminal.
    Failed,
}

/// What the transport does next for an initiator.
#[derive(Debug)]
pub enum InitiatorAction {
    /// Write these bytes, flush, then read one line and hand it back.
    Send(Vec<u8>),
    /// Write these bytes, flush, then shut the connection down both ways.
    Finish(Vec<u8>),
    /// Report the error and drop the connection.
    Fail(Error),
}

/// The initiator's side of one transfer.
pub struct Initiator {
    pub phase: InitiatorPhase,
    pub payload: Vec<u8>,
    /// Whether the digest in the responder's `ACK-<digest>` is compared with
    /// the payload's own; a mismatch withdraws the payload with `ERR`.
    pub check_digest: bool,
}

/// The line starts with `ACK-`.
pub open spec fn acknowledges(line: Seq<char>) -> bool {
    line.len() >= 4 && spells(line.subrange(0, 4), ack_prefix())
}

/// The digest that an `ACK-<digest>` line carries, white space trimmed.
pub open spec fn carried_digest(line: Seq<char>) -> Seq<char> {
    trim(line.subrange(4, line.len() as int))
}

/// What one line from the responder does to an initiator, and the action it
/// asks for.
pub open spec fn line_step(pre: Initiator, post: Initiator, line: Seq<char>, a: InitiatorAction) -> bool {
    &&& post.payload@ == pre.payload@
    &&& post.check_digest == pre.check_digest
    &&& if pre.phase is AwaitingWakeupAck {
        if spells(trim(line), ack_word()) {
            &&& a is Send && a->Send_0@ == pre.payload@
            &&& post.phase == InitiatorPhase::AwaitingIntegrityAck
        } else {
            &&& a == InitiatorAction::Fail(Error::UnexpectedResponse)
            &&& post.phase == InitiatorPhase::Failed
        }
    } else {
        if !acknowledges(line) {
            &&& a == InitiatorAction::Fail(Error::UnexpectedResponse)
            &&& post.phase == InitiatorPhase::Failed
        } else if !pre.check_digest || spells(carried_digest(line), sha256_hex(pre.payload@)) {
            &&& a is Finish && a->Finish_0@ == goodbye_frame()
            &&& post.phase == InitiatorPhase::Confirmed
        } else {
            &&& a is Finish && a->Finish_0@ == err_frame()
            &&& post.phase == InitiatorPhase::Withdrawn
        }
    }
}

impl Initiator {
    /// An initiator that will transfer `payload`.
    pub fn new(payload: Vec<u8>, check_digest: bool) -> (r: Initiator)
        ensures
            r.phase == InitiatorPhase::Idle,
            r.payload@ == payload@,
            r.check_digest == check_digest,
    {
        Initiator { phase: InitiatorPhase::Idle, payload, check_digest }
    }

    /// Opens the exchange, once the connection is up: send `WAKEUP`.
    pub fn start(&mut self) -> (a: InitiatorAction)
        requires
            old(self).phase == InitiatorPhase::Idle,
        ensures
            a is Send && a->Send_0@ == wakeup_frame(),
            final(self).phase == InitiatorPhase::AwaitingWakeupAck,
            final(self).payload@ == old(self).payload@,
            final(self).check_digest == old(self).check_digest,
    {
        self.phase = InitiatorPhase::AwaitingWakeupAck;
        InitiatorAction::Send(wakeup())
    }

    /// Takes the line that the responder answered with.
    pub fn on_line(&mut self, line: Vec<char>) -> (a: InitiatorAction)
        requires
            old(self).phase is AwaitingWakeupAck || old(self).phase is AwaitingIntegrityAck,
        ensures
            line_step(*old(self), *final(self), line@, a),
    {
        if self.phase == InitiatorPhase::AwaitingWakeupAck {
            let t = trimmed(&line);
            let w = ack();
            let ok = spells_range(&t, 0, t.len(), &w);
            proof {
                assert(t@.subrange(0, t@.len() as int) =~= t@);
            }
            if ok {
                self.phase = InitiatorPhase::AwaitingIntegrityAck;
                InitiatorAction::Send(self.payload.clone())
            } else {
                self.phase = InitiatorPhase::Failed;
                InitiatorAction::Fail(Error::UnexpectedResponse)
            }
        } else {
            let prefix: Vec<u8> = vec![65, 67, 75, 45];
            assert(prefix@ =~= ack_prefix());
            if line.len() < 4 || !spells_range(&line, 0, 4, &prefix) {
                self.phase = InitiatorPhase::Failed;
                return InitiatorAction::Fail(Error::UnexpectedResponse);
            }
            if !self.check_digest {
                self.phase = InitiatorPhase::Confirmed;
                return InitiatorAction::Finish(goodbye());
            }
            let digest = sha256_digest(&self.payload);
            let rest = chars_from(&line, 4);
            let carried = trimmed(&rest);
            let matches = spells_range(&carried, 0, carried.len(), &digest);
            proof {
                assert(carried@.subrange(0, carried@.len() as int) =~= carried@);
            }
            if matches {
                self.phase = InitiatorPhase::Confirmed;
                InitiatorAction::Finish(goodbye())
            } else {
                self.phase = InitiatorPhase::Withdrawn;
                InitiatorAction::Finish(err())
            }
        }
    }
}

} // verus!
