//! The per-connection TCP state machine: segment acceptance under wrapping
//! 32-bit sequence arithmetic, the handshake, ACK processing, data delivery,
//! retransmission and the active close. Each operation is specified by a
//! spec function over [`ConnView`], the abstract value of a connection.

use std::collections::VecDeque;
use vstd::prelude::*;

use crate::TcpError;
use crate::wire::{encode_frame, tcp_frame, Ipv4Info, SegmentHeader, TcpHeaderFields, MAX_SEGMENT_DATA};

verus! {

/// Size of the 32-bit sequence number space.
pub open spec fn seq_space() -> int {
    0x1_0000_0000
}

/// Half of the sequence number space.
pub open spec fn seq_half() -> int {
    0x8000_0000
}

/// `a + d` on the sequence ring.
pub open spec fn seq_add(a: u32, d: u32) -> u32 {
    if a + d < seq_space() {
        (a + d) as u32
    } else {
        (a + d - seq_space()) as u32
    }
}

/// `a - d` on the sequence ring.
pub open spec fn seq_sub(a: u32, d: u32) -> u32 {
    if a >= d {
        (a - d) as u32
    } else {
        (a - d + seq_space()) as u32
    }
}

#[verifier::opaque]
/// The wrapping order of RFC 1323: `a` comes before `b` iff
/// `(a - b) mod 2^32 > 2^31`.
pub open spec fn seq_lt(a: u32, b: u32) -> bool {
    (a as int - b as int) % seq_space() > seq_half()
}

/// `start < x < end` in the wrapping order.
pub open spec fn seq_between(start: u32, x: u32, end: u32) -> bool {
    seq_lt(start, x) && seq_lt(x, end)
}

/// Wrapping "less than" on sequence numbers.
pub fn wrapping_lt(lhs: u32, rhs: u32) -> (r: bool)
    ensures
        r == seq_lt(lhs, rhs),
{
    proof {
        reveal(seq_lt);
    }
    lhs.wrapping_sub(rhs) > 0x8000_0000u32
}

/// Whether `x` lies strictly between `start` and `end` in the wrapping order.
pub fn is_between_wrapped(start: u32, x: u32, end: u32) -> (r: bool)
    ensures
        r == seq_between(start, x, end),
{
    wrapping_lt(start, x) && wrapping_lt(x, end)
}

/// The acceptance test of RFC 793 section 3.3 for a segment that starts at
/// `seq` and occupies `slen` sequence numbers, against the receive window
/// that starts at `nxt` and is `wnd` wide.
pub open spec fn segment_ok(nxt: u32, wnd: u32, seq: u32, slen: u32) -> bool {
    let wend = seq_add(nxt, wnd);
    let before = seq_sub(nxt, 1);
    if slen == 0 {
        if wnd == 0 {
            seq == nxt
        } else {
            seq_between(before, seq, wend)
        }
    } else if wnd == 0 {
        false
    } else {
        seq_between(before, seq, wend) || seq_between(before, seq_add(seq, (slen - 1) as u32), wend)
    }
}

/// Decides whether a segment is acceptable; see [`segment_ok`].
pub fn segment_acceptable(nxt: u32, wnd: u32, seq: u32, slen: u32) -> (r: bool)
    ensures
        r == segment_ok(nxt, wnd, seq, slen),
{
    let wend = nxt.wrapping_add(wnd);
    let before = nxt.wrapping_sub(1);
    if slen == 0 {
        if wnd == 0 {
            seq == nxt
        } else {
            is_between_wrapped(before, seq, wend)
        }
    } else if wnd == 0 {
        false
    } else {
        is_between_wrapped(before, seq, wend) || is_between_wrapped(
            before,
            seq.wrapping_add(slen - 1),
            wend,
        )
    }
}


/// Which local operations would not block right now.
#[derive(Clone, Copy, Debug, PartialEq, Eq, Structural)]
pub struct Available {
    pub read: bool,
    pub write: bool,
}

/// The states of a connection that this endpoint implements.
#[derive(Clone, Copy, Debug, PartialEq, Eq, Structural)]
pub enum State {
    SyncRcvd,
    Estab,
    FinWait1,
    FinWait2,
    TimeWait,
}

impl State {
    /// Whether the handshake has completed.
    pub fn is_synchronized(&self) -> (r: bool)
        ensures
            r == (*self != State::SyncRcvd),
    {
        match *self {
            State::SyncRcvd => false,
            State::Estab | State::FinWait1 | State::FinWait2 | State::TimeWait => true,
        }
    }
}

/// One end of a connection: an IPv4 address (as a big-endian integer) and a
/// port.
#[derive(Clone, Copy, Debug, PartialEq, Eq, Structural, Hash)]
pub struct Endpoint {
    pub addr: u32,
    pub port: u16,
}

/// The connection identifier: the remote end as source, the local end as
/// destination, as they appear on incoming segments.
#[derive(Clone, Copy, Debug, PartialEq, Eq, Structural, Hash)]
pub struct Quad {
    pub src: Endpoint,
    pub dst: Endpoint,
}

/// Send sequence space (RFC 793 section 3.2).
#[derive(Clone, Copy, Debug, PartialEq, Eq, Structural)]
pub struct SendSequenceSpace {
    /// send unacknowledged
    pub una: u32,
    /// send next
    pub nxt: u32,
    /// send window
    pub wnd: u32,
    /// send urgent pointer
    pub up: bool,
    /// segment sequence number used for last window update
    pub wl1: u32,
    /// segment acknowledgment number used for last window update
    pub wl2: u32,
    /// initial send sequence number
    pub iss: u32,
}

/// Receive sequence space (RFC 793 section 3.2).
#[derive(Clone, Copy, Debug, PartialEq, Eq, Structural)]
pub struct RecvSequenceSpace {
    /// receive next
    pub nxt: u32,
    /// receive window
    pub wnd: u32,
    /// receive urgent pointer
    pub up: bool,
    /// initial receive sequence number
    pub irs: u32,
}

/// The IPv4 header fields that every emitted segment carries.
#[derive(Clone, Copy, Debug, PartialEq, Eq, Structural)]
pub struct IpPrototype {
    pub source: u32,
    pub destination: u32,
    pub time_to_live: u8,
}

/// The TCP header fields that every emitted segment carries; `syn` and `fin`
/// are raised just before the segment that should carry them.
#[derive(Clone, Copy, Debug, PartialEq, Eq, Structural)]
pub struct TcpPrototype {
    pub source_port: u16,
    pub destination_port: u16,
    pub window_size: u16,
    pub syn: bool,
    pub ack: bool,
    pub fin: bool,
    pub rst: bool,
}

/// Retransmission timing: the instant (in nanoseconds) at which each segment
/// was last emitted, keyed by its first sequence number, and the smoothed
/// round-trip time in nanoseconds.
pub struct Timers {
    send_times: Vec<(u32, u64)>,
    srtt: u64,
}

/// One TCP connection.
pub struct Connection {
    send: SendSequenceSpace,
    recv: RecvSequenceSpace,
    ip: IpPrototype,
    tcp: TcpPrototype,
    timer: Timers,
    state: State,
    closed: bool,
    incoming: VecDeque<u8>,
    unacked: VecDeque<u8>,
    /// sequence number of our FIN, once it has been emitted
    closed_at: Option<u32>,
}

/// The abstract value of a connection.
pub struct ConnView {
    pub state: State,
    pub send: SendSequenceSpace,
    pub recv: RecvSequenceSpace,
    pub ip: IpPrototype,
    pub tcp: TcpPrototype,
    pub send_times: Seq<(u32, u64)>,
    pub srtt: u64,
    pub closed: bool,
    pub incoming: Seq<u8>,
    pub unacked: Seq<u8>,
    pub closed_at: Option<u32>,
}

impl View for Connection {
    type V = ConnView;

    closed spec fn view(&self) -> ConnView {
        ConnView {
            state: self.state,
            send: self.send,
            recv: self.recv,
            ip: self.ip,
            tcp: self.tcp,
            send_times: self.timer.send_times@,
            srtt: self.timer.srtt,
            closed: self.closed,
            incoming: self.incoming@,
            unacked: self.unacked@,
            closed_at: self.closed_at,
        }
    }
}

/// The frames in `out`, as byte sequences.
pub open spec fn frames(out: Seq<Vec<u8>>) -> Seq<Seq<u8>> {
    out.map_values(|f: Vec<u8>| f@)
}

pub open spec fn min(a: int, b: int) -> int {
    if a <= b {
        a
    } else {
        b
    }
}

/// The part of `payload` that one segment carries.
pub open spec fn segment_data(payload: Seq<u8>) -> Seq<u8> {
    payload.take(min(payload.len() as int, MAX_SEGMENT_DATA as int))
}

/// The datagram that emitting `payload` at `seqn` from `c` produces.
pub open spec fn segment_frame(c: ConnView, seqn: u32, payload: Seq<u8>) -> Seq<u8> {
    tcp_frame(
        c.ip.source,
        c.ip.destination,
        c.ip.time_to_live,
        c.tcp.source_port,
        c.tcp.destination_port,
        seqn,
        c.recv.nxt,
        c.tcp.syn,
        c.tcp.ack,
        c.tcp.fin,
        c.tcp.rst,
        c.tcp.window_size,
        segment_data(payload),
    )
}

/// `i` is the first position of `s` whose key is at least `k` (or the
/// length of `s` if there is none).
pub open spec fn first_at_or_above(s: Seq<(u32, u64)>, k: u32, i: int) -> bool {
    &&& 0 <= i <= s.len()
    &&& forall|j: int| 0 <= j < i ==> s[j].0 < k
    &&& i < s.len() ==> s[i].0 >= k
}

/// The position where key `k` belongs in `s`.
pub open spec fn key_position(s: Seq<(u32, u64)>, k: u32) -> int {
    choose|i: int| first_at_or_above(s, k, i)
}

/// `s` with the time of key `k` set to `t`: an entry with key `k` at the
/// position where `k` belongs is overwritten, else one is inserted there.
pub open spec fn times_insert(s: Seq<(u32, u64)>, k: u32, t: u64) -> Seq<(u32, u64)> {
    let i = key_position(s, k);
    if i < s.len() && s[i].0 == k {
        s.update(i, (k, t))
    } else {
        s.insert(i, (k, t))
    }
}

/// The time recorded for the first key at or above `k`, if any.
pub open spec fn time_from(s: Seq<(u32, u64)>, k: u32) -> Option<u64> {
    let i = key_position(s, k);
    if i < s.len() {
        Some(s[i].1)
    } else {
        None
    }
}

pub proof fn lemma_first_at_or_above_unique(s: Seq<(u32, u64)>, k: u32, i: int, j: int)
    requires
        first_at_or_above(s, k, i),
        first_at_or_above(s, k, j),
    ensures
        i == j,
{
    if i < j {
        assert(s[i].0 < k);
    } else if j < i {
        assert(s[j].0 < k);
    }
}

/// The state after emitting `payload` at `seqn` from `c` at time `now`:
/// `syn` and `fin` each take a sequence number and are lowered, `send.nxt`
/// moves past the data sent, and the emission time is recorded.
pub open spec fn after_send(c: ConnView, seqn: u32, payload: Seq<u8>, now: u64) -> ConnView {
    let n = segment_data(payload).len();
    let next_seq = seq_add(seqn, n as u32);
    let nxt1 = if c.tcp.syn { seq_add(c.send.nxt, 1) } else { c.send.nxt };
    let nxt2 = if c.tcp.fin { seq_add(nxt1, 1) } else { nxt1 };
    let nxt3 = if seq_lt(nxt2, next_seq) { next_seq } else { nxt2 };
    ConnView {
        send: SendSequenceSpace { nxt: nxt3, ..c.send },
        tcp: TcpPrototype { syn: false, fin: false, ..c.tcp },
        send_times: times_insert(c.send_times, seqn, now),
        ..c
    }
}

/// Number of sequence numbers a segment occupies: its payload, plus one
/// each for SYN and FIN.
pub open spec fn seg_len(h: TcpHeaderFields, data: Seq<u8>) -> int {
    data.len() + (if h.fin { 1int } else { 0 }) + (if h.syn { 1int } else { 0 })
}

/// `una <= k < ack` in the wrapping order.
pub open spec fn newly_acked(una: u32, k: u32, ack: u32) -> bool {
    seq_between(seq_sub(una, 1), k, ack)
}

/// The smoothed round-trip time after a segment sent at `sent` is
/// acknowledged at `now`: `(8 * srtt + 2 * sample) / 10`.
pub open spec fn rtt_update(srtt: u64, now: u64, sent: u64) -> u64 {
    let sample = if now >= sent { now - sent } else { 0 };
    ((8 * srtt + 2 * sample) / 10) as u64
}

/// Going through the send times in order, each entry with a key in
/// `[una, ack)` updates the round-trip estimate and is removed; the others
/// stay. Gives the remaining entries and the final estimate.
pub open spec fn prune_times(s: Seq<(u32, u64)>, una: u32, ack: u32, srtt: u64, now: u64) -> (Seq<(u32, u64)>, u64)
    decreases s.len(),
{
    if s.len() == 0 {
        (s, srtt)
    } else {
        let (kept, est) = prune_times(s.drop_last(), una, ack, srtt, now);
        let e = s.last();
        if newly_acked(una, e.0, ack) {
            (kept, rtt_update(est, now, e.1))
        } else {
            (kept.push(e), est)
        }
    }
}

/// Where the bytes of `unacked` start in the sequence space: one past
/// `una` while our SYN is unacknowledged, else `una`.
pub open spec fn data_start(send: SendSequenceSpace) -> u32 {
    if send.una == send.iss {
        seq_add(send.una, 1)
    } else {
        send.una
    }
}

/// How many bytes at the head of `unacked` an acknowledgment of `ack` covers.
pub open spec fn acked_len(c: ConnView, ack: u32) -> int {
    min(c.unacked.len() as int, seq_sub(ack, data_start(c.send)) as int)
}

/// Whether `state` processes acknowledgments and data.
pub open spec fn receiving(state: State) -> bool {
    state == State::Estab || state == State::FinWait1 || state == State::FinWait2
}

/// An acknowledgment that completes the handshake: `una - 1 < ack <= nxt`.
pub open spec fn handshake_ack(c: ConnView, ack: u32) -> bool {
    seq_between(seq_sub(c.send.una, 1), ack, seq_add(c.send.nxt, 1))
}

/// An acknowledgment that ACK processing takes: `una <= ack <= nxt + 1`.
pub open spec fn ack_in_range(c: ConnView, ack: u32) -> bool {
    seq_between(seq_sub(c.send.una, 1), ack, seq_add(c.send.nxt, 2))
}

/// SYN-RECEIVED becomes ESTABLISHED on an acknowledgment of our SYN.
pub open spec fn step_handshake(c: ConnView, ack: u32) -> ConnView {
    if c.state == State::SyncRcvd && handshake_ack(c, ack) {
        ConnView { state: State::Estab, ..c }
    } else {
        c
    }
}

/// ACK processing: drop the acknowledged bytes, update the round-trip
/// estimate from the acknowledged send times, move `una` to `ack`.
pub open spec fn step_ack(c: ConnView, ack: u32, now: u64) -> ConnView {
    if receiving(c.state) && ack_in_range(c, ack) {
        let (kept, est) = prune_times(c.send_times, c.send.una, ack, c.srtt, now);
        ConnView {
            unacked: c.unacked.skip(acked_len(c, ack)),
            send_times: kept,
            srtt: est,
            send: SendSequenceSpace { una: ack, ..c.send },
            ..c
        }
    } else {
        c
    }
}

/// FIN-WAIT-1 becomes FIN-WAIT-2 once our FIN is acknowledged.
pub open spec fn step_fin_acked(c: ConnView) -> ConnView {
    if c.state == State::FinWait1 && c.closed_at.is_some() && c.send.una == seq_add(
        c.closed_at.unwrap(),
        1,
    ) {
        ConnView { state: State::FinWait2, ..c }
    } else {
        c
    }
}

/// Where in a payload of `len` bytes at `seq` the undelivered bytes start:
/// `recv.nxt - seq`, or 0 for a segment that ends one past `recv.nxt`
/// (a retransmitted FIN), or -1 when the payload lies ahead of `recv.nxt`.
pub open spec fn unread_at(c: ConnView, seq: u32, len: int) -> int {
    let skip = seq_sub(c.recv.nxt, seq) as int;
    if skip <= len {
        skip
    } else if skip == len + 1 {
        0
    } else {
        -1
    }
}

/// The state after data delivery, before the acknowledgment is emitted.
pub open spec fn delivered(c: ConnView, h: TcpHeaderFields, data: Seq<u8>) -> ConnView {
    let skip = unread_at(c, h.sequence_number, data.len() as int);
    if skip < 0 {
        c
    } else {
        ConnView {
            incoming: c.incoming + data.skip(skip),
            recv: RecvSequenceSpace {
                nxt: seq_add(
                    seq_add(c.recv.nxt, (data.len() - skip) as u32),
                    if h.fin { 1 } else { 0 },
                ),
                ..c.recv
            },
            ..c
        }
    }
}

/// Whether data delivery runs for this segment.
pub open spec fn delivers(c: ConnView, data: Seq<u8>) -> bool {
    data.len() > 0 && receiving(c.state)
}

/// Data delivery followed by its acknowledgment.
pub open spec fn step_data(c: ConnView, h: TcpHeaderFields, data: Seq<u8>, now: u64) -> ConnView {
    if delivers(c, data) {
        let d = delivered(c, h, data);
        after_send(d, d.send.nxt, Seq::empty(), now)
    } else {
        c
    }
}

pub open spec fn step_data_frames(c: ConnView, h: TcpHeaderFields, data: Seq<u8>) -> Seq<Seq<u8>> {
    if delivers(c, data) {
        let d = delivered(c, h, data);
        seq![segment_frame(d, d.send.nxt, Seq::empty())]
    } else {
        Seq::empty()
    }
}

/// Whether the peer's FIN ends FIN-WAIT-2.
pub open spec fn closes(c: ConnView, h: TcpHeaderFields) -> bool {
    c.state == State::FinWait2 && h.fin
}

/// The state after the peer's FIN in FIN-WAIT-2, before the final ACK.
pub open spec fn fin_received(c: ConnView) -> ConnView {
    ConnView { recv: RecvSequenceSpace { nxt: seq_add(c.recv.nxt, 1), ..c.recv }, ..c }
}

/// FIN-WAIT-2 and a FIN: acknowledge it and enter TIME-WAIT.
pub open spec fn step_close(c: ConnView, h: TcpHeaderFields, now: u64) -> ConnView {
    if closes(c, h) {
        let d = fin_received(c);
        ConnView { state: State::TimeWait, ..after_send(d, d.send.nxt, Seq::empty(), now) }
    } else {
        c
    }
}

pub open spec fn step_close_frames(c: ConnView, h: TcpHeaderFields) -> Seq<Seq<u8>> {
    if closes(c, h) {
        let d = fin_received(c);
        seq![segment_frame(d, d.send.nxt, Seq::empty())]
    } else {
        Seq::empty()
    }
}

/// Whether the acceptance test passes for this segment.
pub open spec fn acceptable(c: ConnView, h: TcpHeaderFields, data: Seq<u8>) -> bool {
    segment_ok(c.recv.nxt, c.recv.wnd, h.sequence_number, seg_len(h, data) as u32)
}

/// The state after the ACK-related steps of an acceptable segment with ACK.
pub open spec fn acked_state(c: ConnView, h: TcpHeaderFields, now: u64) -> ConnView {
    step_fin_acked(step_ack(step_handshake(c, h.acknowledgment_number), h.acknowledgment_number, now))
}

/// The state after a segment `h` with payload `data` arrives at `now`.
pub open spec fn on_packet_view(c: ConnView, h: TcpHeaderFields, data: Seq<u8>, now: u64) -> ConnView {
    if !acceptable(c, h, data) {
        after_send(c, c.send.nxt, Seq::empty(), now)
    } else if !h.ack {
        let nxt = if h.syn {
            seq_add(h.sequence_number, 1)
        } else {
            seq_add(c.recv.nxt, seg_len(h, data) as u32)
        };
        ConnView { recv: RecvSequenceSpace { nxt, ..c.recv }, ..c }
    } else {
        let a = acked_state(c, h, now);
        step_close(step_data(a, h, data, now), h, now)
    }
}

/// The datagrams emitted while a segment `h` with payload `data` is processed.
pub open spec fn on_packet_frames(c: ConnView, h: TcpHeaderFields, data: Seq<u8>, now: u64) -> Seq<Seq<u8>> {
    if !acceptable(c, h, data) {
        seq![segment_frame(c, c.send.nxt, Seq::empty())]
    } else if !h.ack {
        Seq::empty()
    } else {
        let a = acked_state(c, h, now);
        step_data_frames(a, h, data) + step_close_frames(step_data(a, h, data, now), h)
    }
}

/// READ iff there are bytes to read or the receive side is closed; WRITE is
/// not reported.
pub open spec fn availability_of(c: ConnView) -> Available {
    Available { read: c.incoming.len() > 0 || c.state == State::TimeWait, write: false }
}

/// One second, in nanoseconds.
pub const SECOND: u64 = 1_000_000_000;

/// Sequence numbers sent and not yet acknowledged: `nxt - una`.
pub open spec fn in_flight(c: ConnView) -> int {
    seq_sub(c.send.nxt, c.send.una) as int
}

/// Queued bytes not yet sent: `|unacked| - (nxt - una)`, or 0 when more is
/// in flight than queued (a SYN or FIN takes a sequence number of its own).
pub open spec fn unsent_len(c: ConnView) -> int {
    if c.unacked.len() >= in_flight(c) {
        c.unacked.len() - in_flight(c)
    } else {
        0
    }
}

/// How long ago the first segment at or after `una` was emitted.
pub open spec fn waited(c: ConnView, now: u64) -> Option<u64> {
    match time_from(c.send_times, c.send.una) {
        Some(t) => Some(if now >= t { (now - t) as u64 } else { 0 }),
        None => None,
    }
}

/// The retransmission timer has expired: more than one second and more
/// than `1.5 * srtt` have passed.
pub open spec fn should_retransmit(c: ConnView, now: u64) -> bool {
    match waited(c, now) {
        Some(w) => w > SECOND && w > (15 * c.srtt) / 10,
        None => false,
    }
}

/// Bytes a retransmission sends again: `min(|unacked|, wnd)`.
pub open spec fn resend_len(c: ConnView) -> int {
    min(c.unacked.len() as int, c.send.wnd as int)
}

/// Room left in the send window: `wnd - (nxt - una)`, or 0.
pub open spec fn allowed(c: ConnView) -> int {
    if c.send.wnd >= in_flight(c) {
        c.send.wnd - in_flight(c)
    } else {
        0
    }
}

/// Bytes the tick sends for the first time: `min(unsent, allowed)`.
pub open spec fn fresh_len(c: ConnView) -> int {
    min(unsent_len(c), allowed(c))
}

/// The state before a retransmission is emitted: the FIN goes along when
/// the connection is closed and the window has room for it.
pub open spec fn retransmit_prep(c: ConnView) -> ConnView {
    if resend_len(c) < c.send.wnd && c.closed {
        ConnView {
            tcp: TcpPrototype { fin: true, ..c.tcp },
            closed_at: Some(seq_add(c.send.una, c.unacked.len() as u32)),
            ..c
        }
    } else {
        c
    }
}

/// The state before fresh data is emitted: the FIN goes along, once, when
/// the connection is closed and all queued data fits the window.
pub open spec fn fresh_prep(c: ConnView) -> ConnView {
    if fresh_len(c) < allowed(c) && c.closed && c.closed_at.is_none() {
        ConnView {
            tcp: TcpPrototype { fin: true, ..c.tcp },
            closed_at: Some(seq_add(c.send.nxt, unsent_len(c) as u32)),
            ..c
        }
    } else {
        c
    }
}

/// The bytes that a tick sends for the first time.
pub open spec fn fresh_payload(c: ConnView) -> Seq<u8> {
    if fresh_len(c) == 0 {
        Seq::empty()
    } else {
        c.unacked.subrange(in_flight(c), in_flight(c) + fresh_len(c))
    }
}

/// A tick that emits nothing: in FIN-WAIT-2 or TIME-WAIT, or with nothing
/// to retransmit and either nothing left to send after our FIN or no room
/// in the window.
pub open spec fn tick_idle(c: ConnView, now: u64) -> bool {
    ||| c.state == State::FinWait2
    ||| c.state == State::TimeWait
    ||| !should_retransmit(c, now) && (unsent_len(c) == 0 && c.closed_at.is_some() || allowed(c) == 0)
}

/// The state after a timer tick at `now`.
pub open spec fn on_tick_view(c: ConnView, now: u64) -> ConnView {
    if tick_idle(c, now) {
        c
    } else if should_retransmit(c, now) {
        let p = retransmit_prep(c);
        let d = after_send(p, c.send.una, c.unacked.take(resend_len(c)), now);
        ConnView { send: SendSequenceSpace { nxt: seq_add(c.send.una, c.send.wnd), ..d.send }, ..d }
    } else {
        after_send(fresh_prep(c), c.send.nxt, fresh_payload(c), now)
    }
}

/// The datagrams a timer tick at `now` emits.
pub open spec fn on_tick_frames(c: ConnView, now: u64) -> Seq<Seq<u8>> {
    if tick_idle(c, now) {
        Seq::empty()
    } else if should_retransmit(c, now) {
        seq![segment_frame(retransmit_prep(c), c.send.una, c.unacked.take(resend_len(c)))]
    } else {
        seq![segment_frame(fresh_prep(c), c.send.nxt, fresh_payload(c))]
    }
}

/// The state after `close`: closed, and SYN-RECEIVED or ESTABLISHED move to
/// FIN-WAIT-1.
pub open spec fn closed_view(c: ConnView) -> ConnView {
    ConnView {
        closed: true,
        state: if c.state == State::SyncRcvd || c.state == State::Estab {
            State::FinWait1
        } else {
            c.state
        },
        ..c
    }
}

/// The state with RST raised on the header prototype.
pub open spec fn reset_prep(c: ConnView) -> ConnView {
    ConnView { tcp: TcpPrototype { rst: true, ..c.tcp }, ..c }
}

/// Copies `q[from..to]`.
fn copy_range(q: &VecDeque<u8>, from: usize, to: usize) -> (r: Vec<u8>)
    requires
        from <= to <= q@.len(),
    ensures
        r@ == q@.subrange(from as int, to as int),
{
    let mut r: Vec<u8> = Vec::new();
    let mut i: usize = from;
    while i < to
        invariant
            from <= i <= to <= q@.len(),
            r@ == q@.subrange(from as int, i as int),
        decreases to - i,
    {
        r.push(q[i]);
        i = i + 1;
        assert(r@ =~= q@.subrange(from as int, i as int));
    }
    r
}

impl Timers {
    /// The time recorded for the first key at or above `k`.
    fn first_from(&self, k: u32) -> (r: Option<u64>)
        ensures
            r == time_from(self.send_times@, k),
    {
        let mut i: usize = 0;
        while i < self.send_times.len() && self.send_times[i].0 < k
            invariant
                0 <= i <= self.send_times@.len(),
                forall|j: int| 0 <= j < i ==> self.send_times@[j].0 < k,
            decreases self.send_times@.len() - i,
        {
            i = i + 1;
        }
        proof {
            assert(first_at_or_above(self.send_times@, k, i as int));
            lemma_first_at_or_above_unique(self.send_times@, k, i as int, key_position(self.send_times@, k));
        }
        if i < self.send_times.len() {
            Some(self.send_times[i].1)
        } else {
            None
        }
    }

    /// Records that the segment starting at `seqn` was emitted at `now`.
    fn record(&mut self, seqn: u32, now: u64)
        ensures
            final(self).send_times@ == times_insert(old(self).send_times@, seqn, now),
            final(self).srtt == old(self).srtt,
    {
        let mut i: usize = 0;
        while i < self.send_times.len() && self.send_times[i].0 < seqn
            invariant
                0 <= i <= self.send_times@.len(),
                forall|j: int| 0 <= j < i ==> self.send_times@[j].0 < seqn,
            decreases self.send_times@.len() - i,
        {
            i = i + 1;
        }
        proof {
            assert(first_at_or_above(self.send_times@, seqn, i as int));
            lemma_first_at_or_above_unique(
                self.send_times@,
                seqn,
                i as int,
                key_position(self.send_times@, seqn),
            );
        }
        if i < self.send_times.len() && self.send_times[i].0 == seqn {
            self.send_times.set(i, (seqn, now));
        } else {
            self.send_times.insert(i, (seqn, now));
        }
    }
    /// Applies an acknowledgment of `[una, ack)` to the send times; see
    /// [`prune_times`].
    fn prune(&mut self, una: u32, ack: u32, now: u64)
        ensures
            (final(self).send_times@, final(self).srtt) == prune_times(
                old(self).send_times@,
                una,
                ack,
                old(self).srtt,
                now,
            ),
    {
        let ghost s = self.send_times@;
        let mut kept: Vec<(u32, u64)> = Vec::new();
        let mut est = self.srtt;
        let start = una.wrapping_sub(1);
        let mut i: usize = 0;
        while i < self.send_times.len()
            invariant
                self.send_times@ == s,
                0 <= i <= s.len(),
                start == seq_sub(una, 1),
                (kept@, est) == prune_times(s.take(i as int), una, ack, old(self).srtt, now),
            decreases s.len() - i,
        {
            let e = self.send_times[i];
            proof {
                assert(s.take(i as int + 1).drop_last() =~= s.take(i as int));
                assert(s.take(i as int + 1).last() == s[i as int]);
            }
            if is_between_wrapped(start, e.0, ack) {
                est = rtt_update_exec(est, now, e.1);
            } else {
                kept.push(e);
            }
            i = i + 1;
        }
        assert(s.take(s.len() as int) =~= s);
        self.send_times = kept;
        self.srtt = est;
    }
}

/// See [`rtt_update`].
fn rtt_update_exec(srtt: u64, now: u64, sent: u64) -> (r: u64)
    ensures
        r == rtt_update(srtt, now, sent),
{
    let sample: u64 = if now >= sent {
        now - sent
    } else {
        0
    };
    let total: u128 = 8 * (srtt as u128) + 2 * (sample as u128);
    let v: u128 = total / 10;
    proof {
        let m: int = if srtt >= sample { srtt as int } else { sample as int };
        assert(total <= 10 * m) by (nonlinear_arith)
            requires
                total == 8 * srtt + 2 * sample,
                srtt <= m,
                sample <= m,
        ;
        assert(v <= m) by (nonlinear_arith)
            requires
                v == total / 10,
                total <= 10 * m,
                m >= 0,
        ;
    }
    v as u64
}

/// The keys of `s` strictly increase: the send times form an ordered map.
pub open spec fn times_sorted(s: Seq<(u32, u64)>) -> bool {
    forall|i: int, j: int| 0 <= i < j < s.len() ==> s[i].0 < s[j].0
}

/// Every key has a position in `s`.
pub proof fn lemma_position_exists(s: Seq<(u32, u64)>, k: u32)
    ensures
        first_at_or_above(s, k, key_position(s, k)),
    decreases s.len(),
{
    if s.len() == 0 {
        assert(first_at_or_above(s, k, 0));
    } else {
        let t = s.drop_last();
        lemma_position_exists(t, k);
        let i = key_position(t, k);
        assert(forall|j: int| 0 <= j < t.len() ==> #[trigger] t[j] == s[j]);
        assert forall|j: int| 0 <= j < i implies s[j].0 < k by {
            assert(t[j].0 < k);
        }
        if i < t.len() {
            assert(t[i].0 >= k);
            assert(first_at_or_above(s, k, i));
        } else if s.last().0 >= k {
            assert(first_at_or_above(s, k, t.len() as int));
        } else {
            assert(first_at_or_above(s, k, s.len() as int));
        }
    }
}

/// Recording a send time keeps the keys ordered.
pub proof fn lemma_insert_sorted(s: Seq<(u32, u64)>, k: u32, t: u64)
    requires
        times_sorted(s),
    ensures
        times_sorted(times_insert(s, k, t)),
{
    lemma_position_exists(s, k);
    let i = key_position(s, k);
    let r = times_insert(s, k, t);
    if i < s.len() && s[i].0 == k {
        assert forall|a: int, b: int| 0 <= a < b < r.len() implies r[a].0 < r[b].0 by {
            assert(r[a].0 == s[a].0 && r[b].0 == s[b].0);
        }
    } else {
        assert forall|a: int, b: int| 0 <= a < b < r.len() implies r[a].0 < r[b].0 by {
            if b < i {
                assert(r[a] == s[a] && r[b] == s[b]);
            } else if b == i {
                assert(r[a] == s[a]);
            } else if a < i {
                assert(r[a] == s[a] && r[b] == s[b - 1]);
                assert(s[i].0 >= k);
                if b - 1 > i {
                    assert(s[i].0 < s[b - 1].0);
                }
            } else if a == i {
                assert(r[b] == s[b - 1]);
                if b - 1 > i {
                    assert(s[i].0 < s[b - 1].0);
                }
            } else {
                assert(r[a] == s[a - 1] && r[b] == s[b - 1]);
            }
        }
    }
}

/// Pruning keeps the keys ordered, and keeps only entries of `s`.
pub proof fn lemma_prune_sorted(s: Seq<(u32, u64)>, una: u32, ack: u32, srtt: u64, now: u64)
    requires
        times_sorted(s),
    ensures
        times_sorted(prune_times(s, una, ack, srtt, now).0),
        forall|a: int|
            0 <= a < prune_times(s, una, ack, srtt, now).0.len() ==> s.contains(
                #[trigger] prune_times(s, una, ack, srtt, now).0[a],
            ),
    decreases s.len(),
{
    if s.len() > 0 {
        let t = s.drop_last();
        lemma_prune_sorted(t, una, ack, srtt, now);
        let kept = prune_times(t, una, ack, srtt, now).0;
        assert forall|a: int| 0 <= a < kept.len() implies kept[a].0 < s.last().0 && s.contains(
            kept[a],
        ) by {
            assert(t.contains(kept[a]));
            let j = choose|j: int| 0 <= j < t.len() && t[j] == kept[a];
            assert(s[j] == t[j]);
        }
        let r = prune_times(s, una, ack, srtt, now).0;
        assert forall|a: int| 0 <= a < r.len() implies s.contains(#[trigger] r[a]) by {
            if a < kept.len() {
                assert(r[a] == kept[a]);
            } else {
                assert(r[a] == s.last());
                assert(s[s.len() - 1] == s.last());
            }
        }
    }
}

/// Emitting a segment keeps the send times ordered.
pub proof fn lemma_send_sorted(c: ConnView, seqn: u32, payload: Seq<u8>, now: u64)
    requires
        times_sorted(c.send_times),
    ensures
        times_sorted(after_send(c, seqn, payload, now).send_times),
{
    lemma_insert_sorted(c.send_times, seqn, now);
}

/// Processing a segment keeps the send times ordered.
pub proof fn lemma_packet_sorted(c: ConnView, h: TcpHeaderFields, data: Seq<u8>, now: u64)
    requires
        times_sorted(c.send_times),
    ensures
        times_sorted(on_packet_view(c, h, data, now).send_times),
{
    lemma_send_sorted(c, c.send.nxt, Seq::empty(), now);
    let ack = h.acknowledgment_number;
    let c1 = step_handshake(c, ack);
    lemma_prune_sorted(c1.send_times, c1.send.una, ack, c1.srtt, now);
    let a = acked_state(c, h, now);
    let d = delivered(a, h, data);
    lemma_send_sorted(d, d.send.nxt, Seq::empty(), now);
    let b = step_data(a, h, data, now);
    let f = fin_received(b);
    lemma_send_sorted(f, f.send.nxt, Seq::empty(), now);
}

/// A timer tick keeps the send times ordered.
pub proof fn lemma_tick_sorted(c: ConnView, now: u64)
    requires
        times_sorted(c.send_times),
    ensures
        times_sorted(on_tick_view(c, now).send_times),
{
    let p = retransmit_prep(c);
    lemma_send_sorted(p, c.send.una, c.unacked.take(resend_len(c)), now);
    let q = fresh_prep(c);
    lemma_send_sorted(q, c.send.nxt, fresh_payload(c), now);
}

/// Initial send sequence number.
pub const ISS: u32 = 0;

/// Send window and advertised window of a new connection.
pub const INITIAL_WINDOW: u32 = 10;

/// Time to live of emitted datagrams.
pub const TTL: u8 = 64;

/// Initial smoothed round-trip time: 60 seconds, in nanoseconds.
pub const INITIAL_SRTT: u64 = 60_000_000_000;

/// The connection that a SYN described by `iph` and `tcph` opens, once its
/// SYN-ACK has been emitted at `now`.
pub open spec fn accepted(iph: Ipv4Info, tcph: TcpHeaderFields, now: u64) -> ConnView {
    ConnView {
        state: State::SyncRcvd,
        send: SendSequenceSpace {
            una: ISS,
            nxt: seq_add(ISS, 1),
            wnd: INITIAL_WINDOW,
            up: false,
            wl1: 0,
            wl2: 0,
            iss: ISS,
        },
        recv: RecvSequenceSpace {
            nxt: seq_add(tcph.sequence_number, 1),
            wnd: tcph.window_size as u32,
            up: false,
            irs: tcph.sequence_number,
        },
        ip: IpPrototype { source: iph.destination, destination: iph.source, time_to_live: TTL },
        tcp: TcpPrototype {
            source_port: tcph.destination_port,
            destination_port: tcph.source_port,
            window_size: INITIAL_WINDOW as u16,
            syn: false,
            ack: true,
            fin: false,
            rst: false,
        },
        send_times: seq![(ISS, now)],
        srtt: INITIAL_SRTT,
        closed: false,
        incoming: Seq::empty(),
        unacked: Seq::empty(),
        closed_at: None,
    }
}

/// The SYN-ACK that answers a SYN described by `iph` and `tcph`.
pub open spec fn syn_ack_frame(iph: Ipv4Info, tcph: TcpHeaderFields) -> Seq<u8> {
    tcp_frame(
        iph.destination,
        iph.source,
        TTL,
        tcph.destination_port,
        tcph.source_port,
        ISS,
        seq_add(tcph.sequence_number, 1),
        true,
        true,
        false,
        false,
        INITIAL_WINDOW as u16,
        Seq::empty(),
    )
}

impl Connection {
    /// Well-formed: the send times form an ordered map.
    pub open spec fn wf(&self) -> bool {
        times_sorted(self@.send_times)
    }

    /// Whether the receive side is closed (the peer's FIN has been taken).
    pub fn is_rev_closed(&self) -> (r: bool)
        ensures
            r == (self@.state == State::TimeWait),
    {
        if let State::TimeWait = self.state {
            true
        } else {
            false
        }
    }

    /// Which local operations would not block; see [`availability_of`].
    pub fn availability(&self) -> (r: Available)
        ensures
            r == availability_of(self@),
    {
        let read = self.is_rev_closed() || self.incoming.len() > 0;
        Available { read, write: false }
    }

    /// Whether our FIN has been queued for emission, or sent.
    pub fn have_sent_fin(&self) -> (r: bool)
        ensures
            r == (self@.state == State::FinWait1 || self@.state == State::FinWait2 || self@.state
                == State::TimeWait),
    {
        match self.state {
            State::SyncRcvd | State::Estab => false,
            State::FinWait1 | State::FinWait2 | State::TimeWait => true,
        }
    }

    /// Emits a bare segment at `send.nxt` acknowledging `recv.nxt`.
    fn send_ack(&mut self, now: u64, out: &mut Vec<Vec<u8>>)
        ensures
            final(self)@ == after_send(old(self)@, old(self)@.send.nxt, Seq::empty(), now),
            frames(final(out)@) == frames(old(out)@).push(
                segment_frame(old(self)@, old(self)@.send.nxt, Seq::empty()),
            ),
    {
        let nothing: Vec<u8> = Vec::new();
        assert(nothing@ =~= Seq::<u8>::empty());
        let nxt = self.send.nxt;
        self.write(nxt, nothing.as_slice(), now, out);
    }

    fn is_receiving(&self) -> (r: bool)
        ensures
            r == receiving(self@.state),
    {
        match self.state {
            State::Estab | State::FinWait1 | State::FinWait2 => true,
            State::SyncRcvd | State::TimeWait => false,
        }
    }

    /// SYN-RECEIVED transition; see [`step_handshake`].
    fn process_handshake(&mut self, ack: u32)
        ensures
            final(self)@ == step_handshake(old(self)@, ack),
    {
        if let State::SyncRcvd = self.state {
            if is_between_wrapped(self.send.una.wrapping_sub(1), ack, self.send.nxt.wrapping_add(1)) {
                self.state = State::Estab;
            }
        }
    }

    /// ACK processing; see [`step_ack`].
    fn process_ack(&mut self, ack: u32, now: u64)
        ensures
            final(self)@ == step_ack(old(self)@, ack, now),
    {
        if self.is_receiving() && is_between_wrapped(
            self.send.una.wrapping_sub(1),
            ack,
            self.send.nxt.wrapping_add(2),
        ) {
            let start = if self.send.una == self.send.iss {
                self.send.una.wrapping_add(1)
            } else {
                self.send.una
            };
            let covered = ack.wrapping_sub(start) as usize;
            let n = if self.unacked.len() <= covered {
                self.unacked.len()
            } else {
                covered
            };
            let rest = self.unacked.split_off(n);
            self.unacked = rest;
            let una = self.send.una;
            self.timer.prune(una, ack, now);
            self.send.una = ack;
            assert(self@.unacked =~= old(self)@.unacked.skip(acked_len(old(self)@, ack)));
        }
    }

    /// FIN-WAIT-1 transition; see [`step_fin_acked`].
    fn process_fin_acked(&mut self)
        ensures
            final(self)@ == step_fin_acked(old(self)@),
    {
        if let State::FinWait1 = self.state {
            if let Some(closed_at) = self.closed_at {
                if self.send.una == closed_at.wrapping_add(1) {
                    self.state = State::FinWait2;
                }
            }
        }
    }

    /// Data delivery and its acknowledgment; see [`step_data`].
    fn process_data(&mut self, h: &TcpHeaderFields, data: &[u8], now: u64, out: &mut Vec<Vec<u8>>)
        requires
            data@.len() < 0x1_0000,
        ensures
            final(self)@ == step_data(old(self)@, *h, data@, now),
            frames(final(out)@) == frames(old(out)@) + step_data_frames(old(self)@, *h, data@),
    {
        if data.len() == 0 || !self.is_receiving() {
            assert(frames(old(out)@) + Seq::<Seq<u8>>::empty() =~= frames(old(out)@));
            return;
        }
        let len = data.len();
        let raw = self.recv.nxt.wrapping_sub(h.sequence_number) as usize;
        let skip: usize = if raw <= len {
            raw
        } else if raw == len + 1 {
            0
        } else {
            len + 1
        };
        if skip <= len {
            let mut i: usize = skip;
            while i < len
                invariant
                    skip <= i <= len,
                    len == data@.len(),
                    self@ == (ConnView {
                        incoming: old(self)@.incoming + data@.subrange(skip as int, i as int),
                        ..old(self)@
                    }),
                decreases len - i,
            {
                self.incoming.push_back(data[i]);
                i = i + 1;
                assert(old(self)@.incoming + data@.subrange(skip as int, i as int) =~= (
                old(self)@.incoming + data@.subrange(skip as int, i as int - 1)).push(data@[i - 1]));
            }
            assert(data@.subrange(skip as int, len as int) =~= data@.skip(skip as int));
            let fin: u32 = if h.fin {
                1
            } else {
                0
            };
            self.recv.nxt = self.recv.nxt.wrapping_add((len - skip) as u32).wrapping_add(fin);
        }
        assert(self@ == delivered(old(self)@, *h, data@));
        self.send_ack(now, out);
        assert(frames(final(out)@) =~= frames(old(out)@) + step_data_frames(old(self)@, *h, data@));
    }

    /// The peer's FIN in FIN-WAIT-2; see [`step_close`].
    fn process_close(&mut self, h: &TcpHeaderFields, now: u64, out: &mut Vec<Vec<u8>>)
        ensures
            final(self)@ == step_close(old(self)@, *h, now),
            frames(final(out)@) == frames(old(out)@) + step_close_frames(old(self)@, *h),
    {
        if let State::FinWait2 = self.state {
            if h.fin {
                self.recv.nxt = self.recv.nxt.wrapping_add(1);
                self.send_ack(now, out);
                self.state = State::TimeWait;
                assert(frames(final(out)@) =~= frames(old(out)@) + step_close_frames(old(self)@, *h));
                return;
            }
        }
        assert(frames(old(out)@) + Seq::<Seq<u8>>::empty() =~= frames(old(out)@));
    }

    /// Processes one incoming segment with header `tcph` and payload `data`
    /// at time `now`, appending the datagrams it emits to `out`; returns the
    /// availability afterwards.
    pub fn on_packet(&mut self, tcph: &TcpHeaderFields, data: &[u8], now: u64, out: &mut Vec<Vec<u8>>) -> (r:
        Available)
        requires
            old(self).wf(),
            data@.len() < 0x1_0000,
        ensures
            final(self).wf(),
            final(self)@ == on_packet_view(old(self)@, *tcph, data@, now),
            frames(final(out)@) == frames(old(out)@) + on_packet_frames(old(self)@, *tcph, data@, now),
            r == availability_of(final(self)@),
    {
        proof {
            lemma_packet_sorted(self@, *tcph, data@, now);
        }
        let seqn = tcph.sequence_number;
        let mut slen: u32 = data.len() as u32;
        if tcph.fin {
            slen = slen + 1;
        }
        if tcph.syn {
            slen = slen + 1;
        }
        assert(slen == seg_len(*tcph, data@));
        if !segment_acceptable(self.recv.nxt, self.recv.wnd, seqn, slen) {
            self.send_ack(now, out);
            assert(frames(final(out)@) =~= frames(old(out)@) + on_packet_frames(old(self)@, *tcph, data@, now));
            return self.availability();
        }
        if !tcph.ack {
            if tcph.syn {
                self.recv.nxt = seqn.wrapping_add(1);
            } else {
                self.recv.nxt = self.recv.nxt.wrapping_add(slen);
            }
            assert(frames(old(out)@) + Seq::<Seq<u8>>::empty() =~= frames(old(out)@));
            return self.availability();
        }
        let ackn = tcph.acknowledgment_number;
        self.process_handshake(ackn);
        self.process_ack(ackn, now);
        self.process_fin_acked();
        self.process_data(tcph, data, now, out);
        self.process_close(tcph, now, out);
        assert(frames(final(out)@) =~= frames(old(out)@) + on_packet_frames(old(self)@, *tcph, data@, now));
        self.availability()
    }

    /// Whether the retransmission timer has expired at `now`.
    fn retransmit_due(&self, now: u64) -> (r: bool)
        ensures
            r == should_retransmit(self@, now),
    {
        match self.timer.first_from(self.send.una) {
            Some(t) => {
                let w: u64 = if now >= t {
                    now - t
                } else {
                    0
                };
                w > SECOND && (w as u128) > (15 * (self.timer.srtt as u128)) / 10
            },
            None => false,
        }
    }

    /// The retransmission branch of a tick.
    fn retransmit(&mut self, now: u64, out: &mut Vec<Vec<u8>>)
        requires
            !tick_idle(old(self)@, now),
            should_retransmit(old(self)@, now),
        ensures
            final(self)@ == on_tick_view(old(self)@, now),
            frames(final(out)@) == frames(old(out)@) + on_tick_frames(old(self)@, now),
    {
        let queued = self.unacked.len();
        let wnd = self.send.wnd as usize;
        let resend = if queued <= wnd {
            queued
        } else {
            wnd
        };
        if resend < wnd && self.closed {
            self.tcp.fin = true;
            self.closed_at = Some(self.send.una.wrapping_add(queued as u32));
        }
        assert(self@ == retransmit_prep(old(self)@));
        let payload = copy_range(&self.unacked, 0, resend);
        assert(payload@ =~= old(self)@.unacked.take(resend_len(old(self)@)));
        let una = self.send.una;
        self.write(una, payload.as_slice(), now, out);
        self.send.nxt = una.wrapping_add(self.send.wnd);
        assert(frames(final(out)@) =~= frames(old(out)@) + on_tick_frames(old(self)@, now));
    }

    /// The fresh-data branch of a tick.
    fn send_fresh(&mut self, now: u64, out: &mut Vec<Vec<u8>>)
        requires
            !should_retransmit(old(self)@, now),
            old(self)@.state != State::FinWait2,
            old(self)@.state != State::TimeWait,
        ensures
            final(self)@ == on_tick_view(old(self)@, now),
            frames(final(out)@) == frames(old(out)@) + on_tick_frames(old(self)@, now),
    {
        let nunacked = self.send.nxt.wrapping_sub(self.send.una);
        let queued = self.unacked.len();
        let unsent: usize = if queued >= nunacked as usize {
            queued - nunacked as usize
        } else {
            0
        };
        assert(unsent == unsent_len(self@));
        if unsent == 0 && self.closed_at.is_some() {
            assert(frames(old(out)@) + Seq::<Seq<u8>>::empty() =~= frames(old(out)@));
            return;
        }
        let allowed: u32 = if self.send.wnd >= nunacked {
            self.send.wnd - nunacked
        } else {
            0
        };
        if allowed == 0 {
            assert(frames(old(out)@) + Seq::<Seq<u8>>::empty() =~= frames(old(out)@));
            return;
        }
        let send = if unsent <= allowed as usize {
            unsent
        } else {
            allowed as usize
        };
        assert(send == fresh_len(old(self)@));
        if send < allowed as usize && self.closed && self.closed_at.is_none() {
            self.tcp.fin = true;
            self.closed_at = Some(self.send.nxt.wrapping_add(unsent as u32));
        }
        assert(self@ == fresh_prep(old(self)@));
        let payload = if send == 0 {
            Vec::new()
        } else {
            copy_range(&self.unacked, nunacked as usize, nunacked as usize + send)
        };
        assert(payload@ =~= fresh_payload(old(self)@));
        let nxt = self.send.nxt;
        self.write(nxt, payload.as_slice(), now, out);
        assert(frames(final(out)@) =~= frames(old(out)@) + on_tick_frames(old(self)@, now));
    }

    /// Timer tick at `now`: retransmits from `una` when the timer has
    /// expired, else sends queued data that the window allows; the FIN goes
    /// along once the connection is closed. Appends what it emits to `out`.
    pub fn on_tick(&mut self, now: u64, out: &mut Vec<Vec<u8>>)
        requires
            old(self).wf(),
        ensures
            final(self).wf(),
            final(self)@ == on_tick_view(old(self)@, now),
            frames(final(out)@) == frames(old(out)@) + on_tick_frames(old(self)@, now),
    {
        proof {
            lemma_tick_sorted(self@, now);
        }
        if let State::FinWait2 | State::TimeWait = self.state {
            assert(frames(old(out)@) + Seq::<Seq<u8>>::empty() =~= frames(old(out)@));
            return;
        }
        if self.retransmit_due(now) {
            self.retransmit(now, out);
        } else {
            self.send_fresh(now, out);
        }
    }

    /// Local close: marks the connection closed so that a tick emits our
    /// FIN; SYN-RECEIVED and ESTABLISHED move to FIN-WAIT-1. Fails with
    /// `Aborted` in TIME-WAIT, where the connection is already closing.
    pub fn close(&mut self) -> (r: Result<(), TcpError>)
        ensures
            final(self)@ == closed_view(old(self)@),
            r.is_err() == (old(self)@.state == State::TimeWait),
            r.is_err() ==> r == Err::<(), TcpError>(TcpError::Aborted),
    {
        self.closed = true;
        match self.state {
            State::SyncRcvd | State::Estab => {
                self.state = State::FinWait1;
            },
            State::FinWait1 | State::FinWait2 => {},
            State::TimeWait => {
                return Err(TcpError::Aborted);
            },
        }
        Ok(())
    }

    /// Emits a segment with RST raised (and left raised) at `send.nxt`.
    pub fn send_rst(&mut self, now: u64, out: &mut Vec<Vec<u8>>)
        requires
            old(self).wf(),
        ensures
            final(self).wf(),
            final(self)@ == after_send(reset_prep(old(self)@), old(self)@.send.nxt, Seq::empty(), now),
            frames(final(out)@) == frames(old(out)@).push(
                segment_frame(reset_prep(old(self)@), old(self)@.send.nxt, Seq::empty()),
            ),
    {
        self.tcp.rst = true;
        proof {
            lemma_send_sorted(self@, self@.send.nxt, Seq::empty(), now);
        }
        self.send_ack(now, out);
    }

    /// Takes up to `max` bytes from the head of the received data.
    pub fn take_incoming(&mut self, max: usize) -> (r: Vec<u8>)
        ensures
            r@ == old(self)@.incoming.take(min(max as int, old(self)@.incoming.len() as int)),
            final(self)@ == (ConnView {
                incoming: old(self)@.incoming.skip(min(max as int, old(self)@.incoming.len() as int)),
                ..old(self)@
            }),
    {
        let n = if max <= self.incoming.len() {
            max
        } else {
            self.incoming.len()
        };
        let r = copy_range(&self.incoming, 0, n);
        let rest = self.incoming.split_off(n);
        self.incoming = rest;
        assert(r@ =~= old(self)@.incoming.take(n as int));
        assert(self@.incoming =~= old(self)@.incoming.skip(n as int));
        r
    }

    /// Appends `buf` to the bytes queued for sending.
    pub fn queue_unacked(&mut self, buf: &[u8])
        ensures
            final(self)@ == (ConnView { unacked: old(self)@.unacked + buf@, ..old(self)@ }),
    {
        let mut i: usize = 0;
        while i < buf.len()
            invariant
                0 <= i <= buf@.len(),
                self@ == (ConnView {
                    unacked: old(self)@.unacked + buf@.take(i as int),
                    ..old(self)@
                }),
            decreases buf@.len() - i,
        {
            self.unacked.push_back(buf[i]);
            i = i + 1;
            assert(old(self)@.unacked + buf@.take(i as int) =~= (old(self)@.unacked + buf@.take(
                i as int - 1,
            )).push(buf@[i - 1]));
        }
        assert(buf@.take(buf@.len() as int) =~= buf@);
    }

    /// Number of received bytes not yet read.
    pub fn incoming_len(&self) -> (r: usize)
        ensures
            r == self@.incoming.len(),
    {
        self.incoming.len()
    }

    /// Number of queued bytes not yet acknowledged.
    pub fn unacked_len(&self) -> (r: usize)
        ensures
            r == self@.unacked.len(),
    {
        self.unacked.len()
    }

    /// The connection's state.
    pub fn state(&self) -> (r: State)
        ensures
            r == self@.state,
    {
        self.state
    }

    /// Next sequence number expected from the peer.
    pub fn recv_nxt(&self) -> (r: u32)
        ensures
            r == self@.recv.nxt,
    {
        self.recv.nxt
    }

    /// Oldest unacknowledged sequence number.
    pub fn send_una(&self) -> (r: u32)
        ensures
            r == self@.send.una,
    {
        self.send.una
    }

    /// Next sequence number to send.
    pub fn send_nxt(&self) -> (r: u32)
        ensures
            r == self@.send.nxt,
    {
        self.send.nxt
    }

    /// Number of segments whose emission time is still recorded.
    pub fn send_times_len(&self) -> (r: usize)
        ensures
            r == self@.send_times.len(),
    {
        self.timer.send_times.len()
    }

    /// Passive open: a SYN from `iph`/`tcph` creates a connection in
    /// SYN-RECEIVED and emits its SYN-ACK; any other segment creates none.
    pub fn accept(iph: &Ipv4Info, tcph: &TcpHeaderFields, now: u64, out: &mut Vec<Vec<u8>>) -> (r:
        Option<Self>)
        ensures
            r.is_some() == tcph.syn,
            r.is_some() ==> r.unwrap()@ == accepted(*iph, *tcph, now),
            r.is_some() ==> r.unwrap().wf(),
            r.is_some() ==> frames(final(out)@) == frames(old(out)@).push(syn_ack_frame(*iph, *tcph)),
            r.is_none() ==> final(out)@ == old(out)@,
    {
        if !tcph.syn {
            return None;
        }
        let mut c = Connection {
            state: State::SyncRcvd,
            send: SendSequenceSpace {
                iss: ISS,
                una: ISS,
                nxt: ISS,
                wnd: INITIAL_WINDOW,
                up: false,
                wl1: 0,
                wl2: 0,
            },
            recv: RecvSequenceSpace {
                nxt: tcph.sequence_number.wrapping_add(1),
                wnd: tcph.window_size as u32,
                irs: tcph.sequence_number,
                up: false,
            },
            ip: IpPrototype { source: iph.destination, destination: iph.source, time_to_live: TTL },
            tcp: TcpPrototype {
                source_port: tcph.destination_port,
                destination_port: tcph.source_port,
                window_size: INITIAL_WINDOW as u16,
                syn: true,
                ack: true,
                fin: false,
                rst: false,
            },
            incoming: VecDeque::new(),
            unacked: VecDeque::new(),
            closed: false,
            timer: Timers { send_times: Vec::new(), srtt: INITIAL_SRTT },
            closed_at: None,
        };
        let ghost empty = c.timer.send_times@;
        proof {
            assert(first_at_or_above(empty, ISS, 0));
            lemma_first_at_or_above_unique(empty, ISS, 0, key_position(empty, ISS));
            reveal(seq_lt);
        }
        let nxt = c.send.nxt;
        let nothing: Vec<u8> = Vec::new();
        assert(segment_data(nothing@) =~= Seq::<u8>::empty());
        c.write(nxt, nothing.as_slice(), now, out);
        assert(c@.send_times =~= seq![(ISS, now)]);
        assert(c@.incoming =~= Seq::<u8>::empty());
        assert(c@.unacked =~= Seq::<u8>::empty());
        Some(c)
    }

    /// Emits one segment carrying `payload` (at most `MAX_SEGMENT_DATA` bytes
    /// of it) at sequence number `seqn`, acknowledging `recv.nxt`; returns
    /// how many payload bytes it carried.
    fn write(&mut self, seqn: u32, payload: &[u8], now: u64, out: &mut Vec<Vec<u8>>) -> (r: usize)
        ensures
            r == segment_data(payload@).len(),
            final(self)@ == after_send(old(self)@, seqn, payload@, now),
            frames(final(out)@) == frames(old(out)@).push(segment_frame(old(self)@, seqn, payload@)),
    {
        let n: usize = if payload.len() <= MAX_SEGMENT_DATA {
            payload.len()
        } else {
            MAX_SEGMENT_DATA
        };
        let data = &payload[0..n];
        assert(data@ == segment_data(payload@));
        let h = SegmentHeader {
            source: self.ip.source,
            destination: self.ip.destination,
            time_to_live: self.ip.time_to_live,
            source_port: self.tcp.source_port,
            destination_port: self.tcp.destination_port,
            sequence_number: seqn,
            acknowledgment_number: self.recv.nxt,
            syn: self.tcp.syn,
            ack: self.tcp.ack,
            fin: self.tcp.fin,
            rst: self.tcp.rst,
            window_size: self.tcp.window_size,
        };
        let frame = encode_frame(&h, data);
        out.push(frame);
        proof {
            assert(frames(final(out)@) =~= frames(old(out)@).push(segment_frame(old(self)@, seqn, payload@)));
        }
        let next_seq = seqn.wrapping_add(n as u32);
        if self.tcp.syn {
            self.send.nxt = self.send.nxt.wrapping_add(1);
            self.tcp.syn = false;
        }
        if self.tcp.fin {
            self.send.nxt = self.send.nxt.wrapping_add(1);
            self.tcp.fin = false;
        }
        if wrapping_lt(self.send.nxt, next_seq) {
            self.send.nxt = next_seq;
        }
        self.timer.record(seqn, now);
        n
    }
}


/// `v mod 2^32` for `v` within one turn of zero.
pub proof fn lemma_mod_space(v: int)
    requires
        -seq_space() < v < seq_space(),
    ensures
        v % seq_space() == if v >= 0 { v } else { v + seq_space() },
{
    if v >= 0 {
        vstd::arithmetic::div_mod::lemma_small_mod(v as nat, seq_space() as nat);
    } else {
        vstd::arithmetic::div_mod::lemma_small_mod((v + seq_space()) as nat, seq_space() as nat);
        vstd::arithmetic::div_mod::lemma_mod_add_multiples_vanish(v, seq_space());
    }
}

/// `seq_lt(a, b)` holds exactly when `b` lies less than `2^31` ahead of `a`.
pub proof fn lemma_seq_lt_dist(a: u32, b: u32)
    ensures
        seq_lt(a, b) == (0 < seq_sub(b, a) < seq_half()),
{
    reveal(seq_lt);
    lemma_mod_space(a as int - b as int);
}

/// Acceptance depends on the receive window and on the segment's sequence
/// number and length alone: two segments that agree on these, checked
/// against two connections that agree on `recv.nxt` and `recv.wnd`, are
/// both accepted or both rejected.
pub proof fn lemma_acceptance_is_pure(
    c1: ConnView,
    h1: TcpHeaderFields,
    d1: Seq<u8>,
    c2: ConnView,
    h2: TcpHeaderFields,
    d2: Seq<u8>,
)
    requires
        c1.recv.nxt == c2.recv.nxt,
        c1.recv.wnd == c2.recv.wnd,
        h1.sequence_number == h2.sequence_number,
        seg_len(h1, d1) == seg_len(h2, d2),
    ensures
        acceptable(c1, h1, d1) == acceptable(c2, h2, d2),
{
}

/// With a zero receive window only an empty segment at exactly `recv.nxt`
/// is accepted.
pub proof fn lemma_zero_window(nxt: u32, seq: u32, slen: u32)
    ensures
        segment_ok(nxt, 0, seq, slen) == (seq == nxt && slen == 0),
{
}

/// A one-byte segment at sequence number 0 is accepted when `recv.nxt` is
/// `2^32 - 1` and the window holds at least two sequence numbers.
pub proof fn lemma_accept_across_wrap(wnd: u32)
    requires
        2 <= wnd < seq_half(),
    ensures
        segment_ok(0xffff_ffff, wnd, 0, 1),
{
    lemma_seq_lt_dist(seq_sub(0xffff_ffff, 1), 0);
    lemma_seq_lt_dist(0, seq_add(0xffff_ffff, wnd));
}

/// A segment that lies wholly before `recv.nxt` (already acknowledged) is
/// rejected: the connection only emits a duplicate ACK at `send.nxt`, and
/// records its emission time; nothing else changes.
pub proof fn lemma_replay_is_idempotent(c: ConnView, h: TcpHeaderFields, data: Seq<u8>, now: u64)
    requires
        data.len() < 0x1_0000,
        1 <= seq_sub(c.recv.nxt, h.sequence_number) <= seq_half(),
        seg_len(h, data) <= seq_sub(c.recv.nxt, h.sequence_number),
    ensures
        on_packet_view(c, h, data, now) == after_send(c, c.send.nxt, Seq::empty(), now),
        on_packet_frames(c, h, data, now) == seq![segment_frame(c, c.send.nxt, Seq::empty())],
{
    let seq = h.sequence_number;
    let slen = seg_len(h, data) as u32;
    let before = seq_sub(c.recv.nxt, 1);
    lemma_seq_lt_dist(before, seq);
    lemma_seq_lt_dist(before, seq_add(seq, (slen - 1) as u32));
    assert(!acceptable(c, h, data));
}

/// A retransmitted SYN (same initial sequence number, no ACK, no payload)
/// changes nothing but the emission of a duplicate ACK.
pub proof fn lemma_syn_retransmit(c: ConnView, h: TcpHeaderFields, now: u64)
    requires
        h.syn,
        !h.ack,
        !h.fin,
        h.sequence_number == c.recv.irs,
        c.recv.nxt == seq_add(c.recv.irs, 1),
    ensures
        on_packet_view(c, h, Seq::empty(), now) == after_send(c, c.send.nxt, Seq::empty(), now),
        on_packet_frames(c, h, Seq::empty(), now) == seq![segment_frame(c, c.send.nxt, Seq::empty())],
{
    lemma_replay_is_idempotent(c, h, Seq::empty(), now);
}

/// Once every queued byte is in flight, an acknowledgment of `send.nxt`
/// drains the send queue and leaves `send.una == send.nxt`.
pub proof fn lemma_full_ack_drains(c: ConnView, h: TcpHeaderFields, now: u64)
    requires
        receiving(c.state),
        h.ack,
        !h.syn,
        !h.fin,
        acceptable(c, h, Seq::empty()),
        h.acknowledgment_number == c.send.nxt,
        c.unacked.len() == seq_sub(c.send.nxt, data_start(c.send)),
        in_flight(c) < seq_half() - 1,
    ensures
        on_packet_view(c, h, Seq::empty(), now).unacked.len() == 0,
        on_packet_view(c, h, Seq::empty(), now).send.una == on_packet_view(
            c,
            h,
            Seq::empty(),
            now,
        ).send.nxt,
{
    let ack = h.acknowledgment_number;
    lemma_seq_lt_dist(seq_sub(c.send.una, 1), ack);
    lemma_seq_lt_dist(ack, seq_add(c.send.nxt, 2));
    assert(ack_in_range(c, ack));
    assert(step_handshake(c, ack) == c);
}


/// Neither SYN nor FIN is raised on the header prototype, as holds between
/// operations: both are raised only just before the emission that lowers
/// them.
pub open spec fn at_rest(c: ConnView) -> bool {
    !c.tcp.syn && !c.tcp.fin
}

/// `una <= nxt <= una + wnd` in the wrapping order: no more than the send
/// window is in flight.
pub open spec fn send_window_ok(c: ConnView) -> bool {
    in_flight(c) <= c.send.wnd
}

/// A new connection is at rest, with its SYN (one sequence number) in
/// flight inside the send window.
pub proof fn lemma_accepted_window(iph: Ipv4Info, tcph: TcpHeaderFields, now: u64)
    ensures
        at_rest(accepted(iph, tcph, now)),
        send_window_ok(accepted(iph, tcph, now)),
{
}

/// An empty segment emitted at rest leaves `send.nxt` where it was.
pub proof fn lemma_bare_send_keeps_nxt(c: ConnView, now: u64)
    requires
        at_rest(c),
    ensures
        after_send(c, c.send.nxt, Seq::empty(), now).send == c.send,
        at_rest(after_send(c, c.send.nxt, Seq::empty(), now)),
{
    lemma_seq_lt_dist(c.send.nxt, c.send.nxt);
    assert(segment_data(Seq::<u8>::empty()).len() == 0);
}

/// A timer tick keeps the send window invariant (for a window below
/// `2^31`).
pub proof fn lemma_tick_keeps_window(c: ConnView, now: u64)
    requires
        at_rest(c),
        send_window_ok(c),
        c.send.wnd < seq_half(),
    ensures
        at_rest(on_tick_view(c, now)),
        send_window_ok(on_tick_view(c, now)),
{
    if tick_idle(c, now) {
    } else if should_retransmit(c, now) {
    } else {
        let p = fresh_prep(c);
        let n = segment_data(fresh_payload(c)).len();
        if fresh_len(c) > 0 {
            assert(fresh_payload(c).len() == fresh_len(c));
        }
        assert(n <= fresh_len(c));
        let d = after_send(p, c.send.nxt, fresh_payload(c), now);
        assert(d.send.una == c.send.una);
    }
}

/// An incoming segment keeps the send window invariant (for a window below
/// `2^31`), unless it acknowledges `send.nxt + 1`: ACK processing takes
/// that acknowledgment (it covers a FIN that followed data) and then
/// `una` passes `nxt`.
pub proof fn lemma_packet_keeps_window(c: ConnView, h: TcpHeaderFields, data: Seq<u8>, now: u64)
    requires
        at_rest(c),
        send_window_ok(c),
        c.send.wnd < seq_half(),
        h.ack ==> h.acknowledgment_number != seq_add(c.send.nxt, 1),
    ensures
        at_rest(on_packet_view(c, h, data, now)),
        send_window_ok(on_packet_view(c, h, data, now)),
{
    lemma_bare_send_keeps_nxt(c, now);
    if !acceptable(c, h, data) {
    } else if !h.ack {
    } else {
        let ack = h.acknowledgment_number;
        let c1 = step_handshake(c, ack);
        let c2 = step_ack(c1, ack, now);
        if receiving(c1.state) && ack_in_range(c1, ack) {
            lemma_seq_lt_dist(seq_sub(c.send.una, 1), ack);
            lemma_seq_lt_dist(ack, seq_add(c.send.nxt, 2));
            assert(send_window_ok(c2));
        }
        let a = step_fin_acked(c2);
        assert(at_rest(a) && send_window_ok(a));
        lemma_bare_send_keeps_nxt(delivered(a, h, data), now);
        let b = step_data(a, h, data, now);
        assert(at_rest(b) && send_window_ok(b));
        lemma_bare_send_keeps_nxt(fin_received(b), now);
    }
}

/// Delivered bytes are numbered from `recv.nxt` on, and `recv.nxt` moves
/// past all of them: the first byte appended to `incoming` has sequence
/// number `recv.nxt` (unless the segment is a retransmitted FIN), and
/// `recv.nxt` advances by the number of bytes appended, plus one for FIN.
pub proof fn lemma_delivery_numbering(c: ConnView, h: TcpHeaderFields, data: Seq<u8>)
    requires
        data.len() < 0x1_0000,
        unread_at(c, h.sequence_number, data.len() as int) >= 0,
    ensures
        ({
            let skip = unread_at(c, h.sequence_number, data.len() as int);
            let d = delivered(c, h, data);
            &&& d.incoming == c.incoming + data.skip(skip)
            &&& d.recv.nxt == seq_add(
                seq_add(c.recv.nxt, (d.incoming.len() - c.incoming.len()) as u32),
                if h.fin { 1 } else { 0 },
            )
            &&& skip == seq_sub(c.recv.nxt, h.sequence_number) ==> seq_add(
                h.sequence_number,
                skip as u32,
            ) == c.recv.nxt
        }),
{
}

} // verus!
