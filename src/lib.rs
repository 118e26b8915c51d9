//! A userspace TCP endpoint over raw IPv4 datagrams.
//!
//! [`tcp`] holds the per-connection state machine, [`wire`] the header
//! codec it relies on, and this module the connection table that routes
//! datagrams to connections and the listener and stream handles that local
//! callers use. Emitted datagrams are appended to an output vector; the
//! caller sends them. Time is passed in as nanoseconds.

use std::collections::VecDeque;
use vstd::prelude::*;

pub mod assoc;
pub mod tcp;
pub mod wire;

use crate::assoc::{
    assoc_view, has_key, index_of, keys_unique, lemma_index_of, lemma_push, lemma_remove,
    lemma_update,
};
use crate::tcp::{
    accepted, availability_of, closed_view, frames, lemma_tick_sorted, min, on_packet_frames,
    on_packet_view, on_tick_frames, on_tick_view, reset_prep, segment_frame, syn_ack_frame,
    times_sorted, ConnView, Connection, Endpoint, Quad, State,
};
use crate::wire::{
    ipv4_header_ok, ipv4_info_of, parse_ipv4, parse_tcp, tcp_fields_of, tcp_header_ok, Ipv4Info,
    TcpHeaderFields,
};

verus! {

/// What a local operation on the endpoint can fail with.
#[derive(Clone, Copy, Debug, PartialEq, Eq, Structural)]
pub enum TcpError {
    /// The port is already bound.
    AddrInUse,
    /// The connection is gone, or already closing.
    Aborted,
    /// The operation cannot complete now; retry later.
    WouldBlock,
}

/// Most bytes that a stream queues for sending.
pub const SENDQUEUE_SIZE: usize = 1024;

/// The connection table: every connection by its quad, and for every bound
/// port the FIFO of connections that arrived and were not yet accepted.
pub struct ConnectionManager {
    connections: Vec<(Quad, Connection)>,
    pending: Vec<(u16, VecDeque<Quad>)>,
    terminate: bool,
}

/// A bound port.
pub struct TcpListener {
    port: u16,
}

/// An accepted connection, named by its quad.
pub struct TcpStream {
    quad: Quad,
}

impl View for TcpListener {
    type V = u16;

    closed spec fn view(&self) -> u16 {
        self.port
    }
}

impl View for TcpStream {
    type V = Quad;

    closed spec fn view(&self) -> Quad {
        self.quad
    }
}

/// A queue of quads waiting on port `port`: no quad twice, each one a
/// connection of `conns` addressed to `port`.
pub open spec fn queue_ok(q: Seq<Quad>, port: u16, conns: Map<Quad, ConnView>) -> bool {
    &&& forall|i: int, j: int| 0 <= i < j < q.len() ==> q[i] != q[j]
    &&& forall|i: int| 0 <= i < q.len() ==> conns.contains_key(#[trigger] q[i]) && q[i].dst.port == port
}

/// Accept queues stay well-formed when the connections they refer to stay.
pub proof fn lemma_queues_keep(
    pending: Map<u16, Seq<Quad>>,
    a: Map<Quad, ConnView>,
    b: Map<Quad, ConnView>,
)
    requires
        forall|p: u16| #[trigger] pending.contains_key(p) ==> queue_ok(pending[p], p, a),
        forall|q: Quad| a.contains_key(q) ==> b.contains_key(q),
    ensures
        forall|p: u16| #[trigger] pending.contains_key(p) ==> queue_ok(pending[p], p, b),
{
    assert forall|p: u16| #[trigger] pending.contains_key(p) implies queue_ok(pending[p], p, b) by {
        let q = pending[p];
        assert(queue_ok(q, p, a));
        assert forall|i: int| 0 <= i < q.len() implies b.contains_key(#[trigger] q[i]) && q[i].dst.port
            == p by {
            assert(a.contains_key(q[i]));
        }
    }
}

/// IP protocol number of TCP.
pub const PROTO_TCP: u8 = 6;

/// What processing a datagram makes worth waking.
#[derive(Clone, Copy, Debug, PartialEq, Eq, Structural)]
pub struct Wake {
    /// A connection has data to read, or its peer closed.
    pub read: bool,
    /// A new connection waits in an accept queue.
    pub accepted: bool,
}

/// The quad of a segment, remote end as source.
pub open spec fn quad_of(ip: Ipv4Info, t: TcpHeaderFields) -> Quad {
    Quad {
        src: Endpoint { addr: ip.source, port: t.source_port },
        dst: Endpoint { addr: ip.destination, port: t.destination_port },
    }
}

/// The TCP segment inside the IPv4 datagram `b`.
pub open spec fn segment_of(b: Seq<u8>) -> Seq<u8> {
    b.skip(ipv4_info_of(b).header_len as int)
}

/// `b` is an IPv4 datagram that carries a readable TCP header.
pub open spec fn is_tcp_datagram(b: Seq<u8>) -> bool {
    &&& ipv4_header_ok(b)
    &&& ipv4_info_of(b).protocol == PROTO_TCP
    &&& tcp_header_ok(segment_of(b))
}

/// The TCP header of the datagram `b`.
pub open spec fn header_of(b: Seq<u8>) -> TcpHeaderFields {
    tcp_fields_of(segment_of(b))
}

/// The TCP payload of the datagram `b`.
pub open spec fn payload_of(b: Seq<u8>) -> Seq<u8> {
    segment_of(b).skip(header_of(b).header_len as int)
}

/// The quad of the datagram `b`.
pub open spec fn datagram_quad(b: Seq<u8>) -> Quad {
    quad_of(ipv4_info_of(b), header_of(b))
}

/// The datagrams that ticking the connections `order` of `conns`, in that
/// order, emits.
pub open spec fn tick_frames(order: Seq<Quad>, conns: Map<Quad, ConnView>, now: u64) -> Seq<Seq<u8>>
    decreases order.len(),
{
    if order.len() == 0 {
        Seq::empty()
    } else {
        tick_frames(order.drop_last(), conns, now) + on_tick_frames(conns[order.last()], now)
    }
}

/// The reset that aborting connection `c` emits.
pub open spec fn rst_frame(c: ConnView) -> Seq<u8> {
    segment_frame(reset_prep(c), c.send.nxt, Seq::empty())
}

/// `q` waits in the accept queue of its port.
pub open spec fn queued(pending: Map<u16, Seq<Quad>>, q: Quad) -> bool {
    pending.contains_key(q.dst.port) && pending[q.dst.port].contains(q)
}

impl ConnectionManager {
    /// The connections, by quad.
    pub closed spec fn conns(&self) -> Map<Quad, ConnView> {
        assoc_view(self.connections@)
    }

    /// The accept queue of each bound port.
    pub closed spec fn pending(&self) -> Map<u16, Seq<Quad>> {
        assoc_view(self.pending@)
    }

    /// The order in which the table keeps its connections.
    pub closed spec fn order(&self) -> Seq<Quad> {
        self.connections@.map_values(|e: (Quad, Connection)| e.0)
    }

    pub closed spec fn terminating(&self) -> bool {
        self.terminate
    }

    pub closed spec fn tables_ok(&self) -> bool {
        keys_unique(self.connections@) && keys_unique(self.pending@)
    }

    /// Well-formed: one entry per quad and per port, and every accept queue
    /// holds each quad at most once, and only quads of live connections.
    pub open spec fn wf(&self) -> bool {
        &&& self.tables_ok()
        &&& forall|q: Quad| #[trigger]
            self.conns().contains_key(q) ==> times_sorted(self.conns()[q].send_times)
        &&& forall|p: u16| #[trigger]
            self.pending().contains_key(p) ==> queue_ok(self.pending()[p], p, self.conns())
    }

    /// An empty table.
    pub fn new() -> (r: Self)
        ensures
            r.wf(),
            r.conns() == Map::<Quad, ConnView>::empty(),
            r.pending() == Map::<u16, Seq<Quad>>::empty(),
            !r.terminating(),
    {
        let r = ConnectionManager { connections: Vec::new(), pending: Vec::new(), terminate: false };
        assert(r.conns() =~= Map::<Quad, ConnView>::empty());
        assert(r.pending() =~= Map::<u16, Seq<Quad>>::empty());
        r
    }

    /// Asks the reader to stop.
    pub fn set_terminate(&mut self)
        requires
            old(self).wf(),
        ensures
            final(self).terminating(),
            final(self).conns() == old(self).conns(),
            final(self).pending() == old(self).pending(),
            final(self).order() == old(self).order(),
            final(self).wf(),
    {
        self.terminate = true;
        assert(self.conns() == old(self).conns());
        assert(self.pending() == old(self).pending());
    }

    /// Whether the reader has been asked to stop.
    pub fn is_terminating(&self) -> (r: bool)
        ensures
            r == self.terminating(),
    {
        self.terminate
    }

    fn find_conn(&self, q: &Quad) -> (r: Option<usize>)
        ensures
            match r {
                Some(i) => i < self.connections@.len() && self.connections@[i as int].0 == *q,
                None => !has_key(self.connections@, *q),
            },
    {
        let mut i: usize = 0;
        while i < self.connections.len()
            invariant
                0 <= i <= self.connections@.len(),
                forall|j: int| 0 <= j < i ==> self.connections@[j].0 != *q,
            decreases self.connections@.len() - i,
        {
            if self.connections[i].0 == *q {
                return Some(i);
            }
            i = i + 1;
        }
        None
    }

    fn find_port(&self, port: u16) -> (r: Option<usize>)
        ensures
            match r {
                Some(i) => i < self.pending@.len() && self.pending@[i as int].0 == port,
                None => !has_key(self.pending@, port),
            },
    {
        let mut i: usize = 0;
        while i < self.pending.len()
            invariant
                0 <= i <= self.pending@.len(),
                forall|j: int| 0 <= j < i ==> self.pending@[j].0 != port,
            decreases self.pending@.len() - i,
        {
            if self.pending[i].0 == port {
                return Some(i);
            }
            i = i + 1;
        }
        None
    }

    /// After the connection at position `i` changed in place, the table is
    /// still well-formed and maps its quad to the new value.
    proof fn lemma_replaced(old_cm: &Self, new_cm: &Self, i: int)
        requires
            old_cm.wf(),
            0 <= i < old_cm.connections@.len(),
            new_cm.connections@.len() == old_cm.connections@.len(),
            new_cm.connections@ == old_cm.connections@.update(
                i,
                (old_cm.connections@[i].0, new_cm.connections@[i].1),
            ),
            new_cm.pending@ == old_cm.pending@,
            new_cm.connections@[i].1@.send_times == old_cm.connections@[i].1@.send_times
                || times_sorted(new_cm.connections@[i].1@.send_times),
        ensures
            new_cm.wf(),
            new_cm.conns() == old_cm.conns().insert(
                old_cm.connections@[i].0,
                new_cm.connections@[i].1@,
            ),
            new_cm.pending() == old_cm.pending(),
            new_cm.order() == old_cm.order(),
    {
        lemma_update(old_cm.connections@, i, new_cm.connections@[i].1);
        lemma_index_of(old_cm.connections@, i);
        let k = old_cm.connections@[i].0;
        assert(old_cm.conns().contains_key(k));
        assert forall|q: Quad| #[trigger]
            new_cm.conns().contains_key(q) implies times_sorted(new_cm.conns()[q].send_times) by {
            if q != k {
                assert(old_cm.conns().contains_key(q));
            }
        }
        assert(new_cm.order() =~= old_cm.order());
        assert(new_cm.pending() == old_cm.pending());
        lemma_queues_keep(new_cm.pending(), old_cm.conns(), new_cm.conns());
    }

    /// Whether `q` waits in the accept queue of its port.
    fn is_queued(&self, q: &Quad) -> (r: bool)
        requires
            self.wf(),
        ensures
            r == queued(self.pending(), *q),
    {
        match self.find_port(q.dst.port) {
            None => false,
            Some(i) => {
                proof {
                    lemma_index_of(self.pending@, i as int);
                }
                let queue = &self.pending[i].1;
                assert(self.pending().contains_key(q.dst.port));
                let mut j: usize = 0;
                while j < queue.len()
                    invariant
                        0 <= j <= queue@.len(),
                        self.pending().contains_key(q.dst.port),
                        queue@ == self.pending()[q.dst.port],
                        forall|k: int| 0 <= k < j ==> queue@[k] != *q,
                    decreases queue@.len() - j,
                {
                    if queue[j] == *q {
                        assert(self.pending()[q.dst.port][j as int] == *q);
                        return true;
                    }
                    j = j + 1;
                }
                false
            },
        }
    }


    /// Demultiplexes one IPv4 datagram received at `now`: a segment of a
    /// known connection goes to it; a SYN to a bound port opens a
    /// connection and queues it for accept; anything else is dropped.
    /// Appends the datagrams emitted to `out`.
    pub fn on_frame(&mut self, frame: &[u8], now: u64, out: &mut Vec<Vec<u8>>) -> (r: Wake)
        requires
            old(self).wf(),
            frame@.len() <= 0xffff,
        ensures
            final(self).wf(),
            final(self).terminating() == old(self).terminating(),
            ({
                let b = frame@;
                let t = header_of(b);
                let q = datagram_quad(b);
                let conns = old(self).conns();
                let pending = old(self).pending();
                if !is_tcp_datagram(b) {
                    &&& r == Wake { read: false, accepted: false }
                    &&& final(self).conns() == conns
                    &&& final(self).pending() == pending
                    &&& final(self).order() == old(self).order()
                    &&& final(out)@ == old(out)@
                } else if conns.contains_key(q) {
                    let c = on_packet_view(conns[q], t, payload_of(b), now);
                    &&& r == Wake { read: availability_of(c).read, accepted: false }
                    &&& final(self).conns() == conns.insert(q, c)
                    &&& final(self).pending() == pending
                    &&& final(self).order() == old(self).order()
                    &&& frames(final(out)@) == frames(old(out)@) + on_packet_frames(
                        conns[q],
                        t,
                        payload_of(b),
                        now,
                    )
                } else if pending.contains_key(t.destination_port) && t.syn {
                    let ip = ipv4_info_of(b);
                    &&& r == Wake { read: false, accepted: true }
                    &&& final(self).conns() == conns.insert(q, accepted(ip, t, now))
                    &&& final(self).pending() == pending.insert(
                        t.destination_port,
                        pending[t.destination_port].push(q),
                    )
                    &&& final(self).order() == old(self).order().push(q)
                    &&& frames(final(out)@) == frames(old(out)@).push(syn_ack_frame(ip, t))
                } else {
                    &&& r == Wake { read: false, accepted: false }
                    &&& final(self).conns() == conns
                    &&& final(self).pending() == pending
                    &&& final(self).order() == old(self).order()
                    &&& final(out)@ == old(out)@
                }
            }),
    {
        let none = Wake { read: false, accepted: false };
        let iph = match parse_ipv4(frame) {
            Some(h) => h,
            None => {
                return none;
            },
        };
        if iph.protocol != PROTO_TCP {
            return none;
        }
        let seg = &frame[iph.header_len..frame.len()];
        assert(seg@ == segment_of(frame@));
        let tcph = match parse_tcp(seg) {
            Some(h) => h,
            None => {
                return none;
            },
        };
        let data = &seg[tcph.header_len..seg.len()];
        assert(data@ == payload_of(frame@));
        let q = Quad {
            src: Endpoint { addr: iph.source, port: tcph.source_port },
            dst: Endpoint { addr: iph.destination, port: tcph.destination_port },
        };
        match self.find_conn(&q) {
            Some(i) => {
                proof {
                    lemma_index_of(self.connections@, i as int);
                }
                let ghost before = *self;
                assert(self.conns().contains_key(q));
                let a = self.connections[i].1.on_packet(&tcph, data, now, out);
                proof {
                    assert(self.connections@ =~= before.connections@.update(
                        i as int,
                        (before.connections@[i as int].0, self.connections@[i as int].1),
                    ));
                    ConnectionManager::lemma_replaced(&before, self, i as int);
                }
                Wake { read: a.read, accepted: false }
            },
            None => {
                let j = match self.find_port(tcph.destination_port) {
                    Some(j) => j,
                    None => {
                        return none;
                    },
                };
                proof {
                    lemma_index_of(self.pending@, j as int);
                }
                let c = match Connection::accept(&iph, &tcph, now, out) {
                    Some(c) => c,
                    None => {
                        return none;
                    },
                };
                let ghost before = *self;
                let ghost old_pending = self.pending();
                proof {
                    lemma_push(before.connections@, q, c);
                }
                self.connections.push((q, c));
                assert(self.order() =~= before.order().push(q));
                assert forall|k: Quad| #[trigger]
                    self.conns().contains_key(k) implies times_sorted(self.conns()[k].send_times) by {
                    if k != q {
                        assert(before.conns().contains_key(k));
                    }
                }
                let (port, mut queue) = self.pending.remove(j);
                queue.push_back(q);
                self.pending.insert(j, (port, queue));
                proof {
                    assert(self.pending@ =~= before.pending@.update(j as int, (port, queue)));
                    lemma_update(before.pending@, j as int, queue);
                    assert forall|p: u16| #[trigger]
                        self.pending().contains_key(p) implies queue_ok(self.pending()[p], p, self.conns()) by {
                        assert(old_pending.contains_key(p));
                        let q0 = old_pending[p];
                        assert(queue_ok(q0, p, before.conns()));
                        if p == port {
                            let q1 = q0.push(q);
                            assert forall|a: int, b: int| 0 <= a < b < q1.len() implies q1[a] != q1[b] by {
                                if b == q0.len() {
                                    assert(before.conns().contains_key(q0[a]));
                                }
                            }
                            assert forall|a: int| 0 <= a < q1.len() implies self.conns().contains_key(
                                #[trigger] q1[a],
                            ) && q1[a].dst.port == p by {
                                if a < q0.len() {
                                    assert(q1[a] == q0[a]);
                                }
                            }
                        } else {
                            assert forall|a: int| 0 <= a < q0.len() implies self.conns().contains_key(
                                #[trigger] q0[a],
                            ) && q0[a].dst.port == p by {
                                assert(before.conns().contains_key(q0[a]));
                            }
                        }
                    }
                }
                Wake { read: false, accepted: true }
            },
        }
    }


    /// Timer tick at `now` for every connection, in table order; appends
    /// what they emit to `out`.
    pub fn on_tick(&mut self, now: u64, out: &mut Vec<Vec<u8>>)
        requires
            old(self).wf(),
        ensures
            final(self).wf(),
            final(self).terminating() == old(self).terminating(),
            final(self).pending() == old(self).pending(),
            final(self).order() == old(self).order(),
            final(self).conns() == old(self).conns().map_values(|c: ConnView| on_tick_view(c, now)),
            frames(final(out)@) == frames(old(out)@) + tick_frames(old(self).order(), old(self).conns(), now),
    {
        let ghost start = *self;
        let ghost s = self.connections@;
        let mut i: usize = 0;
        while i < self.connections.len()
            invariant
                start.wf(),
                s == start.connections@,
                self.pending@ == start.pending@,
                self.terminate == start.terminate,
                self.connections@.len() == s.len(),
                0 <= i <= s.len(),
                forall|j: int| 0 <= j < s.len() ==> #[trigger] self.connections@[j].0 == s[j].0,
                forall|j: int| 0 <= j < i ==> #[trigger] self.connections@[j].1@ == on_tick_view(s[j].1@, now),
                forall|j: int| i <= j < s.len() ==> #[trigger] self.connections@[j] == s[j],
                frames(out@) == frames(old(out)@) + tick_frames(start.order().take(i as int), start.conns(), now),
            decreases s.len() - i,
        {
            proof {
                lemma_index_of(s, i as int);
                assert(start.conns().contains_key(s[i as int].0));
                assert(start.order().take(i as int + 1).drop_last() =~= start.order().take(i as int));
            }
            self.connections[i].1.on_tick(now, out);
            i = i + 1;
            assert(frames(out@) =~= frames(old(out)@) + tick_frames(start.order().take(i as int), start.conns(), now));
        }
        proof {
            assert(start.order().take(s.len() as int) =~= start.order());
            assert(keys_unique(self.connections@));
            assert forall|k: Quad| has_key(self.connections@, k) == has_key(s, k) by {
                if has_key(s, k) {
                    let j = choose|j: int| 0 <= j < s.len() && s[j].0 == k;
                    assert(self.connections@[j].0 == k);
                }
                if has_key(self.connections@, k) {
                    let j = choose|j: int| 0 <= j < s.len() && self.connections@[j].0 == k;
                    assert(s[j].0 == k);
                }
            }
            assert forall|k: Quad| #[trigger] has_key(s, k) implies self.conns()[k] == on_tick_view(start.conns()[k], now) by {
                let j = choose|j: int| 0 <= j < s.len() && s[j].0 == k;
                lemma_index_of(s, j);
                assert(self.connections@[j].0 == k);
                lemma_index_of(self.connections@, j);
            }
            assert(self.conns() =~= start.conns().map_values(|c: ConnView| on_tick_view(c, now)));
            assert forall|k: Quad| #[trigger]
                self.conns().contains_key(k) implies times_sorted(self.conns()[k].send_times) by {
                lemma_tick_sorted(start.conns()[k], now);
            }
            assert(self.order() =~= start.order());
            assert(self.pending() == start.pending());
            lemma_queues_keep(self.pending(), start.conns(), self.conns());
        }
    }


    /// The connection with quad `q`, if any.
    pub fn connection(&self, q: &Quad) -> (r: Option<&Connection>)
        requires
            self.wf(),
        ensures
            r.is_some() == self.conns().contains_key(*q),
            r.is_some() ==> r.unwrap()@ == self.conns()[*q],
    {
        match self.find_conn(q) {
            None => None,
            Some(i) => {
                proof {
                    lemma_index_of(self.connections@, i as int);
                }
                Some(&self.connections[i].1)
            },
        }
    }

    /// Binds `port`: it gets an empty accept queue. Fails with `AddrInUse`
    /// if it is bound already.
    pub fn bind(&mut self, port: u16) -> (r: Result<TcpListener, TcpError>)
        requires
            old(self).wf(),
        ensures
            final(self).wf(),
            final(self).conns() == old(self).conns(),
            final(self).terminating() == old(self).terminating(),
            final(self).order() == old(self).order(),
            old(self).pending().contains_key(port) ==> r == Err::<TcpListener, TcpError>(
                TcpError::AddrInUse,
            ) && final(self).pending() == old(self).pending(),
            !old(self).pending().contains_key(port) ==> r.is_ok() && r.unwrap()@ == port
                && final(self).pending() == old(self).pending().insert(port, Seq::empty()),
    {
        match self.find_port(port) {
            Some(i) => {
                proof {
                    lemma_index_of(self.pending@, i as int);
                }
                Err(TcpError::AddrInUse)
            },
            None => {
                let ghost old_pending = self.pending();
                let queue: VecDeque<Quad> = VecDeque::new();
                proof {
                    lemma_push(self.pending@, port, queue);
                }
                self.pending.push((port, queue));
                assert(self.pending() == old_pending.insert(port, Seq::empty()));
                assert forall|p: u16| #[trigger]
                    self.pending().contains_key(p) implies queue_ok(self.pending()[p], p, self.conns()) by {
                    if p != port {
                        assert(old_pending.contains_key(p));
                    }
                }
                Ok(TcpListener { port })
            },
        }
    }
}


impl TcpListener {
    /// The bound port.
    pub fn port(&self) -> (r: u16)
        ensures
            r == self@,
    {
        self.port
    }

    /// Takes the oldest connection that arrived on the port. Fails with
    /// `WouldBlock` while none is waiting, and with `Aborted` if the port is
    /// no longer bound.
    pub fn accept(&mut self, cm: &mut ConnectionManager) -> (r: Result<TcpStream, TcpError>)
        requires
            old(cm).wf(),
        ensures
            final(cm).wf(),
            final(self)@ == old(self)@,
            final(cm).conns() == old(cm).conns(),
            final(cm).order() == old(cm).order(),
            final(cm).terminating() == old(cm).terminating(),
            !old(cm).pending().contains_key(old(self)@) ==> r == Err::<TcpStream, TcpError>(
                TcpError::Aborted,
            ) && final(cm).pending() == old(cm).pending(),
            old(cm).pending().contains_key(old(self)@) && old(cm).pending()[old(self)@].len() == 0 ==> r
                == Err::<TcpStream, TcpError>(TcpError::WouldBlock) && final(cm).pending() == old(
                cm,
            ).pending(),
            old(cm).pending().contains_key(old(self)@) && old(cm).pending()[old(self)@].len() > 0 ==> r.is_ok()
                && r.unwrap()@ == old(cm).pending()[old(self)@][0] && final(cm).pending() == old(
                cm,
            ).pending().insert(old(self)@, old(cm).pending()[old(self)@].drop_first()),
    {
        match cm.find_port(self.port) {
            None => Err(TcpError::Aborted),
            Some(i) => {
                proof {
                    lemma_index_of(cm.pending@, i as int);
                }
                if cm.pending[i].1.len() == 0 {
                    return Err(TcpError::WouldBlock);
                }
                let ghost before = cm.pending@;
                let ghost old_pending = cm.pending();
                let (port, mut queue) = cm.pending.remove(i);
                let quad = queue.pop_front().unwrap();
                cm.pending.insert(i, (port, queue));
                proof {
                    assert(cm.pending@ =~= before.update(i as int, (port, queue)));
                    lemma_update(before, i as int, queue);
                    assert(cm.pending() == old_pending.insert(port, old_pending[port].drop_first()));
                    assert forall|p: u16| #[trigger]
                        cm.pending().contains_key(p) implies queue_ok(cm.pending()[p], p, cm.conns()) by {
                        assert(old_pending.contains_key(p));
                        let q0 = old_pending[p];
                        assert(queue_ok(q0, p, cm.conns()));
                        if p == port {
                            let q1 = q0.drop_first();
                            assert forall|a: int, b: int| 0 <= a < b < q1.len() implies q1[a] != q1[b] by {
                                assert(q1[a] == q0[a + 1] && q1[b] == q0[b + 1]);
                            }
                            assert forall|a: int| 0 <= a < q1.len() implies cm.conns().contains_key(
                                #[trigger] q1[a],
                            ) && q1[a].dst.port == p by {
                                assert(q1[a] == q0[a + 1]);
                            }
                        }
                    }
                }
                Ok(TcpStream { quad })
            },
        }
    }

    /// Unbinds the port: its accept queue goes away, and every connection
    /// still waiting in it is reset and removed. Appends the resets to
    /// `out`.
    pub fn close(self, cm: &mut ConnectionManager, now: u64, out: &mut Vec<Vec<u8>>)
        requires
            old(cm).wf(),
        ensures
            final(cm).wf(),
            final(cm).terminating() == old(cm).terminating(),
            !old(cm).pending().contains_key(self@) ==> final(cm).conns() == old(cm).conns()
                && final(cm).pending() == old(cm).pending() && final(out)@ == old(out)@,
            old(cm).pending().contains_key(self@) ==> ({
                let qs = old(cm).pending()[self@];
                &&& final(cm).pending() == old(cm).pending().remove(self@)
                &&& final(cm).conns() == old(cm).conns().remove_keys(qs.to_set())
                &&& frames(final(out)@) == frames(old(out)@) + qs.map_values(
                    |q: Quad| rst_frame(old(cm).conns()[q]),
                )
            }),
    {
        let i = match cm.find_port(self.port) {
            None => {
                return;
            },
            Some(i) => i,
        };
        let ghost start = *cm;
        proof {
            lemma_index_of(cm.pending@, i as int);
            lemma_remove(cm.pending@, i as int);
        }
        let (port, queue) = cm.pending.remove(i);
        let ghost qs = queue@;
        assert(start.pending().contains_key(port));
        assert(qs == start.pending()[port]);
        assert(queue_ok(qs, port, start.conns()));
        let mut k: usize = 0;
        while k < queue.len()
            invariant
                start.wf(),
                queue@ == qs,
                qs == start.pending()[port],
                queue_ok(qs, port, start.conns()),
                0 <= k <= qs.len(),
                keys_unique(cm.connections@),
                keys_unique(cm.pending@),
                cm.pending() == start.pending().remove(port),
                cm.terminate == start.terminate,
                cm.conns() == start.conns().remove_keys(qs.take(k as int).to_set()),
                frames(out@) == frames(old(out)@) + qs.take(k as int).map_values(
                    |q: Quad| rst_frame(start.conns()[q]),
                ),
            decreases qs.len() - k,
        {
            let q = queue[k];
            let ghost cur = cm.conns();
            proof {
                assert(start.conns().contains_key(q));
                assert(!qs.take(k as int).to_set().contains(q)) by {
                    if qs.take(k as int).contains(q) {
                        let a = choose|a: int| 0 <= a < k && qs.take(k as int)[a] == q;
                        assert(qs[a] == qs[k as int]);
                    }
                }
                assert(cur.contains_key(q) && cur[q] == start.conns()[q]);
                assert(qs.take(k as int + 1) =~= qs.take(k as int).push(q));
                qs.take(k as int).lemma_push_to_set_commute(q);
                assert(qs.take(k as int + 1).to_set() =~= qs.take(k as int).to_set().insert(q));
            }
            match cm.find_conn(&q) {
                Some(j) => {
                    let ghost e0 = cm.connections@;
                    proof {
                        lemma_index_of(e0, j as int);
                    }
                    cm.connections[j].1.send_rst(now, out);
                    let ghost e1 = cm.connections@;
                    proof {
                        assert(e1 =~= e0.update(j as int, (q, e1[j as int].1)));
                        lemma_update(e0, j as int, e1[j as int].1);
                        lemma_remove(e1, j as int);
                    }
                    cm.connections.remove(j);
                    proof {
                        assert(cm.conns() =~= cur.remove(q));
                        assert(cm.conns() =~= start.conns().remove_keys(qs.take(k as int + 1).to_set()));
                        assert(frames(out@) =~= frames(old(out)@) + qs.take(k as int + 1).map_values(
                            |q: Quad| rst_frame(start.conns()[q]),
                        ));
                    }
                },
                None => {
                    assert(false);
                },
            }
            k = k + 1;
        }
        proof {
            assert(qs.take(qs.len() as int) =~= qs);
            assert forall|p: u16| #[trigger]
                cm.pending().contains_key(p) implies queue_ok(cm.pending()[p], p, cm.conns()) by {
                let q0 = start.pending()[p];
                assert(queue_ok(q0, p, start.conns()));
                assert forall|a: int| 0 <= a < q0.len() implies cm.conns().contains_key(
                    #[trigger] q0[a],
                ) && q0[a].dst.port == p by {
                    if qs.to_set().contains(q0[a]) {
                        let b = choose|b: int| 0 <= b < qs.len() && qs[b] == q0[a];
                        assert(qs[b].dst.port == port);
                    }
                }
            }
        }
    }
}

impl TcpStream {
    /// The connection's quad.
    pub fn quad(&self) -> (r: Quad)
        ensures
            r == self@,
    {
        self.quad
    }

    /// Reads up to `max` received bytes. Returns them when there are some;
    /// an empty vector once the peer has closed and all was read; fails
    /// with `WouldBlock` while there is nothing yet, and with `Aborted` when
    /// the connection is gone.
    pub fn read(&self, cm: &mut ConnectionManager, max: usize) -> (r: Result<Vec<u8>, TcpError>)
        requires
            old(cm).wf(),
        ensures
            final(cm).wf(),
            final(cm).pending() == old(cm).pending(),
            final(cm).order() == old(cm).order(),
            final(cm).terminating() == old(cm).terminating(),
            !old(cm).conns().contains_key(self@) ==> r == Err::<Vec<u8>, TcpError>(TcpError::Aborted)
                && final(cm).conns() == old(cm).conns(),
            old(cm).conns().contains_key(self@) ==> ({
                let c = old(cm).conns()[self@];
                let n = min(max as int, c.incoming.len() as int);
                if c.incoming.len() > 0 {
                    &&& r.is_ok()
                    &&& r.unwrap()@ == c.incoming.take(n)
                    &&& final(cm).conns() == old(cm).conns().insert(
                        self@,
                        ConnView { incoming: c.incoming.skip(n), ..c },
                    )
                } else if c.state == State::TimeWait {
                    &&& r.is_ok()
                    &&& r.unwrap()@.len() == 0
                    &&& final(cm).conns() == old(cm).conns()
                } else {
                    &&& r == Err::<Vec<u8>, TcpError>(TcpError::WouldBlock)
                    &&& final(cm).conns() == old(cm).conns()
                }
            }),
    {
        match cm.find_conn(&self.quad) {
            None => Err(TcpError::Aborted),
            Some(i) => {
                proof {
                    lemma_index_of(cm.connections@, i as int);
                }
                if cm.connections[i].1.is_rev_closed() && cm.connections[i].1.incoming_len() == 0 {
                    return Ok(Vec::new());
                }
                if cm.connections[i].1.incoming_len() == 0 {
                    return Err(TcpError::WouldBlock);
                }
                let ghost before = *cm;
                let data = cm.connections[i].1.take_incoming(max);
                proof {
                    assert(cm.connections@ =~= before.connections@.update(
                        i as int,
                        (before.connections@[i as int].0, cm.connections@[i as int].1),
                    ));
                    ConnectionManager::lemma_replaced(&before, cm, i as int);
                }
                Ok(data)
            },
        }
    }

    /// Queues bytes for sending: as many of `buf` as fit under
    /// `SENDQUEUE_SIZE`, returning how many. Fails with `WouldBlock` when
    /// the queue is full, and with `Aborted` when the connection is gone.
    pub fn write(&self, cm: &mut ConnectionManager, buf: &[u8]) -> (r: Result<usize, TcpError>)
        requires
            old(cm).wf(),
        ensures
            final(cm).wf(),
            final(cm).pending() == old(cm).pending(),
            final(cm).order() == old(cm).order(),
            final(cm).terminating() == old(cm).terminating(),
            !old(cm).conns().contains_key(self@) ==> r == Err::<usize, TcpError>(TcpError::Aborted)
                && final(cm).conns() == old(cm).conns(),
            old(cm).conns().contains_key(self@) ==> ({
                let c = old(cm).conns()[self@];
                let n = min(buf@.len() as int, SENDQUEUE_SIZE - c.unacked.len());
                if c.unacked.len() >= SENDQUEUE_SIZE {
                    &&& r == Err::<usize, TcpError>(TcpError::WouldBlock)
                    &&& final(cm).conns() == old(cm).conns()
                } else {
                    &&& r == Ok::<usize, TcpError>(n as usize)
                    &&& final(cm).conns() == old(cm).conns().insert(
                        self@,
                        ConnView { unacked: c.unacked + buf@.take(n), ..c },
                    )
                }
            }),
    {
        match cm.find_conn(&self.quad) {
            None => Err(TcpError::Aborted),
            Some(i) => {
                proof {
                    lemma_index_of(cm.connections@, i as int);
                }
                let queued = cm.connections[i].1.unacked_len();
                if queued >= SENDQUEUE_SIZE {
                    return Err(TcpError::WouldBlock);
                }
                let room = SENDQUEUE_SIZE - queued;
                let n = if buf.len() <= room {
                    buf.len()
                } else {
                    room
                };
                let ghost before = *cm;
                cm.connections[i].1.queue_unacked(&buf[0..n]);
                proof {
                    assert(cm.connections@ =~= before.connections@.update(
                        i as int,
                        (before.connections@[i as int].0, cm.connections@[i as int].1),
                    ));
                    ConnectionManager::lemma_replaced(&before, cm, i as int);
                }
                Ok(n)
            },
        }
    }

    /// Succeeds once every queued byte has been acknowledged; fails with
    /// `WouldBlock` before that, and with `Aborted` when the connection is
    /// gone.
    pub fn flush(&self, cm: &ConnectionManager) -> (r: Result<(), TcpError>)
        requires
            cm.wf(),
        ensures
            !cm.conns().contains_key(self@) ==> r == Err::<(), TcpError>(TcpError::Aborted),
            cm.conns().contains_key(self@) ==> (r == if cm.conns()[self@].unacked.len() == 0 {
                Ok::<(), TcpError>(())
            } else {
                Err::<(), TcpError>(TcpError::WouldBlock)
            }),
    {
        match cm.find_conn(&self.quad) {
            None => {
                assert(!cm.conns().contains_key(self@));
                Err(TcpError::Aborted)
            },
            Some(i) => {
                proof {
                    lemma_index_of(cm.connections@, i as int);
                }
                if cm.connections[i].1.unacked_len() == 0 {
                    Ok(())
                } else {
                    Err(TcpError::WouldBlock)
                }
            },
        }
    }

    /// Closes the sending side: the connection is marked closed, and a
    /// following tick emits our FIN. Fails with `Aborted` when the
    /// connection is gone.
    pub fn shutdown(&self, cm: &mut ConnectionManager) -> (r: Result<(), TcpError>)
        requires
            old(cm).wf(),
        ensures
            final(cm).wf(),
            final(cm).pending() == old(cm).pending(),
            final(cm).order() == old(cm).order(),
            final(cm).terminating() == old(cm).terminating(),
            !old(cm).conns().contains_key(self@) ==> r == Err::<(), TcpError>(TcpError::Aborted)
                && final(cm).conns() == old(cm).conns(),
            old(cm).conns().contains_key(self@) ==> r == Ok::<(), TcpError>(()) && final(cm).conns()
                == old(cm).conns().insert(self@, closed_view(old(cm).conns()[self@])),
    {
        match cm.find_conn(&self.quad) {
            None => Err(TcpError::Aborted),
            Some(i) => {
                proof {
                    lemma_index_of(cm.connections@, i as int);
                }
                let ghost before = *cm;
                let _ = cm.connections[i].1.close();
                proof {
                    assert(cm.connections@ =~= before.connections@.update(
                        i as int,
                        (before.connections@[i as int].0, cm.connections@[i as int].1),
                    ));
                    ConnectionManager::lemma_replaced(&before, cm, i as int);
                }
                Ok(())
            },
        }
    }

    /// Lets go of the stream. A connection in TIME-WAIT that no accept queue
    /// holds leaves the table; any other is closed, so that a following
    /// tick emits our FIN.
    pub fn close(self, cm: &mut ConnectionManager)
        requires
            old(cm).wf(),
        ensures
            final(cm).wf(),
            final(cm).pending() == old(cm).pending(),
            final(cm).terminating() == old(cm).terminating(),
            ({
                let q = self@;
                let conns = old(cm).conns();
                if !conns.contains_key(q) {
                    final(cm).conns() == conns
                } else if conns[q].state == State::TimeWait && !queued(old(cm).pending(), q) {
                    final(cm).conns() == conns.remove(q)
                } else {
                    final(cm).conns() == conns.insert(q, closed_view(conns[q]))
                }
            }),
    {
        match cm.find_conn(&self.quad) {
            None => {},
            Some(i) => {
                proof {
                    lemma_index_of(cm.connections@, i as int);
                }
                if cm.connections[i].1.is_rev_closed() && !cm.is_queued(&self.quad) {
                    let ghost before = *cm;
                    proof {
                        lemma_remove(before.connections@, i as int);
                    }
                    cm.connections.remove(i);
                    assert(cm.pending() == before.pending());
                    assert forall|p: u16| #[trigger]
                        cm.pending().contains_key(p) implies queue_ok(cm.pending()[p], p, cm.conns()) by {
                        let q0 = before.pending()[p];
                        assert(queue_ok(q0, p, before.conns()));
                        assert forall|a: int| 0 <= a < q0.len() implies cm.conns().contains_key(
                            #[trigger] q0[a],
                        ) && q0[a].dst.port == p by {
                            if q0[a] == self.quad {
                                assert(before.pending().contains_key(self.quad.dst.port));
                                assert(before.pending()[self.quad.dst.port].contains(self.quad));
                            }
                        }
                    }
                } else {
                    let ghost before = *cm;
                    let _ = cm.connections[i].1.close();
                    proof {
                        assert(cm.connections@ =~= before.connections@.update(
                            i as int,
                            (before.connections@[i as int].0, cm.connections@[i as int].1),
                        ));
                        ConnectionManager::lemma_replaced(&before, cm, i as int);
                    }
                }
            },
        }
    }
}

} // verus!
