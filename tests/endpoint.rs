use etherparse::{Ipv4Header, PacketBuilder, TcpHeader};
use rust_tcp::tcp::{
    is_between_wrapped, segment_acceptable, wrapping_lt, Connection, Endpoint, Quad, State,
};
use rust_tcp::wire::{parse_ipv4, parse_tcp};
use rust_tcp::{ConnectionManager, TcpError, TcpListener, TcpStream, Wake};

const PEER: [u8; 4] = [10, 0, 0, 2];
const LOCAL: [u8; 4] = [10, 0, 0, 1];
const PEER_PORT: u16 = 40000;
const SECOND: u64 = 1_000_000_000;

fn quad_from(peer_port: u16) -> Quad {
    Quad {
        src: Endpoint { addr: u32::from_be_bytes(PEER), port: peer_port },
        dst: Endpoint { addr: u32::from_be_bytes(LOCAL), port: 9000 },
    }
}

fn quad() -> Quad {
    quad_from(PEER_PORT)
}

/// A datagram from the peer to local port 9000.
fn from_peer(peer_port: u16, seq: u32, ack: Option<u32>, syn: bool, fin: bool, data: &[u8]) -> Vec<u8> {
    let mut b = PacketBuilder::ipv4(PEER, LOCAL, 64).tcp(peer_port, 9000, seq, 64240);
    if syn {
        b = b.syn();
    }
    if fin {
        b = b.fin();
    }
    if let Some(a) = ack {
        b = b.ack(a);
    }
    let mut out = Vec::new();
    b.write(&mut out, data).unwrap();
    out
}

fn decode(frame: &[u8]) -> (Ipv4Header, TcpHeader, Vec<u8>) {
    let (ip, rest) = Ipv4Header::from_slice(frame).unwrap();
    let (tcp, payload) = TcpHeader::from_slice(rest).unwrap();
    (ip, tcp, payload.to_vec())
}

fn state(cm: &ConnectionManager) -> State {
    cm.connection(&quad()).unwrap().state()
}

/// Binds 9000, receives the peer's SYN, and returns the SYN-ACK.
fn syn_received(cm: &mut ConnectionManager) -> (TcpListener, Vec<u8>) {
    let l = cm.bind(9000).unwrap();
    let mut out = Vec::new();
    let w = cm.on_frame(&from_peer(PEER_PORT, 1000, None, true, false, &[]), 0, &mut out);
    assert_eq!(w, Wake { read: false, accepted: true });
    assert_eq!(out.len(), 1);
    (l, out.pop().unwrap())
}

/// Completes the handshake and accepts the stream.
fn established(cm: &mut ConnectionManager) -> (TcpListener, TcpStream) {
    let (mut l, _) = syn_received(cm);
    let mut out = Vec::new();
    cm.on_frame(&from_peer(PEER_PORT, 1001, Some(1), false, false, &[]), 0, &mut out);
    assert!(out.is_empty());
    let s = l.accept(cm).unwrap();
    (l, s)
}

#[test]
fn three_way_handshake() {
    let mut cm = ConnectionManager::new();
    let (mut l, synack) = syn_received(&mut cm);
    let (ip, tcp, payload) = decode(&synack);
    assert_eq!(ip.source, LOCAL);
    assert_eq!(ip.destination, PEER);
    assert_eq!(ip.time_to_live, 64);
    assert_eq!((tcp.source_port, tcp.destination_port), (9000, PEER_PORT));
    assert!(tcp.syn && tcp.ack && !tcp.fin && !tcp.rst);
    assert_eq!(tcp.sequence_number, 0);
    assert_eq!(tcp.acknowledgment_number, 1001);
    assert_eq!(tcp.window_size, 10);
    assert!(payload.is_empty());
    assert_eq!(state(&cm), State::SyncRcvd);

    let mut out = Vec::new();
    cm.on_frame(&from_peer(PEER_PORT, 1001, Some(1), false, false, &[]), 0, &mut out);
    assert_eq!(state(&cm), State::Estab);
    let s = l.accept(&mut cm).unwrap();
    assert_eq!(s.quad(), quad());
    assert_eq!(l.accept(&mut cm).err(), Some(TcpError::WouldBlock));
}

#[test]
fn payload_delivery() {
    let mut cm = ConnectionManager::new();
    let (_l, s) = established(&mut cm);
    let mut out = Vec::new();
    let w = cm.on_frame(&from_peer(PEER_PORT, 1001, Some(1), false, false, b"hello"), 0, &mut out);
    assert!(w.read);
    assert_eq!(out.len(), 1);
    let (_, tcp, payload) = decode(&out[0]);
    assert!(tcp.ack && !tcp.syn && !tcp.fin);
    assert_eq!(tcp.acknowledgment_number, 1006);
    assert_eq!(tcp.sequence_number, 1);
    assert!(payload.is_empty());
    assert_eq!(cm.connection(&quad()).unwrap().recv_nxt(), 1006);
    assert_eq!(s.read(&mut cm, 512).unwrap(), b"hello".to_vec());
    assert_eq!(s.read(&mut cm, 512).err(), Some(TcpError::WouldBlock));
}

#[test]
fn read_in_parts() {
    let mut cm = ConnectionManager::new();
    let (_l, s) = established(&mut cm);
    let mut out = Vec::new();
    cm.on_frame(&from_peer(PEER_PORT, 1001, Some(1), false, false, b"hello"), 0, &mut out);
    assert_eq!(s.read(&mut cm, 2).unwrap(), b"he".to_vec());
    assert_eq!(s.read(&mut cm, 10).unwrap(), b"llo".to_vec());
}

#[test]
fn out_of_window_segment() {
    let mut cm = ConnectionManager::new();
    let (_l, _s) = established(&mut cm);
    let mut out = Vec::new();
    cm.on_frame(&from_peer(PEER_PORT, 1001, Some(1), false, false, b"hello"), 0, &mut out);
    out.clear();
    cm.on_frame(&from_peer(PEER_PORT, 2000, Some(1), false, false, b"x"), 0, &mut out);
    assert_eq!(out.len(), 1);
    let (_, tcp, _) = decode(&out[0]);
    assert!(tcp.ack);
    assert_eq!(tcp.acknowledgment_number, 1006);
    let c = cm.connection(&quad()).unwrap();
    assert_eq!(c.incoming_len(), 5);
    assert_eq!(c.recv_nxt(), 1006);
}

#[test]
fn active_close() {
    let mut cm = ConnectionManager::new();
    let (_l, s) = established(&mut cm);
    let mut out = Vec::new();
    cm.on_frame(&from_peer(PEER_PORT, 1001, Some(1), false, false, b"hello"), 0, &mut out);
    out.clear();
    s.close(&mut cm);
    assert_eq!(state(&cm), State::FinWait1);
    cm.on_tick(SECOND / 2, &mut out);
    assert_eq!(out.len(), 1);
    let (_, tcp, payload) = decode(&out[0]);
    assert!(tcp.fin && tcp.ack);
    assert_eq!(tcp.sequence_number, 1);
    assert_eq!(tcp.acknowledgment_number, 1006);
    assert!(payload.is_empty());
    out.clear();

    cm.on_frame(&from_peer(PEER_PORT, 1006, Some(2), false, false, &[]), SECOND, &mut out);
    assert_eq!(state(&cm), State::FinWait2);
    assert!(out.is_empty());

    cm.on_frame(&from_peer(PEER_PORT, 1006, Some(2), false, true, &[]), SECOND, &mut out);
    assert_eq!(out.len(), 1);
    let (_, tcp, _) = decode(&out[0]);
    assert!(tcp.ack && !tcp.fin);
    assert_eq!(tcp.acknowledgment_number, 1007);
    assert_eq!(state(&cm), State::TimeWait);
}

#[test]
fn read_after_peer_close_returns_nothing() {
    let mut cm = ConnectionManager::new();
    let (_l, s) = established(&mut cm);
    let mut out = Vec::new();
    s.shutdown(&mut cm).unwrap();
    cm.on_tick(0, &mut out);
    cm.on_frame(&from_peer(PEER_PORT, 1001, Some(2), false, false, &[]), 0, &mut out);
    cm.on_frame(&from_peer(PEER_PORT, 1001, Some(2), false, true, &[]), 0, &mut out);
    assert_eq!(state(&cm), State::TimeWait);
    assert_eq!(s.read(&mut cm, 16).unwrap(), Vec::<u8>::new());
    s.close(&mut cm);
    assert!(cm.connection(&quad()).is_none());
}

#[test]
fn retransmission() {
    let mut cm = ConnectionManager::new();
    let (_l, s) = established(&mut cm);
    let data: Vec<u8> = (0..100u8).collect();
    assert_eq!(s.write(&mut cm, &data), Ok(100));
    let mut out = Vec::new();
    cm.on_tick(SECOND, &mut out);
    assert_eq!(out.len(), 1);
    let (_, first, first_payload) = decode(&out[0]);
    assert_eq!(first.sequence_number, 1);
    assert_eq!(first_payload, data[..10].to_vec());
    out.clear();

    // The handshake ACK arrived at once: srtt = (8 * 60 s + 2 * 0) / 10 = 48 s,
    // so the segment goes again only after 1.5 * 48 s = 72 s.
    cm.on_tick(SECOND + 72 * SECOND, &mut out);
    assert!(out.is_empty());

    cm.on_tick(SECOND + 73 * SECOND, &mut out);
    assert_eq!(out.len(), 1);
    let (_, again, again_payload) = decode(&out[0]);
    assert_eq!(again.sequence_number, 1);
    assert_eq!(again_payload, first_payload);
    out.clear();

    cm.on_frame(&from_peer(PEER_PORT, 1001, Some(11), false, false, &[]), 92 * SECOND, &mut out);
    let c = cm.connection(&quad()).unwrap();
    assert_eq!(c.send_times_len(), 0);
    assert_eq!(c.unacked_len(), 90);
    assert_eq!(c.send_una(), 11);
}

#[test]
fn double_bind() {
    let mut cm = ConnectionManager::new();
    let mut first = cm.bind(9000).unwrap();
    assert_eq!(cm.bind(9000).err(), Some(TcpError::AddrInUse));
    let mut out = Vec::new();
    cm.on_frame(&from_peer(PEER_PORT, 1000, None, true, false, &[]), 0, &mut out);
    let s = first.accept(&mut cm).unwrap();
    assert_eq!(s.quad(), quad());
    assert_eq!(first.port(), 9000);
}

#[test]
fn write_then_full_ack_drains() {
    let mut cm = ConnectionManager::new();
    let (_l, s) = established(&mut cm);
    assert_eq!(s.write(&mut cm, b"abcde"), Ok(5));
    assert_eq!(s.flush(&cm), Err(TcpError::WouldBlock));
    let mut out = Vec::new();
    cm.on_tick(0, &mut out);
    let (_, tcp, payload) = decode(&out[0]);
    assert_eq!(tcp.sequence_number, 1);
    assert_eq!(payload, b"abcde".to_vec());
    cm.on_frame(&from_peer(PEER_PORT, 1001, Some(6), false, false, &[]), 0, &mut out);
    let c = cm.connection(&quad()).unwrap();
    assert_eq!(c.unacked_len(), 0);
    assert_eq!(c.send_una(), 6);
    assert_eq!(c.send_una(), c.send_nxt());
    assert_eq!(s.flush(&cm), Ok(()));
}

#[test]
fn replayed_segment_only_acks_again() {
    let mut cm = ConnectionManager::new();
    let (_l, s) = established(&mut cm);
    let seg = from_peer(PEER_PORT, 1001, Some(1), false, false, b"hello");
    let mut out = Vec::new();
    cm.on_frame(&seg, 0, &mut out);
    assert_eq!(s.read(&mut cm, 64).unwrap(), b"hello".to_vec());
    out.clear();
    cm.on_frame(&seg, 0, &mut out);
    assert_eq!(out.len(), 1);
    let (_, tcp, _) = decode(&out[0]);
    assert_eq!(tcp.acknowledgment_number, 1006);
    let c = cm.connection(&quad()).unwrap();
    assert_eq!(c.incoming_len(), 0);
    assert_eq!(c.recv_nxt(), 1006);
    assert_eq!(c.state(), State::Estab);
}

#[test]
fn syn_retransmit_keeps_state() {
    let mut cm = ConnectionManager::new();
    let (mut l, _) = syn_received(&mut cm);
    let mut out = Vec::new();
    cm.on_frame(&from_peer(PEER_PORT, 1000, None, true, false, &[]), 0, &mut out);
    assert_eq!(out.len(), 1);
    let (_, tcp, _) = decode(&out[0]);
    assert_eq!(tcp.acknowledgment_number, 1001);
    let c = cm.connection(&quad()).unwrap();
    assert_eq!(c.state(), State::SyncRcvd);
    assert_eq!(c.recv_nxt(), 1001);
    assert_eq!(c.send_nxt(), 1);
    // Still queued once only.
    assert!(l.accept(&mut cm).is_ok());
    assert_eq!(l.accept(&mut cm).err(), Some(TcpError::WouldBlock));
}

#[test]
fn accept_queue_is_fifo() {
    let mut cm = ConnectionManager::new();
    let mut l = cm.bind(9000).unwrap();
    let mut out = Vec::new();
    cm.on_frame(&from_peer(40001, 7, None, true, false, &[]), 0, &mut out);
    cm.on_frame(&from_peer(40002, 9, None, true, false, &[]), 0, &mut out);
    assert_eq!(out.len(), 2);
    assert_eq!(l.accept(&mut cm).unwrap().quad(), quad_from(40001));
    assert_eq!(l.accept(&mut cm).unwrap().quad(), quad_from(40002));
}

#[test]
fn sequence_wrap_accepts() {
    assert!(segment_acceptable(u32::MAX, 64240, 0, 1));
    assert!(segment_acceptable(u32::MAX, 2, 0, 1));
    assert!(!segment_acceptable(u32::MAX, 1, 0, 1));
}

#[test]
fn zero_window_probe() {
    assert!(segment_acceptable(500, 0, 500, 0));
    assert!(!segment_acceptable(500, 0, 500, 1));
    assert!(!segment_acceptable(500, 0, 501, 0));
    assert!(!segment_acceptable(500, 0, 499, 0));
}

#[test]
fn acceptance_window_edges() {
    assert!(segment_acceptable(1000, 10, 1000, 0));
    assert!(segment_acceptable(1000, 10, 1009, 0));
    assert!(!segment_acceptable(1000, 10, 1010, 0));
    assert!(!segment_acceptable(1000, 10, 999, 0));
    // The last byte inside the window is enough.
    assert!(segment_acceptable(1000, 10, 995, 6));
    assert!(!segment_acceptable(1000, 10, 995, 5));
    // Same inputs, same answer.
    assert_eq!(segment_acceptable(7, 3, 8, 1), segment_acceptable(7, 3, 8, 1));
}

#[test]
fn wrapping_order() {
    assert!(wrapping_lt(1, 2));
    assert!(!wrapping_lt(2, 1));
    assert!(!wrapping_lt(5, 5));
    assert!(wrapping_lt(u32::MAX, 0));
    assert!(!wrapping_lt(0, u32::MAX));
    assert!(wrapping_lt(0, 0x7fff_ffff));
    assert!(!wrapping_lt(0, 0x8000_0000));
    assert!(!wrapping_lt(0x8000_0000, 0));
    assert!(is_between_wrapped(u32::MAX, 0, 1));
    assert!(!is_between_wrapped(0, 0, 1));
}

#[test]
fn send_window_is_respected() {
    let mut cm = ConnectionManager::new();
    let (_l, s) = established(&mut cm);
    assert_eq!(s.write(&mut cm, &[7u8; 30]), Ok(30));
    let mut out = Vec::new();
    cm.on_tick(0, &mut out);
    cm.on_tick(0, &mut out);
    assert_eq!(out.len(), 1);
    let c = cm.connection(&quad()).unwrap();
    assert_eq!(c.send_nxt().wrapping_sub(c.send_una()), 10);
}

#[test]
fn write_limits() {
    let mut cm = ConnectionManager::new();
    let (_l, s) = established(&mut cm);
    assert_eq!(s.write(&mut cm, &vec![1u8; 1000]), Ok(1000));
    assert_eq!(s.write(&mut cm, &vec![1u8; 100]), Ok(24));
    assert_eq!(s.write(&mut cm, &[1u8]), Err(TcpError::WouldBlock));
}

#[test]
fn gone_connection_is_aborted() {
    let mut cm = ConnectionManager::new();
    let (_l, s) = established(&mut cm);
    let mut other = ConnectionManager::new();
    assert_eq!(s.read(&mut other, 4).err(), Some(TcpError::Aborted));
    assert_eq!(s.write(&mut other, b"x").err(), Some(TcpError::Aborted));
    assert_eq!(s.flush(&other).err(), Some(TcpError::Aborted));
    assert_eq!(s.shutdown(&mut other).err(), Some(TcpError::Aborted));
}

#[test]
fn listener_close_resets_waiting_connections() {
    let mut cm = ConnectionManager::new();
    let (l, _) = syn_received(&mut cm);
    let mut out = Vec::new();
    l.close(&mut cm, 0, &mut out);
    assert_eq!(out.len(), 1);
    let (_, tcp, _) = decode(&out[0]);
    assert!(tcp.rst);
    assert!(cm.connection(&quad()).is_none());
    assert!(cm.bind(9000).is_ok());
}

#[test]
fn unknown_segments_are_dropped() {
    let mut cm = ConnectionManager::new();
    let _l = cm.bind(9000).unwrap();
    let mut out = Vec::new();
    // Not a SYN.
    let w = cm.on_frame(&from_peer(PEER_PORT, 5, Some(1), false, false, &[]), 0, &mut out);
    assert_eq!(w, Wake { read: false, accepted: false });
    // Not IPv4.
    cm.on_frame(&[0x60, 0, 0, 0], 0, &mut out);
    // Not TCP.
    let mut udp = Vec::new();
    PacketBuilder::ipv4(PEER, LOCAL, 64).udp(1, 9000).write(&mut udp, b"hi").unwrap();
    cm.on_frame(&udp, 0, &mut out);
    // No listener on the port.
    let mut other = Vec::new();
    PacketBuilder::ipv4(PEER, LOCAL, 64).tcp(PEER_PORT, 81, 5, 100).syn().write(&mut other, &[]).unwrap();
    cm.on_frame(&other, 0, &mut out);
    assert!(out.is_empty());
    assert!(cm.connection(&quad()).is_none());
}

#[test]
fn header_parsing() {
    let f = from_peer(PEER_PORT, 0x0102_0304, Some(0x0a0b_0c0d), true, true, b"xyz");
    let ip = parse_ipv4(&f).unwrap();
    assert_eq!(ip.header_len, 20);
    assert_eq!(ip.protocol, 6);
    assert_eq!(ip.source, 0x0a00_0002);
    assert_eq!(ip.destination, 0x0a00_0001);
    let t = parse_tcp(&f[20..]).unwrap();
    assert_eq!(t.header_len, 20);
    assert_eq!((t.source_port, t.destination_port), (PEER_PORT, 9000));
    assert_eq!(t.sequence_number, 0x0102_0304);
    assert_eq!(t.acknowledgment_number, 0x0a0b_0c0d);
    assert!(t.syn && t.fin && t.ack && !t.rst && !t.psh);
    assert_eq!(t.window_size, 64240);
    assert!(parse_ipv4(&f[..10]).is_none());
    assert!(parse_tcp(&f[20..30]).is_none());
}

#[test]
fn connection_accept_needs_syn() {
    let f = from_peer(PEER_PORT, 1000, None, false, false, &[]);
    let ip = parse_ipv4(&f).unwrap();
    let t = parse_tcp(&f[20..]).unwrap();
    let mut out = Vec::new();
    assert!(Connection::accept(&ip, &t, 0, &mut out).is_none());
    assert!(out.is_empty());
    let f = from_peer(PEER_PORT, u32::MAX, None, true, false, &[]);
    let t = parse_tcp(&f[20..]).unwrap();
    let c = Connection::accept(&ip, &t, 0, &mut out).unwrap();
    assert_eq!(c.recv_nxt(), 0);
    assert_eq!(c.send_nxt(), 1);
    assert_eq!(c.send_una(), 0);
    assert_eq!(c.send_times_len(), 1);
    assert!(!c.have_sent_fin());
    assert!(!State::SyncRcvd.is_synchronized());
    assert!(State::Estab.is_synchronized());
}

#[test]
fn close_in_time_wait_fails() {
    let mut cm = ConnectionManager::new();
    let (_l, s) = established(&mut cm);
    let mut out = Vec::new();
    s.shutdown(&mut cm).unwrap();
    cm.on_tick(0, &mut out);
    cm.on_frame(&from_peer(PEER_PORT, 1001, Some(2), false, false, &[]), 0, &mut out);
    cm.on_frame(&from_peer(PEER_PORT, 1001, Some(2), false, true, &[]), 0, &mut out);
    assert_eq!(state(&cm), State::TimeWait);
    assert!(cm.connection(&quad()).unwrap().is_rev_closed());
    assert!(cm.connection(&quad()).unwrap().availability().read);
}

#[test]
fn connection_close_after_time_wait_is_aborted() {
    let f = from_peer(PEER_PORT, 1000, None, true, false, &[]);
    let ip = parse_ipv4(&f).unwrap();
    let mut out = Vec::new();
    let mut c = Connection::accept(&ip, &parse_tcp(&f[20..]).unwrap(), 0, &mut out).unwrap();
    let ack = from_peer(PEER_PORT, 1001, Some(1), false, false, &[]);
    c.on_packet(&parse_tcp(&ack[20..]).unwrap(), &[], 0, &mut out);
    assert_eq!(c.state(), State::Estab);
    assert_eq!(c.close(), Ok(()));
    assert_eq!(c.state(), State::FinWait1);
    assert!(c.have_sent_fin());
    out.clear();
    c.on_tick(0, &mut out);
    let (_, tcp, _) = decode(&out[0]);
    assert!(tcp.fin);
    assert_eq!(tcp.sequence_number, 1);
    let fin_ack = from_peer(PEER_PORT, 1001, Some(2), false, false, &[]);
    c.on_packet(&parse_tcp(&fin_ack[20..]).unwrap(), &[], 0, &mut out);
    assert_eq!(c.state(), State::FinWait2);
    // Nothing more to send in FIN-WAIT-2.
    out.clear();
    c.on_tick(1000 * SECOND, &mut out);
    assert!(out.is_empty());
    let peer_fin = from_peer(PEER_PORT, 1001, Some(2), false, true, &[]);
    let a = c.on_packet(&parse_tcp(&peer_fin[20..]).unwrap(), &[], 0, &mut out);
    assert_eq!(c.state(), State::TimeWait);
    assert!(a.read && !a.write);
    assert_eq!(c.recv_nxt(), 1002);
    assert_eq!(c.close(), Err(TcpError::Aborted));
}

#[test]
fn reset_is_emitted_at_send_next() {
    let f = from_peer(PEER_PORT, 1000, None, true, false, &[]);
    let ip = parse_ipv4(&f).unwrap();
    let mut out = Vec::new();
    let mut c = Connection::accept(&ip, &parse_tcp(&f[20..]).unwrap(), 0, &mut out).unwrap();
    out.clear();
    c.send_rst(0, &mut out);
    let (_, tcp, _) = decode(&out[0]);
    assert!(tcp.rst && tcp.ack);
    assert_eq!(tcp.sequence_number, 1);
    assert_eq!(tcp.acknowledgment_number, 1001);
}
