//! IPv4 and TCP headers: reading the fields the endpoint needs, and building
//! the datagram of an emitted segment.

use vstd::prelude::*;

verus! {

/// Largest payload that fits one 1500-byte datagram after the IPv4 and TCP
/// headers (20 bytes each, no options).
pub const MAX_SEGMENT_DATA: usize = 1460;

/// The fields of an IPv4 header that the demultiplexer reads.
#[derive(Clone, Copy, Debug, PartialEq, Eq, Structural)]
pub struct Ipv4Info {
    /// Length of the header, options included, in bytes.
    pub header_len: usize,
    pub protocol: u8,
    pub source: u32,
    pub destination: u32,
}

/// The fields of a TCP header that the segment engine reads.
#[derive(Clone, Copy, Debug, PartialEq, Eq, Structural)]
pub struct TcpHeaderFields {
    /// Length of the header, options included, in bytes.
    pub header_len: usize,
    pub source_port: u16,
    pub destination_port: u16,
    pub sequence_number: u32,
    pub acknowledgment_number: u32,
    pub fin: bool,
    pub syn: bool,
    pub rst: bool,
    pub psh: bool,
    pub ack: bool,
    pub window_size: u16,
}

/// Everything that goes into the headers of an emitted segment.
#[derive(Clone, Copy, Debug, PartialEq, Eq, Structural)]
pub struct SegmentHeader {
    pub source: u32,
    pub destination: u32,
    pub time_to_live: u8,
    pub source_port: u16,
    pub destination_port: u16,
    pub sequence_number: u32,
    pub acknowledgment_number: u32,
    pub syn: bool,
    pub ack: bool,
    pub fin: bool,
    pub rst: bool,
    pub window_size: u16,
}

/// Big-endian 16-bit integer at `b[i..i + 2]`.
pub open spec fn be16(b: Seq<u8>, i: int) -> int {
    b[i] * 0x100 + b[i + 1]
}

/// Big-endian 32-bit integer at `b[i..i + 4]`.
pub open spec fn be32(b: Seq<u8>, i: int) -> int {
    be16(b, i) * 0x1_0000 + be16(b, i + 2)
}

/// Bit `k` of the byte `x`.
pub open spec fn bit(x: u8, k: nat) -> bool {
    (x as int / vstd::arithmetic::power2::pow2(k) as int) % 2 == 1
}

/// An IPv4 header can be read from the front of `b`: version 4, a header
/// length of at least five words that `b` holds, and a total length that
/// covers the header.
pub open spec fn ipv4_header_ok(b: Seq<u8>) -> bool {
    &&& b.len() >= 20
    &&& b[0] / 16 == 4
    &&& b[0] % 16 >= 5
    &&& b.len() >= (b[0] % 16) * 4
    &&& be16(b, 2) >= (b[0] % 16) * 4
}

/// A TCP header can be read from the front of `b`: a data offset of at least
/// five words that `b` holds.
pub open spec fn tcp_header_ok(b: Seq<u8>) -> bool {
    &&& b.len() >= 20
    &&& b[12] / 16 >= 5
    &&& b.len() >= (b[12] / 16) * 4
}

/// The bytes of an IPv4 datagram that carries one TCP segment with the given
/// header fields and payload, both checksums filled in.
pub uninterp spec fn tcp_frame(
    source: u32,
    destination: u32,
    time_to_live: u8,
    source_port: u16,
    destination_port: u16,
    sequence_number: u32,
    acknowledgment_number: u32,
    syn: bool,
    ack: bool,
    fin: bool,
    rst: bool,
    window_size: u16,
    payload: Seq<u8>,
) -> Seq<u8>;

/// The IPv4 header fields at the front of `b`.
pub open spec fn ipv4_info_of(b: Seq<u8>) -> Ipv4Info {
    Ipv4Info {
        header_len: ((b[0] % 16) * 4) as usize,
        protocol: b[9],
        source: be32(b, 12) as u32,
        destination: be32(b, 16) as u32,
    }
}

/// The TCP header fields at the front of `b`.
pub open spec fn tcp_fields_of(b: Seq<u8>) -> TcpHeaderFields {
    TcpHeaderFields {
        header_len: ((b[12] / 16) * 4) as usize,
        source_port: be16(b, 0) as u16,
        destination_port: be16(b, 2) as u16,
        sequence_number: be32(b, 4) as u32,
        acknowledgment_number: be32(b, 8) as u32,
        fin: bit(b[13], 0),
        syn: bit(b[13], 1),
        rst: bit(b[13], 2),
        psh: bit(b[13], 3),
        ack: bit(b[13], 4),
        window_size: be16(b, 14) as u16,
    }
}

/// Relies on etherparse's `Ipv4HeaderSlice::from_slice`, which accepts exactly
/// the slices of `ipv4_header_ok`, and on its accessors, which read the header
/// length, protocol (byte 9) and addresses (bytes 12 and 16) big-endian.
#[verifier::external_body]
pub fn parse_ipv4(frame: &[u8]) -> (r: Option<Ipv4Info>)
    ensures
        r == (if ipv4_header_ok(frame@) {
            Some(ipv4_info_of(frame@))
        } else {
            None
        }),
{
    match etherparse::Ipv4HeaderSlice::from_slice(frame) {
        Ok(h) => Some(Ipv4Info {
            header_len: h.slice().len(),
            protocol: h.protocol(),
            source: u32::from_be_bytes(h.source()),
            destination: u32::from_be_bytes(h.destination()),
        }),
        Err(_) => None,
    }
}

/// Relies on etherparse's `TcpHeaderSlice::from_slice`, which accepts exactly
/// the slices of `tcp_header_ok`, and on its accessors: ports, sequence and
/// acknowledgment numbers and window read big-endian, flags from byte 13.
#[verifier::external_body]
pub fn parse_tcp(b: &[u8]) -> (r: Option<TcpHeaderFields>)
    ensures
        r == (if tcp_header_ok(b@) {
            Some(tcp_fields_of(b@))
        } else {
            None
        }),
{
    match etherparse::TcpHeaderSlice::from_slice(b) {
        Ok(h) => Some(TcpHeaderFields {
            header_len: h.slice().len(),
            source_port: h.source_port(),
            destination_port: h.destination_port(),
            sequence_number: h.sequence_number(),
            acknowledgment_number: h.acknowledgment_number(),
            fin: h.fin(), syn: h.syn(), rst: h.rst(), psh: h.psh(), ack: h.ack(),
            window_size: h.window_size(),
        }),
        Err(_) => None,
    }
}

/// Relies on etherparse's `Ipv4Header` and `TcpHeader`: `new`,
/// `set_payload_len`, `calc_checksum_ipv4` and `write`. With no options and
/// at most `MAX_SEGMENT_DATA` payload bytes none of them fails, and the two
/// headers take 20 bytes each.
#[verifier::external_body]
pub(crate) fn encode_frame(h: &SegmentHeader, payload: &[u8]) -> (r: Vec<u8>)
    requires
        payload.len() <= MAX_SEGMENT_DATA,
    ensures
        r@ == tcp_frame(
            h.source,
            h.destination,
            h.time_to_live,
            h.source_port,
            h.destination_port,
            h.sequence_number,
            h.acknowledgment_number,
            h.syn,
            h.ack,
            h.fin,
            h.rst,
            h.window_size,
            payload@,
        ),
        r@.len() == 40 + payload.len(),
{
    let mut ip = etherparse::Ipv4Header::new(0, h.time_to_live, etherparse::IpNumber::Tcp as u8, h.source.to_be_bytes(), h.destination.to_be_bytes());
    let mut tcp = etherparse::TcpHeader::new(h.source_port, h.destination_port, h.sequence_number, h.window_size);
    (tcp.acknowledgment_number, tcp.syn, tcp.ack, tcp.fin, tcp.rst) = (h.acknowledgment_number, h.syn, h.ack, h.fin, h.rst);
    ip.set_payload_len(tcp.header_len() as usize + payload.len()).unwrap();
    tcp.checksum = tcp.calc_checksum_ipv4(&ip, payload).unwrap();
    let mut out = Vec::new();
    ip.write(&mut out).unwrap();
    tcp.write(&mut out).unwrap();
    out.extend_from_slice(payload);
    out
}

} // verus!
