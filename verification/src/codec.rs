//! Segment codec: the boundary between the verified engine and the
//! `etherparse` crate.
//!
//! Inbound datagrams are parsed into the plain field structs [`Ipv4Meta`]
//! and [`TcpMeta`]; outbound segments are serialised (IPv4 header, TCP
//! header, TCP checksum over the pseudo-header) into a single datagram.
//! Each call into `etherparse` stands behind a trusted wrapper whose result
//! is a function of its arguments alone and is therefore given a name
//! (`ipv4_meta_of`, `tcp_meta_of`, `segment_bytes_of`) that the engine's
//! contracts can speak of.
use vstd::prelude::*;

verus! {

/// The fields of one parsed IPv4 header that the engine reads.
/// Addresses are in host order.
#[derive(Clone, Copy, PartialEq, Eq, Structural, Debug)]
pub struct Ipv4Meta {
    pub src: u32,
    pub dst: u32,
    pub protocol: u8,
    pub header_len: usize,
}

/// The fields of one parsed TCP header that the engine reads, and the
/// fields it fixes when emitting a segment (`header_len` is then 20:
/// emitted segments carry no options).
#[derive(Clone, Copy, PartialEq, Eq, Structural, Debug)]
pub struct TcpMeta {
    pub src_port: u16,
    pub dst_port: u16,
    pub seq: u32,
    pub ack: u32,
    pub wnd: u16,
    pub syn: bool,
    pub ack_flag: bool,
    pub fin: bool,
    pub rst: bool,
    pub header_len: usize,
}

/// What `etherparse::Ipv4HeaderSlice::from_slice` extracts from a buffer:
/// `None` exactly when the buffer does not start with a well-formed IPv4
/// header.
pub uninterp spec fn ipv4_meta_of(b: Seq<u8>) -> Option<Ipv4Meta>;

/// What `etherparse::TcpHeaderSlice::from_slice` extracts from a buffer:
/// `None` exactly when the buffer does not start with a well-formed TCP
/// header.
pub uninterp spec fn tcp_meta_of(b: Seq<u8>) -> Option<TcpMeta>;

/// The serialised IPv4+TCP datagram with the given addresses, TCP fields
/// and payload: 20 bytes of IPv4 header (no options), 20 bytes of TCP
/// header (no options) with the checksum computed over the IPv4
/// pseudo-header, then the payload.
pub uninterp spec fn segment_bytes_of(src_ip: u32, dst_ip: u32, ttl: u8, tcp: TcpMeta, payload: Seq<u8>) -> Seq<u8>;

/// Relies on `etherparse::Ipv4HeaderSlice::from_slice`: reads one IPv4
/// header from the front of `buf`, rejecting a buffer that is too short,
/// has a version other than 4, or an IHL shorter than the fixed header.
/// The header length it reports is `IHL * 4`, between 20 and 60 bytes and
/// never past the end of `buf`.
#[verifier::external_body]
pub(crate) fn parse_ipv4(buf: &[u8]) -> (r: Option<Ipv4Meta>)
    ensures
        r == ipv4_meta_of(buf@),
        r matches Some(m) ==> 20 <= m.header_len <= 60 && m.header_len <= buf@.len(),
{
    match etherparse::Ipv4HeaderSlice::from_slice(buf) {
        Ok(h) => Some(Ipv4Meta {
            src: u32::from_be_bytes(h.source()),
            dst: u32::from_be_bytes(h.destination()),
            protocol: h.protocol().0,
            header_len: h.slice().len(),
        }),
        Err(_) => None,
    }
}

/// Relies on `etherparse::TcpHeaderSlice::from_slice`: reads one TCP
/// header from the front of `buf`, rejecting a buffer shorter than the
/// header or a data offset smaller than 5. The header length it reports
/// is `data offset * 4`, between 20 and 60 bytes and never past the end
/// of `buf`.
#[verifier::external_body]
pub(crate) fn parse_tcp(buf: &[u8]) -> (r: Option<TcpMeta>)
    ensures
        r == tcp_meta_of(buf@),
        r matches Some(m) ==> 20 <= m.header_len <= 60 && m.header_len <= buf@.len(),
{
    match etherparse::TcpHeaderSlice::from_slice(buf) {
        Ok(h) => Some(TcpMeta {
            src_port: h.source_port(),
            dst_port: h.destination_port(),
            seq: h.sequence_number(),
            ack: h.acknowledgment_number(),
            wnd: h.window_size(),
            syn: h.syn(),
            ack_flag: h.ack(),
            fin: h.fin(),
            rst: h.rst(),
            header_len: h.slice().len(),
        }),
        Err(_) => None,
    }
}

/// Relies on `etherparse::Ipv4Header::new`, `etherparse::TcpHeader::new`,
/// `TcpHeader::calc_checksum_ipv4` and the two `write` methods: builds the
/// IPv4 and TCP headers (both without options, hence 20 bytes each),
/// computes the TCP checksum over the IPv4 pseudo-header plus header plus
/// payload, and serialises header, header, payload into one datagram.
#[verifier::external_body]
pub(crate) fn encode_segment(src_ip: u32, dst_ip: u32, ttl: u8, ip_payload_len: u16, tcp: &TcpMeta, payload: &[u8]) -> (r: Vec<u8>)
    requires
        ip_payload_len == 20 + payload@.len(),
        payload@.len() + 40 <= 65535,
    ensures
        r@ == segment_bytes_of(src_ip, dst_ip, ttl, *tcp, payload@),
        r@.len() == 40 + payload@.len(),
{
    let iph = etherparse::Ipv4Header::new(ip_payload_len, ttl, etherparse::IpNumber::TCP,
        src_ip.to_be_bytes(), dst_ip.to_be_bytes()).unwrap();
    let mut tcph = etherparse::TcpHeader::new(tcp.src_port, tcp.dst_port, tcp.seq, tcp.wnd);
    tcph.acknowledgment_number = tcp.ack;
    tcph.syn = tcp.syn;
    tcph.ack = tcp.ack_flag;
    tcph.fin = tcp.fin;
    tcph.rst = tcp.rst;
    tcph.checksum = tcph.calc_checksum_ipv4(&iph, payload).unwrap();
    let mut out = Vec::new();
    iph.write(&mut out).unwrap();
    tcph.write(&mut out).unwrap();
    out.extend_from_slice(payload);
    out
}

} // verus!
