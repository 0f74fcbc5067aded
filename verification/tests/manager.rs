//! End-to-end scenarios through the connection manager: handshake, echo,
//! orderly close, retransmission, duplicate and out-of-window segments,
//! bind collisions and the socket-facade errors.
use rtcp::iface::ConnectionManager;
use rtcp::tcp::State;
use rtcp::{Quad, TcpError};

const PEER_IP: u32 = 0x0A00_0001;
const LOCAL_IP: u32 = 0x0A00_0002;
const PEER_PORT: u16 = 45000;

/// One IPv4+TCP datagram from the peer's side, built with the codec's
/// own crate.
fn segment(
    port: u16,
    seq: u32,
    ack: u32,
    wnd: u16,
    syn: bool,
    ack_flag: bool,
    fin: bool,
    payload: &[u8],
) -> Vec<u8> {
    let ip = etherparse::Ipv4Header::new(
        (20 + payload.len()) as u16,
        64,
        etherparse::IpNumber::TCP,
        PEER_IP.to_be_bytes(),
        LOCAL_IP.to_be_bytes(),
    )
    .unwrap();
    let mut tcp = etherparse::TcpHeader::new(PEER_PORT, port, seq, wnd);
    tcp.acknowledgment_number = ack;
    tcp.syn = syn;
    tcp.ack = ack_flag;
    tcp.fin = fin;
    tcp.checksum = tcp.calc_checksum_ipv4(&ip, payload).unwrap();
    let mut out = Vec::new();
    ip.write(&mut out).unwrap();
    tcp.write(&mut out).unwrap();
    out.extend_from_slice(payload);
    out
}

/// The fields of one datagram the engine emitted.
struct Seg {
    seq: u32,
    ack: u32,
    wnd: u16,
    syn: bool,
    ack_flag: bool,
    fin: bool,
    rst: bool,
    payload: Vec<u8>,
}

fn parse(dg: &[u8]) -> Seg {
    let iph = etherparse::Ipv4HeaderSlice::from_slice(dg).unwrap();
    assert_eq!(iph.source(), LOCAL_IP.to_be_bytes());
    assert_eq!(iph.destination(), PEER_IP.to_be_bytes());
    let rest = &dg[iph.slice().len()..];
    let tcph = etherparse::TcpHeaderSlice::from_slice(rest).unwrap();
    Seg {
        seq: tcph.sequence_number(),
        ack: tcph.acknowledgment_number(),
        wnd: tcph.window_size(),
        syn: tcph.syn(),
        ack_flag: tcph.ack(),
        fin: tcph.fin(),
        rst: tcph.rst(),
        payload: rest[tcph.slice().len()..].to_vec(),
    }
}

/// Three-way handshake on `port` with ISS 1000 and the given peer
/// window; returns the accepted four-tuple.
fn handshake(mgr: &mut ConnectionManager, port: u16, wnd: u16, now: u64) -> Quad {
    mgr.bind(port).unwrap();
    let (out, wake) = mgr.on_datagram(&segment(port, 1000, 0, wnd, true, false, false, &[]), now);
    assert_eq!(out.len(), 1);
    let synack = parse(&out[0]);
    assert!(synack.syn && synack.ack_flag);
    assert_eq!(synack.seq, 0);
    assert_eq!(synack.ack, 1001);
    assert_eq!(synack.wnd, 10);
    assert!(wake.accepted);
    let quad = mgr.accept_quad(port).unwrap().unwrap();
    assert_eq!(quad.src_ip, PEER_IP);
    assert_eq!(quad.src_port, PEER_PORT);
    assert_eq!(quad.dst_ip, LOCAL_IP);
    assert_eq!(quad.dst_port, port);
    let (out, _) = mgr.on_datagram(&segment(port, 1001, 1, wnd, false, true, false, &[]), now);
    assert_eq!(out.len(), 0);
    quad
}

fn conn_of<'a>(mgr: &'a ConnectionManager, quad: &Quad) -> &'a rtcp::tcp::Connection {
    &mgr.connections.iter().find(|e| e.0 == *quad).unwrap().1
}

#[test]
fn three_way_handshake() {
    let mut mgr = ConnectionManager::new();
    let quad = handshake(&mut mgr, 8080, 4096, 0);
    let c = conn_of(&mgr, &quad);
    assert!(matches!(c.state, State::Estab));
    assert_eq!(c.send.una, 1);
    assert_eq!(c.recv.nxt, 1001);
}

#[test]
fn echo_one_byte() {
    let mut mgr = ConnectionManager::new();
    let quad = handshake(&mut mgr, 8080, 4096, 0);
    let (out, wake) = mgr.on_datagram(&segment(8080, 1001, 1, 4096, false, true, false, b"X"), 0);
    assert_eq!(out.len(), 1);
    let ack = parse(&out[0]);
    assert!(ack.ack_flag && !ack.syn && !ack.fin);
    assert_eq!(ack.seq, 1);
    assert_eq!(ack.ack, 1002);
    assert!(ack.payload.is_empty());
    assert!(wake.read_ready);
    assert_eq!(conn_of(&mgr, &quad).recv.nxt, 1002);
    let mut buf = mgr.read(quad, 16).unwrap();
    assert_eq!(buf.len(), 1);
    assert_eq!(buf.pop().unwrap(), b'X');
}

#[test]
fn orderly_close_from_peer() {
    let mut mgr = ConnectionManager::new();
    let quad = handshake(&mut mgr, 8080, 4096, 0);
    let (out, _) = mgr.on_datagram(&segment(8080, 1001, 1, 4096, false, true, false, b"X"), 0);
    assert_eq!(out.len(), 1);
    assert_eq!(mgr.read(quad, 16).unwrap(), vec![b'X']);
    let (out, wake) = mgr.on_datagram(&segment(8080, 1002, 1, 4096, false, true, true, &[]), 0);
    assert_eq!(out.len(), 1);
    let ack = parse(&out[0]);
    assert_eq!(ack.seq, 1);
    assert_eq!(ack.ack, 1003);
    assert!(wake.read_ready);
    assert!(matches!(conn_of(&mgr, &quad).state, State::CloseWait));
    // the application sees end-of-file
    assert_eq!(mgr.read(quad, 16).unwrap(), Vec::<u8>::new());
    // and a local close is no longer an orderly transition
    assert_eq!(mgr.shutdown(quad), Err(TcpError::NotConnected));
}

#[test]
fn retransmit_on_loss_skips_srtt_sample() {
    let mut mgr = ConnectionManager::new();
    let quad = handshake(&mut mgr, 8080, 4096, 0);
    // the handshake ACK at time 0 sampled the SYN|ACK round trip:
    // srtt = (4 * 60000 + 0) / 5
    assert_eq!(conn_of(&mgr, &quad).timers.srtt, 48_000);
    assert_eq!(mgr.write(quad, b"hello"), Ok(5));
    // first transmission
    let out = mgr.on_tick_all(10_000);
    assert_eq!(out.len(), 1);
    let first = parse(&out[0]);
    assert_eq!(first.seq, 1);
    assert_eq!(first.payload, b"hello");
    // the segment is "lost": no ACK arrives. Too early to retransmit:
    assert_eq!(mgr.on_tick_all(10_500).len(), 0);
    assert_eq!(mgr.on_tick_all(11_600).len(), 0);
    // after more than max(1 s, 1.5 * srtt) the engine resends from UNA
    let out = mgr.on_tick_all(10_000 + 73_000);
    assert_eq!(out.len(), 1);
    let again = parse(&out[0]);
    assert_eq!(again.seq, 1);
    assert_eq!(again.payload, b"hello");
    // the late ACK of a retransmitted segment leaves the estimate alone
    let (out, _) = mgr.on_datagram(&segment(8080, 1001, 6, 4096, false, true, false, &[]), 90_000);
    assert_eq!(out.len(), 0);
    let c = conn_of(&mgr, &quad);
    assert_eq!(c.send.una, 6);
    assert_eq!(c.timers.srtt, 48_000);
    assert_eq!(mgr.flush(quad), Ok(()));
}

#[test]
fn acknowledged_first_try_updates_srtt() {
    let mut mgr = ConnectionManager::new();
    let quad = handshake(&mut mgr, 8080, 4096, 0);
    assert_eq!(mgr.write(quad, b"hi"), Ok(2));
    assert_eq!(mgr.flush(quad), Err(TcpError::WouldBlock));
    let out = mgr.on_tick_all(20_000);
    assert_eq!(out.len(), 1);
    // acknowledged 100 ms later, on the first transmission
    let (out, _) = mgr.on_datagram(&segment(8080, 1001, 3, 4096, false, true, false, &[]), 20_100);
    assert_eq!(out.len(), 0);
    let c = conn_of(&mgr, &quad);
    assert_eq!(c.send.una, 3);
    // srtt = (4 * 48000 + 100) / 5
    assert_eq!(c.timers.srtt, 38_420);
    assert_eq!(mgr.flush(quad), Ok(()));
}

#[test]
fn unacceptable_segment_elicits_ack() {
    let mut mgr = ConnectionManager::new();
    mgr.bind(9000).unwrap();
    // SYN with ISS 4999 puts RCV.NXT at 5000; a small window keeps 9000
    // outside of it
    let (out, _) = mgr.on_datagram(&segment(9000, 4999, 0, 1000, true, false, false, &[]), 0);
    assert_eq!(out.len(), 1);
    let (out, _) = mgr.on_datagram(&segment(9000, 5000, 1, 1000, false, true, false, &[]), 0);
    assert_eq!(out.len(), 0);
    let quad = mgr.accept_quad(9000).unwrap().unwrap();
    assert_eq!(conn_of(&mgr, &quad).recv.nxt, 5000);
    let (out, _) = mgr.on_datagram(&segment(9000, 9000, 1, 1000, false, true, false, &[]), 0);
    assert_eq!(out.len(), 1);
    let ack = parse(&out[0]);
    assert!(ack.ack_flag && !ack.rst);
    assert_eq!(ack.seq, 1);
    assert_eq!(ack.ack, 5000);
    assert!(ack.payload.is_empty());
    assert_eq!(conn_of(&mgr, &quad).recv.nxt, 5000);
}

#[test]
fn bind_collision() {
    let mut mgr = ConnectionManager::new();
    assert_eq!(mgr.bind(9000), Ok(()));
    assert_eq!(mgr.bind(9000), Err(TcpError::AddressInUse));
    // a different port is free, and unbinding frees the first
    assert_eq!(mgr.bind(9001), Ok(()));
    assert!(mgr.unbind(9000));
    assert!(!mgr.unbind(9000));
    assert_eq!(mgr.bind(9000), Ok(()));
}

#[test]
fn duplicate_data_segment_is_ignored() {
    let mut mgr = ConnectionManager::new();
    let quad = handshake(&mut mgr, 8080, 4096, 0);
    let (out, _) = mgr.on_datagram(&segment(8080, 1001, 1, 4096, false, true, false, b"X"), 0);
    assert_eq!(out.len(), 1);
    assert_eq!(mgr.read(quad, 16).unwrap(), vec![b'X']);
    // the peer retransmits the same byte: one bare ACK, no new data
    let (out, _) = mgr.on_datagram(&segment(8080, 1001, 1, 4096, false, true, false, b"X"), 0);
    assert_eq!(out.len(), 1);
    let ack = parse(&out[0]);
    assert_eq!(ack.ack, 1002);
    assert!(ack.payload.is_empty());
    assert_eq!(conn_of(&mgr, &quad).recv.nxt, 1002);
    assert_eq!(mgr.read(quad, 16), Err(TcpError::WouldBlock));
}

#[test]
fn local_close_emits_fin_and_finishes() {
    let mut mgr = ConnectionManager::new();
    let quad = handshake(&mut mgr, 8080, 4096, 0);
    assert_eq!(mgr.shutdown(quad), Ok(()));
    assert!(matches!(conn_of(&mgr, &quad).state, State::FinWait1));
    // write after shutdown is refused
    assert_eq!(mgr.write(quad, b"no"), Err(TcpError::NotConnected));
    // the next tick emits the FIN
    let out = mgr.on_tick_all(5_000);
    assert_eq!(out.len(), 1);
    let fin = parse(&out[0]);
    assert!(fin.fin && fin.ack_flag);
    assert_eq!(fin.seq, 1);
    assert!(fin.payload.is_empty());
    // peer acknowledges our FIN
    let (out, _) = mgr.on_datagram(&segment(8080, 1001, 2, 4096, false, true, false, &[]), 5_010);
    assert_eq!(out.len(), 0);
    assert!(matches!(conn_of(&mgr, &quad).state, State::FinWait2));
    // peer sends its own FIN
    let (out, _) = mgr.on_datagram(&segment(8080, 1001, 2, 4096, false, true, true, &[]), 5_020);
    assert_eq!(out.len(), 1);
    let ack = parse(&out[0]);
    assert_eq!(ack.ack, 1002);
    assert!(matches!(conn_of(&mgr, &quad).state, State::TimeWait));
    assert_eq!(mgr.read(quad, 16).unwrap(), Vec::<u8>::new());
}

#[test]
fn bad_ack_in_syn_rcvd_elicits_rst() {
    let mut mgr = ConnectionManager::new();
    mgr.bind(8080).unwrap();
    let (out, _) = mgr.on_datagram(&segment(8080, 1000, 0, 4096, true, false, false, &[]), 0);
    assert_eq!(out.len(), 1);
    let quad = mgr.accept_quad(8080).unwrap().unwrap();
    // an ACK far outside (UNA - 1, NXT + 1)
    let (out, _) = mgr.on_datagram(&segment(8080, 1001, 55_555, 4096, false, true, false, &[]), 0);
    assert_eq!(out.len(), 1);
    let rst = parse(&out[0]);
    assert!(rst.rst);
    assert!(!rst.ack_flag);
    assert_eq!(rst.seq, 55_555);
    assert!(matches!(conn_of(&mgr, &quad).state, State::SyncRcvd));
}

#[test]
fn write_fills_up_to_the_queue_cap() {
    let mut mgr = ConnectionManager::new();
    let quad = handshake(&mut mgr, 8080, 4096, 0);
    let big = vec![7u8; 2000];
    assert_eq!(mgr.write(quad, &big), Ok(1024));
    assert_eq!(mgr.write(quad, b"x"), Err(TcpError::WouldBlock));
}

#[test]
fn operations_on_unknown_quad_are_aborted() {
    let mut mgr = ConnectionManager::new();
    let quad = Quad { src_ip: 1, src_port: 2, dst_ip: 3, dst_port: 4 };
    assert_eq!(mgr.read(quad, 16), Err(TcpError::ConnectionAborted));
    assert_eq!(mgr.write(quad, b"x"), Err(TcpError::ConnectionAborted));
    assert_eq!(mgr.flush(quad), Err(TcpError::ConnectionAborted));
    assert_eq!(mgr.shutdown(quad), Err(TcpError::ConnectionAborted));
    assert_eq!(mgr.accept_quad(7), Err(TcpError::ConnectionAborted));
}

#[test]
fn non_tcp_datagrams_are_ignored() {
    let mut mgr = ConnectionManager::new();
    mgr.bind(8080).unwrap();
    // far too short to be an IPv4 header
    let (out, wake) = mgr.on_datagram(&[0x45, 0x00, 0x00], 0);
    assert_eq!(out.len(), 0);
    assert!(!wake.accepted && !wake.read_ready);
    // a well-formed datagram that is not TCP
    let ip = etherparse::Ipv4Header::new(
        4,
        64,
        etherparse::IpNumber::UDP,
        PEER_IP.to_be_bytes(),
        LOCAL_IP.to_be_bytes(),
    )
    .unwrap();
    let mut dg = Vec::new();
    ip.write(&mut dg).unwrap();
    dg.extend_from_slice(&[1, 2, 3, 4]);
    let (out, _) = mgr.on_datagram(&dg, 0);
    assert_eq!(out.len(), 0);
    assert_eq!(mgr.connections.len(), 0);
}

#[test]
fn syn_for_unbound_port_is_dropped() {
    let mut mgr = ConnectionManager::new();
    let (out, wake) = mgr.on_datagram(&segment(12345, 1000, 0, 4096, true, false, false, &[]), 0);
    assert_eq!(out.len(), 0);
    assert!(!wake.accepted);
    assert_eq!(mgr.connections.len(), 0);
}

#[test]
fn send_window_limits_data_in_flight() {
    let mut mgr = ConnectionManager::new();
    let quad = handshake(&mut mgr, 8080, 4096, 0);
    let data: Vec<u8> = (0u8..20).collect();
    assert_eq!(mgr.write(quad, &data), Ok(20));
    // the fixed send window is 10: the first tick sends ten bytes
    let out = mgr.on_tick_all(1_000);
    assert_eq!(out.len(), 1);
    let first = parse(&out[0]);
    assert_eq!(first.seq, 1);
    assert_eq!(first.payload, &data[..10]);
    // the window is now full: nothing more goes out
    assert_eq!(mgr.on_tick_all(1_010).len(), 0);
    // five bytes acknowledged free five slots
    let (out, _) = mgr.on_datagram(&segment(8080, 1001, 6, 4096, false, true, false, &[]), 1_020);
    assert_eq!(out.len(), 0);
    assert_eq!(conn_of(&mgr, &quad).send.una, 6);
    let out = mgr.on_tick_all(1_030);
    assert_eq!(out.len(), 1);
    let second = parse(&out[0]);
    assert_eq!(second.seq, 11);
    assert_eq!(second.payload, &data[10..15]);
}

#[test]
fn accept_queue_empties() {
    let mut mgr = ConnectionManager::new();
    mgr.bind(8080).unwrap();
    assert_eq!(mgr.accept_quad(8080), Ok(None));
    let (_, wake) = mgr.on_datagram(&segment(8080, 1000, 0, 4096, true, false, false, &[]), 0);
    assert!(wake.accepted);
    assert!(mgr.accept_quad(8080).unwrap().is_some());
    assert_eq!(mgr.accept_quad(8080), Ok(None));
}

#[test]
fn zero_receive_window_rejects_data() {
    let mut mgr = ConnectionManager::new();
    // the peer advertises a zero window in its SYN
    let quad = handshake(&mut mgr, 8080, 0, 0);
    // data can never be acceptable in a zero window: bare ACK only
    let (out, _) = mgr.on_datagram(&segment(8080, 1001, 1, 0, false, true, false, b"X"), 0);
    assert_eq!(out.len(), 1);
    let ack = parse(&out[0]);
    assert_eq!(ack.ack, 1001);
    assert!(ack.payload.is_empty());
    assert_eq!(conn_of(&mgr, &quad).recv.nxt, 1001);
    assert_eq!(mgr.read(quad, 16), Err(TcpError::WouldBlock));
}

#[test]
fn out_of_order_segment_is_discarded_but_in_window() {
    let mut mgr = ConnectionManager::new();
    let quad = handshake(&mut mgr, 8080, 4096, 0);
    // a segment past RCV.NXT but inside the window: dropped without an
    // acknowledgment, nothing readable
    let (out, _) = mgr.on_datagram(&segment(8080, 1005, 1, 4096, false, true, false, b"zz"), 0);
    assert_eq!(out.len(), 0);
    assert_eq!(conn_of(&mgr, &quad).recv.nxt, 1001);
    assert_eq!(mgr.read(quad, 16), Err(TcpError::WouldBlock));
}
