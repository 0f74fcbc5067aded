//! Sequence-space arithmetic, segment acceptability and the passive-open
//! primitive, exercised on concrete values.
use rtcp::codec::{Ipv4Meta, TcpMeta};
use rtcp::tcp::State;
use rtcp::wrap::{is_between_wrapped, wrapping_lt};

fn ipv4(src: u32, dst: u32) -> Ipv4Meta {
    Ipv4Meta { src, dst, protocol: 6, header_len: 20 }
}

fn tcp_syn(sport: u16, dport: u16, seq: u32, wnd: u16) -> TcpMeta {
    TcpMeta {
        src_port: sport,
        dst_port: dport,
        seq,
        ack: 0,
        wnd,
        syn: true,
        ack_flag: false,
        fin: false,
        rst: false,
        header_len: 20,
    }
}

#[test]
fn wrapping_lt_basics() {
    assert!(wrapping_lt(0, 1));
    assert!(!wrapping_lt(1, 0));
    assert!(!wrapping_lt(7, 7));
    assert!(wrapping_lt(0xFFFF_FFFF, 0));
    assert!(wrapping_lt(0xFFFF_FFFE, 3));
    assert!(!wrapping_lt(3, 0xFFFF_FFFE));
}

#[test]
fn wrapping_lt_half_turn_boundary() {
    assert!(wrapping_lt(0, 0x7FFF_FFFF));
    assert!(!wrapping_lt(0, 0x8000_0000));
    assert!(!wrapping_lt(0, 0x8000_0001));
}

#[test]
fn between_wrapped_empty_interval() {
    for &(a, b) in &[(0u32, 0u32), (0, 1), (5, 5), (0xFFFF_FFFF, 0), (1000, 0x8000_0000)] {
        assert!(!is_between_wrapped(a, b, a));
    }
}

#[test]
fn between_wrapped_strictness_and_wrap() {
    assert!(is_between_wrapped(5, 6, 10));
    assert!(!is_between_wrapped(5, 5, 10));
    assert!(!is_between_wrapped(5, 10, 10));
    assert!(is_between_wrapped(0xFFFF_FFFE, 0xFFFF_FFFF, 5));
    assert!(is_between_wrapped(0xFFFF_FFFE, 2, 5));
    assert!(!is_between_wrapped(0xFFFF_FFFE, 5, 5));
}

#[test]
fn acceptability_zero_len_zero_window() {
    let nxt: u32 = 0xFFFF_FFFE;
    assert!(rtcp::tcp::segment_acceptable(nxt, 0, 0xFFFF_FFFE, 0));
    assert!(!rtcp::tcp::segment_acceptable(nxt, 0, 0xFFFF_FFFD, 0));
    assert!(!rtcp::tcp::segment_acceptable(nxt, 0, 0, 0));
}

#[test]
fn acceptability_zero_len_open_window() {
    let nxt: u32 = 0xFFFF_FFFE;
    assert!(rtcp::tcp::segment_acceptable(nxt, 10, 0xFFFF_FFFE, 0));
    assert!(rtcp::tcp::segment_acceptable(nxt, 10, 3, 0));
    assert!(!rtcp::tcp::segment_acceptable(nxt, 10, 8, 0));
    assert!(!rtcp::tcp::segment_acceptable(nxt, 10, 0xFFFF_FFFD, 0));
}

#[test]
fn acceptability_data_zero_window() {
    let nxt: u32 = 0xFFFF_FFFE;
    assert!(!rtcp::tcp::segment_acceptable(nxt, 0, 0xFFFF_FFFE, 1));
    assert!(!rtcp::tcp::segment_acceptable(nxt, 0, 0, 4));
}

#[test]
fn acceptability_data_open_window() {
    let nxt: u32 = 0xFFFF_FFFE;
    // only the tail of the segment reaches into the window
    assert!(rtcp::tcp::segment_acceptable(nxt, 10, 0xFFFF_FFFC, 3));
    // head inside the window, wrapped
    assert!(rtcp::tcp::segment_acceptable(nxt, 10, 5, 10));
    // entirely before the window
    assert!(!rtcp::tcp::segment_acceptable(nxt, 10, 0xFFFF_FF00, 4));
    // entirely past the window
    assert!(!rtcp::tcp::segment_acceptable(nxt, 10, 9, 2));
}

#[test]
fn state_predicates() {
    assert!(!State::SyncRcvd.is_synchorized());
    assert!(State::Estab.is_synchorized());
    assert!(State::FinWait1.is_synchorized());
    assert!(State::CloseWait.is_synchorized());
    assert!(State::Closing.is_synchorized());
    assert!(!State::SyncRcvd.have_sent_fin());
    assert!(!State::Estab.have_sent_fin());
    assert!(!State::CloseWait.have_sent_fin());
    assert!(State::FinWait1.have_sent_fin());
    assert!(State::FinWait2.have_sent_fin());
    assert!(State::Closing.have_sent_fin());
    assert!(State::TimeWait.have_sent_fin());
}

#[test]
fn accept_ignores_non_syn() {
    let ip = ipv4(0x0A00_0001, 0x0A00_0002);
    let mut t = tcp_syn(45000, 8080, 1000, 4096);
    t.syn = false;
    t.ack_flag = true;
    assert!(rtcp::tcp::Connection::accept(&ip, &t, 0).is_none());
}

#[test]
fn accept_builds_syn_ack() {
    let ip = ipv4(0x0A00_0001, 0x0A00_0002);
    let t = tcp_syn(45000, 8080, 1000, 4096);
    let (c, dg) = rtcp::tcp::Connection::accept(&ip, &t, 0).unwrap();
    assert!(matches!(c.state, State::SyncRcvd));
    assert_eq!(c.send.iss, 0);
    assert_eq!(c.send.una, 0);
    assert_eq!(c.send.nxt, 1);
    assert_eq!(c.send.wnd, 10);
    assert_eq!(c.recv.irs, 1000);
    assert_eq!(c.recv.nxt, 1001);
    assert_eq!(c.recv.wnd, 4096);
    assert_eq!(c.quad.src_ip, 0x0A00_0001);
    assert_eq!(c.quad.src_port, 45000);
    assert_eq!(c.quad.dst_ip, 0x0A00_0002);
    assert_eq!(c.quad.dst_port, 8080);
    // the SYN|ACK datagram, checked with the codec's own crate
    let iph = etherparse::Ipv4HeaderSlice::from_slice(&dg).unwrap();
    assert_eq!(iph.source(), 0x0A00_0002u32.to_be_bytes());
    assert_eq!(iph.destination(), 0x0A00_0001u32.to_be_bytes());
    assert_eq!(iph.protocol(), etherparse::IpNumber::TCP);
    let tcph = etherparse::TcpHeaderSlice::from_slice(&dg[iph.slice().len()..]).unwrap();
    assert!(tcph.syn());
    assert!(tcph.ack());
    assert_eq!(tcph.source_port(), 8080);
    assert_eq!(tcph.destination_port(), 45000);
    assert_eq!(tcph.sequence_number(), 0);
    assert_eq!(tcph.acknowledgment_number(), 1001);
    assert_eq!(tcph.window_size(), 10);
    // the checksum is the one the codec crate computes
    let expect = tcph.to_header().calc_checksum_ipv4(&iph.to_header(), &[]).unwrap();
    assert_eq!(tcph.checksum(), expect);
}
