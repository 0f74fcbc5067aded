//! The per-connection TCP engine: RFC 793 state machine, send/receive
//! sequence spaces, segment acceptability, receive path, transmit path and
//! retransmission.
//!
//! The engine is free of I/O. It consumes parsed segment headers
//! ([`crate::codec::TcpMeta`]), payload bytes and clock readings in
//! milliseconds, and returns the datagrams to put on the wire. Time enters
//! only as an argument, so every decision is a function of connection
//! state and inputs.
//!
//! Departures from a straight reading of RFC 793, chosen deliberately:
//! a passive open only; `CLOSE_WAIT` is represented so that a peer's
//! orderly close can be observed by the application; out-of-order
//! segments inside the window are discarded, not queued; the advertised
//! window is the fixed send window set at accept time.
use crate::codec::{encode_segment, segment_bytes_of, Ipv4Meta, TcpMeta};
use crate::timers::{cut_len, has_seq, recorded, srtt_fold, SendTimer, Timers, INITIAL_SRTT_MS};
use crate::wrap::{
    is_between_wrapped, spec_between, spec_wrapping_lt, wrap_add, wrap_sub, wrapping_lt,
};
use crate::{Quad, TcpError};
use std::collections::VecDeque;
use vstd::prelude::*;

verus! {

/// Cap on bytes buffered for sending and not yet acknowledged.
pub const MAX_UNACKED: usize = 1024;

/// Time-to-live of emitted datagrams.
pub const SEND_TTL: u8 = 64;

/// Fixed send window advertised in every emitted segment.
pub const SEND_WINDOW: u16 = 10;

/// Connection state. `LISTEN` and `CLOSED` are represented by presence or
/// absence in the manager's map; this engine is passive-open only.
#[derive(Clone, Copy, PartialEq, Eq, Structural, Debug)]
pub enum State {
    SyncRcvd,
    Estab,
    FinWait1,
    FinWait2,
    Closing,
    TimeWait,
    CloseWait,
}

impl State {
    /// Whether the state is past the three-way handshake (RFC 793's
    /// "synchronized" states).
    pub fn is_synchorized(&self) -> (r: bool)
        ensures
            r == (*self != State::SyncRcvd),
    {
        match *self {
            State::SyncRcvd => false,
            State::Estab | State::FinWait1 | State::FinWait2 | State::Closing | State::TimeWait
            | State::CloseWait => true,
        }
    }

    /// Whether a FIN of ours belongs to this state's past.
    pub fn have_sent_fin(&self) -> (r: bool)
        ensures
            r == (*self == State::FinWait1 || *self == State::FinWait2 || *self == State::Closing
                || *self == State::TimeWait),
    {
        match *self {
            State::SyncRcvd | State::Estab | State::CloseWait => false,
            State::FinWait1 | State::FinWait2 | State::Closing | State::TimeWait => true,
        }
    }
}

/// `s` lies in the receive window `[nxt, nxt + wnd)`, wrap-aware.
pub open spec fn spec_in_window(nxt: u32, wnd: u16, s: u32) -> bool {
    wrap_sub(s, nxt) < wnd
}

/// RFC 793 §3.3 segment acceptability: whether a segment with first
/// sequence number `seq` and length `slen` (payload plus one for each of
/// SYN and FIN) overlaps the receive window.
pub open spec fn spec_acceptable(rcv_nxt: u32, rcv_wnd: u16, seq: u32, slen: u32) -> bool {
    if slen == 0 {
        if rcv_wnd == 0 {
            seq == rcv_nxt
        } else {
            spec_in_window(rcv_nxt, rcv_wnd, seq)
        }
    } else {
        if rcv_wnd == 0 {
            false
        } else {
            spec_in_window(rcv_nxt, rcv_wnd, seq) || spec_in_window(
                rcv_nxt,
                rcv_wnd,
                wrap_add(seq, (slen - 1) as u32),
            )
        }
    }
}

/// The strict-between test on `(RCV.NXT - 1, wend)` coincides with window
/// membership, for any non-zero 16-bit window.
proof fn lemma_window_equiv(nxt: u32, wnd: u16, s: u32)
    requires
        wnd >= 1,
    ensures
        spec_between(wrap_sub(nxt, 1), s, wrap_add(nxt, wnd as u32)) == spec_in_window(
            nxt,
            wnd,
            s,
        ),
{
}

/// Decide acceptability of an inbound segment, exactly as
/// [`spec_acceptable`] describes it.
pub fn segment_acceptable(rcv_nxt: u32, rcv_wnd: u16, seq: u32, slen: u32) -> (r: bool)
    ensures
        r == spec_acceptable(rcv_nxt, rcv_wnd, seq, slen),
{
    let wend = rcv_nxt.wrapping_add(rcv_wnd as u32);
    if slen == 0 {
        if rcv_wnd == 0 {
            seq == rcv_nxt
        } else {
            proof {
                lemma_window_equiv(rcv_nxt, rcv_wnd, seq);
            }
            is_between_wrapped(rcv_nxt.wrapping_sub(1), seq, wend)
        }
    } else {
        if rcv_wnd == 0 {
            false
        } else {
            proof {
                lemma_window_equiv(rcv_nxt, rcv_wnd, seq);
                lemma_window_equiv(rcv_nxt, rcv_wnd, wrap_add(seq, (slen - 1) as u32));
            }
            is_between_wrapped(rcv_nxt.wrapping_sub(1), seq, wend) || is_between_wrapped(
                rcv_nxt.wrapping_sub(1),
                seq.wrapping_add(slen - 1),
                wend,
            )
        }
    }
}

/// What a segment observation made available to the application, so the
/// manager can wake blocked readers or writers.
#[derive(Clone, Copy, PartialEq, Eq, Structural, Debug)]
pub struct Available {
    pub read: bool,
    pub write: bool,
}

/// Send sequence space (RFC 793 §3.2).
#[derive(Clone, Copy, PartialEq, Eq, Structural, Debug)]
pub struct SendSequenceSpace {
    /// Oldest unacknowledged sequence number.
    pub una: u32,
    /// Next sequence number to send.
    pub nxt: u32,
    /// Send window.
    pub wnd: u16,
    /// Send urgent pointer flag.
    pub up: bool,
    /// Segment sequence number used for the last window update.
    pub wl1: usize,
    /// Segment acknowledgment number used for the last window update.
    pub wl2: usize,
    /// Initial send sequence number.
    pub iss: u32,
}

/// Receive sequence space (RFC 793 §3.2).
#[derive(Clone, Copy, PartialEq, Eq, Structural, Debug)]
pub struct RecvSequenceSpace {
    /// Next expected inbound sequence number.
    pub nxt: u32,
    /// Receive window.
    pub wnd: u16,
    /// Receive urgent pointer flag.
    pub up: bool,
    /// Initial receive sequence number.
    pub irs: u32,
}

/// One TCP connection.
pub struct Connection {
    pub state: State,
    pub send: SendSequenceSpace,
    pub recv: RecvSequenceSpace,
    /// The connection's four-tuple; outgoing headers swap its endpoints.
    pub quad: Quad,
    pub timers: Timers,
    /// In-order received payload awaiting the application.
    pub incoming: VecDeque<u8>,
    /// Bytes handed over by the application, not yet acknowledged by the
    /// peer. Its first byte has sequence number `send.una`.
    pub unacked: VecDeque<u8>,
    /// Whether the application has closed the sending side.
    pub closed: bool,
    /// Sequence number of our FIN, once one has been emitted.
    pub closed_at: Option<u32>,
    /// Whether the peer has acknowledged our SYN. (`send.una == send.iss`
    /// would alias after 2^32 sent bytes, so this is kept explicitly.)
    pub syn_acked: bool,
    /// Total sequence slots consumed from the peer since `irs`, the SYN
    /// included: the receive stream position, free of wrap-around.
    pub rcv_pos: Ghost<nat>,
}

/// The mathematical state of a connection: every field the contracts
/// speak of, with byte queues as sequences.
pub struct ConnState {
    pub state: State,
    pub syn_acked: bool,
    pub una: u32,
    pub nxt: u32,
    pub iss: u32,
    pub snd_wnd: u16,
    pub rcv_nxt: u32,
    pub rcv_wnd: u16,
    pub irs: u32,
    pub unacked: Seq<u8>,
    pub incoming: Seq<u8>,
    pub closed: bool,
    pub closed_at: Option<u32>,
    pub quad: Quad,
    pub rcv_pos: nat,
}

/// What one timer tick decides to transmit: the segment's first sequence
/// number, its payload budget, its SYN and FIN flags, and the resulting
/// `closed_at`. Specification-level only.
pub struct TickPlan {
    pub seq: u32,
    pub limit: int,
    pub syn: bool,
    pub fin: bool,
    pub closed_at: Option<u32>,
}

impl View for Connection {
    type V = ConnState;

    open spec fn view(&self) -> ConnState {
        ConnState {
            state: self.state,
            syn_acked: self.syn_acked,
            una: self.send.una,
            nxt: self.send.nxt,
            iss: self.send.iss,
            snd_wnd: self.send.wnd,
            rcv_nxt: self.recv.nxt,
            rcv_wnd: self.recv.wnd,
            irs: self.recv.irs,
            unacked: self.unacked@,
            incoming: self.incoming@,
            closed: self.closed,
            closed_at: self.closed_at,
            quad: self.quad,
            rcv_pos: self.rcv_pos@,
        }
    }
}

/// The availability of a connection state to the application.
pub open spec fn spec_avail(c: ConnState) -> Available {
    Available {
        read: c.state == State::TimeWait || c.state == State::CloseWait || c.state
            == State::Closing || c.incoming.len() > 0,
        write: false,
    }
}

/// Receive path, handshake step: a valid ACK in `SYN_RCVD` — one lying
/// in `(SND.UNA - 1, SND.NXT + 1)`, wrap-aware — enters `ESTABLISHED`.
pub open spec fn spec_handshake_step(c: ConnState, ack: u32) -> ConnState {
    if c.state == State::SyncRcvd && spec_between(wrap_sub(c.una, 1), ack, wrap_add(c.nxt, 1)) {
        ConnState { state: State::Estab, ..c }
    } else {
        c
    }
}

/// Whether a synchronized state takes this acknowledgment:
/// `SND.UNA < SEG.ACK <= SND.NXT`, wrap-aware.
pub open spec fn spec_ack_accepts(c: ConnState, ack: u32) -> bool {
    c.state != State::SyncRcvd && spec_between(c.una, ack, wrap_add(c.nxt, 1))
}

/// Receive path, acknowledgment step: advance `SND.UNA` and drain the
/// acknowledged bytes from the front of `unacked`. The first
/// acknowledged sequence slot is the SYN phantom while our SYN is
/// outstanding; the FIN phantom is covered by draining at most what the
/// buffer holds.
pub open spec fn spec_ack_step(c: ConnState, ack: u32) -> ConnState {
    if spec_ack_accepts(c, ack) {
        let k = wrap_sub(ack, c.una) as int;
        let kk = if c.syn_acked {
            k
        } else {
            k - 1
        };
        let drained = if kk <= c.unacked.len() {
            kk
        } else {
            c.unacked.len() as int
        };
        ConnState { una: ack, unacked: c.unacked.skip(drained), syn_acked: true, ..c }
    } else {
        c
    }
}

/// Receive path, FIN-acknowledged step: once `SND.UNA` has passed our
/// FIN, `FIN_WAIT_1` becomes `FIN_WAIT_2` and `CLOSING` becomes
/// `TIME_WAIT`.
pub open spec fn spec_fin_ack_step(c: ConnState) -> ConnState {
    match c.closed_at {
        Some(fin_at) => {
            if c.una == wrap_add(fin_at, 1) {
                if c.state == State::FinWait1 {
                    ConnState { state: State::FinWait2, ..c }
                } else if c.state == State::Closing {
                    ConnState { state: State::TimeWait, ..c }
                } else {
                    c
                }
            } else {
                c
            }
        },
        None => c,
    }
}

/// The states that still take payload from the peer.
pub open spec fn spec_accepts_data(st: State) -> bool {
    st == State::Estab || st == State::FinWait1 || st == State::FinWait2
}

/// Receive path, data step: the portion of the payload at or past
/// `RCV.NXT` is appended to `incoming` and `RCV.NXT` advances past the
/// payload and a FIN; a new FIN moves `ESTABLISHED` to `CLOSE_WAIT`,
/// `FIN_WAIT_1` to `CLOSING` and `FIN_WAIT_2` to `TIME_WAIT`. A segment
/// entirely in the past, or entirely in the future (out of order),
/// changes nothing.
pub open spec fn spec_data_step(c: ConnState, seq: u32, payload: Seq<u8>, fin: bool) -> ConnState {
    if spec_accepts_data(c.state) && wrap_sub(c.rcv_nxt, seq) <= payload.len() {
        let off = wrap_sub(c.rcv_nxt, seq) as int;
        let fin_n = if fin {
            1int
        } else {
            0int
        };
        let st = if fin {
            if c.state == State::Estab {
                State::CloseWait
            } else if c.state == State::FinWait1 {
                State::Closing
            } else {
                State::TimeWait
            }
        } else {
            c.state
        };
        ConnState {
            state: st,
            incoming: c.incoming + payload.skip(off),
            rcv_nxt: wrap_add(seq, (payload.len() + fin_n) as u32),
            rcv_pos: (c.rcv_pos + payload.len() - off + fin_n) as nat,
            ..c
        }
    } else {
        c
    }
}

/// How many new sequence slots the data step consumed.
pub open spec fn spec_data_consumed(c: ConnState, seq: u32, plen: int, fin: bool) -> int {
    if spec_accepts_data(c.state) && wrap_sub(c.rcv_nxt, seq) <= plen {
        plen - wrap_sub(c.rcv_nxt, seq) + (if fin {
            1int
        } else {
            0int
        })
    } else {
        0
    }
}

/// The bytes of an outgoing segment of a connection state: endpoints
/// swapped, `ACK = RCV.NXT`, the fixed send window, no options.
pub open spec fn state_out_bytes(
    c: ConnState,
    seq: u32,
    syn: bool,
    fin: bool,
    payload: Seq<u8>,
) -> Seq<u8> {
    segment_bytes_of(
        c.quad.dst_ip,
        c.quad.src_ip,
        SEND_TTL,
        TcpMeta {
            src_port: c.quad.dst_port,
            dst_port: c.quad.src_port,
            seq,
            ack: c.rcv_nxt,
            wnd: c.snd_wnd,
            syn,
            ack_flag: true,
            fin,
            rst: false,
            header_len: 20,
        },
        payload,
    )
}

/// The bytes of an RST of a connection state: sequence number as given,
/// no ACK.
pub open spec fn state_rst_bytes(c: ConnState, seq: u32) -> Seq<u8> {
    segment_bytes_of(
        c.quad.dst_ip,
        c.quad.src_ip,
        SEND_TTL,
        TcpMeta {
            src_port: c.quad.dst_port,
            dst_port: c.quad.src_port,
            seq,
            ack: 0,
            wnd: c.snd_wnd,
            syn: false,
            ack_flag: false,
            fin: false,
            rst: true,
            header_len: 20,
        },
        Seq::<u8>::empty(),
    )
}

/// The logical length of an inbound segment: payload plus one for each
/// of SYN and FIN.
pub open spec fn spec_seg_len(meta: TcpMeta, plen: int) -> u32 {
    (plen + (if meta.syn {
        1int
    } else {
        0int
    }) + (if meta.fin {
        1int
    } else {
        0int
    })) as u32
}

/// The connection state after one inbound segment: acceptability, the
/// no-ACK cases, the `SYN_RCVD` check, then the four-step pipeline. The
/// functional form of [`Connection::on_packet`]'s transition.
pub open spec fn spec_on_packet_state(c0: ConnState, meta: TcpMeta, payload: Seq<u8>) -> ConnState {
    if !spec_acceptable(c0.rcv_nxt, c0.rcv_wnd, meta.seq, spec_seg_len(meta, payload.len() as int)) {
        c0
    } else if !meta.ack_flag {
        if meta.syn && spec_in_window(c0.rcv_nxt, c0.rcv_wnd, meta.seq) {
            ConnState {
                rcv_nxt: wrap_add(meta.seq, 1),
                rcv_pos: (c0.rcv_pos + wrap_sub(wrap_add(meta.seq, 1), c0.rcv_nxt)) as nat,
                ..c0
            }
        } else {
            c0
        }
    } else if c0.state == State::SyncRcvd && !spec_between(
        wrap_sub(c0.una, 1),
        meta.ack,
        wrap_add(c0.nxt, 1),
    ) {
        c0
    } else {
        spec_data_step(
            spec_fin_ack_step(spec_ack_step(spec_handshake_step(c0, meta.ack), meta.ack)),
            meta.seq,
            payload,
            meta.fin,
        )
    }
}

/// The datagrams emitted for one inbound segment: the bare ACK for an
/// unacceptable segment, the RST for a bad `SYN_RCVD` acknowledgment, or
/// the single ACK of newly consumed sequence space. The functional form
/// of [`Connection::on_packet`]'s output.
pub open spec fn spec_on_packet_out(c0: ConnState, meta: TcpMeta, payload: Seq<u8>) -> Seq<
    Seq<u8>,
> {
    if !spec_acceptable(c0.rcv_nxt, c0.rcv_wnd, meta.seq, spec_seg_len(meta, payload.len() as int)) {
        seq![state_out_bytes(c0, c0.nxt, false, false, Seq::<u8>::empty())]
    } else if !meta.ack_flag {
        Seq::<Seq<u8>>::empty()
    } else if c0.state == State::SyncRcvd && !spec_between(
        wrap_sub(c0.una, 1),
        meta.ack,
        wrap_add(c0.nxt, 1),
    ) {
        seq![state_rst_bytes(c0, meta.ack)]
    } else {
        let c3 = spec_fin_ack_step(spec_ack_step(spec_handshake_step(c0, meta.ack), meta.ack));
        let c4 = spec_data_step(c3, meta.seq, payload, meta.fin);
        if spec_data_consumed(c3, meta.seq, payload.len() as int, meta.fin) > 0 {
            seq![state_out_bytes(c4, c4.nxt, false, false, Seq::<u8>::empty())]
        } else {
            Seq::<Seq<u8>>::empty()
        }
    }
}

/// The state of a freshly accepted connection (ISS 0, fixed send
/// window, receive space from the peer's SYN, endpoints swapped).
pub open spec fn spec_accept_state(src_ip: u32, dst_ip: u32, t: TcpMeta) -> ConnState {
    ConnState {
        state: State::SyncRcvd,
        syn_acked: false,
        una: 0,
        nxt: 1,
        iss: 0,
        snd_wnd: SEND_WINDOW,
        rcv_nxt: wrap_add(t.seq, 1),
        rcv_wnd: t.wnd,
        irs: t.seq,
        unacked: Seq::<u8>::empty(),
        incoming: Seq::<u8>::empty(),
        closed: false,
        closed_at: None,
        quad: Quad { src_ip, src_port: t.src_port, dst_ip, dst_port: t.dst_port },
        rcv_pos: 1,
    }
}

/// The acknowledgment step preserves well-formedness.
proof fn lemma_ack_step_wf(c: ConnState, ack: u32)
    requires
        c.wf(),
    ensures
        spec_ack_step(c, ack).wf(),
{
    if spec_ack_accepts(c, ack) {
        let k = wrap_sub(ack, c.una);
        crate::wrap::lemma_wrap_dist_add(c.una, c.nxt, 1);
        crate::wrap::lemma_wrap_sub_antisym(c.una, ack);
        assert(1 <= k <= wrap_sub(c.nxt, c.una));
        crate::wrap::lemma_wrap_dist_diff(c.una, c.nxt, ack);
        match c.closed_at {
            Some(fin_at) => {
                if wrap_sub(fin_at, c.una) >= k {
                    crate::wrap::lemma_wrap_dist_diff(c.una, fin_at, ack);
                } else {
                    crate::wrap::lemma_wrap_dist_add(c.una, fin_at, 1);
                    crate::wrap::lemma_wrap_add_sub_cancel(c.una, ack);
                    crate::wrap::lemma_wrap_add_sub_cancel(c.una, wrap_add(fin_at, 1));
                }
            },
            None => {},
        }
    }
}

/// The data step preserves well-formedness.
proof fn lemma_data_step_wf(c: ConnState, seq: u32, payload: Seq<u8>, fin: bool)
    requires
        c.wf(),
        payload.len() <= 65495,
    ensures
        spec_data_step(c, seq, payload, fin).wf(),
{
    if spec_accepts_data(c.state) && wrap_sub(c.rcv_nxt, seq) <= payload.len() {
        let plen = payload.len() as int;
        let fin_n: int = if fin {
            1
        } else {
            0
        };
        let newn = wrap_add(seq, (plen + fin_n) as u32);
        crate::wrap::lemma_wrap_dist_add(seq, seq, (plen + fin_n) as u32);
        crate::wrap::lemma_wrap_dist_diff(seq, newn, c.rcv_nxt);
        let delta = wrap_sub(newn, c.rcv_nxt);
        crate::wrap::lemma_wrap_add_mod(c.irs, c.rcv_pos, delta as nat);
        crate::wrap::lemma_wrap_add_sub_cancel(c.rcv_nxt, newn);
    }
}

/// After an acknowledgment advances `SND.UNA`, the remaining send
/// records still cover only `[SND.UNA, SND.NXT)`.
proof fn lemma_timer_range_after_ack(
    t0: Seq<crate::timers::SendTimer>,
    t1: Seq<crate::timers::SendTimer>,
    una0: u32,
    ack: u32,
    nxt: u32,
)
    requires
        t1 == t0.skip(cut_len(t0, una0, wrap_sub(ack, una0))),
        forall|i: int|
            0 <= i < t0.len() ==> wrap_sub(#[trigger] t0[i].seq, una0) < wrap_sub(nxt, una0),
        forall|i: int|
            0 <= i < t1.len() ==> wrap_sub(#[trigger] t1[i].seq, una0) >= wrap_sub(ack, una0),
        wrap_sub(ack, una0) <= wrap_sub(nxt, una0),
    ensures
        forall|i: int|
            0 <= i < t1.len() ==> wrap_sub(#[trigger] t1[i].seq, ack) < wrap_sub(nxt, ack),
{
    let k = wrap_sub(ack, una0);
    crate::wrap::lemma_wrap_dist_diff(una0, nxt, ack);
    assert forall|i: int| 0 <= i < t1.len() implies wrap_sub(#[trigger] t1[i].seq, ack)
        < wrap_sub(nxt, ack) by {
        crate::timers::lemma_cut_len_bounds(t0, una0, k);
        let cut = cut_len(t0, una0, k);
        assert(t1[i] == t0[i + cut]);
        assert(wrap_sub(t0[i + cut].seq, una0) < wrap_sub(nxt, una0));
        crate::wrap::lemma_wrap_dist_diff(una0, t1[i].seq, ack);
    }
}

/// Law: the receive path preserves well-formedness, and the receive
/// stream position never regresses. In particular, after any sequence of
/// inbound segments, `SND.UNA <= SND.NXT` holds wrap-aware (their
/// distance stays below the buffered bytes plus the two phantom slots)
/// and `RCV.NXT` stays at least one slot past `IRS` (the position counts
/// the SYN and only ever grows).
pub proof fn lemma_on_segment_preserves_wf(c: ConnState, meta: TcpMeta, payload: Seq<u8>)
    requires
        c.wf(),
        payload.len() <= 65495,
    ensures
        spec_on_packet_state(c, meta, payload).wf(),
        spec_on_packet_state(c, meta, payload).rcv_pos >= c.rcv_pos,
        spec_on_packet_state(c, meta, payload).irs == c.irs,
        spec_on_packet_state(c, meta, payload).iss == c.iss,
        wrap_sub(spec_on_packet_state(c, meta, payload).nxt, spec_on_packet_state(c, meta, payload).una)
            <= spec_on_packet_state(c, meta, payload).unacked.len() + 2,
        spec_on_packet_state(c, meta, payload).rcv_pos >= 1,
{
    let slen = spec_seg_len(meta, payload.len() as int);
    if !spec_acceptable(c.rcv_nxt, c.rcv_wnd, meta.seq, slen) {
    } else if !meta.ack_flag {
        if meta.syn && spec_in_window(c.rcv_nxt, c.rcv_wnd, meta.seq) {
            let newn = wrap_add(meta.seq, 1);
            crate::wrap::lemma_wrap_dist_add(c.rcv_nxt, meta.seq, 1);
            crate::wrap::lemma_wrap_add_sub_cancel(c.rcv_nxt, newn);
            let delta = wrap_sub(newn, c.rcv_nxt);
            crate::wrap::lemma_wrap_add_mod(c.irs, c.rcv_pos, delta as nat);
        }
    } else if c.state == State::SyncRcvd && !spec_between(
        wrap_sub(c.una, 1),
        meta.ack,
        wrap_add(c.nxt, 1),
    ) {
    } else {
        let c1 = spec_handshake_step(c, meta.ack);
        lemma_ack_step_wf(c1, meta.ack);
        let c3 = spec_fin_ack_step(spec_ack_step(c1, meta.ack));
        lemma_data_step_wf(c3, meta.seq, payload, meta.fin);
    }
}

/// Law: the application-visible receive stream only ever grows by
/// appending. No inbound segment rewrites, reorders or duplicates bytes
/// that were already delivered: together with the exact description of
/// what is appended (`spec_data_step`: the payload from the current
/// stream offset on), the application reads bytes in stream order,
/// each exactly once.
pub proof fn lemma_incoming_append_only(c: ConnState, meta: TcpMeta, payload: Seq<u8>)
    ensures
        c.incoming.is_prefix_of(spec_on_packet_state(c, meta, payload).incoming),
{
    let c1 = spec_on_packet_state(c, meta, payload);
    assert(c.incoming.is_prefix_of(c.incoming)) by {
        assert(c.incoming.take(c.incoming.len() as int) =~= c.incoming);
    }
    if c1.incoming != c.incoming {
        assert(c.incoming.is_prefix_of(c1.incoming)) by {
            assert(c1.incoming.take(c.incoming.len() as int) =~= c.incoming);
        }
    }
}

/// Law: a duplicate data segment — a non-empty one whose sequence slots
/// all lie before `RCV.NXT` (within a half turn of the circle) — is
/// unacceptable, so the engine leaves the connection, `incoming`
/// included, exactly as it was and answers with one bare ACK.
pub proof fn lemma_duplicate_segment_ignored(c: ConnState, meta: TcpMeta, payload: Seq<u8>)
    requires
        spec_seg_len(meta, payload.len() as int) >= 1,
        payload.len() <= 65495,
        wrap_sub(c.rcv_nxt, meta.seq) >= spec_seg_len(meta, payload.len() as int),
        wrap_sub(c.rcv_nxt, meta.seq) < 0x8000_0000,
    ensures
        !spec_acceptable(c.rcv_nxt, c.rcv_wnd, meta.seq, spec_seg_len(meta, payload.len() as int)),
        spec_on_packet_state(c, meta, payload) == c,
        spec_on_packet_out(c, meta, payload) == seq![
            state_out_bytes(c, c.nxt, false, false, Seq::<u8>::empty()),
        ],
{
    let slen = spec_seg_len(meta, payload.len() as int);
    let off = wrap_sub(c.rcv_nxt, meta.seq);
    crate::wrap::lemma_wrap_sub_antisym(meta.seq, c.rcv_nxt);
    assert(wrap_sub(meta.seq, c.rcv_nxt) >= 0x8000_0000);
    let e = wrap_add(meta.seq, (slen - 1) as u32);
    crate::wrap::lemma_wrap_dist_add(meta.seq, meta.seq, (slen - 1) as u32);
    crate::wrap::lemma_wrap_dist_diff(meta.seq, c.rcv_nxt, e);
    crate::wrap::lemma_wrap_sub_antisym(e, c.rcv_nxt);
    assert(wrap_sub(e, c.rcv_nxt) >= 0x8000_0000);
}

impl ConnState {
    /// Well-formedness of a connection's sequence bookkeeping.
    pub open spec fn wf(self) -> bool {
        let d = wrap_sub(self.nxt, self.una) as int;
        let n = self.unacked.len() as int;
        &&& n <= MAX_UNACKED
        &&& (!self.syn_acked ==> self.una == self.iss && d <= 1 && self.closed_at is None)
        &&& (self.syn_acked ==> match self.closed_at {
            None => d <= n,
            Some(c) => {
                ||| (wrap_sub(c, self.una) == n && d <= n + 1)
                ||| (n == 0 && self.una == wrap_add(c, 1) && self.nxt == self.una)
            },
        })
        &&& (self.closed_at is Some ==> self.closed)
        &&& self.rcv_pos >= 1
        &&& self.rcv_nxt == wrap_add(self.irs, (self.rcv_pos % 0x1_0000_0000) as u32)
    }
}

impl Connection {
    /// Full invariant: the model is well-formed and the timer entries
    /// cover exactly sequence numbers between `SND.UNA` and `SND.NXT`.
    pub open spec fn inv(self) -> bool {
        &&& self@.wf()
        &&& self.timers.inv(self.send.una)
        &&& forall|i: int|
            0 <= i < self.timers.send_times@.len() ==> wrap_sub(
                #[trigger] self.timers.send_times@[i].seq,
                self.send.una,
            ) < wrap_sub(self.send.nxt, self.send.una)
    }

    /// Whether the receive side has been closed by the peer: every state
    /// a received FIN leads to.
    pub fn is_rcv_closed(&self) -> (r: bool)
        ensures
            r == (self.state == State::TimeWait || self.state == State::CloseWait || self.state
                == State::Closing),
    {
        match self.state {
            State::TimeWait | State::CloseWait | State::Closing => true,
            _ => false,
        }
    }

    /// What a reader or writer could now do on this connection.
    pub fn availability(&self) -> (r: Available)
        ensures
            r == spec_avail(self@),
    {
        let read = self.is_rcv_closed() || self.incoming.len() > 0;
        Available { read, write: false }
    }

    /// Close the sending side: enter `FIN_WAIT_1` from a state that has
    /// not sent a FIN yet; fail with `NotConnected` once the connection
    /// is past that point.
    pub fn close(&mut self) -> (r: Result<(), TcpError>)
        requires
            old(self).inv(),
        ensures
            final(self).inv(),
            final(self).closed,
            (r is Ok) <==> (old(self).state == State::SyncRcvd || old(self).state == State::Estab
                || old(self).state == State::FinWait1 || old(self).state == State::FinWait2),
            (r is Err) ==> (r == Result::<(), TcpError>::Err(TcpError::NotConnected)),
            final(self).state == (if old(self).state == State::SyncRcvd || old(self).state
                == State::Estab {
                State::FinWait1
            } else {
                old(self).state
            }),
            final(self)@ == (ConnState {
                state: final(self)@.state,
                closed: true,
                ..old(self)@
            }),
            final(self).timers == old(self).timers,
    {
        self.closed = true;
        match self.state {
            State::SyncRcvd | State::Estab => {
                self.state = State::FinWait1;
                Ok(())
            },
            State::FinWait1 | State::FinWait2 => Ok(()),
            _ => Err(TcpError::NotConnected),
        }
    }

    /// The bytes of an outgoing segment of this connection.
    pub open spec fn out_bytes(self, seq: u32, syn: bool, fin: bool, payload: Seq<u8>) -> Seq<u8> {
        state_out_bytes(self@, seq, syn, fin, payload)
    }

    /// Emit one segment at sequence `seq`, carrying at most `limit` bytes
    /// of `unacked`, with the given SYN and FIN flags (§ transmit path):
    ///
    /// * a `seq` past the buffered bytes (`SND.NXT` after an emitted FIN,
    ///   or during the handshake) yields a bare segment;
    /// * otherwise the payload is the slice of `unacked` that starts at
    ///   the wrap-aware offset of `seq` from `SND.UNA`;
    /// * `SND.NXT` advances past the end of the segment, SYN and FIN each
    ///   consuming one sequence number, and never moves back;
    /// * a send record is kept whenever the segment occupies sequence
    ///   space, so bare ACKs are never retransmitted.
    ///
    /// Returns the datagram and the number of payload bytes in it.
    #[verifier::rlimit(80)]
    pub fn write(&mut self, seq: u32, limit: usize, syn: bool, fin: bool, now: u64) -> (r: (
        Vec<u8>,
        usize,
    ))
        requires
            old(self).inv(),
            syn ==> !old(self).syn_acked && seq == old(self).send.una && seq == old(self).send.iss
                && limit == 0 && !fin,
            fin ==> old(self).syn_acked && wrap_sub(seq, old(self).send.una) + limit <= old(
                self,
            ).unacked@.len() && old(self).closed_at == (Some(wrap_add(seq, limit as u32))),
            (!syn && !fin) ==> (old(self).syn_acked || seq == old(self).send.nxt),
            !old(self).syn_acked ==> limit == 0,
            wrap_sub(seq, old(self).send.una) > old(self).unacked@.len() ==> seq == old(
                self,
            ).send.nxt,
        ensures
            final(self).inv(),
            final(self)@ == (ConnState { nxt: final(self)@.nxt, ..old(self)@ }),
            final(self).timers.srtt == old(self).timers.srtt,
            ({
                let n = old(self).unacked@.len() as int;
                let off_raw = wrap_sub(seq, old(self).send.una) as int;
                let off = if off_raw > n || syn {
                    0int
                } else {
                    off_raw
                };
                let lim = if off_raw > n || syn {
                    0int
                } else {
                    limit as int
                };
                let data = if lim <= n - off {
                    lim
                } else {
                    n - off
                };
                let adv = data + (if syn {
                    1int
                } else {
                    0int
                }) + (if fin {
                    1int
                } else {
                    0int
                });
                let end = wrap_add(seq, adv as u32);
                &&& r.1 == data
                &&& r.0@ == old(self).out_bytes(
                    seq,
                    syn,
                    fin,
                    old(self).unacked@.subrange(off, off + data),
                )
                &&& final(self).send.nxt == (if spec_wrapping_lt(old(self).send.nxt, end) {
                    end
                } else {
                    old(self).send.nxt
                })
                &&& (adv == 0 ==> final(self).timers == old(self).timers)
                &&& (adv > 0 ==> recorded(
                    old(self).timers.send_times@,
                    final(self).timers.send_times@,
                    seq,
                    now,
                ))
            }),
    {
        let n = self.unacked.len();
        let off_raw = seq.wrapping_sub(self.send.una);
        let bare = (off_raw as usize) > n || syn;
        let off: usize = if bare {
            0
        } else {
            off_raw as usize
        };
        let lim: usize = if bare {
            0
        } else {
            limit
        };
        let avail = n - off;
        let data = if lim <= avail {
            lim
        } else {
            avail
        };
        let mut payload: Vec<u8> = Vec::new();
        let mut i: usize = 0;
        while i < data
            invariant
                0 <= i <= data,
                off + data <= n,
                n == self.unacked@.len(),
                payload@ == self.unacked@.subrange(off as int, off + i),
            decreases data - i,
        {
            payload.push(self.unacked[off + i]);
            proof {
                assert(payload@ =~= self.unacked@.subrange(off as int, off + i + 1));
            }
            i += 1;
        }
        let meta = TcpMeta {
            src_port: self.quad.dst_port,
            dst_port: self.quad.src_port,
            seq,
            ack: self.recv.nxt,
            wnd: self.send.wnd,
            syn,
            ack_flag: true,
            fin,
            rst: false,
            header_len: 20,
        };
        let dg = encode_segment(
            self.quad.dst_ip,
            self.quad.src_ip,
            SEND_TTL,
            (20 + data) as u16,
            &meta,
            &payload,
        );
        let mut adv: u32 = data as u32;
        if syn {
            adv = adv + 1;
        }
        if fin {
            adv = adv + 1;
        }
        if adv > 0 {
            self.timers.record_send(seq, now, self.send.una);
        }
        let end = seq.wrapping_add(adv);
        if wrapping_lt(self.send.nxt, end) {
            self.send.nxt = end;
        }
        proof {
            let una = old(self).send.una;
            let d0 = wrap_sub(old(self).send.nxt, una) as int;
            let ghost olds_t = old(self).timers.send_times@;
            assert(wrap_sub(seq, una) + adv < 0x1_0000_0000);
            crate::wrap::lemma_wrap_dist_add(una, seq, adv);
            crate::wrap::lemma_wrap_lt_by_dist(una, old(self).send.nxt, end);
            let d1 = wrap_sub(self.send.nxt, una) as int;
            assert(d1 == if d0 >= wrap_sub(seq, una) + adv {
                d0
            } else {
                wrap_sub(seq, una) + adv
            });
            let n_i = old(self).unacked@.len() as int;
            let offr = wrap_sub(seq, una) as int;
            if fin {
                crate::wrap::lemma_wrap_dist_add(una, seq, limit as u32);
            }
            if syn {
                assert(d1 == 1);
            } else if offr > n_i {
                assert(adv == 0);
                assert(d1 == d0);
            } else if fin {
                assert(wrap_sub(old(self).closed_at.unwrap(), una) == offr + limit);
                assert(offr + limit == n_i);
                assert(adv == limit + 1);
                assert(d1 <= n_i + 1);
            } else {
                assert(adv <= n_i - offr);
                assert(d1 <= if d0 >= n_i {
                    d0
                } else {
                    n_i
                });
            }
            assert(self@.wf());
            assert forall|i: int| 0 <= i < self.timers.send_times@.len() implies wrap_sub(
                #[trigger] self.timers.send_times@[i].seq,
                self.send.una,
            ) < wrap_sub(self.send.nxt, self.send.una) by {
                let q = self.timers.send_times@[i].seq;
                assert(has_seq(self.timers.send_times@, q));
                if adv == 0 {
                    assert(wrap_sub(olds_t[i].seq, una) < d0);
                } else {
                    if has_seq(olds_t, q) {
                        let j = choose|j: int| 0 <= j < olds_t.len() && olds_t[j].seq == q;
                        assert(wrap_sub(olds_t[j].seq, una) < d0);
                    } else {
                        assert(q == seq);
                    }
                }
            }
        }
        (dg, data)
    }

    /// Passive open. On a SYN aimed at a listening port, allocate the
    /// connection — ISS 0, the fixed send window, receive space taken
    /// from the segment, header endpoints swapped — enter `SYN_RCVD` and
    /// emit SYN|ACK. A segment without SYN is no connection attempt.
    pub fn accept(ip: &Ipv4Meta, tcph: &TcpMeta, now: u64) -> (r: Option<(Connection, Vec<u8>)>)
        ensures
            (r is Some) <==> tcph.syn,
            tcph.syn ==> ({
                let c = r.unwrap().0;
                let dg = r.unwrap().1;
                &&& c.inv()
                &&& c@ == spec_accept_state(ip.src, ip.dst, *tcph)
                &&& dg@ == state_out_bytes(c@, 0, true, false, Seq::<u8>::empty())
                &&& c.timers.srtt == INITIAL_SRTT_MS
                &&& recorded(Seq::<SendTimer>::empty(), c.timers.send_times@, 0, now)
            }),
    {
        if !tcph.syn {
            return None;
        }
        let iss: u32 = 0;
        let mut c = Connection {
            state: State::SyncRcvd,
            send: SendSequenceSpace {
                iss,
                una: iss,
                nxt: iss,
                wnd: SEND_WINDOW,
                up: false,
                wl1: 0,
                wl2: 0,
            },
            recv: RecvSequenceSpace {
                irs: tcph.seq,
                nxt: tcph.seq.wrapping_add(1),
                wnd: tcph.wnd,
                up: false,
            },
            quad: Quad {
                src_ip: ip.src,
                src_port: tcph.src_port,
                dst_ip: ip.dst,
                dst_port: tcph.dst_port,
            },
            timers: Timers::new(),
            incoming: VecDeque::new(),
            unacked: VecDeque::new(),
            closed: false,
            closed_at: None,
            syn_acked: false,
            rcv_pos: Ghost(1nat),
        };
        proof {
            assert(c@.wf());
            assert(c.inv());
        }
        let (dg, _sent) = c.write(iss, 0, true, false, now);
        proof {
            assert(c.unacked@.subrange(0, 0) =~= Seq::<u8>::empty());
        }
        Some((c, dg))
    }

    /// The retransmission test of the periodic timer: the oldest
    /// outstanding send has waited longer than one second and longer
    /// than one and a half times the round-trip estimate.
    pub open spec fn spec_should_retransmit(self, now: u64) -> bool {
        self.timers.send_times@.len() > 0 && {
            let w = crate::timers::spec_elapsed(now, self.timers.send_times@[0].sent_at);
            w > 1000 && 2 * w > 3 * self.timers.srtt
        }
    }

    /// What one timer tick decides to transmit, as a function of the
    /// connection state and the clock (§ retransmission and pacing):
    ///
    /// * before our SYN is acknowledged, the only candidate is a SYN|ACK
    ///   retransmit;
    /// * on a retransmission timeout, resend from `SND.UNA` as much as
    ///   the send window allows, with the FIN when the whole buffer goes
    ///   along;
    /// * otherwise send yet-unsent data that fits the window;
    /// * the FIN is first emitted (and `closed_at` fixed) once the
    ///   application has closed and the segment leaves window room.
    ///
    /// `None` means the tick sends nothing.
    pub open spec fn spec_tick_plan(self, now: u64) -> Option<TickPlan> {
        let n = self.unacked@.len() as int;
        let d = wrap_sub(self.send.nxt, self.send.una) as int;
        let wnd = self.send.wnd as int;
        if !self.syn_acked {
            if self.spec_should_retransmit(now) {
                Some(
                    TickPlan {
                        seq: self.send.una,
                        limit: 0,
                        syn: true,
                        fin: false,
                        closed_at: self.closed_at,
                    },
                )
            } else {
                None
            }
        } else if self.spec_should_retransmit(now) {
            let resend = if n <= wnd {
                n
            } else {
                wnd
            };
            let first_fin = resend < wnd && self.closed && self.closed_at is None;
            let again_fin = self.closed_at is Some && self.send.nxt == wrap_add(
                self.closed_at.unwrap(),
                1,
            ) && resend == n;
            Some(
                TickPlan {
                    seq: self.send.una,
                    limit: resend,
                    syn: false,
                    fin: first_fin || again_fin,
                    closed_at: if first_fin {
                        Some(wrap_add(self.send.una, n as u32))
                    } else {
                        self.closed_at
                    },
                },
            )
        } else {
            let unsent = if n > d {
                n - d
            } else {
                0
            };
            let allowed = wnd - d;
            if (unsent == 0 && self.closed_at is Some) || allowed <= 0 {
                None
            } else {
                let cnt = if unsent <= allowed {
                    unsent
                } else {
                    allowed
                };
                let fin = cnt < allowed && self.closed && self.closed_at is None;
                if cnt == 0 && !fin {
                    None
                } else {
                    Some(
                        TickPlan {
                            seq: self.send.nxt,
                            limit: cnt,
                            syn: false,
                            fin,
                            closed_at: if fin {
                                Some(wrap_add(self.send.una, n as u32))
                            } else {
                                self.closed_at
                            },
                        },
                    )
                }
            }
        }
    }

    /// The connection state after one timer tick: the functional form of
    /// [`Self::on_tick`]'s transition.
    pub open spec fn spec_tick_state(self, now: u64) -> ConnState {
        match self.spec_tick_plan(now) {
            None => self@,
            Some(p) => {
                let n = self.unacked@.len() as int;
                let off = wrap_sub(p.seq, self.send.una) as int;
                let data = if p.syn || off > n {
                    0int
                } else if p.limit <= n - off {
                    p.limit
                } else {
                    n - off
                };
                let adv = data + (if p.syn {
                    1int
                } else {
                    0int
                }) + (if p.fin {
                    1int
                } else {
                    0int
                });
                let end = wrap_add(p.seq, adv as u32);
                ConnState {
                    nxt: if spec_wrapping_lt(self.send.nxt, end) {
                        end
                    } else {
                        self.send.nxt
                    },
                    closed_at: p.closed_at,
                    ..self@
                }
            },
        }
    }

    /// The datagrams one timer tick emits: none, or the planned segment.
    pub open spec fn spec_tick_out(self, now: u64) -> Seq<Seq<u8>> {
        match self.spec_tick_plan(now) {
            None => Seq::<Seq<u8>>::empty(),
            Some(p) => {
                let n = self.unacked@.len() as int;
                let off_raw = wrap_sub(p.seq, self.send.una) as int;
                let off = if p.syn || off_raw > n {
                    0int
                } else {
                    off_raw
                };
                let data = if p.syn || off_raw > n {
                    0int
                } else if p.limit <= n - off {
                    p.limit
                } else {
                    n - off
                };
                seq![
                    state_out_bytes(
                        self@,
                        p.seq,
                        p.syn,
                        p.fin,
                        self.unacked@.subrange(off, off + data),
                    )
                ]
            },
        }
    }

    /// Timer tick: decide per [`Self::spec_tick_plan`] and emit the
    /// planned segment, if any. [`Self::on_tick`] is the public face;
    /// this step carries the fine-grained contract its proof rests on.
    #[verifier::rlimit(100)]
    fn tick_step(&mut self, now: u64) -> (r: Option<Vec<u8>>)
        requires
            old(self).inv(),
        ensures
            final(self).inv(),
            final(self).timers.srtt == old(self).timers.srtt,
            final(self)@ == (ConnState {
                nxt: final(self)@.nxt,
                closed_at: final(self)@.closed_at,
                ..old(self)@
            }),
            ({
                let plan = old(self).spec_tick_plan(now);
                match plan {
                    None => {
                        &&& r is None
                        &&& final(self)@ == old(self)@
                        &&& final(self).timers == old(self).timers
                    },
                    Some(p) => {
                        let n = old(self).unacked@.len() as int;
                        let off = wrap_sub(p.seq, old(self).send.una) as int;
                        let data = if p.syn || off > n {
                            0int
                        } else if p.limit <= n - off {
                            p.limit
                        } else {
                            n - off
                        };
                        let adv = data + (if p.syn {
                            1int
                        } else {
                            0int
                        }) + (if p.fin {
                            1int
                        } else {
                            0int
                        });
                        let end = wrap_add(p.seq, adv as u32);
                        &&& final(self)@.closed_at == p.closed_at
                        &&& (r matches Some(dg) && dg@ == old(self).out_bytes(
                            p.seq,
                            p.syn,
                            p.fin,
                            old(self).unacked@.subrange(
                                (if p.syn || off > n {
                                    0int
                                } else {
                                    off
                                }),
                                (if p.syn || off > n {
                                    0int
                                } else {
                                    off
                                }) + data,
                            ),
                        ))
                        &&& final(self).send.nxt == (if spec_wrapping_lt(
                            old(self).send.nxt,
                            end,
                        ) {
                            end
                        } else {
                            old(self).send.nxt
                        })
                        &&& (adv > 0 ==> recorded(
                            old(self).timers.send_times@,
                            final(self).timers.send_times@,
                            p.seq,
                            now,
                        ))
                        &&& (adv == 0 ==> final(self).timers == old(self).timers)
                    },
                }
            }),
    {
        let mut retrans = false;
        if self.timers.send_times.len() > 0 {
            let e = self.timers.send_times[0];
            let w: u64 = if now >= e.sent_at {
                now - e.sent_at
            } else {
                0
            };
            retrans = w > 1000 && (w as u128) * 2 > (self.timers.srtt as u128) * 3;
        }
        proof {
            assert(retrans == old(self).spec_should_retransmit(now));
        }
        if !self.syn_acked {
            if retrans {
                let (dg, _sent) = self.write(self.send.una, 0, true, false, now);
                return Some(dg);
            }
            return None;
        }
        let n = self.unacked.len();
        let nun = self.send.nxt.wrapping_sub(self.send.una) as usize;
        if retrans {
            proof {
                assert(wrap_sub(self.send.nxt, self.send.una) > 0) by {
                    assert(wrap_sub(self.timers.send_times@[0].seq, self.send.una) < wrap_sub(
                        self.send.nxt,
                        self.send.una,
                    ));
                }
            }
            let wnd = self.send.wnd as usize;
            let resend = if n <= wnd {
                n
            } else {
                wnd
            };
            let mut fin = false;
            if resend < wnd && self.closed && self.closed_at.is_none() {
                fin = true;
                self.closed_at = Some(self.send.una.wrapping_add(n as u32));
            } else {
                match self.closed_at {
                    Some(c) => {
                        if self.send.nxt == c.wrapping_add(1) && resend == n {
                            fin = true;
                            proof {
                                crate::wrap::lemma_wrap_add_sub_cancel(
                                    self.send.una,
                                    self.closed_at.unwrap(),
                                );
                            }
                        }
                    },
                    None => {},
                }
            }
            let (dg, _sent) = self.write(self.send.una, resend, false, fin, now);
            return Some(dg);
        }
        let unsent = if n > nun {
            n - nun
        } else {
            0
        };
        if unsent == 0 && self.closed_at.is_some() {
            return None;
        }
        let wnd = self.send.wnd as usize;
        if wnd <= nun {
            return None;
        }
        let allowed = wnd - nun;
        let cnt = if unsent <= allowed {
            unsent
        } else {
            allowed
        };
        let mut fin = false;
        if cnt < allowed && self.closed && self.closed_at.is_none() {
            fin = true;
            self.closed_at = Some(self.send.una.wrapping_add(n as u32));
        }
        if cnt == 0 && !fin {
            return None;
        }
        proof {
            crate::wrap::lemma_wrap_add_sub_cancel(self.send.una, self.send.nxt);
            if fin {
                assert(wrap_add(self.send.nxt, cnt as u32) == wrap_add(self.send.una, n as u32))
                    by {
                    crate::wrap::lemma_wrap_dist_add(self.send.una, self.send.nxt, cnt as u32);
                    crate::wrap::lemma_wrap_add_sub_cancel(
                        self.send.una,
                        wrap_add(self.send.nxt, cnt as u32),
                    );
                }
            }
        }
        let (dg, _sent) = self.write(self.send.nxt, cnt, false, fin, now);
        Some(dg)
    }

    /// Timer tick (§ retransmission and pacing): retransmit the oldest
    /// outstanding segment when it has waited longer than one second and
    /// longer than one and a half times the SRTT; otherwise send new
    /// data that fits the send window; emit or piggy-back our FIN once
    /// the application has closed and the window leaves room. The
    /// decision and its effect are [`Self::spec_tick_plan`],
    /// [`Self::spec_tick_state`] and [`Self::spec_tick_out`].
    pub fn on_tick(&mut self, now: u64) -> (r: Option<Vec<u8>>)
        requires
            old(self).inv(),
        ensures
            final(self).inv(),
            final(self)@ == old(self).spec_tick_state(now),
            ((r is None) <==> (old(self).spec_tick_plan(now) is None)),
            (r matches Some(dg) ==> dg@ == old(self).spec_tick_out(now)[0]),
            final(self).timers.srtt == old(self).timers.srtt,
    {
        let r = self.tick_step(now);
        r
    }

    /// The bytes of the RST elicited by an unacceptable ACK in
    /// `SYN_RCVD`.
    pub open spec fn rst_bytes(self, seq: u32) -> Seq<u8> {
        state_rst_bytes(self@, seq)
    }

    /// Receive path (§ receive path), one inbound segment:
    ///
    /// 1. an unacceptable segment elicits a bare ACK and changes nothing;
    /// 2. a SYN without ACK inside the window moves `RCV.NXT` past it;
    ///    any other segment without ACK is dropped;
    /// 3. in `SYN_RCVD`, an ACK outside `(SND.UNA - 1, SND.NXT + 1)`
    ///    elicits an RST and changes nothing;
    /// 4. otherwise the four transition steps run in order — handshake,
    ///    acknowledgment (which also settles the round-trip samples),
    ///    FIN-acknowledged, data — and one ACK is emitted exactly when
    ///    the segment consumed new sequence space.
    ///
    /// Returns the datagrams to transmit and what became available.
    #[verifier::rlimit(100)]
    pub fn on_packet(&mut self, tcph: &TcpMeta, data: &[u8], now: u64) -> (r: (
        Vec<Vec<u8>>,
        Available,
    ))
        requires
            old(self).inv(),
            data@.len() <= 65495,
        ensures
            final(self).inv(),
            r.1 == spec_avail(final(self)@),
            final(self)@ == spec_on_packet_state(old(self)@, *tcph, data@),
            r.0@.map_values(|d: Vec<u8>| d@) == spec_on_packet_out(old(self)@, *tcph, data@),
            ({
                let c0 = old(self)@;
                let acceptable = spec_acceptable(
                    c0.rcv_nxt,
                    c0.rcv_wnd,
                    tcph.seq,
                    spec_seg_len(*tcph, data@.len() as int),
                );
                let rst_case = c0.state == State::SyncRcvd && !spec_between(
                    wrap_sub(c0.una, 1),
                    tcph.ack,
                    wrap_add(c0.nxt, 1),
                );
                let takes_ack = acceptable && tcph.ack_flag && !rst_case && spec_ack_accepts(
                    spec_handshake_step(c0, tcph.ack),
                    tcph.ack,
                );
                let cut = cut_len(old(self).timers.send_times@, c0.una, wrap_sub(tcph.ack, c0.una));
                &&& (takes_ack ==> final(self).timers.send_times@ == old(
                    self,
                ).timers.send_times@.skip(cut) && final(self).timers.srtt == srtt_fold(
                    old(self).timers.srtt,
                    old(self).timers.send_times@.take(cut),
                    now,
                ))
                &&& (!takes_ack ==> final(self).timers == old(self).timers)
            }),
    {
        let ghost c0 = old(self)@;
        let plen = data.len();
        let mut slen: u32 = plen as u32;
        if tcph.syn {
            slen = slen + 1;
        }
        if tcph.fin {
            slen = slen + 1;
        }
        let okay = segment_acceptable(self.recv.nxt, self.recv.wnd, tcph.seq, slen);
        let mut out: Vec<Vec<u8>> = Vec::new();
        if !okay {
            proof {
                let n = self.unacked@.len() as int;
                let offr = wrap_sub(self.send.nxt, self.send.una) as int;
                let off = if offr > n {
                    0int
                } else {
                    offr
                };
                assert(self.unacked@.subrange(off, off) =~= Seq::<u8>::empty());
            }
            let (dg, _s) = self.write(self.send.nxt, 0, false, false, now);
            out.push(dg);
            proof {
                assert(out@.map_values(|d: Vec<u8>| d@) =~= seq![out@[0]@]);
            }
            let a = self.availability();
            return (out, a);
        }
        if !tcph.ack_flag {
            if tcph.syn && self.recv.wnd > 0 && tcph.seq.wrapping_sub(self.recv.nxt) < (
            self.recv.wnd as u32) {
                let newn = tcph.seq.wrapping_add(1);
                let delta = newn.wrapping_sub(self.recv.nxt);
                proof {
                    crate::wrap::lemma_wrap_dist_add(self.recv.nxt, tcph.seq, 1);
                    crate::wrap::lemma_wrap_add_sub_cancel(self.recv.nxt, newn);
                    crate::wrap::lemma_wrap_add_mod(self.recv.irs, self.rcv_pos@, delta as nat);
                }
                self.rcv_pos = Ghost((self.rcv_pos@ + delta) as nat);
                self.recv.nxt = newn;
            }
        proof {
            assert(out@.map_values(|d: Vec<u8>| d@) =~= Seq::<Seq<u8>>::empty());
        }
            let a = self.availability();
            return (out, a);
        }
        let out = self.ack_segment(tcph, data, now);
        let a = self.availability();
        (out, a)
    }

    /// The acceptable-with-ACK arm of the receive path: the `SYN_RCVD`
    /// acknowledgment check, then the four transition steps in order.
    /// Split out of [`Self::on_packet`] to keep each proof small.
    #[verifier::rlimit(100)]
    fn ack_segment(&mut self, tcph: &TcpMeta, data: &[u8], now: u64) -> (out: Vec<Vec<u8>>)
        requires
            old(self).inv(),
            data@.len() <= 65495,
            tcph.ack_flag,
            spec_acceptable(
                old(self)@.rcv_nxt,
                old(self)@.rcv_wnd,
                tcph.seq,
                spec_seg_len(*tcph, data@.len() as int),
            ),
        ensures
            final(self).inv(),
            final(self)@ == spec_on_packet_state(old(self)@, *tcph, data@),
            out@.map_values(|d: Vec<u8>| d@) == spec_on_packet_out(old(self)@, *tcph, data@),
            ({
                let c0 = old(self)@;
                let rst_case = c0.state == State::SyncRcvd && !spec_between(
                    wrap_sub(c0.una, 1),
                    tcph.ack,
                    wrap_add(c0.nxt, 1),
                );
                let takes_ack = !rst_case && spec_ack_accepts(
                    spec_handshake_step(c0, tcph.ack),
                    tcph.ack,
                );
                let cut = cut_len(old(self).timers.send_times@, c0.una, wrap_sub(tcph.ack, c0.una));
                &&& (takes_ack ==> final(self).timers.send_times@ == old(
                    self,
                ).timers.send_times@.skip(cut) && final(self).timers.srtt == srtt_fold(
                    old(self).timers.srtt,
                    old(self).timers.send_times@.take(cut),
                    now,
                ))
                &&& (!takes_ack ==> final(self).timers == old(self).timers)
            }),
    {
        let ghost c0 = old(self)@;
        let plen = data.len();
        let mut out: Vec<Vec<u8>> = Vec::new();
        let ackn = tcph.ack;
        let ghost una0 = self.send.una;
        let ghost t0 = self.timers.send_times@;
        let ghost d0 = wrap_sub(self.send.nxt, self.send.una);
        match self.state {
            State::SyncRcvd => {
                if is_between_wrapped(
                    self.send.una.wrapping_sub(1),
                    ackn,
                    self.send.nxt.wrapping_add(1),
                ) {
                    self.state = State::Estab;
                } else {
                    let dg = self.send_rst(ackn);
                    out.push(dg);
                    proof {
                        assert(out@.map_values(|d: Vec<u8>| d@) =~= seq![out@[0]@]);
                    }
                    return out;
                }
            },
            _ => {},
        }
        proof {
            assert(self@ == spec_handshake_step(c0, ackn));
        }
        let ghost c1 = spec_handshake_step(c0, ackn);
        if is_between_wrapped(self.send.una, ackn, self.send.nxt.wrapping_add(1)) {
            let k32 = ackn.wrapping_sub(self.send.una);
            proof {
                crate::wrap::lemma_wrap_dist_add(
                    self.send.una,
                    self.send.nxt,
                    1,
                );
                crate::wrap::lemma_wrap_sub_antisym(self.send.una, ackn);
                assert(1 <= k32 <= wrap_sub(self.send.nxt, self.send.una));
            }
            let k = k32 as usize;
            let kk = if self.syn_acked {
                k
            } else {
                k - 1
            };
            let n0 = self.unacked.len();
            let drained = if kk <= n0 {
                kk
            } else {
                n0
            };
            let ghost unacked0 = self.unacked@;
            let rest = self.unacked.split_off(drained);
            self.unacked = rest;
            proof {
                assert(self.unacked@ =~= unacked0.skip(drained as int));
            }
            self.timers.on_ack(self.send.una, ackn, now);
            self.send.una = ackn;
            self.syn_acked = true;
            proof {
                assert(self@ == spec_ack_step(c1, ackn));
                lemma_ack_step_wf(c1, ackn);
                lemma_timer_range_after_ack(
                    t0,
                    self.timers.send_times@,
                    una0,
                    ackn,
                    self.send.nxt,
                );
                assert(self.inv());
            }
        }
        proof {
            assert(self@ == spec_ack_step(c1, ackn));
            assert(self.inv());
        }
        let ghost c2 = spec_ack_step(c1, ackn);
        match self.closed_at {
            Some(c) => {
                if self.send.una == c.wrapping_add(1) {
                    match self.state {
                        State::FinWait1 => {
                            self.state = State::FinWait2;
                        },
                        State::Closing => {
                            self.state = State::TimeWait;
                        },
                        _ => {},
                    }
                }
            },
            None => {},
        }
        proof {
            assert(self@ == spec_fin_ack_step(c2));
        }
        let ghost c3 = spec_fin_ack_step(c2);
        let accepts = match self.state {
            State::Estab | State::FinWait1 | State::FinWait2 => true,
            _ => false,
        };
        let off_raw = self.recv.nxt.wrapping_sub(tcph.seq);
        if accepts && (off_raw as usize) <= plen {
            let off = off_raw as usize;
            let ghost incoming0 = self.incoming@;
            let mut tail: VecDeque<u8> = VecDeque::new();
            let mut i: usize = off;
            while i < plen
                invariant
                    off <= i <= plen,
                    plen == data@.len(),
                    tail@ == data@.subrange(off as int, i as int),
                decreases plen - i,
            {
                tail.push_back(data[i]);
                proof {
                    assert(tail@ =~= data@.subrange(off as int, i + 1));
                }
                i += 1;
            }
            self.incoming.append(&mut tail);
            proof {
                assert(self.incoming@ =~= incoming0 + data@.skip(off as int));
            }
            let fin_add: u32 = if tcph.fin {
                1
            } else {
                0
            };
            let newn = tcph.seq.wrapping_add(plen as u32).wrapping_add(fin_add);
            let delta = newn.wrapping_sub(self.recv.nxt);
            proof {
                crate::wrap::lemma_wrap_dist_add(tcph.seq, tcph.seq, plen as u32);
                crate::wrap::lemma_wrap_dist_add(
                    tcph.seq,
                    tcph.seq.wrapping_add(plen as u32),
                    fin_add,
                );
                crate::wrap::lemma_wrap_add_sub_cancel(tcph.seq, newn);
                assert(newn == wrap_add(tcph.seq, (plen + fin_add) as u32));
                crate::wrap::lemma_wrap_dist_diff(tcph.seq, newn, self.recv.nxt);
                crate::wrap::lemma_wrap_add_sub_cancel(self.recv.nxt, newn);
            }
            self.rcv_pos = Ghost((self.rcv_pos@ + delta) as nat);
            self.recv.nxt = newn;
            if tcph.fin {
                match self.state {
                    State::Estab => {
                        self.state = State::CloseWait;
                    },
                    State::FinWait1 => {
                        self.state = State::Closing;
                    },
                    _ => {
                        self.state = State::TimeWait;
                    },
                }
            }
            proof {
                assert(self@ == spec_data_step(c3, tcph.seq, data@, tcph.fin));
                lemma_data_step_wf(c3, tcph.seq, data@, tcph.fin);
            }
            if plen - off > 0 || tcph.fin {
                proof {
                    assert(self.inv());
                    let nn = self.unacked@.len() as int;
                    let offr2 = wrap_sub(self.send.nxt, self.send.una) as int;
                    let off2 = if offr2 > nn {
                        0int
                    } else {
                        offr2
                    };
                    assert(self.unacked@.subrange(off2, off2) =~= Seq::<u8>::empty());
                }
                let (dg, _s) = self.write(self.send.nxt, 0, false, false, now);
                out.push(dg);
            }
        }
        proof {
            assert(self@ == spec_data_step(c3, tcph.seq, data@, tcph.fin));
            if out@.len() == 1 {
                assert(out@.map_values(|d: Vec<u8>| d@) =~= seq![out@[0]@]);
            } else {
                assert(out@.map_values(|d: Vec<u8>| d@) =~= Seq::<Seq<u8>>::empty());
            }
        }
        out
    }

    /// Reset generation (RFC 793 §3.4) for an ACK that fails the
    /// `SYN_RCVD` acknowledgment check: an RST whose sequence number is
    /// the offending acknowledgment number, carrying no ACK of its own.
    /// Stateless: the connection remains as it is.
    pub fn send_rst(&self, seq: u32) -> (r: Vec<u8>)
        ensures
            r@ == segment_bytes_of(
                self.quad.dst_ip,
                self.quad.src_ip,
                SEND_TTL,
                (TcpMeta {
                    src_port: self.quad.dst_port,
                    dst_port: self.quad.src_port,
                    seq,
                    ack: 0,
                    wnd: self.send.wnd,
                    syn: false,
                    ack_flag: false,
                    fin: false,
                    rst: true,
                    header_len: 20,
                }),
                Seq::<u8>::empty(),
            ),
    {
        let meta = TcpMeta {
            src_port: self.quad.dst_port,
            dst_port: self.quad.src_port,
            seq,
            ack: 0,
            wnd: self.send.wnd,
            syn: false,
            ack_flag: false,
            fin: false,
            rst: true,
            header_len: 20,
        };
        let empty: Vec<u8> = Vec::new();
        encode_segment(self.quad.dst_ip, self.quad.src_ip, SEND_TTL, 20, &meta, &empty)
    }
}

} // verus!
