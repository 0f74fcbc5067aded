//! Connection manager: the map from four-tuple to connection, the map
//! from listening port to pending-accept queue, and the dispatch of one
//! device's inbound datagrams across them.
//!
//! The manager is single-threaded and free of I/O: a surrounding runtime
//! feeds it raw datagrams and clock readings, transmits the datagrams it
//! returns, and uses the [`Wake`] flags to rouse blocked application
//! threads. Both maps are association vectors with unique keys.
use crate::codec::{ipv4_meta_of, parse_ipv4, parse_tcp, tcp_meta_of};
use crate::tcp::{
    spec_avail, spec_on_packet_out, spec_on_packet_state, ConnState, Connection, State,
    MAX_UNACKED,
};
use crate::{Quad, TcpError};
use std::collections::VecDeque;
use vstd::prelude::*;

verus! {

/// What a dispatched datagram made possible, so the runtime can wake
/// blocked `accept` and `read` callers.
#[derive(Clone, Copy, PartialEq, Eq, Structural, Debug)]
pub struct Wake {
    /// A connection gained readable data or had its read side closed.
    pub read_ready: bool,
    /// A new connection was queued on a listening port.
    pub accepted: bool,
}

/// Some entry of `s` is keyed by the four-tuple `q`.
pub open spec fn has_conn(s: Seq<(Quad, Connection)>, q: Quad) -> bool {
    exists|i: int| 0 <= i < s.len() && s[i].0 == q
}

/// The connection of `s` keyed by `q` (meaningful under [`has_conn`] and
/// key uniqueness).
pub open spec fn conn_at(s: Seq<(Quad, Connection)>, q: Quad) -> Connection {
    s[choose|i: int| 0 <= i < s.len() && s[i].0 == q].1
}

/// Some entry of `s` is keyed by the port `p`.
pub open spec fn has_port(s: Seq<(u16, Vec<Quad>)>, p: u16) -> bool {
    exists|i: int| 0 <= i < s.len() && s[i].0 == p
}

/// The pending-accept queue of `s` for port `p` (meaningful under
/// [`has_port`] and key uniqueness).
pub open spec fn queue_of(s: Seq<(u16, Vec<Quad>)>, p: u16) -> Seq<Quad> {
    s[choose|i: int| 0 <= i < s.len() && s[i].0 == p].1@
}

/// The connection manager. One per device.
pub struct ConnectionManager {
    /// Set when the interface is being torn down.
    pub terminated: bool,
    /// Active connections, keyed by four-tuple.
    pub connections: Vec<(Quad, Connection)>,
    /// Listening ports, each with the four-tuples accepted on it and not
    /// yet handed to an application thread.
    pub pending: Vec<(u16, Vec<Quad>)>,
}

impl ConnectionManager {
    /// Keys of both maps are unique and every connection is well-formed.
    pub open spec fn inv(self) -> bool {
        &&& forall|i: int, j: int|
            #![trigger self.connections@[i], self.connections@[j]]
            0 <= i < j < self.connections@.len() ==> self.connections@[i].0
                != self.connections@[j].0
        &&& forall|i: int|
            0 <= i < self.connections@.len() ==> (#[trigger] self.connections@[i]).1.inv()
        &&& forall|i: int, j: int|
            #![trigger self.pending@[i], self.pending@[j]]
            0 <= i < j < self.pending@.len() ==> self.pending@[i].0 != self.pending@[j].0
    }

    /// A fresh manager: no connections, no listeners, running.
    pub fn new() -> (r: ConnectionManager)
        ensures
            r.inv(),
            !r.terminated,
            r.connections@.len() == 0,
            r.pending@.len() == 0,
    {
        ConnectionManager { terminated: false, connections: Vec::new(), pending: Vec::new() }
    }

    /// Index of the connection keyed by `q`, if any.
    fn find_conn(&self, q: Quad) -> (r: Option<usize>)
        ensures
            match r {
                Some(i) => i < self.connections@.len() && self.connections@[i as int].0 == q,
                None => !has_conn(self.connections@, q),
            },
    {
        let mut i: usize = 0;
        while i < self.connections.len()
            invariant
                0 <= i <= self.connections@.len(),
                forall|j: int| 0 <= j < i ==> (#[trigger] self.connections@[j]).0 != q,
            decreases self.connections@.len() - i,
        {
            if self.connections[i].0 == q {
                return Some(i);
            }
            i += 1;
        }
        None
    }

    /// Index of the listening-port entry for `p`, if any.
    fn find_port(&self, p: u16) -> (r: Option<usize>)
        ensures
            match r {
                Some(i) => i < self.pending@.len() && self.pending@[i as int].0 == p,
                None => !has_port(self.pending@, p),
            },
    {
        let mut i: usize = 0;
        while i < self.pending.len()
            invariant
                0 <= i <= self.pending@.len(),
                forall|j: int| 0 <= j < i ==> (#[trigger] self.pending@[j]).0 != p,
            decreases self.pending@.len() - i,
        {
            if self.pending[i].0 == p {
                return Some(i);
            }
            i += 1;
        }
        None
    }

    /// Start listening on `port`: a fresh empty pending queue, or
    /// `AddressInUse` exactly when the port already has one.
    pub fn bind(&mut self, port: u16) -> (r: Result<(), TcpError>)
        requires
            old(self).inv(),
        ensures
            final(self).inv(),
            final(self).terminated == old(self).terminated,
            final(self).connections == old(self).connections,
            ((r is Ok) <==> !has_port(old(self).pending@, port)),
            ((r is Err) ==> r == (Result::<(), TcpError>::Err(TcpError::AddressInUse))
                && final(self).pending == old(self).pending),
            ((r is Ok) ==> has_port(final(self).pending@, port) && queue_of(
                final(self).pending@,
                port,
            ) == Seq::<Quad>::empty()),
            forall|p: u16|
                p != port ==> (#[trigger] has_port(final(self).pending@, p) == has_port(
                    old(self).pending@,
                    p,
                ) && (has_port(old(self).pending@, p) ==> queue_of(final(self).pending@, p)
                    == queue_of(old(self).pending@, p))),
    {
        match self.find_port(port) {
            Some(_) => Err(TcpError::AddressInUse),
            None => {
                let ghost olds = self.pending@;
                let fresh: Vec<Quad> = Vec::new();
                self.pending.push((port, fresh));
                proof {
                    let news = self.pending@;
                    let n = olds.len() as int;
                    assert(news[n].0 == port);
                    assert(has_port(news, port));
                    lemma_port_key_unique(news, port, n);
                    assert forall|p: u16| p != port implies (#[trigger] has_port(news, p)
                        == has_port(olds, p) && (has_port(olds, p) ==> queue_of(news, p)
                        == queue_of(olds, p))) by {
                        if has_port(news, p) {
                            let i = choose|i: int| 0 <= i < news.len() && news[i].0 == p;
                            assert(i != n);
                            assert(olds[i].0 == p);
                        }
                        if has_port(olds, p) {
                            let i = choose|i: int| 0 <= i < olds.len() && olds[i].0 == p;
                            assert(news[i].0 == p);
                            lemma_port_key_unique(news, p, i);
                            lemma_port_key_unique(olds, p, i);
                        }
                    }
                }
                Ok(())
            },
        }
    }

    /// Stop listening on `port`: drop its pending queue. Returns whether
    /// the port was listening.
    pub fn unbind(&mut self, port: u16) -> (r: bool)
        requires
            old(self).inv(),
        ensures
            final(self).inv(),
            final(self).terminated == old(self).terminated,
            final(self).connections == old(self).connections,
            r == has_port(old(self).pending@, port),
            !has_port(final(self).pending@, port),
            forall|p: u16|
                p != port ==> (#[trigger] has_port(final(self).pending@, p) == has_port(
                    old(self).pending@,
                    p,
                ) && (has_port(old(self).pending@, p) ==> queue_of(final(self).pending@, p)
                    == queue_of(old(self).pending@, p))),
    {
        match self.find_port(port) {
            None => false,
            Some(i) => {
                let ghost olds = self.pending@;
                let _ = self.pending.remove(i);
                proof {
                    let news = self.pending@;
                    lemma_port_key_unique(olds, port, i as int);
                    assert forall|p: u16| #[trigger]
                        has_port(news, p) implies has_port(olds, p) && p != port by {
                        let j = choose|j: int| 0 <= j < news.len() && news[j].0 == p;
                        if j < i {
                            assert(olds[j].0 == p);
                        } else {
                            assert(olds[j + 1].0 == p);
                        }
                    }
                    assert forall|p: u16| p != port && #[trigger] has_port(olds, p) implies
                        has_port(news, p) && queue_of(news, p) == queue_of(olds, p) by {
                        let j = choose|j: int| 0 <= j < olds.len() && olds[j].0 == p;
                        let nj: int = if j < i {
                            j
                        } else {
                            j - 1
                        };
                        assert(news[nj] == olds[j]);
                        lemma_port_key_unique(news, p, nj);
                        lemma_port_key_unique(olds, p, j);
                    }
                }
                true
            },
        }
    }

    /// Take the next accepted connection queued on `port`:
    /// `ConnectionAborted` when the port is not listening, `None` when
    /// nothing is queued, else the front of the queue.
    pub fn accept_quad(&mut self, port: u16) -> (r: Result<Option<Quad>, TcpError>)
        requires
            old(self).inv(),
        ensures
            final(self).inv(),
            final(self).terminated == old(self).terminated,
            final(self).connections == old(self).connections,
            ((r is Err) <==> !has_port(old(self).pending@, port)),
            ((r is Err) ==> r == (Result::<Option<Quad>, TcpError>::Err(
                TcpError::ConnectionAborted,
            )) && final(self).pending == old(self).pending),
            (has_port(old(self).pending@, port) && queue_of(old(self).pending@, port).len() == 0
                ==> r == (Result::<Option<Quad>, TcpError>::Ok(None)) && final(self).pending == old(
                self,
            ).pending),
            (has_port(old(self).pending@, port) && queue_of(old(self).pending@, port).len() > 0
                ==> r == (Result::<Option<Quad>, TcpError>::Ok(
                Some(queue_of(old(self).pending@, port)[0]),
            )) && has_port(final(self).pending@, port) && queue_of(final(self).pending@, port)
                == queue_of(old(self).pending@, port).drop_first()),
            forall|p: u16|
                p != port ==> (#[trigger] has_port(final(self).pending@, p) == has_port(
                    old(self).pending@,
                    p,
                ) && (has_port(old(self).pending@, p) ==> queue_of(final(self).pending@, p)
                    == queue_of(old(self).pending@, p))),
    {
        match self.find_port(port) {
            None => Err(TcpError::ConnectionAborted),
            Some(i) => {
                proof {
                    lemma_port_key_unique(self.pending@, port, i as int);
                }
                if self.pending[i].1.len() == 0 {
                    return Ok(None);
                }
                let ghost olds = self.pending@;
                let (p, mut queue) = self.pending.remove(i);
                let q = queue.remove(0);
                self.pending.insert(i, (p, queue));
                proof {
                    let news = self.pending@;
                    assert(news[i as int].0 == port);
                    assert(news[i as int].1@ =~= olds[i as int].1@.drop_first());
                    assert forall|j: int| 0 <= j < news.len() && j != i implies news[j] == olds[j]
                    by {
                        assert(news =~= olds.update(i as int, news[i as int]));
                    }
                    lemma_port_key_unique(news, port, i as int);
                    assert forall|pp: u16| pp != port implies (#[trigger] has_port(news, pp)
                        == has_port(olds, pp) && (has_port(olds, pp) ==> queue_of(news, pp)
                        == queue_of(olds, pp))) by {
                        if has_port(news, pp) {
                            let j = choose|j: int| 0 <= j < news.len() && news[j].0 == pp;
                            assert(olds[j].0 == pp);
                        }
                        if has_port(olds, pp) {
                            let j = choose|j: int| 0 <= j < olds.len() && olds[j].0 == pp;
                            assert(news[j].0 == pp);
                            lemma_port_key_unique(news, pp, j);
                            lemma_port_key_unique(olds, pp, j);
                        }
                    }
                }
                Ok(Some(q))
            },
        }
    }
}

impl ConnectionManager {
    /// Hand bytes to a connection's send queue (§ socket facade):
    /// `ConnectionAborted` without a connection, `NotConnected` after a
    /// local close, `WouldBlock` when the queue is full; else as many
    /// leading bytes of `buf` as the queue can hold are appended.
    pub fn write(&mut self, quad: Quad, buf: &[u8]) -> (r: Result<usize, TcpError>)
        requires
            old(self).inv(),
        ensures
            final(self).inv(),
            final(self).terminated == old(self).terminated,
            final(self).pending == old(self).pending,
            forall|q: Quad| #[trigger]
                has_conn(final(self).connections@, q) == has_conn(old(self).connections@, q),
            ((r is Err) ==> final(self).connections@ == old(self).connections@),
            ((r == (Result::<usize, TcpError>::Err(TcpError::ConnectionAborted))) <==> !has_conn(
                old(self).connections@,
                quad,
            )),
            (has_conn(old(self).connections@, quad) ==> ({
                let c = conn_at(old(self).connections@, quad);
                &&& (c.closed ==> r == (Result::<usize, TcpError>::Err(TcpError::NotConnected)))
                &&& (!c.closed && c.unacked@.len() >= MAX_UNACKED ==> r == (Result::<
                    usize,
                    TcpError,
                >::Err(TcpError::WouldBlock)))
                &&& (!c.closed && c.unacked@.len() < MAX_UNACKED ==> ({
                    let m = if buf@.len() <= MAX_UNACKED - c.unacked@.len() {
                        buf@.len() as int
                    } else {
                        MAX_UNACKED - c.unacked@.len()
                    };
                    &&& r == (Result::<usize, TcpError>::Ok(m as usize))
                    &&& conn_at(final(self).connections@, quad)@ == (ConnState {
                        unacked: c@.unacked + buf@.take(m),
                        ..c@
                    })
                    &&& conn_at(final(self).connections@, quad).timers == c.timers
                }))
                &&& (forall|q: Quad|
                    q != quad && #[trigger] has_conn(old(self).connections@, q) ==> conn_at(
                        final(self).connections@,
                        q,
                    ) == conn_at(old(self).connections@, q))
            })),
    {
        match self.find_conn(quad) {
            None => Err(TcpError::ConnectionAborted),
            Some(i) => {
                let ghost olds = self.connections@;
                proof {
                    lemma_conn_key_unique(olds, quad, i as int);
                }
                let (q, mut c) = self.connections.remove(i);
                if c.closed {
                    self.connections.insert(i, (q, c));
                    proof {
                        assert(self.connections@ =~= olds);
                    }
                    return Err(TcpError::NotConnected);
                }
                let cur = c.unacked.len();
                if cur >= MAX_UNACKED {
                    self.connections.insert(i, (q, c));
                    proof {
                        assert(self.connections@ =~= olds);
                    }
                    return Err(TcpError::WouldBlock);
                }
                let room = MAX_UNACKED - cur;
                let m = if buf.len() <= room {
                    buf.len()
                } else {
                    room
                };
                let mut tail: VecDeque<u8> = VecDeque::new();
                let mut j: usize = 0;
                while j < m
                    invariant
                        0 <= j <= m,
                        m <= buf@.len(),
                        tail@ == buf@.take(j as int),
                    decreases m - j,
                {
                    tail.push_back(buf[j]);
                    proof {
                        assert(tail@ =~= buf@.take(j + 1));
                    }
                    j += 1;
                }
                c.unacked.append(&mut tail);
                proof {
                    assert(c.inv());
                }
                self.connections.insert(i, (q, c));
                proof {
                    lemma_conn_replace(olds, self.connections@, i as int);
                }
                Ok(m)
            },
        }
    }

    /// Take up to `max` bytes of in-order received data (§ socket
    /// facade): `ConnectionAborted` without a connection, an empty
    /// vector once the peer has closed and everything is consumed,
    /// `WouldBlock` while nothing is there yet.
    pub fn read(&mut self, quad: Quad, max: usize) -> (r: Result<Vec<u8>, TcpError>)
        requires
            old(self).inv(),
        ensures
            final(self).inv(),
            final(self).terminated == old(self).terminated,
            final(self).pending == old(self).pending,
            forall|q: Quad| #[trigger]
                has_conn(final(self).connections@, q) == has_conn(old(self).connections@, q),
            ((r is Err) ==> final(self).connections@ == old(self).connections@),
            ((r == (Result::<Vec<u8>, TcpError>::Err(TcpError::ConnectionAborted))) <==> !has_conn(
                old(self).connections@,
                quad,
            )),
            (has_conn(old(self).connections@, quad) ==> ({
                let c = conn_at(old(self).connections@, quad);
                let rcv_closed = c.state == State::TimeWait || c.state == State::CloseWait
                    || c.state == State::Closing;
                &&& (c.incoming@.len() == 0 && rcv_closed ==> (r matches Ok(v) && v@ == Seq::<
                    u8,
                >::empty()) && final(self).connections@ == old(self).connections@)
                &&& (c.incoming@.len() == 0 && !rcv_closed ==> r == (Result::<
                    Vec<u8>,
                    TcpError,
                >::Err(TcpError::WouldBlock)))
                &&& (c.incoming@.len() > 0 ==> ({
                    let k = if max <= c.incoming@.len() {
                        max as int
                    } else {
                        c.incoming@.len() as int
                    };
                    &&& (r matches Ok(v) && v@ == c.incoming@.take(k))
                    &&& conn_at(final(self).connections@, quad)@ == (ConnState {
                        incoming: c@.incoming.skip(k),
                        ..c@
                    })
                    &&& conn_at(final(self).connections@, quad).timers == c.timers
                }))
                &&& (forall|q: Quad|
                    q != quad && #[trigger] has_conn(old(self).connections@, q) ==> conn_at(
                        final(self).connections@,
                        q,
                    ) == conn_at(old(self).connections@, q))
            })),
    {
        match self.find_conn(quad) {
            None => Err(TcpError::ConnectionAborted),
            Some(i) => {
                let ghost olds = self.connections@;
                proof {
                    lemma_conn_key_unique(olds, quad, i as int);
                }
                let (q, mut c) = self.connections.remove(i);
                if c.incoming.len() == 0 {
                    let closed_r = c.is_rcv_closed();
                    self.connections.insert(i, (q, c));
                    proof {
                        assert(self.connections@ =~= olds);
                    }
                    if closed_r {
                        return Ok(Vec::new());
                    }
                    return Err(TcpError::WouldBlock);
                }
                let len = c.incoming.len();
                let k = if max <= len {
                    max
                } else {
                    len
                };
                let ghost inc0 = c.incoming@;
                let tail = c.incoming.split_off(k);
                let mut out: Vec<u8> = Vec::new();
                let mut j: usize = 0;
                while j < k
                    invariant
                        0 <= j <= k,
                        k <= c.incoming@.len(),
                        out@ == c.incoming@.take(j as int),
                    decreases k - j,
                {
                    let b = c.incoming[j];
                    out.push(b);
                    proof {
                        assert(out@ =~= c.incoming@.take(j + 1));
                    }
                    j += 1;
                }
                proof {
                    assert(out@ =~= inc0.take(k as int));
                }
                c.incoming = tail;
                proof {
                    assert(c.inv());
                }
                self.connections.insert(i, (q, c));
                proof {
                    lemma_conn_replace(olds, self.connections@, i as int);
                }
                Ok(out)
            },
        }
    }

    /// `Ok` exactly when every byte handed to the connection has been
    /// acknowledged; `WouldBlock` while some are still in flight.
    pub fn flush(&mut self, quad: Quad) -> (r: Result<(), TcpError>)
        requires
            old(self).inv(),
        ensures
            final(self).inv(),
            final(self).terminated == old(self).terminated,
            final(self).connections == old(self).connections,
            final(self).pending == old(self).pending,
            ((r == (Result::<(), TcpError>::Err(TcpError::ConnectionAborted))) <==> !has_conn(
                old(self).connections@,
                quad,
            )),
            (has_conn(old(self).connections@, quad) ==> r == (if conn_at(
                old(self).connections@,
                quad,
            ).unacked@.len() == 0 {
                Result::<(), TcpError>::Ok(())
            } else {
                Result::<(), TcpError>::Err(TcpError::WouldBlock)
            })),
    {
        match self.find_conn(quad) {
            None => Err(TcpError::ConnectionAborted),
            Some(i) => {
                proof {
                    lemma_conn_key_unique(self.connections@, quad, i as int);
                }
                if self.connections[i].1.unacked.len() == 0 {
                    Ok(())
                } else {
                    Err(TcpError::WouldBlock)
                }
            },
        }
    }

    /// Close the sending side of a connection (§ socket facade).
    pub fn shutdown(&mut self, quad: Quad) -> (r: Result<(), TcpError>)
        requires
            old(self).inv(),
        ensures
            final(self).inv(),
            final(self).terminated == old(self).terminated,
            final(self).pending == old(self).pending,
            forall|q: Quad| #[trigger]
                has_conn(final(self).connections@, q) == has_conn(old(self).connections@, q),
            ((r == (Result::<(), TcpError>::Err(TcpError::ConnectionAborted))) <==> !has_conn(
                old(self).connections@,
                quad,
            )),
            (has_conn(old(self).connections@, quad) ==> ({
                let c = conn_at(old(self).connections@, quad);
                let c1 = conn_at(final(self).connections@, quad);
                &&& ((r is Ok) <==> (c.state == State::SyncRcvd || c.state == State::Estab
                    || c.state == State::FinWait1 || c.state == State::FinWait2))
                &&& ((r is Err) ==> r == (Result::<(), TcpError>::Err(TcpError::NotConnected)))
                &&& c1@ == (ConnState {
                    state: if c.state == State::SyncRcvd || c.state == State::Estab {
                        State::FinWait1
                    } else {
                        c.state
                    },
                    closed: true,
                    ..c@
                })
                &&& c1.timers == c.timers
                &&& (forall|q: Quad|
                    q != quad && #[trigger] has_conn(old(self).connections@, q) ==> conn_at(
                        final(self).connections@,
                        q,
                    ) == conn_at(old(self).connections@, q))
            })),
    {
        match self.find_conn(quad) {
            None => Err(TcpError::ConnectionAborted),
            Some(i) => {
                let ghost olds = self.connections@;
                proof {
                    lemma_conn_key_unique(olds, quad, i as int);
                }
                let (q, mut c) = self.connections.remove(i);
                let r = c.close();
                self.connections.insert(i, (q, c));
                proof {
                    lemma_conn_replace(olds, self.connections@, i as int);
                }
                r
            },
        }
    }
}

/// The datagrams one tick emits across a sequence of connections, in
/// order.
pub open spec fn spec_ticks_out(s: Seq<(Quad, Connection)>, now: u64) -> Seq<Seq<u8>>
    decreases s.len(),
{
    if s.len() == 0 {
        Seq::<Seq<u8>>::empty()
    } else {
        s[0].1.spec_tick_out(now) + spec_ticks_out(s.drop_first(), now)
    }
}

proof fn lemma_ticks_out_snoc(s: Seq<(Quad, Connection)>, now: u64, i: int)
    requires
        0 <= i < s.len(),
    ensures
        spec_ticks_out(s.take(i + 1), now) == spec_ticks_out(s.take(i), now)
            + s[i].1.spec_tick_out(now),
    decreases i,
{
    if i == 0 {
        assert(s.take(1).drop_first() =~= s.take(0));
        assert(s.take(1)[0] == s[0]);
        assert(s.take(0).len() == 0);
        assert(spec_ticks_out(s.take(0), now) == Seq::<Seq<u8>>::empty());
        assert(spec_ticks_out(s.take(1), now) == s[0].1.spec_tick_out(now) + spec_ticks_out(
            s.take(0),
            now,
        ));
        assert(spec_ticks_out(s.take(1), now) =~= spec_ticks_out(s.take(0), now)
            + s[0].1.spec_tick_out(now));
    } else {
        assert(s.take(i + 1)[0] == s[0]);
        assert(s.take(i)[0] == s[0]);
        assert(s.take(i + 1).drop_first() =~= s.drop_first().take(i));
        assert(s.take(i).drop_first() =~= s.drop_first().take(i - 1));
        lemma_ticks_out_snoc(s.drop_first(), now, i - 1);
        assert(s.drop_first()[i - 1] == s[i]);
        assert(spec_ticks_out(s.take(i + 1), now) == s[0].1.spec_tick_out(now) + spec_ticks_out(
            s.drop_first().take(i),
            now,
        ));
        assert(spec_ticks_out(s.take(i), now) == s[0].1.spec_tick_out(now) + spec_ticks_out(
            s.drop_first().take(i - 1),
            now,
        ));
        assert(spec_ticks_out(s.take(i + 1), now) =~= spec_ticks_out(s.take(i), now)
            + s[i].1.spec_tick_out(now));
    }
}

impl ConnectionManager {
    /// Run one timer tick over every connection and collect, in map
    /// order, the datagrams to transmit.
    pub fn on_tick_all(&mut self, now: u64) -> (r: Vec<Vec<u8>>)
        requires
            old(self).inv(),
        ensures
            final(self).inv(),
            final(self).terminated == old(self).terminated,
            final(self).pending == old(self).pending,
            final(self).connections@.len() == old(self).connections@.len(),
            forall|i: int|
                #![trigger final(self).connections@[i]]
                0 <= i < old(self).connections@.len() ==> (final(self).connections@[i].0 == old(
                    self,
                ).connections@[i].0 && final(self).connections@[i].1@ == old(
                    self,
                ).connections@[i].1.spec_tick_state(now)),
            r@.map_values(|d: Vec<u8>| d@) == spec_ticks_out(old(self).connections@, now),
    {
        let ghost olds = self.connections@;
        let mut out: Vec<Vec<u8>> = Vec::new();
        let mut i: usize = 0;
        while i < self.connections.len()
            invariant
                old(self).inv(),
                0 <= i <= self.connections@.len(),
                self.connections@.len() == olds.len(),
                olds == old(self).connections@,
                self.terminated == old(self).terminated,
                self.pending == old(self).pending,
                forall|j: int|
                    i <= j < olds.len() ==> (#[trigger] self.connections@[j]) == olds[j],
                forall|j: int|
                    0 <= j < i ==> (#[trigger] self.connections@[j]).0 == olds[j].0 && self.connections@[j].1@ == olds[j].1.spec_tick_state(now) && self.connections@[j].1.inv(),
                out@.map_values(|d: Vec<u8>| d@) == spec_ticks_out(olds.take(i as int), now),
            decreases self.connections@.len() - i,
        {
            let ghost mids = self.connections@;
            let (q, mut c) = self.connections.remove(i);
            let dg = c.on_tick(now);
            self.connections.insert(i, (q, c));
            proof {
                assert(self.connections@ =~= mids.update(i as int, (q, c)));
                lemma_ticks_out_snoc(olds, now, i as int);
            }
            match dg {
                Some(d) => {
                    out.push(d);
                    proof {
                        assert(out@.map_values(|d: Vec<u8>| d@) =~= spec_ticks_out(
                            olds.take(i + 1),
                            now,
                        ));
                    }
                },
                None => {
                    proof {
                        assert(olds[i as int].1.spec_tick_out(now) =~= Seq::<Seq<u8>>::empty());
                        assert(out@.map_values(|d: Vec<u8>| d@) =~= spec_ticks_out(
                            olds.take(i + 1),
                            now,
                        ));
                    }
                },
            }
            i += 1;
        }
        proof {
            assert(olds.take(olds.len() as int) =~= olds);
        }
        out
    }
}

impl ConnectionManager {
    /// Dispatch one raw datagram from the device (§ packet loop):
    ///
    /// * anything that does not parse as IPv4 carrying TCP is ignored;
    /// * a segment of a known four-tuple goes to that connection's
    ///   receive path;
    /// * a SYN aimed at a listening port creates a connection, queues it
    ///   on the port and answers SYN|ACK;
    /// * everything else is dropped.
    ///
    /// Returns the datagrams to transmit and which sleepers to wake.
    #[verifier::rlimit(100)]
    pub fn on_datagram(&mut self, buf: &[u8], now: u64) -> (r: (Vec<Vec<u8>>, Wake))
        requires
            old(self).inv(),
            buf@.len() <= 2048,
        ensures
            final(self).inv(),
            final(self).terminated == old(self).terminated,
            ({
                let ipm = ipv4_meta_of(buf@);
                let not_tcp = ipm is None || ipm.unwrap().protocol != 6 || tcp_meta_of(
                    buf@.skip(ipm.unwrap().header_len as int),
                ) is None;
                &&& (not_tcp ==> final(self).connections@ == old(self).connections@ && final(self).pending == old(self).pending && r.0@.len() == 0 && r.1 == (Wake {
                    read_ready: false,
                    accepted: false,
                }))
                &&& (!not_tcp ==> ({
                    let m = ipm.unwrap();
                    let t = tcp_meta_of(buf@.skip(m.header_len as int)).unwrap();
                    let quad = Quad {
                        src_ip: m.src,
                        src_port: t.src_port,
                        dst_ip: m.dst,
                        dst_port: t.dst_port,
                    };
                    let payload = buf@.skip(m.header_len + t.header_len);
                    &&& (has_conn(old(self).connections@, quad) ==> ({
                        let c = conn_at(old(self).connections@, quad);
                        &&& final(self).pending == old(self).pending
                        &&& conn_at(final(self).connections@, quad)@ == spec_on_packet_state(
                            c@,
                            t,
                            payload,
                        )
                        &&& r.0@.map_values(|d: Vec<u8>| d@) == spec_on_packet_out(c@, t, payload)
                        &&& (forall|q: Quad| #[trigger]
                            has_conn(final(self).connections@, q) == has_conn(
                                old(self).connections@,
                                q,
                            ))
                        &&& (forall|q: Quad|
                            q != quad && #[trigger] has_conn(old(self).connections@, q)
                                ==> conn_at(final(self).connections@, q) == conn_at(
                                old(self).connections@,
                                q,
                            ))
                        &&& r.1 == (Wake {
                            read_ready: spec_avail(
                                conn_at(final(self).connections@, quad)@,
                            ).read,
                            accepted: false,
                        })
                    }))
                    &&& (!has_conn(old(self).connections@, quad) && has_port(
                        old(self).pending@,
                        t.dst_port,
                    ) && t.syn ==> ({
                        let cs = crate::tcp::spec_accept_state(m.src, m.dst, t);
                        &&& has_conn(final(self).connections@, quad)
                        &&& conn_at(final(self).connections@, quad)@ == cs
                        &&& (forall|q: Quad|
                            q != quad ==> #[trigger] has_conn(final(self).connections@, q)
                                == has_conn(old(self).connections@, q))
                        &&& (forall|q: Quad|
                            q != quad && #[trigger] has_conn(old(self).connections@, q)
                                ==> conn_at(final(self).connections@, q) == conn_at(
                                old(self).connections@,
                                q,
                            ))
                        &&& queue_of(final(self).pending@, t.dst_port) == queue_of(
                            old(self).pending@,
                            t.dst_port,
                        ).push(quad)
                        &&& (forall|p: u16|
                            p != t.dst_port ==> (#[trigger] has_port(final(self).pending@, p)
                                == has_port(old(self).pending@, p) && (has_port(
                                old(self).pending@,
                                p,
                            ) ==> queue_of(final(self).pending@, p) == queue_of(
                                old(self).pending@,
                                p,
                            ))))
                        &&& r.0@.len() == 1
                        &&& r.0@[0]@ == crate::tcp::state_out_bytes(
                            cs,
                            0,
                            true,
                            false,
                            Seq::<u8>::empty(),
                        )
                        &&& r.1 == (Wake { read_ready: false, accepted: true })
                    }))
                    &&& (!has_conn(old(self).connections@, quad) && !(has_port(
                        old(self).pending@,
                        t.dst_port,
                    ) && t.syn) ==> final(self).connections@ == old(self).connections@ && final(self).pending == old(self).pending && r.0@.len() == 0 && r.1 == (Wake {
                        read_ready: false,
                        accepted: false,
                    }))
                }))
            }),
    {
        let none_wake = Wake { read_ready: false, accepted: false };
        let m = match parse_ipv4(buf) {
            Some(m) => m,
            None => {
                return (Vec::new(), none_wake);
            },
        };
        if m.protocol != 6 {
            return (Vec::new(), none_wake);
        }
        let rest = vstd::slice::slice_subrange(buf, m.header_len, buf.len());
        proof {
            assert(rest@ =~= buf@.skip(m.header_len as int));
        }
        let t = match parse_tcp(rest) {
            Some(t) => t,
            None => {
                return (Vec::new(), none_wake);
            },
        };
        let data = vstd::slice::slice_subrange(rest, t.header_len, rest.len());
        proof {
            assert(data@ =~= buf@.skip(m.header_len + t.header_len));
        }
        let quad = Quad { src_ip: m.src, src_port: t.src_port, dst_ip: m.dst, dst_port: t.dst_port };
        match self.find_conn(quad) {
            Some(i) => {
                let ghost olds = self.connections@;
                proof {
                    lemma_conn_key_unique(olds, quad, i as int);
                }
                let (q, mut c) = self.connections.remove(i);
                let (out, avail) = c.on_packet(&t, data, now);
                self.connections.insert(i, (q, c));
                proof {
                    lemma_conn_replace(olds, self.connections@, i as int);
                }
                (out, Wake { read_ready: avail.read, accepted: false })
            },
            None => {
                match self.find_port(t.dst_port) {
                    Some(pi) => {
                        match Connection::accept(&m, &t, now) {
                            Some((c, dg)) => {
                                let ghost oldc = self.connections@;
                                let ghost oldp = self.pending@;
                                proof {
                                    lemma_port_key_unique(oldp, t.dst_port, pi as int);
                                }
                                self.connections.push((quad, c));
                                let (p, mut queue) = self.pending.remove(pi);
                                queue.push(quad);
                                self.pending.insert(pi, (p, queue));
                                let mut out: Vec<Vec<u8>> = Vec::new();
                                out.push(dg);
                                proof {
                                    let newc = self.connections@;
                                    let n = oldc.len() as int;
                                    assert(newc[n].0 == quad);
                                    lemma_conn_key_unique(newc, quad, n);
                                    assert forall|qq: Quad| qq != quad implies (#[trigger]
                                    has_conn(newc, qq) == has_conn(oldc, qq)) by {
                                        if has_conn(newc, qq) {
                                            let j = choose|j: int|
                                                0 <= j < newc.len() && newc[j].0 == qq;
                                            assert(j != n);
                                            assert(oldc[j].0 == qq);
                                        }
                                        if has_conn(oldc, qq) {
                                            let j = choose|j: int|
                                                0 <= j < oldc.len() && oldc[j].0 == qq;
                                            assert(newc[j].0 == qq);
                                        }
                                    }
                                    assert forall|qq: Quad|
                                        qq != quad && #[trigger] has_conn(oldc, qq) implies conn_at(
                                        newc,
                                        qq,
                                    ) == conn_at(oldc, qq) by {
                                        let j = choose|j: int|
                                            0 <= j < oldc.len() && oldc[j].0 == qq;
                                        assert(newc[j].0 == qq);
                                        lemma_conn_key_unique(newc, qq, j);
                                        lemma_conn_key_unique(oldc, qq, j);
                                    }
                                    let newp = self.pending@;
                                    assert(newp[pi as int].0 == t.dst_port);
                                    assert(newp[pi as int].1@ =~= oldp[pi as int].1@.push(quad));
                                    assert forall|j: int|
                                        0 <= j < newp.len() && j != pi implies newp[j] == oldp[j]
                                    by {
                                        assert(newp =~= oldp.update(pi as int, newp[pi as int]));
                                    }
                                    lemma_port_key_unique(newp, t.dst_port, pi as int);
                                    assert forall|pp: u16| pp != t.dst_port implies (#[trigger]
                                    has_port(newp, pp) == has_port(oldp, pp) && (has_port(
                                        oldp,
                                        pp,
                                    ) ==> queue_of(newp, pp) == queue_of(oldp, pp))) by {
                                        if has_port(newp, pp) {
                                            let j = choose|j: int|
                                                0 <= j < newp.len() && newp[j].0 == pp;
                                            assert(oldp[j].0 == pp);
                                        }
                                        if has_port(oldp, pp) {
                                            let j = choose|j: int|
                                                0 <= j < oldp.len() && oldp[j].0 == pp;
                                            assert(newp[j].0 == pp);
                                            lemma_port_key_unique(newp, pp, j);
                                            lemma_port_key_unique(oldp, pp, j);
                                        }
                                    }
                                    assert(out@.map_values(|d: Vec<u8>| d@) =~= seq![out@[0]@]);
                                }
                                (out, Wake { read_ready: false, accepted: true })
                            },
                            None => (Vec::new(), none_wake),
                        }
                    },
                    None => (Vec::new(), none_wake),
                }
            },
        }
    }
}

/// Replacing the connection at one index, key kept, leaves every other
/// key's connection as it was.
proof fn lemma_conn_replace(olds: Seq<(Quad, Connection)>, news: Seq<(Quad, Connection)>, i: int)
    requires
        forall|a: int, b: int|
            #![trigger olds[a], olds[b]]
            0 <= a < b < olds.len() ==> olds[a].0 != olds[b].0,
        0 <= i < olds.len(),
        news.len() == olds.len(),
        news[i].0 == olds[i].0,
        forall|j: int| 0 <= j < news.len() && j != i ==> news[j] == olds[j],
    ensures
        forall|a: int, b: int|
            #![trigger news[a], news[b]]
            0 <= a < b < news.len() ==> news[a].0 != news[b].0,
        forall|q: Quad| #[trigger] has_conn(news, q) == has_conn(olds, q),
        forall|q: Quad|
            q != olds[i].0 && #[trigger] has_conn(olds, q) ==> conn_at(news, q) == conn_at(
                olds,
                q,
            ),
        conn_at(news, olds[i].0) == news[i].1,
{
    assert forall|a: int, b: int|
        #![trigger news[a], news[b]]
        0 <= a < b < news.len() implies news[a].0 != news[b].0 by {
        assert(olds[a].0 != olds[b].0);
    }
    assert forall|q: Quad| #[trigger] has_conn(news, q) == has_conn(olds, q) by {
        if has_conn(news, q) {
            let j = choose|j: int| 0 <= j < news.len() && news[j].0 == q;
            assert(olds[j].0 == q);
        }
        if has_conn(olds, q) {
            let j = choose|j: int| 0 <= j < olds.len() && olds[j].0 == q;
            assert(news[j].0 == q);
        }
    }
    assert forall|q: Quad| q != olds[i].0 && #[trigger] has_conn(olds, q) implies conn_at(news, q)
        == conn_at(olds, q) by {
        let j = choose|j: int| 0 <= j < olds.len() && olds[j].0 == q;
        assert(news[j].0 == q);
        lemma_conn_key_unique(news, q, j);
        lemma_conn_key_unique(olds, q, j);
    }
    lemma_conn_key_unique(news, olds[i].0, i);
}

/// Under unique keys, a port occurs at one index only.
proof fn lemma_port_key_unique(s: Seq<(u16, Vec<Quad>)>, p: u16, i: int)
    requires
        forall|a: int, b: int|
            #![trigger s[a], s[b]]
            0 <= a < b < s.len() ==> s[a].0 != s[b].0,
        0 <= i < s.len(),
        s[i].0 == p,
    ensures
        forall|j: int| 0 <= j < s.len() && s[j].0 == p ==> j == i,
        queue_of(s, p) == s[i].1@,
        has_port(s, p),
{
    assert forall|j: int| 0 <= j < s.len() && s[j].0 == p implies j == i by {
        if j < i {
            assert(s[j].0 != s[i].0);
        }
        if j > i {
            assert(s[i].0 != s[j].0);
        }
    }
}

/// Under unique keys, a four-tuple occurs at one index only.
proof fn lemma_conn_key_unique(s: Seq<(Quad, Connection)>, q: Quad, i: int)
    requires
        forall|a: int, b: int|
            #![trigger s[a], s[b]]
            0 <= a < b < s.len() ==> s[a].0 != s[b].0,
        0 <= i < s.len(),
        s[i].0 == q,
    ensures
        forall|j: int| 0 <= j < s.len() && s[j].0 == q ==> j == i,
        conn_at(s, q) == s[i].1,
        has_conn(s, q),
{
    assert forall|j: int| 0 <= j < s.len() && s[j].0 == q implies j == i by {
        if j < i {
            assert(s[j].0 != s[i].0);
        }
        if j > i {
            assert(s[i].0 != s[j].0);
        }
    }
}

} // verus!
