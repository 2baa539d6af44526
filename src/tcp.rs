use vstd::prelude::*;
use crate::segment::{Segment, Outgoing, MSS, ACK, SYN, FIN};
use crate::seqnum::seq_le;
use crate::socket::{lemma_flag_bits, Socket, SockID, TcpStatus, TCPEvent, TCPEventKind, SendParam, RecvParam, segment_from, SOCKET_BUFFER_SIZE};
use crate::segment::has_flag;
use crate::handlers::{synsent_step, established_step, finwait_step, close_step};
use crate::random::random_in_range;
use crate::retransmit::{dropped_count, scanned, timer_event, resends, resend_count, kept_head, lemma_resend_count_monotone};
use crate::codec::{decode, well_formed, checksum_ok, read16, read32, data_offset};

verus! {

/// Local ports that active opens draw from: `PORT_RANGE_START..PORT_RANGE_END`.
pub const PORT_RANGE_START: u16 = 40000;
pub const PORT_RANGE_END: u16 = 60000;
/// Initial sequence numbers are drawn from `1..ISS_RANGE_END`.
pub const ISS_RANGE_END: u32 = 0x8000_0000;

#[derive(Clone, Copy, Debug, PartialEq, Eq, Structural)]
pub enum TcpError {
    NoSuchSocket,
    NotListening,
    NoAvailablePort,
    AcceptEmptyQueue,
}

/// What `close` leaves to the caller.
#[derive(Clone, Copy, Debug, PartialEq, Eq, Structural)]
pub enum CloseOutcome {
    /// Nothing more to do.
    Done,
    /// Wait for `ConnectionClosed` on the socket, then `remove` it.
    AwaitClosed,
}

/// The connection engine: the socket table, the single event slot, and the
/// segments waiting to be put on the wire.
pub struct TCP {
    pub sockets: Vec<Socket>,
    pub event: Option<TCPEvent>,
    pub outbox: Vec<Outgoing>,
}

/// No two sockets in `s` share an identity.
pub open spec fn ids_unique(s: Seq<Socket>) -> bool {
    forall|i: int, j: int| 0 <= i < s.len() && 0 <= j < s.len() && i != j ==> #[trigger] s[i].id() != #[trigger] s[j].id()
}

/// No socket has a local port in the ephemeral range, so any draw is free.
pub open spec fn range_unused(s: Seq<Socket>) -> bool {
    forall|i: int| 0 <= i < s.len() ==> !(PORT_RANGE_START <= #[trigger] s[i].local_port < PORT_RANGE_END)
}

/// `t1`'s table is `t0`'s with `s` registered under its identity: replacing
/// the socket that had it, or added at the end.
pub open spec fn inserted(t0: TCP, t1: TCP, s: Socket) -> bool {
    if t0.has(s.id()) {
        t1.sockets@ == t0.sockets@.update(t0.index_of(s.id()), s)
    } else {
        t1.sockets@ == t0.sockets@.push(s)
    }
}

/// Bytes one `send` puts in a segment: at most MSS, the window and what is left.
pub open spec fn send_size(window: u16, len: int) -> int {
    let a = if (MSS as int) < window { MSS as int } else { window as int };
    if len < a { len } else { a }
}

/// States in which the peer has sent FIN, so an empty buffer means end of stream.
pub open spec fn peer_closed(st: TcpStatus) -> bool {
    st == TcpStatus::CloseWait || st == TcpStatus::LastAck || st == TcpStatus::TimeWait
}


/// The effect of the LISTEN handler of `lid` on the engine: a SYN without
/// ACK for a connection not yet registered forks a child; all else is ignored.
pub open spec fn listen_step(t0: TCP, t1: TCP, lid: SockID, remote_addr: u32, seg: Segment, iss: u32) -> bool {
    let ls = t0.sock(lid);
    let cid = SockID(ls.local_addr, remote_addr, ls.local_port, seg.src_port);
    let c = t1.sock(cid);
    let forks = !has_flag(seg.flags, ACK) && has_flag(seg.flags, SYN) && !t0.has(cid);
    &&& t1.event == t0.event
    &&& !forks ==> {
        &&& t1.sockets@ == t0.sockets@
        &&& t1.outbox@ == t0.outbox@
    }
    &&& forks ==> {
        &&& t1.has(cid)
        &&& t1.sockets@ == t0.sockets@.push(c)
        &&& forall|x: SockID| x != cid ==> (t1.has(x) == t0.has(x))
        &&& c.status == TcpStatus::SynRcvd
        &&& c.recv_param == (RecvParam {
            next: seg.seq.wrapping_add(1),
            window: SOCKET_BUFFER_SIZE as u16,
            initial_seq: seg.seq,
            tail: seg.seq.wrapping_add(1),
        })
        &&& c.send_param == (SendParam { unacked_seq: iss, next: iss.wrapping_add(1), window: seg.window, initial_seq: iss })
        &&& c.listening_socket == Some(lid)
        &&& c.retransmission_queue@.len() == 1
        &&& t1.outbox@.len() == t0.outbox@.len() + 1
        &&& t1.outbox@.subrange(0, t0.outbox@.len() as int) == t0.outbox@
        &&& segment_from(t1.outbox@.last(), c, iss, seg.seq.wrapping_add(1), SYN | ACK, seq![])
    }
}

/// The effect of the SYN-RCVD handler of `id` on the engine.
pub open spec fn synrcvd_step(t0: TCP, t1: TCP, id: SockID, seg: Segment) -> bool {
    let s0 = t0.sock(id);
    let c1 = t1.sock(id);
    let ok = has_flag(seg.flags, ACK) && seq_le(s0.send_param.unacked_seq, seg.ack) && seq_le(seg.ack, s0.send_param.next);
    let p = s0.listening_socket.unwrap();
    let told = s0.listening_socket.is_some() && p != id && t0.has(p);
    let t_mid = t0.sockets@.update(t0.index_of(id), c1);
    &&& t1.outbox@ == t0.outbox@
    &&& !ok ==> t1.sockets@ == t0.sockets@ && t1.event == t0.event
    &&& ok ==> {
        &&& c1.same_identity(&s0)
        &&& c1.recv_param == (RecvParam { next: seg.seq, tail: seg.seq, ..s0.recv_param })
        &&& c1.send_param == (SendParam { unacked_seq: seg.ack, ..s0.send_param })
        &&& c1.status == TcpStatus::Established
        &&& c1.recv_buffer@ == s0.recv_buffer@
        &&& c1.retransmission_queue@ == s0.retransmission_queue@
        &&& told ==> {
            &&& t1.sockets@ == t_mid.update(t0.index_of(p), t1.sock(p))
            &&& t1.sock(p).connection_established_queue@ == t0.sock(p).connection_established_queue@.push(id)
            &&& t1.sock(p).status == t0.sock(p).status
            &&& t1.sock(p).send_param == t0.sock(p).send_param
            &&& t1.event == Some(TCPEvent { sock_id: p, kind: TCPEventKind::ConnectionCompleted })
        }
        &&& !told ==> t1.sockets@ == t_mid && t1.event == t0.event
    }
}

/// The socket a segment from `remote_addr` to `local_addr` is handed to.
pub open spec fn arrival_target(t: TCP, local_addr: u32, remote_addr: u32, seg: Segment) -> SockID {
    let exact = SockID(local_addr, remote_addr, seg.dst_port, seg.src_port);
    if t.has(exact) { exact } else { SockID(local_addr, 0, seg.dst_port, 0) }
}

/// The effect of a received segment on the engine.
pub open spec fn arrival_step(t0: TCP, t1: TCP, local_addr: u32, remote_addr: u32, seg: Segment, iss: u32) -> bool {
    let id = arrival_target(t0, local_addr, remote_addr, seg);
    let s0 = t0.sock(id);
    let s1 = t1.sock(id);
    let single = t1.sockets@ == t0.sockets@.update(t0.index_of(id), s1);
    let (o0, o1, e0, e1) = (t0.outbox@, t1.outbox@, t0.event, t1.event);
    if !t0.has(id) {
        t1.sockets@ == t0.sockets@ && o1 == o0 && e1 == e0
    } else {
        match s0.status {
            TcpStatus::Listen => listen_step(t0, t1, id, remote_addr, seg, iss),
            TcpStatus::SynRcvd => synrcvd_step(t0, t1, id, seg),
            TcpStatus::SynSent => single && synsent_step(s0, s1, seg, o0, o1, e0, e1),
            TcpStatus::Established => single && established_step(s0, s1, seg, o0, o1, e0, e1),
            TcpStatus::FinWait1 | TcpStatus::FinWait2 => single && finwait_step(s0, s1, seg, o0, o1, e0, e1),
            TcpStatus::CloseWait | TcpStatus::LastAck => single && close_step(s0, s1, seg) && o1 == o0 && e1 == e0,
            TcpStatus::TimeWait => t1.sockets@ == t0.sockets@ && o1 == o0 && e1 == e0,
        }
    }
}

impl TCP {
    pub open spec fn wf(&self) -> bool {
        &&& ids_unique(self.sockets@)
        &&& forall|i: int| 0 <= i < self.sockets@.len() ==> #[trigger] self.sockets@[i].wf()
    }

    pub open spec fn has(&self, id: SockID) -> bool {
        exists|i: int| 0 <= i < self.sockets@.len() && #[trigger] self.sockets@[i].id() == id
    }

    pub open spec fn index_of(&self, id: SockID) -> int {
        choose|i: int| 0 <= i < self.sockets@.len() && #[trigger] self.sockets@[i].id() == id
    }

    /// The socket registered under `id`.
    pub open spec fn sock(&self, id: SockID) -> Socket {
        self.sockets@[self.index_of(id)]
    }

    pub fn new() -> (r: TCP)
        ensures
            r.wf(),
            r.sockets@.len() == 0,
            r.event.is_none(),
            r.outbox@.len() == 0,
    {
        TCP { sockets: Vec::new(), event: None, outbox: Vec::new() }
    }

    pub fn find(&self, id: SockID) -> (r: Option<usize>)
        requires
            self.wf(),
        ensures
            r.is_none() == !self.has(id),
            r.is_some() ==> r.unwrap() == self.index_of(id) && r.unwrap() < self.sockets@.len(),
    {
        let mut i: usize = 0;
        while i < self.sockets.len()
            invariant
                self.wf(),
                i <= self.sockets@.len(),
                forall|j: int| 0 <= j < i ==> #[trigger] self.sockets@[j].id() != id,
            decreases self.sockets@.len() - i,
        {
            if self.sockets[i].get_sock_id() == id {
                proof {
                    assert(self.sockets@[i as int].id() == id);
                    let k = self.index_of(id);
                    assert(self.sockets@[k].id() == id);
                    if k != i {
                        assert(self.sockets@[k].id() != self.sockets@[i as int].id());
                    }
                }
                return Some(i);
            }
            i = i + 1;
        }
        None
    }

    /// Registers `s`, replacing the socket with the same identity if any.
    fn insert(&mut self, s: Socket)
        requires
            old(self).wf(),
            s.wf(),
        ensures
            final(self).wf(),
            old(self).has(s.id()) ==> final(self).sockets@ == old(self).sockets@.update(old(self).index_of(s.id()), s),
            !old(self).has(s.id()) ==> final(self).sockets@ == old(self).sockets@.push(s),
            final(self).event == old(self).event,
            final(self).outbox@ == old(self).outbox@,
    {
        match self.find(s.get_sock_id()) {
            Some(i) => {
                self.sockets.set(i, s);
            },
            None => {
                self.sockets.push(s);
            },
        }
    }

    /// Removes the socket registered under `id`; tells whether there was one.
    pub fn remove(&mut self, id: SockID) -> (r: bool)
        requires
            old(self).wf(),
        ensures
            final(self).wf(),
            r == old(self).has(id),
            r ==> final(self).sockets@ == old(self).sockets@.remove(old(self).index_of(id)),
            !r ==> final(self).sockets@ == old(self).sockets@,
            !final(self).has(id),
            final(self).event == old(self).event,
            final(self).outbox@ == old(self).outbox@,
    {
        match self.find(id) {
            Some(i) => {
                let ghost s0 = self.sockets@;
                self.sockets.remove(i);
                assert forall|j: int| 0 <= j < self.sockets@.len() implies #[trigger] self.sockets@[j].id() != id by {
                    if j < i {
                        assert(self.sockets@[j] == s0[j]);
                    } else {
                        assert(self.sockets@[j] == s0[j + 1]);
                    }
                }
                true
            },
            None => false,
        }
    }

    /// Puts an event in the slot, replacing what was there.
    pub fn publish_event(&mut self, sock_id: SockID, kind: TCPEventKind)
        ensures
            final(self).event == Some(TCPEvent { sock_id, kind }),
            final(self).sockets@ == old(self).sockets@,
            final(self).outbox@ == old(self).outbox@,
    {
        self.event = Some(TCPEvent::new(sock_id, kind));
    }

    /// Consumes the event in the slot if it is `kind` for `sock_id`; a waiter
    /// calls this until it returns true.
    pub fn take_event(&mut self, sock_id: SockID, kind: TCPEventKind) -> (r: bool)
        ensures
            r == (old(self).event == Some(TCPEvent { sock_id, kind })),
            final(self).event == if r { None } else { old(self).event },
            final(self).sockets@ == old(self).sockets@,
            final(self).outbox@ == old(self).outbox@,
    {
        match self.event {
            Some(e) => {
                if e.sock_id == sock_id && e.kind == kind {
                    self.event = None;
                    true
                } else {
                    false
                }
            },
            None => false,
        }
    }

    /// Hands over the segments waiting to be sent, oldest first.
    pub fn take_outgoing(&mut self) -> (r: Vec<Outgoing>)
        ensures
            r@ == old(self).outbox@,
            final(self).outbox@.len() == 0,
            final(self).sockets@ == old(self).sockets@,
            final(self).event == old(self).event,
    {
        let mut r: Vec<Outgoing> = Vec::new();
        std::mem::swap(&mut r, &mut self.outbox);
        r
    }

    /// Opens a listening socket on `local_addr:local_port` with the wildcard
    /// remote endpoint.
    pub fn listen(&mut self, local_addr: u32, local_port: u16) -> (r: SockID)
        requires
            old(self).wf(),
        ensures
            final(self).wf(),
            r == SockID(local_addr, 0, local_port, 0),
            final(self).has(r),
            final(self).sock(r).status == TcpStatus::Listen,
            final(self).sock(r).send_param.unacked_seq == 0,
            final(self).sock(r).send_param.next == 0,
            final(self).sock(r).connection_established_queue@.len() == 0,
            final(self).sock(r).retransmission_queue@.len() == 0,
            inserted(*old(self), *final(self), final(self).sock(r)),
            forall|id: SockID| id != r ==> (final(self).has(id) == old(self).has(id)),
            final(self).event == old(self).event,
            final(self).outbox@ == old(self).outbox@,
    {
        let s = Socket::new(local_addr, 0, local_port, 0, TcpStatus::Listen);
        let id = s.get_sock_id();
        self.insert(s);
        proof { self.lemma_inserted(*old(self), id); }
        id
    }

    proof fn lemma_inserted(&self, prev: TCP, id: SockID)
        requires
            self.wf(),
            prev.has(id) ==> self.sockets@ == prev.sockets@.update(prev.index_of(id), self.sockets@[prev.index_of(id)]),
            !prev.has(id) ==> self.sockets@ == prev.sockets@.push(self.sockets@.last()),
            self.sockets@.len() > 0,
            prev.has(id) ==> self.sockets@[prev.index_of(id)].id() == id,
            !prev.has(id) ==> self.sockets@.last().id() == id,
        ensures
            self.has(id),
            prev.has(id) ==> self.index_of(id) == prev.index_of(id),
            !prev.has(id) ==> self.index_of(id) == self.sockets@.len() - 1,
            forall|x: SockID| x != id ==> (self.has(x) == prev.has(x)),
    {
        let k = if prev.has(id) { prev.index_of(id) } else { self.sockets@.len() - 1 };
        assert(self.sockets@[k].id() == id);
        assert forall|x: SockID| x != id implies (self.has(x) == prev.has(x)) by {
            if self.has(x) {
                let j = self.index_of(x);
                assert(prev.sockets@[j].id() == x);
            }
            if prev.has(x) {
                let j = prev.index_of(x);
                assert(self.sockets@[j].id() == x);
            }
        }
    }

    proof fn lemma_replace(prev: TCP, cur: TCP, id: SockID, s: Socket)
        requires
            prev.wf(),
            prev.has(id),
            s.id() == id,
            s.wf(),
            cur.sockets@ == prev.sockets@.update(prev.index_of(id), s),
        ensures
            cur.wf(),
            cur.has(id),
            cur.index_of(id) == prev.index_of(id),
            cur.sock(id) == s,
            forall|x: SockID| #[trigger] cur.has(x) == prev.has(x),
            forall|x: SockID| x != id && prev.has(x) ==> cur.index_of(x) == prev.index_of(x) && #[trigger] cur.sock(x) == prev.sock(x),
    {
        let k = prev.index_of(id);
        assert(cur.sockets@[k].id() == id);
        let k2 = cur.index_of(id);
        if k2 != k {
            assert(cur.sockets@[k2].id() != cur.sockets@[k].id());
        }
        assert forall|x: SockID| #[trigger] cur.has(x) == prev.has(x) by {
            if cur.has(x) {
                let j = cur.index_of(x);
                if j != k {
                    assert(prev.sockets@[j].id() == x);
                }
            }
            if prev.has(x) {
                let j = prev.index_of(x);
                if j != k {
                    assert(cur.sockets@[j].id() == x);
                }
            }
        }
        assert forall|x: SockID| x != id && prev.has(x) implies cur.index_of(x) == prev.index_of(x) && #[trigger] cur.sock(x) == prev.sock(x) by {
            let j = prev.index_of(x);
            assert(prev.sockets@[j].id() == x);
            assert(j != k);
            assert(cur.sockets@[j].id() == x);
            let j2 = cur.index_of(x);
            if j2 != j {
                assert(cur.sockets@[j2].id() != cur.sockets@[j].id());
            }
        }
    }

    /// Takes the next established connection from the queue of the listening
    /// socket `sock_id`; fails for a socket that is not listening. The caller first waits for `ConnectionCompleted` on it.
    pub fn accept(&mut self, sock_id: SockID) -> (r: Result<SockID, TcpError>)
        requires
            old(self).wf(),
        ensures
            final(self).wf(),
            final(self).event == old(self).event,
            final(self).outbox@ == old(self).outbox@,
            !old(self).has(sock_id) ==> r == Err::<SockID, TcpError>(TcpError::NoSuchSocket)
                && final(self).sockets@ == old(self).sockets@,
            old(self).has(sock_id) && old(self).sock(sock_id).status != TcpStatus::Listen
                ==> r == Err::<SockID, TcpError>(TcpError::NotListening) && final(self).sockets@ == old(self).sockets@,
            old(self).has(sock_id) && old(self).sock(sock_id).status == TcpStatus::Listen
                && old(self).sock(sock_id).connection_established_queue@.len() == 0
                ==> r == Err::<SockID, TcpError>(TcpError::AcceptEmptyQueue) && final(self).sockets@ == old(self).sockets@,
            ({
                let s0 = old(self).sock(sock_id);
                let q = s0.connection_established_queue@;
                old(self).has(sock_id) && s0.status == TcpStatus::Listen && q.len() > 0 ==> {
                    &&& r == Ok::<SockID, TcpError>(q[0])
                    &&& final(self).sockets@ == old(self).sockets@.update(old(self).index_of(sock_id), final(self).sock(sock_id))
                    &&& final(self).sock(sock_id).connection_established_queue@ == q.drop_first()
                    &&& final(self).sock(sock_id).send_param == s0.send_param
                    &&& final(self).sock(sock_id).recv_param == s0.recv_param
                    &&& final(self).sock(sock_id).status == s0.status
                }
            }),
    {
        let i = match self.find(sock_id) {
            Some(i) => i,
            None => return Err(TcpError::NoSuchSocket),
        };
        if self.sockets[i].status != TcpStatus::Listen {
            return Err(TcpError::NotListening);
        }
        if self.sockets[i].connection_established_queue.len() == 0 {
            return Err(TcpError::AcceptEmptyQueue);
        }
        let ghost prev = *self;
        let mut s = self.sockets.remove(i);
        let head = match s.connection_established_queue.pop_front() {
            Some(h) => h,
            None => {
                return Err(TcpError::AcceptEmptyQueue);
            },
        };
        let ghost sg = s;
        self.sockets.insert(i, s);
        proof {
            assert(prev.sockets@[i as int].wf());
            assert(self.sockets@ =~= prev.sockets@.update(i as int, sg));
            Self::lemma_replace(prev, *self, sock_id, sg);
        }
        Ok(head)
    }

    /// Draws local ports from the ephemeral range until one is not used by
    /// any socket, giving up after as many draws as the range holds.
    pub fn select_unused_port(&self) -> (r: Result<u16, TcpError>)
        ensures
            r matches Ok(p) ==> PORT_RANGE_START <= p < PORT_RANGE_END
                && forall|i: int| 0 <= i < self.sockets@.len() ==> #[trigger] self.sockets@[i].local_port != p,
            r matches Err(e) ==> e == TcpError::NoAvailablePort,
            range_unused(self.sockets@) ==> r is Ok,
    {
        let mut tries: u16 = 0;
        while tries < PORT_RANGE_END - PORT_RANGE_START
            invariant
                range_unused(self.sockets@) ==> tries == 0,
            decreases PORT_RANGE_END - PORT_RANGE_START - tries,
        {
            let port = random_in_range(PORT_RANGE_START as u32, PORT_RANGE_END as u32) as u16;
            let mut free = true;
            let mut i: usize = 0;
            while i < self.sockets.len()
                invariant
                    i <= self.sockets@.len(),
                    free == forall|j: int| 0 <= j < i ==> #[trigger] self.sockets@[j].local_port != port,
                decreases self.sockets@.len() - i,
            {
                if self.sockets[i].local_port == port {
                    free = false;
                }
                i = i + 1;
            }
            if free {
                return Ok(port);
            }
            proof {
                if range_unused(self.sockets@) {
                    assert(forall|j: int| 0 <= j < self.sockets@.len() ==> #[trigger] self.sockets@[j].local_port != port);
                }
            }
            tries = tries + 1;
        }
        Err(TcpError::NoAvailablePort)
    }

    /// Active open from `local_addr:local_port` to `remote_addr:remote_port`
    /// with initial sequence number `iss`: sends SYN and registers the socket
    /// in SYN-SENT. The caller then waits for `ConnectionCompleted` on it.
    pub fn connect_with(&mut self, local_addr: u32, remote_addr: u32, remote_port: u16, local_port: u16, iss: u32, now: u64) -> (r: SockID)
        requires
            old(self).wf(),
        ensures
            final(self).wf(),
            r == SockID(local_addr, remote_addr, local_port, remote_port),
            final(self).has(r),
            final(self).sock(r).status == TcpStatus::SynSent,
            final(self).sock(r).send_param == (SendParam {
                unacked_seq: iss,
                next: iss.wrapping_add(1),
                window: crate::socket::SOCKET_BUFFER_SIZE as u16,
                initial_seq: iss,
            }),
            final(self).sock(r).retransmission_queue@.len() == 1,
            inserted(*old(self), *final(self), final(self).sock(r)),
            final(self).outbox@.len() == old(self).outbox@.len() + 1,
            final(self).outbox@.subrange(0, old(self).outbox@.len() as int) == old(self).outbox@,
            segment_from(final(self).outbox@.last(), final(self).sock(r), iss, 0, SYN, seq![]),
            forall|id: SockID| id != r ==> (final(self).has(id) == old(self).has(id)),
            final(self).event == old(self).event,
    {
        proof {
            lemma_flag_bits();
        }
        let mut s = Socket::new(local_addr, remote_addr, local_port, remote_port, TcpStatus::SynSent);
        s.send_param.initial_seq = iss;
        let empty: Vec<u8> = Vec::new();
        s.send_tcp_packet(&mut self.outbox, iss, 0, SYN, empty.as_slice(), now);
        s.send_param.unacked_seq = iss;
        s.send_param.next = iss.wrapping_add(1);
        let id = s.get_sock_id();
        let ghost sg = s;
        self.insert(s);
        proof {
            self.lemma_inserted(*old(self), id);
            if old(self).has(id) {
                assert(self.sockets@[old(self).index_of(id)] == sg);
            }
        }
        id
    }

    /// Active open to `remote_addr:remote_port` from `local_addr` (the
    /// address the route to the peer uses): a free ephemeral port and a
    /// random initial sequence number are drawn, then as `connect_with`.
    pub fn connect(&mut self, local_addr: u32, remote_addr: u32, remote_port: u16, now: u64) -> (r: Result<SockID, TcpError>)
        requires
            old(self).wf(),
        ensures
            final(self).wf(),
            r matches Ok(id) ==> {
                &&& id.0 == local_addr && id.1 == remote_addr && id.3 == remote_port
                &&& PORT_RANGE_START <= id.2 < PORT_RANGE_END
                &&& forall|i: int| 0 <= i < old(self).sockets@.len() ==> #[trigger] old(self).sockets@[i].local_port != id.2
                &&& final(self).has(id)
                &&& final(self).sock(id).status == TcpStatus::SynSent
                &&& 1 <= final(self).sock(id).send_param.initial_seq < ISS_RANGE_END
                &&& final(self).outbox@.len() == old(self).outbox@.len() + 1
                &&& segment_from(final(self).outbox@.last(), final(self).sock(id),
                    final(self).sock(id).send_param.initial_seq, 0, SYN, seq![])
            },
            r matches Err(e) ==> e == TcpError::NoAvailablePort && final(self).sockets@ == old(self).sockets@
                && final(self).outbox@ == old(self).outbox@,
            range_unused(old(self).sockets@) ==> r is Ok,
            r matches Ok(id) ==> !old(self).has(id) && final(self).sockets@ == old(self).sockets@.push(final(self).sock(id)),
            final(self).event == old(self).event,
    {
        let local_port = match self.select_unused_port() {
            Ok(p) => p,
            Err(e) => return Err(e),
        };
        let iss = random_in_range(1, ISS_RANGE_END);
        let id = self.connect_with(local_addr, remote_addr, remote_port, local_port, iss, now);
        proof {
            if old(self).has(id) {
                let k = old(self).index_of(id);
                assert(old(self).sockets@[k].local_port == local_port);
            }
        }
        Ok(id)
    }

    /// Sends one segment of the next `min(MSS, window, buffer.len())` bytes of
    /// `buffer` on `sock_id` and returns how many; 0 means the window is shut,
    /// and the caller waits for `Acked` before trying again.
    pub fn send(&mut self, sock_id: SockID, buffer: &[u8], now: u64) -> (r: Result<usize, TcpError>)
        requires
            old(self).wf(),
        ensures
            final(self).wf(),
            final(self).event == old(self).event,
            !old(self).has(sock_id) ==> r == Err::<usize, TcpError>(TcpError::NoSuchSocket)
                && final(self).sockets@ == old(self).sockets@ && final(self).outbox@ == old(self).outbox@,
            ({
                let s0 = old(self).sock(sock_id);
                let n = send_size(s0.send_param.window, buffer@.len() as int);
                let s1 = final(self).sock(sock_id);
                old(self).has(sock_id) ==> {
                    &&& r == Ok::<usize, TcpError>(n as usize)
                    &&& final(self).sockets@ == old(self).sockets@.update(old(self).index_of(sock_id), s1)
                    &&& s1.same_identity(&s0)
                    &&& s1.send_param == (SendParam {
                        next: s0.send_param.next.wrapping_add(n as u32),
                        window: (s0.send_param.window - n) as u16,
                        ..s0.send_param
                    })
                    &&& s1.recv_param == s0.recv_param
                    &&& s1.status == s0.status
                    &&& s1.recv_buffer@ == s0.recv_buffer@
                    &&& n == 0 ==> final(self).outbox@ == old(self).outbox@
                        && s1.retransmission_queue@ == s0.retransmission_queue@
                    &&& n > 0 ==> {
                        &&& final(self).outbox@.len() == old(self).outbox@.len() + 1
                        &&& final(self).outbox@.subrange(0, old(self).outbox@.len() as int) == old(self).outbox@
                        &&& segment_from(final(self).outbox@.last(), s0, s0.send_param.next,
                            s0.recv_param.next, ACK, buffer@.subrange(0, n))
                        &&& s1.retransmission_queue@.len() == s0.retransmission_queue@.len() + 1
                    }
                }
            }),
    {
        let i = match self.find(sock_id) {
            Some(i) => i,
            None => return Err(TcpError::NoSuchSocket),
        };
        let ghost prev = *self;
        proof { assert(prev.sockets@[i as int].wf()); }
        let mut s = self.sockets.remove(i);
        let window = s.send_param.window as usize;
        let mut n: usize = if MSS < window { MSS } else { window };
        if buffer.len() < n {
            n = buffer.len();
        }
        if n > 0 {
            let mut chunk: Vec<u8> = Vec::new();
            let mut j: usize = 0;
            while j < n
                invariant
                    n <= buffer@.len(),
                    j <= n,
                    chunk@ == buffer@.subrange(0, j as int),
                decreases n - j,
            {
                chunk.push(buffer[j]);
                j = j + 1;
            }
            s.send_tcp_packet(&mut self.outbox, s.send_param.next, s.recv_param.next, ACK, chunk.as_slice(), now);
            s.send_param.next = s.send_param.next.wrapping_add(n as u32);
            s.send_param.window = s.send_param.window - n as u16;
        }
        let ghost sg = s;
        self.sockets.insert(i, s);
        proof {
            assert(self.sockets@ =~= prev.sockets@.update(i as int, sg));
            Self::lemma_replace(prev, *self, sock_id, sg);
        }
        Ok(n)
    }

    /// Takes up to `max` received bytes from `sock_id`. `Ok(None)` means
    /// nothing has arrived yet: the caller waits for `DataArrived` and tries
    /// again. An empty result means the peer has closed its side.
    pub fn recv(&mut self, sock_id: SockID, max: usize) -> (r: Result<Option<Vec<u8>>, TcpError>)
        requires
            old(self).wf(),
        ensures
            final(self).wf(),
            final(self).event == old(self).event,
            final(self).outbox@ == old(self).outbox@,
            !old(self).has(sock_id) ==> r.is_err() && r.unwrap_err() == TcpError::NoSuchSocket
                && final(self).sockets@ == old(self).sockets@,
            ({
                let s0 = old(self).sock(sock_id);
                let s1 = final(self).sock(sock_id);
                let n = if max < s0.available() { max as int } else { s0.available() };
                let b = s0.recv_buffer@;
                &&& old(self).has(sock_id) && s0.available() == 0 ==> {
                    &&& final(self).sockets@ == old(self).sockets@
                    &&& r.is_ok()
                    &&& if peer_closed(s0.status) {
                        r.unwrap() matches Some(v) && v@.len() == 0
                    } else {
                        r.unwrap().is_none()
                    }
                }
                &&& old(self).has(sock_id) && s0.available() > 0 ==> {
                    &&& r.is_ok()
                    &&& r.unwrap() matches Some(v) && v@ == b.subrange(0, n)
                    &&& final(self).sockets@ == old(self).sockets@.update(old(self).index_of(sock_id), s1)
                    &&& s1.recv_buffer@ == b.subrange(n, b.len() as int) + b.subrange(b.len() - n, b.len() as int)
                    &&& s1.recv_param == (RecvParam { window: (s0.recv_param.window + n) as u16, ..s0.recv_param })
                    &&& s1.same_identity(&s0)
                    &&& s1.send_param == s0.send_param
                    &&& s1.status == s0.status
                    &&& s1.retransmission_queue@ == s0.retransmission_queue@
                }
            }),
    {
        let i = match self.find(sock_id) {
            Some(i) => i,
            None => return Err(TcpError::NoSuchSocket),
        };
        let ghost prev = *self;
        proof { assert(prev.sockets@[i as int].wf()); }
        if self.sockets[i].recv_buffer.len() == self.sockets[i].recv_param.window as usize {
            let st = self.sockets[i].status;
            if st == TcpStatus::CloseWait || st == TcpStatus::LastAck || st == TcpStatus::TimeWait {
                return Ok(Some(Vec::new()));
            }
            return Ok(None);
        }
        let mut s = self.sockets.remove(i);
        let data = s.read_buffer(max);
        let ghost sg = s;
        self.sockets.insert(i, s);
        proof {
            assert(self.sockets@ =~= prev.sockets@.update(i as int, sg));
            Self::lemma_replace(prev, *self, sock_id, sg);
        }
        Ok(Some(data))
    }

    /// Sends FIN|ACK on `sock_id`. An established connection moves to
    /// FIN-WAIT-1 and one the peer has closed to LAST-ACK; in both the caller
    /// then waits for `ConnectionClosed` and removes the socket. A listening
    /// socket is removed at once.
    pub fn close(&mut self, sock_id: SockID, now: u64) -> (r: Result<CloseOutcome, TcpError>)
        requires
            old(self).wf(),
        ensures
            final(self).wf(),
            final(self).event == old(self).event,
            !old(self).has(sock_id) ==> r == Err::<CloseOutcome, TcpError>(TcpError::NoSuchSocket)
                && final(self).sockets@ == old(self).sockets@ && final(self).outbox@ == old(self).outbox@,
            ({
                let s0 = old(self).sock(sock_id);
                let s1 = final(self).sock(sock_id);
                old(self).has(sock_id) ==> {
                    &&& final(self).outbox@.len() == old(self).outbox@.len() + 1
                    &&& final(self).outbox@.subrange(0, old(self).outbox@.len() as int) == old(self).outbox@
                    &&& segment_from(final(self).outbox@.last(), s0, s0.send_param.next, s0.recv_param.next,
                        FIN | ACK, seq![])
                    &&& r == Ok::<CloseOutcome, TcpError>(
                        if s0.status == TcpStatus::Established || s0.status == TcpStatus::CloseWait {
                            CloseOutcome::AwaitClosed
                        } else {
                            CloseOutcome::Done
                        },
                    )
                    &&& s0.status == TcpStatus::Listen ==> !final(self).has(sock_id)
                        && final(self).sockets@ == old(self).sockets@.remove(old(self).index_of(sock_id))
                    &&& s0.status != TcpStatus::Listen ==> {
                        &&& final(self).sockets@ == old(self).sockets@.update(old(self).index_of(sock_id), s1)
                        &&& s1.send_param == (SendParam { next: s0.send_param.next.wrapping_add(1), ..s0.send_param })
                        &&& s1.status == if s0.status == TcpStatus::Established {
                            TcpStatus::FinWait1
                        } else if s0.status == TcpStatus::CloseWait {
                            TcpStatus::LastAck
                        } else {
                            s0.status
                        }
                        &&& s1.recv_param == s0.recv_param
                        &&& s1.same_identity(&s0)
                        &&& s1.retransmission_queue@.len() == s0.retransmission_queue@.len() + 1
                    }
                }
            }),
    {
        proof {
            lemma_flag_bits();
        }
        let i = match self.find(sock_id) {
            Some(i) => i,
            None => return Err(TcpError::NoSuchSocket),
        };
        let ghost prev = *self;
        proof { assert(prev.sockets@[i as int].wf()); }
        proof {
            assert(0x01u8 | 0x10u8 != 0x10u8) by (bit_vector);
        }
        let mut s = self.sockets.remove(i);
        let empty: Vec<u8> = Vec::new();
        s.send_tcp_packet(&mut self.outbox, s.send_param.next, s.recv_param.next, FIN | ACK, empty.as_slice(), now);
        s.send_param.next = s.send_param.next.wrapping_add(1);
        let outcome = match s.status {
            TcpStatus::Established => {
                s.status = TcpStatus::FinWait1;
                CloseOutcome::AwaitClosed
            },
            TcpStatus::CloseWait => {
                s.status = TcpStatus::LastAck;
                CloseOutcome::AwaitClosed
            },
            _ => CloseOutcome::Done,
        };
        if s.status == TcpStatus::Listen {
            proof {
                assert(self.sockets@ =~= prev.sockets@.remove(i as int));
                assert forall|j: int| 0 <= j < self.sockets@.len() implies #[trigger] self.sockets@[j].id() != sock_id by {
                    if j < i {
                        assert(self.sockets@[j] == prev.sockets@[j]);
                    } else {
                        assert(self.sockets@[j] == prev.sockets@[j + 1]);
                    }
                }
            }
            return Ok(outcome);
        }
        let ghost sg = s;
        self.sockets.insert(i, s);
        proof {
            assert(self.sockets@ =~= prev.sockets@.update(i as int, sg));
            Self::lemma_replace(prev, *self, sock_id, sg);
        }
        Ok(outcome)
    }

    /// LISTEN: a SYN without ACK for a connection not yet registered forks a
    /// child socket in SYN-RCVD with initial sequence number `iss`, answered
    /// with SYN|ACK; all else is ignored.
    fn listen_handler(&mut self, lid: SockID, remote_addr: u32, seg: &Segment, iss: u32, now: u64)
        requires
            old(self).wf(),
            old(self).has(lid),
        ensures
            final(self).wf(),
            listen_step(*old(self), *final(self), lid, remote_addr, *seg, iss),
    {
        proof {
            lemma_flag_bits();
        }
        if seg.flags & ACK != 0 || seg.flags & SYN == 0 {
            return;
        }
        let i = match self.find(lid) {
            Some(i) => i,
            None => return,
        };
        let cid = SockID(self.sockets[i].local_addr, remote_addr, self.sockets[i].local_port, seg.src_port);
        if self.find(cid).is_some() {
            return;
        }
        let mut c = Socket::new(self.sockets[i].local_addr, remote_addr, self.sockets[i].local_port, seg.src_port, TcpStatus::SynRcvd);
        c.recv_param.next = seg.seq.wrapping_add(1);
        c.recv_param.tail = seg.seq.wrapping_add(1);
        c.recv_param.initial_seq = seg.seq;
        c.send_param.initial_seq = iss;
        c.send_param.window = seg.window;
        let empty: Vec<u8> = Vec::new();
        proof {
            assert(0x02u8 | 0x10u8 != 0x10u8) by (bit_vector);
        }
        c.send_tcp_packet(&mut self.outbox, iss, c.recv_param.next, SYN | ACK, empty.as_slice(), now);
        c.send_param.next = iss.wrapping_add(1);
        c.send_param.unacked_seq = iss;
        c.listening_socket = Some(lid);
        self.insert(c);
        proof {
            self.lemma_inserted(*old(self), cid);
        }
    }

    /// SYN-RCVD: an ACK within what was sent establishes the connection and
    /// queues it on its listening parent, which is told of it.
    fn synrcvd_handler(&mut self, id: SockID, seg: &Segment)
        requires
            old(self).wf(),
            old(self).has(id),
        ensures
            final(self).wf(),
            synrcvd_step(*old(self), *final(self), id, *seg),
    {
        let i = match self.find(id) {
            Some(i) => i,
            None => return,
        };
        if !(seg.flags & ACK != 0 && seq_le(self.sockets[i].send_param.unacked_seq, seg.ack)
            && seq_le(seg.ack, self.sockets[i].send_param.next)) {
            return;
        }
        let ghost prev = *self;
        proof { assert(prev.sockets@[i as int].wf()); }
        let mut s = self.sockets.remove(i);
        s.recv_param.next = seg.seq;
        s.recv_param.tail = seg.seq;
        s.send_param.unacked_seq = seg.ack;
        s.status = TcpStatus::Established;
        let parent = s.listening_socket;
        let ghost sg = s;
        self.sockets.insert(i, s);
        proof {
            assert(self.sockets@ =~= prev.sockets@.update(i as int, sg));
            Self::lemma_replace(prev, *self, id, sg);
        }
        if let Some(p) = parent {
            if p != id {
                if let Some(j) = self.find(p) {
                    let ghost mid = *self;
                    proof { assert(mid.sockets@[j as int].wf()); }
                    let mut ls = self.sockets.remove(j);
                    ls.connection_established_queue.push_back(id);
                    let pid = ls.get_sock_id();
                    let ghost lg = ls;
                    self.sockets.insert(j, ls);
                    proof {
                        assert(self.sockets@ =~= mid.sockets@.update(j as int, lg));
                        Self::lemma_replace(mid, *self, p, lg);
                        assert(mid.sock(id) == sg);
                        assert(self.sock(id) == sg);
                        assert(sg.same_identity(&prev.sock(id)));
                    }
                    self.publish_event(pid, TCPEventKind::ConnectionCompleted);
                }
            }
        }
    }

    /// Hands a received segment from `remote_addr` to `local_addr` to the
    /// socket it belongs to: the exact connection if there is one, else the
    /// listening socket on the destination port; with neither it is dropped.
    /// A SYN to a listening socket forks a child with initial sequence number `iss`.
    pub fn segment_arrives_with(&mut self, local_addr: u32, remote_addr: u32, seg: &Segment, iss: u32, now: u64)
        requires
            old(self).wf(),
        ensures
            final(self).wf(),
            arrival_step(*old(self), *final(self), local_addr, remote_addr, *seg, iss),
    {
        let exact = SockID(local_addr, remote_addr, seg.dst_port, seg.src_port);
        let id = match self.find(exact) {
            Some(_) => exact,
            None => {
                let wild = SockID(local_addr, 0, seg.dst_port, 0);
                match self.find(wild) {
                    Some(_) => wild,
                    None => return,
                }
            },
        };
        let i = match self.find(id) {
            Some(i) => i,
            None => return,
        };
        let ghost prev = *self;
        proof { assert(prev.sockets@[i as int].wf()); }
        match self.sockets[i].status {
            TcpStatus::Listen => {
                self.listen_handler(id, remote_addr, seg, iss, now);
                return;
            },
            TcpStatus::SynRcvd => {
                self.synrcvd_handler(id, seg);
                return;
            },
            TcpStatus::TimeWait => {
                return;
            },
            _ => {},
        }
        let mut s = self.sockets.remove(i);
        match s.status {
            TcpStatus::SynSent => s.synsent_handler(&mut self.outbox, &mut self.event, seg, now),
            TcpStatus::Established => s.established_handler(&mut self.outbox, &mut self.event, seg, now),
            TcpStatus::FinWait1 | TcpStatus::FinWait2 => s.finwait_handler(&mut self.outbox, &mut self.event, seg, now),
            _ => s.close_handler(seg),
        }
        let ghost sg = s;
        self.sockets.insert(i, s);
        proof {
            assert(self.sockets@ =~= prev.sockets@.update(i as int, sg));
            Self::lemma_replace(prev, *self, id, sg);
        }
    }

    /// As `segment_arrives_with`, with a random initial sequence number for
    /// a connection a SYN opens.
    pub fn segment_arrives(&mut self, local_addr: u32, remote_addr: u32, seg: &Segment, now: u64)
        requires
            old(self).wf(),
        ensures
            final(self).wf(),
            exists|iss: u32| 1 <= iss < ISS_RANGE_END && arrival_step(*old(self), *final(self), local_addr, remote_addr, *seg, iss),
    {
        let iss = random_in_range(1, ISS_RANGE_END);
        self.segment_arrives_with(local_addr, remote_addr, seg, iss, now);
    }

    /// One pass of the retransmission timer over every socket at time `now`.
    pub fn timer(&mut self, now: u64)
        requires
            old(self).wf(),
        ensures
            final(self).wf(),
            final(self).sockets@.len() == old(self).sockets@.len(),
            forall|i: int| 0 <= i < old(self).sockets@.len() ==> scanned(old(self).sockets@[i], #[trigger] final(self).sockets@[i], now),
            final(self).event == timer_event(old(self).event, old(self).sockets@, now, old(self).sockets@.len() as int),
            final(self).outbox@.len() == old(self).outbox@.len() + resend_count(old(self).sockets@, now, old(self).sockets@.len() as int),
            final(self).outbox@.subrange(0, old(self).outbox@.len() as int) == old(self).outbox@,
            forall|i: int| 0 <= i < old(self).sockets@.len() && #[trigger] resends(old(self).sockets@[i], now) ==> {
                let o = final(self).outbox@[old(self).outbox@.len() + resend_count(old(self).sockets@, now, i)];
                let s = old(self).sockets@[i];
                &&& o.segment.same(&kept_head(s, now).segment)
                &&& o.src_addr == s.local_addr
                &&& o.dst_addr == s.remote_addr
            },
    {
        let ghost t0 = *self;
        let mut i: usize = 0;
        while i < self.sockets.len()
            invariant
                self.wf(),
                i <= self.sockets@.len(),
                self.sockets@.len() == t0.sockets@.len(),
                forall|j: int| 0 <= j < i ==> scanned(t0.sockets@[j], #[trigger] self.sockets@[j], now),
                forall|j: int| i <= j < self.sockets@.len() ==> #[trigger] self.sockets@[j] == t0.sockets@[j],
                self.event == timer_event(t0.event, t0.sockets@, now, i as int),
                self.outbox@.len() == t0.outbox@.len() + resend_count(t0.sockets@, now, i as int),
                self.outbox@.subrange(0, t0.outbox@.len() as int) == t0.outbox@,
                forall|j: int| 0 <= j < i && #[trigger] resends(t0.sockets@[j], now) ==> {
                    let o = self.outbox@[t0.outbox@.len() + resend_count(t0.sockets@, now, j)];
                    let s = t0.sockets@[j];
                    &&& o.segment.same(&kept_head(s, now).segment)
                    &&& o.src_addr == s.local_addr
                    &&& o.dst_addr == s.remote_addr
                },
            decreases self.sockets@.len() - i,
        {
            let ghost prev = *self;
            proof { assert(prev.sockets@[i as int].wf()); }
            let ghost o_prev = self.outbox@;
            let mut s = self.sockets.remove(i);
            s.scan_retransmissions(&mut self.outbox, &mut self.event, now);
            let ghost sg = s;
            self.sockets.insert(i, s);
            proof {
                assert(self.sockets@ =~= prev.sockets@.update(i as int, sg));
                assert(prev.sockets@[i as int].id() == sg.id());
                assert forall|a: int, b: int| 0 <= a < self.sockets@.len() && 0 <= b < self.sockets@.len() && a != b
                    implies #[trigger] self.sockets@[a].id() != #[trigger] self.sockets@[b].id() by {
                    assert(prev.sockets@[a].id() != prev.sockets@[b].id());
                }
                let s0i = t0.sockets@[i as int];
                let q = s0i.retransmission_queue@;
                let k = dropped_count(q, s0i.send_param.unacked_seq, now) as int;
                crate::retransmit::lemma_dropped_count(q, s0i.send_param.unacked_seq, now);
                lemma_resend_count_monotone(t0.sockets@, now, 0, i as int);
                let rest = q.subrange(k, q.len() as int);
                if rest.len() > 0 {
                    assert(rest[0] == kept_head(s0i, now));
                }
                assert(resend_count(t0.sockets@, now, i + 1) == resend_count(t0.sockets@, now, i as int)
                    + if resends(s0i, now) { 1int } else { 0int });
                if resends(s0i, now) {
                    assert(self.outbox@.len() == o_prev.len() + 1);
                    assert(self.outbox@.subrange(0, o_prev.len() as int) == o_prev);
                } else {
                    assert(self.outbox@ == o_prev);
                }
                assert(self.outbox@.subrange(0, o_prev.len() as int) =~= o_prev);
                assert(self.outbox@.subrange(0, t0.outbox@.len() as int) =~= o_prev.subrange(0, t0.outbox@.len() as int));
                assert forall|j: int| 0 <= j < i + 1 && #[trigger] resends(t0.sockets@[j], now) implies {
                    let o = self.outbox@[t0.outbox@.len() + resend_count(t0.sockets@, now, j)];
                    let s = t0.sockets@[j];
                    &&& o.segment.same(&kept_head(s, now).segment)
                    &&& o.src_addr == s.local_addr
                    &&& o.dst_addr == s.remote_addr
                } by {
                    if j < i {
                        lemma_resend_count_monotone(t0.sockets@, now, j + 1, i as int);
                        lemma_resend_count_monotone(t0.sockets@, now, 0, j);
                        assert(resend_count(t0.sockets@, now, j + 1) == resend_count(t0.sockets@, now, j) + 1);
                        let idx = t0.outbox@.len() + resend_count(t0.sockets@, now, j);
                        assert(self.outbox@[idx] == self.outbox@.subrange(0, o_prev.len() as int)[idx]);
                        assert(self.outbox@[idx] == o_prev[idx]);
                    }
                }
            }
            i = i + 1;
        }
    }

    /// Takes the raw TCP bytes of a packet from `remote_addr` to `local_addr`:
    /// a malformed segment or one with a wrong checksum is dropped, any other
    /// is handed on as by `segment_arrives`.
    pub fn packet_arrives(&mut self, local_addr: u32, remote_addr: u32, bytes: &[u8], now: u64)
        requires
            old(self).wf(),
        ensures
            final(self).wf(),
            !(well_formed(bytes@) && checksum_ok(bytes@, remote_addr, local_addr)) ==> {
                &&& final(self).sockets@ == old(self).sockets@
                &&& final(self).outbox@ == old(self).outbox@
                &&& final(self).event == old(self).event
            },
            well_formed(bytes@) && checksum_ok(bytes@, remote_addr, local_addr) ==> exists|seg: Segment, iss: u32| {
                &&& seg.src_port == read16(bytes@, 0)
                &&& seg.dst_port == read16(bytes@, 2)
                &&& seg.seq == read32(bytes@, 4)
                &&& seg.ack == read32(bytes@, 8)
                &&& seg.flags == bytes@[13]
                &&& seg.window == read16(bytes@, 14)
                &&& seg.payload@ == bytes@.subrange(data_offset(bytes@), bytes@.len() as int)
                &&& 1 <= iss < ISS_RANGE_END
                &&& arrival_step(*old(self), *final(self), local_addr, remote_addr, seg, iss)
            },
    {
        match decode(bytes, remote_addr, local_addr) {
            Some(seg) => self.segment_arrives(local_addr, remote_addr, &seg, now),
            None => {},
        }
    }
}

} // verus!
