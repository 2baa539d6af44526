use vstd::prelude::*;
use std::collections::VecDeque;
use crate::segment::{Segment, Outgoing, has_flag, ACK, SYN, FIN};
use crate::seqnum::{seq_lt, seq_le};

verus! {

/// Capacity of each socket's receive buffer, and the window a new socket offers.
pub const SOCKET_BUFFER_SIZE: usize = 4380;

/// Connection identity: local address, remote address, local port, remote port.
/// Addresses are IPv4 addresses as big-endian 32-bit numbers.
#[derive(Clone, Copy, Debug, PartialEq, Eq, Structural)]
pub struct SockID(pub u32, pub u32, pub u16, pub u16);

#[derive(Clone, Copy, Debug, PartialEq, Eq, Structural)]
pub enum TcpStatus {
    Listen,
    SynSent,
    SynRcvd,
    Established,
    FinWait1,
    FinWait2,
    TimeWait,
    CloseWait,
    LastAck,
}

#[derive(Clone, Copy, Debug, PartialEq, Eq, Structural)]
pub enum TCPEventKind {
    ConnectionCompleted,
    Acked,
    DataArrived,
    ConnectionClosed,
}

/// What the single event slot holds: which socket, and what happened.
#[derive(Clone, Copy, Debug, PartialEq, Eq, Structural)]
pub struct TCPEvent {
    pub sock_id: SockID,
    pub kind: TCPEventKind,
}

impl TCPEvent {
    pub fn new(sock_id: SockID, kind: TCPEventKind) -> (r: Self)
        ensures
            r.sock_id == sock_id,
            r.kind == kind,
    {
        TCPEvent { sock_id, kind }
    }
}

#[derive(Clone, Copy, Debug, PartialEq, Eq, Structural)]
pub struct SendParam {
    pub unacked_seq: u32,
    pub next: u32,
    pub window: u16,
    pub initial_seq: u32,
}

#[derive(Clone, Copy, Debug, PartialEq, Eq, Structural)]
pub struct RecvParam {
    pub next: u32,
    pub window: u16,
    pub initial_seq: u32,
    pub tail: u32,
}

/// A transmitted segment kept until it is acknowledged.
/// Times are milliseconds on the caller's clock.
pub struct RetransmissionEntry {
    pub segment: Segment,
    pub latest_transmission_time: u64,
    pub transmission_count: u8,
}

pub struct Socket {
    pub local_addr: u32,
    pub remote_addr: u32,
    pub local_port: u16,
    pub remote_port: u16,
    pub send_param: SendParam,
    pub recv_param: RecvParam,
    pub status: TcpStatus,
    pub recv_buffer: Vec<u8>,
    pub retransmission_queue: VecDeque<RetransmissionEntry>,
    pub connection_established_queue: VecDeque<SockID>,
    pub listening_socket: Option<SockID>,
}

/// `w + n`, held at the largest window.
pub open spec fn window_add(w: u16, n: int) -> u16 {
    if w + n > 0xffff { 0xffff } else { (w + n) as u16 }
}

/// `o` carries a segment from `s` with these header values and payload.
pub open spec fn segment_from(o: Outgoing, s: Socket, seq: u32, ack: u32, flags: u8, payload: Seq<u8>) -> bool {
    &&& o.src_addr == s.local_addr
    &&& o.dst_addr == s.remote_addr
    &&& o.segment.src_port == s.local_port
    &&& o.segment.dst_port == s.remote_port
    &&& o.segment.seq == seq
    &&& o.segment.ack == ack
    &&& o.segment.flags == flags
    &&& o.segment.window == s.recv_param.window
    &&& o.segment.payload@ == payload
}

/// A segment is kept for retransmission when it carries payload, SYN or FIN.
pub open spec fn is_retained(flags: u8, payload: Seq<u8>) -> bool {
    payload.len() > 0 || has_flag(flags, SYN) || has_flag(flags, FIN)
}

/// What the flag constants have in common.
pub proof fn lemma_flag_bits()
    ensures
        ACK & SYN == 0,
        ACK & FIN == 0,
        SYN & SYN != 0,
        (SYN | ACK) & SYN != 0,
        (FIN | ACK) & FIN != 0,
{
    assert(0x10u8 & 0x02u8 == 0u8) by (bit_vector);
    assert(0x10u8 & 0x01u8 == 0u8) by (bit_vector);
    assert(0x02u8 & 0x02u8 != 0u8) by (bit_vector);
    assert((0x02u8 | 0x10u8) & 0x02u8 != 0u8) by (bit_vector);
    assert((0x01u8 | 0x10u8) & 0x01u8 != 0u8) by (bit_vector);
}

impl Socket {
    pub open spec fn id(&self) -> SockID {
        SockID(self.local_addr, self.remote_addr, self.local_port, self.remote_port)
    }

    /// The receive window never exceeds the buffer, whose size fits a window.
    pub open spec fn wf(&self) -> bool {
        &&& self.recv_param.window as int <= self.recv_buffer@.len()
        &&& self.recv_buffer@.len() <= 0xffff
    }

    /// Everything but the send and receive state is as in `o`.
    pub open spec fn same_identity(&self, o: &Socket) -> bool {
        &&& self.local_addr == o.local_addr
        &&& self.remote_addr == o.remote_addr
        &&& self.local_port == o.local_port
        &&& self.remote_port == o.remote_port
        &&& self.connection_established_queue@ == o.connection_established_queue@
        &&& self.listening_socket == o.listening_socket
    }

    /// The number of received bytes waiting for the application.
    pub open spec fn available(&self) -> int {
        self.recv_buffer@.len() - self.recv_param.window
    }

    pub fn new(local_addr: u32, remote_addr: u32, local_port: u16, remote_port: u16, status: TcpStatus) -> (r: Socket)
        ensures
            r.id() == SockID(local_addr, remote_addr, local_port, remote_port),
            r.status == status,
            r.send_param == (SendParam { unacked_seq: 0, next: 0, window: SOCKET_BUFFER_SIZE as u16, initial_seq: 0 }),
            r.recv_param == (RecvParam { next: 0, window: SOCKET_BUFFER_SIZE as u16, initial_seq: 0, tail: 0 }),
            r.recv_buffer@ == Seq::new(SOCKET_BUFFER_SIZE as nat, |i: int| 0u8),
            r.retransmission_queue@.len() == 0,
            r.connection_established_queue@.len() == 0,
            r.listening_socket.is_none(),
            r.wf(),
    {
        let recv_buffer: Vec<u8> = vec![0u8; SOCKET_BUFFER_SIZE];
        assert(recv_buffer@ == Seq::new(SOCKET_BUFFER_SIZE as nat, |i: int| 0u8));
        Socket {
            local_addr,
            remote_addr,
            local_port,
            remote_port,
            send_param: SendParam { unacked_seq: 0, next: 0, window: SOCKET_BUFFER_SIZE as u16, initial_seq: 0 },
            recv_param: RecvParam { next: 0, window: SOCKET_BUFFER_SIZE as u16, initial_seq: 0, tail: 0 },
            status,
            recv_buffer,
            retransmission_queue: VecDeque::new(),
            connection_established_queue: VecDeque::new(),
            listening_socket: None,
        }
    }

    pub fn get_sock_id(&self) -> (r: SockID)
        ensures
            r == self.id(),
    {
        SockID(self.local_addr, self.remote_addr, self.local_port, self.remote_port)
    }

    /// Hands a segment to `out`, and keeps a copy for retransmission when it
    /// carries payload, SYN or FIN.
    pub fn send_tcp_packet(&mut self, out: &mut Vec<Outgoing>, seq: u32, ack: u32, flags: u8, payload: &[u8], now: u64)
        ensures
            final(out)@.len() == old(out)@.len() + 1,
            final(out)@.subrange(0, old(out)@.len() as int) == old(out)@,
            segment_from(final(out)@.last(), *old(self), seq, ack, flags, payload@),
            final(self).same_identity(old(self)),
            final(self).send_param == old(self).send_param,
            final(self).recv_param == old(self).recv_param,
            final(self).status == old(self).status,
            final(self).recv_buffer@ == old(self).recv_buffer@,
            is_retained(flags, payload@) ==> {
                &&& final(self).retransmission_queue@.len() == old(self).retransmission_queue@.len() + 1
                &&& final(self).retransmission_queue@.subrange(0, old(self).retransmission_queue@.len() as int)
                    == old(self).retransmission_queue@
                &&& final(self).retransmission_queue@.last().segment.same(&final(out)@.last().segment)
                &&& final(self).retransmission_queue@.last().latest_transmission_time == now
                &&& final(self).retransmission_queue@.last().transmission_count == 0
            },
            !is_retained(flags, payload@) ==> final(self).retransmission_queue@ == old(self).retransmission_queue@,
    {
        let mut body: Vec<u8> = Vec::new();
        let mut i: usize = 0;
        while i < payload.len()
            invariant
                i <= payload@.len(),
                body@ == payload@.subrange(0, i as int),
            decreases payload@.len() - i,
        {
            body.push(payload[i]);
            i = i + 1;
        }
        assert(body@ == payload@);
        let segment = Segment {
            src_port: self.local_port,
            dst_port: self.remote_port,
            seq,
            ack,
            flags,
            window: self.recv_param.window,
            payload: body,
        };
        if payload.len() > 0 || flags & SYN != 0 || flags & FIN != 0 {
            let kept = segment.duplicate();
            self.retransmission_queue.push_back(
                RetransmissionEntry { segment: kept, latest_transmission_time: now, transmission_count: 0 },
            );
        }
        out.push(Outgoing { src_addr: self.local_addr, dst_addr: self.remote_addr, segment });
    }
}

} // verus!
