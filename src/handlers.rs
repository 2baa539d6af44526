use vstd::prelude::*;
use crate::segment::{Segment, Outgoing, has_flag, ACK, SYN, FIN};
use crate::seqnum::{seq_lt, seq_le};
use crate::socket::{lemma_flag_bits, Socket, SendParam, RecvParam, RetransmissionEntry, TCPEvent, TCPEventKind, TcpStatus, segment_from};
use crate::delivery::{acked_count, refill, copied_len, delivered_buffer, delivered_recv};

verus! {

/// `seg` acknowledges something outstanding and nothing beyond what was sent.
pub open spec fn ack_accepted(s: Socket, seg: Segment) -> bool {
    seq_lt(s.send_param.unacked_seq, seg.ack) && seq_le(seg.ack, s.send_param.next)
}

/// `seg` is neither beyond what was sent nor missing its ACK flag.
pub open spec fn ack_proceeds(s: Socket, seg: Segment) -> bool {
    &&& (ack_accepted(s, seg) || !seq_lt(s.send_param.next, seg.ack))
    &&& has_flag(seg.flags, ACK)
}

/// How many queued entries an accepted acknowledgment retires.
pub open spec fn retired_count(s: Socket, seg: Segment) -> int {
    if ack_accepted(s, seg) {
        acked_count(s.retransmission_queue@, seg.ack) as int
    } else {
        0
    }
}

pub open spec fn send_after_ack(s: Socket, seg: Segment) -> SendParam {
    if ack_accepted(s, seg) {
        SendParam {
            unacked_seq: seg.ack,
            window: refill(s.send_param.window, s.retransmission_queue@, retired_count(s, seg)),
            ..s.send_param
        }
    } else {
        s.send_param
    }
}

pub open spec fn queue_after_ack(s: Socket, seg: Segment) -> Seq<RetransmissionEntry> {
    let q = s.retransmission_queue@;
    q.subrange(retired_count(s, seg), q.len() as int)
}

pub open spec fn event_after_ack(s: Socket, seg: Segment, ev: Option<TCPEvent>) -> Option<TCPEvent> {
    if retired_count(s, seg) > 0 {
        Some(TCPEvent { sock_id: s.id(), kind: TCPEventKind::Acked })
    } else {
        ev
    }
}

/// `seg` carries payload that is to be delivered.
pub open spec fn delivers(s: Socket, seg: Segment) -> bool {
    ack_proceeds(s, seg) && seg.payload@.len() > 0
}

pub open spec fn recv_after_data(s: Socket, seg: Segment) -> RecvParam {
    if delivers(s, seg) { delivered_recv(s, seg) } else { s.recv_param }
}

pub open spec fn buffer_after_data(s: Socket, seg: Segment) -> Seq<u8> {
    if delivers(s, seg) { delivered_buffer(s, seg) } else { s.recv_buffer@ }
}

/// Delivering `seg` emits an acknowledgment.
pub open spec fn data_acked(s: Socket, seg: Segment) -> bool {
    delivers(s, seg) && copied_len(s, seg) > 0
}

/// `seg` closes the peer's side of a synchronized connection.
pub open spec fn fin_seen(s: Socket, seg: Segment) -> bool {
    ack_proceeds(s, seg) && has_flag(seg.flags, FIN)
}

/// What a segment does to the send side and the retransmission queue in a
/// synchronized state, and what it writes to the receive buffer.
pub open spec fn synchronized_step(s0: Socket, s1: Socket, seg: Segment) -> bool {
    &&& s1.same_identity(&s0)
    &&& s1.wf()
    &&& s1.send_param == send_after_ack(s0, seg)
    &&& s1.retransmission_queue@ == queue_after_ack(s0, seg)
    &&& s1.recv_buffer@ == buffer_after_data(s0, seg)
}

/// The acknowledgments `seg` makes the socket emit, after `before`.
pub open spec fn synchronized_acks(
    s0: Socket,
    s1: Socket,
    seg: Segment,
    before: Seq<Outgoing>,
    after: Seq<Outgoing>,
    fin_ack: u32,
) -> bool {
    let n = before.len() as int;
    let d: int = if data_acked(s0, seg) { 1 } else { 0 };
    let f: int = if fin_seen(s0, seg) { 1 } else { 0 };
    &&& after.len() == n + d + f
    &&& after.subrange(0, n) == before
    &&& data_acked(s0, seg) ==> segment_from(after[n], s1, s0.send_param.next,
        delivered_recv(s0, seg).next, ACK, seq![])
    &&& fin_seen(s0, seg) ==> segment_from(after.last(), s1, s0.send_param.next, fin_ack, ACK, seq![])
}

/// `seg` is a SYN|ACK acknowledging within what was sent.
pub open spec fn synack_matches(s: Socket, seg: Segment) -> bool {
    &&& has_flag(seg.flags, ACK)
    &&& has_flag(seg.flags, SYN)
    &&& seq_le(s.send_param.unacked_seq, seg.ack)
    &&& seq_le(seg.ack, s.send_param.next)
}

/// The effect of `Socket::established_handler` on the socket, the outgoing segments and the event slot.
pub open spec fn established_step(s0: Socket, s1: Socket, seg: Segment, o0: Seq<Outgoing>, o1: Seq<Outgoing>, e0: Option<TCPEvent>, e1: Option<TCPEvent>) -> bool {
    &&& synchronized_step(s0, s1, seg)
    &&& s1.recv_param == if fin_seen(s0, seg) {
        RecvParam { next: recv_after_data(s0, seg).next.wrapping_add(1), ..recv_after_data(s0, seg) }
    } else {
        recv_after_data(s0, seg)
    }
    &&& s1.status == if fin_seen(s0, seg) { TcpStatus::CloseWait } else { s0.status }
    &&& synchronized_acks(s0, s1, seg, o0, o1, recv_after_data(s0, seg).next.wrapping_add(1))
    &&& e1 == if delivers(s0, seg) || fin_seen(s0, seg) {
        Some(TCPEvent { sock_id: s0.id(), kind: TCPEventKind::DataArrived })
    } else {
        event_after_ack(s0, seg, e0)
    }
}

/// The effect of `Socket::finwait_handler` on the socket, the outgoing segments and the event slot.
pub open spec fn finwait_step(s0: Socket, s1: Socket, seg: Segment, o0: Seq<Outgoing>, o1: Seq<Outgoing>, e0: Option<TCPEvent>, e1: Option<TCPEvent>) -> bool {
    &&& synchronized_step(s0, s1, seg)
    &&& s1.recv_param == if fin_seen(s0, seg) {
        RecvParam { next: recv_after_data(s0, seg).next.wrapping_add(1), ..recv_after_data(s0, seg) }
    } else {
        recv_after_data(s0, seg)
    }
    &&& s1.status == if ack_proceeds(s0, seg) && s0.status == TcpStatus::FinWait1
        && send_after_ack(s0, seg).next == send_after_ack(s0, seg).unacked_seq {
        TcpStatus::FinWait2
    } else {
        s0.status
    }
    &&& synchronized_acks(s0, s1, seg, o0, o1,
        recv_after_data(s0, seg).next.wrapping_add(1))
    &&& e1 == if fin_seen(s0, seg) {
        Some(TCPEvent { sock_id: s0.id(), kind: TCPEventKind::ConnectionClosed })
    } else if delivers(s0, seg) {
        Some(TCPEvent { sock_id: s0.id(), kind: TCPEventKind::DataArrived })
    } else {
        event_after_ack(s0, seg, e0)
    }
}

/// The effect of `Socket::synsent_handler` on the socket, the outgoing segments and the event slot.
pub open spec fn synsent_step(s0: Socket, s1: Socket, seg: Segment, o0: Seq<Outgoing>, o1: Seq<Outgoing>, e0: Option<TCPEvent>, e1: Option<TCPEvent>) -> bool {
    &&& s1.wf()
    &&& s1.same_identity(&s0)
    &&& s1.recv_buffer@ == s0.recv_buffer@
    &&& s1.retransmission_queue@ == s0.retransmission_queue@
    &&& !synack_matches(s0, seg) ==> {
        &&& s1.send_param == s0.send_param
        &&& s1.recv_param == s0.recv_param
        &&& s1.status == s0.status
        &&& o1 == o0
        &&& e1 == e0
    }
    &&& synack_matches(s0, seg) ==> {
        &&& s1.recv_param == (RecvParam {
            next: seg.seq.wrapping_add(1),
            initial_seq: seg.seq,
            tail: seg.seq.wrapping_add(1),
            ..s0.recv_param
        })
        &&& s1.send_param == (SendParam {
            unacked_seq: seg.ack,
            window: seg.window,
            ..s0.send_param
        })
        &&& s1.status == if seq_lt(s0.send_param.initial_seq, seg.ack) {
            TcpStatus::Established
        } else {
            TcpStatus::SynRcvd
        }
        &&& o1.len() == o0.len() + 1
        &&& o1.subrange(0, o0.len() as int) == o0
        &&& segment_from(o1.last(), s1, s0.send_param.next,
            seg.seq.wrapping_add(1), ACK, seq![])
        &&& e1 == if seq_lt(s0.send_param.initial_seq, seg.ack) {
            Some(TCPEvent { sock_id: s0.id(), kind: TCPEventKind::ConnectionCompleted })
        } else {
            e0
        }
    }
}

/// The effect of `Socket::close_handler` on the socket.
pub open spec fn close_step(s0: Socket, s1: Socket, seg: Segment) -> bool {
    let within = seq_le(s0.send_param.unacked_seq, seg.ack) && seq_le(seg.ack, s0.send_param.next);
    &&& s1.send_param == if within { SendParam { unacked_seq: seg.ack, ..s0.send_param } } else { s0.send_param }
    &&& s1.same_identity(&s0)
    &&& s1.recv_param == s0.recv_param
    &&& s1.recv_buffer@ == s0.recv_buffer@
    &&& s1.retransmission_queue@ == s0.retransmission_queue@
    &&& s1.status == s0.status
}

impl Socket {
    /// Applies the acknowledgment of `seg`; tells whether the segment goes on
    /// to payload and FIN processing.
    fn advance_ack(&mut self, event: &mut Option<TCPEvent>, seg: &Segment) -> (proceed: bool)
        requires
            old(self).wf(),
        ensures
            proceed == ack_proceeds(*old(self), *seg),
            final(self).same_identity(old(self)),
            final(self).wf(),
            final(self).send_param == send_after_ack(*old(self), *seg),
            final(self).retransmission_queue@ == queue_after_ack(*old(self), *seg),
            final(self).recv_param == old(self).recv_param,
            final(self).recv_buffer@ == old(self).recv_buffer@,
            final(self).status == old(self).status,
            *final(event) == event_after_ack(*old(self), *seg, *old(event)),
    {
        if seq_lt(self.send_param.unacked_seq, seg.ack) && seq_le(seg.ack, self.send_param.next) {
            self.send_param.unacked_seq = seg.ack;
            self.delete_acked_segment_from_retransmission_queue(event);
        } else if seq_lt(self.send_param.next, seg.ack) {
            return false;
        }
        seg.flags & ACK != 0
    }

    /// ESTABLISHED: take the acknowledgment, deliver payload, and on FIN
    /// step past it, acknowledge it and move to CLOSE-WAIT.
    pub fn established_handler(&mut self, out: &mut Vec<Outgoing>, event: &mut Option<TCPEvent>, seg: &Segment, now: u64)
        requires
            old(self).wf(),
        ensures
            established_step(*old(self), *final(self), *seg, old(out)@, final(out)@, *old(event), *final(event)),
    {
        proof {
            lemma_flag_bits();
        }
        let ghost n0 = out@.len();
        assert(out@.subrange(0, n0 as int) =~= out@);
        if !self.advance_ack(event, seg) {
            return;
        }
        if seg.payload.len() > 0 {
            self.process_payload(out, event, seg, now);
        }
        let ghost mid = out@;
        assert(mid.subrange(0, n0 as int) == old(out)@);
        if seg.flags & FIN != 0 {
            self.recv_param.next = self.recv_param.next.wrapping_add(1);
            let empty: Vec<u8> = Vec::new();
            self.send_tcp_packet(out, self.send_param.next, self.recv_param.next, ACK, empty.as_slice(), now);
            self.status = TcpStatus::CloseWait;
            *event = Some(TCPEvent::new(self.get_sock_id(), TCPEventKind::DataArrived));
            assert(out@.subrange(0, mid.len() as int) == mid);
            assert(out@.subrange(0, n0 as int) == mid.subrange(0, n0 as int));
            proof {
                if mid.len() > n0 {
                    assert(out@[n0 as int] == out@.subrange(0, mid.len() as int)[n0 as int]);
                }
            }
        }
    }

    /// FIN-WAIT-1 and FIN-WAIT-2: take the acknowledgment, deliver payload,
    /// move on once our FIN is acknowledged, and on the peer's FIN
    /// acknowledge it and signal that the connection is closed.
    pub fn finwait_handler(&mut self, out: &mut Vec<Outgoing>, event: &mut Option<TCPEvent>, seg: &Segment, now: u64)
        requires
            old(self).wf(),
        ensures
            finwait_step(*old(self), *final(self), *seg, old(out)@, final(out)@, *old(event), *final(event)),
    {
        proof {
            lemma_flag_bits();
        }
        let ghost n0 = out@.len();
        assert(out@.subrange(0, n0 as int) =~= out@);
        if !self.advance_ack(event, seg) {
            return;
        }
        if seg.payload.len() > 0 {
            self.process_payload(out, event, seg, now);
        }
        if self.status == TcpStatus::FinWait1 && self.send_param.next == self.send_param.unacked_seq {
            self.status = TcpStatus::FinWait2;
        }
        let ghost mid = out@;
        assert(mid.subrange(0, n0 as int) == old(out)@);
        if seg.flags & FIN != 0 {
            self.recv_param.next = self.recv_param.next.wrapping_add(1);
            let empty: Vec<u8> = Vec::new();
            self.send_tcp_packet(out, self.send_param.next, self.recv_param.next, ACK, empty.as_slice(), now);
            *event = Some(TCPEvent::new(self.get_sock_id(), TCPEventKind::ConnectionClosed));
            assert(out@.subrange(0, mid.len() as int) == mid);
            assert(out@.subrange(0, n0 as int) == mid.subrange(0, n0 as int));
            proof {
                if mid.len() > n0 {
                    assert(out@[n0 as int] == out@.subrange(0, mid.len() as int)[n0 as int]);
                }
            }
        }
    }

    /// SYN-SENT: on a SYN|ACK that acknowledges within what was sent, adopt
    /// the peer's sequence and window and acknowledge it; the connection is
    /// established once our SYN is acknowledged, else it is a simultaneous open.
    pub fn synsent_handler(&mut self, out: &mut Vec<Outgoing>, event: &mut Option<TCPEvent>, seg: &Segment, now: u64)
        requires
            old(self).wf(),
        ensures
            synsent_step(*old(self), *final(self), *seg, old(out)@, final(out)@, *old(event), *final(event)),
    {
        proof {
            lemma_flag_bits();
        }
        if seg.flags & ACK != 0 && seq_le(self.send_param.unacked_seq, seg.ack) && seq_le(seg.ack, self.send_param.next)
            && seg.flags & SYN != 0 {
            self.recv_param.next = seg.seq.wrapping_add(1);
            self.recv_param.tail = seg.seq.wrapping_add(1);
            self.recv_param.initial_seq = seg.seq;
            self.send_param.unacked_seq = seg.ack;
            self.send_param.window = seg.window;
            let empty: Vec<u8> = Vec::new();
            if seq_lt(self.send_param.initial_seq, self.send_param.unacked_seq) {
                self.status = TcpStatus::Established;
                self.send_tcp_packet(out, self.send_param.next, self.recv_param.next, ACK, empty.as_slice(), now);
                *event = Some(TCPEvent::new(self.get_sock_id(), TCPEventKind::ConnectionCompleted));
            } else {
                self.status = TcpStatus::SynRcvd;
                self.send_tcp_packet(out, self.send_param.next, self.recv_param.next, ACK, empty.as_slice(), now);
            }
        }
    }

    /// CLOSE-WAIT and LAST-ACK: record the peer's acknowledgment if it lies
    /// within what was sent; payload is not processed.
    pub fn close_handler(&mut self, seg: &Segment)
        ensures
            close_step(*old(self), *final(self), *seg),
    {
        if seq_le(self.send_param.unacked_seq, seg.ack) && seq_le(seg.ack, self.send_param.next) {
            self.send_param.unacked_seq = seg.ack;
        }
    }
}

} // verus!
