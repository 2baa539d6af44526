use vstd::prelude::*;
use crate::segment::{Segment, Outgoing, has_flag, SYN};
use crate::seqnum::{seq_le, seq_lt, seq_dist};
use crate::socket::{Socket, TCPEvent, RecvParam};
use crate::delivery::{acked_count, delivered_buffer, delivered_recv, copied_len};
use crate::socket::TcpStatus;
use crate::retransmit::{scanned, dropped_count, timed_out, lemma_dropped_count};
use crate::tcp::{TCP, arrival_step, arrival_target, listen_step, synrcvd_step};
use crate::socket::SockID;
use crate::segment::ACK;
use crate::handlers::{established_step, finwait_step, synsent_step, close_step, synack_matches, ack_accepted, queue_after_ack};

verus! {

/// The oldest unacknowledged sequence number does not lie after the next one to send.
pub open spec fn una_before_next(s: Socket) -> bool {
    seq_le(s.send_param.unacked_seq, s.send_param.next)
}

/// A segment handled in SYN-SENT, ESTABLISHED or FIN-WAIT keeps the
/// unacknowledged sequence number at or before the next one to send.
pub proof fn lemma_handlers_keep_una_before_next(
    s0: Socket,
    s1: Socket,
    seg: Segment,
    o0: Seq<Outgoing>,
    o1: Seq<Outgoing>,
    e0: Option<TCPEvent>,
    e1: Option<TCPEvent>,
)
    requires
        una_before_next(s0),
        established_step(s0, s1, seg, o0, o1, e0, e1) || finwait_step(s0, s1, seg, o0, o1, e0, e1)
            || synsent_step(s0, s1, seg, o0, o1, e0, e1),
    ensures
        una_before_next(s1),
{
}

/// In CLOSE-WAIT and LAST-ACK an acknowledgment is recorded only within what
/// was sent, so the order is kept.
pub proof fn lemma_close_keeps_una_before_next(s0: Socket, s1: Socket, seg: Segment)
    requires
        una_before_next(s0),
        close_step(s0, s1, seg),
    ensures
        una_before_next(s1),
{
}

/// Sending `n` more bytes keeps the order while less than half the sequence
/// space is outstanding.
pub proof fn lemma_send_keeps_una_before_next(una: u32, next: u32, n: u32)
    requires
        seq_le(una, next),
        seq_dist(una, next) + n < 0x8000_0000,
    ensures
        seq_le(una, next.wrapping_add(n)),
{
    assert(next.wrapping_add(n).wrapping_sub(una) == next.wrapping_sub(una) + n) by (bit_vector)
        requires
            (next.wrapping_sub(una) as int) + (n as int) < 0x8000_0000,
    ;
}

/// Once an acknowledgment is taken, no entry left at the head of the
/// retransmission queue lies wholly before the unacknowledged sequence number.
pub proof fn lemma_ack_leaves_no_acked_head(s: Socket, seg: Segment)
    requires
        ack_accepted(s, seg),
        queue_after_ack(s, seg).len() > 0,
    ensures
        !seq_lt(queue_after_ack(s, seg)[0].segment.seq, seg.ack),
{
    let q = s.retransmission_queue@;
    lemma_acked_count_split(q, seg.ack);
    let k = acked_count(q, seg.ack) as int;
    let rest = q.subrange(k, q.len() as int);
    assert(acked_count(rest, seg.ack) == 0);
}

proof fn lemma_acked_count_split(q: Seq<crate::socket::RetransmissionEntry>, una: u32)
    ensures
        acked_count(q, una) <= q.len(),
        acked_count(q.subrange(acked_count(q, una) as int, q.len() as int), una) == 0,
    decreases q.len(),
{
    if q.len() > 0 {
        lemma_acked_count_split(q.drop_first(), una);
        if seq_lt(q[0].segment.seq, una) {
            let k = acked_count(q, una) as int;
            assert(q.subrange(k, q.len() as int) == q.drop_first().subrange(k - 1, q.drop_first().len() as int));
        } else {
            assert(q.subrange(0, q.len() as int) == q);
        }
    } else {
        assert(q.subrange(0, 0) == q);
    }
}

/// A segment arriving in order appends its payload to the bytes waiting
/// for the application and leaves those bytes as they were.
pub proof fn lemma_in_order_delivery_appends(s: Socket, seg: Segment)
    requires
        s.wf(),
        seg.seq == s.recv_param.next,
    ensures
        copied_len(s, seg) == if seg.payload@.len() < s.recv_param.window { seg.payload@.len() as int } else { s.recv_param.window as int },
        delivered_buffer(s, seg).subrange(0, s.available()) == s.recv_buffer@.subrange(0, s.available()),
        delivered_buffer(s, seg).subrange(s.available(), s.available() + copied_len(s, seg))
            == seg.payload@.subrange(0, copied_len(s, seg)),
{
    assert(seq_dist(s.recv_param.next, seg.seq) == 0) by {
        assert(seg.seq.wrapping_sub(seg.seq) == 0u32) by (bit_vector);
    }
    assert(delivered_buffer(s, seg).subrange(0, s.available()) =~= s.recv_buffer@.subrange(0, s.available()));
    assert(delivered_buffer(s, seg).subrange(s.available(), s.available() + copied_len(s, seg))
        =~= seg.payload@.subrange(0, copied_len(s, seg)));
}

/// A SYN|ACK taken in SYN-SENT makes the peer's initial sequence number the
/// start of the receive sequence space.
pub proof fn lemma_synsent_adopts_peer_iss(
    s0: Socket,
    s1: Socket,
    seg: Segment,
    o0: Seq<Outgoing>,
    o1: Seq<Outgoing>,
    e0: Option<TCPEvent>,
    e1: Option<TCPEvent>,
)
    requires
        synsent_step(s0, s1, seg, o0, o1, e0, e1),
        synack_matches(s0, seg),
    ensures
        s1.recv_param.initial_seq == seg.seq,
        s1.recv_param.next == seg.seq.wrapping_add(1),
        has_flag(seg.flags, SYN),
{
}

/// Every socket of the table has its unacknowledged sequence number at or
/// before the next one to send.
pub open spec fn all_una_before_next(t: TCP) -> bool {
    forall|i: int| 0 <= i < t.sockets@.len() ==> una_before_next(#[trigger] t.sockets@[i])
}

/// Handing a received segment to the engine keeps every socket's
/// unacknowledged sequence number at or before the next one to send.
pub proof fn lemma_arrival_keeps_una_before_next(t0: TCP, t1: TCP, local_addr: u32, remote_addr: u32, seg: Segment, iss: u32)
    requires
        t0.wf(),
        all_una_before_next(t0),
        arrival_step(t0, t1, local_addr, remote_addr, seg, iss),
    ensures
        all_una_before_next(t1),
{
    let id = arrival_target(t0, local_addr, remote_addr, seg);
    if t0.has(id) {
        let k = t0.index_of(id);
        let s0 = t0.sock(id);
        let s1 = t1.sock(id);
        assert(una_before_next(t0.sockets@[k]));
        let st = s0.status;
        if st == TcpStatus::Listen {
            if !has_flag(seg.flags, ACK) && has_flag(seg.flags, SYN) {
                assert(iss.wrapping_add(1).wrapping_sub(iss) == 1u32) by (bit_vector);
            }
        } else if st == TcpStatus::SynRcvd {
            let p = s0.listening_socket.unwrap();
            if s0.listening_socket.is_some() && p != id && t0.has(p) {
                assert(una_before_next(t0.sockets@[t0.index_of(p)]));
            }
        } else if st == TcpStatus::CloseWait || st == TcpStatus::LastAck {
            lemma_close_keeps_una_before_next(s0, s1, seg);
        } else if st != TcpStatus::TimeWait {
            lemma_handlers_keep_una_before_next(s0, s1, seg, t0.outbox@, t1.outbox@, t0.event, t1.event);
        }
    }
}

/// A payload that arrives in order at an empty receive buffer, and fits its
/// window, is exactly what a following read of the buffer returns.
pub proof fn lemma_delivered_payload_is_read_back(s: Socket, seg: Segment)
    requires
        s.wf(),
        s.available() == 0,
        s.recv_param.tail == s.recv_param.next,
        seg.seq == s.recv_param.next,
        0 < seg.payload@.len() <= s.recv_param.window,
    ensures
        delivered_recv(s, seg).next == seg.seq.wrapping_add(seg.payload@.len() as u32),
        delivered_recv(s, seg).window == s.recv_param.window - seg.payload@.len(),
        delivered_buffer(s, seg).subrange(0, seg.payload@.len() as int) == seg.payload@,
{
    lemma_in_order_delivery_appends(s, seg);
    let n = seg.payload@.len() as u32;
    let a = seg.seq;
    assert(n <= 0xffff);
    assert(a != a.wrapping_add(n) && a.wrapping_add(n).wrapping_sub(a) == n) by (bit_vector)
        requires
            0 < n <= 0xffff,
    ;
    assert(seg.payload@.subrange(0, seg.payload@.len() as int) == seg.payload@);
}

/// In a handshake each end takes the other's initial sequence number as the
/// start of its receive space: the listener's child adopts the one the
/// client's SYN carried, and the client adopts the one of the child's SYN|ACK.
/// Both start with an empty receive buffer whose tail is the next byte expected.
pub proof fn lemma_handshake_adopts_initial_sequences(
    client_iss: u32,
    t0: TCP,
    t1: TCP,
    lid: SockID,
    client_addr: u32,
    syn: Segment,
    server_iss: u32,
    c0: Socket,
    c1: Socket,
    synack: Segment,
    o0: Seq<Outgoing>,
    o1: Seq<Outgoing>,
    e0: Option<TCPEvent>,
    e1: Option<TCPEvent>,
)
    requires
        syn.seq == client_iss,
        has_flag(syn.flags, SYN),
        !has_flag(syn.flags, ACK),
        listen_step(t0, t1, lid, client_addr, syn, server_iss),
        !t0.has(SockID(t0.sock(lid).local_addr, client_addr, t0.sock(lid).local_port, syn.src_port)),
        synack.seq == server_iss,
        synsent_step(c0, c1, synack, o0, o1, e0, e1),
        synack_matches(c0, synack),
    ensures
        ({
            let ls = t0.sock(lid);
            let child = t1.sock(SockID(ls.local_addr, client_addr, ls.local_port, syn.src_port));
            &&& child.recv_param.initial_seq == client_iss
            &&& child.recv_param.next == client_iss.wrapping_add(1)
            &&& child.recv_param.tail == child.recv_param.next
            &&& child.send_param.initial_seq == server_iss
            &&& c1.recv_param.initial_seq == server_iss
            &&& c1.recv_param.tail == c1.recv_param.next
        }),
{
}

/// Every segment queued for retransmission lies no further back than one
/// receive buffer's capacity before the unacknowledged sequence number.
pub open spec fn queue_within_capacity(s: Socket) -> bool {
    let q = s.retransmission_queue@;
    let floor = s.send_param.unacked_seq.wrapping_sub(s.recv_buffer@.len() as u32);
    forall|j: int| 0 <= j < q.len() ==> seq_le(floor, #[trigger] q[j].segment.seq)
}

/// A timer pass only removes queued segments or moves one to the tail, so
/// it keeps every queued segment within one capacity of `unacked_seq`.
pub proof fn lemma_timer_keeps_queue_within_capacity(s0: Socket, s1: Socket, now: u64)
    requires
        scanned(s0, s1, now),
        queue_within_capacity(s0),
    ensures
        queue_within_capacity(s1),
{
    let q = s0.retransmission_queue@;
    let una = s0.send_param.unacked_seq;
    lemma_dropped_count(q, una, now);
    let k = dropped_count(q, una, now) as int;
    let rest = q.subrange(k, q.len() as int);
    let q1 = s1.retransmission_queue@;
    let floor = una.wrapping_sub(s0.recv_buffer@.len() as u32);
    assert forall|j: int| 0 <= j < q1.len() implies seq_le(floor, #[trigger] q1[j].segment.seq) by {
        if rest.len() == 0 || !timed_out(rest[0], now) {
            assert(q1[j] == q[k + j]);
        } else if j < q1.len() - 1 {
            assert(q1[j] == q1.subrange(0, q1.len() - 1)[j]);
            assert(q1[j] == q[k + 1 + j]);
        } else {
            assert(q1[j].segment.seq == q[k].segment.seq);
        }
    }
}

/// The same over a whole table: one timer pass keeps every socket's queue
/// within one capacity of its `unacked_seq`.
pub proof fn lemma_timer_keeps_queues_within_capacity(t0: TCP, t1: TCP, now: u64)
    requires
        t1.sockets@.len() == t0.sockets@.len(),
        forall|i: int| 0 <= i < t0.sockets@.len() ==> scanned(t0.sockets@[i], #[trigger] t1.sockets@[i], now),
        forall|i: int| 0 <= i < t0.sockets@.len() ==> queue_within_capacity(#[trigger] t0.sockets@[i]),
    ensures
        forall|i: int| 0 <= i < t1.sockets@.len() ==> queue_within_capacity(#[trigger] t1.sockets@[i]),
{
    assert forall|i: int| 0 <= i < t1.sockets@.len() implies queue_within_capacity(#[trigger] t1.sockets@[i]) by {
        lemma_timer_keeps_queue_within_capacity(t0.sockets@[i], t1.sockets@[i], now);
    }
}

/// The receive buffer of `s` holds exactly `data` for the application, and
/// no segment beyond the next expected byte has been written.
pub open spec fn holds_stream(s: Socket, data: Seq<u8>) -> bool {
    &&& s.wf()
    &&& s.available() == data.len()
    &&& s.recv_buffer@.subrange(0, data.len() as int) == data
    &&& s.recv_param.tail == s.recv_param.next
}

/// A segment arriving in order appends what fits of its payload to the
/// bytes held for the application, and moves `next` past exactly those.
pub proof fn lemma_delivery_extends_stream(s0: Socket, s1: Socket, seg: Segment, data: Seq<u8>)
    requires
        holds_stream(s0, data),
        seg.seq == s0.recv_param.next,
        s1.wf(),
        s1.recv_buffer@ == delivered_buffer(s0, seg),
        s1.recv_param == delivered_recv(s0, seg),
    ensures
        holds_stream(s1, data + seg.payload@.subrange(0, copied_len(s0, seg))),
        s1.recv_param.next == seg.seq.wrapping_add(copied_len(s0, seg) as u32),
{
    lemma_in_order_delivery_appends(s0, seg);
    let n = copied_len(s0, seg);
    let a = seg.seq;
    let nn = n as u32;
    assert(n <= 0xffff);
    if n > 0 {
        assert(a != a.wrapping_add(nn) && a.wrapping_add(nn).wrapping_sub(a) == nn) by (bit_vector)
            requires
                0 < nn <= 0xffff,
        ;
    } else {
        assert(a.wrapping_add(0u32) == a && a.wrapping_sub(a) == 0u32) by (bit_vector);
    }
    let b1 = delivered_buffer(s0, seg);
    let avail = data.len() as int;
    assert(b1.subrange(0, avail + n) =~= b1.subrange(0, avail) + b1.subrange(avail, avail + n));
}

/// Reading from the buffer hands out the first bytes held for the
/// application and keeps the rest, in order, for later reads.
pub proof fn lemma_read_consumes_stream(s0: Socket, s1: Socket, data: Seq<u8>, max: usize, r: Seq<u8>)
    requires
        holds_stream(s0, data),
        ({
            let n = if max < s0.available() { max as int } else { s0.available() };
            let b = s0.recv_buffer@;
            &&& r == b.subrange(0, n)
            &&& s1.recv_buffer@ == b.subrange(n, b.len() as int) + b.subrange(b.len() - n, b.len() as int)
            &&& s1.recv_param == (RecvParam { window: (s0.recv_param.window + n) as u16, ..s0.recv_param })
        }),
        s1.wf(),
    ensures
        ({
            let n = if max < data.len() { max as int } else { data.len() as int };
            &&& r == data.subrange(0, n)
            &&& holds_stream(s1, data.subrange(n, data.len() as int))
        }),
{
    let n = if max < data.len() { max as int } else { data.len() as int };
    let b = s0.recv_buffer@;
    assert(r =~= data.subrange(0, n));
    assert(s1.recv_buffer@.subrange(0, data.len() - n) =~= data.subrange(n, data.len() as int));
}

/// A SYN-RCVD socket that takes an acknowledgment keeps its unacknowledged
/// sequence number at or before the next one to send.
pub proof fn lemma_synrcvd_keeps_una_before_next(t0: TCP, t1: TCP, id: SockID, seg: Segment)
    requires
        t0.wf(),
        t0.has(id),
        una_before_next(t0.sock(id)),
        synrcvd_step(t0, t1, id, seg),
    ensures
        una_before_next(t1.sock(id)),
{
}

} // verus!
