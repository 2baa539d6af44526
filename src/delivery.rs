use vstd::prelude::*;
use crate::segment::{Segment, Outgoing, ACK};
use crate::seqnum::{seq_lt, seq_dist};
use crate::socket::{lemma_flag_bits, Socket, RecvParam, RetransmissionEntry, TCPEvent, TCPEventKind, window_add, segment_from};

verus! {

/// How many entries at the head of `q` lie wholly before `una`.
pub open spec fn acked_count(q: Seq<RetransmissionEntry>, una: u32) -> nat
    decreases q.len(),
{
    if q.len() == 0 {
        0
    } else if seq_lt(q[0].segment.seq, una) {
        1 + acked_count(q.drop_first(), una)
    } else {
        0
    }
}

/// The send window after the first `k` entries of `q` return their payload.
pub open spec fn refill(w: u16, q: Seq<RetransmissionEntry>, k: int) -> u16
    decreases k,
{
    if k <= 0 {
        w
    } else {
        window_add(refill(w, q, k - 1), q[k - 1].segment.payload@.len() as int)
    }
}

/// Where in the receive buffer the payload of `seg` starts.
pub open spec fn payload_offset(s: Socket, seg: Segment) -> int {
    s.available() + seq_dist(s.recv_param.next, seg.seq)
}

/// How many payload bytes of `seg` fit in the receive buffer.
pub open spec fn copied_len(s: Socket, seg: Segment) -> int {
    let off = payload_offset(s, seg);
    let cap = s.recv_buffer@.len() as int;
    if off >= cap {
        0
    } else if seg.payload@.len() < cap - off {
        seg.payload@.len() as int
    } else {
        cap - off
    }
}

/// The receive buffer once the fitting part of `seg`'s payload is written.
pub open spec fn delivered_buffer(s: Socket, seg: Segment) -> Seq<u8> {
    let off = payload_offset(s, seg);
    let n = copied_len(s, seg);
    Seq::new(
        s.recv_buffer@.len(),
        |i: int| if off <= i < off + n { seg.payload@[i - off] } else { s.recv_buffer@[i] },
    )
}

/// `w - n`, held at zero.
pub open spec fn window_sub(w: u16, n: int) -> u16 {
    if n <= w { (w - n) as u16 } else { 0 }
}

/// The receive parameters once `seg`'s payload is written: the tail grows
/// to the end of what was written, and an in-order segment moves `next`
/// to the tail and closes the window by what it delivered.
pub open spec fn delivered_recv(s: Socket, seg: Segment) -> RecvParam {
    let end = seg.seq.wrapping_add(copied_len(s, seg) as u32);
    let tail = if seq_lt(s.recv_param.tail, end) { end } else { s.recv_param.tail };
    if seg.seq == s.recv_param.next {
        RecvParam {
            next: tail,
            window: window_sub(s.recv_param.window, seq_dist(seg.seq, tail)),
            initial_seq: s.recv_param.initial_seq,
            tail,
        }
    } else {
        RecvParam { tail, ..s.recv_param }
    }
}

/// `b` is `a` with its receive buffer and receive parameters replaced.
pub open spec fn only_recv_changed(a: Socket, b: Socket) -> bool {
    &&& b.same_identity(&a)
    &&& b.send_param == a.send_param
    &&& b.status == a.status
    &&& b.retransmission_queue@ == a.retransmission_queue@
}

impl Socket {
    /// Retires the entries at the head of the retransmission queue that lie
    /// before `unacked_seq`, returning their payload to the send window.
    pub fn delete_acked_segment_from_retransmission_queue(&mut self, event: &mut Option<TCPEvent>)
        ensures
            ({
                let q = old(self).retransmission_queue@;
                let k = acked_count(q, old(self).send_param.unacked_seq) as int;
                &&& final(self).retransmission_queue@ == q.subrange(k, q.len() as int)
                &&& final(self).send_param.window == refill(old(self).send_param.window, q, k)
                &&& k > 0 ==> *final(event) == Some(TCPEvent { sock_id: old(self).id(), kind: TCPEventKind::Acked })
                &&& k == 0 ==> *final(event) == *old(event)
            }),
            final(self).same_identity(old(self)),
            final(self).send_param.unacked_seq == old(self).send_param.unacked_seq,
            final(self).send_param.next == old(self).send_param.next,
            final(self).send_param.initial_seq == old(self).send_param.initial_seq,
            final(self).recv_param == old(self).recv_param,
            final(self).status == old(self).status,
            final(self).recv_buffer@ == old(self).recv_buffer@,
    {
        let ghost q0 = self.retransmission_queue@;
        let ghost w0 = self.send_param.window;
        let ghost una = self.send_param.unacked_seq;
        let ghost ev0 = *event;
        let ghost mut k: int = 0;
        proof {
            lemma_acked_count_bound(q0, una);
        }
        while self.retransmission_queue.len() > 0
            && seq_lt(self.retransmission_queue[0].segment.seq, self.send_param.unacked_seq)
            invariant
                0 <= k <= acked_count(q0, una) <= q0.len(),
                acked_count(q0.subrange(k, q0.len() as int), una) == acked_count(q0, una) - k,
                self.retransmission_queue@ == q0.subrange(k, q0.len() as int),
                self.send_param.window == refill(w0, q0, k),
                self.send_param.unacked_seq == una,
                self.send_param.next == old(self).send_param.next,
                self.send_param.initial_seq == old(self).send_param.initial_seq,
                self.same_identity(old(self)),
                self.recv_param == old(self).recv_param,
                self.status == old(self).status,
                self.recv_buffer@ == old(self).recv_buffer@,
                k > 0 ==> *event == Some(TCPEvent { sock_id: old(self).id(), kind: TCPEventKind::Acked }),
                k == 0 ==> *event == ev0,
            decreases self.retransmission_queue@.len(),
        {
            let ghost rest = self.retransmission_queue@;
            assert(rest.drop_first() == q0.subrange(k + 1, q0.len() as int));
            let entry = match self.retransmission_queue.pop_front() {
                Some(e) => e,
                None => {
                    return;
                },
            };
            let n = entry.segment.payload.len();
            let w = self.send_param.window;
            if n >= 0xffff || w as usize + n > 0xffff {
                self.send_param.window = 0xffff;
            } else {
                self.send_param.window = (w as usize + n) as u16;
            }
            *event = Some(TCPEvent::new(self.get_sock_id(), TCPEventKind::Acked));
            proof {
                k = k + 1;
            }
        }
        proof {
            let rest = self.retransmission_queue@;
            if rest.len() > 0 {
                assert(!seq_lt(rest[0].segment.seq, una));
            }
        }
    }

    /// Writes the fitting part of `seg`'s payload into the receive buffer,
    /// acknowledges it if anything was written, and signals arrival.
    pub fn process_payload(&mut self, out: &mut Vec<Outgoing>, event: &mut Option<TCPEvent>, seg: &Segment, now: u64)
        requires
            old(self).wf(),
        ensures
            final(self).wf(),
            only_recv_changed(*old(self), *final(self)),
            final(self).recv_buffer@ == delivered_buffer(*old(self), *seg),
            final(self).recv_param == delivered_recv(*old(self), *seg),
            copied_len(*old(self), *seg) > 0 ==> {
                &&& final(out)@.len() == old(out)@.len() + 1
                &&& segment_from(final(out)@.last(), *final(self), old(self).send_param.next,
                    final(self).recv_param.next, ACK, seq![])
            },
            copied_len(*old(self), *seg) == 0 ==> final(out)@.len() == old(out)@.len(),
            final(out)@.subrange(0, old(out)@.len() as int) == old(out)@,
            *final(event) == Some(TCPEvent { sock_id: old(self).id(), kind: TCPEventKind::DataArrived }),
    {
        proof {
            lemma_flag_bits();
        }
        let cap = self.recv_buffer.len();
        let avail = cap - self.recv_param.window as usize;
        let gap: u32 = seg.seq.wrapping_sub(self.recv_param.next);
        let offset: u64 = avail as u64 + gap as u64;
        let copy_size: usize = if offset >= cap as u64 {
            0
        } else if seg.payload.len() < cap - offset as usize {
            seg.payload.len()
        } else {
            cap - offset as usize
        };
        let ghost buf0 = self.recv_buffer@;
        let mut j: usize = 0;
        while j < copy_size
            invariant
                copy_size > 0 ==> offset + copy_size <= cap,
                copy_size <= seg.payload@.len(),
                j <= copy_size,
                cap == buf0.len(),
                self.recv_buffer@.len() == cap,
                forall|i: int| 0 <= i < cap ==> #[trigger] self.recv_buffer@[i] == if offset <= i < offset + j {
                    seg.payload@[i - offset]
                } else {
                    buf0[i]
                },
                only_recv_changed(*old(self), *self),
                self.recv_param == old(self).recv_param,
            decreases copy_size - j,
        {
            let b = seg.payload[j];
            self.recv_buffer.set(offset as usize + j, b);
            j = j + 1;
        }
        assert(self.recv_buffer@ == delivered_buffer(*old(self), *seg));
        let end = seg.seq.wrapping_add(copy_size as u32);
        if seq_lt(self.recv_param.tail, end) {
            self.recv_param.tail = end;
        }
        if seg.seq == self.recv_param.next {
            let adv: u32 = self.recv_param.tail.wrapping_sub(seg.seq);
            self.recv_param.next = self.recv_param.tail;
            if adv <= self.recv_param.window as u32 {
                self.recv_param.window = self.recv_param.window - adv as u16;
            } else {
                self.recv_param.window = 0;
            }
        }
        if copy_size > 0 {
            let empty: Vec<u8> = Vec::new();
            self.send_tcp_packet(out, self.send_param.next, self.recv_param.next, ACK, empty.as_slice(), now);
        }
        *event = Some(TCPEvent::new(self.get_sock_id(), TCPEventKind::DataArrived));
    }

    /// Moves up to `max` delivered bytes out of the front of the receive
    /// buffer, shifting the rest forward and reopening the window.
    pub fn read_buffer(&mut self, max: usize) -> (r: Vec<u8>)
        requires
            old(self).wf(),
        ensures
            ({
                let n = if max < old(self).available() { max as int } else { old(self).available() };
                let b = old(self).recv_buffer@;
                &&& r@ == b.subrange(0, n)
                &&& final(self).recv_buffer@ == b.subrange(n, b.len() as int) + b.subrange(b.len() - n, b.len() as int)
                &&& final(self).recv_param == (RecvParam { window: (old(self).recv_param.window + n) as u16, ..old(self).recv_param })
            }),
            only_recv_changed(*old(self), *final(self)),
            final(self).wf(),
    {
        let cap = self.recv_buffer.len();
        let avail = cap - self.recv_param.window as usize;
        let n = if max < avail { max } else { avail };
        let ghost b = self.recv_buffer@;
        let mut r: Vec<u8> = Vec::new();
        let mut i: usize = 0;
        while i < n
            invariant
                n <= cap == b.len(),
                i <= n,
                self.recv_buffer@ == b,
                r@ == b.subrange(0, i as int),
            decreases n - i,
        {
            r.push(self.recv_buffer[i]);
            i = i + 1;
        }
        let mut i: usize = 0;
        while i + n < cap
            invariant
                n <= cap == b.len(),
                i <= cap - n,
                self.recv_buffer@.len() == cap,
                forall|x: int| 0 <= x < i ==> #[trigger] self.recv_buffer@[x] == b[x + n],
                forall|x: int| i <= x < cap ==> #[trigger] self.recv_buffer@[x] == b[x],
                only_recv_changed(*old(self), *self),
                self.recv_param == old(self).recv_param,
            decreases cap - i,
        {
            let v = self.recv_buffer[i + n];
            self.recv_buffer.set(i, v);
            i = i + 1;
        }
        assert(self.recv_buffer@ =~= b.subrange(n as int, b.len() as int) + b.subrange(b.len() - n, b.len() as int));
        self.recv_param.window = self.recv_param.window + n as u16;
        r
    }
}

proof fn lemma_acked_count_bound(q: Seq<RetransmissionEntry>, una: u32)
    ensures
        acked_count(q, una) <= q.len(),
        forall|k: int| 0 <= k <= acked_count(q, una) ==>
            acked_count(#[trigger] q.subrange(k, q.len() as int), una) == acked_count(q, una) - k,
    decreases q.len(),
{
    if q.len() > 0 {
        lemma_acked_count_bound(q.drop_first(), una);
        assert forall|k: int| 0 <= k <= acked_count(q, una) implies
            acked_count(#[trigger] q.subrange(k, q.len() as int), una) == acked_count(q, una) - k by {
            if k > 0 {
                assert(q.subrange(k, q.len() as int) == q.drop_first().subrange(k - 1, q.drop_first().len() as int));
            } else {
                assert(q.subrange(0, q.len() as int) == q);
            }
        }
    } else {
        assert forall|k: int| 0 <= k <= acked_count(q, una) implies
            acked_count(#[trigger] q.subrange(k, q.len() as int), una) == acked_count(q, una) - k by {
            assert(q.subrange(0, 0) == q);
        }
    }
}

} // verus!
