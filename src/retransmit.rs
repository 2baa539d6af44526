use vstd::prelude::*;
use crate::segment::{Outgoing, has_flag, FIN};
use crate::seqnum::seq_lt;
use crate::socket::{Socket, SendParam, RetransmissionEntry, TCPEvent, TCPEventKind, TcpStatus, window_add};

verus! {

/// Milliseconds a transmitted segment waits for its acknowledgment.
pub const RETRANSMISSION_TIMEOUT_MS: u64 = 3000;
/// How many times a segment is sent again before it is given up.
pub const MAX_TRANSMISSION: u8 = 5;

pub open spec fn elapsed(e: RetransmissionEntry, now: u64) -> int {
    if now >= e.latest_transmission_time { now - e.latest_transmission_time } else { 0 }
}

pub open spec fn is_acked(e: RetransmissionEntry, una: u32) -> bool {
    seq_lt(e.segment.seq, una)
}

pub open spec fn timed_out(e: RetransmissionEntry, now: u64) -> bool {
    elapsed(e, now) >= RETRANSMISSION_TIMEOUT_MS
}

/// The scan takes `e` off the queue for good: it is acknowledged, or it
/// timed out with no transmissions left.
pub open spec fn is_dropped(e: RetransmissionEntry, una: u32, now: u64) -> bool {
    is_acked(e, una) || (timed_out(e, now) && e.transmission_count >= MAX_TRANSMISSION)
}

/// States in which a FIN that is given up on ends the connection.
pub open spec fn closing(st: TcpStatus) -> bool {
    st == TcpStatus::LastAck || st == TcpStatus::FinWait1 || st == TcpStatus::FinWait2
}

/// How many entries at the head of `q` the scan drops.
pub open spec fn dropped_count(q: Seq<RetransmissionEntry>, una: u32, now: u64) -> nat
    decreases q.len(),
{
    if q.len() == 0 {
        0
    } else if is_dropped(q[0], una, now) {
        1 + dropped_count(q.drop_first(), una, now)
    } else {
        0
    }
}

/// The send window once the first `k` dropped entries return what was acknowledged.
pub open spec fn scan_window(w: u16, q: Seq<RetransmissionEntry>, k: int, una: u32) -> u16
    decreases k,
{
    if k <= 0 {
        w
    } else {
        let prev = scan_window(w, q, k - 1, una);
        if is_acked(q[k - 1], una) { window_add(prev, q[k - 1].segment.payload@.len() as int) } else { prev }
    }
}

/// The event slot once the first `k` entries have been dropped.
pub open spec fn scan_event(ev: Option<TCPEvent>, s: Socket, q: Seq<RetransmissionEntry>, k: int) -> Option<TCPEvent>
    decreases k,
{
    if k <= 0 {
        ev
    } else {
        let prev = scan_event(ev, s, q, k - 1);
        let e = q[k - 1];
        let fin = has_flag(e.segment.flags, FIN);
        if is_acked(e, s.send_param.unacked_seq) {
            if fin && s.status == TcpStatus::LastAck {
                Some(TCPEvent { sock_id: s.id(), kind: TCPEventKind::ConnectionClosed })
            } else {
                Some(TCPEvent { sock_id: s.id(), kind: TCPEventKind::Acked })
            }
        } else if fin && closing(s.status) {
            Some(TCPEvent { sock_id: s.id(), kind: TCPEventKind::ConnectionClosed })
        } else {
            prev
        }
    }
}

pub proof fn lemma_dropped_count(q: Seq<RetransmissionEntry>, una: u32, now: u64)
    ensures
        dropped_count(q, una, now) <= q.len(),
        forall|k: int| 0 <= k <= dropped_count(q, una, now) ==>
            dropped_count(#[trigger] q.subrange(k, q.len() as int), una, now) == dropped_count(q, una, now) - k,
    decreases q.len(),
{
    if q.len() > 0 {
        lemma_dropped_count(q.drop_first(), una, now);
        assert forall|k: int| 0 <= k <= dropped_count(q, una, now) implies
            dropped_count(#[trigger] q.subrange(k, q.len() as int), una, now) == dropped_count(q, una, now) - k by {
            if k > 0 {
                assert(q.subrange(k, q.len() as int) == q.drop_first().subrange(k - 1, q.drop_first().len() as int));
            } else {
                assert(q.subrange(0, q.len() as int) == q);
            }
        }
    } else {
        assert forall|k: int| 0 <= k <= dropped_count(q, una, now) implies
            dropped_count(#[trigger] q.subrange(k, q.len() as int), una, now) == dropped_count(q, una, now) - k by {
            assert(q.subrange(0, 0) == q);
        }
    }
}

/// The event slot after a timer pass over the first `i` sockets of `socks`.
pub open spec fn timer_event(ev: Option<TCPEvent>, socks: Seq<Socket>, now: u64, i: int) -> Option<TCPEvent>
    decreases i,
{
    if i <= 0 {
        ev
    } else {
        let s = socks[i - 1];
        let q = s.retransmission_queue@;
        scan_event(timer_event(ev, socks, now, i - 1), s, q, dropped_count(q, s.send_param.unacked_seq, now) as int)
    }
}

/// The entry a timer pass finds at the head once dropped entries are gone.
pub open spec fn kept_head(s: Socket, now: u64) -> RetransmissionEntry {
    let q = s.retransmission_queue@;
    q[dropped_count(q, s.send_param.unacked_seq, now) as int]
}

/// A timer pass sends the kept head of `s` again: there is one, and it timed out.
pub open spec fn resends(s: Socket, now: u64) -> bool {
    let q = s.retransmission_queue@;
    &&& dropped_count(q, s.send_param.unacked_seq, now) < q.len()
    &&& timed_out(kept_head(s, now), now)
}

/// How many of the first `i` sockets of `socks` a timer pass sends a segment for.
pub open spec fn resend_count(socks: Seq<Socket>, now: u64, i: int) -> int
    decreases i,
{
    if i <= 0 {
        0
    } else {
        resend_count(socks, now, i - 1) + if resends(socks[i - 1], now) { 1int } else { 0int }
    }
}

pub proof fn lemma_resend_count_monotone(socks: Seq<Socket>, now: u64, j: int, i: int)
    requires
        0 <= j <= i,
    ensures
        resend_count(socks, now, j) <= resend_count(socks, now, i),
    decreases i - j,
{
    if j < i {
        lemma_resend_count_monotone(socks, now, j, i - 1);
    }
}

/// What one timer pass does to a socket: see `Socket::scan_retransmissions`.
pub open spec fn scanned(s0: Socket, s1: Socket, now: u64) -> bool {
    let q = s0.retransmission_queue@;
    let una = s0.send_param.unacked_seq;
    let k = dropped_count(q, una, now) as int;
    let rest = q.subrange(k, q.len() as int);
    let q1 = s1.retransmission_queue@;
    &&& s1.send_param == (SendParam { window: scan_window(s0.send_param.window, q, k, una), ..s0.send_param })
    &&& s1.same_identity(&s0)
    &&& s1.recv_param == s0.recv_param
    &&& s1.status == s0.status
    &&& s1.recv_buffer@ == s0.recv_buffer@
    &&& rest.len() == 0 || !timed_out(rest[0], now) ==> q1 == rest
    &&& rest.len() > 0 && timed_out(rest[0], now) ==> {
        &&& q1.len() == rest.len()
        &&& q1.subrange(0, q1.len() - 1) == rest.drop_first()
        &&& q1.last().segment.same(&rest[0].segment)
        &&& q1.last().transmission_count == rest[0].transmission_count + 1
        &&& q1.last().latest_transmission_time == now
    }
}

impl Socket {
    /// One timer pass over the retransmission queue: drops acknowledged and
    /// exhausted entries from the head, then leaves a head that has not
    /// timed out in place, or sends it again and moves it to the tail.
    pub fn scan_retransmissions(&mut self, out: &mut Vec<Outgoing>, event: &mut Option<TCPEvent>, now: u64)
        ensures
            ({
                let q = old(self).retransmission_queue@;
                let una = old(self).send_param.unacked_seq;
                let k = dropped_count(q, una, now) as int;
                let rest = q.subrange(k, q.len() as int);
                let q1 = final(self).retransmission_queue@;
                &&& final(self).send_param.window == scan_window(old(self).send_param.window, q, k, una)
                &&& *final(event) == scan_event(*old(event), *old(self), q, k)
                &&& rest.len() == 0 || !timed_out(rest[0], now) ==> q1 == rest && final(out)@ == old(out)@
                &&& rest.len() > 0 && timed_out(rest[0], now) ==> {
                    &&& q1.len() == rest.len()
                    &&& q1.subrange(0, q1.len() - 1) == rest.drop_first()
                    &&& q1.last().segment.same(&rest[0].segment)
                    &&& q1.last().transmission_count == rest[0].transmission_count + 1
                    &&& q1.last().latest_transmission_time == now
                    &&& final(out)@.len() == old(out)@.len() + 1
                    &&& final(out)@.subrange(0, old(out)@.len() as int) == old(out)@
                    &&& final(out)@.last().segment.same(&rest[0].segment)
                    &&& final(out)@.last().src_addr == old(self).local_addr
                    &&& final(out)@.last().dst_addr == old(self).remote_addr
                }
            }),
            scanned(*old(self), *final(self), now),
            final(self).same_identity(old(self)),
            final(self).send_param.unacked_seq == old(self).send_param.unacked_seq,
            final(self).send_param.next == old(self).send_param.next,
            final(self).send_param.initial_seq == old(self).send_param.initial_seq,
            final(self).recv_param == old(self).recv_param,
            final(self).status == old(self).status,
            final(self).recv_buffer@ == old(self).recv_buffer@,
    {
        let ghost q0 = self.retransmission_queue@;
        let ghost w0 = self.send_param.window;
        let ghost ev0 = *event;
        let ghost s0 = *self;
        let ghost una = self.send_param.unacked_seq;
        let ghost mut k: int = 0;
        proof {
            lemma_dropped_count(q0, una, now);
        }
        let mut stop = false;
        while !stop && self.retransmission_queue.len() > 0
            invariant
                0 <= k <= dropped_count(q0, una, now) <= q0.len(),
                dropped_count(q0.subrange(k, q0.len() as int), una, now) == dropped_count(q0, una, now) - k,
                !stop ==> self.retransmission_queue@ == q0.subrange(k, q0.len() as int) && out@ == old(out)@,
                stop ==> ({
                    let rest = q0.subrange(k, q0.len() as int);
                    let q1 = self.retransmission_queue@;
                    &&& rest.len() > 0
                    &&& k == dropped_count(q0, una, now)
                    &&& !timed_out(rest[0], now) ==> q1 == rest && out@ == old(out)@
                    &&& timed_out(rest[0], now) ==> {
                        &&& q1.len() == rest.len()
                        &&& q1.subrange(0, q1.len() - 1) == rest.drop_first()
                        &&& q1.last().segment.same(&rest[0].segment)
                        &&& q1.last().transmission_count == rest[0].transmission_count + 1
                        &&& q1.last().latest_transmission_time == now
                        &&& out@.len() == old(out)@.len() + 1
                        &&& out@.subrange(0, old(out)@.len() as int) == old(out)@
                        &&& out@.last().segment.same(&rest[0].segment)
                        &&& out@.last().src_addr == s0.local_addr
                        &&& out@.last().dst_addr == s0.remote_addr
                    }
                }),
                self.send_param.window == scan_window(w0, q0, k, una),
                *event == scan_event(ev0, s0, q0, k),
                self.send_param.unacked_seq == una,
                una == s0.send_param.unacked_seq,
                self.send_param.next == s0.send_param.next,
                self.send_param.initial_seq == s0.send_param.initial_seq,
                self.same_identity(&s0),
                self.recv_param == s0.recv_param,
                self.status == s0.status,
                self.recv_buffer@ == s0.recv_buffer@,
            decreases (if stop { 0int } else { 1int }), q0.len() - k,
        {
            let ghost rest = self.retransmission_queue@;
            assert(rest.drop_first() == q0.subrange(k + 1, q0.len() as int));
            assert(rest[0] == q0[k]);
            let mut entry = match self.retransmission_queue.pop_front() {
                Some(e) => e,
                None => {
                    return;
                },
            };
            let fin = entry.segment.flags & FIN != 0;
            if seq_lt(entry.segment.seq, self.send_param.unacked_seq) {
                let n = entry.segment.payload.len();
                let w = self.send_param.window;
                if n >= 0xffff || w as usize + n > 0xffff {
                    self.send_param.window = 0xffff;
                } else {
                    self.send_param.window = (w as usize + n) as u16;
                }
                if fin && self.status == TcpStatus::LastAck {
                    *event = Some(TCPEvent::new(self.get_sock_id(), TCPEventKind::ConnectionClosed));
                } else {
                    *event = Some(TCPEvent::new(self.get_sock_id(), TCPEventKind::Acked));
                }
                proof { k = k + 1; }
            } else {
                let waited: u64 = if now >= entry.latest_transmission_time { now - entry.latest_transmission_time } else { 0 };
                if waited < RETRANSMISSION_TIMEOUT_MS {
                    self.retransmission_queue.push_front(entry);
                    proof {
                        assert(self.retransmission_queue@ =~= rest);
                    }
                    stop = true;
                } else if entry.transmission_count < MAX_TRANSMISSION {
                    let copy = entry.segment.duplicate();
                    out.push(Outgoing { src_addr: self.local_addr, dst_addr: self.remote_addr, segment: copy });
                    entry.transmission_count = entry.transmission_count + 1;
                    entry.latest_transmission_time = now;
                    self.retransmission_queue.push_back(entry);
                    proof {
                        assert(self.retransmission_queue@.subrange(0, self.retransmission_queue@.len() - 1) =~= rest.drop_first());
                        assert(out@.subrange(0, old(out)@.len() as int) =~= old(out)@);
                    }
                    stop = true;
                } else {
                    if fin && (self.status == TcpStatus::LastAck || self.status == TcpStatus::FinWait1
                        || self.status == TcpStatus::FinWait2) {
                        *event = Some(TCPEvent::new(self.get_sock_id(), TCPEventKind::ConnectionClosed));
                    }
                    proof { k = k + 1; }
                }
            }
        }
        proof {
            if !stop {
                assert(q0.subrange(k, q0.len() as int).len() == 0);
            }
        }
    }
}

} // verus!
