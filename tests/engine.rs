use toytcp::segment::{Segment, ACK, FIN, SYN};
use toytcp::seqnum::{seq_le, seq_lt};
use toytcp::socket::{SockID, Socket, TCPEvent, TCPEventKind, TcpStatus};
use toytcp::tcp::{CloseOutcome, TcpError, TCP};

const A: u32 = 0x7f00_0001;
const B: u32 = 0x7f00_0002;

fn seg(src_port: u16, dst_port: u16, seq: u32, ack: u32, flags: u8, window: u16, payload: &[u8]) -> Segment {
    Segment { src_port, dst_port, seq, ack, flags, window, payload: payload.to_vec() }
}

fn established(iss: u32, peer_iss: u32) -> (TCP, SockID) {
    let mut t = TCP::new();
    let id = t.connect_with(A, B, 80, 41000, iss, 0);
    let synack = seg(80, 41000, peer_iss, iss.wrapping_add(1), SYN | ACK, 4380, &[]);
    t.segment_arrives_with(A, B, &synack, 0, 0);
    t.take_outgoing();
    (t, id)
}

#[test]
fn sequence_order_wraps() {
    assert!(seq_lt(0xffff_fff0, 5));
    assert!(!seq_lt(5, 0xffff_fff0));
    assert!(seq_le(7, 7));
    assert!(!seq_lt(7, 7));
    assert!(seq_lt(1, 0x8000_0000));
    assert!(!seq_lt(0, 0x8000_0000));
}

#[test]
fn event_new_keeps_fields() {
    let id = SockID(A, B, 1, 2);
    let e = TCPEvent::new(id, TCPEventKind::Acked);
    assert_eq!(e.sock_id, id);
    assert_eq!(e.kind, TCPEventKind::Acked);
}

#[test]
fn listen_registers_wildcard_socket() {
    let mut t = TCP::new();
    let id = t.listen(A, 8080);
    assert_eq!(id, SockID(A, 0, 8080, 0));
    let i = t.find(id).unwrap();
    assert_eq!(t.sockets[i].status, TcpStatus::Listen);
    assert_eq!(t.sockets[i].send_param.unacked_seq, 0);
    assert_eq!(t.sockets[i].send_param.next, 0);
}

#[test]
fn listen_twice_keeps_one_socket() {
    let mut t = TCP::new();
    t.listen(A, 8080);
    t.listen(A, 8080);
    assert_eq!(t.sockets.len(), 1);
}

#[test]
fn accept_errors() {
    let mut t = TCP::new();
    assert_eq!(t.accept(SockID(A, 0, 1, 0)), Err(TcpError::NoSuchSocket));
    let id = t.listen(A, 1);
    assert_eq!(t.accept(id), Err(TcpError::AcceptEmptyQueue));
}

#[test]
fn unknown_socket_errors() {
    let mut t = TCP::new();
    let id = SockID(A, B, 1, 2);
    assert_eq!(t.send(id, b"x", 0), Err(TcpError::NoSuchSocket));
    assert_eq!(t.recv(id, 4), Err(TcpError::NoSuchSocket));
    assert_eq!(t.close(id, 0), Err(TcpError::NoSuchSocket));
    assert!(!t.remove(id));
}

#[test]
fn recv_waits_while_nothing_arrived() {
    let (mut t, id) = established(10, 500);
    assert_eq!(t.recv(id, 4), Ok(None));
}

#[test]
fn recv_takes_part_and_keeps_rest() {
    let (mut t, id) = established(10, 500);
    let data = seg(80, 41000, 501, 11, ACK, 4380, b"abcdef");
    t.segment_arrives_with(A, B, &data, 0, 1);
    assert_eq!(t.recv(id, 4), Ok(Some(b"abcd".to_vec())));
    assert_eq!(t.recv(id, 4), Ok(Some(b"ef".to_vec())));
    let i = t.find(id).unwrap();
    assert_eq!(t.sockets[i].recv_param.window, 4380);
}

#[test]
fn out_of_order_segment_waits_for_gap() {
    let (mut t, id) = established(10, 500);
    let later = seg(80, 41000, 504, 11, ACK, 4380, b"def");
    t.segment_arrives_with(A, B, &later, 0, 1);
    let i = t.find(id).unwrap();
    assert_eq!(t.sockets[i].recv_param.next, 501);
    assert_eq!(t.recv(id, 8), Ok(None));
    let first = seg(80, 41000, 501, 11, ACK, 4380, b"abc");
    t.segment_arrives_with(A, B, &first, 0, 2);
    let i = t.find(id).unwrap();
    assert_eq!(t.sockets[i].recv_param.next, 507);
    assert_eq!(t.recv(id, 8), Ok(Some(b"abcdef".to_vec())));
}

#[test]
fn segment_without_ack_flag_is_ignored() {
    let (mut t, id) = established(10, 500);
    let bare = seg(80, 41000, 501, 11, 0, 4380, b"zz");
    t.segment_arrives_with(A, B, &bare, 0, 1);
    assert_eq!(t.recv(id, 8), Ok(None));
}

#[test]
fn ack_beyond_sent_is_dropped() {
    let (mut t, id) = established(10, 500);
    let bad = seg(80, 41000, 501, 999, ACK, 4380, b"zz");
    t.segment_arrives_with(A, B, &bad, 0, 1);
    assert_eq!(t.recv(id, 8), Ok(None));
    let i = t.find(id).unwrap();
    assert_eq!(t.sockets[i].send_param.unacked_seq, 11);
}

#[test]
fn segment_for_no_socket_is_dropped() {
    let mut t = TCP::new();
    t.listen(A, 80);
    let s = seg(5, 81, 1, 0, SYN, 100, &[]);
    t.segment_arrives_with(A, B, &s, 7, 0);
    assert_eq!(t.sockets.len(), 1);
    assert_eq!(t.take_outgoing().len(), 0);
}

#[test]
fn ack_to_listening_socket_is_ignored() {
    let mut t = TCP::new();
    t.listen(A, 80);
    let s = seg(5, 80, 1, 0, ACK, 100, &[]);
    t.segment_arrives_with(A, B, &s, 7, 0);
    assert_eq!(t.sockets.len(), 1);
}

#[test]
fn simultaneous_open_goes_to_syn_rcvd() {
    let mut t = TCP::new();
    let id = t.connect_with(A, B, 80, 41000, 10, 0);
    let syn_ack_of_nothing = seg(80, 41000, 500, 10, SYN | ACK, 4380, &[]);
    t.segment_arrives_with(A, B, &syn_ack_of_nothing, 0, 0);
    let i = t.find(id).unwrap();
    assert_eq!(t.sockets[i].status, TcpStatus::SynRcvd);
    assert!(!t.take_event(id, TCPEventKind::ConnectionCompleted));
}

#[test]
fn syn_rcvd_takes_peer_sequence_as_is() {
    let mut t = TCP::new();
    let lid = t.listen(A, 80);
    let syn = seg(41000, 80, 700, 0, SYN, 1000, &[]);
    t.segment_arrives_with(A, B, &syn, 3000, 0);
    let child = SockID(A, B, 80, 41000);
    let ack = seg(41000, 80, 701, 3001, ACK, 1000, &[]);
    t.segment_arrives_with(A, B, &ack, 0, 0);
    let i = t.find(child).unwrap();
    assert_eq!(t.sockets[i].recv_param.next, 701);
    assert_eq!(t.sockets[i].send_param.window, 1000);
    assert_eq!(t.sockets[i].listening_socket, Some(lid));
    assert!(t.take_event(lid, TCPEventKind::ConnectionCompleted));
    assert_eq!(t.accept(lid), Ok(child));
}

#[test]
fn close_listening_socket_removes_it() {
    let mut t = TCP::new();
    let id = t.listen(A, 80);
    assert_eq!(t.close(id, 0), Ok(CloseOutcome::Done));
    assert_eq!(t.find(id), None);
}

#[test]
fn take_event_needs_matching_socket_and_kind() {
    let mut t = TCP::new();
    let id = SockID(A, B, 1, 2);
    t.publish_event(id, TCPEventKind::Acked);
    assert!(!t.take_event(id, TCPEventKind::DataArrived));
    assert!(!t.take_event(SockID(A, B, 1, 3), TCPEventKind::Acked));
    assert!(t.take_event(id, TCPEventKind::Acked));
    assert!(!t.take_event(id, TCPEventKind::Acked));
}

#[test]
fn send_splits_at_mss() {
    let mut t = TCP::new();
    let id = t.connect_with(A, B, 80, 41000, 10, 0);
    let synack = seg(80, 41000, 500, 11, SYN | ACK, 60000, &[]);
    t.segment_arrives_with(A, B, &synack, 0, 0);
    t.take_outgoing();
    let data = vec![7u8; 2000];
    assert_eq!(t.send(id, &data, 1), Ok(1460));
    assert_eq!(t.send(id, &data[1460..], 1), Ok(540));
    let out = t.take_outgoing();
    assert_eq!(out[0].segment.seq, 11);
    assert_eq!(out[1].segment.seq, 1471);
    let i = t.find(id).unwrap();
    assert_eq!(t.sockets[i].send_param.next, 2011);
    assert_eq!(t.sockets[i].send_param.window, 58000);
}

#[test]
fn retransmission_gives_up_after_five() {
    let (mut t, id) = established(10, 500);
    assert_eq!(t.close(id, 0), Ok(CloseOutcome::AwaitClosed));
    t.take_outgoing();
    let mut now = 0u64;
    for _ in 0..5 {
        now += 3000;
        t.timer(now);
        assert_eq!(t.take_outgoing().len(), 1);
    }
    now += 3000;
    t.timer(now);
    assert_eq!(t.take_outgoing().len(), 0);
    assert!(t.take_event(id, TCPEventKind::ConnectionClosed));
    let i = t.find(id).unwrap();
    assert_eq!(t.sockets[i].retransmission_queue.len(), 0);
}

#[test]
fn connect_draws_port_and_iss_in_range() {
    let mut t = TCP::new();
    for k in 0..20u16 {
        let id = t.connect(A, B, 1000 + k, 0).unwrap();
        assert!(id.2 >= 40000 && id.2 < 60000);
        let i = t.find(id).unwrap();
        let iss = t.sockets[i].send_param.initial_seq;
        assert!(iss >= 1 && iss < 0x8000_0000);
        assert_eq!(t.sockets[i].send_param.next, iss + 1);
    }
    let ports: std::collections::HashSet<u16> = t.sockets.iter().map(|s| s.local_port).collect();
    assert_eq!(ports.len(), 20);
}

#[test]
fn select_unused_port_avoids_taken_ports() {
    let mut t = TCP::new();
    t.connect_with(A, B, 80, 45000, 1, 0);
    for _ in 0..50 {
        let p = t.select_unused_port().unwrap();
        assert!(p >= 40000 && p < 60000);
        assert_ne!(p, 45000);
    }
}

#[test]
fn syn_to_listener_with_random_iss() {
    let mut t = TCP::new();
    t.listen(A, 80);
    let syn = seg(41000, 80, 700, 0, SYN, 1000, &[]);
    t.segment_arrives(A, B, &syn, 0);
    let out = t.take_outgoing();
    assert_eq!(out.len(), 1);
    assert!(out[0].segment.seq >= 1 && out[0].segment.seq < 0x8000_0000);
    assert_eq!(out[0].segment.ack, 701);
}

#[test]
fn new_socket_defaults() {
    let s = Socket::new(A, B, 1, 2, TcpStatus::SynSent);
    assert_eq!(s.get_sock_id(), SockID(A, B, 1, 2));
    assert_eq!(s.recv_buffer.len(), 4380);
    assert_eq!(s.recv_param.window, 4380);
    assert_eq!(s.send_param.window, 4380);
}

#[test]
fn accept_refuses_socket_that_is_not_listening() {
    let (mut t, id) = established(10, 500);
    assert_eq!(t.accept(id), Err(TcpError::NotListening));
}

#[test]
fn fin_with_payload_steps_past_data_and_fin() {
    let (mut t, id) = established(10, 500);
    let fin = seg(80, 41000, 501, 11, ACK | FIN, 4380, b"bye");
    t.segment_arrives_with(A, B, &fin, 0, 1);
    let i = t.find(id).unwrap();
    assert_eq!(t.sockets[i].status, TcpStatus::CloseWait);
    assert_eq!(t.sockets[i].recv_param.next, 505);
    let out = t.take_outgoing();
    assert_eq!(out.last().unwrap().segment.ack, 505);
    assert_eq!(t.recv(id, 8), Ok(Some(b"bye".to_vec())));
}

#[test]
fn close_wait_ignores_ack_beyond_sent() {
    let (mut t, id) = established(10, 500);
    let fin = seg(80, 41000, 501, 11, ACK | FIN, 4380, &[]);
    t.segment_arrives_with(A, B, &fin, 0, 1);
    let bad = seg(80, 41000, 502, 5000, ACK, 4380, &[]);
    t.segment_arrives_with(A, B, &bad, 0, 2);
    let i = t.find(id).unwrap();
    assert_eq!(t.sockets[i].send_param.unacked_seq, 11);
    assert_eq!(t.close(id, 3), Ok(CloseOutcome::AwaitClosed));
    let good = seg(80, 41000, 502, 12, ACK, 4380, &[]);
    t.segment_arrives_with(A, B, &good, 0, 4);
    let i = t.find(id).unwrap();
    assert_eq!(t.sockets[i].send_param.unacked_seq, 12);
}

#[test]
fn bare_ack_is_not_kept_for_retransmission() {
    let (t, id) = established(10, 500);
    let i = t.find(id).unwrap();
    assert_eq!(t.sockets[i].retransmission_queue.len(), 1);
    assert_eq!(t.sockets[i].retransmission_queue[0].segment.flags, SYN);
}

#[test]
fn timer_resends_only_timed_out_heads() {
    let (mut t, id) = established(10, 500);
    let mut u = TCP::new();
    let other = u.connect_with(A, B, 81, 41001, 70, 0);
    assert_eq!(t.send(id, b"x", 2000), Ok(1));
    t.take_outgoing();
    t.timer(4000);
    assert_eq!(t.take_outgoing().len(), 0);
    t.timer(5000);
    let out = t.take_outgoing();
    assert_eq!(out.len(), 1);
    assert_eq!(out[0].segment.payload, b"x".to_vec());
    assert_eq!(out[0].dst_addr, B);
    u.take_outgoing();
    u.timer(3000);
    let again = u.take_outgoing();
    assert_eq!(again.len(), 1);
    assert_eq!(again[0].segment.flags, SYN);
    assert_eq!(again[0].segment.seq, 70);
    let j = u.find(other).unwrap();
    assert_eq!(u.sockets[j].retransmission_queue[0].transmission_count, 1);
}

fn exchange_from_peer_iss(peer_iss: u32) {
    let (mut t, id) = established(10, peer_iss);
    let first = seg(80, 41000, peer_iss.wrapping_add(1), 11, ACK, 4380, b"HELLO");
    t.segment_arrives_with(A, B, &first, 0, 1);
    let ack = t.take_outgoing();
    assert_eq!(ack.len(), 1);
    assert_eq!(ack[0].segment.ack, peer_iss.wrapping_add(6));
    let second = seg(80, 41000, peer_iss.wrapping_add(6), 11, ACK | FIN, 4380, b"!");
    t.segment_arrives_with(A, B, &second, 0, 2);
    let i = t.find(id).unwrap();
    assert_eq!(t.sockets[i].recv_param.next, peer_iss.wrapping_add(8));
    assert_eq!(t.recv(id, 16), Ok(Some(b"HELLO!".to_vec())));
}

#[test]
fn delivery_from_peer_iss_just_below_half_space() {
    exchange_from_peer_iss(0x7fff_ffff);
}

#[test]
fn delivery_from_peer_iss_across_wrap() {
    exchange_from_peer_iss(0xffff_fffc);
}

#[test]
fn passive_open_from_high_peer_iss() {
    let mut t = TCP::new();
    let lid = t.listen(A, 80);
    let syn = seg(41000, 80, 0x9000_0000, 0, SYN, 1000, &[]);
    t.segment_arrives_with(A, B, &syn, 3000, 0);
    let ack = seg(41000, 80, 0x9000_0001, 3001, ACK, 1000, &[]);
    t.segment_arrives_with(A, B, &ack, 0, 0);
    let child = t.accept(lid).unwrap();
    let data = seg(41000, 80, 0x9000_0001, 3001, ACK, 1000, b"abc");
    t.segment_arrives_with(A, B, &data, 0, 1);
    assert_eq!(t.recv(child, 8), Ok(Some(b"abc".to_vec())));
}

#[test]
fn syn_naming_an_existing_socket_is_ignored() {
    let mut t = TCP::new();
    let lid = t.listen(A, 80);
    let syn = seg(0, 80, 700, 0, SYN, 1000, &[]);
    t.segment_arrives_with(A, 0, &syn, 3000, 0);
    assert_eq!(t.sockets.len(), 1);
    assert_eq!(t.take_outgoing().len(), 0);
    let i = t.find(lid).unwrap();
    assert_eq!(t.sockets[i].status, TcpStatus::Listen);
}
