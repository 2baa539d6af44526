use toytcp::segment::{Outgoing, Segment, ACK, FIN, SYN};
use toytcp::socket::{SockID, TCPEventKind, TcpStatus};
use toytcp::tcp::{CloseOutcome, TCP};

const CLIENT_IP: u32 = 0x0a00_0001;
const SERVER_IP: u32 = 0x0a00_0002;
const SERVER_PORT: u16 = 80;
const CLIENT_PORT: u16 = 40001;

/// Delivers each outgoing segment to `to`, as the wire would.
fn deliver(to: &mut TCP, segs: Vec<Outgoing>, iss: u32, now: u64) {
    for o in segs {
        to.segment_arrives_with(o.dst_addr, o.src_addr, &o.segment, iss, now);
    }
}

fn socket_of<'a>(t: &'a TCP, id: SockID) -> &'a toytcp::socket::Socket {
    let i = t.find(id).expect("socket registered");
    &t.sockets[i]
}

fn seg(src_port: u16, dst_port: u16, seq: u32, ack: u32, flags: u8, window: u16, payload: &[u8]) -> Segment {
    Segment { src_port, dst_port, seq, ack, flags, window, payload: payload.to_vec() }
}

/// Runs the three-way handshake with client ISS 1000 and server ISS 2000.
fn handshake() -> (TCP, TCP, SockID, SockID, SockID) {
    let mut server = TCP::new();
    let mut client = TCP::new();
    let lid = server.listen(SERVER_IP, SERVER_PORT);
    let cid = client.connect_with(CLIENT_IP, SERVER_IP, SERVER_PORT, CLIENT_PORT, 1000, 0);
    let syn = client.take_outgoing();
    assert_eq!(syn.len(), 1);
    assert_eq!(syn[0].segment.seq, 1000);
    assert_eq!(syn[0].segment.flags, SYN);
    deliver(&mut server, syn, 2000, 0);
    let synack = server.take_outgoing();
    assert_eq!(synack.len(), 1);
    assert_eq!(synack[0].segment.flags, SYN | ACK);
    assert_eq!(synack[0].segment.seq, 2000);
    assert_eq!(synack[0].segment.ack, 1001);
    deliver(&mut client, synack, 0, 0);
    assert!(client.take_event(cid, TCPEventKind::ConnectionCompleted));
    let ack = client.take_outgoing();
    assert_eq!(ack.len(), 1);
    assert_eq!(ack[0].segment.flags, ACK);
    assert_eq!(ack[0].segment.seq, 1001);
    assert_eq!(ack[0].segment.ack, 2001);
    deliver(&mut server, ack, 0, 0);
    assert!(server.take_event(lid, TCPEventKind::ConnectionCompleted));
    let child = server.accept(lid).unwrap();
    (client, server, cid, lid, child)
}

#[test]
fn three_way_handshake() {
    let (client, server, cid, _lid, child) = handshake();
    assert_eq!(child, SockID(SERVER_IP, CLIENT_IP, SERVER_PORT, CLIENT_PORT));
    assert_eq!(socket_of(&client, cid).status, TcpStatus::Established);
    assert_eq!(socket_of(&server, child).status, TcpStatus::Established);
    assert_eq!(socket_of(&client, cid).recv_param.initial_seq, 2000);
    assert_eq!(socket_of(&server, child).recv_param.initial_seq, 1000);
}

#[test]
fn echo_five_bytes() {
    let (mut client, mut server, cid, _lid, child) = handshake();
    assert_eq!(client.send(cid, b"HELLO", 10), Ok(5));
    let data = client.take_outgoing();
    assert_eq!(data.len(), 1);
    assert_eq!(data[0].segment.seq, 1001);
    assert_eq!(data[0].segment.payload, b"HELLO".to_vec());
    deliver(&mut server, data, 0, 10);
    assert!(server.take_event(child, TCPEventKind::DataArrived));
    let ack = server.take_outgoing();
    assert_eq!(ack.len(), 1);
    assert_eq!(ack[0].segment.ack, 1006);
    assert_eq!(server.recv(child, 5), Ok(Some(b"HELLO".to_vec())));
}

#[test]
fn retransmission_after_timeout() {
    let (mut client, mut server, cid, _lid, child) = handshake();
    assert_eq!(client.send(cid, b"HELLO", 0), Ok(5));
    let lost = client.take_outgoing();
    assert_eq!(lost.len(), 1);
    client.timer(2999);
    assert_eq!(client.take_outgoing().len(), 0);
    client.timer(3000);
    let again = client.take_outgoing();
    assert_eq!(again.len(), 1);
    assert_eq!(again[0].segment.seq, 1001);
    assert_eq!(again[0].segment.payload, b"HELLO".to_vec());
    let s = socket_of(&client, cid);
    assert_eq!(s.retransmission_queue.len(), 1);
    assert_eq!(s.retransmission_queue[0].transmission_count, 1);
    deliver(&mut server, again, 0, 3000);
    let ack = server.take_outgoing();
    assert_eq!(ack[0].segment.ack, 1006);
    deliver(&mut client, ack, 0, 3001);
    let s = socket_of(&client, cid);
    assert_eq!(s.retransmission_queue.len(), 0);
    assert_eq!(s.send_param.window, 4380);
    assert_eq!(server.recv(child, 16), Ok(Some(b"HELLO".to_vec())));
}

#[test]
fn window_backpressure() {
    let mut client = TCP::new();
    let cid = client.connect_with(CLIENT_IP, SERVER_IP, SERVER_PORT, CLIENT_PORT, 1000, 0);
    client.take_outgoing();
    let synack = seg(SERVER_PORT, CLIENT_PORT, 2000, 1001, SYN | ACK, 4, &[]);
    client.segment_arrives_with(CLIENT_IP, SERVER_IP, &synack, 0, 0);
    client.take_outgoing();
    assert_eq!(client.send(cid, b"ABCDEF", 1), Ok(4));
    let first = client.take_outgoing();
    assert_eq!(first.len(), 1);
    assert_eq!(first[0].segment.payload, b"ABCD".to_vec());
    assert_eq!(client.send(cid, b"EF", 1), Ok(0));
    assert_eq!(client.take_outgoing().len(), 0);
    let ack = seg(SERVER_PORT, CLIENT_PORT, 2001, 1005, ACK, 4, &[]);
    client.segment_arrives_with(CLIENT_IP, SERVER_IP, &ack, 0, 2);
    assert!(client.take_event(cid, TCPEventKind::Acked));
    assert_eq!(socket_of(&client, cid).send_param.unacked_seq, 1005);
    assert_eq!(socket_of(&client, cid).send_param.window, 4);
    assert_eq!(client.send(cid, b"EF", 3), Ok(2));
    let second = client.take_outgoing();
    assert_eq!(second[0].segment.seq, 1005);
    assert_eq!(second[0].segment.payload, b"EF".to_vec());
}

#[test]
fn passive_close() {
    let (mut client, _server, cid, _lid, _child) = handshake();
    let fin = seg(SERVER_PORT, CLIENT_PORT, 2001, 1001, FIN | ACK, 4380, &[]);
    client.segment_arrives_with(CLIENT_IP, SERVER_IP, &fin, 0, 5);
    assert_eq!(socket_of(&client, cid).status, TcpStatus::CloseWait);
    assert!(client.take_event(cid, TCPEventKind::DataArrived));
    let ack = client.take_outgoing();
    assert_eq!(ack.len(), 1);
    assert_eq!(ack[0].segment.ack, 2002);
    assert_eq!(client.recv(cid, 8), Ok(Some(Vec::new())));
    assert_eq!(client.close(cid, 6), Ok(CloseOutcome::AwaitClosed));
    let our_fin = client.take_outgoing();
    assert_eq!(our_fin[0].segment.flags, FIN | ACK);
    assert_eq!(socket_of(&client, cid).status, TcpStatus::LastAck);
    let last = seg(SERVER_PORT, CLIENT_PORT, 2002, 1002, ACK, 4380, &[]);
    client.segment_arrives_with(CLIENT_IP, SERVER_IP, &last, 0, 7);
    client.timer(8);
    assert!(client.take_event(cid, TCPEventKind::ConnectionClosed));
    assert!(client.remove(cid));
    assert_eq!(client.find(cid), None);
}

#[test]
fn active_close_with_simultaneous_data() {
    let (mut client, _server, cid, _lid, _child) = handshake();
    assert_eq!(client.close(cid, 5), Ok(CloseOutcome::AwaitClosed));
    let fin = client.take_outgoing();
    assert_eq!(fin[0].segment.flags, FIN | ACK);
    assert_eq!(fin[0].segment.ack, 2001);
    assert_eq!(socket_of(&client, cid).status, TcpStatus::FinWait1);
    let ack = seg(SERVER_PORT, CLIENT_PORT, 2001, 1002, ACK, 4380, &[]);
    client.segment_arrives_with(CLIENT_IP, SERVER_IP, &ack, 0, 6);
    assert_eq!(socket_of(&client, cid).status, TcpStatus::FinWait2);
    let peer_fin = seg(SERVER_PORT, CLIENT_PORT, 2001, 1002, FIN | ACK, 4380, &[]);
    client.segment_arrives_with(CLIENT_IP, SERVER_IP, &peer_fin, 0, 7);
    let last = client.take_outgoing();
    assert_eq!(last.len(), 1);
    assert_eq!(last[0].segment.flags, ACK);
    assert_eq!(last[0].segment.ack, 2002);
    assert!(client.take_event(cid, TCPEventKind::ConnectionClosed));
}
