use toytcp::codec::{decode, encode};
use toytcp::segment::{Segment, ACK, PSH, SYN};
use toytcp::tcp::TCP;

const SRC: u32 = 0xc0a8_0001;
const DST: u32 = 0xc0a8_0002;

fn sample() -> Segment {
    Segment {
        src_port: 0x1234,
        dst_port: 80,
        seq: 0x0102_0304,
        ack: 0xa0b0_c0d0,
        flags: ACK | PSH,
        window: 4380,
        payload: b"hello".to_vec(),
    }
}

fn pseudo(src: u32, dst: u32, len: u16) -> Vec<u8> {
    let mut v = Vec::new();
    v.extend_from_slice(&src.to_be_bytes());
    v.extend_from_slice(&dst.to_be_bytes());
    v.push(0);
    v.push(6);
    v.extend_from_slice(&len.to_be_bytes());
    v
}

#[test]
fn encode_lays_out_header_big_endian() {
    let b = encode(&sample(), SRC, DST);
    assert_eq!(b.len(), 25);
    assert_eq!(&b[0..4], &[0x12, 0x34, 0x00, 80]);
    assert_eq!(&b[4..12], &[1, 2, 3, 4, 0xa0, 0xb0, 0xc0, 0xd0]);
    assert_eq!(b[12], 0x50);
    assert_eq!(b[13], ACK | PSH);
    assert_eq!(&b[14..16], &4380u16.to_be_bytes());
    assert_eq!(&b[18..20], &[0, 0]);
    assert_eq!(&b[20..], b"hello");
}

#[test]
fn encoded_checksum_sums_to_zero() {
    let b = encode(&sample(), SRC, DST);
    assert_ne!(u16::from_be_bytes([b[16], b[17]]), 0);
    let mut all = pseudo(SRC, DST, b.len() as u16);
    all.extend_from_slice(&b);
    assert_eq!(pnet::packet::util::checksum(&all, usize::MAX), 0);
}

#[test]
fn decode_reads_back_encoded_segment() {
    let s = sample();
    let b = encode(&s, SRC, DST);
    let d = decode(&b, SRC, DST).unwrap();
    assert_eq!(d.src_port, s.src_port);
    assert_eq!(d.dst_port, s.dst_port);
    assert_eq!(d.seq, s.seq);
    assert_eq!(d.ack, s.ack);
    assert_eq!(d.flags, s.flags);
    assert_eq!(d.window, s.window);
    assert_eq!(d.payload, s.payload);
}

#[test]
fn decode_rejects_wrong_checksum_or_addresses() {
    let mut b = encode(&sample(), SRC, DST);
    assert!(decode(&b, SRC + 1, DST).is_none());
    b[21] ^= 1;
    assert!(decode(&b, SRC, DST).is_none());
}

#[test]
fn decode_rejects_short_or_malformed_header() {
    let b = encode(&sample(), SRC, DST);
    assert!(decode(&b[..19], SRC, DST).is_none());
    let mut bad = b.clone();
    bad[12] = 0x40;
    assert!(decode(&bad, SRC, DST).is_none());
    let mut long = b.clone();
    long[12] = 0xf0;
    assert!(decode(&long, SRC, DST).is_none());
}

#[test]
fn packet_arrives_forks_child_on_syn() {
    let mut t = TCP::new();
    t.listen(DST, 80);
    let syn = Segment { src_port: 5000, dst_port: 80, seq: 9, ack: 0, flags: SYN, window: 100, payload: Vec::new() };
    let bytes = encode(&syn, SRC, DST);
    let mut corrupt = bytes.clone();
    corrupt[4] ^= 0x80;
    t.packet_arrives(DST, SRC, &corrupt, 0);
    assert_eq!(t.sockets.len(), 1);
    t.packet_arrives(DST, SRC, &bytes, 0);
    assert_eq!(t.sockets.len(), 2);
    let out = t.take_outgoing();
    assert_eq!(out[0].segment.ack, 10);
}
