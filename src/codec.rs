use vstd::prelude::*;
use crate::segment::Segment;

verus! {

/// Length of the header this codec writes: no options.
pub const HEADER_LEN: usize = 20;
/// IP protocol number of TCP, as the pseudo-header carries it.
pub const PROTOCOL_TCP: u8 = 6;
/// Index of the checksum's 16-bit word once the pseudo-header is in front.
pub const CHECKSUM_WORD: usize = 14;

/// The Internet checksum of `data`, the word at `skipword` counted as zero.
pub uninterp spec fn internet_checksum(data: Seq<u8>, skipword: usize) -> u16;

/// Relies on `pnet::packet::util::checksum`: the ones' complement of the
/// ones' complement sum of the big-endian 16-bit words of `data`. Its sum
/// is kept in a `u32`, which the bound on the length keeps from overflowing.
#[verifier::external_body]
fn checksum(data: &[u8], skipword: usize) -> (r: u16)
    requires
        data@.len() <= 0x2_0000,
    ensures
        r == internet_checksum(data@, skipword),
{
    pnet::packet::util::checksum(data, skipword)
}

pub open spec fn be16(x: u16) -> Seq<u8> {
    seq![(x / 256) as u8, (x % 256) as u8]
}

pub open spec fn be32(x: u32) -> Seq<u8> {
    seq![(x / 0x100_0000) as u8, (x / 0x1_0000 % 256) as u8, (x / 256 % 256) as u8, (x % 256) as u8]
}

pub open spec fn read16(b: Seq<u8>, i: int) -> u16 {
    (b[i] * 256 + b[i + 1]) as u16
}

pub open spec fn read32(b: Seq<u8>, i: int) -> u32 {
    (((b[i] * 256 + b[i + 1]) * 256 + b[i + 2]) * 256 + b[i + 3]) as u32
}

/// The IPv4 pseudo-header that the checksum covers.
pub open spec fn pseudo_header(src: u32, dst: u32, tcp_len: u16) -> Seq<u8> {
    be32(src) + be32(dst) + seq![0u8, PROTOCOL_TCP] + be16(tcp_len)
}

/// The 20-byte header of `seg` with the given checksum.
pub open spec fn header_bytes(seg: Segment, sum: u16) -> Seq<u8> {
    be16(seg.src_port) + be16(seg.dst_port) + be32(seg.seq) + be32(seg.ack) + seq![0x50u8, seg.flags]
        + be16(seg.window) + be16(sum) + be16(0)
}

/// The checksum of `seg` sent from `src` to `dst`.
pub open spec fn segment_checksum(seg: Segment, src: u32, dst: u32) -> u16 {
    let len = (HEADER_LEN + seg.payload@.len()) as u16;
    internet_checksum(pseudo_header(src, dst, len) + header_bytes(seg, 0) + seg.payload@, CHECKSUM_WORD)
}

/// The bytes of `seg` on the wire from `src` to `dst`.
pub open spec fn encoded(seg: Segment, src: u32, dst: u32) -> Seq<u8> {
    header_bytes(seg, segment_checksum(seg, src, dst)) + seg.payload@
}

/// Where the payload of the segment in `b` starts.
pub open spec fn data_offset(b: Seq<u8>) -> int {
    (b[12] / 16) * 4
}

/// `b` holds a whole TCP header, and fits a segment of one IPv4 packet.
pub open spec fn well_formed(b: Seq<u8>) -> bool {
    &&& HEADER_LEN <= b.len() <= 0xffff
    &&& HEADER_LEN <= data_offset(b) <= b.len()
}

/// `b` with its checksum field set to zero.
pub open spec fn without_checksum(b: Seq<u8>) -> Seq<u8> {
    b.subrange(0, 16) + seq![0u8, 0u8] + b.subrange(18, b.len() as int)
}

/// The checksum that `b` carries is the one of its contents from `src` to `dst`.
pub open spec fn checksum_ok(b: Seq<u8>, src: u32, dst: u32) -> bool {
    read16(b, 16) == internet_checksum(pseudo_header(src, dst, b.len() as u16) + without_checksum(b), CHECKSUM_WORD)
}

fn push16(v: &mut Vec<u8>, x: u16)
    ensures
        final(v)@ == old(v)@ + be16(x),
{
    v.push((x / 256) as u8);
    v.push((x % 256) as u8);
    assert(final(v)@ =~= old(v)@ + be16(x));
}

fn push32(v: &mut Vec<u8>, x: u32)
    ensures
        final(v)@ == old(v)@ + be32(x),
{
    v.push((x / 0x100_0000) as u8);
    v.push((x / 0x1_0000 % 256) as u8);
    v.push((x / 256 % 256) as u8);
    v.push((x % 256) as u8);
    assert(final(v)@ =~= old(v)@ + be32(x));
}

fn push_all(v: &mut Vec<u8>, b: &[u8])
    ensures
        final(v)@ == old(v)@ + b@,
{
    let mut i: usize = 0;
    while i < b.len()
        invariant
            i <= b@.len(),
            v@ == old(v)@ + b@.subrange(0, i as int),
        decreases b@.len() - i,
    {
        v.push(b[i]);
        i = i + 1;
        assert(v@ =~= old(v)@ + b@.subrange(0, i as int));
    }
    assert(b@.subrange(0, b@.len() as int) =~= b@);
}

fn pseudo(src: u32, dst: u32, tcp_len: u16) -> (r: Vec<u8>)
    ensures
        r@ == pseudo_header(src, dst, tcp_len),
{
    let mut r: Vec<u8> = Vec::new();
    push32(&mut r, src);
    push32(&mut r, dst);
    r.push(0);
    r.push(PROTOCOL_TCP);
    push16(&mut r, tcp_len);
    assert(r@ =~= pseudo_header(src, dst, tcp_len));
    r
}

fn header(seg: &Segment, sum: u16) -> (r: Vec<u8>)
    ensures
        r@ == header_bytes(*seg, sum),
{
    let mut r: Vec<u8> = Vec::new();
    push16(&mut r, seg.src_port);
    push16(&mut r, seg.dst_port);
    push32(&mut r, seg.seq);
    push32(&mut r, seg.ack);
    r.push(0x50);
    r.push(seg.flags);
    push16(&mut r, seg.window);
    push16(&mut r, sum);
    push16(&mut r, 0);
    assert(r@ =~= header_bytes(*seg, sum));
    r
}

/// The bytes of `seg` on the wire from `src` to `dst`: a 20-byte header
/// with its checksum over the pseudo-header, then the payload.
pub fn encode(seg: &Segment, src: u32, dst: u32) -> (r: Vec<u8>)
    requires
        seg.payload@.len() <= 0xffff - HEADER_LEN,
    ensures
        r@ == encoded(*seg, src, dst),
{
    let len = (HEADER_LEN + seg.payload.len()) as u16;
    let mut covered = pseudo(src, dst, len);
    let blank = header(seg, 0);
    push_all(&mut covered, blank.as_slice());
    push_all(&mut covered, seg.payload.as_slice());
    let sum = checksum(covered.as_slice(), CHECKSUM_WORD);
    let mut r = header(seg, sum);
    push_all(&mut r, seg.payload.as_slice());
    r
}

fn get16(b: &[u8], i: usize) -> (r: u16)
    requires
        i + 1 < b@.len(),
    ensures
        r == read16(b@, i as int),
{
    b[i] as u16 * 256 + b[i + 1] as u16
}

fn get32(b: &[u8], i: usize) -> (r: u32)
    requires
        i + 3 < b@.len(),
    ensures
        r == read32(b@, i as int),
{
    ((b[i] as u32 * 256 + b[i + 1] as u32) * 256 + b[i + 2] as u32) * 256 + b[i + 3] as u32
}

/// The segment in `bytes`, received by `local` from `remote`: `None` when
/// the header is cut short or malformed, or the checksum does not match.
pub fn decode(bytes: &[u8], remote: u32, local: u32) -> (r: Option<Segment>)
    ensures
        r.is_some() == (well_formed(bytes@) && checksum_ok(bytes@, remote, local)),
        r matches Some(seg) ==> {
            &&& seg.src_port == read16(bytes@, 0)
            &&& seg.dst_port == read16(bytes@, 2)
            &&& seg.seq == read32(bytes@, 4)
            &&& seg.ack == read32(bytes@, 8)
            &&& seg.flags == bytes@[13]
            &&& seg.window == read16(bytes@, 14)
            &&& seg.payload@ == bytes@.subrange(data_offset(bytes@), bytes@.len() as int)
        },
{
    if bytes.len() < HEADER_LEN || bytes.len() > 0xffff {
        return None;
    }
    let offset = (bytes[12] / 16) as usize * 4;
    if offset < HEADER_LEN || offset > bytes.len() {
        return None;
    }
    let mut covered = pseudo(remote, local, bytes.len() as u16);
    let mut blank: Vec<u8> = Vec::new();
    let mut i: usize = 0;
    while i < bytes.len()
        invariant
            i <= bytes@.len(),
            blank@.len() == i,
            forall|j: int| 0 <= j < i ==> #[trigger] blank@[j] == if j == 16 || j == 17 { 0u8 } else { bytes@[j] },
        decreases bytes@.len() - i,
    {
        if i == 16 || i == 17 {
            blank.push(0);
        } else {
            blank.push(bytes[i]);
        }
        i = i + 1;
    }
    assert(blank@ =~= without_checksum(bytes@));
    push_all(&mut covered, blank.as_slice());
    let sum = checksum(covered.as_slice(), CHECKSUM_WORD);
    if get16(bytes, 16) != sum {
        return None;
    }
    let mut payload: Vec<u8> = Vec::new();
    let mut k: usize = offset;
    while k < bytes.len()
        invariant
            offset <= k <= bytes@.len(),
            payload@ == bytes@.subrange(offset as int, k as int),
        decreases bytes@.len() - k,
    {
        payload.push(bytes[k]);
        k = k + 1;
        assert(payload@ =~= bytes@.subrange(offset as int, k as int));
    }
    Some(Segment {
        src_port: get16(bytes, 0),
        dst_port: get16(bytes, 2),
        seq: get32(bytes, 4),
        ack: get32(bytes, 8),
        flags: bytes[13],
        window: get16(bytes, 14),
        payload,
    })
}

proof fn lemma_be16_read(x: u16)
    ensures
        read16(be16(x), 0) == x,
{
    let h = x / 256;
    let l = x % 256;
    assert(h * 256 + l == x) by (nonlinear_arith)
        requires
            h == x / 256,
            l == x % 256,
    ;
}

proof fn lemma_split256(y: int)
    requires
        y >= 0,
    ensures
        (y / 256) * 256 + y % 256 == y,
        0 <= y % 256 < 256,
{
}

proof fn lemma_be32_read(x: u32)
    ensures
        read32(be32(x), 0) == x,
{
    let x = x as int;
    lemma_split256(x);
    lemma_split256(x / 256);
    lemma_split256(x / 0x1_0000);
    assert(x / 256 / 256 == x / 0x1_0000) by (nonlinear_arith)
        requires
            x >= 0,
    ;
    assert(x / 0x1_0000 / 256 == x / 0x100_0000) by (nonlinear_arith)
        requires
            x >= 0,
    ;
    assert(x / 0x100_0000 < 256);
}

/// Decoding the bytes that `encode` writes for `seg` from `src` to `dst`,
/// as received by `dst`, gives back `seg`.
pub proof fn lemma_decode_encoded(seg: Segment, src: u32, dst: u32)
    requires
        seg.payload@.len() <= 0xffff - HEADER_LEN,
    ensures
        ({
            let b = encoded(seg, src, dst);
            &&& well_formed(b)
            &&& checksum_ok(b, src, dst)
            &&& read16(b, 0) == seg.src_port
            &&& read16(b, 2) == seg.dst_port
            &&& read32(b, 4) == seg.seq
            &&& read32(b, 8) == seg.ack
            &&& b[13] == seg.flags
            &&& read16(b, 14) == seg.window
            &&& b.subrange(data_offset(b), b.len() as int) == seg.payload@
        }),
{
    let b = encoded(seg, src, dst);
    let sum = segment_checksum(seg, src, dst);
    lemma_be16_read(seg.src_port);
    lemma_be16_read(seg.dst_port);
    lemma_be16_read(seg.window);
    lemma_be16_read(sum);
    lemma_be32_read(seg.seq);
    lemma_be32_read(seg.ack);
    assert(b.subrange(0, 2) =~= be16(seg.src_port));
    assert(read16(b, 0) == read16(be16(seg.src_port), 0));
    assert(read16(b, 2) == read16(be16(seg.dst_port), 0));
    assert(read32(b, 4) == read32(be32(seg.seq), 0));
    assert(read32(b, 8) == read32(be32(seg.ack), 0));
    assert(read16(b, 14) == read16(be16(seg.window), 0));
    assert(read16(b, 16) == read16(be16(sum), 0));
    assert(data_offset(b) == 20);
    assert(without_checksum(b) =~= header_bytes(seg, 0) + seg.payload@);
    assert(b.subrange(20, b.len() as int) =~= seg.payload@);
    assert(header_bytes(seg, sum).len() == 20);
    assert(b.len() == 20 + seg.payload@.len());
    assert(b.len() as u16 == (HEADER_LEN + seg.payload@.len()) as u16);
    let ph = pseudo_header(src, dst, b.len() as u16);
    assert(ph + without_checksum(b) =~= ph + header_bytes(seg, 0) + seg.payload@);
}

} // verus!
