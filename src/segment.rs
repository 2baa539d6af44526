use vstd::prelude::*;

verus! {

pub const FIN: u8 = 0x01;
pub const SYN: u8 = 0x02;
pub const RST: u8 = 0x04;
pub const PSH: u8 = 0x08;
pub const ACK: u8 = 0x10;
pub const URG: u8 = 0x20;

/// Largest payload carried by one segment.
pub const MSS: usize = 1460;

/// `flags` has the bit `f` set.
pub open spec fn has_flag(flags: u8, f: u8) -> bool {
    flags & f != 0
}

/// A TCP segment: the header fields the engine reads, and the payload.
pub struct Segment {
    pub src_port: u16,
    pub dst_port: u16,
    pub seq: u32,
    pub ack: u32,
    pub flags: u8,
    pub window: u16,
    pub payload: Vec<u8>,
}

impl Segment {
    /// The same header and payload.
    pub open spec fn same(&self, o: &Segment) -> bool {
        &&& self.src_port == o.src_port
        &&& self.dst_port == o.dst_port
        &&& self.seq == o.seq
        &&& self.ack == o.ack
        &&& self.flags == o.flags
        &&& self.window == o.window
        &&& self.payload@ == o.payload@
    }

    pub fn duplicate(&self) -> (r: Segment)
        ensures
            r.same(self),
    {
        let mut payload: Vec<u8> = Vec::new();
        let mut i: usize = 0;
        while i < self.payload.len()
            invariant
                i <= self.payload@.len(),
                payload@ == self.payload@.subrange(0, i as int),
            decreases self.payload@.len() - i,
        {
            payload.push(self.payload[i]);
            i = i + 1;
        }
        assert(payload@ == self.payload@);
        Segment {
            src_port: self.src_port,
            dst_port: self.dst_port,
            seq: self.seq,
            ack: self.ack,
            flags: self.flags,
            window: self.window,
            payload,
        }
    }
}

/// A segment handed to the packet channel, with its IPv4 endpoints.
pub struct Outgoing {
    pub src_addr: u32,
    pub dst_addr: u32,
    pub segment: Segment,
}

} // verus!
