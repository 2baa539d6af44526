use vstd::prelude::*;

verus! {

/// How far `b` lies ahead of `a` in the circular 32-bit sequence space.
pub open spec fn seq_dist(a: u32, b: u32) -> int {
    b.wrapping_sub(a) as int
}

/// `a` comes no later than `b`: `b` is less than half the space ahead of `a`.
pub open spec fn seq_le_spec(a: u32, b: u32) -> bool {
    seq_dist(a, b) < 0x8000_0000
}

/// `a` comes strictly before `b`.
pub open spec fn seq_lt_spec(a: u32, b: u32) -> bool {
    a != b && seq_le_spec(a, b)
}

#[verifier::when_used_as_spec(seq_le_spec)]
pub fn seq_le(a: u32, b: u32) -> (r: bool)
    ensures
        r == seq_le_spec(a, b),
{
    b.wrapping_sub(a) < 0x8000_0000
}

#[verifier::when_used_as_spec(seq_lt_spec)]
pub fn seq_lt(a: u32, b: u32) -> (r: bool)
    ensures
        r == seq_lt_spec(a, b),
{
    a != b && seq_le(a, b)
}

} // verus!
