//! A user-space TCP engine: connection state machine, socket table,
//! sliding-window send path, receive buffer, retransmission scan, and the
//! segment wire format with its pseudo-header checksum.
//! The engine is a single-threaded state value; callers own the threads,
//! the raw packet channel and the clock, and hand their results in.
pub mod seqnum;
pub mod segment;
pub mod socket;
pub mod delivery;
pub mod handlers;
pub mod random;
pub mod tcp;
pub mod retransmit;
pub mod laws;
pub mod codec;
