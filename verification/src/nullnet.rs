//! A network device that accepts everything and delivers nothing. It serves
//! as the stand-in implementation of the network capability when no real
//! device is present, and shows the batched calling convention: packet
//! batches travel as bounded ring buffers, each one ownership handle, so a
//! whole batch crosses the domain boundary as a single ownership transfer.

use vstd::prelude::*;

verus! {

use crate::rref::RRefDeque;

/// The network capability an isolated domain consumes. The concrete device
/// behind it lives in its own domain; this marker is what capability holders
/// pass around.
pub trait Net {

}

/// The do-nothing network device.
pub struct NullNet {}

impl NullNet {
    pub fn new() -> (n: NullNet)
    {
        NullNet {}
    }
}

impl Net for NullNet {

}

impl NullNet {
    /// Accept one batch of packets for "transmission" and return the buffers
    /// for reuse: every submitted packet counts as processed at once, the
    /// submitted batch comes back as the new collection buffer, and the old
    /// collection buffer comes back empty-handed as the new submission
    /// buffer. No packet is touched.
    pub fn submit_and_poll_rref<T>(
        &self,
        packets: RRefDeque<T, 32>,
        collect: RRefDeque<T, 32>,
        tx: bool,
        pkt_len: usize,
    ) -> (r: (usize, RRefDeque<T, 32>, RRefDeque<T, 32>))
        requires
            packets.wf(),
        ensures
            r.0 == packets@.len(),
            r.1 == collect,
            r.2 == packets,
    {
        let n = packets.len();
        (n, collect, packets)
    }

    /// Poll for received packets: there are never any. The collection buffer
    /// comes back unchanged with a count of zero.
    pub fn poll_rref<T>(&self, collect: RRefDeque<T, 512>, tx: bool) -> (r: (
        usize,
        RRefDeque<T, 512>,
    ))
        ensures
            r.0 == 0,
            r.1 == collect,
    {
        (0, collect)
    }
}

} // verus!
