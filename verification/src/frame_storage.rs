//! A bounded FIFO of raw frame byte-buffers backed by a ring buffer from
//! the `ringbuf` crate.  The ring itself is opaque to the verifier; what it
//! holds and the bound it was created with are named below, and the method
//! wrappers pin down, against the crate's source, how each call changes
//! them.  The drop-oldest policy on top of the ring is verified.

use vstd::prelude::*;
use ringbuf::traits::Consumer;
use ringbuf::traits::Producer;

verus! {

/// The ring, held opaquely.
#[verifier::external_body]
pub struct FrameRing {
    rb: ringbuf::HeapRb<Vec<u8>>,
}

/// The frames the ring currently holds, oldest first.
pub uninterp spec fn ring_contents(r: &FrameRing) -> Seq<Seq<u8>>;

/// The fixed bound the ring was created with.
pub uninterp spec fn ring_capacity(r: &FrameRing) -> nat;

/// Relies on ringbuf's HeapRb::new: an empty ring with exactly the asked
/// capacity.  HeapRb::new panics on a zero capacity, so that input is
/// excluded.
#[verifier::external_body]
fn ring_new(capacity: usize) -> (r: FrameRing)
    requires
        capacity >= 1,
    ensures
        ring_contents(&r) == Seq::<Seq<u8>>::empty(),
        ring_capacity(&r) == capacity,
{
    FrameRing { rb: ringbuf::HeapRb::new(capacity) }
}

/// Relies on ringbuf's RingBuffer::try_push: appends the frame when the
/// ring is not full, and hands it back unchanged when it is.  The ring
/// never holds more frames than its capacity.
#[verifier::external_body]
fn ring_try_push(r: &mut FrameRing, frame: Vec<u8>) -> (rejected: Option<Vec<u8>>)
    ensures
        ring_capacity(final(r)) == ring_capacity(old(r)),
        ring_contents(final(r)).len() <= ring_capacity(final(r)),
        ring_contents(old(r)).len() < ring_capacity(old(r)) ==> rejected is None
            && ring_contents(final(r)) == ring_contents(old(r)).push(frame@),
        ring_contents(old(r)).len() >= ring_capacity(old(r)) ==> (rejected matches Some(f)
            && f@ == frame@) && ring_contents(final(r)) == ring_contents(old(r)),
{
    match r.rb.try_push(frame) {
        Ok(()) => None,
        Err(f) => Some(f),
    }
}

/// Relies on ringbuf's Consumer::try_pop: removes and returns the oldest
/// frame, or nothing when the ring is empty.
#[verifier::external_body]
fn ring_try_pop(r: &mut FrameRing) -> (popped: Option<Vec<u8>>)
    ensures
        ring_capacity(final(r)) == ring_capacity(old(r)),
        ring_contents(final(r)).len() <= ring_capacity(final(r)),
        ring_contents(old(r)).len() == 0 ==> popped is None && ring_contents(final(r))
            == ring_contents(old(r)),
        ring_contents(old(r)).len() > 0 ==> (popped matches Some(f) && f@ == ring_contents(
            old(r),
        )[0]) && ring_contents(final(r)) == ring_contents(old(r)).drop_first(),
{
    r.rb.try_pop()
}

/// A bounded store of encoded frame chunks: once full, pushing drops the
/// oldest chunk to make room, so the newest frames always fit.
pub struct FrameBuffer {
    pub buffer: FrameRing,
    width: u32,
    height: u32,
}

impl FrameBuffer {
    /// The stored chunks, oldest first.
    pub closed spec fn contents(&self) -> Seq<Seq<u8>> {
        ring_contents(&self.buffer)
    }

    /// The bound the buffer was created with.
    pub closed spec fn capacity(&self) -> nat {
        ring_capacity(&self.buffer)
    }

    /// An empty buffer sized for `recording_time` seconds at `frame_rate`
    /// frames per second.  The product is the ring bound and must be at
    /// least one, since a zero-capacity ring cannot be created.
    pub fn new(width: u32, height: u32, recording_time: usize, frame_rate: usize) -> (r: Self)
        requires
            1 <= recording_time * frame_rate <= usize::MAX,
        ensures
            r.contents() == Seq::<Seq<u8>>::empty(),
            r.capacity() == recording_time * frame_rate,
    {
        let buffer = ring_new(calculate_buffer_size(&recording_time, &frame_rate));
        Self { buffer, width, height }
    }

    /// Stores one frame chunk, dropping the oldest chunk first when the
    /// ring is full.
    pub fn push(&mut self, frame: Vec<u8>)
        ensures
            final(self).capacity() == old(self).capacity(),
            old(self).contents().len() < old(self).capacity() ==> final(self).contents() == old(
                self,
            ).contents().push(frame@),
            old(self).contents().len() >= old(self).capacity() && old(self).capacity() >= 1
                ==> final(self).contents() == old(self).contents().drop_first().push(frame@),
            old(self).capacity() == 0 ==> final(self).contents() == old(self).contents(),
    {
        match ring_try_push(&mut self.buffer, frame) {
            None => {},
            Some(rejected) => {
                let dropped = ring_try_pop(&mut self.buffer);
                match ring_try_push(&mut self.buffer, rejected) {
                    None => {},
                    Some(_) => {
                        proof {
                            assert(ring_capacity(&self.buffer) == 0);
                        }
                    },
                }
            },
        }
    }

    /// Removes and returns the oldest stored chunk, if any.
    pub fn pop(&mut self) -> (r: Option<Vec<u8>>)
        ensures
            final(self).capacity() == old(self).capacity(),
            old(self).contents().len() == 0 ==> r is None && final(self).contents() == old(
                self,
            ).contents(),
            old(self).contents().len() > 0 ==> (r matches Some(f) && f@ == old(
                self,
            ).contents()[0]) && final(self).contents() == old(self).contents().drop_first(),
    {
        ring_try_pop(&mut self.buffer)
    }
}

/// How many frames a recording of the given length needs room for.
fn calculate_buffer_size(recording_time: &usize, frame_rate: &usize) -> (r: usize)
    requires
        *recording_time * *frame_rate <= usize::MAX,
    ensures
        r == *recording_time * *frame_rate,
{
    *recording_time * *frame_rate
}

} // verus!
