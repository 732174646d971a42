//! Frame-paced capture bookkeeping: which instants call for a frame grab,
//! and the buffer of compressed frames recorded so far.  Grabbing pixels
//! and sleeping between frames belong to the surrounding program; the
//! decisions and the accounting live here.

use vstd::prelude::*;
use crate::compression::compress_frame;
use crate::compression::lz4_compressed;
use crate::compression::CompressedFrame;

verus! {

/// The mathematical image of a `CompressedFrame`.
pub struct FrameModel {
    pub compressed_data: Seq<u8>,
    pub width: u32,
    pub height: u32,
    pub timestamp_ms: u64,
}

impl View for CompressedFrame {
    type V = FrameModel;

    open spec fn view(&self) -> FrameModel {
        FrameModel {
            compressed_data: self.compressed_data@,
            width: self.width,
            height: self.height,
            timestamp_ms: self.timestamp_ms,
        }
    }
}

/// The frame sequence a `Vec<CompressedFrame>` stands for.
pub open spec fn frame_models(s: Seq<CompressedFrame>) -> Seq<FrameModel> {
    s.map_values(|f: CompressedFrame| f@)
}

/// The mathematical image of a `Capture`.
pub struct CaptureModel {
    pub frames: Seq<FrameModel>,
    pub fps: u32,
    pub interval_ms: u64,
    pub next_capture_ms: u64,
}

/// A paced screen-capture session: frames are due every `interval_ms`
/// milliseconds and are kept, compressed, in capture order.
pub struct Capture {
    frame_buffer: Vec<CompressedFrame>,
    fps: u32,
    interval_ms: u64,
    next_capture_ms: u64,
}

impl View for Capture {
    type V = CaptureModel;

    closed spec fn view(&self) -> CaptureModel {
        CaptureModel {
            frames: frame_models(self.frame_buffer@),
            fps: self.fps,
            interval_ms: self.interval_ms,
            next_capture_ms: self.next_capture_ms,
        }
    }
}

impl Capture {
    /// A fresh session at `fps` frames per second, with the first frame due
    /// immediately.  A zero rate has no frame interval, so it is excluded.
    pub fn new(fps: u32) -> (r: Result<Capture, String>)
        requires
            fps >= 1,
        ensures
            r matches Ok(c) ==> {
                &&& c@.frames =~= Seq::<FrameModel>::empty()
                &&& c@.fps == fps
                &&& c@.interval_ms == 1000 as int / fps as int
                &&& c@.next_capture_ms == 0
            },
            r is Ok,
    {
        let capacity: usize = match (fps as usize).checked_mul(10) {
            Some(c) => c,
            None => 0,
        };
        let r = Capture {
            frame_buffer: Vec::with_capacity(capacity),
            fps,
            interval_ms: 1000 / (fps as u64),
            next_capture_ms: 0,
        };
        proof {
            assert(frame_models(r.frame_buffer@) =~= Seq::<FrameModel>::empty());
        }
        Ok(r)
    }

    /// Whether a frame is due at `now_ms`.
    pub fn should_capture(&self, now_ms: u64) -> (r: bool)
        ensures
            r == (now_ms >= self@.next_capture_ms),
    {
        now_ms >= self.next_capture_ms
    }

    /// Records one grabbed frame: compresses it, stamps it with the
    /// capture-relative time `now_ms`, and schedules the next frame one
    /// interval later.
    pub fn record_frame(&mut self, frame: &[u8], width: u32, height: u32, now_ms: u64)
        requires
            frame@.len() <= u32::MAX,
            old(self)@.next_capture_ms + old(self)@.interval_ms <= u64::MAX,
        ensures
            final(self)@.frames == old(self)@.frames.push(
                FrameModel {
                    compressed_data: lz4_compressed(frame@),
                    width,
                    height,
                    timestamp_ms: now_ms,
                },
            ),
            final(self)@.fps == old(self)@.fps,
            final(self)@.interval_ms == old(self)@.interval_ms,
            final(self)@.next_capture_ms == old(self)@.next_capture_ms + old(self)@.interval_ms,
    {
        let compressed = match compress_frame(frame) {
            Ok(c) => c,
            Err(_) => {
                proof {
                    assert(false);
                }
                Vec::new()
            },
        };
        let ghost frames_pre = self.frame_buffer@;
        let f = CompressedFrame { compressed_data: compressed, width, height, timestamp_ms: now_ms };
        let ghost fm = f@;
        self.frame_buffer.push(f);
        self.next_capture_ms = self.next_capture_ms + self.interval_ms;
        proof {
            assert(frame_models(self.frame_buffer@) =~= frame_models(frames_pre).push(fm));
        }
    }

    /// The capture-relative time the next frame is due.
    pub fn next_capture_ms(&self) -> (r: u64)
        ensures
            r == self@.next_capture_ms,
    {
        self.next_capture_ms
    }

    /// Number of frames recorded so far.
    pub fn frame_count(&self) -> (r: usize)
        ensures
            r == self@.frames.len(),
    {
        self.frame_buffer.len()
    }

    /// The recorded frames, in capture order, for handing to an encoder.
    pub fn frames(&self) -> (r: &Vec<CompressedFrame>)
        ensures
            frame_models(r@) == self@.frames,
    {
        &self.frame_buffer
    }
}

} // verus!
