//! Capture bookkeeping for the portable capture path: frames are stamped
//! from the frame counter and the configured rate rather than from a
//! caller-supplied clock.

use vstd::prelude::*;
use crate::capture::frame_models;
use crate::capture::FrameModel;
use crate::compression::compress_frame;
use crate::compression::lz4_compressed;
use crate::compression::CompressedFrame;

verus! {

/// How many seconds of frames the initial allocation plans for.
pub const MAX_BUFFER_DURATION_SECS: u32 = 600;

/// The mathematical image of a `GenericCapture`.
pub struct GenericCaptureModel {
    pub frames: Seq<FrameModel>,
    pub fps: u32,
    pub output_path: Seq<char>,
    pub frame_count: usize,
}

/// A capture session that stamps each frame from its index: frame `n` is
/// taken to sit `n / fps` seconds into the recording.
pub struct GenericCapture {
    frame_buffer: Vec<CompressedFrame>,
    fps: u32,
    output_path: String,
    frame_count: usize,
}

impl View for GenericCapture {
    type V = GenericCaptureModel;

    closed spec fn view(&self) -> GenericCaptureModel {
        GenericCaptureModel {
            frames: frame_models(self.frame_buffer@),
            fps: self.fps,
            output_path: self.output_path@,
            frame_count: self.frame_count,
        }
    }
}

impl GenericCapture {
    /// A fresh session at `fps` frames per second, writing to
    /// `output_path` when the session is saved.  A zero rate would leave
    /// frame timestamps undefined, so it is excluded.
    pub fn new(fps: u32, output_path: String) -> (r: Result<GenericCapture, String>)
        requires
            fps >= 1,
        ensures
            r matches Ok(c) ==> {
                &&& c@.frames =~= Seq::<FrameModel>::empty()
                &&& c@.fps == fps
                &&& c@.output_path == output_path@
                &&& c@.frame_count == 0
            },
            r is Ok,
    {
        let capacity: usize = match (fps as usize).checked_mul(MAX_BUFFER_DURATION_SECS as usize) {
            Some(c) => c,
            None => 0,
        };
        let r = GenericCapture {
            frame_buffer: Vec::with_capacity(capacity),
            fps,
            output_path,
            frame_count: 0,
        };
        proof {
            assert(frame_models(r.frame_buffer@) =~= Seq::<FrameModel>::empty());
        }
        Ok(r)
    }

    /// Records one grabbed frame: compresses it and stamps it at
    /// `frame_count / fps` seconds, in milliseconds, then counts it.
    pub fn record_frame(&mut self, frame: &[u8], width: u32, height: u32)
        requires
            frame@.len() <= u32::MAX,
            old(self)@.fps >= 1,
            old(self)@.frame_count * 1000 <= u64::MAX,
            old(self)@.frame_count < usize::MAX,
        ensures
            final(self)@.frames == old(self)@.frames.push(
                FrameModel {
                    compressed_data: lz4_compressed(frame@),
                    width,
                    height,
                    timestamp_ms: (old(self)@.frame_count * 1000 / old(self)@.fps as int) as u64,
                },
            ),
            final(self)@.fps == old(self)@.fps,
            final(self)@.output_path == old(self)@.output_path,
            final(self)@.frame_count == old(self)@.frame_count + 1,
    {
        let compressed = match compress_frame(frame) {
            Ok(c) => c,
            Err(_) => {
                proof {
                    assert(false);
                }
                Vec::new()
            },
        };
        let timestamp_ms: u64 = (self.frame_count as u64) * 1000 / (self.fps as u64);
        let ghost frames_pre = self.frame_buffer@;
        let f = CompressedFrame { compressed_data: compressed, width, height, timestamp_ms };
        let ghost fm = f@;
        self.frame_buffer.push(f);
        self.frame_count = self.frame_count + 1;
        proof {
            assert(frame_models(self.frame_buffer@) =~= frame_models(frames_pre).push(fm));
        }
    }

    /// Number of frames recorded so far.
    pub fn frame_count(&self) -> (r: usize)
        ensures
            r == self@.frame_count,
    {
        self.frame_count
    }

    /// The recorded frames, in capture order, for handing to an encoder.
    pub fn frames(&self) -> (r: &Vec<CompressedFrame>)
        ensures
            frame_models(r@) == self@.frames,
    {
        &self.frame_buffer
    }
}

} // verus!
