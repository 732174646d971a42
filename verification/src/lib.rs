//! Instant-replay core: a start-code access-unit parser, a keyframe-aligned
//! replay buffer with time- and size-bounded eviction, and the supporting
//! frame compression and conversion helpers.

use vstd::prelude::*;

mod capture;
mod compression;
mod config;
mod frame_storage;
mod generic_capture;
mod parser;
mod storage;
mod video_encoding;

pub use capture::Capture;
pub use capture::CaptureModel;
pub use capture::FrameModel;
pub use compression::compress_frame;
pub use compression::convert_to_bottom_up;
pub use compression::decompress_frame;
pub use compression::CompressedFrame;
pub use compression::EncodedFrame;
pub use config::parse_resolution;
pub use frame_storage::FrameBuffer;
pub use generic_capture::GenericCapture;
pub use generic_capture::GenericCaptureModel;
pub use parser::AccessUnitParser;
pub use parser::ParsedUnit;
pub use parser::UnitModel;
pub use storage::BufferModel;
pub use storage::ExportError;
pub use storage::PacketModel;
pub use storage::ReplayBuffer;
pub use storage::TimestampedPacket;
pub use video_encoding::save_buffer;
pub use video_encoding::EncoderInput;

verus! {

/// One-time library set-up. The replay core keeps no global state, so there
/// is nothing to initialise; the hook is kept for callers that expect it.
pub fn init() {
}

} // verus!
