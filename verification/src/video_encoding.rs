//! Turning a buffer of compressed frames into encoder-ready input: each
//! frame is decompressed and flipped to bottom-up row order, in capture
//! order.  Feeding the result to a container encoder is the surrounding
//! program's job.

use vstd::prelude::*;
use crate::capture::frame_models;
use crate::compression::bottom_up_image;
use crate::compression::convert_to_bottom_up;
use crate::compression::decompress_frame;
use crate::compression::lz4_compressed;
use crate::compression::CompressedFrame;

verus! {

/// Everything a container encoder needs for one save: the geometry of the
/// first frame, the frame rate, and the raw bottom-up frames in order.
pub struct EncoderInput {
    pub width: u32,
    pub height: u32,
    pub fps: u32,
    pub frames: Vec<Vec<u8>>,
}

/// Prepares a buffered recording for encoding.  An empty buffer saves
/// nothing; otherwise every stored frame is decompressed and flipped, and
/// a frame whose bytes do not decode, or whose decoded size does not cover
/// its stated geometry, fails the whole save with a message.
pub fn save_buffer(frame_buffer: &Vec<CompressedFrame>, fps: u32) -> (r: Result<
    Option<EncoderInput>,
    String,
>)
    ensures
        frame_buffer@.len() == 0 <==> (r matches Ok(None)),
        r matches Ok(Some(inp)) ==> {
            &&& inp.width == frame_models(frame_buffer@)[0].width
            &&& inp.height == frame_models(frame_buffer@)[0].height
            &&& inp.fps == fps
            &&& inp.frames@.len() == frame_buffer@.len()
            &&& forall|i: int, s: Seq<u8>|
                #![trigger inp.frames@[i], lz4_compressed(s)]
                0 <= i < frame_buffer@.len() && s.len() <= u32::MAX && frame_models(frame_buffer@)[i].compressed_data
                    == lz4_compressed(s) ==> bottom_up_image(
                    s,
                    inp.frames@[i]@,
                    frame_models(frame_buffer@)[i].width,
                    frame_models(frame_buffer@)[i].height,
                )
        },
        r is Err ==> frame_buffer@.len() > 0,
{
    let ghost fms = frame_models(frame_buffer@);
    let n = frame_buffer.len();
    if n == 0 {
        return Ok(None);
    }
    let width = frame_buffer[0].width;
    let height = frame_buffer[0].height;
    let mut frames: Vec<Vec<u8>> = Vec::with_capacity(n);
    let mut i: usize = 0;
    while i < n
        invariant
            i <= n == frame_buffer@.len(),
            fms == frame_models(frame_buffer@),
            frames@.len() == i,
            forall|k: int, s: Seq<u8>|
                #![trigger frames@[k], lz4_compressed(s)]
                0 <= k < i && s.len() <= u32::MAX && fms[k].compressed_data == lz4_compressed(s)
                    ==> bottom_up_image(s, frames@[k]@, fms[k].width, fms[k].height),
        decreases n - i,
    {
        let f = &frame_buffer[i];
        proof {
            assert(fms[i as int] == frame_buffer@[i as int]@);
        }
        let mut decompressed = match decompress_frame(f.compressed_data.as_slice()) {
            Ok(d) => d,
            Err(e) => {
                return Err(e);
            },
        };
        // the flip's geometry demands must be checked before the call
        let stride_ok: bool = (f.width as u64) * 4 <= usize::MAX as u64;
        if !stride_ok {
            return Err(clone_message("frame too wide to re-order"));
        }
        proof {
            assert((f.width as int) * 4 * (f.height as int) < 0x100000000000000000i128)
                by (nonlinear_arith)
                requires
                    f.width <= u32::MAX,
                    f.height <= u32::MAX,
            ;
        }
        let image_bytes: u128 = (f.width as u128) * 4 * (f.height as u128);
        if image_bytes > decompressed.len() as u128 {
            return Err(clone_message("frame smaller than its stated geometry"));
        }
        convert_to_bottom_up(&mut decompressed, f.width, f.height);
        let ghost frames_pre = frames@;
        frames.push(decompressed);
        i = i + 1;
        proof {
            assert forall|k: int, s: Seq<u8>|
                #![trigger frames@[k], lz4_compressed(s)]
                0 <= k < i && s.len() <= u32::MAX && fms[k].compressed_data == lz4_compressed(s)
                    implies bottom_up_image(
                s,
                frames@[k]@,
                fms[k].width,
                fms[k].height,
            ) by {
                if k < i - 1 {
                    assert(frames@[k] == frames_pre[k]);
                }
            }
        }
    }
    Ok(Some(EncoderInput { width, height, fps, frames }))
}

/// An owned copy of a static message.
fn clone_message(msg: &str) -> (r: String)
    ensures
        r@ == msg@,
{
    msg.to_owned()
}

} // verus!
