//! Frame payload compression and layout helpers used by the capture paths.

use vstd::prelude::*;

verus! {

/// A captured frame after lossless compression, together with its geometry
/// and the capture-relative timestamp in milliseconds.
pub struct CompressedFrame {
    pub compressed_data: Vec<u8>,
    pub width: u32,
    pub height: u32,
    pub timestamp_ms: u64,
}

/// A frame that has already been encoded, together with its geometry and the
/// capture-relative timestamp in milliseconds.
pub struct EncodedFrame {
    pub data: Vec<u8>,
    pub width: u32,
    pub height: u32,
    pub timestamp_ms: u64,
}

impl EncodedFrame {
    pub fn new(data: Vec<u8>, width: u32, height: u32, timestamp_ms: u64) -> (r: Self)
        ensures
            r.data@ == data@,
            r.width == width,
            r.height == height,
            r.timestamp_ms == timestamp_ms,
    {
        Self { data, width, height, timestamp_ms }
    }
}

/// The size-prefixed LZ4 block image of a byte sequence.  The codec is
/// deterministic, so the image is a function of the bytes alone.
pub uninterp spec fn lz4_compressed(s: Seq<u8>) -> Seq<u8>;

/// Relies on lz4_flex::compress_prepend_size: compresses the input and
/// prepends its length as a little-endian u32, which is why the input must
/// fit in a u32.
#[verifier::external_body]
fn lz4_compress(input: &[u8]) -> (r: Vec<u8>)
    requires
        input@.len() <= u32::MAX,
    ensures
        r@ == lz4_compressed(input@),
{
    lz4_flex::compress_prepend_size(input)
}

/// Relies on lz4_flex::decompress_size_prepended: decompression inverts
/// compression, so the compressed image of any buffer decodes back to that
/// buffer.  Nothing is promised about bytes that are not such an image.
#[verifier::external_body]
fn lz4_decompress(input: &[u8]) -> (r: Result<Vec<u8>, String>)
    ensures
        forall|s: Seq<u8>|
            s.len() <= u32::MAX && input@ == lz4_compressed(s) ==> r is Ok && r->Ok_0@ == s,
{
    lz4_flex::decompress_size_prepended(input).map_err(
        |e| format!("Decompression error: {}", e),
    )
}

/// Losslessly compresses one raw frame.
pub fn compress_frame(buffer: &[u8]) -> (r: Result<Vec<u8>, String>)
    requires
        buffer@.len() <= u32::MAX,
    ensures
        r is Ok,
        r matches Ok(v) ==> v@ == lz4_compressed(buffer@),
{
    Ok(lz4_compress(buffer))
}

/// Recovers a raw frame from its compressed form: on the compressed image
/// of a buffer it returns exactly that buffer.
pub fn decompress_frame(compressed_data: &[u8]) -> (r: Result<Vec<u8>, String>)
    ensures
        forall|s: Seq<u8>|
            s.len() <= u32::MAX && compressed_data@ == lz4_compressed(s) ==> r is Ok
                && r->Ok_0@ == s,
{
    lz4_decompress(compressed_data)
}

/// Byte at row `r`, column `c` of an image stored with `stride` bytes per
/// row.
pub open spec fn cell(s: Seq<u8>, stride: int, r: int, c: int) -> u8 {
    s[r * stride + c]
}

/// `dst` is `src` with its first `height` rows of `width * 4` bytes in
/// reversed order and everything past the image unchanged.
pub open spec fn bottom_up_image(src: Seq<u8>, dst: Seq<u8>, width: u32, height: u32) -> bool {
    &&& dst.len() == src.len()
    &&& forall|r: int, c: int|
        0 <= r < height && 0 <= c < width as int * 4 ==> #[trigger] cell(dst, width as int * 4, r, c)
            == cell(src, width as int * 4, height - 1 - r, c)
    &&& forall|i: int| width as int * 4 * height <= i < src.len() ==> dst[i] == src[i]
}

/// Row indexing stays inside the image.
proof fn lemma_row_index_bound(r: int, c: int, st: int, h: int)
    by (nonlinear_arith)
    requires
        0 <= r < h,
        0 <= c < st,
    ensures
        0 <= r * st + c,
        r * st + c < (r + 1) * st,
        (r + 1) * st <= h * st,
{
}

/// Flips a top-down image to bottom-up row order in place: row `r` of the
/// result is row `height - 1 - r` of the input.  Bytes beyond the image
/// (when the buffer is larger than `width * 4 * height`) are untouched.
pub fn convert_to_bottom_up(buffer: &mut Vec<u8>, width: u32, height: u32)
    requires
        width as int * 4 <= usize::MAX,
        width as int * 4 * (height as int) <= old(buffer)@.len(),
    ensures
        bottom_up_image(old(buffer)@, final(buffer)@, width, height),
{
    let ghost orig = buffer@;
    let stride: usize = (width as usize) * 4;
    let h: usize = height as usize;
    let ghost st = stride as int;
    proof {
        assert(st * h <= orig.len());
    }
    let n = buffer.len();
    let mut out: Vec<u8> = Vec::with_capacity(n);
    let mut r: usize = 0;
    while r < h
        invariant
            r <= h,
            st == stride as int,
            st * h <= orig.len(),
            n == orig.len(),
            buffer@ == orig,
            out@.len() == r * st,
            forall|r2: int, c2: int|
                0 <= r2 < r && 0 <= c2 < st ==> #[trigger] cell(out@, st, r2, c2) == cell(
                    orig,
                    st,
                    h - 1 - r2,
                    c2,
                ),
        decreases h - r,
    {
        proof {
            assert(0 <= (h - 1 - r) * st && (h - 1 - r) * st <= h * st) by (nonlinear_arith)
                requires
                    0 <= r < h,
                    0 <= st,
            ;
            assert(h as int * st == st * h) by (nonlinear_arith);
        }
        let base: usize = (h - 1 - r) * stride;
        let mut c: usize = 0;
        while c < stride
            invariant
                c <= stride,
                r < h,
                st == stride as int,
                st * h <= orig.len(),
                n == orig.len(),
                buffer@ == orig,
                base == (h - 1 - r) * st,
                out@.len() == r * st + c,
                forall|r2: int, c2: int|
                    0 <= r2 < r && 0 <= c2 < st ==> #[trigger] cell(out@, st, r2, c2) == cell(
                        orig,
                        st,
                        h - 1 - r2,
                        c2,
                    ),
                forall|c2: int|
                    0 <= c2 < c ==> #[trigger] cell(out@, st, r as int, c2) == orig[base + c2],
            decreases stride - c,
        {
            proof {
                lemma_row_index_bound(h - 1 - r, c as int, st, h as int);
                lemma_row_index_bound(r as int, c as int, st, h as int);
                assert(h as int * st == st * h) by (nonlinear_arith);
                assert(base + c < orig.len());
            }
            let ghost out_pre = out@;
            out.push(buffer[base + c]);
            proof {
                assert forall|r2: int, c2: int|
                    0 <= r2 < r && 0 <= c2 < st implies #[trigger] cell(out@, st, r2, c2) == cell(
                    orig,
                    st,
                    h - 1 - r2,
                    c2,
                ) by {
                    lemma_row_index_bound(r2, c2, st, h as int);
                    assert(r2 * st + c2 < out_pre.len()) by {
                        assert((r2 + 1) * st <= r * st) by (nonlinear_arith)
                            requires
                                r2 + 1 <= r,
                                st >= 0,
                        ;
                    }
                    assert(cell(out_pre, st, r2, c2) == cell(orig, st, h - 1 - r2, c2));
                }
                assert forall|c2: int|
                    0 <= c2 < c + 1 implies #[trigger] cell(out@, st, r as int, c2) == orig[base
                    + c2] by {
                    if c2 < c {
                        assert(cell(out_pre, st, r as int, c2) == orig[base + c2]);
                        assert(r * st + c2 < out_pre.len());
                    } else {
                        assert(out@[r * st + c] == orig[base + c]);
                    }
                }
            }
            c = c + 1;
        }
        proof {
            // the freshly copied row r now reads as row h-1-r of the input
            assert forall|r2: int, c2: int|
                0 <= r2 < r + 1 && 0 <= c2 < st implies #[trigger] cell(out@, st, r2, c2) == cell(
                orig,
                st,
                h - 1 - r2,
                c2,
            ) by {
                if r2 == r {
                    assert(cell(out@, st, r as int, c2) == orig[base + c2]);
                }
            }
            assert((r + 1) * st == r * st + st) by (nonlinear_arith);
        }
        r = r + 1;
    }
    // bytes past the image are carried over unchanged
    let total: usize = stride * h;
    let n = buffer.len();
    let mut i: usize = total;
    while i < n
        invariant
            total <= i <= n,
            n == orig.len(),
            buffer@ == orig,
            total == st * h,
            st * h <= orig.len(),
            out@.len() == i,
            forall|r2: int, c2: int|
                0 <= r2 < h && 0 <= c2 < st ==> #[trigger] cell(out@, st, r2, c2) == cell(
                    orig,
                    st,
                    h - 1 - r2,
                    c2,
                ),
            forall|j: int| total <= j < i ==> out@[j] == orig[j],
        decreases n - i,
    {
        let ghost out_pre = out@;
        out.push(buffer[i]);
        proof {
            assert forall|r2: int, c2: int|
                0 <= r2 < h && 0 <= c2 < st implies #[trigger] cell(out@, st, r2, c2) == cell(
                orig,
                st,
                h - 1 - r2,
                c2,
            ) by {
                lemma_row_index_bound(r2, c2, st, h as int);
                assert(h as int * st == st * h) by (nonlinear_arith);
                assert(r2 * st + c2 < out_pre.len());
                assert(cell(out_pre, st, r2, c2) == cell(orig, st, h - 1 - r2, c2));
            }
        }
        i = i + 1;
    }
    proof {
        assert(h * st == st * h) by (nonlinear_arith);
    }
    *buffer = out;
}

} // verus!
