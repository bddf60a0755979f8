//! The packed RGBA frame buffer: byte layout, single-pixel writes, and
//! clearing.

use vstd::prelude::*;

verus! {

use vstd::pervasive::VecAdditionalExecFns;

/// Byte offset of the first channel of pixel `(x, y)` in a row-major
/// buffer that is `width` pixels wide, four bytes per pixel.
pub open spec fn pix_index(width: int, x: int, y: int) -> int {
    (y * width + x) * 4
}

/// A buffer is well formed for `(width, height)` when it holds exactly
/// four bytes per pixel.
pub open spec fn buf_wf(buf: Seq<u8>, width: int, height: int) -> bool {
    buf.len() == width * height * 4
}

/// `(x, y)` is inside the buffer rectangle.
pub open spec fn in_bounds(x: int, y: int, width: int, height: int) -> bool {
    0 <= x < width && 0 <= y < height
}

/// The four bytes of pixel `(x, y)` in `buf` equal the four bytes of
/// `color`, in order.
pub open spec fn pixel_is(buf: Seq<u8>, width: int, x: int, y: int, color: Seq<u8>) -> bool {
    let i = pix_index(width, x, y);
    &&& buf[i] == color[0]
    &&& buf[i + 1] == color[1]
    &&& buf[i + 2] == color[2]
    &&& buf[i + 3] == color[3]
}

/// Byte `j` belongs to pixel `(x, y)`.
pub open spec fn byte_of_pixel(width: int, x: int, y: int, j: int) -> bool {
    pix_index(width, x, y) <= j < pix_index(width, x, y) + 4
}

/// The four bytes of an in-bounds pixel lie inside the buffer.
pub proof fn lemma_pix_index_in_range(width: int, height: int, x: int, y: int)
    requires
        in_bounds(x, y, width, height),
    ensures
        0 <= pix_index(width, x, y),
        pix_index(width, x, y) + 4 <= width * height * 4,
{
    assert(0 <= y * width + x) by (nonlinear_arith)
        requires 0 <= x && 0 <= y && 0 <= width;
    assert(y * width + x + 1 <= height * width) by (nonlinear_arith)
        requires 0 <= x < width && 0 <= y < height;
    assert((y * width + x) * 4 + 4 <= width * height * 4) by (nonlinear_arith)
        requires y * width + x + 1 <= height * width;
}

/// Distinct in-bounds pixels occupy disjoint four-byte ranges.
pub proof fn lemma_pix_index_disjoint(width: int, height: int, x1: int, y1: int, x2: int, y2: int)
    requires
        in_bounds(x1, y1, width, height),
        in_bounds(x2, y2, width, height),
        x1 != x2 || y1 != y2,
    ensures
        pix_index(width, x1, y1) + 4 <= pix_index(width, x2, y2)
            || pix_index(width, x2, y2) + 4 <= pix_index(width, x1, y1),
{
    if y1 == y2 {
        assert((y1 * width + x1) * 4 + 4 <= (y2 * width + x2) * 4
                || (y2 * width + x2) * 4 + 4 <= (y1 * width + x1) * 4) by (nonlinear_arith)
            requires y1 == y2 && (x1 != x2);
    } else if y1 < y2 {
        assert((y1 * width + x1) * 4 + 4 <= (y2 * width + x2) * 4) by (nonlinear_arith)
            requires y1 + 1 <= y2 && 0 <= x2 && 0 <= x1 < width && 0 <= width;
    } else {
        assert((y2 * width + x2) * 4 + 4 <= (y1 * width + x1) * 4) by (nonlinear_arith)
            requires y2 + 1 <= y1 && 0 <= x1 && 0 <= x2 < width && 0 <= width;
    }
}

/// Write one RGBA pixel at `(x, y)`. The coordinate must be in bounds
/// and the buffer well formed; exactly the four bytes of that pixel
/// change, and they take the bytes of `color`.
pub fn set_pixel(frame: &mut Vec<u8>, width: u32, height: u32, x: u32, y: u32, color: &[u8; 4])
    requires
        buf_wf(old(frame)@, width as int, height as int),
        x < width,
        y < height,
    ensures
        buf_wf(final(frame)@, width as int, height as int),
        pixel_is(final(frame)@, width as int, x as int, y as int, color@),
        forall|j: int|
            0 <= j < old(frame)@.len() && !byte_of_pixel(width as int, x as int, y as int, j)
                ==> final(frame)@[j] == old(frame)@[j],
{
    proof {
        lemma_pix_index_in_range(width as int, height as int, x as int, y as int);
    }
    let n: usize = frame.len();
    assert(pix_index(width as int, x as int, y as int) + 4 <= n);
    let row: usize = (y as usize) * (width as usize);
    let index: usize = (row + x as usize) * 4;
    frame.set(index, color[0]);
    frame.set(index + 1, color[1]);
    frame.set(index + 2, color[2]);
    frame.set(index + 3, color[3]);
}

/// Reset every byte of the buffer to zero (transparent black), keeping
/// its length.
pub fn clear_frame(frame: &mut Vec<u8>)
    ensures
        final(frame)@.len() == old(frame)@.len(),
        forall|j: int| 0 <= j < final(frame)@.len() ==> final(frame)@[j] == 0u8,
{
    let n: usize = frame.len();
    let mut i: usize = 0;
    while i < n
        invariant
            i <= n,
            frame@.len() == n,
            forall|j: int| 0 <= j < i ==> frame@[j] == 0u8,
        decreases n - i,
    {
        frame.set(i, 0u8);
        i = i + 1;
    }
}

} // verus!
