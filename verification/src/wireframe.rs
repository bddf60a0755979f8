//! Wireframe drawing: three edges per screen-space triangle, and the
//! per-frame pass that clears the buffer and draws a whole scene.

use vstd::prelude::*;

verus! {

use crate::buffer::{buf_wf, byte_of_pixel, clear_frame, in_bounds, pixel_is, pix_index};
use crate::buffer::{lemma_pix_index_disjoint, lemma_pix_index_in_range};
use crate::line::{line, line_covers_byte, line_len, line_pixels_colored, line_point};
use crate::line::lemma_line_endpoints;

/// A triangle after projection: three vertices in integer pixel space.
/// Vertices may lie outside the buffer rectangle; drawing clips.
#[derive(Clone, Copy, Debug, PartialEq, Eq, Structural)]
pub struct ScreenTriangle {
    pub x1: u32,
    pub y1: u32,
    pub x2: u32,
    pub y2: u32,
    pub x3: u32,
    pub y3: u32,
}

/// All three edges of `t` are drawn in `color`: every in-bounds pixel
/// of each edge's walk holds the color bytes.
pub open spec fn tri_edges_colored(
    buf: Seq<u8>,
    width: int,
    height: int,
    t: ScreenTriangle,
    color: Seq<u8>,
) -> bool {
    &&& line_pixels_colored(
        buf,
        width,
        height,
        t.x1 as int,
        t.y1 as int,
        t.x2 as int,
        t.y2 as int,
        color,
    )
    &&& line_pixels_colored(
        buf,
        width,
        height,
        t.x1 as int,
        t.y1 as int,
        t.x3 as int,
        t.y3 as int,
        color,
    )
    &&& line_pixels_colored(
        buf,
        width,
        height,
        t.x2 as int,
        t.y2 as int,
        t.x3 as int,
        t.y3 as int,
        color,
    )
}

/// Byte `j` belongs to an in-bounds pixel of one of the three edges of
/// `t`.
pub open spec fn tri_covers_byte(t: ScreenTriangle, width: int, height: int, j: int) -> bool {
    ||| line_covers_byte(t.x1 as int, t.y1 as int, t.x2 as int, t.y2 as int, width, height, j)
    ||| line_covers_byte(t.x1 as int, t.y1 as int, t.x3 as int, t.y3 as int, width, height, j)
    ||| line_covers_byte(t.x2 as int, t.y2 as int, t.x3 as int, t.y3 as int, width, height, j)
}

/// `post` differs from `pre` only at bytes that, in `post`, belong to
/// an in-bounds pixel wholly set to `color`.
pub open spec fn only_colored_writes(
    pre: Seq<u8>,
    post: Seq<u8>,
    width: int,
    height: int,
    color: Seq<u8>,
) -> bool {
    &&& post.len() == pre.len()
    &&& forall|j: int|
        #![trigger post[j]]
        0 <= j < post.len() ==> post[j] == pre[j] || exists|x: int, y: int|
            #![trigger byte_of_pixel(width, x, y, j)]
            in_bounds(x, y, width, height) && byte_of_pixel(width, x, y, j) && pixel_is(
                post,
                width,
                x,
                y,
                color,
            )
}

/// The contract of `line` entails `only_colored_writes`: a drawn line
/// changes bytes only inside pixels it painted.
pub proof fn lemma_line_writes_colored(
    pre: Seq<u8>,
    post: Seq<u8>,
    width: int,
    height: int,
    x0: int,
    y0: int,
    x1: int,
    y1: int,
    color: Seq<u8>,
)
    requires
        post.len() == pre.len(),
        line_pixels_colored(post, width, height, x0, y0, x1, y1, color),
        forall|j: int|
            0 <= j < pre.len() && !line_covers_byte(x0, y0, x1, y1, width, height, j) ==> post[j]
                == pre[j],
    ensures
        only_colored_writes(pre, post, width, height, color),
{
    assert forall|j: int| #![trigger post[j]] 0 <= j < post.len() implies post[j] == pre[j]
        || exists|x: int, y: int|
        #![trigger byte_of_pixel(width, x, y, j)]
        in_bounds(x, y, width, height) && byte_of_pixel(width, x, y, j) && pixel_is(
            post,
            width,
            x,
            y,
            color,
        ) by {
        if line_covers_byte(x0, y0, x1, y1, width, height, j) {
            let k = choose|k: int|
                #![trigger line_point(x0, y0, x1, y1, k)]
                0 <= k < line_len(x0, y0, x1, y1) && in_bounds(
                    line_point(x0, y0, x1, y1, k).0,
                    line_point(x0, y0, x1, y1, k).1,
                    width,
                    height,
                ) && byte_of_pixel(
                    width,
                    line_point(x0, y0, x1, y1, k).0,
                    line_point(x0, y0, x1, y1, k).1,
                    j,
                );
            let p = line_point(x0, y0, x1, y1, k);
            assert(in_bounds(p.0, p.1, width, height) && byte_of_pixel(width, p.0, p.1, j)
                && pixel_is(post, width, p.0, p.1, color));
        }
    }
}

/// One byte of a colored pixel keeps its color across a pass that makes
/// only colored writes.
proof fn lemma_byte_colored(
    pre: Seq<u8>,
    post: Seq<u8>,
    width: int,
    height: int,
    color: Seq<u8>,
    x: int,
    y: int,
    c: int,
)
    requires
        pre.len() == width * height * 4,
        only_colored_writes(pre, post, width, height, color),
        in_bounds(x, y, width, height),
        pixel_is(pre, width, x, y, color),
        0 <= c < 4,
    ensures
        post[pix_index(width, x, y) + c] == color[c],
{
    lemma_pix_index_in_range(width, height, x, y);
    let j = pix_index(width, x, y) + c;
    if post[j] != pre[j] {
        let (qx, qy) = choose|qx: int, qy: int|
            #![trigger byte_of_pixel(width, qx, qy, j)]
            in_bounds(qx, qy, width, height) && byte_of_pixel(width, qx, qy, j) && pixel_is(
                post,
                width,
                qx,
                qy,
                color,
            );
        if qx != x || qy != y {
            lemma_pix_index_disjoint(width, height, x, y, qx, qy);
        }
        assert(qx == x && qy == y);
    }
}

/// A whole colored pixel keeps its color across a pass that makes only
/// colored writes.
pub proof fn lemma_pixel_colored_preserved(
    pre: Seq<u8>,
    post: Seq<u8>,
    width: int,
    height: int,
    color: Seq<u8>,
    x: int,
    y: int,
)
    requires
        pre.len() == width * height * 4,
        only_colored_writes(pre, post, width, height, color),
        in_bounds(x, y, width, height),
        pixel_is(pre, width, x, y, color),
    ensures
        pixel_is(post, width, x, y, color),
{
    lemma_byte_colored(pre, post, width, height, color, x, y, 0);
    lemma_byte_colored(pre, post, width, height, color, x, y, 1);
    lemma_byte_colored(pre, post, width, height, color, x, y, 2);
    lemma_byte_colored(pre, post, width, height, color, x, y, 3);
}

/// A fully drawn line keeps all its pixels across a pass that makes
/// only colored writes in the same color.
pub proof fn lemma_line_colored_preserved(
    pre: Seq<u8>,
    post: Seq<u8>,
    width: int,
    height: int,
    x0: int,
    y0: int,
    x1: int,
    y1: int,
    color: Seq<u8>,
)
    requires
        pre.len() == width * height * 4,
        only_colored_writes(pre, post, width, height, color),
        line_pixels_colored(pre, width, height, x0, y0, x1, y1, color),
    ensures
        line_pixels_colored(post, width, height, x0, y0, x1, y1, color),
{
    assert forall|k: int|
        #![trigger line_point(x0, y0, x1, y1, k)]
        0 <= k < line_len(x0, y0, x1, y1) && in_bounds(
            line_point(x0, y0, x1, y1, k).0,
            line_point(x0, y0, x1, y1, k).1,
            width,
            height,
        ) implies pixel_is(
        post,
        width,
        line_point(x0, y0, x1, y1, k).0,
        line_point(x0, y0, x1, y1, k).1,
        color,
    ) by {
        let p = line_point(x0, y0, x1, y1, k);
        lemma_pixel_colored_preserved(pre, post, width, height, color, p.0, p.1);
    }
}

/// Only-colored-writes passes compose.
pub proof fn lemma_only_colored_writes_trans(
    a: Seq<u8>,
    b: Seq<u8>,
    c: Seq<u8>,
    width: int,
    height: int,
    color: Seq<u8>,
)
    requires
        a.len() == width * height * 4,
        only_colored_writes(a, b, width, height, color),
        only_colored_writes(b, c, width, height, color),
    ensures
        only_colored_writes(a, c, width, height, color),
{
    assert forall|j: int| #![trigger c[j]] 0 <= j < c.len() implies c[j] == a[j] || exists|
        x: int,
        y: int,
    |
        #![trigger byte_of_pixel(width, x, y, j)]
        in_bounds(x, y, width, height) && byte_of_pixel(width, x, y, j) && pixel_is(
            c,
            width,
            x,
            y,
            color,
        ) by {
        if c[j] == b[j] {
            if b[j] != a[j] {
                let (qx, qy) = choose|qx: int, qy: int|
                    #![trigger byte_of_pixel(width, qx, qy, j)]
                    in_bounds(qx, qy, width, height) && byte_of_pixel(width, qx, qy, j) && pixel_is(
                        b,
                        width,
                        qx,
                        qy,
                        color,
                    );
                lemma_pixel_colored_preserved(b, c, width, height, color, qx, qy);
                assert(in_bounds(qx, qy, width, height) && byte_of_pixel(width, qx, qy, j)
                    && pixel_is(c, width, qx, qy, color));
            }
        }
    }
}

/// Draw the three edges of `t` (vertex 1 to 2, 1 to 3, 2 to 3) in
/// `color`. Afterwards every in-bounds pixel of every edge holds the
/// color — in particular each in-bounds vertex, where two edges meet —
/// and no byte outside the three edges has changed.
pub fn draw_triangle_edges(
    frame: &mut Vec<u8>,
    width: u32,
    height: u32,
    color: &[u8; 4],
    t: &ScreenTriangle,
)
    requires
        buf_wf(old(frame)@, width as int, height as int),
    ensures
        buf_wf(final(frame)@, width as int, height as int),
        tri_edges_colored(final(frame)@, width as int, height as int, *t, color@),
        only_colored_writes(old(frame)@, final(frame)@, width as int, height as int, color@),
        forall|j: int|
            0 <= j < old(frame)@.len() && !tri_covers_byte(*t, width as int, height as int, j)
                ==> final(frame)@[j] == old(frame)@[j],
        in_bounds(t.x1 as int, t.y1 as int, width as int, height as int) ==> pixel_is(
            final(frame)@,
            width as int,
            t.x1 as int,
            t.y1 as int,
            color@,
        ),
        in_bounds(t.x2 as int, t.y2 as int, width as int, height as int) ==> pixel_is(
            final(frame)@,
            width as int,
            t.x2 as int,
            t.y2 as int,
            color@,
        ),
        in_bounds(t.x3 as int, t.y3 as int, width as int, height as int) ==> pixel_is(
            final(frame)@,
            width as int,
            t.x3 as int,
            t.y3 as int,
            color@,
        ),
{
    let ghost gw: int = width as int;
    let ghost gh: int = height as int;
    let ghost f0 = frame@;
    line(frame, width, height, color, t.x1, t.x2, t.y1, t.y2);
    let ghost f1 = frame@;
    proof {
        lemma_line_writes_colored(
            f0,
            f1,
            gw,
            gh,
            t.x1 as int,
            t.y1 as int,
            t.x2 as int,
            t.y2 as int,
            color@,
        );
    }
    line(frame, width, height, color, t.x1, t.x3, t.y1, t.y3);
    let ghost f2 = frame@;
    proof {
        lemma_line_writes_colored(
            f1,
            f2,
            gw,
            gh,
            t.x1 as int,
            t.y1 as int,
            t.x3 as int,
            t.y3 as int,
            color@,
        );
        lemma_line_colored_preserved(
            f1,
            f2,
            gw,
            gh,
            t.x1 as int,
            t.y1 as int,
            t.x2 as int,
            t.y2 as int,
            color@,
        );
        lemma_only_colored_writes_trans(f0, f1, f2, gw, gh, color@);
    }
    line(frame, width, height, color, t.x2, t.x3, t.y2, t.y3);
    let ghost f3 = frame@;
    proof {
        lemma_line_writes_colored(
            f2,
            f3,
            gw,
            gh,
            t.x2 as int,
            t.y2 as int,
            t.x3 as int,
            t.y3 as int,
            color@,
        );
        lemma_line_colored_preserved(
            f2,
            f3,
            gw,
            gh,
            t.x1 as int,
            t.y1 as int,
            t.x2 as int,
            t.y2 as int,
            color@,
        );
        lemma_line_colored_preserved(
            f2,
            f3,
            gw,
            gh,
            t.x1 as int,
            t.y1 as int,
            t.x3 as int,
            t.y3 as int,
            color@,
        );
        lemma_only_colored_writes_trans(f0, f2, f3, gw, gh, color@);
        // Each vertex is an endpoint of the walk of one of its edges,
        // so an in-bounds vertex pixel holds the color.
        lemma_line_endpoints(t.x1 as int, t.y1 as int, t.x2 as int, t.y2 as int);
        lemma_line_endpoints(t.x2 as int, t.y2 as int, t.x3 as int, t.y3 as int);
    }
}

/// One rendering pass: clear the buffer to zero, then draw the
/// wireframe of every triangle of the scene in `color`. Afterwards the
/// buffer is fully determined: edge pixels hold the color, every other
/// byte is zero.
pub fn render_wireframe(
    frame: &mut Vec<u8>,
    width: u32,
    height: u32,
    color: &[u8; 4],
    tris: &Vec<ScreenTriangle>,
)
    requires
        buf_wf(old(frame)@, width as int, height as int),
    ensures
        buf_wf(final(frame)@, width as int, height as int),
        forall|i: int|
            0 <= i < tris@.len() ==> tri_edges_colored(
                final(frame)@,
                width as int,
                height as int,
                tris@[i],
                color@,
            ),
        forall|j: int|
            0 <= j < final(frame)@.len() && (forall|i: int|
                0 <= i < tris@.len() ==> !tri_covers_byte(tris@[i], width as int, height as int, j))
                ==> final(frame)@[j] == 0u8,
{
    let ghost gw: int = width as int;
    let ghost gh: int = height as int;
    clear_frame(frame);
    let n: usize = tris.len();
    let mut i: usize = 0;
    while i < n
        invariant
            buf_wf(frame@, gw, gh),
            gw == width as int && gh == height as int,
            n == tris@.len(),
            i <= n,
            forall|t: int|
                0 <= t < i ==> tri_edges_colored(frame@, gw, gh, tris@[t], color@),
            forall|j: int|
                0 <= j < frame@.len() && (forall|t: int|
                    0 <= t < i ==> !tri_covers_byte(tris@[t], gw, gh, j)) ==> frame@[j] == 0u8,
        decreases n - i,
    {
        let ti: ScreenTriangle = tris[i];
        let ghost fprev = frame@;
        draw_triangle_edges(frame, width, height, color, &ti);
        proof {
            assert forall|t: int|
                0 <= t < i + 1 implies tri_edges_colored(frame@, gw, gh, tris@[t], color@) by {
                if t < i {
                    let tt = tris@[t];
                    lemma_line_colored_preserved(
                        fprev,
                        frame@,
                        gw,
                        gh,
                        tt.x1 as int,
                        tt.y1 as int,
                        tt.x2 as int,
                        tt.y2 as int,
                        color@,
                    );
                    lemma_line_colored_preserved(
                        fprev,
                        frame@,
                        gw,
                        gh,
                        tt.x1 as int,
                        tt.y1 as int,
                        tt.x3 as int,
                        tt.y3 as int,
                        color@,
                    );
                    lemma_line_colored_preserved(
                        fprev,
                        frame@,
                        gw,
                        gh,
                        tt.x2 as int,
                        tt.y2 as int,
                        tt.x3 as int,
                        tt.y3 as int,
                        color@,
                    );
                }
            }
            assert forall|j: int|
                0 <= j < frame@.len() && (forall|t: int|
                    0 <= t < i + 1 ==> !tri_covers_byte(tris@[t], gw, gh, j)) implies frame@[j]
                == 0u8 by {
                assert(!tri_covers_byte(tris@[i as int], gw, gh, j));
                assert(frame@[j] == fprev[j]);
            }
        }
        i = i + 1;
    }
}

} // verus!
