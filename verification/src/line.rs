//! Integer line rasterization: a midpoint (Bresenham-style) walk along
//! the driving axis, modelled by `line_point`, and an executable drawer
//! that clips every sample to the buffer rectangle.
//!
//! The model first normalizes the endpoints: if the vertical span
//! exceeds the horizontal span the axes are transposed (the "steep"
//! case), then the endpoints are ordered so the walk runs from the
//! smaller to the larger coordinate on the driving axis. Pixel `k` of
//! the walk sits at driving coordinate `ua + k`; the other coordinate
//! follows an error accumulator that bumps by one unit whenever the
//! accumulated error exceeds the run length.

use vstd::prelude::*;

verus! {

use crate::buffer::{buf_wf, byte_of_pixel, in_bounds, pixel_is, pix_index};
use crate::buffer::{lemma_pix_index_disjoint, lemma_pix_index_in_range, set_pixel};

/// Absolute difference of two integers.
pub open spec fn abs_diff(a: int, b: int) -> int {
    if a >= b {
        a - b
    } else {
        b - a
    }
}

/// A segment is steep when its vertical span exceeds its horizontal
/// span; the walk then drives along y instead of x.
pub open spec fn is_steep(x0: int, y0: int, x1: int, y1: int) -> bool {
    abs_diff(x0, x1) < abs_diff(y0, y1)
}

/// Endpoints after normalization: transposed if steep, then ordered so
/// the driving coordinate does not decrease. Returns
/// `(ua, va, ub, vb)` with `ua <= ub`, where `u` is the driving axis.
pub open spec fn norm_endpoints(x0: int, y0: int, x1: int, y1: int) -> (int, int, int, int) {
    let u0: int = if is_steep(x0, y0, x1, y1) { y0 } else { x0 };
    let v0: int = if is_steep(x0, y0, x1, y1) { x0 } else { y0 };
    let u1: int = if is_steep(x0, y0, x1, y1) { y1 } else { x1 };
    let v1: int = if is_steep(x0, y0, x1, y1) { x1 } else { y1 };
    if u0 > u1 {
        (u1, v1, u0, v0)
    } else {
        (u0, v0, u1, v1)
    }
}

/// One advance of the error accumulator: add `derror`; past `dx`, step
/// the non-driving coordinate by `vstep` and pull the error back.
pub open spec fn bres_step(s: (int, int), vstep: int, derror: int, dx: int) -> (int, int) {
    let e: int = s.1 + derror;
    if e > dx {
        (s.0 + vstep, e - 2 * dx)
    } else {
        (s.0, e)
    }
}

/// State `(v, error)` of the walk after `k` advances, starting from
/// `(va, 0)`.
pub open spec fn bres_state(va: int, vstep: int, derror: int, dx: int, k: nat) -> (int, int)
    decreases k,
{
    if k == 0 {
        (va, 0)
    } else {
        bres_step(bres_state(va, vstep, derror, dx, (k - 1) as nat), vstep, derror, dx)
    }
}

/// Number of pixels the walk visits: one per driving coordinate from
/// `ua` to `ub`, both included.
pub open spec fn line_len(x0: int, y0: int, x1: int, y1: int) -> int {
    let n = norm_endpoints(x0, y0, x1, y1);
    n.2 - n.0 + 1
}

/// Pixel `k` of the walk, in the original (untransposed) axes.
pub open spec fn line_point(x0: int, y0: int, x1: int, y1: int, k: int) -> (int, int) {
    let n = norm_endpoints(x0, y0, x1, y1);
    let dx: int = n.2 - n.0;
    let dy: int = abs_diff(n.1, n.3);
    let vstep: int = if n.3 > n.1 { 1 } else { -1 };
    let v: int = bres_state(n.1, vstep, 2 * dy, dx, k as nat).0;
    if is_steep(x0, y0, x1, y1) {
        (v, n.0 + k)
    } else {
        (n.0 + k, v)
    }
}

/// How far the non-driving coordinate has moved from its start, counted
/// in unit steps of `vstep`.
pub open spec fn bres_bumps(va: int, vstep: int, v: int) -> int {
    if vstep == 1 {
        v - va
    } else {
        va - v
    }
}

/// Invariant of the error accumulator: after `k` advances the error
/// equals `2*k*dy - 2*m*dx` for `m` unit steps taken, stays within
/// `[-dx, dx]`, and `m` never exceeds `dy`.
pub proof fn lemma_bres_state_invariant(va: int, vstep: int, dy: int, dx: int, k: int)
    requires
        vstep == 1 || vstep == -1,
        0 <= dy <= dx,
        0 <= k <= dx,
    ensures
        ({
            let s = bres_state(va, vstep, 2 * dy, dx, k as nat);
            let m: int = bres_bumps(va, vstep, s.0);
            &&& s.1 == 2 * k * dy - 2 * m * dx
            &&& -dx <= s.1 <= dx
            &&& 0 <= m <= dy
        }),
    decreases k,
{
    let s = bres_state(va, vstep, 2 * dy, dx, k as nat);
    let m: int = bres_bumps(va, vstep, s.0);
    if k == 0 {
        assert(s == (va, 0int));
        assert(m == 0);
        assert(2 * k * dy == 0) by (nonlinear_arith)
            requires k == 0;
        assert(2 * m * dx == 0) by (nonlinear_arith)
            requires m == 0;
    } else {
        lemma_bres_state_invariant(va, vstep, dy, dx, k - 1);
        let p = bres_state(va, vstep, 2 * dy, dx, (k - 1) as nat);
        let mp: int = bres_bumps(va, vstep, p.0);
        assert(s == bres_step(p, vstep, 2 * dy, dx));
        let e: int = p.1 + 2 * dy;
        assert(e == 2 * (k - 1) * dy - 2 * mp * dx + 2 * dy);
        assert(2 * (k - 1) * dy + 2 * dy == 2 * k * dy) by (nonlinear_arith);
        if e > dx {
            assert(s.0 == p.0 + vstep);
            assert(m == mp + 1);
            assert(s.1 == e - 2 * dx);
            assert(2 * (mp + 1) * dx == 2 * mp * dx + 2 * dx) by (nonlinear_arith);
            assert(s.1 == 2 * k * dy - 2 * m * dx);
            // e <= dx + 2*dy <= 3*dx, so s.1 <= dx; e > dx gives s.1 > -dx.
            assert(-dx <= s.1 <= dx);
            // The error only exceeds dx when dy is positive.
            assert(1 <= dy);
            // m stays at most dy: from the error formula and its bounds.
            assert(m <= dy) by (nonlinear_arith)
                requires
                    s.1 == 2 * k * dy - 2 * m * dx,
                    -dx <= s.1,
                    k <= dx,
                    1 <= dy,
                    mp + 1 == m,
                    0 <= mp,
                    dy <= dx;
        } else {
            assert(s.0 == p.0 && m == mp);
            assert(s.1 == 2 * k * dy - 2 * m * dx);
            assert(-dx <= s.1 <= dx);
        }
    }
}

/// After the full run of `dx` advances the walk has taken exactly `dy`
/// unit steps, so it ends on the far endpoint's non-driving coordinate.
pub proof fn lemma_bres_final(va: int, vstep: int, dy: int, dx: int)
    requires
        vstep == 1 || vstep == -1,
        0 <= dy <= dx,
    ensures
        bres_state(va, vstep, 2 * dy, dx, dx as nat).0 == if vstep == 1 {
            va + dy
        } else {
            va - dy
        },
{
    lemma_bres_state_invariant(va, vstep, dy, dx, dx);
    let s = bres_state(va, vstep, 2 * dy, dx, dx as nat);
    let m: int = bres_bumps(va, vstep, s.0);
    if dx == 0 {
        assert(s.0 == va);
    } else {
        assert(m == dy) by (nonlinear_arith)
            requires
                s.1 == 2 * dx * dy - 2 * m * dx,
                -dx <= s.1 <= dx,
                dx >= 1;
    }
}

/// The walk of a line is never empty, and its first and last pixels are
/// exactly the two endpoints (in one order or the other).
pub proof fn lemma_line_endpoints(x0: int, y0: int, x1: int, y1: int)
    ensures
        line_len(x0, y0, x1, y1) >= 1,
        (line_point(x0, y0, x1, y1, 0) == (x0, y0) && line_point(
            x0,
            y0,
            x1,
            y1,
            line_len(x0, y0, x1, y1) - 1,
        ) == (x1, y1)) || (line_point(x0, y0, x1, y1, 0) == (x1, y1) && line_point(
            x0,
            y0,
            x1,
            y1,
            line_len(x0, y0, x1, y1) - 1,
        ) == (x0, y0)),
{
    let n = norm_endpoints(x0, y0, x1, y1);
    let dx: int = n.2 - n.0;
    let dy: int = abs_diff(n.1, n.3);
    let vstep: int = if n.3 > n.1 { 1 } else { -1 };
    assert(0 <= dy <= dx);
    lemma_bres_final(n.1, vstep, dy, dx);
    assert(bres_state(n.1, vstep, 2 * dy, dx, dx as nat).0 == n.3);
}

/// One pixel per driving coordinate: the walk is as long as the span of
/// the driving axis plus one, and pixel `k` sits `k` units past the
/// smaller driving coordinate.
pub proof fn lemma_line_driving_axis(x0: int, y0: int, x1: int, y1: int, k: int)
    requires
        0 <= k < line_len(x0, y0, x1, y1),
    ensures
        line_len(x0, y0, x1, y1) == 1 + if is_steep(x0, y0, x1, y1) {
            abs_diff(y0, y1)
        } else {
            abs_diff(x0, x1)
        },
        is_steep(x0, y0, x1, y1) ==> line_point(x0, y0, x1, y1, k).1 == k + if y0 <= y1 {
            y0
        } else {
            y1
        },
        !is_steep(x0, y0, x1, y1) ==> line_point(x0, y0, x1, y1, k).0 == k + if x0 <= x1 {
            x0
        } else {
            x1
        },
{
}

/// Consecutive pixels of the walk touch: one unit apart on the driving
/// axis, at most one unit apart on the other.
pub proof fn lemma_line_connected(x0: int, y0: int, x1: int, y1: int, k: int)
    requires
        0 <= k,
        k + 1 < line_len(x0, y0, x1, y1),
    ensures
        abs_diff(line_point(x0, y0, x1, y1, k).0, line_point(x0, y0, x1, y1, k + 1).0) <= 1,
        abs_diff(line_point(x0, y0, x1, y1, k).1, line_point(x0, y0, x1, y1, k + 1).1) <= 1,
        line_point(x0, y0, x1, y1, k) != line_point(x0, y0, x1, y1, k + 1),
{
    let n = norm_endpoints(x0, y0, x1, y1);
    let dx: int = n.2 - n.0;
    let dy: int = abs_diff(n.1, n.3);
    let vstep: int = if n.3 > n.1 { 1 } else { -1 };
    let s = bres_state(n.1, vstep, 2 * dy, dx, k as nat);
    assert(bres_state(n.1, vstep, 2 * dy, dx, (k + 1) as nat) == bres_step(
        s,
        vstep,
        2 * dy,
        dx,
    ));
}

/// Every pixel of the walk lies inside the axis-aligned box spanned by
/// the two endpoints.
pub proof fn lemma_line_in_box(x0: int, y0: int, x1: int, y1: int, k: int)
    requires
        0 <= k < line_len(x0, y0, x1, y1),
    ensures
        ({
            let p = line_point(x0, y0, x1, y1, k);
            &&& (if x0 <= x1 { x0 } else { x1 }) <= p.0 <= (if x0 <= x1 { x1 } else { x0 })
            &&& (if y0 <= y1 { y0 } else { y1 }) <= p.1 <= (if y0 <= y1 { y1 } else { y0 })
        }),
{
    let n = norm_endpoints(x0, y0, x1, y1);
    let dx: int = n.2 - n.0;
    let dy: int = abs_diff(n.1, n.3);
    let vstep: int = if n.3 > n.1 { 1 } else { -1 };
    lemma_bres_state_invariant(n.1, vstep, dy, dx, k);
}

/// A degenerate segment, both endpoints equal, rasterizes to exactly
/// that one pixel.
pub proof fn lemma_line_degenerate(x0: int, y0: int, x1: int, y1: int)
    requires
        x0 == x1,
        y0 == y1,
    ensures
        line_len(x0, y0, x1, y1) == 1,
        line_point(x0, y0, x1, y1, 0) == (x0, y0),
{
}

/// Byte `j` belongs to some in-bounds pixel among the first `kmax`
/// pixels of the walk.
pub open spec fn line_covers_byte_upto(
    x0: int,
    y0: int,
    x1: int,
    y1: int,
    width: int,
    height: int,
    kmax: int,
    j: int,
) -> bool {
    exists|k: int|
        #![trigger line_point(x0, y0, x1, y1, k)]
        0 <= k < kmax && in_bounds(
            line_point(x0, y0, x1, y1, k).0,
            line_point(x0, y0, x1, y1, k).1,
            width,
            height,
        ) && byte_of_pixel(width, line_point(x0, y0, x1, y1, k).0, line_point(x0, y0, x1, y1, k).1, j)
}

/// Byte `j` belongs to some in-bounds pixel of the whole walk.
pub open spec fn line_covers_byte(
    x0: int,
    y0: int,
    x1: int,
    y1: int,
    width: int,
    height: int,
    j: int,
) -> bool {
    line_covers_byte_upto(x0, y0, x1, y1, width, height, line_len(x0, y0, x1, y1), j)
}

/// Every in-bounds pixel of the walk holds the four bytes of `color`.
pub open spec fn line_pixels_colored(
    buf: Seq<u8>,
    width: int,
    height: int,
    x0: int,
    y0: int,
    x1: int,
    y1: int,
    color: Seq<u8>,
) -> bool {
    forall|k: int|
        #![trigger line_point(x0, y0, x1, y1, k)]
        0 <= k < line_len(x0, y0, x1, y1) && in_bounds(
            line_point(x0, y0, x1, y1, k).0,
            line_point(x0, y0, x1, y1, k).1,
            width,
            height,
        ) ==> pixel_is(
            buf,
            width,
            line_point(x0, y0, x1, y1, k).0,
            line_point(x0, y0, x1, y1, k).1,
            color,
        )
}

/// Coverage only grows with the pixel count.
pub proof fn lemma_covers_upto_monotone(
    x0: int,
    y0: int,
    x1: int,
    y1: int,
    width: int,
    height: int,
    k1: int,
    k2: int,
    j: int,
)
    requires
        k1 <= k2,
        line_covers_byte_upto(x0, y0, x1, y1, width, height, k1, j),
    ensures
        line_covers_byte_upto(x0, y0, x1, y1, width, height, k2, j),
{
    let i = choose|i: int|
        #![trigger line_point(x0, y0, x1, y1, i)]
        0 <= i < k1 && in_bounds(
            line_point(x0, y0, x1, y1, i).0,
            line_point(x0, y0, x1, y1, i).1,
            width,
            height,
        ) && byte_of_pixel(
            width,
            line_point(x0, y0, x1, y1, i).0,
            line_point(x0, y0, x1, y1, i).1,
            j,
        );
    assert(0 <= i < k2);
}

/// Draw the discretized segment from `(x0, y0)` to `(x1, y1)` into the
/// buffer in `color`. Every sample is clipped to the buffer rectangle:
/// pixels of the walk that are in bounds take the color, every other
/// byte of the buffer is untouched, and no write ever lands outside the
/// buffer, whatever the endpoints.
pub fn line(
    frame: &mut Vec<u8>,
    width: u32,
    height: u32,
    color: &[u8; 4],
    x0: u32,
    x1: u32,
    y0: u32,
    y1: u32,
)
    requires
        buf_wf(old(frame)@, width as int, height as int),
    ensures
        buf_wf(final(frame)@, width as int, height as int),
        line_pixels_colored(
            final(frame)@,
            width as int,
            height as int,
            x0 as int,
            y0 as int,
            x1 as int,
            y1 as int,
            color@,
        ),
        forall|j: int|
            0 <= j < old(frame)@.len() && !line_covers_byte(
                x0 as int,
                y0 as int,
                x1 as int,
                y1 as int,
                width as int,
                height as int,
                j,
            ) ==> final(frame)@[j] == old(frame)@[j],
{
    let ghost gx0: int = x0 as int;
    let ghost gy0: int = y0 as int;
    let ghost gx1: int = x1 as int;
    let ghost gy1: int = y1 as int;

    let xdiff: u32 = if x0 >= x1 { x0 - x1 } else { x1 - x0 };
    let ydiff: u32 = if y0 >= y1 { y0 - y1 } else { y1 - y0 };
    let steep: bool = xdiff < ydiff;
    assert(steep == is_steep(gx0, gy0, gx1, gy1));

    let (tu0, tv0, tu1, tv1): (u32, u32, u32, u32) = if steep {
        (y0, x0, y1, x1)
    } else {
        (x0, y0, x1, y1)
    };
    let (u0, v0, u1, v1): (u32, u32, u32, u32) = if tu0 > tu1 {
        (tu1, tv1, tu0, tv0)
    } else {
        (tu0, tv0, tu1, tv1)
    };
    assert((u0 as int, v0 as int, u1 as int, v1 as int) == norm_endpoints(gx0, gy0, gx1, gy1));

    let dx: u32 = u1 - u0;
    let dyabs: u32 = if v1 >= v0 { v1 - v0 } else { v0 - v1 };
    let derror: i64 = 2 * (dyabs as i64);
    let vstep_pos: bool = v1 > v0;
    let ghost vstep: int = if vstep_pos { 1int } else { -1int };
    let mut v: u32 = v0;
    let mut error: i64 = 0;
    let mut k: u64 = 0;
    let dxw: u64 = dx as u64;

    while k <= dxw
        invariant
            buf_wf(frame@, width as int, height as int),
            frame@.len() == old(frame)@.len(),
            gx0 == x0 as int && gy0 == y0 as int && gx1 == x1 as int && gy1 == y1 as int,
            steep == is_steep(gx0, gy0, gx1, gy1),
            (u0 as int, v0 as int, u1 as int, v1 as int) == norm_endpoints(gx0, gy0, gx1, gy1),
            u0 <= u1,
            dxw == u1 as int - u0 as int,
            dx as int == dxw as int,
            dyabs as int == abs_diff(v0 as int, v1 as int),
            dyabs as int <= dxw as int,
            derror == 2 * (dyabs as int),
            vstep == (if v1 > v0 { 1int } else { -1int }),
            vstep_pos == (v1 > v0),
            k <= dxw + 1,
            k <= dxw ==> (v as int, error as int) == bres_state(
                v0 as int,
                vstep,
                2 * (dyabs as int),
                dxw as int,
                k as nat,
            ),
            forall|i: int|
                #![trigger line_point(gx0, gy0, gx1, gy1, i)]
                0 <= i < k && in_bounds(
                    line_point(gx0, gy0, gx1, gy1, i).0,
                    line_point(gx0, gy0, gx1, gy1, i).1,
                    width as int,
                    height as int,
                ) ==> pixel_is(
                    frame@,
                    width as int,
                    line_point(gx0, gy0, gx1, gy1, i).0,
                    line_point(gx0, gy0, gx1, gy1, i).1,
                    color@,
                ),
            forall|j: int|
                0 <= j < frame@.len() && !line_covers_byte_upto(
                    gx0,
                    gy0,
                    gx1,
                    gy1,
                    width as int,
                    height as int,
                    k as int,
                    j,
                ) ==> frame@[j] == old(frame)@[j],
        decreases dxw + 1 - k,
    {
        proof {
            lemma_bres_state_invariant(v0 as int, vstep, dyabs as int, dxw as int, k as int);
        }
        let u: u32 = u0 + (k as u32);
        let (px, py): (u32, u32) = if steep {
            (v, u)
        } else {
            (u, v)
        };
        let ghost pk = line_point(gx0, gy0, gx1, gy1, k as int);
        assert(pk == (px as int, py as int));
        let ghost pre = frame@;
        if px < width && py < height {
            set_pixel(frame, width, height, px, py, color);
            proof {
                assert forall|i: int|
                    #![trigger line_point(gx0, gy0, gx1, gy1, i)]
                    0 <= i < k + 1 && in_bounds(
                        line_point(gx0, gy0, gx1, gy1, i).0,
                        line_point(gx0, gy0, gx1, gy1, i).1,
                        width as int,
                        height as int,
                    ) implies pixel_is(
                    frame@,
                    width as int,
                    line_point(gx0, gy0, gx1, gy1, i).0,
                    line_point(gx0, gy0, gx1, gy1, i).1,
                    color@,
                ) by {
                    let pi = line_point(gx0, gy0, gx1, gy1, i);
                    if i < k {
                        assert(pixel_is(pre, width as int, pi.0, pi.1, color@));
                        assert(pi != pk);
                        lemma_pix_index_disjoint(
                            width as int,
                            height as int,
                            pi.0,
                            pi.1,
                            pk.0,
                            pk.1,
                        );
                        lemma_pix_index_in_range(width as int, height as int, pi.0, pi.1);
                        let base = pix_index(width as int, pi.0, pi.1);
                        assert(!byte_of_pixel(width as int, pk.0, pk.1, base));
                        assert(frame@[base] == pre[base]);
                        assert(frame@[base + 1] == pre[base + 1]);
                        assert(frame@[base + 2] == pre[base + 2]);
                        assert(frame@[base + 3] == pre[base + 3]);
                    }
                }
                assert forall|j: int|
                    0 <= j < frame@.len() && !line_covers_byte_upto(
                        gx0,
                        gy0,
                        gx1,
                        gy1,
                        width as int,
                        height as int,
                        k as int + 1,
                        j,
                    ) implies frame@[j] == old(frame)@[j] by {
                    if byte_of_pixel(width as int, pk.0, pk.1, j) {
                        assert(line_covers_byte_upto(
                            gx0,
                            gy0,
                            gx1,
                            gy1,
                            width as int,
                            height as int,
                            k as int + 1,
                            j,
                        ));
                    }
                    if line_covers_byte_upto(
                        gx0,
                        gy0,
                        gx1,
                        gy1,
                        width as int,
                        height as int,
                        k as int,
                        j,
                    ) {
                        lemma_covers_upto_monotone(
                            gx0,
                            gy0,
                            gx1,
                            gy1,
                            width as int,
                            height as int,
                            k as int,
                            k as int + 1,
                            j,
                        );
                    }
                    assert(frame@[j] == pre[j]);
                    assert(pre[j] == old(frame)@[j]);
                }
            }
        } else {
            proof {
                assert forall|j: int|
                    0 <= j < frame@.len() && !line_covers_byte_upto(
                        gx0,
                        gy0,
                        gx1,
                        gy1,
                        width as int,
                        height as int,
                        k as int + 1,
                        j,
                    ) implies frame@[j] == old(frame)@[j] by {
                    if line_covers_byte_upto(
                        gx0,
                        gy0,
                        gx1,
                        gy1,
                        width as int,
                        height as int,
                        k as int,
                        j,
                    ) {
                        lemma_covers_upto_monotone(
                            gx0,
                            gy0,
                            gx1,
                            gy1,
                            width as int,
                            height as int,
                            k as int,
                            k as int + 1,
                            j,
                        );
                    }
                }
            }
        }
        if k < dxw {
            proof {
                assert(bres_state(
                    v0 as int,
                    vstep,
                    2 * (dyabs as int),
                    dxw as int,
                    (k + 1) as nat,
                ) == bres_step(
                    bres_state(v0 as int, vstep, 2 * (dyabs as int), dxw as int, k as nat),
                    vstep,
                    2 * (dyabs as int),
                    dxw as int,
                ));
                lemma_bres_state_invariant(
                    v0 as int,
                    vstep,
                    dyabs as int,
                    dxw as int,
                    k as int + 1,
                );
            }
            error = error + derror;
            if error > dx as i64 {
                proof {
                    let snext = bres_state(
                        v0 as int,
                        vstep,
                        2 * (dyabs as int),
                        dxw as int,
                        (k + 1) as nat,
                    );
                    let mnext = bres_bumps(v0 as int, vstep, snext.0);
                    assert(snext.0 == v as int + vstep);
                    assert(0 <= mnext <= dyabs as int);
                    if vstep == 1 {
                        assert(v as int + 1 <= v1 as int);
                    } else {
                        assert(v as int - 1 >= v1 as int);
                    }
                }
                v = if vstep_pos {
                    v + 1
                } else {
                    v - 1
                };
                error = error - 2 * (dx as i64);
            }
        }
        k = k + 1;
    }
    proof {
        assert(k as int == line_len(gx0, gy0, gx1, gy1));
    }
}

/// For endpoints inside the buffer rectangle the whole walk is inside
/// it, so a buffer satisfying `line`'s contract holds the color at
/// every pixel of the walk: no sample was clipped away, both endpoints
/// included, one pixel per driving coordinate.
pub proof fn lemma_line_in_bounds_fully_drawn(
    buf: Seq<u8>,
    width: int,
    height: int,
    x0: int,
    y0: int,
    x1: int,
    y1: int,
    color: Seq<u8>,
)
    requires
        line_pixels_colored(buf, width, height, x0, y0, x1, y1, color),
        in_bounds(x0, y0, width, height),
        in_bounds(x1, y1, width, height),
    ensures
        forall|k: int|
            #![trigger line_point(x0, y0, x1, y1, k)]
            0 <= k < line_len(x0, y0, x1, y1) ==> in_bounds(
                line_point(x0, y0, x1, y1, k).0,
                line_point(x0, y0, x1, y1, k).1,
                width,
                height,
            ) && pixel_is(
                buf,
                width,
                line_point(x0, y0, x1, y1, k).0,
                line_point(x0, y0, x1, y1, k).1,
                color,
            ),
{
    assert forall|k: int|
        #![trigger line_point(x0, y0, x1, y1, k)]
        0 <= k < line_len(x0, y0, x1, y1) implies in_bounds(
        line_point(x0, y0, x1, y1, k).0,
        line_point(x0, y0, x1, y1, k).1,
        width,
        height,
    ) && pixel_is(
        buf,
        width,
        line_point(x0, y0, x1, y1, k).0,
        line_point(x0, y0, x1, y1, k).1,
        color,
    ) by {
        lemma_line_in_box(x0, y0, x1, y1, k);
    }
}

/// A horizontal segment rasterizes to one pixel per column, all on the
/// shared row.
pub proof fn lemma_line_horizontal(x0: int, y0: int, x1: int, y1: int, k: int)
    requires
        y0 == y1,
        0 <= k < line_len(x0, y0, x1, y1),
    ensures
        line_len(x0, y0, x1, y1) == abs_diff(x0, x1) + 1,
        line_point(x0, y0, x1, y1, k) == (k + if x0 <= x1 { x0 } else { x1 }, y0),
{
    let n = norm_endpoints(x0, y0, x1, y1);
    let dx: int = n.2 - n.0;
    lemma_bres_state_invariant(n.1, -1, 0, dx, k);
}

} // verus!
