use wireframe::buffer::{clear_frame, set_pixel};
use wireframe::wireframe::{draw_triangle_edges, render_wireframe, ScreenTriangle};

fn buf(w: u32, h: u32) -> Vec<u8> {
    vec![0u8; (w * h * 4) as usize]
}

fn pixel_at(frame: &Vec<u8>, w: u32, x: u32, y: u32) -> [u8; 4] {
    let i = ((y * w + x) * 4) as usize;
    [frame[i], frame[i + 1], frame[i + 2], frame[i + 3]]
}

fn count_colored(frame: &Vec<u8>, w: u32, h: u32, color: [u8; 4]) -> usize {
    let mut n = 0usize;
    for y in 0..h {
        for x in 0..w {
            if pixel_at(frame, w, x, y) == color {
                n += 1;
            }
        }
    }
    n
}

const COLOR: [u8; 4] = [0x5e, 0x48, 0xe8, 0xff];

#[test]
fn set_pixel_writes_exact_bytes() {
    let w = 16u32;
    let h = 8u32;
    let mut frame = buf(w, h);
    set_pixel(&mut frame, w, h, 3, 2, &COLOR);
    assert_eq!(pixel_at(&frame, w, 3, 2), COLOR);
    assert_eq!(count_colored(&frame, w, h, COLOR), 1);
    let zeros = frame.iter().filter(|&&b| b == 0).count();
    assert_eq!(zeros, frame.len() - 4);
}

#[test]
fn clear_frame_zeroes_everything() {
    let w = 10u32;
    let h = 10u32;
    let mut frame: Vec<u8> = (0..w * h * 4).map(|i| (i % 251) as u8).collect();
    clear_frame(&mut frame);
    assert_eq!(frame.len(), (w * h * 4) as usize);
    assert!(frame.iter().all(|&b| b == 0));
}

#[test]
fn degenerate_line_writes_one_pixel() {
    let w = 32u32;
    let h = 32u32;
    let mut frame = buf(w, h);
    wireframe::line::line(&mut frame, w, h, &COLOR, 7, 7, 9, 9);
    assert_eq!(pixel_at(&frame, w, 7, 9), COLOR);
    assert_eq!(count_colored(&frame, w, h, COLOR), 1);
}

#[test]
fn horizontal_line_exact_bytes() {
    let w = 64u32;
    let h = 16u32;
    let mut frame = buf(w, h);
    wireframe::line::line(&mut frame, w, h, &COLOR, 10, 20, 5, 5);
    for x in 10..=20 {
        assert_eq!(pixel_at(&frame, w, x, 5), COLOR);
    }
    assert_eq!(count_colored(&frame, w, h, COLOR), 11);
}

#[test]
fn vertical_line_one_pixel_per_row() {
    let w = 16u32;
    let h = 64u32;
    let mut frame = buf(w, h);
    wireframe::line::line(&mut frame, w, h, &COLOR, 4, 4, 50, 12);
    for y in 12..=50 {
        assert_eq!(pixel_at(&frame, w, 4, y), COLOR);
    }
    assert_eq!(count_colored(&frame, w, h, COLOR), 39);
}

#[test]
fn diagonal_line_endpoints_and_no_gaps() {
    let w = 32u32;
    let h = 32u32;
    let mut frame = buf(w, h);
    wireframe::line::line(&mut frame, w, h, &COLOR, 2, 12, 3, 9);
    // Endpoints included.
    assert_eq!(pixel_at(&frame, w, 2, 3), COLOR);
    assert_eq!(pixel_at(&frame, w, 12, 9), COLOR);
    // Driving axis is x (span 10 >= span 6): exactly one pixel per column.
    for x in 2..=12 {
        let set_in_col = (0..h).filter(|&y| pixel_at(&frame, w, x, y) == COLOR).count();
        assert_eq!(set_in_col, 1, "column {x}");
    }
    assert_eq!(count_colored(&frame, w, h, COLOR), 11);
}

#[test]
fn steep_line_one_pixel_per_row() {
    let w = 32u32;
    let h = 32u32;
    let mut frame = buf(w, h);
    wireframe::line::line(&mut frame, w, h, &COLOR, 5, 9, 2, 25);
    assert_eq!(pixel_at(&frame, w, 5, 2), COLOR);
    assert_eq!(pixel_at(&frame, w, 9, 25), COLOR);
    for y in 2..=25 {
        let set_in_row = (0..w).filter(|&x| pixel_at(&frame, w, x, y) == COLOR).count();
        assert_eq!(set_in_row, 1, "row {y}");
    }
}

#[test]
fn descending_diagonal_does_not_panic() {
    // Perfect diagonals whose final error step would move past the last
    // endpoint; must complete and include both endpoints.
    let w = 16u32;
    let h = 16u32;
    let mut frame = buf(w, h);
    wireframe::line::line(&mut frame, w, h, &COLOR, 5, 0, 5, 0);
    assert_eq!(pixel_at(&frame, w, 5, 5), COLOR);
    assert_eq!(pixel_at(&frame, w, 0, 0), COLOR);
    let mut frame2 = buf(w, h);
    wireframe::line::line(&mut frame2, w, h, &COLOR, 0, 5, 5, 0);
    assert_eq!(pixel_at(&frame2, w, 0, 5), COLOR);
    assert_eq!(pixel_at(&frame2, w, 5, 0), COLOR);
}

#[test]
fn line_order_of_endpoints_is_irrelevant() {
    let w = 40u32;
    let h = 40u32;
    let mut a = buf(w, h);
    let mut b = buf(w, h);
    wireframe::line::line(&mut a, w, h, &COLOR, 3, 31, 7, 22);
    wireframe::line::line(&mut b, w, h, &COLOR, 31, 3, 22, 7);
    assert_eq!(a, b);
}

#[test]
fn out_of_bounds_endpoint_is_clipped() {
    let w = 640u32;
    let h = 480u32;
    let mut frame = buf(w, h);
    // Right endpoint far outside the buffer: only columns inside are drawn.
    wireframe::line::line(&mut frame, w, h, &COLOR, 10, 700, 5, 5);
    for x in 10..w {
        assert_eq!(pixel_at(&frame, w, x, 5), COLOR);
    }
    assert_eq!(count_colored(&frame, w, h, COLOR), (w - 10) as usize);
}

#[test]
fn fully_out_of_bounds_line_writes_nothing() {
    let w = 32u32;
    let h = 32u32;
    let mut frame = buf(w, h);
    wireframe::line::line(&mut frame, w, h, &COLOR, 100, 200, 50, 90);
    assert!(frame.iter().all(|&b| b == 0));
}

#[test]
fn out_of_bounds_steep_line_does_not_crash() {
    let w = 8u32;
    let h = 8u32;
    let mut frame = buf(w, h);
    wireframe::line::line(&mut frame, w, h, &COLOR, 2, 1000, 0, 4_000_000);
    assert_eq!(frame.len(), (w * h * 4) as usize);
}

#[test]
fn triangle_edges_share_vertices() {
    let w = 64u32;
    let h = 64u32;
    let mut frame = buf(w, h);
    let t = ScreenTriangle { x1: 10, y1: 10, x2: 50, y2: 12, x3: 30, y3: 40 };
    draw_triangle_edges(&mut frame, w, h, &COLOR, &t);
    // Endpoint exactness: all three computed vertex pixels are set.
    assert_eq!(pixel_at(&frame, w, 10, 10), COLOR);
    assert_eq!(pixel_at(&frame, w, 50, 12), COLOR);
    assert_eq!(pixel_at(&frame, w, 30, 40), COLOR);
}

#[test]
fn render_clears_stale_content_then_draws() {
    let w = 64u32;
    let h = 64u32;
    let mut frame: Vec<u8> = (0..w * h * 4).map(|i| (i % 253) as u8).collect();
    let t = ScreenTriangle { x1: 5, y1: 5, x2: 20, y2: 5, x3: 12, y3: 18 };
    let tris = vec![t];
    render_wireframe(&mut frame, w, h, &COLOR, &tris);
    assert_eq!(pixel_at(&frame, w, 5, 5), COLOR);
    assert_eq!(pixel_at(&frame, w, 20, 5), COLOR);
    assert_eq!(pixel_at(&frame, w, 12, 18), COLOR);
    // A pixel far from all edges was cleared to zero.
    assert_eq!(pixel_at(&frame, w, 55, 55), [0, 0, 0, 0]);
    // Every pixel is either the color or fully zero.
    for y in 0..h {
        for x in 0..w {
            let p = pixel_at(&frame, w, x, y);
            assert!(p == COLOR || p == [0, 0, 0, 0], "pixel {x},{y}");
        }
    }
}

#[test]
fn render_empty_scene_only_clears() {
    let w = 16u32;
    let h = 16u32;
    let mut frame: Vec<u8> = (0..w * h * 4).map(|_| 0xaau8).collect();
    let tris: Vec<ScreenTriangle> = Vec::new();
    render_wireframe(&mut frame, w, h, &COLOR, &tris);
    assert!(frame.iter().all(|&b| b == 0));
}
