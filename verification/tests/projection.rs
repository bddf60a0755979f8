use glam::{Mat4, Vec2, Vec3, Vec4};
use wireframe::wireframe::{draw_triangle_edges, ScreenTriangle};

const WIDTH: u32 = 640;
const HEIGHT: u32 = 480;
const COLOR: [u8; 4] = [0x5e, 0x48, 0xe8, 0xff];

fn perspective_divide(v: Vec4) -> Vec2 {
    Vec2::new(v.x / v.z, v.y / v.z)
}

fn convert_to_ndc(v: Vec2, width: u32, height: u32) -> Vec2 {
    let fw = width as f32;
    let fh = height as f32;
    Vec2::new((v.x + fw / 2.0) / fw, (v.y + fh / 2.0) / fh)
}

fn convert_to_pixel(v: Vec2, width: u32, height: u32) -> Vec2 {
    let fw = width as f32;
    let fh = height as f32;
    Vec2::new(v.x * fw, (1.0 - v.y) * fh)
}

fn project(mvp: Mat4, v: Vec3) -> Vec2 {
    let clip = mvp * Vec4::new(v.x, v.y, v.z, 1.0);
    let screen = perspective_divide(clip);
    let ndc = convert_to_ndc(screen, WIDTH, HEIGHT);
    convert_to_pixel(ndc, WIDTH, HEIGHT)
}

fn scene_mvp(rotation_x: f32) -> Mat4 {
    let translation = Mat4::from_translation(Vec3::new(0.0, 0.0, -1.0));
    let projection =
        Mat4::perspective_rh_gl(f32::to_radians(90.0), 16.0 / 9.0, 0.1, 100.0);
    let rotation = Mat4::from_rotation_x(rotation_x);
    projection * rotation * translation
}

fn scene_vertices() -> [Vec3; 3] {
    [
        Vec3::new(-50.0, 0.0, 0.0),
        Vec3::new(50.0, 0.0, 0.0),
        Vec3::new(0.0, 50.0, 0.0),
    ]
}

#[test]
fn fixed_projection_is_deterministic() {
    let verts = scene_vertices();
    let mvp_a = scene_mvp(0.0);
    let mvp_b = scene_mvp(0.0);
    let mut pixels_a: Vec<(u32, u32)> = Vec::new();
    let mut pixels_b: Vec<(u32, u32)> = Vec::new();
    for v in verts.iter() {
        let pa = project(mvp_a, *v);
        let pb = project(mvp_b, *v);
        // Re-running the transform with identical inputs reproduces
        // bit-identical floating-point results.
        assert_eq!(pa.x.to_bits(), pb.x.to_bits());
        assert_eq!(pa.y.to_bits(), pb.y.to_bits());
        assert!(pa.x.is_finite() && pa.y.is_finite());
        pixels_a.push((pa.x as u32, pa.y as u32));
        pixels_b.push((pb.x as u32, pb.y as u32));
    }
    assert_eq!(pixels_a, pixels_b);
    // The three vertices land inside the buffer; draw them and check
    // each computed vertex pixel was written.
    let t = ScreenTriangle {
        x1: pixels_a[0].0,
        y1: pixels_a[0].1,
        x2: pixels_a[1].0,
        y2: pixels_a[1].1,
        x3: pixels_a[2].0,
        y3: pixels_a[2].1,
    };
    let mut frame = vec![0u8; (WIDTH * HEIGHT * 4) as usize];
    draw_triangle_edges(&mut frame, WIDTH, HEIGHT, &COLOR, &t);
    for &(x, y) in pixels_a.iter() {
        assert!(x < WIDTH && y < HEIGHT, "vertex ({x},{y}) in bounds");
        let i = ((y * WIDTH + x) * 4) as usize;
        assert_eq!([frame[i], frame[i + 1], frame[i + 2], frame[i + 3]], COLOR);
    }
}

#[test]
fn full_turn_rotation_matches_identity() {
    let verts = scene_vertices();
    let mvp_id = scene_mvp(0.0);
    let mvp_turn = scene_mvp(2.0 * std::f32::consts::PI);
    for v in verts.iter() {
        let p0 = project(mvp_id, *v);
        let p1 = project(mvp_turn, *v);
        assert!((p0.x - p1.x).abs() < 0.1, "{} vs {}", p0.x, p1.x);
        assert!((p0.y - p1.y).abs() < 0.1, "{} vs {}", p0.y, p1.y);
    }
}
