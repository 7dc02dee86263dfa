use planet_raster::depth::depth_key;
use planet_raster::framebuffer::{Color, Framebuffer, PixelWrite, FAR_DEPTH};
use planet_raster::mesh::{assemble_triangles, rasterize_mesh, Triangle};
use planet_raster::raster::ScreenPoint;
use planet_raster::selector::{frame_passes, planet_kind, render_mode, PlanetKind, RenderMode};

const WIDTH: i32 = 260;
const HEIGHT: i32 = 180;
const BACKGROUND: Color = Color { r: 30, g: 30, b: 30, a: 255 };
const BODY: Color = Color { r: 200, g: 170, b: 120, a: 255 };
const RING: Color = Color { r: 220, g: 210, b: 160, a: 255 };

#[derive(Clone, Copy)]
struct Vertex {
    position: [f32; 3],
    screen: [f32; 3],
}

/// Twelve vertices on a sphere of the given radius, as twenty triangles in a flat list.
fn icosahedron(radius: f32) -> Vec<Vertex> {
    let t = (1.0 + 5.0f32.sqrt()) / 2.0;
    let corners: [[f32; 3]; 12] = [
        [-1.0, t, 0.0],
        [1.0, t, 0.0],
        [-1.0, -t, 0.0],
        [1.0, -t, 0.0],
        [0.0, -1.0, t],
        [0.0, 1.0, t],
        [0.0, -1.0, -t],
        [0.0, 1.0, -t],
        [t, 0.0, -1.0],
        [t, 0.0, 1.0],
        [-t, 0.0, -1.0],
        [-t, 0.0, 1.0],
    ];
    let faces: [[usize; 3]; 20] = [
        [0, 11, 5],
        [0, 5, 1],
        [0, 1, 7],
        [0, 7, 10],
        [0, 10, 11],
        [1, 5, 9],
        [5, 11, 4],
        [11, 10, 2],
        [10, 7, 6],
        [7, 1, 8],
        [3, 9, 4],
        [3, 4, 2],
        [3, 2, 6],
        [3, 6, 8],
        [3, 8, 9],
        [4, 9, 5],
        [2, 4, 11],
        [6, 2, 10],
        [8, 6, 7],
        [9, 8, 1],
    ];
    let scale = radius / (1.0 + t * t).sqrt();
    let mut flat = Vec::new();
    for face in faces {
        for corner in face {
            let c = corners[corner];
            let position = [c[0] * scale, c[1] * scale, c[2] * scale];
            flat.push(Vertex { position, screen: position });
        }
    }
    flat
}

/// The vertex stage: the remap of the render mode, an identity model matrix, a camera at
/// (0, 0, 8) that looks at the origin, a 60 degree perspective and the viewport.
fn transform(vertex: &Vertex, render_type: i32, time: f32) -> Vertex {
    let p = vertex.position;
    let world = match render_mode(render_type) {
        RenderMode::Ring => {
            let angle = (p[0].atan2(p[1]) + time * 0.2) % (2.0 * std::f32::consts::PI);
            let base_radius = 1.8 + (p[2] * 0.3).sin() * 0.2;
            [base_radius * angle.cos(), p[1] * 0.05, base_radius * angle.sin()]
        }
        RenderMode::Moon => {
            let orbit = time * 0.4;
            [2.8 * orbit.cos() + p[0] * 0.25, (orbit * 3.0).sin() * 0.2 + p[1] * 0.25, 2.8 * orbit.sin() + p[2] * 0.25]
        }
        RenderMode::Body => p,
    };
    let view = [world[0], world[1], world[2] - 8.0];
    let f = 1.0 / (std::f32::consts::PI / 6.0).tan();
    let aspect = WIDTH as f32 / HEIGHT as f32;
    let (near, far) = (0.1f32, 100.0f32);
    let clip = [
        f / aspect * view[0],
        f * view[1],
        (far + near) / (near - far) * view[2] + 2.0 * far * near / (near - far),
        -view[2],
    ];
    let ndc = if clip[3] != 0.0 { [clip[0] / clip[3], clip[1] / clip[3], clip[2] / clip[3]] } else { [clip[0], clip[1], clip[2]] };
    let screen = [
        (ndc[0] + 1.0) * WIDTH as f32 / 2.0,
        (1.0 - ndc[1]) * HEIGHT as f32 / 2.0,
        ndc[2] * 0.5 + 0.5,
    ];
    Vertex { position: vertex.position, screen }
}

struct Shaded {
    x: i32,
    y: i32,
    depth: f32,
    world: [f32; 3],
}

/// Vertex stage, triangle assembly and rasterization of one pass, with depth and position
/// interpolated by the barycentric weights.
fn pass_fragments(mesh: &Vec<Vertex>, mode: RenderMode) -> Vec<Shaded> {
    let transformed: Vec<Vertex> = mesh.iter().map(|v| transform(v, mode.selector(), 0.0)).collect();
    let triangles = assemble_triangles(&transformed);
    let snapped: Vec<Triangle<ScreenPoint>> = triangles
        .iter()
        .map(|t| {
            let snap = |v: &Vertex| ScreenPoint { x: v.screen[0].round() as i32, y: v.screen[1].round() as i32 };
            Triangle { v0: snap(&t.v0), v1: snap(&t.v1), v2: snap(&t.v2) }
        })
        .collect();
    rasterize_mesh(&snapped)
        .iter()
        .map(|m| {
            let t = &triangles[m.triangle];
            let f = &m.fragment;
            let area = (f.w0 + f.w1 + f.w2) as f32;
            let w = [f.w0 as f32 / area, f.w1 as f32 / area, f.w2 as f32 / area];
            assert!((w[0] + w[1] + w[2] - 1.0).abs() < 1.0e-5);
            let blend = |a: f32, b: f32, c: f32| w[0] * a + w[1] * b + w[2] * c;
            Shaded {
                x: f.x,
                y: f.y,
                depth: blend(t.v0.screen[2], t.v1.screen[2], t.v2.screen[2]),
                world: [
                    blend(t.v0.position[0], t.v1.position[0], t.v2.position[0]),
                    blend(t.v0.position[1], t.v1.position[1], t.v2.position[1]),
                    blend(t.v0.position[2], t.v1.position[2], t.v2.position[2]),
                ],
            }
        })
        .collect()
}

fn body_pass(fb: &mut Framebuffer, mesh: &Vec<Vertex>) -> usize {
    let writes: Vec<PixelWrite> = pass_fragments(mesh, RenderMode::Body)
        .iter()
        .map(|s| PixelWrite { x: s.x, y: s.y, color: BODY, depth: depth_key(s.depth.to_bits()) })
        .collect();
    fb.draw(&writes);
    writes.len()
}

fn ring_pass(fb: &mut Framebuffer, mesh: &Vec<Vertex>) -> usize {
    let writes: Vec<PixelWrite> = pass_fragments(mesh, RenderMode::Ring)
        .iter()
        .filter(|s| {
            let radius = (s.world[0] * s.world[0] + s.world[2] * s.world[2]).sqrt();
            !(radius < 1.6 || radius > 2.4)
        })
        .map(|s| PixelWrite { x: s.x, y: s.y, color: RING, depth: depth_key(s.depth.to_bits()) })
        .collect();
    fb.draw(&writes);
    writes.len()
}

fn cleared() -> Framebuffer {
    let mut fb = Framebuffer::new(WIDTH as usize, HEIGHT as usize);
    fb.set_background_color(BACKGROUND);
    fb.clear();
    fb
}

#[test]
fn icosahedron_is_twenty_triangles() {
    let mesh = icosahedron(1.0);
    assert_eq!(mesh.len(), 60);
    assert_eq!(assemble_triangles(&mesh).len(), 20);
}

#[test]
fn ringed_planet_draws_body_then_rings() {
    assert_eq!(planet_kind(3), Some(PlanetKind::Ringed));
    assert_eq!(frame_passes(3), vec![RenderMode::Body, RenderMode::Ring]);
}

#[test]
fn body_pass_draws_the_planet_in_the_middle_of_the_picture() {
    let mesh = icosahedron(1.0);
    let mut fb = cleared();
    let written = body_pass(&mut fb, &mesh);
    assert!(written > 0);
    assert_eq!(fb.color_at(WIDTH / 2, HEIGHT / 2), Some(BODY));
    assert!(fb.depth_at(WIDTH / 2, HEIGHT / 2).unwrap() < FAR_DEPTH);
    assert_eq!(fb.color_at(0, 0), Some(BACKGROUND));
    assert_eq!(fb.depth_at(0, 0), Some(FAR_DEPTH));
    assert_eq!(fb.color_at(WIDTH - 1, HEIGHT - 1), Some(BACKGROUND));
}

#[test]
fn body_pass_keeps_the_nearest_surface() {
    let mesh = icosahedron(1.0);
    let mut fb = cleared();
    body_pass(&mut fb, &mesh);
    let fragments = pass_fragments(&mesh, RenderMode::Body);
    let nearest = fragments
        .iter()
        .filter(|s| (s.x, s.y) == (WIDTH / 2, HEIGHT / 2))
        .map(|s| depth_key(s.depth.to_bits()))
        .min()
        .unwrap();
    assert_eq!(fb.depth_at(WIDTH / 2, HEIGHT / 2), Some(nearest));
    let mut again = cleared();
    body_pass(&mut again, &mesh);
    body_pass(&mut again, &mesh);
    assert_eq!(again.colors(), fb.colors());
}

#[test]
fn ring_pass_draws_nothing_when_no_fragment_lies_in_the_radius_window() {
    let mesh = icosahedron(1.0);
    let mut fb = cleared();
    body_pass(&mut fb, &mesh);
    let before: Vec<Color> = fb.colors().clone();
    assert!(!pass_fragments(&mesh, RenderMode::Ring).is_empty());
    assert_eq!(ring_pass(&mut fb, &mesh), 0);
    assert_eq!(fb.colors(), &before);
}

#[test]
fn ring_pass_draws_when_fragments_lie_in_the_radius_window() {
    let mesh = icosahedron(2.0);
    let mut fb = cleared();
    body_pass(&mut fb, &mesh);
    assert!(ring_pass(&mut fb, &mesh) >= 1);
    assert!(fb.colors().iter().any(|c| *c == RING));
}
