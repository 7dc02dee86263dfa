use planet_raster::mesh::{assemble_triangles, rasterize_mesh, MeshFragment, Triangle};
use planet_raster::raster::{rasterize, ScreenPoint};

fn corners(t: &Triangle<u32>) -> [u32; 3] {
    [t.v0, t.v1, t.v2]
}

#[test]
fn vertices_are_grouped_in_consecutive_triples() {
    let vertices: Vec<u32> = vec![10, 11, 12, 20, 21, 22, 30, 31, 32];
    let triangles = assemble_triangles(&vertices);
    assert_eq!(triangles.len(), 3);
    assert_eq!(corners(&triangles[0]), [10, 11, 12]);
    assert_eq!(corners(&triangles[1]), [20, 21, 22]);
    assert_eq!(corners(&triangles[2]), [30, 31, 32]);
}

#[test]
fn leftover_vertices_make_no_triangle() {
    assert_eq!(assemble_triangles(&Vec::<u32>::new()).len(), 0);
    assert_eq!(assemble_triangles(&vec![1u32]).len(), 0);
    assert_eq!(assemble_triangles(&vec![1u32, 2]).len(), 0);
    let four = assemble_triangles(&vec![1u32, 2, 3, 4]);
    assert_eq!(four.len(), 1);
    assert_eq!(corners(&four[0]), [1, 2, 3]);
    let five = assemble_triangles(&vec![1u32, 2, 3, 4, 5]);
    assert_eq!(five.len(), 1);
    assert_eq!(assemble_triangles(&vec![0u32; 60]).len(), 20);
}

#[test]
fn winding_is_kept() {
    let triangles = assemble_triangles(&vec![3u32, 1, 2]);
    assert_eq!(corners(&triangles[0]), [3, 1, 2]);
}

#[test]
fn mesh_fragments_are_the_fragments_of_each_triangle_in_turn() {
    let a = ScreenPoint { x: 0, y: 0 };
    let b = ScreenPoint { x: 2, y: 0 };
    let c = ScreenPoint { x: 0, y: 2 };
    let d = ScreenPoint { x: 5, y: 5 };
    let e = ScreenPoint { x: 7, y: 5 };
    let f = ScreenPoint { x: 6, y: 8 };
    let triangles = assemble_triangles(&vec![a, b, c, a, a, b, d, e, f]);
    let all = rasterize_mesh(&triangles);
    let mut expected: Vec<MeshFragment> = Vec::new();
    for fragment in rasterize(a, b, c) {
        expected.push(MeshFragment { triangle: 0, fragment });
    }
    for fragment in rasterize(d, e, f) {
        expected.push(MeshFragment { triangle: 2, fragment });
    }
    assert_eq!(all, expected);
    assert!(all.iter().all(|m| m.triangle != 1));
    assert!(all.iter().any(|m| m.triangle == 0));
    assert!(all.iter().any(|m| m.triangle == 2));
}

#[test]
fn empty_mesh_has_no_fragments() {
    let triangles: Vec<Triangle<ScreenPoint>> = Vec::new();
    assert!(rasterize_mesh(&triangles).is_empty());
}
