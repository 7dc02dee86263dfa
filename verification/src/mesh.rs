//! Triangle assembly: a flat vertex list is read as consecutive triples, and
//! a list of triangles is rasterized into one list of fragments.

use vstd::prelude::*;
use crate::raster::{fragments, rasterize, Fragment, ScreenPoint};

verus! {

/// An ordered triple of vertices. The winding is that of the vertex list.
#[derive(Debug)]
pub struct Triangle<V> {
    pub v0: V,
    pub v1: V,
    pub v2: V,
}

impl<V: Copy> Clone for Triangle<V> {
    fn clone(&self) -> (t: Self)
        ensures
            t == *self,
    {
        *self
    }
}

impl<V: Copy> Copy for Triangle<V> {

}

/// The triangles of a flat vertex list: triangle `k` is made of the vertices
/// `3k`, `3k + 1` and `3k + 2`. One or two vertices left over at the end
/// belong to no triangle.
pub open spec fn assembled<V>(vertices: Seq<V>) -> Seq<Triangle<V>> {
    Seq::new(
        vertices.len() / 3,
        |k: int| Triangle { v0: vertices[3 * k], v1: vertices[3 * k + 1], v2: vertices[3 * k + 2] },
    )
}

/// Groups a flat vertex list into triangles, three consecutive vertices at a
/// time and in their order.
pub fn assemble_triangles<V: Copy>(vertices: &Vec<V>) -> (triangles: Vec<Triangle<V>>)
    ensures
        triangles@ == assembled(vertices@),
{
    let len: usize = vertices.len();
    let count: usize = len / 3;
    let mut triangles: Vec<Triangle<V>> = Vec::new();
    let mut k: usize = 0;
    while k < count
        invariant
            k <= count,
            len == vertices@.len(),
            count == len / 3,
            triangles@.len() == k,
            forall|j: int| 0 <= j < k ==> triangles@[j] == assembled(vertices@)[j],
        decreases count - k,
    {
        let i: usize = 3 * k;
        triangles.push(Triangle { v0: vertices[i], v1: vertices[i + 1], v2: vertices[i + 2] });
        k = k + 1;
    }
    assert(triangles@ =~= assembled(vertices@));
    triangles
}

/// A fragment together with the index of the triangle that it came from, so
/// that the attributes of that triangle's vertices can be interpolated.
#[derive(Clone, Copy, Debug, PartialEq, Eq, Structural)]
pub struct MeshFragment {
    pub triangle: usize,
    pub fragment: Fragment,
}

/// The fragments of the triangle with index `k`, each labelled with `k`.
pub open spec fn labelled(k: int, t: Triangle<ScreenPoint>) -> Seq<MeshFragment> {
    fragments(t.v0, t.v1, t.v2).map_values(|f: Fragment| MeshFragment { triangle: k as usize, fragment: f })
}

/// The fragments of the first `n` triangles, triangle after triangle.
pub open spec fn mesh_fragments(triangles: Seq<Triangle<ScreenPoint>>, n: int) -> Seq<MeshFragment>
    decreases n,
{
    if n <= 0 {
        Seq::empty()
    } else {
        mesh_fragments(triangles, n - 1) + labelled(n - 1, triangles[n - 1])
    }
}

/// Rasterizes every triangle of a mesh, in order, into one list of fragments.
pub fn rasterize_mesh(triangles: &Vec<Triangle<ScreenPoint>>) -> (out: Vec<MeshFragment>)
    ensures
        out@ == mesh_fragments(triangles@, triangles@.len() as int),
{
    let mut out: Vec<MeshFragment> = Vec::new();
    let mut k: usize = 0;
    while k < triangles.len()
        invariant
            k <= triangles.len(),
            out@ == mesh_fragments(triangles@, k as int),
        decreases triangles.len() - k,
    {
        let t = triangles[k];
        let found = rasterize(t.v0, t.v1, t.v2);
        let ghost before = out@;
        let mut j: usize = 0;
        while j < found.len()
            invariant
                j <= found.len(),
                found@ == fragments(t.v0, t.v1, t.v2),
                t == triangles@[k as int],
                out@ == before + labelled(k as int, t).take(j as int),
            decreases found.len() - j,
        {
            out.push(MeshFragment { triangle: k, fragment: found[j] });
            assert(labelled(k as int, t).take(j + 1) =~= labelled(k as int, t).take(j as int).push(
                labelled(k as int, t)[j as int],
            ));
            j = j + 1;
        }
        assert(labelled(k as int, t).take(j as int) =~= labelled(k as int, t));
        k = k + 1;
    }
    out
}

/// Every fragment of a mesh names a triangle of the mesh and is one of that
/// triangle's fragments.
pub proof fn lemma_mesh_fragment_sound(triangles: Seq<Triangle<ScreenPoint>>, n: int, i: int)
    requires
        0 <= n <= triangles.len() <= usize::MAX,
        0 <= i < mesh_fragments(triangles, n).len(),
    ensures
        ({
            let m = mesh_fragments(triangles, n)[i];
            let t = triangles[m.triangle as int];
            m.triangle < n && fragments(t.v0, t.v1, t.v2).contains(m.fragment)
        }),
    decreases n,
{
    let earlier = mesh_fragments(triangles, n - 1);
    if i < earlier.len() {
        lemma_mesh_fragment_sound(triangles, n - 1, i);
    } else {
        let t = triangles[n - 1];
        let j = i - earlier.len();
        assert(mesh_fragments(triangles, n)[i] == labelled(n - 1, t)[j]);
        assert(fragments(t.v0, t.v1, t.v2)[j] == labelled(n - 1, t)[j].fragment);
    }
}

/// Every fragment of every triangle of a mesh is among the fragments of the
/// mesh, labelled with the index of its triangle.
pub proof fn lemma_mesh_fragment_complete(triangles: Seq<Triangle<ScreenPoint>>, n: int, k: int, f: Fragment)
    requires
        0 <= k < n <= triangles.len() <= usize::MAX,
        fragments(triangles[k].v0, triangles[k].v1, triangles[k].v2).contains(f),
    ensures
        mesh_fragments(triangles, n).contains(MeshFragment { triangle: k as usize, fragment: f }),
    decreases n,
{
    let all = mesh_fragments(triangles, n);
    let earlier = mesh_fragments(triangles, n - 1);
    let m = MeshFragment { triangle: k as usize, fragment: f };
    if k < n - 1 {
        lemma_mesh_fragment_complete(triangles, n - 1, k, f);
        let i = choose|i: int| 0 <= i < earlier.len() && earlier[i] == m;
        assert(all[i] == m);
    } else {
        let t = triangles[k];
        let own = fragments(t.v0, t.v1, t.v2);
        let j = choose|j: int| 0 <= j < own.len() && own[j] == f;
        assert(labelled(k, t)[j] == m);
        assert(all[earlier.len() + j] == m);
    }
}

} // verus!
