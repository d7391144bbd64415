//! Support generation: merging of model and support geometry.

pub mod islands;
pub mod overhangs;
pub mod pillars;

use vstd::prelude::*;

use crate::mesh::{Face, Mesh};

verus! {

/// All vertices of `meshes`, one mesh after the other.
pub open spec fn merged_vertices<V>(meshes: Seq<Mesh<V>>) -> Seq<V>
    decreases meshes.len(),
{
    if meshes.len() == 0 {
        Seq::empty()
    } else {
        merged_vertices(meshes.drop_last()) + meshes.last().vertex_seq()
    }
}

/// A face whose indices are all moved up by `offset`.
pub open spec fn shift_face(face: Face, offset: u32) -> Face {
    [(face[0] + offset) as u32, (face[1] + offset) as u32, (face[2] + offset) as u32]
}

/// The index offset given to the faces of the mesh that follows `meshes`:
/// the number of vertices before it, taken as a `u32`.
pub open spec fn index_offset<V>(meshes: Seq<Mesh<V>>) -> u32 {
    merged_vertices(meshes).len() as u32
}

/// All faces of `meshes`, each mesh's faces shifted to point at that mesh's
/// vertices in the merged vertex list.
pub open spec fn merged_faces<V>(meshes: Seq<Mesh<V>>) -> Seq<Face>
    decreases meshes.len(),
{
    if meshes.len() == 0 {
        Seq::empty()
    } else {
        let before = meshes.drop_last();
        merged_faces(before) + meshes.last().face_seq().map_values(
            |f: Face| shift_face(f, index_offset(before)),
        )
    }
}

/// No index of the faces of any mesh overflows a `u32` once shifted.
pub open spec fn merge_fits<V>(meshes: Seq<Mesh<V>>) -> bool {
    forall|i: int, j: int, k: int|
        0 <= i < meshes.len() && 0 <= j < meshes[i].face_seq().len() && 0 <= k < 3 ==>
            index_offset(meshes.take(i)) + #[trigger] meshes[i].face_seq()[j][k] <= u32::MAX
}

/// Concatenates meshes into one: the vertices one after the other, and the
/// faces of each mesh re-indexed to the place of its vertices.
pub fn merge_meshes<V: Copy>(meshes: &[&Mesh<V>]) -> (merged: Mesh<V>)
    requires
        merge_fits(meshes@.map_values(|m: &Mesh<V>| *m)),
    ensures
        merged.vertex_seq() == merged_vertices(meshes@.map_values(|m: &Mesh<V>| *m)),
        merged.face_seq() == merged_faces(meshes@.map_values(|m: &Mesh<V>| *m)),
{
    let ghost all = meshes@.map_values(|m: &Mesh<V>| *m);
    let mut vertices: Vec<V> = Vec::new();
    let mut faces: Vec<Face> = Vec::new();
    let mut offset: u32 = 0;
    let mut m: usize = 0;
    while m < meshes.len()
        invariant
            all == meshes@.map_values(|m: &Mesh<V>| *m),
            merge_fits(all),
            0 <= m <= meshes.len(),
            vertices@ == merged_vertices(all.take(m as int)),
            faces@ == merged_faces(all.take(m as int)),
            offset == index_offset(all.take(m as int)),
        decreases meshes.len() - m,
    {
        let mesh = meshes[m];
        assert(all.take(m + 1).drop_last() == all.take(m as int));
        assert(all.take(m + 1).last() == *mesh);
        let mv = mesh.vertices();
        let ghost v0 = vertices@;
        let mut i: usize = 0;
        while i < mv.len()
            invariant
                0 <= i <= mv.len(),
                mv@ == mesh.vertex_seq(),
                vertices@ == v0 + mv@.take(i as int),
            decreases mv.len() - i,
        {
            vertices.push(mv[i]);
            assert(mv@.take(i + 1) == mv@.take(i as int).push(mv@[i as int]));
            i += 1;
        }
        assert(mv@.take(mv.len() as int) == mv@);
        let mf = mesh.faces();
        let ghost f0 = faces@;
        let ghost shifted = mesh.face_seq().map_values(|f: Face| shift_face(f, offset));
        let mut j: usize = 0;
        while j < mf.len()
            invariant
                0 <= j <= mf.len(),
                mf@ == mesh.face_seq(),
                shifted == mesh.face_seq().map_values(|f: Face| shift_face(f, offset)),
                faces@ == f0 + shifted.take(j as int),
                forall|jj: int, k: int|
                    0 <= jj < mf@.len() && 0 <= k < 3 ==> offset + #[trigger] mf@[jj][k] <= u32::MAX,
            decreases mf.len() - j,
        {
            let face = mf[j];
            assert(offset + face[0] <= u32::MAX);
            assert(offset + face[1] <= u32::MAX);
            assert(offset + face[2] <= u32::MAX);
            faces.push([face[0] + offset, face[1] + offset, face[2] + offset]);
            assert(shifted.take(j + 1) == shifted.take(j as int).push(shifted[j as int]));
            j += 1;
        }
        assert(shifted.take(mf.len() as int) == shifted);
        offset = vertices.len() as u32;
        m += 1;
    }
    assert(all.take(meshes.len() as int) == all);
    Mesh::new_uncentred(vertices, faces)
}

/// The total number of faces of `meshes`.
pub open spec fn total_faces<V>(meshes: Seq<Mesh<V>>) -> int
    decreases meshes.len(),
{
    if meshes.len() == 0 {
        0
    } else {
        total_faces(meshes.drop_last()) + meshes.last().face_seq().len()
    }
}

/// The total number of vertices of `meshes`.
pub open spec fn total_vertices<V>(meshes: Seq<Mesh<V>>) -> int
    decreases meshes.len(),
{
    if meshes.len() == 0 {
        0
    } else {
        total_vertices(meshes.drop_last()) + meshes.last().vertex_seq().len()
    }
}

/// The merged mesh has as many faces and vertices as the meshes together.
pub proof fn lemma_merge_counts<V>(meshes: Seq<Mesh<V>>)
    ensures
        merged_faces(meshes).len() == total_faces(meshes),
        merged_vertices(meshes).len() == total_vertices(meshes),
    decreases meshes.len(),
{
    if meshes.len() > 0 {
        lemma_merge_counts(meshes.drop_last());
    }
}

proof fn lemma_merge_prefix<V>(meshes: Seq<Mesh<V>>, m: int)
    requires
        0 <= m <= meshes.len(),
    ensures
        merged_vertices(meshes.take(m)) == merged_vertices(meshes).take(
            merged_vertices(meshes.take(m)).len() as int,
        ),
        merged_vertices(meshes.take(m)).len() <= merged_vertices(meshes).len(),
        merged_faces(meshes.take(m)) == merged_faces(meshes).take(
            merged_faces(meshes.take(m)).len() as int,
        ),
        merged_faces(meshes.take(m)).len() <= merged_faces(meshes).len(),
    decreases meshes.len(),
{
    if m == meshes.len() {
        assert(meshes.take(m) == meshes);
    } else {
        let prev = meshes.drop_last();
        lemma_merge_prefix(prev, m);
        assert(prev.take(m) == meshes.take(m));
    }
}

/// Merging keeps every mesh's triangles: face `j` of mesh `i`, at its place
/// in the merged mesh, names the same vertices as it did in mesh `i`.
pub proof fn lemma_merge_keeps_triangles<V>(meshes: Seq<Mesh<V>>, i: int, j: int, k: int)
    requires
        0 <= i < meshes.len(),
        0 <= j < meshes[i].face_seq().len(),
        0 <= k < 3,
        meshes[i].face_seq()[j][k] < meshes[i].vertex_seq().len(),
        merged_vertices(meshes).len() <= u32::MAX,
    ensures
        ({
            let face = merged_faces(meshes)[merged_faces(meshes.take(i)).len() + j];
            merged_vertices(meshes)[face[k] as int] == meshes[i].vertex_seq()[meshes[i].face_seq()[j][k] as int]
        }),
{
    let before = meshes.take(i);
    let upto = meshes.take(i + 1);
    assert(upto.drop_last() == before);
    assert(upto.last() == meshes[i]);
    lemma_merge_prefix(meshes, i + 1);
    let vs = merged_vertices(before).len();
    let vertices = merged_vertices(upto);
    assert(vertices == merged_vertices(before) + meshes[i].vertex_seq());
    let f = meshes[i].face_seq()[j];
    let offset = index_offset(before);
    assert(offset == vs);
    let shifted = meshes[i].face_seq().map_values(|g: Face| shift_face(g, offset));
    assert(merged_faces(upto) == merged_faces(before) + shifted);
    assert(merged_faces(upto)[merged_faces(before).len() + j] == shift_face(f, offset));
    assert(shift_face(f, offset)[k] == vs + f[k]);
    assert(vertices[vs + f[k]] == meshes[i].vertex_seq()[f[k] as int]);
}

/// Every face of `mesh` names vertices that the mesh has.
pub open spec fn indices_valid<V>(mesh: Mesh<V>) -> bool {
    forall|j: int, k: int|
        0 <= j < mesh.face_seq().len() && 0 <= k < 3 ==> #[trigger] mesh.face_seq()[j][k] < mesh.vertex_seq().len()
}

/// Every mesh of `meshes` has valid face indices.
pub open spec fn all_indices_valid<V>(meshes: Seq<Mesh<V>>) -> bool {
    forall|i: int| 0 <= i < meshes.len() ==> indices_valid(#[trigger] meshes[i])
}

/// Merging no mesh gives no vertices and no faces.
pub proof fn lemma_merge_none<V>()
    ensures
        merged_vertices(Seq::<Mesh<V>>::empty()) == Seq::<V>::empty(),
        merged_faces(Seq::<Mesh<V>>::empty()) == Seq::<Face>::empty(),
{
}

/// Merging a single mesh gives that mesh's vertices and faces back.
pub proof fn lemma_merge_one<V>(mesh: Mesh<V>)
    ensures
        merged_vertices(seq![mesh]) == mesh.vertex_seq(),
        merged_faces(seq![mesh]) == mesh.face_seq(),
{
    let one = seq![mesh];
    assert(one.drop_last() == Seq::<Mesh<V>>::empty());
    assert(one.last() == mesh);
    assert(merged_vertices(Seq::<Mesh<V>>::empty()) == Seq::<V>::empty());
    assert(merged_faces(Seq::<Mesh<V>>::empty()) == Seq::<Face>::empty());
    assert(merged_vertices(one) =~= Seq::<V>::empty() + mesh.vertex_seq());
    let shifted = mesh.face_seq().map_values(|f: Face| shift_face(f, 0));
    assert forall|j: int| 0 <= j < shifted.len() implies shifted[j] == mesh.face_seq()[j] by {
        assert(shift_face(mesh.face_seq()[j], 0) =~= mesh.face_seq()[j]);
    }
    assert(shifted =~= mesh.face_seq());
    assert(merged_faces(one) =~= Seq::<Face>::empty() + shifted);
}

/// Merging the meshes of `xs + ys` at once is merging each part and placing
/// the vertices and faces of `ys` after those of `xs`, when no index
/// overflows: no shifted face index and no vertex count passes `u32::MAX`.
/// The faces of `ys`, merged and then shifted by the vertices of `xs`, do
/// not pass it either.
pub proof fn lemma_merge_append<V>(xs: Seq<Mesh<V>>, ys: Seq<Mesh<V>>)
    requires
        merge_fits(xs + ys),
        merged_vertices(xs + ys).len() <= u32::MAX,
    ensures
        merged_vertices(xs + ys) == merged_vertices(xs) + merged_vertices(ys),
        merged_faces(xs + ys) == merged_faces(xs) + merged_faces(ys).map_values(
            |f: Face| shift_face(f, merged_vertices(xs).len() as u32),
        ),
        forall|j: int, k: int|
            0 <= j < merged_faces(ys).len() && 0 <= k < 3 ==> merged_vertices(xs).len()
                + #[trigger] merged_faces(ys)[j][k] <= u32::MAX,
    decreases ys.len(),
{
    let offset = merged_vertices(xs).len() as u32;
    lemma_merge_append_vertices(xs, ys);
    if ys.len() == 0 {
        assert(xs + ys == xs);
        assert(merged_faces(ys).map_values(|f: Face| shift_face(f, offset)) =~= Seq::<Face>::empty());
    } else {
        let rest = ys.drop_last();
        let y = ys.last();
        let all = xs + ys;
        let n = all.len() - 1;
        assert(all.drop_last() == xs + rest);
        assert(all.last() == y);
        assert(merged_vertices(all) == merged_vertices(xs + rest) + y.vertex_seq());
        assert forall|i: int, j: int, k: int|
            0 <= i < (xs + rest).len() && 0 <= j < (xs + rest)[i].face_seq().len() && 0 <= k < 3 implies index_offset(
                (xs + rest).take(i),
            ) + #[trigger] (xs + rest)[i].face_seq()[j][k] <= u32::MAX by {
            assert((xs + rest)[i] == all[i]);
            assert((xs + rest).take(i) =~= all.take(i));
            assert(index_offset(all.take(i)) + all[i].face_seq()[j][k] <= u32::MAX);
        }
        lemma_merge_append(xs, rest);
        lemma_merge_append_vertices(xs, rest);
        assert(all.take(n) =~= xs + rest);
        assert(all[n] == y);
        let inner = index_offset(rest);
        let outer = index_offset(xs + rest);
        assert(merged_vertices(rest).len() + offset <= u32::MAX);
        assert(outer == offset + inner);
        let lhs_tail = y.face_seq().map_values(|f: Face| shift_face(f, outer));
        let tail = y.face_seq().map_values(|f: Face| shift_face(f, inner));
        let rhs_tail = tail.map_values(|f: Face| shift_face(f, offset));
        assert forall|j: int| 0 <= j < lhs_tail.len() implies lhs_tail[j] == rhs_tail[j] by {
            let f = y.face_seq()[j];
            assert(outer + all[n].face_seq()[j][0] <= u32::MAX);
            assert(outer + all[n].face_seq()[j][1] <= u32::MAX);
            assert(outer + all[n].face_seq()[j][2] <= u32::MAX);
            assert(shift_face(f, outer) =~= shift_face(shift_face(f, inner), offset));
        }
        let shifted_rest = merged_faces(rest).map_values(|f: Face| shift_face(f, offset));
        let shifted_all = merged_faces(ys).map_values(|f: Face| shift_face(f, offset));
        assert(merged_faces(ys) == merged_faces(rest) + tail);
        assert(shifted_all =~= shifted_rest + rhs_tail);
        assert(lhs_tail =~= rhs_tail);
        assert(merged_faces(all) == merged_faces(xs + rest) + lhs_tail);
        assert(merged_faces(all) =~= merged_faces(xs) + shifted_all);
        assert forall|j: int, k: int|
            0 <= j < merged_faces(ys).len() && 0 <= k < 3 implies merged_vertices(xs).len()
                + #[trigger] merged_faces(ys)[j][k] <= u32::MAX by {
            let m = merged_faces(rest).len();
            if j < m {
                assert(merged_faces(ys)[j] == merged_faces(rest)[j]);
            } else {
                let f = y.face_seq()[j - m];
                assert(merged_faces(ys)[j] == tail[j - m]);
                assert(outer + all[n].face_seq()[j - m][k] <= u32::MAX);
                assert(shift_face(f, inner)[k] == f[k] + inner);
            }
        }
    }
}

/// No index of a prefix of `meshes` overflows where none of `meshes` does.
proof fn lemma_fits_prefix<V>(meshes: Seq<Mesh<V>>, n: int)
    requires
        merge_fits(meshes),
        0 <= n <= meshes.len(),
    ensures
        merge_fits(meshes.take(n)),
{
    let pre = meshes.take(n);
    assert forall|i: int, j: int, k: int|
        0 <= i < pre.len() && 0 <= j < pre[i].face_seq().len() && 0 <= k < 3 implies index_offset(pre.take(i))
            + #[trigger] pre[i].face_seq()[j][k] <= u32::MAX by {
        assert(pre[i] == meshes[i]);
        assert(pre.take(i) =~= meshes.take(i));
        assert(index_offset(meshes.take(i)) + meshes[i].face_seq()[j][k] <= u32::MAX);
    }
}

/// Merged faces name only merged vertices: when every mesh's faces name
/// vertices of that mesh and the vertex count fits a `u32`, every index of
/// the merged faces is below the merged vertex count.
pub proof fn lemma_merge_keeps_valid_indices<V>(meshes: Seq<Mesh<V>>)
    requires
        all_indices_valid(meshes),
        merged_vertices(meshes).len() <= u32::MAX,
    ensures
        forall|f: int, k: int|
            0 <= f < merged_faces(meshes).len() && 0 <= k < 3 ==> #[trigger] merged_faces(meshes)[f][k]
                < merged_vertices(meshes).len(),
    decreases meshes.len(),
{
    if meshes.len() > 0 {
        let before = meshes.drop_last();
        let last = meshes.last();
        assert forall|i: int| 0 <= i < before.len() implies indices_valid(#[trigger] before[i]) by {
            assert(before[i] == meshes[i]);
        }
        lemma_merge_keeps_valid_indices(before);
        assert(indices_valid(meshes[meshes.len() - 1]));
        let offset = index_offset(before);
        let n = merged_vertices(before).len();
        assert(merged_vertices(meshes) == merged_vertices(before) + last.vertex_seq());
        let tail = last.face_seq().map_values(|g: Face| shift_face(g, offset));
        assert(merged_faces(meshes) == merged_faces(before) + tail);
        assert forall|f: int, k: int|
            0 <= f < merged_faces(meshes).len() && 0 <= k < 3 implies #[trigger] merged_faces(meshes)[f][k]
                < merged_vertices(meshes).len() by {
            if f < merged_faces(before).len() {
                assert(merged_faces(meshes)[f] == merged_faces(before)[f]);
            } else {
                let j = f - merged_faces(before).len();
                let g = last.face_seq()[j];
                assert(g[k] < last.vertex_seq().len());
                assert(merged_faces(meshes)[f] == shift_face(g, offset));
            }
        }
    }
}

/// Merging is associative: merging a mesh made by merging `ys` among `xs`
/// and `zs` gives the vertices and faces of merging `xs`, `ys` and `zs` at
/// once, whenever merging them at once overflows no index.
pub proof fn lemma_merge_associative<V>(xs: Seq<Mesh<V>>, ys: Seq<Mesh<V>>, zs: Seq<Mesh<V>>, inner: Mesh<V>)
    requires
        merge_fits(xs + ys + zs),
        merged_vertices(xs + ys + zs).len() <= u32::MAX,
        inner.vertex_seq() == merged_vertices(ys),
        inner.face_seq() == merged_faces(ys),
    ensures
        merged_vertices(xs.push(inner) + zs) == merged_vertices(xs + ys + zs),
        merged_faces(xs.push(inner) + zs) == merged_faces(xs + ys + zs),
{
    let flat = xs + ys + zs;
    let xy = xs + ys;
    let xi = xs.push(inner);
    let nested = xi + zs;
    let a = xs.len() as int;
    lemma_merge_one(inner);
    lemma_merge_append_vertices(xy, zs);
    lemma_merge_append_vertices(xs, ys);
    lemma_merge_append_vertices(xs, seq![inner]);
    lemma_merge_append_vertices(xi, zs);
    assert(xi == xs + seq![inner]);
    assert(merged_vertices(xi) =~= merged_vertices(xy));
    assert(merged_vertices(nested) =~= merged_vertices(flat));
    // The flat merge and its prefix `xs + ys`.
    lemma_merge_append(xy, zs);
    assert(flat.take(a + ys.len()) =~= xy);
    lemma_fits_prefix(flat, a + ys.len());
    lemma_merge_append(xs, ys);
    // The nested merge overflows no index either.
    assert forall|i: int, j: int, k: int|
        0 <= i < nested.len() && 0 <= j < nested[i].face_seq().len() && 0 <= k < 3 implies index_offset(
            nested.take(i),
        ) + #[trigger] nested[i].face_seq()[j][k] <= u32::MAX by {
        if i < a {
            assert(nested[i] == flat[i]);
            assert(nested.take(i) =~= flat.take(i));
            assert(index_offset(flat.take(i)) + flat[i].face_seq()[j][k] <= u32::MAX);
        } else if i == a {
            assert(nested[i] == inner);
            assert(nested.take(i) =~= xs);
            assert(merged_vertices(xs).len() + merged_faces(ys)[j][k] <= u32::MAX);
        } else {
            let m = i - a - 1;
            let fi = a + ys.len() + m;
            assert(nested[i] == zs[m]);
            assert(flat[fi] == zs[m]);
            assert(nested.take(i) =~= xi + zs.take(m));
            assert(flat.take(fi) =~= xy + zs.take(m));
            lemma_merge_append_vertices(xi, zs.take(m));
            lemma_merge_append_vertices(xy, zs.take(m));
            assert(index_offset(flat.take(fi)) + flat[fi].face_seq()[j][k] <= u32::MAX);
        }
    }
    assert(nested.take(a + 1) =~= xi);
    lemma_fits_prefix(nested, a + 1);
    lemma_merge_append(xs, seq![inner]);
    lemma_merge_append(xi, zs);
    assert(merged_faces(seq![inner]).map_values(|f: Face| shift_face(f, merged_vertices(xs).len() as u32))
        =~= merged_faces(ys).map_values(|f: Face| shift_face(f, merged_vertices(xs).len() as u32)));
    assert(merged_faces(xi) =~= merged_faces(xy));
    assert(merged_faces(nested) =~= merged_faces(flat));
}

/// The vertices of `xs + ys` are those of `xs` followed by those of `ys`.
proof fn lemma_merge_append_vertices<V>(xs: Seq<Mesh<V>>, ys: Seq<Mesh<V>>)
    ensures
        merged_vertices(xs + ys) == merged_vertices(xs) + merged_vertices(ys),
    decreases ys.len(),
{
    if ys.len() == 0 {
        assert(xs + ys == xs);
        assert(merged_vertices(xs) + merged_vertices(ys) =~= merged_vertices(xs));
    } else {
        let all = xs + ys;
        assert(all.drop_last() == xs + ys.drop_last());
        assert(all.last() == ys.last());
        lemma_merge_append_vertices(xs, ys.drop_last());
        assert(merged_vertices(all) =~= merged_vertices(xs) + merged_vertices(ys));
    }
}

} // verus!
