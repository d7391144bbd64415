use reslicer::mesh::Mesh;
use reslicer::supports::merge_meshes;
use reslicer::supports::overhangs::{build_face_neighbors, group_overhang_faces, select_point_overhangs};

fn shelf_mesh(width: f32, depth: f32, z: f32) -> Mesh<[f32; 3]> {
    let vertices = vec![
        [0.0, 0.0, z],
        [width, 0.0, z],
        [width, depth, z],
        [0.0, depth, z],
    ];

    Mesh::new_uncentred(vertices, vec![[0, 2, 1], [0, 3, 2]])
}

fn cube_mesh(size: [f32; 3]) -> Mesh<[f32; 3]> {
    let max = size;
    let vertices = vec![
        [0.0, 0.0, 0.0],
        [max[0], 0.0, 0.0],
        [max[0], max[1], 0.0],
        [0.0, max[1], 0.0],
        [0.0, 0.0, max[2]],
        [max[0], 0.0, max[2]],
        [max[0], max[1], max[2]],
        [0.0, max[1], max[2]],
    ];

    let faces = vec![
        [0, 2, 1],
        [0, 3, 2],
        [4, 5, 6],
        [4, 6, 7],
        [0, 1, 5],
        [0, 5, 4],
        [1, 2, 6],
        [1, 6, 5],
        [2, 3, 7],
        [2, 7, 6],
        [3, 0, 4],
        [3, 4, 7],
    ];

    Mesh::new_uncentred(vertices, faces)
}

#[test]
fn merge_meshes_combines_model_and_support_geometry() {
    let model = shelf_mesh(10.0, 2.0, 6.0);
    let support = shelf_mesh(2.0, 2.0, 1.0);

    let merged = merge_meshes(&[&model, &support]);

    assert_eq!(
        merged.face_count(),
        model.face_count() + support.face_count()
    );
}

#[test]
fn merge_meshes_shifts_faces_of_later_meshes() {
    let model = shelf_mesh(10.0, 2.0, 6.0);
    let support = shelf_mesh(2.0, 2.0, 1.0);

    let merged = merge_meshes(&[&model, &support]);

    assert_eq!(merged.vertex_count(), 8);
    assert_eq!(merged.faces(), &[[0, 2, 1], [0, 3, 2], [4, 6, 5], [4, 7, 6]]);
    assert_eq!(merged.vertices()[0], [0.0, 0.0, 6.0]);
    assert_eq!(merged.vertices()[5], [2.0, 0.0, 1.0]);
    // each face of the support names the same corners as before merging
    for (j, face) in support.faces().iter().enumerate() {
        for k in 0..3 {
            assert_eq!(
                merged.vertices()[merged.faces()[2 + j][k] as usize],
                support.vertices()[face[k] as usize]
            );
        }
    }
}

#[test]
fn merging_in_steps_equals_merging_at_once() {
    let a = shelf_mesh(10.0, 2.0, 6.0);
    let b = cube_mesh([1.0, 2.0, 3.0]);
    let c = shelf_mesh(2.0, 2.0, 1.0);
    let all = merge_meshes(&[&a, &b, &c]);
    let ab = merge_meshes(&[&a, &b]);
    let left = merge_meshes(&[&ab, &c]);
    let bc = merge_meshes(&[&b, &c]);
    let right = merge_meshes(&[&a, &bc]);
    assert_eq!(left.vertices(), all.vertices());
    assert_eq!(left.faces(), all.faces());
    assert_eq!(right.vertices(), all.vertices());
    assert_eq!(right.faces(), all.faces());
    assert_eq!(all.vertex_count(), 16);
    assert_eq!(all.faces()[14], [12, 14, 13]);
}

#[test]
fn merged_faces_name_merged_vertices() {
    let a = cube_mesh([1.0, 1.0, 1.0]);
    let b = shelf_mesh(2.0, 2.0, 1.0);
    let merged = merge_meshes(&[&a, &b, &a]);
    assert_eq!(merged.vertex_count(), 20);
    for face in merged.faces() {
        for index in face {
            assert!((*index as usize) < merged.vertex_count());
        }
    }
    assert_eq!(merged.faces()[merged.face_count() - 1], [15, 16, 19]);
}

#[test]
fn merge_meshes_of_nothing_is_empty() {
    let merged: Mesh<[f32; 3]> = merge_meshes(&[]);
    assert_eq!(merged.vertex_count(), 0);
    assert_eq!(merged.face_count(), 0);
}

#[test]
fn merge_meshes_of_one_mesh_keeps_it() {
    let cube = cube_mesh([1.0, 2.0, 3.0]);
    let merged = merge_meshes(&[&cube]);
    assert_eq!(merged.faces(), cube.faces());
    assert_eq!(merged.vertices(), cube.vertices());
}

#[test]
fn shelf_triangles_are_neighbors() {
    let shelf = shelf_mesh(10.0, 2.0, 6.0);
    assert_eq!(build_face_neighbors(&shelf), vec![vec![1], vec![0]]);
}

#[test]
fn every_cube_triangle_has_three_neighbors() {
    let cube = cube_mesh([10.0, 10.0, 10.0]);
    let neighbors = build_face_neighbors(&cube);
    assert_eq!(neighbors.len(), 12);
    for (face, list) in neighbors.iter().enumerate() {
        assert_eq!(list.len(), 3, "face {face}");
        for &other in list {
            assert!(neighbors[other].contains(&face));
        }
    }
    assert_eq!(neighbors[0], vec![1, 4, 6]);
}

#[test]
fn triangles_sharing_only_a_corner_are_not_neighbors() {
    let mesh = Mesh::new_uncentred(vec![[0.0f32; 3]; 5], vec![[0, 1, 2], [2, 3, 4]]);
    assert_eq!(build_face_neighbors(&mesh), vec![Vec::<usize>::new(), Vec::new()]);
}

#[test]
fn repeated_edges_list_each_neighbor_once() {
    let mesh = Mesh::new_uncentred(vec![[0.0f32; 3]; 3], vec![[0, 1, 2], [2, 1, 0], [0, 1, 2]]);
    assert_eq!(build_face_neighbors(&mesh), vec![vec![1, 2], vec![0, 2], vec![0, 1]]);
}

#[test]
fn cube_bottom_forms_one_overhang_region() {
    let cube = cube_mesh([10.0, 10.0, 10.0]);
    let mut overhang = vec![false; 12];
    overhang[0] = true;
    overhang[1] = true;
    let regions = group_overhang_faces(&cube, &overhang);
    assert_eq!(regions.len(), 1);
    let mut faces = regions[0].clone();
    faces.sort();
    assert_eq!(faces, vec![0, 1]);
}

#[test]
fn no_overhanging_face_gives_no_region() {
    let cube = cube_mesh([10.0, 10.0, 10.0]);
    assert!(group_overhang_faces(&cube, &vec![false; 12]).is_empty());
}

#[test]
fn separate_overhangs_form_separate_regions() {
    let cube = cube_mesh([10.0, 10.0, 10.0]);
    let mut overhang = vec![false; 12];
    // the bottom and the top of the cube touch no common edge
    for face in [0, 1, 2, 3] {
        overhang[face] = true;
    }
    let mut regions = group_overhang_faces(&cube, &overhang);
    for region in regions.iter_mut() {
        region.sort();
    }
    regions.sort();
    assert_eq!(regions, vec![vec![0, 1], vec![2, 3]]);
}

#[test]
fn overhang_region_follows_a_chain_of_faces() {
    let cube = cube_mesh([10.0, 10.0, 10.0]);
    let mut overhang = vec![true; 12];
    overhang[2] = false;
    let regions = group_overhang_faces(&cube, &overhang);
    assert_eq!(regions.len(), 1);
    assert_eq!(regions[0].len(), 11);
    assert_eq!(regions[0][0], 0);
}

#[test]
fn point_overhangs_take_each_vertex_at_its_first_half_edge() {
    let origins = [0, 1, 0, 2, 1];
    let accepted = [true, false, true, true, true];
    assert_eq!(select_point_overhangs(&origins, &accepted), vec![0, 3]);
}

#[test]
fn point_overhang_rejected_at_first_half_edge_stays_rejected() {
    let origins = [7, 7];
    let accepted = [false, true];
    assert!(select_point_overhangs(&origins, &accepted).is_empty());
}
