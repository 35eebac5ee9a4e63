use voxel_game::chunk::{generate_chunk_mesh, BlockType, NeighbourhoodData};

fn empty() -> Box<NeighbourhoodData> {
    Box::new([[[false; 48]; 48]; 48])
}

#[test]
fn empty_neighbourhood_has_no_mesh() {
    let chunk = empty();
    let (mesh, has_faces) = generate_chunk_mesh(*chunk);
    assert!(!has_faces);
    assert!(mesh.positions.is_empty());
    assert!(mesh.normals.is_empty());
    assert!(mesh.face_blocks.is_empty());
    assert!(mesh.indices.is_empty());
}

#[test]
fn single_cube_has_six_faces() {
    let mut chunk = empty();
    chunk[20][21][22] = true;
    let (mesh, has_faces) = generate_chunk_mesh(*chunk);
    assert!(has_faces);
    assert_eq!(mesh.positions.len(), 24);
    assert_eq!(mesh.normals.len(), 24);
    assert_eq!(mesh.face_blocks, vec![BlockType::Grass; 6]);
    assert_eq!(mesh.indices.len(), 36);
    // Faces come below, above, right, left, front, hind.
    assert_eq!(&mesh.positions[0..4], &[(20, 21, 23), (20, 21, 22), (21, 21, 22), (21, 21, 23)]);
    assert_eq!(&mesh.positions[4..8], &[(21, 22, 23), (21, 22, 22), (20, 22, 22), (20, 22, 23)]);
    assert_eq!(&mesh.positions[8..12], &[(21, 22, 23), (21, 21, 23), (21, 21, 22), (21, 22, 22)]);
    assert_eq!(&mesh.positions[12..16], &[(20, 22, 22), (20, 21, 22), (20, 21, 23), (20, 22, 23)]);
    assert_eq!(&mesh.positions[16..20], &[(20, 22, 23), (20, 21, 23), (21, 21, 23), (21, 22, 23)]);
    assert_eq!(&mesh.positions[20..24], &[(21, 22, 22), (21, 21, 22), (20, 21, 22), (20, 22, 22)]);
    let normals: Vec<(i32, i32, i32)> = mesh.normals.iter().step_by(4).copied().collect();
    assert_eq!(normals, vec![(0, -1, 0), (0, 1, 0), (1, 0, 0), (-1, 0, 0), (0, 0, 1), (0, 0, -1)]);
    assert_eq!(&mesh.indices[0..12], &[0, 1, 2, 2, 3, 0, 4, 5, 6, 6, 7, 4]);
    assert_eq!(&mesh.indices[30..36], &[20, 21, 22, 22, 23, 20]);
}

#[test]
fn touching_cubes_hide_their_shared_faces() {
    let mut chunk = empty();
    chunk[20][20][20] = true;
    chunk[21][20][20] = true;
    let (mesh, has_faces) = generate_chunk_mesh(*chunk);
    assert!(has_faces);
    assert_eq!(mesh.face_blocks.len(), 10);
    assert_eq!(mesh.positions.len(), 40);
    assert_eq!(mesh.indices.len(), 60);
    assert!(mesh.indices.iter().all(|&i| (i as usize) < mesh.positions.len()));
    // No face lies on the shared plane x = 21 with a normal along x.
    for q in 0..10 {
        let n = mesh.normals[4 * q];
        if n.0 != 0 {
            assert!(mesh.positions[4 * q].0 != 21);
        }
    }
}

#[test]
fn only_the_meshed_region_is_meshed() {
    let mut chunk = empty();
    chunk[31][20][20] = true;
    chunk[14][20][20] = true;
    chunk[20][31][20] = true;
    let (mesh, has_faces) = generate_chunk_mesh(*chunk);
    assert!(!has_faces);
    assert!(mesh.positions.is_empty());

    let mut chunk = empty();
    chunk[15][15][15] = true;
    chunk[30][30][30] = true;
    let (mesh, has_faces) = generate_chunk_mesh(*chunk);
    assert!(has_faces);
    assert_eq!(mesh.face_blocks.len(), 12);
    assert_eq!(mesh.positions[0], (15, 15, 16));
    assert_eq!(mesh.positions[24], (30, 30, 31));
}

#[test]
fn solid_neighbourhood_has_no_mesh() {
    let chunk: Box<NeighbourhoodData> = Box::new([[[true; 48]; 48]; 48]);
    let (mesh, has_faces) = generate_chunk_mesh(*chunk);
    assert!(!has_faces);
    assert!(mesh.indices.is_empty());
}

#[test]
fn cube_next_to_solid_border_outside_region_hides_that_face() {
    let mut chunk = empty();
    chunk[15][20][20] = true;
    chunk[14][20][20] = true;
    let (mesh, _) = generate_chunk_mesh(*chunk);
    // The left face of cube 15 touches the solid cube 14 and is hidden; cube 14 is not meshed.
    assert_eq!(mesh.face_blocks.len(), 5);
    let normals: Vec<(i32, i32, i32)> = mesh.normals.iter().step_by(4).copied().collect();
    assert_eq!(normals, vec![(0, -1, 0), (0, 1, 0), (1, 0, 0), (0, 0, 1), (0, 0, -1)]);
}

#[test]
fn terrain_mesh_faces_up() {
    let mut chunk = empty();
    for a in 0..48 {
        for c in 0..48 {
            for b in 0..=20 {
                chunk[a][b][c] = true;
            }
        }
    }
    let (mesh, has_faces) = generate_chunk_mesh(*chunk);
    assert!(has_faces);
    assert_eq!(mesh.face_blocks.len(), 16 * 16);
    assert!(mesh.normals.iter().all(|n| *n == (0, 1, 0)));
    assert!(mesh.positions.iter().all(|p| p.1 == 21));
}
