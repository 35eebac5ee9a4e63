use vstd::prelude::*;
use crate::world::Position;
use crate::mesh::{
    block_faces, cube_faces, face_at, face_if_visible, layer_faces, mesh_faces, mesh_matches, row_faces, ChunkMesh, Face,
    FaceDirection, MeshBuilder, MESH_END, MESH_START, quad_faces_solid_into_empty,
    law_mesh_quads_face_from_solid_into_empty, law_mesh_lists_every_visible_face, law_mesh_triangles_face_out,
    law_mesh_quads_in_order, quad_cube, quad_before, triangle_faces_out, unit_axis, Normal,
};

verus! {

/// The kinds of block a voxel can be.
#[derive(Clone, Copy, Debug, PartialEq, Eq, Structural)]
pub enum BlockType {
    Grass,
    Stone,
}

/// A 16 x 16 x 16 block of voxels, indexed `[x][y][z]`; `true` is solid.
pub type ChunkData = [[[bool; 16]; 16]; 16];

/// Whether the voxel at height `j` of a chunk at chunk height `chunk_y` lies at or
/// below the terrain surface `surface`.
pub open spec fn below_surface(chunk_y: int, j: int, surface: int) -> bool {
    chunk_y * 16 + j <= surface
}

/// Fills one chunk from the terrain surface height of each of its columns:
/// `heights[x][z]` is the highest solid world height of column `(x, z)`.
pub fn generate_chunk_data(position: Position, heights: &[[i32; 16]; 16]) -> (chunk: ChunkData)
    requires
        i32::MIN <= position.y * 16,
        position.y * 16 + 15 <= i32::MAX,
    ensures
        forall|i: int, j: int, k: int|
            0 <= i < 16 && 0 <= j < 16 && 0 <= k < 16 ==>
                #[trigger] chunk[i][j][k] == below_surface(position.y as int, j, heights[i][k] as int),
        forall|i: int, j: int, k: int|
            0 <= i < 16 && 0 <= j < 16 && 0 <= k < 16 ==>
                #[trigger] chunk[i][j][k] == (position.y * 16 + j <= heights[i][k]),
{
    let mut chunk: ChunkData = [[[false; 16]; 16]; 16];
    let base: i32 = position.y * 16;
    let mut i: usize = 0;
    while i < 16
        invariant
            i <= 16,
            base == position.y * 16,
            position.y * 16 + 15 <= i32::MAX,
            forall|a: int, j: int, k: int|
                0 <= a < i && 0 <= j < 16 && 0 <= k < 16 ==>
                    #[trigger] chunk[a][j][k] == below_surface(position.y as int, j, heights[a][k] as int),
            forall|a: int, j: int, k: int|
                i <= a < 16 && 0 <= j < 16 && 0 <= k < 16 ==> !#[trigger] chunk[a][j][k],
        decreases 16 - i,
    {
        let mut k: usize = 0;
        while k < 16
            invariant
                i < 16,
                k <= 16,
                base == position.y * 16,
                position.y * 16 + 15 <= i32::MAX,
                forall|a: int, j: int, c: int|
                    0 <= a < i && 0 <= j < 16 && 0 <= c < 16 ==>
                        #[trigger] chunk[a][j][c] == below_surface(position.y as int, j, heights[a][c] as int),
                forall|j: int, c: int|
                    0 <= j < 16 && 0 <= c < k ==>
                        #[trigger] chunk[i as int][j][c] == below_surface(position.y as int, j, heights[i as int][c] as int),
                forall|a: int, j: int, c: int|
                    i < a < 16 && 0 <= j < 16 && 0 <= c < 16 ==> !#[trigger] chunk[a][j][c],
                forall|j: int, c: int|
                    0 <= j < 16 && k <= c < 16 ==> !#[trigger] chunk[i as int][j][c],
            decreases 16 - k,
        {
            let surface: i32 = heights[i][k];
            let mut height_reached = false;
            let mut j: usize = 0;
            while j < 16
                invariant
                    i < 16,
                    k < 16,
                    j <= 16,
                    base == position.y * 16,
                    position.y * 16 + 15 <= i32::MAX,
                    surface == heights[i as int][k as int],
                    height_reached <==> (j > 0 && !below_surface(position.y as int, j - 1, surface as int)),
                    forall|a: int, jj: int, c: int|
                        0 <= a < i && 0 <= jj < 16 && 0 <= c < 16 ==>
                            #[trigger] chunk[a][jj][c] == below_surface(position.y as int, jj, heights[a][c] as int),
                    forall|jj: int, c: int|
                        0 <= jj < 16 && 0 <= c < k ==>
                            #[trigger] chunk[i as int][jj][c] == below_surface(position.y as int, jj, heights[i as int][c] as int),
                    forall|jj: int|
                        0 <= jj < j ==>
                            #[trigger] chunk[i as int][jj][k as int] == below_surface(position.y as int, jj, surface as int),
                    forall|a: int, jj: int, c: int|
                        i < a < 16 && 0 <= jj < 16 && 0 <= c < 16 ==> !#[trigger] chunk[a][jj][c],
                    forall|jj: int, c: int|
                        0 <= jj < 16 && k < c < 16 ==> !#[trigger] chunk[i as int][jj][c],
                    forall|jj: int|
                        j <= jj < 16 ==> !#[trigger] chunk[i as int][jj][k as int],
                decreases 16 - j,
            {
                if base + (j as i32) <= surface && !height_reached {
                    chunk[i][j][k] = true;
                } else {
                    height_reached = true;
                }
                j = j + 1;
            }
            k = k + 1;
        }
        i = i + 1;
    }
    chunk
}


/// Law: generated terrain has no overhangs: below a solid voxel of a column, every
/// voxel of the column is solid.
pub proof fn lemma_columns_filled_from_below(chunk_y: int, j_low: int, j_high: int, surface: int)
    requires
        j_low <= j_high,
        below_surface(chunk_y, j_high, surface),
    ensures
        below_surface(chunk_y, j_low, surface),
{
}

/// Law: a neighbourhood agrees with its chunks: voxel `16 * cy + j` of a column of
/// the neighbourhood around chunk height `chunk_y` is voxel `j` of the same column
/// of the chunk at height `chunk_y + cy - 1`, for the neighbour offsets `cy` in `0..3`.
pub proof fn lemma_neighbourhood_agrees_with_chunks(chunk_y: int, cy: int, j: int, surface: int)
    ensures
        below_surface(chunk_y - 1, 16 * cy + j, surface) == below_surface(chunk_y + cy - 1, j, surface),
{
}

/// Law: a generated chunk holds exactly the terrain: voxel `[i][j][k]` is solid
/// exactly when its world height `position.y * 16 + j` is at or below the surface
/// height of its column, whatever that height is.
pub proof fn law_chunk_data_is_terrain(position: Position, heights: [[i32; 16]; 16], chunk: ChunkData)
    requires
        forall|i: int, j: int, k: int|
            0 <= i < 16 && 0 <= j < 16 && 0 <= k < 16 ==>
                #[trigger] chunk[i][j][k] == below_surface(position.y as int, j, heights[i][k] as int),
    ensures
        forall|i: int, j: int, k: int|
            0 <= i < 16 && 0 <= j < 16 && 0 <= k < 16 ==>
                (#[trigger] chunk[i][j][k] <==> position.y * 16 + j <= heights[i][k]),
{
}

/// A 48 x 48 x 48 block of voxels: a chunk together with its 26 neighbours.
pub type NeighbourhoodData = [[[bool; 48]; 48]; 48];

/// The 16 x 16 surface heights of the columns of the neighbour at offset `(cx, cz)`
/// (each in `0..3`) inside a 48 x 48 grid of surface heights.
fn column_heights(heights: &[[i32; 48]; 48], cx: usize, cz: usize) -> (sub: [[i32; 16]; 16])
    requires
        cx < 3,
        cz < 3,
    ensures
        forall|i: int, k: int|
            0 <= i < 16 && 0 <= k < 16 ==> #[trigger] sub[i][k] == heights[16 * cx + i][16 * cz + k],
{
    let mut sub: [[i32; 16]; 16] = [[0; 16]; 16];
    let mut i: usize = 0;
    while i < 16
        invariant
            i <= 16,
            cx < 3,
            cz < 3,
            forall|a: int, k: int|
                0 <= a < i && 0 <= k < 16 ==> #[trigger] sub[a][k] == heights[16 * cx + a][16 * cz + k],
        decreases 16 - i,
    {
        let mut k: usize = 0;
        while k < 16
            invariant
                i < 16,
                k <= 16,
                cx < 3,
                cz < 3,
                forall|a: int, c: int|
                    0 <= a < i && 0 <= c < 16 ==> #[trigger] sub[a][c] == heights[16 * cx + a][16 * cz + c],
                forall|c: int|
                    0 <= c < k ==> #[trigger] sub[i as int][c] == heights[16 * cx + i][16 * cz + c],
            decreases 16 - k,
        {
            sub[i][k] = heights[16 * cx + i][16 * cz + k];
            k = k + 1;
        }
        i = i + 1;
    }
    sub
}

/// The neighbour at offset `(cx, cy, cz)` of a neighbourhood around chunk height `y`
/// holds exactly the voxels at or below the surface given by `heights`.
spec fn part_matches(part: ChunkData, heights: [[i32; 48]; 48], cx: int, cy: int, cz: int, y: int) -> bool {
    forall|i: int, j: int, k: int|
        0 <= i < 16 && 0 <= j < 16 && 0 <= k < 16 ==>
            #[trigger] part[i][j][k] == below_surface(y + cy - 1, j, heights[16 * cx + i][16 * cz + k] as int)
}

/// Generates the chunk at `position` together with its 26 neighbours, laid out
/// so that voxel `[a][b][c]` lies at world block
/// `((position.x - 1) * 16 + a, (position.y - 1) * 16 + b, (position.z - 1) * 16 + c)`.
/// `heights[a][c]` is the surface height of world column
/// `((position.x - 1) * 16 + a, (position.z - 1) * 16 + c)`.
pub fn generate_chunk(position: Position, heights: &[[i32; 48]; 48]) -> (chunk: NeighbourhoodData)
    requires
        i32::MIN < position.x < i32::MAX,
        i32::MIN < position.z < i32::MAX,
        i32::MIN <= (position.y - 1) * 16,
        (position.y + 1) * 16 + 15 <= i32::MAX,
    ensures
        forall|a: int, b: int, c: int|
            0 <= a < 48 && 0 <= b < 48 && 0 <= c < 48 ==>
                #[trigger] chunk[a][b][c] == below_surface(position.y - 1, b, heights[a][c] as int),
        forall|a: int, b: int, c: int|
            0 <= a < 48 && 0 <= b < 48 && 0 <= c < 48 ==>
                #[trigger] chunk[a][b][c] == ((position.y - 1) * 16 + b <= heights[a][c]),
{
    let empty: ChunkData = [[[false; 16]; 16]; 16];
    let mut parts: [[[ChunkData; 3]; 3]; 3] = [[[empty; 3]; 3]; 3];
    let mut cx: usize = 0;
    while cx < 3
        invariant
            cx <= 3,
            i32::MIN < position.x < i32::MAX,
            i32::MIN < position.z < i32::MAX,
            i32::MIN <= (position.y - 1) * 16,
            (position.y + 1) * 16 + 15 <= i32::MAX,
            forall|px: int, py: int, pz: int|
                0 <= px < cx && 0 <= py < 3 && 0 <= pz < 3 ==>
                    part_matches(#[trigger] parts[px][py][pz], *heights, px, py, pz, position.y as int),
        decreases 3 - cx,
    {
        let mut cy: usize = 0;
        while cy < 3
            invariant
                cx < 3,
                cy <= 3,
                i32::MIN < position.x < i32::MAX,
                i32::MIN < position.z < i32::MAX,
                i32::MIN <= (position.y - 1) * 16,
                (position.y + 1) * 16 + 15 <= i32::MAX,
                forall|px: int, py: int, pz: int|
                    0 <= px < cx && 0 <= py < 3 && 0 <= pz < 3 ==>
                        part_matches(#[trigger] parts[px][py][pz], *heights, px, py, pz, position.y as int),
                forall|py: int, pz: int|
                    0 <= py < cy && 0 <= pz < 3 ==>
                        part_matches(#[trigger] parts[cx as int][py][pz], *heights, cx as int, py, pz, position.y as int),
            decreases 3 - cy,
        {
            let mut cz: usize = 0;
            while cz < 3
                invariant
                    cx < 3,
                    cy < 3,
                    cz <= 3,
                    i32::MIN < position.x < i32::MAX,
                    i32::MIN < position.z < i32::MAX,
                    i32::MIN <= (position.y - 1) * 16,
                    (position.y + 1) * 16 + 15 <= i32::MAX,
                    forall|px: int, py: int, pz: int|
                        0 <= px < cx && 0 <= py < 3 && 0 <= pz < 3 ==>
                            part_matches(#[trigger] parts[px][py][pz], *heights, px, py, pz, position.y as int),
                    forall|py: int, pz: int|
                        0 <= py < cy && 0 <= pz < 3 ==>
                            part_matches(#[trigger] parts[cx as int][py][pz], *heights, cx as int, py, pz, position.y as int),
                    forall|pz: int|
                        0 <= pz < cz ==>
                            part_matches(#[trigger] parts[cx as int][cy as int][pz], *heights, cx as int, cy as int, pz, position.y as int),
                decreases 3 - cz,
            {
                let sub = column_heights(heights, cx, cz);
                let neighbour = Position {
                    x: position.x - 1 + (cx as i32),
                    y: position.y - 1 + (cy as i32),
                    z: position.z - 1 + (cz as i32),
                };
                let part = generate_chunk_data(neighbour, &sub);
                parts[cx][cy][cz] = part;
                cz = cz + 1;
            }
            cy = cy + 1;
        }
        cx = cx + 1;
    }

    let mut chunk: NeighbourhoodData = [[[false; 48]; 48]; 48];
    let mut a: usize = 0;
    while a < 48
        invariant
            a <= 48,
            forall|px: int, py: int, pz: int|
                0 <= px < 3 && 0 <= py < 3 && 0 <= pz < 3 ==>
                    part_matches(#[trigger] parts[px][py][pz], *heights, px, py, pz, position.y as int),
            forall|p: int, q: int, r: int|
                0 <= p < a && 0 <= q < 48 && 0 <= r < 48 ==>
                    #[trigger] chunk[p][q][r] == below_surface(position.y - 1, q, heights[p][r] as int),
        decreases 48 - a,
    {
        let mut b: usize = 0;
        while b < 48
            invariant
                a < 48,
                b <= 48,
                forall|px: int, py: int, pz: int|
                    0 <= px < 3 && 0 <= py < 3 && 0 <= pz < 3 ==>
                        part_matches(#[trigger] parts[px][py][pz], *heights, px, py, pz, position.y as int),
                forall|p: int, q: int, r: int|
                    0 <= p < a && 0 <= q < 48 && 0 <= r < 48 ==>
                        #[trigger] chunk[p][q][r] == below_surface(position.y - 1, q, heights[p][r] as int),
                forall|q: int, r: int|
                    0 <= q < b && 0 <= r < 48 ==>
                        #[trigger] chunk[a as int][q][r] == below_surface(position.y - 1, q, heights[a as int][r] as int),
            decreases 48 - b,
        {
            let mut c: usize = 0;
            while c < 48
                invariant
                    a < 48,
                    b < 48,
                    c <= 48,
                    forall|px: int, py: int, pz: int|
                        0 <= px < 3 && 0 <= py < 3 && 0 <= pz < 3 ==>
                            part_matches(#[trigger] parts[px][py][pz], *heights, px, py, pz, position.y as int),
                    forall|p: int, q: int, r: int|
                        0 <= p < a && 0 <= q < 48 && 0 <= r < 48 ==>
                            #[trigger] chunk[p][q][r] == below_surface(position.y - 1, q, heights[p][r] as int),
                    forall|q: int, r: int|
                        0 <= q < b && 0 <= r < 48 ==>
                            #[trigger] chunk[a as int][q][r] == below_surface(position.y - 1, q, heights[a as int][r] as int),
                    forall|r: int|
                        0 <= r < c ==>
                            #[trigger] chunk[a as int][b as int][r] == below_surface(position.y - 1, b as int, heights[a as int][r] as int),
                decreases 48 - c,
            {
                let part = &parts[a / 16][b / 16][c / 16];
                proof {
                    assert(part_matches(parts[(a / 16) as int][(b / 16) as int][(c / 16) as int], *heights, (a / 16) as int, (b / 16) as int, (c / 16) as int, position.y as int));
                    assert(part[(a % 16) as int][(b % 16) as int][(c % 16) as int]
                        == below_surface(position.y - 1, b as int, heights[a as int][c as int] as int));
                }
                chunk[a][b][c] = part[a % 16][b % 16][c % 16];
                c = c + 1;
            }
            b = b + 1;
        }
        a = a + 1;
    }
    chunk
}

/// Law: a generated neighbourhood holds exactly the terrain: voxel `[a][b][c]` is
/// solid exactly when its world height `(position.y - 1) * 16 + b` is at or below
/// the surface height of its column.
pub proof fn law_neighbourhood_is_terrain(position: Position, heights: [[i32; 48]; 48], chunk: NeighbourhoodData)
    requires
        forall|a: int, b: int, c: int|
            0 <= a < 48 && 0 <= b < 48 && 0 <= c < 48 ==>
                #[trigger] chunk[a][b][c] == below_surface(position.y - 1, b, heights[a][c] as int),
    ensures
        forall|a: int, b: int, c: int|
            0 <= a < 48 && 0 <= b < 48 && 0 <= c < 48 ==>
                (#[trigger] chunk[a][b][c] <==> (position.y - 1) * 16 + b <= heights[a][c]),
{
}

/// Emits `face` when `visible` holds.
fn emit_face_if(builder: &mut MeshBuilder, visible: bool, face: Face)
    requires
        old(builder).wf(),
        old(builder).faces@.len() < 1000000,
        face.x < u32::MAX,
        face.y < u32::MAX,
        face.z < u32::MAX,
    ensures
        final(builder).wf(),
        final(builder).faces@ == old(builder).faces@ + (if visible { seq![face] } else { Seq::<Face>::empty() }),
        final(builder).faces@.len() <= old(builder).faces@.len() + 1,
{
    let ghost before = builder.faces@;
    if visible {
        builder.push_face(face);
        assert(builder.faces@ =~= before + seq![face]);
    } else {
        assert(builder.faces@ =~= before + Seq::<Face>::empty());
    }
}

/// Emits the visible faces of cube `(i, j, k)` of a neighbourhood.
fn emit_cube_faces(builder: &mut MeshBuilder, chunk: &NeighbourhoodData, i: usize, j: usize, k: usize)
    requires
        old(builder).wf(),
        old(builder).faces@.len() + 6 <= 1000000,
        1 <= i < 47,
        1 <= j < 47,
        1 <= k < 47,
    ensures
        final(builder).wf(),
        final(builder).faces@ == old(builder).faces@ + cube_faces(*chunk, i as int, j as int, k as int),
{
    let ghost before = builder.faces@;
    let ghost (x, y, z) = (i as int, j as int, k as int);
    if chunk[i][j][k] {
        let cube_right = !chunk[i + 1][j][k];
        let cube_left = !chunk[i - 1][j][k];
        let cube_above = !chunk[i][j + 1][k];
        let cube_below = !chunk[i][j - 1][k];
        let cube_front = !chunk[i][j][k + 1];
        let cube_hind = !chunk[i][j][k - 1];
        let (fx, fy, fz) = (i as u32, j as u32, k as u32);
        assert(face_if_visible(*chunk, x, y, z, FaceDirection::Below)
            == (if cube_below { seq![face_at(x, y, z, FaceDirection::Below)] } else { Seq::<Face>::empty() }));
        assert(face_if_visible(*chunk, x, y, z, FaceDirection::Above)
            == (if cube_above { seq![face_at(x, y, z, FaceDirection::Above)] } else { Seq::<Face>::empty() }));
        assert(face_if_visible(*chunk, x, y, z, FaceDirection::Right)
            == (if cube_right { seq![face_at(x, y, z, FaceDirection::Right)] } else { Seq::<Face>::empty() }));
        assert(face_if_visible(*chunk, x, y, z, FaceDirection::Left)
            == (if cube_left { seq![face_at(x, y, z, FaceDirection::Left)] } else { Seq::<Face>::empty() }));
        assert(face_if_visible(*chunk, x, y, z, FaceDirection::Front)
            == (if cube_front { seq![face_at(x, y, z, FaceDirection::Front)] } else { Seq::<Face>::empty() }));
        assert(face_if_visible(*chunk, x, y, z, FaceDirection::Hind)
            == (if cube_hind { seq![face_at(x, y, z, FaceDirection::Hind)] } else { Seq::<Face>::empty() }));

        emit_face_if(builder, cube_below, Face { x: fx, y: fy, z: fz, direction: FaceDirection::Below });
        emit_face_if(builder, cube_above, Face { x: fx, y: fy, z: fz, direction: FaceDirection::Above });
        emit_face_if(builder, cube_right, Face { x: fx, y: fy, z: fz, direction: FaceDirection::Right });
        emit_face_if(builder, cube_left, Face { x: fx, y: fy, z: fz, direction: FaceDirection::Left });
        emit_face_if(builder, cube_front, Face { x: fx, y: fy, z: fz, direction: FaceDirection::Front });
        emit_face_if(builder, cube_hind, Face { x: fx, y: fy, z: fz, direction: FaceDirection::Hind });
        proof {
            lemma_concat_six(before,
                face_if_visible(*chunk, x, y, z, FaceDirection::Below),
                face_if_visible(*chunk, x, y, z, FaceDirection::Above),
                face_if_visible(*chunk, x, y, z, FaceDirection::Right),
                face_if_visible(*chunk, x, y, z, FaceDirection::Left),
                face_if_visible(*chunk, x, y, z, FaceDirection::Front),
                face_if_visible(*chunk, x, y, z, FaceDirection::Hind));
        }
    } else {
        assert(cube_faces(*chunk, x, y, z) =~= Seq::<Face>::empty());
        assert(builder.faces@ =~= before + cube_faces(*chunk, x, y, z));
    }
}

/// Appending six sequences one by one appends their concatenation.
proof fn lemma_concat_six<A>(s: Seq<A>, a: Seq<A>, b: Seq<A>, c: Seq<A>, d: Seq<A>, e: Seq<A>, f: Seq<A>)
    ensures
        s + a + b + c + d + e + f == s + (a + b + c + d + e + f),
{
    assert(s + a + b + c + d + e + f =~= s + (a + b + c + d + e + f));
}

/// Builds the triangle-list mesh of the visible faces of the cubes
/// `MESH_START..MESH_END` in each axis of a neighbourhood: for every solid cube,
/// each face whose neighbouring cube is empty becomes one textured quad.
/// The second result tells whether any face was emitted.
pub fn generate_chunk_mesh(chunk: NeighbourhoodData) -> (result: (ChunkMesh, bool))
    ensures
        mesh_matches(&result.0, mesh_faces(chunk)),
        result.1 == (mesh_faces(chunk).len() != 0),
        result.1 == (result.0.face_blocks@.len() > 0),
        forall|q: int| 0 <= q < result.0.face_blocks@.len() ==> #[trigger] result.0.face_blocks@[q] == BlockType::Grass,
        result.0.positions@.len() == 4 * result.0.face_blocks@.len(),
        result.0.normals@.len() == 4 * result.0.face_blocks@.len(),
        forall|q: int| 0 <= q < result.0.face_blocks@.len() ==> #[trigger] quad_faces_solid_into_empty(chunk, &result.0, q),
        forall|x: int, y: int, z: int, n: Normal|
            #![trigger chunk[x][y][z], unit_axis(n)]
            MESH_START <= x < MESH_END && MESH_START <= y < MESH_END && MESH_START <= z < MESH_END && unit_axis(n)
                && chunk[x][y][z] && !chunk[x + n.0][y + n.1][z + n.2] ==> exists|q: int|
                0 <= q < result.0.face_blocks@.len() && result.0.normals@[4 * q] == n && #[trigger] quad_cube(&result.0, q) == (x, y, z),
        result.0.indices@.len() == 6 * result.0.face_blocks@.len(),
        forall|t: int| 0 <= t < 2 * result.0.face_blocks@.len() ==> #[trigger] triangle_faces_out(&result.0, t),
        forall|q1: int, q2: int| 0 <= q1 < q2 < result.0.face_blocks@.len() ==> #[trigger] quad_before(&result.0, q1, q2),
{
    let mut builder = MeshBuilder::new();
    let mut i: usize = MESH_START;
    while i < MESH_END
        invariant
            MESH_START <= i <= MESH_END,
            builder.wf(),
            builder.faces@ == block_faces(chunk, i as int),
            builder.faces@.len() <= 6 * (256 * (i - MESH_START)),
        decreases MESH_END - i,
    {
        let mut j: usize = MESH_START;
        while j < MESH_END
            invariant
                MESH_START <= i < MESH_END,
                MESH_START <= j <= MESH_END,
                builder.wf(),
                builder.faces@ == block_faces(chunk, i as int) + layer_faces(chunk, i as int, j as int),
                builder.faces@.len() <= 6 * (256 * (i - MESH_START) + 16 * (j - MESH_START)),
            decreases MESH_END - j,
        {
            let mut k: usize = MESH_START;
            while k < MESH_END
                invariant
                    MESH_START <= i < MESH_END,
                    MESH_START <= j < MESH_END,
                    MESH_START <= k <= MESH_END,
                    builder.wf(),
                    builder.faces@ == block_faces(chunk, i as int) + layer_faces(chunk, i as int, j as int)
                        + row_faces(chunk, i as int, j as int, k as int),
                    builder.faces@.len() <= 6 * (256 * (i - MESH_START) + 16 * (j - MESH_START) + (k - MESH_START)),
                decreases MESH_END - k,
            {
                emit_cube_faces(&mut builder, &chunk, i, j, k);
                assert(builder.faces@ =~= block_faces(chunk, i as int) + layer_faces(chunk, i as int, j as int)
                    + row_faces(chunk, i as int, j as int, k + 1));
                k = k + 1;
            }
            assert(builder.faces@ =~= block_faces(chunk, i as int) + layer_faces(chunk, i as int, j + 1));
            j = j + 1;
        }
        assert(builder.faces@ =~= block_faces(chunk, i + 1));
        i = i + 1;
    }
    let result = builder.finish();
    proof {
        law_mesh_quads_face_from_solid_into_empty(chunk, &result.0);
        law_mesh_triangles_face_out(chunk, &result.0);
        law_mesh_quads_in_order(chunk, &result.0);
        assert forall|x: int, y: int, z: int, n: Normal|
            #![trigger chunk[x][y][z], unit_axis(n)]
            MESH_START <= x < MESH_END && MESH_START <= y < MESH_END && MESH_START <= z < MESH_END && unit_axis(n)
                && chunk[x][y][z] && !chunk[x + n.0][y + n.1][z + n.2] implies exists|q: int|
                0 <= q < result.0.face_blocks@.len() && result.0.normals@[4 * q] == n && #[trigger] quad_cube(&result.0, q) == (x, y, z) by {
            law_mesh_lists_every_visible_face(chunk, &result.0, x, y, z, n);
        }
    }
    result
}

} // verus!
