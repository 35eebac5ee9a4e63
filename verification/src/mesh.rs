use vstd::prelude::*;
use crate::chunk::{BlockType, NeighbourhoodData};

verus! {

/// First coordinate (inclusive) of the cubes that are meshed in each axis of a neighbourhood.
pub const MESH_START: usize = 15;

/// Last coordinate (exclusive) of the cubes that are meshed in each axis of a neighbourhood.
pub const MESH_END: usize = 31;

/// The six faces of a cube, in the order in which they are emitted.
#[derive(Clone, Copy, Debug, PartialEq, Eq, Structural)]
pub enum FaceDirection {
    /// Facing -y.
    Below,
    /// Facing +y.
    Above,
    /// Facing +x.
    Right,
    /// Facing -x.
    Left,
    /// Facing +z.
    Front,
    /// Facing -z.
    Hind,
}

/// One face of the cube whose lowest corner is `(x, y, z)`.
#[derive(Clone, Copy, Debug, PartialEq, Eq, Structural)]
pub struct Face {
    pub x: u32,
    pub y: u32,
    pub z: u32,
    pub direction: FaceDirection,
}

/// A vertex position in block units.
pub type Vertex = (u32, u32, u32);

/// An axis-aligned unit normal.
pub type Normal = (i32, i32, i32);

/// Triangle-list mesh data: four vertices (with positions and normals) and six
/// indices per quad, and the block type whose texture each quad shows.
pub struct ChunkMesh {
    pub positions: Vec<Vertex>,
    pub normals: Vec<Normal>,
    pub face_blocks: Vec<BlockType>,
    pub indices: Vec<u32>,
}

pub open spec fn vertex(x: int, y: int, z: int) -> Vertex {
    (x as u32, y as u32, z as u32)
}

/// The four corners of a face, in the winding order in which they are emitted.
pub open spec fn face_corners(f: Face) -> Seq<Vertex> {
    let x = f.x as int;
    let y = f.y as int;
    let z = f.z as int;
    match f.direction {
        FaceDirection::Below => seq![vertex(x, y, z + 1), vertex(x, y, z), vertex(x + 1, y, z), vertex(x + 1, y, z + 1)],
        FaceDirection::Above => seq![vertex(x + 1, y + 1, z + 1), vertex(x + 1, y + 1, z), vertex(x, y + 1, z), vertex(x, y + 1, z + 1)],
        FaceDirection::Right => seq![vertex(x + 1, y + 1, z + 1), vertex(x + 1, y, z + 1), vertex(x + 1, y, z), vertex(x + 1, y + 1, z)],
        FaceDirection::Left => seq![vertex(x, y + 1, z), vertex(x, y, z), vertex(x, y, z + 1), vertex(x, y + 1, z + 1)],
        FaceDirection::Front => seq![vertex(x, y + 1, z + 1), vertex(x, y, z + 1), vertex(x + 1, y, z + 1), vertex(x + 1, y + 1, z + 1)],
        FaceDirection::Hind => seq![vertex(x + 1, y + 1, z), vertex(x + 1, y, z), vertex(x, y, z), vertex(x, y + 1, z)],
    }
}

/// The outward unit normal of a face direction.
pub open spec fn direction_normal(d: FaceDirection) -> Normal {
    match d {
        FaceDirection::Below => (0i32, -1i32, 0i32),
        FaceDirection::Above => (0i32, 1i32, 0i32),
        FaceDirection::Right => (1i32, 0i32, 0i32),
        FaceDirection::Left => (-1i32, 0i32, 0i32),
        FaceDirection::Front => (0i32, 0i32, 1i32),
        FaceDirection::Hind => (0i32, 0i32, -1i32),
    }
}

/// The vertex positions of a sequence of faces, four per face.
pub open spec fn positions_of(faces: Seq<Face>) -> Seq<Vertex>
    decreases faces.len(),
{
    if faces.len() == 0 {
        seq![]
    } else {
        positions_of(faces.drop_last()) + face_corners(faces.last())
    }
}

/// The vertex normals of a sequence of faces, four per face.
pub open spec fn normals_of(faces: Seq<Face>) -> Seq<Normal>
    decreases faces.len(),
{
    if faces.len() == 0 {
        seq![]
    } else {
        let n = direction_normal(faces.last().direction);
        normals_of(faces.drop_last()) + seq![n, n, n, n]
    }
}

/// The six indices of quad number `q`: the triangles `(4q, 4q+1, 4q+2)` and `(4q+2, 4q+3, 4q)`.
pub open spec fn quad_indices(q: int) -> Seq<u32> {
    seq![(4 * q) as u32, (4 * q + 1) as u32, (4 * q + 2) as u32, (4 * q + 2) as u32, (4 * q + 3) as u32, (4 * q) as u32]
}

/// The index buffer of `n` quads.
pub open spec fn indices_of(n: nat) -> Seq<u32>
    decreases n,
{
    if n == 0 {
        seq![]
    } else {
        indices_of((n - 1) as nat) + quad_indices(n - 1)
    }
}

/// The mesh data of a sequence of faces, every face textured as grass.
pub open spec fn mesh_matches(mesh: &ChunkMesh, faces: Seq<Face>) -> bool {
    &&& mesh.positions@ == positions_of(faces)
    &&& mesh.normals@ == normals_of(faces)
    &&& mesh.face_blocks@ == Seq::new(faces.len(), |q: int| BlockType::Grass)
    &&& mesh.indices@ == indices_of(faces.len())
}

/// Whether the voxel `(x, y, z)` of a neighbourhood is solid.
pub open spec fn solid(chunk: NeighbourhoodData, x: int, y: int, z: int) -> bool {
    chunk[x][y][z]
}

/// The cube that a face of cube `(x, y, z)` touches.
pub open spec fn neighbour(x: int, y: int, z: int, d: FaceDirection) -> (int, int, int) {
    match d {
        FaceDirection::Below => (x, y - 1, z),
        FaceDirection::Above => (x, y + 1, z),
        FaceDirection::Right => (x + 1, y, z),
        FaceDirection::Left => (x - 1, y, z),
        FaceDirection::Front => (x, y, z + 1),
        FaceDirection::Hind => (x, y, z - 1),
    }
}

/// A face is visible when its cube is solid and the cube it touches is not.
pub open spec fn face_visible(chunk: NeighbourhoodData, x: int, y: int, z: int, d: FaceDirection) -> bool {
    let (nx, ny, nz) = neighbour(x, y, z, d);
    solid(chunk, x, y, z) && !solid(chunk, nx, ny, nz)
}

pub open spec fn face_at(x: int, y: int, z: int, d: FaceDirection) -> Face {
    Face { x: x as u32, y: y as u32, z: z as u32, direction: d }
}

/// The face of cube `(x, y, z)` in direction `d` if it is visible, else nothing.
pub open spec fn face_if_visible(chunk: NeighbourhoodData, x: int, y: int, z: int, d: FaceDirection) -> Seq<Face> {
    if face_visible(chunk, x, y, z, d) {
        seq![face_at(x, y, z, d)]
    } else {
        seq![]
    }
}

/// The visible faces of one cube, in emission order.
pub open spec fn cube_faces(chunk: NeighbourhoodData, x: int, y: int, z: int) -> Seq<Face> {
    face_if_visible(chunk, x, y, z, FaceDirection::Below)
        + face_if_visible(chunk, x, y, z, FaceDirection::Above)
        + face_if_visible(chunk, x, y, z, FaceDirection::Right)
        + face_if_visible(chunk, x, y, z, FaceDirection::Left)
        + face_if_visible(chunk, x, y, z, FaceDirection::Front)
        + face_if_visible(chunk, x, y, z, FaceDirection::Hind)
}

/// The visible faces of the cubes `(x, y, MESH_START..z_end)`.
pub open spec fn row_faces(chunk: NeighbourhoodData, x: int, y: int, z_end: int) -> Seq<Face>
    decreases z_end - MESH_START,
{
    if z_end <= MESH_START {
        seq![]
    } else {
        row_faces(chunk, x, y, z_end - 1) + cube_faces(chunk, x, y, z_end - 1)
    }
}

/// The visible faces of the cubes `(x, MESH_START..y_end, MESH_START..MESH_END)`.
pub open spec fn layer_faces(chunk: NeighbourhoodData, x: int, y_end: int) -> Seq<Face>
    decreases y_end - MESH_START,
{
    if y_end <= MESH_START {
        seq![]
    } else {
        layer_faces(chunk, x, y_end - 1) + row_faces(chunk, x, y_end - 1, MESH_END as int)
    }
}

/// The visible faces of the cubes `(MESH_START..x_end, MESH_START..MESH_END, MESH_START..MESH_END)`.
pub open spec fn block_faces(chunk: NeighbourhoodData, x_end: int) -> Seq<Face>
    decreases x_end - MESH_START,
{
    if x_end <= MESH_START {
        seq![]
    } else {
        block_faces(chunk, x_end - 1) + layer_faces(chunk, x_end - 1, MESH_END as int)
    }
}

/// All faces of the meshed cubes that are visible, ordered by x, then y, then z,
/// then direction (below, above, right, left, front, hind).
pub open spec fn mesh_faces(chunk: NeighbourhoodData) -> Seq<Face> {
    block_faces(chunk, MESH_END as int)
}

/// Whether a face belongs to one of the meshed cubes.
pub open spec fn in_mesh_region(f: Face) -> bool {
    &&& MESH_START <= f.x < MESH_END
    &&& MESH_START <= f.y < MESH_END
    &&& MESH_START <= f.z < MESH_END
}

/// Whether a face is visible in a neighbourhood.
pub open spec fn face_shown(chunk: NeighbourhoodData, f: Face) -> bool {
    face_visible(chunk, f.x as int, f.y as int, f.z as int, f.direction)
}

/// The faces listed for a cube are exactly its visible faces.
proof fn lemma_cube_faces(chunk: NeighbourhoodData, x: int, y: int, z: int, f: Face)
    requires
        0 <= x < 48,
        0 <= y < 48,
        0 <= z < 48,
    ensures
        cube_faces(chunk, x, y, z).contains(f) <==> (f.x == x && f.y == y && f.z == z && face_shown(chunk, f)),
{
    let s = cube_faces(chunk, x, y, z);
    if s.contains(f) {
        let t = choose|t: int| 0 <= t < s.len() && s[t] == f;
        assert(f.x == x && f.y == y && f.z == z && face_shown(chunk, f));
    }
    if f.x == x && f.y == y && f.z == z && face_shown(chunk, f) {
        let b = face_if_visible(chunk, x, y, z, FaceDirection::Below);
        let a = face_if_visible(chunk, x, y, z, FaceDirection::Above);
        let r = face_if_visible(chunk, x, y, z, FaceDirection::Right);
        let l = face_if_visible(chunk, x, y, z, FaceDirection::Left);
        let fr = face_if_visible(chunk, x, y, z, FaceDirection::Front);
        let h = face_if_visible(chunk, x, y, z, FaceDirection::Hind);
        assert(f == face_at(x, y, z, f.direction));
        match f.direction {
            FaceDirection::Below => { assert(s[0] == f); },
            FaceDirection::Above => { assert(s[b.len() as int] == f); },
            FaceDirection::Right => { assert(s[(b.len() + a.len()) as int] == f); },
            FaceDirection::Left => { assert(s[(b.len() + a.len() + r.len()) as int] == f); },
            FaceDirection::Front => { assert(s[(b.len() + a.len() + r.len() + l.len()) as int] == f); },
            FaceDirection::Hind => { assert(s[(b.len() + a.len() + r.len() + l.len() + fr.len()) as int] == f); },
        }
    }
}

/// An element lies in a concatenation exactly when it lies in one of its parts.
pub proof fn lemma_concat_contains<A>(a: Seq<A>, b: Seq<A>, e: A)
    ensures
        (a + b).contains(e) <==> (a.contains(e) || b.contains(e)),
{
    if (a + b).contains(e) {
        let t = choose|t: int| 0 <= t < (a + b).len() && (a + b)[t] == e;
        if t < a.len() {
            assert(a[t] == e);
        } else {
            assert(b[t - a.len()] == e);
        }
    }
    if a.contains(e) {
        let t = choose|t: int| 0 <= t < a.len() && a[t] == e;
        assert((a + b)[t] == e);
    }
    if b.contains(e) {
        let t = choose|t: int| 0 <= t < b.len() && b[t] == e;
        assert((a + b)[a.len() + t] == e);
    }
}

proof fn lemma_row_faces(chunk: NeighbourhoodData, x: int, y: int, z_end: int, f: Face)
    requires
        MESH_START <= x < MESH_END,
        MESH_START <= y < MESH_END,
        MESH_START <= z_end <= MESH_END,
    ensures
        row_faces(chunk, x, y, z_end).contains(f)
            <==> (f.x == x && f.y == y && MESH_START <= f.z < z_end && face_shown(chunk, f)),
    decreases z_end - MESH_START,
{
    if z_end > MESH_START {
        lemma_row_faces(chunk, x, y, z_end - 1, f);
        lemma_cube_faces(chunk, x, y, z_end - 1, f);
        lemma_concat_contains(row_faces(chunk, x, y, z_end - 1), cube_faces(chunk, x, y, z_end - 1), f);
    }
}

proof fn lemma_layer_faces(chunk: NeighbourhoodData, x: int, y_end: int, f: Face)
    requires
        MESH_START <= x < MESH_END,
        MESH_START <= y_end <= MESH_END,
    ensures
        layer_faces(chunk, x, y_end).contains(f)
            <==> (f.x == x && MESH_START <= f.y < y_end && MESH_START <= f.z < MESH_END && face_shown(chunk, f)),
    decreases y_end - MESH_START,
{
    if y_end > MESH_START {
        lemma_layer_faces(chunk, x, y_end - 1, f);
        lemma_row_faces(chunk, x, y_end - 1, MESH_END as int, f);
        lemma_concat_contains(layer_faces(chunk, x, y_end - 1), row_faces(chunk, x, y_end - 1, MESH_END as int), f);
    }
}

proof fn lemma_block_faces(chunk: NeighbourhoodData, x_end: int, f: Face)
    requires
        MESH_START <= x_end <= MESH_END,
    ensures
        block_faces(chunk, x_end).contains(f)
            <==> (MESH_START <= f.x < x_end && MESH_START <= f.y < MESH_END && MESH_START <= f.z < MESH_END
                && face_shown(chunk, f)),
    decreases x_end - MESH_START,
{
    if x_end > MESH_START {
        lemma_block_faces(chunk, x_end - 1, f);
        lemma_layer_faces(chunk, x_end - 1, MESH_END as int, f);
        lemma_concat_contains(block_faces(chunk, x_end - 1), layer_faces(chunk, x_end - 1, MESH_END as int), f);
    }
}

/// Law: the mesh of a neighbourhood lists exactly the visible faces of the meshed
/// cubes: a face is listed if and only if its cube is solid and the cube it
/// touches is empty.
pub proof fn lemma_mesh_faces_are_visible_faces(chunk: NeighbourhoodData, f: Face)
    ensures
        mesh_faces(chunk).contains(f) <==> (in_mesh_region(f) && face_shown(chunk, f)),
{
    lemma_block_faces(chunk, MESH_END as int, f);
}

/// Law: the mesh of a neighbourhood is empty exactly when none of the meshed
/// cubes has a visible face.
pub proof fn lemma_mesh_empty_iff_nothing_visible(chunk: NeighbourhoodData)
    ensures
        (mesh_faces(chunk).len() == 0) <==> (forall|f: Face| !(in_mesh_region(f) && face_shown(chunk, f))),
{
    let faces = mesh_faces(chunk);
    if faces.len() != 0 {
        lemma_mesh_faces_are_visible_faces(chunk, faces[0]);
        assert(faces.contains(faces[0]));
    }
    assert forall|f: Face| faces.len() == 0 implies !(in_mesh_region(f) && face_shown(chunk, f)) by {
        lemma_mesh_faces_are_visible_faces(chunk, f);
    }
}

proof fn lemma_row_faces_len(chunk: NeighbourhoodData, x: int, y: int, z_end: int)
    requires
        MESH_START <= z_end,
    ensures
        row_faces(chunk, x, y, z_end).len() <= 6 * (z_end - MESH_START),
    decreases z_end - MESH_START,
{
    if z_end > MESH_START {
        lemma_row_faces_len(chunk, x, y, z_end - 1);
    }
}

proof fn lemma_layer_faces_len(chunk: NeighbourhoodData, x: int, y_end: int)
    requires
        MESH_START <= y_end,
    ensures
        layer_faces(chunk, x, y_end).len() <= 96 * (y_end - MESH_START),
    decreases y_end - MESH_START,
{
    if y_end > MESH_START {
        lemma_layer_faces_len(chunk, x, y_end - 1);
        lemma_row_faces_len(chunk, x, y_end - 1, MESH_END as int);
        assert(layer_faces(chunk, x, y_end) == layer_faces(chunk, x, y_end - 1) + row_faces(chunk, x, y_end - 1, MESH_END as int));
        assert(MESH_END - MESH_START == 16);
    }
}

proof fn lemma_block_faces_len(chunk: NeighbourhoodData, x_end: int)
    requires
        MESH_START <= x_end,
    ensures
        block_faces(chunk, x_end).len() <= 1536 * (x_end - MESH_START),
    decreases x_end - MESH_START,
{
    if x_end > MESH_START {
        lemma_block_faces_len(chunk, x_end - 1);
        lemma_layer_faces_len(chunk, x_end - 1, MESH_END as int);
        assert(block_faces(chunk, x_end) == block_faces(chunk, x_end - 1) + layer_faces(chunk, x_end - 1, MESH_END as int));
        assert(MESH_END - MESH_START == 16);
    }
}

proof fn lemma_positions_len(faces: Seq<Face>)
    ensures
        positions_of(faces).len() == 4 * faces.len(),
        normals_of(faces).len() == 4 * faces.len(),
    decreases faces.len(),
{
    if faces.len() > 0 {
        lemma_positions_len(faces.drop_last());
    }
}

proof fn lemma_indices(n: nat)
    requires
        4 * n <= u32::MAX + 1,
    ensures
        indices_of(n).len() == 6 * n,
        forall|t: int| 0 <= t < 6 * n ==> (#[trigger] indices_of(n)[t]) < 4 * n,
    decreases n,
{
    if n > 0 {
        lemma_indices((n - 1) as nat);
        let prev = indices_of((n - 1) as nat);
        let q = quad_indices(n - 1);
        assert forall|t: int| 0 <= t < 6 * n implies (#[trigger] indices_of(n)[t]) < 4 * n by {
            if t < 6 * (n - 1) {
                assert(indices_of(n)[t] == prev[t]);
            } else {
                assert(indices_of(n)[t] == q[t - 6 * (n - 1)]);
            }
        }
    }
}

/// Law: the mesh of a neighbourhood is a well-formed triangle list: at most six
/// quads per meshed cube, four positions and four normals per quad, six indices
/// per quad, and every index names one of the mesh's vertices.
pub proof fn lemma_mesh_well_formed(chunk: NeighbourhoodData)
    ensures
        mesh_faces(chunk).len() <= 24576,
        positions_of(mesh_faces(chunk)).len() == 4 * mesh_faces(chunk).len(),
        normals_of(mesh_faces(chunk)).len() == 4 * mesh_faces(chunk).len(),
        indices_of(mesh_faces(chunk).len()).len() == 6 * mesh_faces(chunk).len(),
        forall|t: int| 0 <= t < indices_of(mesh_faces(chunk).len()).len()
            ==> (#[trigger] indices_of(mesh_faces(chunk).len())[t]) < positions_of(mesh_faces(chunk)).len(),
{
    lemma_block_faces_len(chunk, MESH_END as int);
    lemma_positions_len(mesh_faces(chunk));
    lemma_indices(mesh_faces(chunk).len());
}

/// Whether `n` is one of the six axis-aligned unit vectors.
pub open spec fn unit_axis(n: Normal) -> bool {
    ||| n == (1i32, 0i32, 0i32)
    ||| n == (-1i32, 0i32, 0i32)
    ||| n == (0i32, 1i32, 0i32)
    ||| n == (0i32, -1i32, 0i32)
    ||| n == (0i32, 0i32, 1i32)
    ||| n == (0i32, 0i32, -1i32)
}

/// The smallest of four integers.
pub open spec fn min_of_four(a: int, b: int, c: int, d: int) -> int {
    let ab = if a <= b { a } else { b };
    let cd = if c <= d { c } else { d };
    if ab <= cd { ab } else { cd }
}

/// `v` if it is positive, else 0.
pub open spec fn positive_part(v: i32) -> int {
    if v > 0 { v as int } else { 0 }
}

/// The cube a quad of a mesh belongs to: the lowest corner of the quad, stepped
/// back by one along the quad's normal when that normal points toward +x, +y or +z.
pub open spec fn quad_cube(mesh: &ChunkMesh, q: int) -> (int, int, int) {
    let p = mesh.positions@;
    let n = mesh.normals@[4 * q];
    (
        min_of_four(p[4 * q].0 as int, p[4 * q + 1].0 as int, p[4 * q + 2].0 as int, p[4 * q + 3].0 as int) - positive_part(n.0),
        min_of_four(p[4 * q].1 as int, p[4 * q + 1].1 as int, p[4 * q + 2].1 as int, p[4 * q + 3].1 as int) - positive_part(n.1),
        min_of_four(p[4 * q].2 as int, p[4 * q + 1].2 as int, p[4 * q + 2].2 as int, p[4 * q + 3].2 as int) - positive_part(n.2),
    )
}

/// Quad `q` of a mesh is a unit square on the outside of a solid cube of the meshed
/// region, facing an empty voxel: its four vertices share one axis-aligned unit
/// normal `n`, the cube `c` it belongs to is solid and lies in the meshed region,
/// the voxel `c + n` is empty, and every corner is a corner of cube `c` lying on
/// the side of `c` that `n` points to.
pub open spec fn quad_faces_solid_into_empty(chunk: NeighbourhoodData, mesh: &ChunkMesh, q: int) -> bool {
    let n = mesh.normals@[4 * q];
    let (cx, cy, cz) = quad_cube(mesh, q);
    &&& unit_axis(n)
    &&& forall|c: int| 0 <= c < 4 ==> #[trigger] mesh.normals@[4 * q + c] == n
    &&& MESH_START <= cx < MESH_END
    &&& MESH_START <= cy < MESH_END
    &&& MESH_START <= cz < MESH_END
    &&& chunk[cx][cy][cz]
    &&& !chunk[cx + n.0][cy + n.1][cz + n.2]
    &&& forall|c: int| 0 <= c < 4 ==> {
        let v = #[trigger] mesh.positions@[4 * q + c];
        &&& cx <= v.0 <= cx + 1
        &&& cy <= v.1 <= cy + 1
        &&& cz <= v.2 <= cz + 1
        &&& n.0 != 0 ==> v.0 == cx + positive_part(n.0)
        &&& n.1 != 0 ==> v.1 == cy + positive_part(n.1)
        &&& n.2 != 0 ==> v.2 == cz + positive_part(n.2)
    }
}

/// Quad `q` of a list of faces takes its four vertices and normals from face `q`.
proof fn lemma_quad_of_face(faces: Seq<Face>, q: int, c: int)
    requires
        0 <= q < faces.len(),
        0 <= c < 4,
    ensures
        positions_of(faces)[4 * q + c] == face_corners(faces[q])[c],
        normals_of(faces)[4 * q + c] == direction_normal(faces[q].direction),
    decreases faces.len(),
{
    lemma_positions_len(faces.drop_last());
    if q < faces.len() - 1 {
        lemma_quad_of_face(faces.drop_last(), q, c);
    }
}

/// Law: every quad of a mesh built from a neighbourhood is the face of a solid
/// meshed cube toward an empty voxel, the quad lying on that side of the cube
/// and its normal pointing to that voxel.
pub proof fn law_mesh_quads_face_from_solid_into_empty(chunk: NeighbourhoodData, mesh: &ChunkMesh)
    requires
        mesh_matches(mesh, mesh_faces(chunk)),
    ensures
        mesh.positions@.len() == 4 * mesh.face_blocks@.len(),
        mesh.normals@.len() == 4 * mesh.face_blocks@.len(),
        forall|q: int| 0 <= q < mesh.face_blocks@.len() ==> #[trigger] quad_faces_solid_into_empty(chunk, mesh, q),
{
    let faces = mesh_faces(chunk);
    lemma_positions_len(faces);
    assert forall|q: int| 0 <= q < mesh.face_blocks@.len() implies #[trigger] quad_faces_solid_into_empty(chunk, mesh, q) by {
        let f = faces[q];
        assert(faces.contains(f));
        lemma_mesh_faces_are_visible_faces(chunk, f);
        lemma_quad_of_face(faces, q, 0);
        lemma_quad_of_face(faces, q, 1);
        lemma_quad_of_face(faces, q, 2);
        lemma_quad_of_face(faces, q, 3);
        assert forall|c: int| 0 <= c < 4 implies #[trigger] mesh.normals@[4 * q + c] == mesh.normals@[4 * q] by {
            lemma_quad_of_face(faces, q, c);
        }
        assert(quad_cube(mesh, q) == (f.x as int, f.y as int, f.z as int));
    }
}

/// Law: every visible face of the meshed region is in the mesh: for a solid
/// meshed cube and a unit normal pointing to an empty voxel, some quad of the mesh
/// belongs to that cube and has that normal.
pub proof fn law_mesh_lists_every_visible_face(
    chunk: NeighbourhoodData,
    mesh: &ChunkMesh,
    x: int,
    y: int,
    z: int,
    n: Normal,
)
    requires
        mesh_matches(mesh, mesh_faces(chunk)),
        MESH_START <= x < MESH_END,
        MESH_START <= y < MESH_END,
        MESH_START <= z < MESH_END,
        unit_axis(n),
        chunk[x][y][z],
        !chunk[x + n.0][y + n.1][z + n.2],
    ensures
        exists|q: int| 0 <= q < mesh.face_blocks@.len() && mesh.normals@[4 * q] == n && #[trigger] quad_cube(mesh, q) == (x, y, z),
{
    let faces = mesh_faces(chunk);
    let d = if n == (1i32, 0i32, 0i32) {
        FaceDirection::Right
    } else if n == (-1i32, 0i32, 0i32) {
        FaceDirection::Left
    } else if n == (0i32, 1i32, 0i32) {
        FaceDirection::Above
    } else if n == (0i32, -1i32, 0i32) {
        FaceDirection::Below
    } else if n == (0i32, 0i32, 1i32) {
        FaceDirection::Front
    } else {
        FaceDirection::Hind
    };
    let f = face_at(x, y, z, d);
    assert(in_mesh_region(f) && face_shown(chunk, f));
    lemma_mesh_faces_are_visible_faces(chunk, f);
    let q = choose|q: int| 0 <= q < faces.len() && faces[q] == f;
    lemma_positions_len(faces);
    lemma_quad_of_face(faces, q, 0);
    lemma_quad_of_face(faces, q, 1);
    lemma_quad_of_face(faces, q, 2);
    lemma_quad_of_face(faces, q, 3);
    assert(mesh.normals@[4 * q] == n && quad_cube(mesh, q) == (x, y, z));
}

/// The cross product of `b - a` and `c - a`.
pub open spec fn edge_cross(a: Vertex, b: Vertex, c: Vertex) -> (int, int, int) {
    cross((b.0 - a.0, b.1 - a.1, b.2 - a.2, c.0 - a.0, c.1 - a.1, c.2 - a.2))
}

/// The cross product of `(u.0, u.1, u.2)` and `(u.3, u.4, u.5)`.
pub open spec fn cross(u: (int, int, int, int, int, int)) -> (int, int, int) {
    (u.1 * u.5 - u.2 * u.4, u.2 * u.3 - u.0 * u.5, u.0 * u.4 - u.1 * u.3)
}

/// Triangle `t` of a mesh names three of its vertices, which share one normal,
/// and winds counter-clockwise seen from the side that normal points to: the
/// cross product of its two edges from the first vertex is that normal.
pub open spec fn triangle_faces_out(mesh: &ChunkMesh, t: int) -> bool {
    let i0 = mesh.indices@[3 * t] as int;
    let i1 = mesh.indices@[3 * t + 1] as int;
    let i2 = mesh.indices@[3 * t + 2] as int;
    let n = mesh.normals@[i0];
    &&& i0 < mesh.positions@.len()
    &&& i1 < mesh.positions@.len()
    &&& i2 < mesh.positions@.len()
    &&& mesh.normals@[i1] == n
    &&& mesh.normals@[i2] == n
    &&& edge_cross(mesh.positions@[i0], mesh.positions@[i1], mesh.positions@[i2]) == (n.0 as int, n.1 as int, n.2 as int)
}

proof fn lemma_indices_len(n: nat)
    ensures
        indices_of(n).len() == 6 * n,
    decreases n,
{
    if n > 0 {
        lemma_indices_len((n - 1) as nat);
    }
}

proof fn lemma_index_of_quad(n: nat, q: int, k: int)
    requires
        0 <= q < n,
        0 <= k < 6,
    ensures
        indices_of(n)[6 * q + k] == quad_indices(q)[k],
    decreases n,
{
    lemma_indices_len((n - 1) as nat);
    if q < n - 1 {
        lemma_index_of_quad((n - 1) as nat, q, k);
    }
}

/// The edges `b - a` and `c - a` of triangle `t` (0 or 1) of a face quad.
spec fn face_offsets(d: FaceDirection, t: int) -> (int, int, int, int, int, int) {
    match d {
        FaceDirection::Below => if t == 0 { (0, 0, -1, 1, 0, -1) } else { (0, 0, 1, -1, 0, 1) },
        FaceDirection::Above => if t == 0 { (0, 0, -1, -1, 0, -1) } else { (0, 0, 1, 1, 0, 1) },
        FaceDirection::Right => if t == 0 { (0, -1, 0, 0, -1, -1) } else { (0, 1, 0, 0, 1, 1) },
        FaceDirection::Left => if t == 0 { (0, -1, 0, 0, -1, 1) } else { (0, 1, 0, 0, 1, -1) },
        FaceDirection::Front => if t == 0 { (0, -1, 0, 1, -1, 0) } else { (0, 1, 0, -1, 1, 0) },
        FaceDirection::Hind => if t == 0 { (0, -1, 0, -1, -1, 0) } else { (0, 1, 0, 1, 1, 0) },
    }
}

spec fn offsets_normal(d: FaceDirection) -> (int, int, int) {
    match d {
        FaceDirection::Below => (0, -1, 0),
        FaceDirection::Above => (0, 1, 0),
        FaceDirection::Right => (1, 0, 0),
        FaceDirection::Left => (-1, 0, 0),
        FaceDirection::Front => (0, 0, 1),
        FaceDirection::Hind => (0, 0, -1),
    }
}

/// Both triangles of each face quad wind counter-clockwise around its normal.
proof fn lemma_face_offsets_cross(d: FaceDirection, t: int)
    requires
        t == 0 || t == 1,
    ensures
        cross(face_offsets(d, t)) == offsets_normal(d),
{
    match d {
        FaceDirection::Below => {
            assert(cross(face_offsets(FaceDirection::Below, 0)) == (0int, -1int, 0int));
            assert(cross(face_offsets(FaceDirection::Below, 1)) == (0int, -1int, 0int));
        },
        FaceDirection::Above => {
            assert(cross(face_offsets(FaceDirection::Above, 0)) == (0int, 1int, 0int));
            assert(cross(face_offsets(FaceDirection::Above, 1)) == (0int, 1int, 0int));
        },
        FaceDirection::Right => {
            assert(cross(face_offsets(FaceDirection::Right, 0)) == (1int, 0int, 0int));
            assert(cross(face_offsets(FaceDirection::Right, 1)) == (1int, 0int, 0int));
        },
        FaceDirection::Left => {
            assert(cross(face_offsets(FaceDirection::Left, 0)) == (-1int, 0int, 0int));
            assert(cross(face_offsets(FaceDirection::Left, 1)) == (-1int, 0int, 0int));
        },
        FaceDirection::Front => {
            assert(cross(face_offsets(FaceDirection::Front, 0)) == (0int, 0int, 1int));
            assert(cross(face_offsets(FaceDirection::Front, 1)) == (0int, 0int, 1int));
        },
        FaceDirection::Hind => {
            assert(cross(face_offsets(FaceDirection::Hind, 0)) == (0int, 0int, -1int));
            assert(cross(face_offsets(FaceDirection::Hind, 1)) == (0int, 0int, -1int));
        },
    }
}

/// Law: every triangle of a mesh built from a neighbourhood winds
/// counter-clockwise seen from outside its cube: the cross product of its edges
/// is the outward normal of its vertices.
pub proof fn law_mesh_triangles_face_out(chunk: NeighbourhoodData, mesh: &ChunkMesh)
    requires
        mesh_matches(mesh, mesh_faces(chunk)),
    ensures
        mesh.indices@.len() == 6 * mesh.face_blocks@.len(),
        forall|t: int| 0 <= t < 2 * mesh.face_blocks@.len() ==> #[trigger] triangle_faces_out(mesh, t),
{
    let faces = mesh_faces(chunk);
    lemma_mesh_well_formed(chunk);
    lemma_positions_len(faces);
    assert forall|t: int| 0 <= t < 2 * mesh.face_blocks@.len() implies #[trigger] triangle_faces_out(mesh, t) by {
        let q = t / 2;
        let f = faces[q];
        assert(faces.contains(f));
        lemma_mesh_faces_are_visible_faces(chunk, f);
        lemma_quad_of_face(faces, q, 0);
        lemma_quad_of_face(faces, q, 1);
        lemma_quad_of_face(faces, q, 2);
        lemma_quad_of_face(faces, q, 3);
        lemma_index_of_quad(faces.len(), q, 0);
        lemma_index_of_quad(faces.len(), q, 1);
        lemma_index_of_quad(faces.len(), q, 2);
        lemma_index_of_quad(faces.len(), q, 3);
        lemma_index_of_quad(faces.len(), q, 4);
        lemma_index_of_quad(faces.len(), q, 5);
        lemma_indices_len(faces.len());
        let p = mesh.positions@;
        let nm = mesh.normals@;
        if t % 2 == 0 {
            assert(3 * t == 6 * q);
            assert(mesh.indices@[3 * t] as int == 4 * q);
            assert(mesh.indices@[3 * t + 1] as int == 4 * q + 1);
            assert(mesh.indices@[3 * t + 2] as int == 4 * q + 2);
            let (a, b, c) = (p[4 * q], p[4 * q + 1], p[4 * q + 2]);
            assert((b.0 - a.0, b.1 - a.1, b.2 - a.2, c.0 - a.0, c.1 - a.1, c.2 - a.2) == face_offsets(f.direction, 0));
            lemma_face_offsets_cross(f.direction, 0);
        } else {
            assert(3 * t == 6 * q + 3);
            assert(mesh.indices@[3 * t] as int == 4 * q + 2);
            assert(mesh.indices@[3 * t + 1] as int == 4 * q + 3);
            assert(mesh.indices@[3 * t + 2] as int == 4 * q);
            let (a, b, c) = (p[4 * q + 2], p[4 * q + 3], p[4 * q]);
            assert((b.0 - a.0, b.1 - a.1, b.2 - a.2, c.0 - a.0, c.1 - a.1, c.2 - a.2) == face_offsets(f.direction, 1));
            lemma_face_offsets_cross(f.direction, 1);
        }
    }
}

/// The place of a unit normal in the order in which a cube's faces are emitted:
/// -y, +y, +x, -x, +z, -z.
pub open spec fn normal_rank(n: Normal) -> int {
    if n == (0i32, -1i32, 0i32) {
        0
    } else if n == (0i32, 1i32, 0i32) {
        1
    } else if n == (1i32, 0i32, 0i32) {
        2
    } else if n == (-1i32, 0i32, 0i32) {
        3
    } else if n == (0i32, 0i32, 1i32) {
        4
    } else {
        5
    }
}

/// Whether quad `q1` comes before quad `q2`: by the cube they belong to, ordered
/// by x, then y, then z, and within a cube by the rank of their normals.
pub open spec fn quad_before(mesh: &ChunkMesh, q1: int, q2: int) -> bool {
    let (x1, y1, z1) = quad_cube(mesh, q1);
    let (x2, y2, z2) = quad_cube(mesh, q2);
    let r1 = normal_rank(mesh.normals@[4 * q1]);
    let r2 = normal_rank(mesh.normals@[4 * q2]);
    x1 < x2 || (x1 == x2 && (y1 < y2 || (y1 == y2 && (z1 < z2 || (z1 == z2 && r1 < r2)))))
}

spec fn direction_rank(d: FaceDirection) -> int {
    match d {
        FaceDirection::Below => 0,
        FaceDirection::Above => 1,
        FaceDirection::Right => 2,
        FaceDirection::Left => 3,
        FaceDirection::Front => 4,
        FaceDirection::Hind => 5,
    }
}

spec fn face_before(a: Face, b: Face) -> bool {
    a.x < b.x || (a.x == b.x && (a.y < b.y || (a.y == b.y && (a.z < b.z
        || (a.z == b.z && direction_rank(a.direction) < direction_rank(b.direction))))))
}

spec fn faces_sorted(s: Seq<Face>) -> bool {
    forall|i: int, j: int| 0 <= i < j < s.len() ==> face_before(s[i], s[j])
}

proof fn lemma_concat_faces_sorted(a: Seq<Face>, b: Seq<Face>)
    requires
        faces_sorted(a),
        faces_sorted(b),
        forall|i: int, j: int| 0 <= i < a.len() && 0 <= j < b.len() ==> face_before(a[i], b[j]),
    ensures
        faces_sorted(a + b),
{
    let c = a + b;
    assert forall|i: int, j: int| 0 <= i < j < c.len() implies face_before(c[i], c[j]) by {
        if j < a.len() {
            assert(c[i] == a[i] && c[j] == a[j]);
        } else if i >= a.len() {
            assert(c[i] == b[i - a.len()] && c[j] == b[j - a.len()]);
        } else {
            assert(c[i] == a[i] && c[j] == b[j - a.len()]);
        }
    }
}

proof fn lemma_cube_faces_sorted(chunk: NeighbourhoodData, x: int, y: int, z: int)
    requires
        0 <= x < 48,
        0 <= y < 48,
        0 <= z < 48,
    ensures
        faces_sorted(cube_faces(chunk, x, y, z)),
{
    let b = face_if_visible(chunk, x, y, z, FaceDirection::Below);
    let a = face_if_visible(chunk, x, y, z, FaceDirection::Above);
    let r = face_if_visible(chunk, x, y, z, FaceDirection::Right);
    let l = face_if_visible(chunk, x, y, z, FaceDirection::Left);
    let f = face_if_visible(chunk, x, y, z, FaceDirection::Front);
    let h = face_if_visible(chunk, x, y, z, FaceDirection::Hind);
    lemma_concat_faces_sorted(b, a);
    lemma_concat_faces_sorted(b + a, r);
    lemma_concat_faces_sorted(b + a + r, l);
    lemma_concat_faces_sorted(b + a + r + l, f);
    lemma_concat_faces_sorted(b + a + r + l + f, h);
}

proof fn lemma_row_faces_sorted(chunk: NeighbourhoodData, x: int, y: int, z_end: int)
    requires
        MESH_START <= x < MESH_END,
        MESH_START <= y < MESH_END,
        MESH_START <= z_end <= MESH_END,
    ensures
        faces_sorted(row_faces(chunk, x, y, z_end)),
    decreases z_end - MESH_START,
{
    if z_end > MESH_START {
        lemma_row_faces_sorted(chunk, x, y, z_end - 1);
        lemma_cube_faces_sorted(chunk, x, y, z_end - 1);
        let a = row_faces(chunk, x, y, z_end - 1);
        let b = cube_faces(chunk, x, y, z_end - 1);
        assert forall|i: int, j: int| 0 <= i < a.len() && 0 <= j < b.len() implies face_before(a[i], b[j]) by {
            assert(a.contains(a[i]));
            assert(b.contains(b[j]));
            lemma_row_faces(chunk, x, y, z_end - 1, a[i]);
            lemma_cube_faces(chunk, x, y, z_end - 1, b[j]);
        }
        lemma_concat_faces_sorted(a, b);
    }
}

proof fn lemma_layer_faces_sorted(chunk: NeighbourhoodData, x: int, y_end: int)
    requires
        MESH_START <= x < MESH_END,
        MESH_START <= y_end <= MESH_END,
    ensures
        faces_sorted(layer_faces(chunk, x, y_end)),
    decreases y_end - MESH_START,
{
    if y_end > MESH_START {
        lemma_layer_faces_sorted(chunk, x, y_end - 1);
        lemma_row_faces_sorted(chunk, x, y_end - 1, MESH_END as int);
        let a = layer_faces(chunk, x, y_end - 1);
        let b = row_faces(chunk, x, y_end - 1, MESH_END as int);
        assert forall|i: int, j: int| 0 <= i < a.len() && 0 <= j < b.len() implies face_before(a[i], b[j]) by {
            assert(a.contains(a[i]));
            assert(b.contains(b[j]));
            lemma_layer_faces(chunk, x, y_end - 1, a[i]);
            lemma_row_faces(chunk, x, y_end - 1, MESH_END as int, b[j]);
        }
        lemma_concat_faces_sorted(a, b);
    }
}

proof fn lemma_block_faces_sorted(chunk: NeighbourhoodData, x_end: int)
    requires
        MESH_START <= x_end <= MESH_END,
    ensures
        faces_sorted(block_faces(chunk, x_end)),
    decreases x_end - MESH_START,
{
    if x_end > MESH_START {
        lemma_block_faces_sorted(chunk, x_end - 1);
        lemma_layer_faces_sorted(chunk, x_end - 1, MESH_END as int);
        let a = block_faces(chunk, x_end - 1);
        let b = layer_faces(chunk, x_end - 1, MESH_END as int);
        assert forall|i: int, j: int| 0 <= i < a.len() && 0 <= j < b.len() implies face_before(a[i], b[j]) by {
            assert(a.contains(a[i]));
            assert(b.contains(b[j]));
            lemma_block_faces(chunk, x_end - 1, a[i]);
            lemma_layer_faces(chunk, x_end - 1, MESH_END as int, b[j]);
        }
        lemma_concat_faces_sorted(a, b);
    }
}

/// The cube and normal of a quad are those of the face it was built from.
proof fn lemma_quad_cube_of_face(chunk: NeighbourhoodData, mesh: &ChunkMesh, q: int)
    requires
        mesh_matches(mesh, mesh_faces(chunk)),
        0 <= q < mesh_faces(chunk).len(),
    ensures
        quad_cube(mesh, q) == (mesh_faces(chunk)[q].x as int, mesh_faces(chunk)[q].y as int, mesh_faces(chunk)[q].z as int),
        normal_rank(mesh.normals@[4 * q]) == direction_rank(mesh_faces(chunk)[q].direction),
{
    let faces = mesh_faces(chunk);
    let f = faces[q];
    assert(faces.contains(f));
    lemma_mesh_faces_are_visible_faces(chunk, f);
    lemma_quad_of_face(faces, q, 0);
    lemma_quad_of_face(faces, q, 1);
    lemma_quad_of_face(faces, q, 2);
    lemma_quad_of_face(faces, q, 3);
}

/// Law: the quads of a mesh come in a fixed order: by the cube they belong to,
/// ordered by x, then y, then z, and within a cube by normal (-y, +y, +x, -x, +z,
/// -z); so no face is listed twice.
pub proof fn law_mesh_quads_in_order(chunk: NeighbourhoodData, mesh: &ChunkMesh)
    requires
        mesh_matches(mesh, mesh_faces(chunk)),
    ensures
        forall|q1: int, q2: int| 0 <= q1 < q2 < mesh.face_blocks@.len() ==> #[trigger] quad_before(mesh, q1, q2),
{
    lemma_block_faces_sorted(chunk, MESH_END as int);
    assert forall|q1: int, q2: int| 0 <= q1 < q2 < mesh.face_blocks@.len() implies #[trigger] quad_before(mesh, q1, q2) by {
        lemma_quad_cube_of_face(chunk, mesh, q1);
        lemma_quad_cube_of_face(chunk, mesh, q2);
        assert(face_before(mesh_faces(chunk)[q1], mesh_faces(chunk)[q2]));
    }
}

/// Mesh data under construction, with the faces emitted so far.
pub(crate) struct MeshBuilder {
    pub(crate) mesh: ChunkMesh,
    pub(crate) counter: u32,
    pub(crate) faces: Ghost<Seq<Face>>,
}

impl MeshBuilder {
    pub(crate) closed spec fn wf(&self) -> bool {
        &&& mesh_matches(&self.mesh, self.faces@)
        &&& self.counter == 4 * self.faces@.len()
        &&& self.faces@.len() <= 1000000
    }

    pub(crate) fn new() -> (b: MeshBuilder)
        ensures
            b.wf(),
            b.faces@ == Seq::<Face>::empty(),
    {
        let b = MeshBuilder {
            mesh: ChunkMesh { positions: Vec::new(), normals: Vec::new(), face_blocks: Vec::new(), indices: Vec::new() },
            counter: 0,
            faces: Ghost(Seq::empty()),
        };
        proof {
            assert(b.mesh.face_blocks@ =~= Seq::new(0, |q: int| BlockType::Grass));
        }
        b
    }

    /// Appends the four vertices and two triangles of a face.
    pub(crate) fn push_face(&mut self, face: Face)
        requires
            old(self).wf(),
            old(self).faces@.len() < 1000000,
            face.x < u32::MAX,
            face.y < u32::MAX,
            face.z < u32::MAX,
        ensures
            final(self).wf(),
            final(self).faces@ == old(self).faces@.push(face),
    {
        let ghost faces = self.faces@;
        let x = face.x;
        let y = face.y;
        let z = face.z;
        let (c0, c1, c2, c3, normal) = match face.direction {
            FaceDirection::Below => ((x, y, z + 1), (x, y, z), (x + 1, y, z), (x + 1, y, z + 1), (0, -1, 0)),
            FaceDirection::Above => ((x + 1, y + 1, z + 1), (x + 1, y + 1, z), (x, y + 1, z), (x, y + 1, z + 1), (0, 1, 0)),
            FaceDirection::Right => ((x + 1, y + 1, z + 1), (x + 1, y, z + 1), (x + 1, y, z), (x + 1, y + 1, z), (1, 0, 0)),
            FaceDirection::Left => ((x, y + 1, z), (x, y, z), (x, y, z + 1), (x, y + 1, z + 1), (-1, 0, 0)),
            FaceDirection::Front => ((x, y + 1, z + 1), (x, y, z + 1), (x + 1, y, z + 1), (x + 1, y + 1, z + 1), (0, 0, 1)),
            FaceDirection::Hind => ((x + 1, y + 1, z), (x + 1, y, z), (x, y, z), (x, y + 1, z), (0, 0, -1)),
        };
        self.mesh.positions.push(c0);
        self.mesh.positions.push(c1);
        self.mesh.positions.push(c2);
        self.mesh.positions.push(c3);
        self.mesh.face_blocks.push(BlockType::Grass);
        self.mesh.normals.push(normal);
        self.mesh.normals.push(normal);
        self.mesh.normals.push(normal);
        self.mesh.normals.push(normal);
        let counter = self.counter;
        self.mesh.indices.push(counter);
        self.mesh.indices.push(counter + 1);
        self.mesh.indices.push(counter + 2);
        self.mesh.indices.push(counter + 2);
        self.mesh.indices.push(counter + 3);
        self.mesh.indices.push(counter);
        self.counter = counter + 4;
        self.faces = Ghost(faces.push(face));
        proof {
            let nf = faces.push(face);
            assert(nf.drop_last() =~= faces);
            assert(self.mesh.positions@ =~= positions_of(nf));
            assert(self.mesh.normals@ =~= normals_of(nf));
            assert(self.mesh.face_blocks@ =~= Seq::new(nf.len(), |q: int| BlockType::Grass));
            assert(self.mesh.indices@ =~= indices_of(nf.len()));
        }
    }

    /// The finished mesh, and whether it has any face.
    pub(crate) fn finish(self) -> (result: (ChunkMesh, bool))
        requires
            self.wf(),
        ensures
            mesh_matches(&result.0, self.faces@),
            result.1 == (self.faces@.len() != 0),
    {
        let has_faces = self.counter != 0;
        (self.mesh, has_faces)
    }
}

} // verus!
