//! Checks on vertex data before it goes to the GPU, and the index lists of
//! the generated shapes.
use vstd::prelude::*;

verus! {

/// Why a set of vertex buffers cannot be uploaded together.
#[derive(Clone, Copy, Debug, PartialEq, Eq, Structural)]
pub enum MeshError {
    /// The position buffer does not hold whole (x, y, z) triples.
    CoordinatesNotTriples,
    /// The color buffer does not hold one RGBA quadruple per vertex.
    ColorCountMismatch,
    /// The normal buffer does not hold one (x, y, z) triple per vertex.
    NormalCountMismatch,
    /// The index at `position` refers to a vertex that does not exist.
    IndexOutOfRange { position: usize },
}

/// The buffers describe the same vertices: three position floats, four color
/// floats and three normal floats each.
pub open spec fn strides_agree(coordinate_count: nat, color_count: nat, normal_count: nat) -> bool {
    &&& coordinate_count % 3 == 0
    &&& color_count == coordinate_count / 3 * 4
    &&& normal_count == coordinate_count
}

/// Checks the layout of one mesh: the float counts of its position, color and
/// normal buffers, and that every index names a vertex. Returns the number of
/// vertices.
pub fn check_mesh_layout(
    coordinate_count: usize,
    color_count: usize,
    normal_count: usize,
    indices: &Vec<u32>,
) -> (r: Result<usize, MeshError>)
    ensures
        coordinate_count % 3 != 0 ==> r == Err::<usize, MeshError>(MeshError::CoordinatesNotTriples),
        coordinate_count % 3 == 0 && color_count != coordinate_count / 3 * 4 ==> r == Err::<usize, MeshError>(
            MeshError::ColorCountMismatch,
        ),
        coordinate_count % 3 == 0 && color_count == coordinate_count / 3 * 4 && normal_count != coordinate_count
            ==> r == Err::<usize, MeshError>(MeshError::NormalCountMismatch),
        strides_agree(coordinate_count as nat, color_count as nat, normal_count as nat) ==> match r {
            Ok(v) => v == coordinate_count / 3 && forall|i: int|
                0 <= i < indices@.len() ==> indices@[i] < coordinate_count / 3,
            Err(e) => e matches MeshError::IndexOutOfRange { position } && position < indices@.len()
                && indices@[position as int] >= coordinate_count / 3 && forall|i: int|
                0 <= i < position ==> indices@[i] < coordinate_count / 3,
        },
{
    if coordinate_count % 3 != 0 {
        return Err(MeshError::CoordinatesNotTriples);
    }
    let vertices = coordinate_count / 3;
    proof {
        assert((color_count % 4 == 0 && color_count / 4 == vertices) <==> color_count == vertices * 4)
            by (nonlinear_arith);
    }
    if color_count % 4 != 0 || color_count / 4 != vertices {
        return Err(MeshError::ColorCountMismatch);
    }
    if normal_count != coordinate_count {
        return Err(MeshError::NormalCountMismatch);
    }
    let mut i: usize = 0;
    while i < indices.len()
        invariant
            i <= indices@.len(),
            vertices == coordinate_count / 3,
            strides_agree(coordinate_count as nat, color_count as nat, normal_count as nat),
            forall|j: int| 0 <= j < i ==> indices@[j] < vertices,
        decreases indices.len() - i,
    {
        if indices[i] as usize >= vertices {
            return Err(MeshError::IndexOutOfRange { position: i });
        }
        i = i + 1;
    }
    Ok(vertices)
}

/// Indices of a triangle fan over a circle of `resolution` segments: the
/// centre, then `resolution + 1` rim points, the last closing the loop.
pub fn circle_indices(resolution: u32) -> (r: Vec<u32>)
    requires
        resolution < u32::MAX,
    ensures
        r@.len() == resolution + 2,
        forall|i: int| 0 <= i < r@.len() ==> r@[i] == i,
{
    let mut indices: Vec<u32> = Vec::new();
    indices.push(0);
    let mut i: u32 = 0;
    while i < resolution + 1
        invariant
            resolution < u32::MAX,
            i <= resolution + 1,
            indices@.len() == i + 1,
            forall|j: int| 0 <= j < indices@.len() ==> indices@[j] == j,
        decreases resolution + 1 - i,
    {
        indices.push(i + 1);
        i = i + 1;
    }
    indices
}

/// Indices of a line strip through `resolution` sample points.
pub fn sine_indices(resolution: u32) -> (r: Vec<u32>)
    ensures
        r@.len() == resolution,
        forall|i: int| 0 <= i < r@.len() ==> r@[i] == i,
{
    let mut indices: Vec<u32> = Vec::new();
    let mut i: u32 = 0;
    while i < resolution
        invariant
            i <= resolution,
            indices@.len() == i,
            forall|j: int| 0 <= j < indices@.len() ==> indices@[j] == j,
        decreases resolution - i,
    {
        indices.push(i);
        i = i + 1;
    }
    indices
}

} // verus!
