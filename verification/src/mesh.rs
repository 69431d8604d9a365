//! Mesh Builder: the triangle index buffer for a patch's sample grid.
//!
//! For each of the `(size-1) * (size-1)` grid quads at `(x, z)`, two
//! triangles are emitted over the corner indices `idx(x, z) = x + size * z`:
//! triangle A is `(idx(x,z), idx(x,z+1), idx(x+1,z))` and triangle B is
//! `(idx(x,z+1), idx(x+1,z+1), idx(x+1,z))`. Quads are walked with `x`
//! outermost. The winding fixed by this rule decides face culling
//! downstream, so the order is part of the contract.
//!
//! Vertex positions, normals and color attributes are linear images of the
//! patch data and are assembled by the rendering layer; the indexing and
//! its winding live here.

use vstd::prelude::*;

verus! {

/// The six indices the quad at `(x, z)` contributes, in emission order.
pub open spec fn quad_indices(size: int, x: int, z: int) -> Seq<u32> {
    seq![
        (x + size * z) as u32,
        (x + size * (z + 1)) as u32,
        ((x + 1) + size * z) as u32,
        (x + size * (z + 1)) as u32,
        ((x + 1) + size * (z + 1)) as u32,
        ((x + 1) + size * z) as u32,
    ]
}

/// Indices of the first `z_count` quads of column `x`, in order.
pub open spec fn column_indices(size: int, x: int, z_count: int) -> Seq<u32>
    decreases z_count,
{
    if z_count <= 0 {
        Seq::empty()
    } else {
        column_indices(size, x, z_count - 1) + quad_indices(size, x, z_count - 1)
    }
}

/// Indices of all quads of the first `x_count` columns, in order.
pub open spec fn columns_indices(size: int, x_count: int) -> Seq<u32>
    decreases x_count,
{
    if x_count <= 0 {
        Seq::empty()
    } else {
        columns_indices(size, x_count - 1) + column_indices(size, x_count - 1, size - 1)
    }
}

/// The full index buffer of a `size * size` grid.
pub open spec fn spec_mesh_indices(size: int) -> Seq<u32> {
    columns_indices(size, size - 1)
}

/// One column of quads contributes six indices per quad.
pub proof fn lemma_column_indices_len(size: int, x: int, z_count: int)
    requires
        z_count >= 0,
    ensures
        column_indices(size, x, z_count).len() == 6 * z_count,
    decreases z_count,
{
    if z_count > 0 {
        lemma_column_indices_len(size, x, z_count - 1);
    }
}

/// Law: the index buffer of a `size * size` grid holds exactly
/// `6 * (size - 1) * (size - 1)` entries.
pub proof fn lemma_mesh_indices_len(size: int, x_count: int)
    requires
        x_count >= 0,
        size >= 1,
    ensures
        columns_indices(size, x_count).len() == 6 * ((size - 1) * x_count),
    decreases x_count,
{
    if x_count > 0 {
        lemma_mesh_indices_len(size, x_count - 1);
        lemma_column_indices_len(size, x_count - 1, size - 1);
        assert(columns_indices(size, x_count).len() == 6 * ((size - 1) * (x_count - 1)) + 6 * (size
            - 1));
        assert(6 * ((size - 1) * x_count) == 6 * ((size - 1) * (x_count - 1)) + 6 * (size - 1))
            by (nonlinear_arith);
    } else {
        assert((size - 1) * x_count == 0) by (nonlinear_arith)
            requires
                x_count == 0,
        ;
    }
}

/// Builds the triangle index buffer for a `size * size` sample grid.
pub fn mesh_indices(size: usize) -> (out: Vec<u32>)
    requires
        1 <= size,
        size * size <= u32::MAX,
    ensures
        out@ == spec_mesh_indices(size as int),
        out@.len() == 6 * ((size - 1) * (size - 1)),
{
    let m = size - 1;
    let mut out: Vec<u32> = Vec::new();
    let mut x: usize = 0;
    while x < m
        invariant
            m == size - 1,
            size * size <= u32::MAX,
            x <= m,
            out@ == columns_indices(size as int, x as int),
        decreases m - x,
    {
        let mut z: usize = 0;
        while z < m
            invariant
                m == size - 1,
                size * size <= u32::MAX,
                x < m,
                z <= m,
                out@ == columns_indices(size as int, x as int) + column_indices(
                    size as int,
                    x as int,
                    z as int,
                ),
            decreases m - z,
        {
            proof {
                assert(x + size * z < size * size && x + size * (z + 1) < size * size && (x + 1)
                    + size * z < size * size && (x + 1) + size * (z + 1) < size * size)
                    by (nonlinear_arith)
                    requires
                        x < m,
                        z < m,
                        m == size - 1,
                        size >= 1,
                ;
            }
            let i00 = x + size * z;
            let i01 = x + size * (z + 1);
            let i10 = (x + 1) + size * z;
            let i11 = (x + 1) + size * (z + 1);
            out.push(i00 as u32);
            out.push(i01 as u32);
            out.push(i10 as u32);
            out.push(i01 as u32);
            out.push(i11 as u32);
            out.push(i10 as u32);
            proof {
                assert(out@ =~= columns_indices(size as int, x as int) + column_indices(
                    size as int,
                    x as int,
                    z + 1 as int,
                ));
            }
            z = z + 1;
        }
        proof {
            assert(out@ =~= columns_indices(size as int, x + 1 as int));
        }
        x = x + 1;
    }
    proof {
        lemma_mesh_indices_len(size as int, m as int);
    }
    out
}

} // verus!
