//! The terrain patch data model: a square grid of height samples with
//! per-vertex colors and an axis-aligned bounding box.

use vstd::prelude::*;

verus! {

/// Three 32-bit words, each the bit pattern of one `f32` component of a
/// world-space vector. The library moves these around and serializes them
/// without interpreting them numerically.
#[derive(Clone, Copy, PartialEq, Eq, Structural, Debug)]
pub struct Vec3Bits {
    pub x: u32,
    pub y: u32,
    pub z: u32,
}

/// Ghost model of a [`TerrainChunk`].
#[verifier::ext_equal]
pub ghost struct ChunkView {
    pub size: nat,
    pub points: Seq<u32>,
    pub color: Seq<u32>,
    pub min: Vec3Bits,
    pub max: Vec3Bits,
    pub mesh: Option<u64>,
}

impl ChunkView {
    /// The patch invariant: both per-vertex arrays cover the full
    /// `size * size` sample grid.
    pub open spec fn wf(self) -> bool {
        &&& self.points.len() == self.size * self.size
        &&& self.color.len() == self.size * self.size
    }
}

/// One rectangular `size * size` unit of terrain surface: the atomic
/// load/unload granule of the streaming cache.
///
/// `points` holds the height samples row-major (`f32` bit patterns);
/// `color` holds one packed RGBA word per sample, in the same order.
/// `mesh` is an optional reference (by plain identifier) to a renderable
/// mesh built from the samples; it is absent until mesh generation runs.
pub struct TerrainChunk {
    pub size: usize,
    pub points: Vec<u32>,
    pub color: Vec<u32>,
    pub min: Vec3Bits,
    pub max: Vec3Bits,
    pub mesh: Option<u64>,
}

impl View for TerrainChunk {
    type V = ChunkView;

    open spec fn view(&self) -> ChunkView {
        ChunkView {
            size: self.size as nat,
            points: self.points@,
            color: self.color@,
            min: self.min,
            max: self.max,
            mesh: self.mesh,
        }
    }
}

impl TerrainChunk {
    /// The patch invariant at the executable level.
    pub open spec fn wf(&self) -> bool {
        self@.wf()
    }

    /// Builds a patch from already-evaluated samples. The caller supplies
    /// the height samples and per-vertex colors for the full grid; no mesh
    /// is attached yet.
    pub fn new(
        size: usize,
        points: Vec<u32>,
        color: Vec<u32>,
        min: Vec3Bits,
        max: Vec3Bits,
    ) -> (c: Self)
        requires
            points@.len() == size * size,
            color@.len() == size * size,
        ensures
            c.wf(),
            c@ == (ChunkView {
                size: size as nat,
                points: points@,
                color: color@,
                min,
                max,
                mesh: None,
            }),
    {
        TerrainChunk { size, points, color, min, max, mesh: None }
    }

    /// Grid index of the sample in column `x` of row `z`.
    pub open spec fn spec_idx(size: nat, x: nat, z: nat) -> nat {
        x + size * z
    }

    /// Executable counterpart of [`Self::spec_idx`].
    pub fn idx(&self, x: usize, z: usize) -> (i: usize)
        requires
            x < self.size,
            z < self.size,
            self.size * self.size <= usize::MAX,
        ensures
            i == Self::spec_idx(self@.size, x as nat, z as nat),
            i < self.size * self.size,
    {
        proof {
            assert((x as int) + (self.size as int) * (z as int) < (self.size as int) * (self.size
                as int)) by (nonlinear_arith)
                requires
                    x < self.size,
                    z < self.size,
            ;
        }
        x + self.size * z
    }

    /// Attaches the renderable mesh reference produced for this patch.
    pub fn attach_mesh(&mut self, mesh: u64)
        ensures
            final(self)@ == (ChunkView { mesh: Some(mesh), ..old(self)@ }),
    {
        self.mesh = Some(mesh);
    }

    /// The attached mesh reference. The loading pipeline only asks for the
    /// mesh after attaching one, so absence is excluded up front.
    pub fn mesh(&self) -> (m: u64)
        requires
            self@.mesh is Some,
        ensures
            self@.mesh == Some(m),
    {
        self.mesh.unwrap()
    }
}

} // verus!
