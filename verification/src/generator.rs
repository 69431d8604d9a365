//! Patch Generator, image-derived path: cuts a pair of rasters (heights and
//! colors) into fixed-size blocks, one patch per block, closing the seam
//! with the next block by sampling `(N+1) * (N+1)` pixels per block.
//!
//! The geometry here is exact: raw 16-bit heights, packed RGBA colors, and
//! vertical centering carried out on doubled integers. A block's centered
//! sample is `2*h - (min + max)`; scaling by half the vertical scale factor
//! turns it into the world-space height `vscale * (h - (min+max)/2)`, so
//! the rendering layer applies one exact multiplication per sample and no
//! rounding happens before that point.

use vstd::arithmetic::div_mod::lemma_div_is_ordered;
use vstd::arithmetic::div_mod::lemma_fundamental_div_mod_converse;
use vstd::prelude::*;

verus! {

/// Packed RGBA word for opaque white, substituted for pixels outside the
/// raster bounds.
pub const WHITE_RGBA: u32 = 0xFFFF_FFFF;

/// A single-channel 16-bit raster, row-major.
pub struct HeightRaster {
    pub width: u32,
    pub height: u32,
    pub pixels: Vec<u16>,
}

/// A packed-RGBA raster, row-major, same layout as [`HeightRaster`].
pub struct ColorRaster {
    pub width: u32,
    pub height: u32,
    pub pixels: Vec<u32>,
}

impl HeightRaster {
    /// The pixel array covers the full raster.
    pub open spec fn wf(&self) -> bool {
        self.pixels@.len() == (self.width as int) * (self.height as int)
    }

    /// The pixel in column `x` of row `z`.
    pub open spec fn spec_pixel(&self, x: int, z: int) -> u16 {
        self.pixels@[z * (self.width as int) + x]
    }

    /// Reads one pixel.
    pub fn pixel(&self, x: u32, z: u32) -> (p: u16)
        requires
            self.wf(),
            x < self.width,
            z < self.height,
        ensures
            p == self.spec_pixel(x as int, z as int),
    {
        let n = self.pixels.len();
        proof {
            assert(0 <= (z as int) * (self.width as int) && (z as int) * (self.width as int) + x
                < (self.width as int) * (self.height as int)) by (nonlinear_arith)
                requires
                    x < self.width,
                    z < self.height,
            ;
        }
        self.pixels[(z as usize) * (self.width as usize) + (x as usize)]
    }
}

impl ColorRaster {
    /// The pixel array covers the full raster.
    pub open spec fn wf(&self) -> bool {
        self.pixels@.len() == (self.width as int) * (self.height as int)
    }

    /// The pixel in column `x` of row `z`.
    pub open spec fn spec_pixel(&self, x: int, z: int) -> u32 {
        self.pixels@[z * (self.width as int) + x]
    }

    /// Reads one pixel.
    pub fn pixel(&self, x: u32, z: u32) -> (p: u32)
        requires
            self.wf(),
            x < self.width,
            z < self.height,
        ensures
            p == self.spec_pixel(x as int, z as int),
    {
        let n = self.pixels.len();
        proof {
            assert(0 <= (z as int) * (self.width as int) && (z as int) * (self.width as int) + x
                < (self.width as int) * (self.height as int)) by (nonlinear_arith)
                requires
                    x < self.width,
                    z < self.height,
            ;
        }
        self.pixels[(z as usize) * (self.width as usize) + (x as usize)]
    }
}

/// The raw height a block sample takes: the source pixel where it exists,
/// zero where the sample falls outside the raster.
pub open spec fn sample_height(hr: &HeightRaster, bx: int, bz: int, dx: int, dz: int) -> u16 {
    if bx + dx < hr.width && bz + dz < hr.height {
        hr.spec_pixel(bx + dx, bz + dz)
    } else {
        0
    }
}

/// The color a block sample takes: the source pixel where it exists,
/// opaque white where the sample falls outside the raster.
pub open spec fn sample_color(cr: &ColorRaster, bx: int, bz: int, dx: int, dz: int) -> u32 {
    if bx + dx < cr.width && bz + dz < cr.height {
        cr.spec_pixel(bx + dx, bz + dz)
    } else {
        WHITE_RGBA
    }
}

/// One block's worth of samples: the exact integer core of a patch, before
/// the rendering layer applies the horizontal and vertical scale factors.
pub struct BlockSamples {
    /// Samples per side: chunk size plus one, closing the seam.
    pub size: usize,
    /// Raw heights, row-major (`dz` outer, `dx` inner).
    pub heights: Vec<u16>,
    /// Packed colors, same order.
    pub colors: Vec<u32>,
    /// Smallest raw height of the block.
    pub min_raw: u16,
    /// Largest raw height of the block.
    pub max_raw: u16,
    /// Doubled vertically-centered heights: `2*h - (min_raw + max_raw)`.
    pub centered: Vec<i32>,
}

/// Cuts the block at pixel origin `(bx, bz)` out of the rasters: reads the
/// `(N+1) * (N+1)` samples that close the seam with the next block,
/// substituting height `0` and opaque white for samples outside the raster,
/// tracks the raw height range, and centers the heights on doubled
/// integers.
pub fn block_samples(
    hr: &HeightRaster,
    cr: &ColorRaster,
    bx: u32,
    bz: u32,
    chunk_size: usize,
) -> (b: BlockSamples)
    requires
        hr.wf(),
        cr.wf(),
        cr.width == hr.width,
        cr.height == hr.height,
        bx < hr.width,
        bz < hr.height,
        (chunk_size + 1) * (chunk_size + 1) <= usize::MAX,
    ensures
        b.size == chunk_size + 1,
        b.heights@.len() == b.size * b.size,
        b.colors@.len() == b.size * b.size,
        b.centered@.len() == b.size * b.size,
        forall|i: int|
            0 <= i < b.size * b.size ==> b.heights@[i] == sample_height(
                hr,
                bx as int,
                bz as int,
                i % (b.size as int),
                i / (b.size as int),
            ),
        forall|i: int|
            0 <= i < b.size * b.size ==> b.colors@[i] == sample_color(
                cr,
                bx as int,
                bz as int,
                i % (b.size as int),
                i / (b.size as int),
            ),
        forall|i: int| 0 <= i < b.size * b.size ==> b.min_raw <= b.heights@[i],
        forall|i: int| 0 <= i < b.size * b.size ==> b.heights@[i] <= b.max_raw,
        b.heights@.contains(b.min_raw),
        b.heights@.contains(b.max_raw),
        forall|i: int|
            0 <= i < b.size * b.size ==> b.centered@[i] == 2 * b.heights@[i] - b.min_raw
                - b.max_raw,
{
    proof {
        assert(chunk_size + 1 <= (chunk_size + 1) * (chunk_size + 1)) by (nonlinear_arith);
    }
    let size = chunk_size + 1;
    let mut heights: Vec<u16> = Vec::new();
    let mut colors: Vec<u32> = Vec::new();
    let first = hr.pixel(bx, bz);
    let mut mn: u16 = first;
    let mut mx: u16 = first;
    let mut dz: usize = 0;
    while dz < size
        invariant
            hr.wf(),
            cr.wf(),
            cr.width == hr.width,
            cr.height == hr.height,
            bx < hr.width,
            bz < hr.height,
            size * size <= usize::MAX,
            size >= 1,
            dz <= size,
            heights@.len() == dz * size,
            colors@.len() == dz * size,
            forall|i: int|
                0 <= i < dz * size ==> heights@[i] == sample_height(
                    hr,
                    bx as int,
                    bz as int,
                    i % (size as int),
                    i / (size as int),
                ),
            forall|i: int|
                0 <= i < dz * size ==> colors@[i] == sample_color(
                    cr,
                    bx as int,
                    bz as int,
                    i % (size as int),
                    i / (size as int),
                ),
            forall|i: int| 0 <= i < dz * size ==> mn <= heights@[i],
            forall|i: int| 0 <= i < dz * size ==> heights@[i] <= mx,
            heights@.len() == 0 ==> mn == hr.spec_pixel(bx as int, bz as int) && mx == mn,
            heights@.len() > 0 ==> heights@.contains(mn) && heights@.contains(mx),
        decreases size - dz,
    {
        let mut dx: usize = 0;
        while dx < size
            invariant
                hr.wf(),
                cr.wf(),
                cr.width == hr.width,
                cr.height == hr.height,
                bx < hr.width,
                bz < hr.height,
                size * size <= usize::MAX,
                size >= 1,
                dz < size,
                dx <= size,
                heights@.len() == dz * size + dx,
                colors@.len() == dz * size + dx,
                forall|i: int|
                    0 <= i < dz * size + dx ==> heights@[i] == sample_height(
                        hr,
                        bx as int,
                        bz as int,
                        i % (size as int),
                        i / (size as int),
                    ),
                forall|i: int|
                    0 <= i < dz * size + dx ==> colors@[i] == sample_color(
                        cr,
                        bx as int,
                        bz as int,
                        i % (size as int),
                        i / (size as int),
                    ),
                forall|i: int| 0 <= i < dz * size + dx ==> mn <= heights@[i],
                forall|i: int| 0 <= i < dz * size + dx ==> heights@[i] <= mx,
                heights@.len() == 0 ==> mn == hr.spec_pixel(bx as int, bz as int) && mx == mn,
                heights@.len() > 0 ==> heights@.contains(mn) && heights@.contains(mx),
            decreases size - dx,
        {
            proof {
                assert(dz * size + dx < size * size) by (nonlinear_arith)
                    requires
                        dz < size,
                        dx < size,
                ;
            }
            let rem_w: u32 = hr.width - bx;
            let rem_h: u32 = hr.height - bz;
            let in_w = (dx as u64) < (rem_w as u64);
            let in_h = (dz as u64) < (rem_h as u64);
            let (h, col) = if in_w && in_h {
                let px = bx + (dx as u32);
                let pz = bz + (dz as u32);
                (hr.pixel(px, pz), cr.pixel(px, pz))
            } else {
                (0u16, WHITE_RGBA)
            };
            let ghost oldmn = mn;
            let ghost oldmx = mx;
            let ghost oldh = heights@;
            if h < mn {
                mn = h;
            }
            if h > mx {
                mx = h;
            }
            heights.push(h);
            colors.push(col);
            proof {
                let i = dz * size + dx;
                lemma_fundamental_div_mod_converse(i as int, size as int, dz as int, dx as int);
                assert(heights@[i as int] == sample_height(
                    hr,
                    bx as int,
                    bz as int,
                    dx as int,
                    dz as int,
                ));
                assert(heights@[i as int] == h);
                assert(heights@.contains(mn)) by {
                    if mn == h {
                        assert(heights@[i as int] == mn);
                    } else {
                        assert(oldh.contains(mn) || oldh.len() == 0);
                        if oldh.len() == 0 {
                            assert(mn == oldmn);
                            assert(heights@[0] == sample_height(hr, bx as int, bz as int, 0, 0));
                            assert(heights@[0] == hr.spec_pixel(bx as int, bz as int));
                            assert(heights@[0] == mn);
                        } else {
                            let j = choose|j: int| 0 <= j < oldh.len() && oldh[j] == mn;
                            assert(heights@[j] == mn);
                        }
                    }
                }
                assert(heights@.contains(mx)) by {
                    if mx == h {
                        assert(heights@[i as int] == mx);
                    } else {
                        if oldh.len() == 0 {
                            assert(mx == oldmx);
                            assert(heights@[0] == hr.spec_pixel(bx as int, bz as int));
                            assert(heights@[0] == mx);
                        } else {
                            let j = choose|j: int| 0 <= j < oldh.len() && oldh[j] == mx;
                            assert(heights@[j] == mx);
                        }
                    }
                }
            }
            dx = dx + 1;
        }
        proof {
            assert((dz + 1) * size == dz * size + size) by (nonlinear_arith);
        }
        dz = dz + 1;
    }
    proof {
        assert(size * size >= 1) by (nonlinear_arith)
            requires
                size >= 1,
        ;
    }
    let ghost hs = heights@;
    let mut centered: Vec<i32> = Vec::new();
    let mut i: usize = 0;
    let total = heights.len();
    while i < total
        invariant
            total == hs.len(),
            heights@ == hs,
            i <= total,
            centered@.len() == i,
            forall|j: int| 0 <= j < i ==> centered@[j] == 2 * hs[j] - mn - mx,
        decreases total - i,
    {
        let h = heights[i];
        let c: i32 = 2 * (h as i32) - (mn as i32) - (mx as i32);
        centered.push(c);
        i = i + 1;
    }
    BlockSamples { size, heights, colors, min_raw: mn, max_raw: mx, centered }
}

/// Law: a block whose samples all carry one raw height `h` centers to
/// zero everywhere, and its recorded height range is exactly `h` at both
/// ends. After vertical scaling this is the constant-height block whose
/// post-correction samples are all zero and whose bounds sit at the scaled
/// height.
pub proof fn lemma_constant_block_centers_to_zero(b: BlockSamples, h: u16)
    requires
        b.heights@.len() == b.size * b.size,
        b.size >= 1,
        forall|i: int| 0 <= i < b.size * b.size ==> b.heights@[i] == h,
        forall|i: int| 0 <= i < b.size * b.size ==> b.min_raw <= b.heights@[i],
        forall|i: int| 0 <= i < b.size * b.size ==> b.heights@[i] <= b.max_raw,
        b.heights@.contains(b.min_raw),
        b.heights@.contains(b.max_raw),
        forall|i: int|
            0 <= i < b.size * b.size ==> b.centered@[i] == 2 * b.heights@[i] - b.min_raw
                - b.max_raw,
    ensures
        b.min_raw == h,
        b.max_raw == h,
        forall|i: int| 0 <= i < b.size * b.size ==> b.centered@[i] == 0,
{
    assert(b.size * b.size >= 1) by (nonlinear_arith)
        requires
            b.size >= 1,
    ;
    let j = choose|j: int| 0 <= j < b.heights@.len() && b.heights@[j] == b.min_raw;
    assert(b.heights@[j] == h);
    let j2 = choose|j2: int| 0 <= j2 < b.heights@.len() && b.heights@[j2] == b.max_raw;
    assert(b.heights@[j2] == h);
}

/// Number of `cs`-stepped blocks that start inside an axis of `dim`
/// pixels.
pub open spec fn n_blocks(dim: int, cs: int) -> int
    recommends
        cs >= 1,
{
    if dim <= 0 {
        0
    } else {
        (dim - 1) / cs + 1
    }
}

/// Enumerates the pixel origin of every block of a `width * height`
/// raster, stepping by `chunk_size`, horizontal blocks outermost and
/// vertical blocks within: the deterministic order the offline baking pass
/// walks and names its output by.
pub fn block_origins(width: u32, height: u32, chunk_size: usize) -> (out: Vec<(u32, u32)>)
    requires
        1 <= chunk_size,
        chunk_size <= u32::MAX,
    ensures
        out@.len() == n_blocks(width as int, chunk_size as int) * n_blocks(
            height as int,
            chunk_size as int,
        ),
        forall|k: int|
            #![trigger out@[k]]
            0 <= k < out@.len() ==> {
                let nz = n_blocks(height as int, chunk_size as int);
                &&& out@[k].0 == (k / nz) * chunk_size
                &&& out@[k].1 == (k % nz) * chunk_size
                &&& out@[k].0 < width
                &&& out@[k].1 < height
            },
{
    let cs: u64 = chunk_size as u64;
    let w: u64 = width as u64;
    let hh: u64 = height as u64;
    let ghost nx = n_blocks(width as int, chunk_size as int);
    let ghost nz = n_blocks(height as int, chunk_size as int);
    let mut out: Vec<(u32, u32)> = Vec::new();
    let mut x: u64 = 0;
    let ghost mut xi: int = 0;
    while x < w
        invariant
            cs == chunk_size,
            1 <= cs <= u32::MAX,
            w == width,
            hh == height,
            nx == n_blocks(width as int, chunk_size as int),
            nz == n_blocks(height as int, chunk_size as int),
            x == xi * cs,
            0 <= xi,
            x < w + cs,
            out@.len() == xi * nz,
            forall|k: int|
                #![trigger out@[k]]
                0 <= k < out@.len() ==> {
                    &&& out@[k].0 == (k / nz) * chunk_size
                    &&& out@[k].1 == (k % nz) * chunk_size
                    &&& out@[k].0 < width
                    &&& out@[k].1 < height
                },
        decreases w + cs - x,
    {
        proof {
            assert(xi * cs < w);
            assert(xi < nx) by {
                lemma_fundamental_div_mod_converse(xi * (cs as int), cs as int, xi, 0);
                lemma_div_is_ordered(xi * (cs as int), w - 1, cs as int);
            }
        }
        let mut z: u64 = 0;
        let ghost mut zi: int = 0;
        while z < hh
            invariant
                cs == chunk_size,
                1 <= cs <= u32::MAX,
                w == width,
                hh == height,
                nx == n_blocks(width as int, chunk_size as int),
                nz == n_blocks(height as int, chunk_size as int),
                x == xi * cs,
                0 <= xi,
                x < w,
                z == zi * cs,
                0 <= zi,
                z < hh + cs,
                out@.len() == xi * nz + zi,
                forall|k: int|
                    0 <= k < out@.len() ==> {
                        &&& out@[k].0 == (k / nz) * chunk_size
                        &&& out@[k].1 == (k % nz) * chunk_size
                        &&& out@[k].0 < width
                        &&& out@[k].1 < height
                    },
            decreases hh + cs - z,
        {
            proof {
                assert(zi * cs < hh);
                assert(zi < nz) by {
                    lemma_fundamental_div_mod_converse(zi * (cs as int), cs as int, zi, 0);
                    lemma_div_is_ordered(zi * (cs as int), hh - 1, cs as int);
                }
            }
            let ghost prev = out@;
            out.push((x as u32, z as u32));
            proof {
                let k = xi * nz + zi;
                lemma_fundamental_div_mod_converse(k, nz, xi, zi);
                assert(out@[k] == (x as u32, z as u32));
                assert(out@.len() == xi * nz + (zi + 1));
            }
            z = z + cs;
            proof {
                zi = zi + 1;
                assert((zi) * cs == (zi - 1) * cs + cs) by (nonlinear_arith);
            }
        }
        proof {
            // The vertical scan filled exactly one column of blocks.
            assert(zi == nz) by {
                if hh > 0 {
                    assert(zi * cs >= hh);
                    assert(zi * cs == (zi - 1) * cs + cs) by (nonlinear_arith);
                    assert(zi >= 1) by (nonlinear_arith)
                        requires
                            zi * cs >= hh,
                            hh > 0,
                            cs >= 1,
                            0 <= zi,
                    ;
                    lemma_fundamental_div_mod_converse(
                        (hh - 1) as int,
                        cs as int,
                        zi - 1,
                        hh - 1 - (zi - 1) * cs,
                    );
                } else {
                    assert(zi == 0) by (nonlinear_arith)
                        requires
                            zi * cs < cs,
                            cs >= 1,
                            0 <= zi,
                    ;
                }
            }
            assert((xi + 1) * nz == xi * nz + nz) by (nonlinear_arith);
        }
        x = x + cs;
        proof {
            xi = xi + 1;
            assert((xi) * cs == (xi - 1) * cs + cs) by (nonlinear_arith);
        }
    }
    proof {
        if w > 0 {
            assert(xi == nx) by {
                assert(xi * cs >= w);
                assert(xi * cs == (xi - 1) * cs + cs) by (nonlinear_arith);
                assert(xi >= 1) by (nonlinear_arith)
                    requires
                        xi * cs >= w,
                        w > 0,
                        cs >= 1,
                        0 <= xi,
                ;
                lemma_fundamental_div_mod_converse(
                    (w - 1) as int,
                    cs as int,
                    xi - 1,
                    w - 1 - (xi - 1) * cs,
                );
            }
        } else {
            assert(xi == 0) by (nonlinear_arith)
                requires
                    xi * cs < cs,
                    cs >= 1,
                    0 <= xi,
            ;
            assert(out@.len() == 0 * nz);
        }
    }
    out
}

} // verus!
