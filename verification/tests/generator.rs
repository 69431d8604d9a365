use terrain_chunks::generator::{
    block_origins, block_samples, ColorRaster, HeightRaster, WHITE_RGBA,
};

fn constant_rasters(w: u32, h: u32, height_value: u16, color_value: u32) -> (
    HeightRaster,
    ColorRaster,
) {
    let n = (w * h) as usize;
    (
        HeightRaster { width: w, height: h, pixels: vec![height_value; n] },
        ColorRaster { width: w, height: h, pixels: vec![color_value; n] },
    )
}

#[test]
fn constant_block_centers_to_zero() {
    // A block fully inside the raster with constant height H: min and max
    // both record H and every centered sample is zero, so the scaled
    // post-correction heights are all zero while the recorded bounds sit
    // at H times the vertical scale.
    let (hr, cr) = constant_rasters(8, 8, 7, 0x0102_0304);
    let b = block_samples(&hr, &cr, 0, 0, 2);
    assert_eq!(b.size, 3);
    assert_eq!(b.min_raw, 7);
    assert_eq!(b.max_raw, 7);
    assert!(b.centered.iter().all(|&c| c == 0));
    assert!(b.heights.iter().all(|&h| h == 7));
    assert!(b.colors.iter().all(|&c| c == 0x0102_0304));
}

#[test]
fn edge_block_substitutes_zero_height_and_white() {
    // Block origin (2, 2) of a 4x4 raster with chunk size 2 needs samples
    // at pixel offsets 2, 3 and 4 per axis; offset 4 is outside.
    let (hr, cr) = constant_rasters(4, 4, 9, 0x0A0B_0C0D);
    let b = block_samples(&hr, &cr, 2, 2, 2);
    assert_eq!(b.size, 3);
    for dz in 0..3u32 {
        for dx in 0..3u32 {
            let i = (dz * 3 + dx) as usize;
            if dx < 2 && dz < 2 {
                assert_eq!(b.heights[i], 9);
                assert_eq!(b.colors[i], 0x0A0B_0C0D);
            } else {
                assert_eq!(b.heights[i], 0, "out of bounds at ({dx},{dz})");
                assert_eq!(b.colors[i], WHITE_RGBA);
            }
        }
    }
    assert_eq!(b.min_raw, 0);
    assert_eq!(b.max_raw, 9);
}

#[test]
fn centering_doubles_and_shifts() {
    // Heights 10, 20, 30, 40 in one 2x2 in-bounds region read as a block
    // of size 2 (chunk size 1): min 10, max 40, centered = 2h - 50.
    let hr = HeightRaster { width: 2, height: 2, pixels: vec![10, 20, 30, 40] };
    let cr = ColorRaster { width: 2, height: 2, pixels: vec![0; 4] };
    let b = block_samples(&hr, &cr, 0, 0, 1);
    assert_eq!(b.min_raw, 10);
    assert_eq!(b.max_raw, 40);
    assert_eq!(b.heights, vec![10, 20, 30, 40]);
    assert_eq!(b.centered, vec![-30, -10, 10, 30]);
}

#[test]
fn block_samples_walk_rows_with_x_innermost() {
    let hr = HeightRaster { width: 3, height: 3, pixels: (0..9).map(|i| i as u16).collect() };
    let cr = ColorRaster { width: 3, height: 3, pixels: (0..9).collect() };
    let b = block_samples(&hr, &cr, 0, 0, 2);
    // Row-major: sample (dx, dz) sits at index dz*3 + dx, matching the
    // raster's own layout for an in-bounds block.
    assert_eq!(b.heights, (0..9).map(|i| i as u16).collect::<Vec<_>>());
}

#[test]
fn block_origins_cover_the_raster_in_bake_order() {
    let origins = block_origins(5, 3, 2);
    assert_eq!(origins, vec![(0, 0), (0, 2), (2, 0), (2, 2), (4, 0), (4, 2)]);
}

#[test]
fn block_origins_of_exact_multiple() {
    let origins = block_origins(4, 4, 2);
    assert_eq!(origins, vec![(0, 0), (0, 2), (2, 0), (2, 2)]);
}

#[test]
fn block_origins_of_empty_raster() {
    assert!(block_origins(0, 7, 2).is_empty());
    assert!(block_origins(7, 0, 2).is_empty());
}
