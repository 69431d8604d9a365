use terrain_chunks::mesh::mesh_indices;
use terrain_chunks::patch::{TerrainChunk, Vec3Bits};

#[test]
fn index_buffer_length_is_six_per_quad() {
    for size in [1usize, 2, 3, 5, 17, 65] {
        let idx = mesh_indices(size);
        assert_eq!(idx.len(), 6 * (size - 1) * (size - 1), "size {size}");
    }
}

#[test]
fn size_two_grid_is_two_triangles() {
    // One quad: triangle A = (idx(0,0), idx(0,1), idx(1,0)) and
    // triangle B = (idx(0,1), idx(1,1), idx(1,0)) with idx(x,z) = x + 2*z.
    assert_eq!(mesh_indices(2), vec![0, 2, 1, 2, 3, 1]);
}

#[test]
fn size_three_grid_walks_x_outermost() {
    let idx = mesh_indices(3);
    assert_eq!(idx.len(), 24);
    // First quad (x=0, z=0): A = (0, 3, 1), B = (3, 4, 1).
    assert_eq!(&idx[0..6], &[0, 3, 1, 3, 4, 1]);
    // Second quad emitted is (x=0, z=1): A = (3, 6, 4), B = (6, 7, 4).
    assert_eq!(&idx[6..12], &[3, 6, 4, 6, 7, 4]);
    // Third is (x=1, z=0): A = (1, 4, 2), B = (4, 5, 2).
    assert_eq!(&idx[12..18], &[1, 4, 2, 4, 5, 2]);
}

#[test]
fn indices_stay_inside_the_vertex_range() {
    let size = 9usize;
    let idx = mesh_indices(size);
    assert!(idx.iter().all(|&i| (i as usize) < size * size));
}

#[test]
fn grid_index_formula() {
    let chunk = TerrainChunk::new(
        3,
        vec![0; 9],
        vec![0; 9],
        Vec3Bits { x: 0, y: 0, z: 0 },
        Vec3Bits { x: 0, y: 0, z: 0 },
    );
    assert_eq!(chunk.idx(0, 0), 0);
    assert_eq!(chunk.idx(2, 0), 2);
    assert_eq!(chunk.idx(0, 2), 6);
    assert_eq!(chunk.idx(1, 2), 7);
}

#[test]
fn mesh_reference_is_attached_after_construction() {
    let mut chunk = TerrainChunk::new(
        1,
        vec![0],
        vec![0],
        Vec3Bits { x: 0, y: 0, z: 0 },
        Vec3Bits { x: 0, y: 0, z: 0 },
    );
    assert!(chunk.mesh.is_none());
    chunk.attach_mesh(42);
    assert_eq!(chunk.mesh(), 42);
}
