use terrain_chunks::codec::{DecodeError, TerrainLoader};
use terrain_chunks::patch::{TerrainChunk, Vec3Bits};

fn sample_chunk(size: usize) -> TerrainChunk {
    let n = size * size;
    let points: Vec<u32> = (0..n).map(|i| (1.25f32 + i as f32).to_bits()).collect();
    let color: Vec<u32> = (0..n).map(|i| 0xFF00_0000u32 | (i as u32 * 7)).collect();
    TerrainChunk::new(
        size,
        points,
        color,
        Vec3Bits { x: (-32.0f32).to_bits(), y: (-4.5f32).to_bits(), z: (-32.0f32).to_bits() },
        Vec3Bits { x: 32.0f32.to_bits(), y: 9.75f32.to_bits(), z: 32.0f32.to_bits() },
    )
}

fn round_trip(size: usize) {
    let loader = TerrainLoader {};
    let chunk = sample_chunk(size);
    let bytes = loader.write_chunk(&chunk);
    assert_eq!(bytes.len(), 32 + 8 * size * size);
    let back = loader.load_chunk(&bytes).expect("decode of an encoding must succeed");
    assert_eq!(back.size, chunk.size);
    assert_eq!(back.points, chunk.points);
    assert_eq!(back.color, chunk.color);
    assert_eq!(back.min, chunk.min);
    assert_eq!(back.max, chunk.max);
    assert!(back.mesh.is_none());
}

#[test]
fn round_trip_empty_patch() {
    let loader = TerrainLoader {};
    let chunk = TerrainChunk::new(
        0,
        vec![],
        vec![],
        Vec3Bits { x: 1, y: 2, z: 3 },
        Vec3Bits { x: 4, y: 5, z: 6 },
    );
    let bytes = loader.write_chunk(&chunk);
    assert_eq!(bytes.len(), 32);
    let back = loader.load_chunk(&bytes).unwrap();
    assert_eq!(back.size, 0);
    assert!(back.points.is_empty());
}

#[test]
fn round_trip_size_one() {
    round_trip(1);
}

#[test]
fn round_trip_size_two() {
    round_trip(2);
}

#[test]
fn round_trip_size_seventeen() {
    round_trip(17);
}

#[test]
fn round_trip_preserves_float_bits_exactly() {
    let loader = TerrainLoader {};
    // Bit patterns that arithmetic would disturb: negative zero, NaN,
    // infinity, a subnormal.
    let specials = vec![
        (-0.0f32).to_bits(),
        f32::NAN.to_bits(),
        f32::INFINITY.to_bits(),
        1u32, // smallest subnormal
    ];
    let chunk = TerrainChunk::new(
        2,
        specials.clone(),
        vec![0, 1, 2, 3],
        Vec3Bits { x: 0, y: 0, z: 0 },
        Vec3Bits { x: 0, y: 0, z: 0 },
    );
    let bytes = loader.write_chunk(&chunk);
    let back = loader.load_chunk(&bytes).unwrap();
    assert_eq!(back.points, specials);
}

#[test]
fn encode_layout_is_little_endian_in_field_order() {
    let loader = TerrainLoader {};
    let chunk = TerrainChunk::new(
        1,
        vec![0x0403_0201],
        vec![0xAABB_CCDD],
        Vec3Bits { x: 0x1111_1111, y: 0x2222_2222, z: 0x3333_3333 },
        Vec3Bits { x: 0x4444_4444, y: 0x5555_5555, z: 0x6666_6666 },
    );
    let bytes = loader.write_chunk(&chunk);
    assert_eq!(bytes.len(), 40);
    assert_eq!(&bytes[0..4], &[0x11, 0x11, 0x11, 0x11]); // min.x
    assert_eq!(&bytes[12..16], &[0x44, 0x44, 0x44, 0x44]); // max.x
    assert_eq!(&bytes[24..32], &[1, 0, 0, 0, 0, 0, 0, 0]); // size as u64 LE
    assert_eq!(&bytes[32..36], &[0x01, 0x02, 0x03, 0x04]); // sample word LE
    assert_eq!(&bytes[36..40], &[0xDD, 0xCC, 0xBB, 0xAA]); // color word LE
}

#[test]
fn truncated_stream_fails_with_truncated_input() {
    let loader = TerrainLoader {};
    let chunk = sample_chunk(2);
    let bytes = loader.write_chunk(&chunk);
    for cut in [0, 1, 16, 31, 32, 40, bytes.len() - 1] {
        let r = loader.load_chunk(&bytes[..cut]);
        assert_eq!(r.err(), Some(DecodeError::TruncatedInput), "cut at {cut}");
    }
}

#[test]
fn huge_declared_size_fails_with_truncated_input() {
    let loader = TerrainLoader {};
    let mut bytes = vec![0u8; 32];
    bytes[24..32].copy_from_slice(&u64::MAX.to_le_bytes());
    assert_eq!(loader.load_chunk(&bytes).err(), Some(DecodeError::TruncatedInput));
}

#[test]
fn trailing_bytes_fail_with_malformed_header() {
    let loader = TerrainLoader {};
    let chunk = sample_chunk(2);
    let mut bytes = loader.write_chunk(&chunk);
    bytes.push(0);
    assert_eq!(loader.load_chunk(&bytes).err(), Some(DecodeError::MalformedHeader));
}

#[test]
fn empty_stream_fails_with_truncated_input() {
    let loader = TerrainLoader {};
    assert_eq!(loader.load_chunk(&[]).err(), Some(DecodeError::TruncatedInput));
}
