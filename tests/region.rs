use nbt::{read_region, write_region, Chunk, CompoundMap, CompressionFormat, Endian, NbtError, NbtFile, NbtTag, Region};

fn create_test_nbt() -> NbtFile {
    let mut level_data = CompoundMap::new();
    level_data.insert("xPos".to_string(), NbtTag::Int(2));
    level_data.insert("zPos".to_string(), NbtTag::Int(5));
    level_data.insert("LastUpdate".to_string(), NbtTag::Long(12345));
    let root = NbtTag::Compound(level_data);
    NbtFile::new_with_settings(root, "Level".to_string(), CompressionFormat::Zlib, Endian::Big)
}

#[test]
fn test_chunk_creation() {
    let nbt = create_test_nbt();
    let chunk = Chunk::from_nbt(2, 5, nbt, 1000).unwrap();
    assert_eq!(chunk.x, 2);
    assert_eq!(chunk.z, 5);
    assert_eq!(chunk.timestamp, 1000);
    assert_eq!(chunk.get_compression(), CompressionFormat::Zlib);
}

#[test]
fn test_chunk_invalid_coordinates() {
    let nbt = create_test_nbt();
    let result = Chunk::from_nbt(32, 5, nbt, 1000);
    assert!(result.is_err());
}

#[test]
fn test_chunk_nbt_access() {
    let nbt = create_test_nbt();
    let mut chunk = Chunk::from_nbt(2, 5, nbt, 1000).unwrap();
    let root = chunk.get_root().unwrap();
    if let NbtTag::Compound(map) = root {
        assert_eq!(map.get("xPos").unwrap().as_i64().unwrap() as i32, 2);
        assert_eq!(map.get("zPos").unwrap().as_i64().unwrap() as i32, 5);
    } else {
        panic!("Expected compound root");
    }
}

#[test]
fn test_empty_region() {
    let region = Region::new();
    assert!(region.is_empty());
    assert_eq!(region.chunk_count(), 0);
    assert_eq!(region.get_chunk_positions().len(), 0);
}

#[test]
fn test_region_chunk_management() {
    let mut region = Region::new();
    let nbt = create_test_nbt();
    let chunk = Chunk::from_nbt(2, 5, nbt, 1000).unwrap();

    region.set_chunk(chunk).unwrap();
    assert_eq!(region.chunk_count(), 1);
    assert_eq!(region.get_chunk_positions(), vec![(2, 5)]);

    let retrieved = region.get_chunk(2, 5).unwrap();
    assert!(retrieved.is_some());
    assert_eq!(retrieved.unwrap().x, 2);
    assert_eq!(retrieved.unwrap().z, 5);

    let removed = region.remove_chunk(2, 5).unwrap();
    assert!(removed.is_some());
    assert!(region.is_empty());
}

#[test]
fn test_region_write_read_roundtrip() {
    let mut region = Region::new();
    let nbt1 = create_test_nbt();
    let nbt2 = create_test_nbt();

    let chunk1 = Chunk::from_nbt(0, 0, nbt1, 1000).unwrap();
    let chunk2 = Chunk::from_nbt(1, 0, nbt2, 2000).unwrap();
    let framed_a = chunk1.size() + 5;
    let framed_b = chunk2.size() + 5;

    region.set_chunk(chunk1).unwrap();
    region.set_chunk(chunk2).unwrap();

    let data = region.write().unwrap();
    assert!(!data.is_empty());
    assert_eq!(data.len(), 4096 * (2 + framed_a.div_ceil(4096) + framed_b.div_ceil(4096)));

    let region2 = Region::read(&data).unwrap();
    assert_eq!(region2.chunk_count(), 2);
    assert_eq!(region2.get_chunk_positions().len(), 2);

    let chunk1_back = region2.get_chunk(0, 0).unwrap().unwrap();
    let chunk2_back = region2.get_chunk(1, 0).unwrap().unwrap();

    assert_eq!(chunk1_back.x, 0);
    assert_eq!(chunk1_back.z, 0);
    assert_eq!(chunk1_back.timestamp, 1000);

    assert_eq!(chunk2_back.x, 1);
    assert_eq!(chunk2_back.z, 0);
    assert_eq!(chunk2_back.timestamp, 2000);
}

#[test]
fn test_convenience_functions() {
    let mut region = Region::new();
    let nbt = create_test_nbt();
    let chunk = Chunk::from_nbt(5, 10, nbt, 3000).unwrap();
    region.set_chunk(chunk).unwrap();

    let data = write_region(&region).unwrap();
    let region2 = read_region(&data).unwrap();
    assert_eq!(region2.chunk_count(), 1);

    let chunk_back = region2.get_chunk(5, 10).unwrap().unwrap();
    assert_eq!(chunk_back.x, 5);
    assert_eq!(chunk_back.z, 10);
    assert_eq!(chunk_back.timestamp, 3000);
}

#[test]
fn region_round_trip_keeps_payloads_and_layout() {
    let mut region = Region::new();
    region.set_chunk(Chunk::new(31, 31, 2, 77, vec![1, 2, 3]).unwrap()).unwrap();
    region.set_chunk(Chunk::new(3, 0, 1, 5, vec![9; 5000]).unwrap()).unwrap();
    let data = region.write().unwrap();
    // header, then 1 sector for the 5000-byte payload (index 3) and 1 for index 1023
    assert_eq!(data.len(), 4096 * (2 + 2 + 1));
    assert_eq!(&data[12..16], &[0, 0, 2, 2]);
    assert_eq!(&data[4092..4096], &[0, 0, 4, 1]);
    assert_eq!(&data[4096 + 12..4096 + 16], &[0, 0, 0, 5]);
    let back = Region::read(&data).unwrap();
    let c = back.get_chunk(31, 31).unwrap().unwrap();
    assert_eq!(c.get_raw_data(), &[1, 2, 3]);
    assert_eq!(c.compression, 2);
    assert_eq!(c.timestamp, 77);
    let c = back.get_chunk(3, 0).unwrap().unwrap();
    assert_eq!(c.get_raw_data(), &vec![9u8; 5000][..]);
    assert_eq!(back.chunk_count(), 2);
}

#[test]
fn region_refuses_short_buffers_and_skips_bad_slots() {
    assert!(matches!(Region::read(&[0u8; 100]), Err(NbtError::InvalidRegionData(_))));
    let mut data = vec![0u8; 8192];
    // slot 0 points past the end of the buffer
    data[0..4].copy_from_slice(&[0, 0, 9, 1]);
    let r = Region::read(&data).unwrap();
    assert!(r.is_empty());
}

#[test]
fn region_refuses_oversized_payload() {
    let mut region = Region::new();
    region.set_chunk(Chunk::new(0, 0, 3, 0, vec![0; 255 * 4096]).unwrap()).unwrap();
    assert!(matches!(region.write(), Err(NbtError::InvalidRegionData(_))));
}

#[test]
fn coordinates_out_of_range_are_refused_everywhere() {
    let mut region = Region::new();
    for (x, z) in [(-1, 0), (32, 0), (0, -1), (0, 32), (i32::MIN, i32::MAX)] {
        assert_eq!(region.get_chunk(x, z).unwrap_err(), NbtError::InvalidCoordinates { x, z });
        assert_eq!(region.remove_chunk(x, z).unwrap_err(), NbtError::InvalidCoordinates { x, z });
        assert_eq!(Chunk::new(x, z, 3, 0, vec![]).unwrap_err(), NbtError::InvalidCoordinates { x, z });
        let mut c = Chunk::new(0, 0, 3, 0, vec![]).unwrap();
        c.x = x;
        c.z = z;
        assert_eq!(region.set_chunk(c).unwrap_err(), NbtError::InvalidCoordinates { x, z });
    }
    assert_eq!(Chunk::coords_to_index(31, 1), Some(63));
    assert_eq!(Chunk::coords_to_index(32, 1), None);
}

#[test]
fn chunk_set_nbt_reencodes_payload() {
    let mut chunk = Chunk::new(1, 1, 3, 9, vec![]).unwrap();
    let mut root = CompoundMap::new();
    root.insert("v".to_string(), NbtTag::Byte(1));
    let file = NbtFile::new(NbtTag::Compound(root), "".to_string(), CompressionFormat::Raw);
    chunk.set_nbt(file).unwrap();
    assert_eq!(chunk.compression, 3);
    assert_eq!(chunk.get_raw_data(), &[10, 0, 0, 1, 0, 1, b'v', 1, 0]);
    let root = chunk.get_root_immutable().unwrap();
    assert_eq!(root.get_i64("v"), Some(1));
    assert_eq!(Chunk::compression_to_id(CompressionFormat::Gzip), 1);
}

#[test]
fn region_from_chunks_places_each_chunk() {
    let a = Chunk::new(0, 1, 3, 1, vec![1]).unwrap();
    let b = Chunk::new(2, 0, 3, 2, vec![2]).unwrap();
    let region = Region::from_chunks(vec![a, b]).unwrap();
    assert_eq!(region.get_chunk_positions(), vec![(2, 0), (0, 1)]);
    assert_eq!(region.chunks().len(), 2);
}

#[test]
fn chunk_edited_in_place_is_written_back() {
    let mut region = Region::new();
    region.set_chunk(Chunk::new(4, 4, 3, 1, vec![1]).unwrap()).unwrap();
    region.get_chunk_mut(4, 4).unwrap().unwrap().timestamp = 99;
    assert!(region.get_chunk_mut(4, 5).unwrap().is_none());
    assert_eq!(region.get_chunk_mut(40, 4).unwrap_err(), NbtError::InvalidCoordinates { x: 40, z: 4 });
    let back = Region::read(&region.write().unwrap()).unwrap();
    assert_eq!(back.get_chunk(4, 4).unwrap().unwrap().timestamp, 99);
}

#[test]
fn chunk_getters_and_zlib_document_round_trip() {
    let nbt = create_test_nbt();
    let mut chunk = Chunk::from_nbt(7, 9, nbt, 42).unwrap();
    assert_eq!(chunk.position(), (7, 9));
    assert_eq!(chunk.compression_id(), 2);
    assert_eq!(chunk.get_timestamp(), 42);
    assert_eq!(nbt::detect_compression(chunk.get_raw_data()), CompressionFormat::Zlib);
    let file = NbtFile::read(chunk.get_raw_data(), None).unwrap();
    assert_eq!(file.root_name, "Level");
    assert_eq!(file.compression, CompressionFormat::Zlib);
    assert_eq!(&file.root, chunk.get_root().unwrap());
    assert_eq!(chunk.get_nbt().unwrap().root_name, "Level");
}
