use nbt::{compress_data, decompress_optimized, detect_compression, CompoundMap, CompressionFormat, Endian, NbtError, NbtFile, NbtTag};

fn data_root() -> NbtTag {
    let mut root = CompoundMap::new();
    root.insert("test".to_string(), NbtTag::String("value".to_string()));
    root.insert("number".to_string(), NbtTag::Int(42));
    NbtTag::Compound(root)
}

#[test]
fn test_multiple_compression_formats() {
    for format in [CompressionFormat::Gzip, CompressionFormat::Zlib, CompressionFormat::Raw] {
        let file = NbtFile::new_with_settings(data_root(), "Data".to_string(), format, Endian::Big);
        let compressed = file.write().unwrap();
        let loaded = NbtFile::read(&compressed, None).unwrap();
        assert_eq!(file.root_name, loaded.root_name);
        assert_eq!(format, loaded.compression);
        assert_eq!(loaded.root, data_root());
    }
}

#[test]
fn test_format_auto_detection() {
    let gzip_file = NbtFile::new_with_settings(data_root(), "Data".to_string(), CompressionFormat::Gzip, Endian::Big);
    let zlib_file = NbtFile::new_with_settings(data_root(), "Data".to_string(), CompressionFormat::Zlib, Endian::Big);
    let raw_file = NbtFile::new_with_settings(data_root(), "Data".to_string(), CompressionFormat::Raw, Endian::Big);

    let detected_gzip = NbtFile::read(&gzip_file.write().unwrap(), None).unwrap();
    let detected_zlib = NbtFile::read(&zlib_file.write().unwrap(), None).unwrap();
    let detected_raw = NbtFile::read(&raw_file.write().unwrap(), None).unwrap();

    assert_eq!(detected_gzip.compression, CompressionFormat::Gzip);
    assert_eq!(detected_zlib.compression, CompressionFormat::Zlib);
    assert_eq!(detected_raw.compression, CompressionFormat::Raw);
}

#[test]
fn detection_from_magic_bytes() {
    assert_eq!(detect_compression(&[0x1F, 0x8B]), CompressionFormat::Gzip);
    assert_eq!(detect_compression(&[0x78, 0x9C]), CompressionFormat::Zlib);
    assert_eq!(detect_compression(&[0x78, 0x20]), CompressionFormat::Raw);
    assert_eq!(detect_compression(&[0x0A, 0x00, 0x00]), CompressionFormat::Raw);
    assert_eq!(detect_compression(&[0x1F]), CompressionFormat::Raw);
    assert_eq!(CompressionFormat::Gzip.as_u8(), 1);
    assert_eq!(CompressionFormat::Zlib.as_u8(), 2);
    assert_eq!(CompressionFormat::Raw.as_u8(), 0);
}

#[test]
fn compression_changes_bytes_and_round_trips() {
    let input: Vec<u8> = (0..200u8).collect();
    for format in [CompressionFormat::Gzip, CompressionFormat::Zlib] {
        let packed = compress_data(&input, format).unwrap();
        assert_ne!(packed, input);
        assert_eq!(detect_compression(&packed), format);
        assert_eq!(decompress_optimized(&packed, format).unwrap(), input);
    }
    assert_eq!(compress_data(&input, CompressionFormat::Raw).unwrap(), input);
    assert!(matches!(decompress_optimized(&[1, 2, 3], CompressionFormat::Gzip), Err(NbtError::Compression(_))));
    assert!(matches!(NbtError::compression_error("x"), NbtError::Compression(m) if m == "x"));
    assert!(matches!(NbtError::region_error("y"), NbtError::InvalidRegionData(m) if m == "y"));
}

#[test]
fn document_fixed_bytes() {
    let bytes = [10u8, 0, 0, 8, 0, 3, 102, 111, 111, 0, 6, 72, 101, 108, 108, 111, 33, 0];
    let file = NbtFile::read(&bytes, None).unwrap();
    assert_eq!(file.root_name, "");
    assert_eq!(file.get_string("foo"), "Hello!");
    assert_eq!(file.compression, CompressionFormat::Raw);
    assert_eq!(file.to_bytes().unwrap(), bytes.to_vec());
    assert_eq!(file.write().unwrap(), bytes.to_vec());
}

#[test]
fn document_selective_and_errors() {
    let file = NbtFile::new(data_root(), "Data".to_string(), CompressionFormat::Raw);
    let bytes = file.write().unwrap();
    let fields: &[&str] = &["number"];
    let lazy = NbtFile::read(&bytes, Some(fields)).unwrap();
    assert_eq!(lazy.root.get_i64("number"), Some(42));
    assert!(lazy.get("test").is_none());
    let absent: &[&str] = &["nope"];
    let none = NbtFile::read_with_format(&bytes, CompressionFormat::Raw, Endian::Big, Some(absent)).unwrap();
    assert_eq!(none.root, NbtTag::Compound(CompoundMap::new()));
    assert_eq!(NbtFile::read(&[8, 0, 0], None).unwrap_err(), NbtError::InvalidHeader);
    assert_eq!(NbtFile::read(&[], None).unwrap_err(), NbtError::UnexpectedEof);
    let not_compound = NbtFile::new(NbtTag::Int(1), "x".to_string(), CompressionFormat::Raw);
    assert_eq!(not_compound.write().unwrap_err(), NbtError::InvalidHeader);
}
