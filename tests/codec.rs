use nbt::{CompoundMap, Endian, NbtError, NbtReader, NbtTag, NbtWriter};

fn compound(entries: Vec<(&str, NbtTag)>) -> NbtTag {
    let mut map = CompoundMap::new();
    for (k, v) in entries {
        map.insert(k.to_string(), v);
    }
    NbtTag::Compound(map)
}

#[test]
fn test_basic_types() {
    let byte_tag = NbtTag::Byte(42);
    assert_eq!(byte_tag.type_id(), 1);
    assert_eq!(byte_tag.as_i64(), Some(42));
    assert!(byte_tag.is_number());

    let string_tag = NbtTag::String("Hello".to_string());
    assert_eq!(string_tag.type_id(), 8);
    assert_eq!(string_tag.as_string(), "Hello");
    assert!(string_tag.is_string());

    let compound_tag = NbtTag::Compound(CompoundMap::new());
    assert_eq!(compound_tag.type_id(), 10);
    assert!(compound_tag.is_compound());
}

#[test]
fn test_compound_access() {
    let compound = compound(vec![
        ("name", NbtTag::String("Steve".to_string())),
        ("level", NbtTag::Int(42)),
    ]);
    assert_eq!(compound.get_string("name"), "Steve");
    assert_eq!(compound.get_i64("level"), Some(42));
    assert_eq!(compound.get_bool("level"), true);
    assert_eq!(compound.get_string("missing"), "");
}

#[test]
fn test_write_read_roundtrip() {
    let value = compound(vec![("foo", NbtTag::String("Hello!".to_string()))]);

    let mut writer = NbtWriter::new(Endian::Big);
    writer.write_u8(value.type_id());
    writer.write_string("").unwrap();
    writer.write_tag(&value).unwrap();
    let bytes = writer.into_bytes();

    let expected: &[u8] = &[10, 0, 0, 8, 0, 3, 102, 111, 111, 0, 6, 72, 101, 108, 108, 111, 33, 0];
    assert_eq!(bytes, expected);

    let mut reader = NbtReader::new(&bytes, Endian::Big);
    let tag_type = reader.read_u8().unwrap();
    let name = reader.read_string().unwrap();
    assert_eq!(name, "");
    let parsed = reader.read_tag(tag_type).unwrap();

    assert_eq!(parsed, value);
    assert_eq!(parsed.get_string("foo"), "Hello!");
}

#[test]
fn test_list() {
    let items = vec![NbtTag::Int(1), NbtTag::Int(2), NbtTag::Int(3)];
    let list = NbtTag::List { tag_type: 3, items };

    if let Some((tag_type, items)) = list.as_list() {
        assert_eq!(*tag_type, 3);
        assert_eq!(items.len(), 3);
        assert_eq!(items[0].as_i64(), Some(1));
    } else {
        panic!("Should be a list");
    }
}

#[test]
fn test_endianness() {
    let tag = NbtTag::Int(0x12345678);

    let mut writer_be = NbtWriter::new(Endian::Big);
    writer_be.write_tag(&tag).unwrap();
    let bytes_be = writer_be.into_bytes();

    let mut writer_le = NbtWriter::new(Endian::Little);
    writer_le.write_tag(&tag).unwrap();
    let bytes_le = writer_le.into_bytes();

    assert_ne!(bytes_be, bytes_le);
    assert_eq!(bytes_be, vec![0x12, 0x34, 0x56, 0x78]);
    assert_eq!(bytes_le, vec![0x78, 0x56, 0x34, 0x12]);

    let mut reader_be = NbtReader::new(&bytes_be, Endian::Big);
    let parsed_be = reader_be.read_tag(3).unwrap();
    assert_eq!(parsed_be, tag);

    let mut reader_le = NbtReader::new(&bytes_le, Endian::Little);
    let parsed_le = reader_le.read_tag(3).unwrap();
    assert_eq!(parsed_le, tag);
}

#[test]
fn test_all_numeric_types() {
    let byte_max = NbtTag::Byte(127);
    let byte_min = NbtTag::Byte(-128);
    let short_max = NbtTag::Short(32767);
    let int_max = NbtTag::Int(2147483647);
    let long_max = NbtTag::Long(9223372036854775807);
    let float_val = NbtTag::Float(3.14159f32.to_bits());
    let double_val = NbtTag::Double(2.718281828459045f64.to_bits());

    assert_eq!(byte_max.type_id(), 1);
    assert_eq!(short_max.type_id(), 2);
    assert_eq!(int_max.type_id(), 3);
    assert_eq!(long_max.type_id(), 4);
    assert_eq!(float_val.type_id(), 5);
    assert_eq!(double_val.type_id(), 6);

    assert_eq!(byte_max.as_i64(), Some(127));
    assert_eq!(byte_min.as_i64(), Some(-128));
    if let NbtTag::Float(bits) = float_val {
        assert_eq!(f32::from_bits(bits), 3.14159_f32);
    } else {
        panic!("Should be a float");
    }
}

#[test]
fn test_arrays() {
    let byte_array = NbtTag::ByteArray(vec![-1, 0, 1, 127, -128]);
    assert_eq!(byte_array.type_id(), 7);

    let int_array = NbtTag::IntArray(vec![1000000, -1000000, 0]);
    assert_eq!(int_array.type_id(), 11);

    let long_array = NbtTag::LongArray(vec![1000000000000, -1000000000000]);
    assert_eq!(long_array.type_id(), 12);

    let mut writer = NbtWriter::new(Endian::Big);
    writer.write_tag(&byte_array).unwrap();
    let bytes = writer.into_bytes();

    let mut reader = NbtReader::new(&bytes, Endian::Big);
    let parsed = reader.read_tag(7).unwrap();
    assert_eq!(parsed, byte_array);
}

#[test]
fn test_nested_compounds() {
    let inner = compound(vec![
        ("x", NbtTag::Int(100)),
        ("y", NbtTag::Int(64)),
        ("z", NbtTag::Int(-200)),
    ]);
    let root = compound(vec![
        ("position", inner),
        ("name", NbtTag::String("Player".to_string())),
        ("health", NbtTag::Float(20.0f32.to_bits())),
    ]);

    let pos = root.get("position").unwrap();
    assert!(root.get_compound("position").is_some());
    assert_eq!(pos.get_i64("x"), Some(100));
    assert_eq!(pos.get_i64("y"), Some(64));
    assert_eq!(pos.get_i64("z"), Some(-200));

    assert_eq!(root.get_string("name"), "Player");
    if let Some(NbtTag::Float(bits)) = root.get("health") {
        assert_eq!(f32::from_bits(*bits), 20.0);
    } else {
        panic!("Should be a float");
    }
}

#[test]
fn test_mixed_list() {
    let string_list = NbtTag::List {
        tag_type: 8,
        items: vec![
            NbtTag::String("first".to_string()),
            NbtTag::String("second".to_string()),
            NbtTag::String("third".to_string()),
        ],
    };

    let mut writer = NbtWriter::new(Endian::Big);
    writer.write_tag(&string_list).unwrap();
    let bytes = writer.into_bytes();

    let mut reader = NbtReader::new(&bytes, Endian::Big);
    let parsed = reader.read_tag(9).unwrap();
    assert_eq!(parsed, string_list);

    if let Some((tag_type, items)) = parsed.as_list() {
        assert_eq!(*tag_type, 8);
        assert_eq!(items.len(), 3);
        assert_eq!(items[0].as_string(), "first");
        assert_eq!(items[2].as_string(), "third");
    }
}

#[test]
fn test_complex_minecraft_structure() {
    let zombie = compound(vec![
        ("id", NbtTag::String("minecraft:zombie".to_string())),
        ("Health", NbtTag::Float(20.0f32.to_bits())),
        ("Age", NbtTag::Int(0)),
    ]);
    let player = compound(vec![
        ("id", NbtTag::String("minecraft:player".to_string())),
        ("Health", NbtTag::Float(20.0f32.to_bits())),
        ("foodLevel", NbtTag::Int(20)),
    ]);
    let nbt = compound(vec![
        ("DataVersion", NbtTag::Int(3210)),
        ("entities", NbtTag::List { tag_type: 10, items: vec![zombie, player] }),
    ]);

    assert_eq!(nbt.get_i64("DataVersion"), Some(3210));

    if let Some((_, entities)) = nbt.get("entities").unwrap().as_list() {
        assert_eq!(entities.len(), 2);
        let zombie_nbt = &entities[0];
        assert_eq!(zombie_nbt.get_string("id"), "minecraft:zombie");
        assert_eq!(zombie_nbt.get("Health"), Some(&NbtTag::Float(20.0f32.to_bits())));
    }

    let mut writer = NbtWriter::new(Endian::Big);
    writer.write_u8(nbt.type_id());
    writer.write_string("").unwrap();
    writer.write_tag(&nbt).unwrap();
    let bytes = writer.into_bytes();

    let mut reader = NbtReader::new(&bytes, Endian::Big);
    let _tag_type = reader.read_u8().unwrap();
    let _name = reader.read_string().unwrap();
    let parsed = reader.read_tag(10).unwrap();

    assert_eq!(parsed, nbt);
}

fn encode(tag: &NbtTag, e: Endian) -> Vec<u8> {
    let mut w = NbtWriter::new(e);
    w.write_tag(tag).unwrap();
    w.into_bytes()
}

fn every_kind() -> NbtTag {
    compound(vec![
        ("b", NbtTag::Byte(-5)),
        ("s", NbtTag::Short(-300)),
        ("i", NbtTag::Int(-70000)),
        ("l", NbtTag::Long(-5_000_000_000)),
        ("f", NbtTag::Float(1.5f32.to_bits())),
        ("d", NbtTag::Double((-2.25f64).to_bits())),
        ("ba", NbtTag::ByteArray(vec![1, -2, 3])),
        ("st", NbtTag::String("héllo ✓".to_string())),
        ("li", NbtTag::List { tag_type: 2, items: vec![NbtTag::Short(1), NbtTag::Short(-1)] }),
        ("ia", NbtTag::IntArray(vec![i32::MIN, 0, i32::MAX])),
        ("la", NbtTag::LongArray(vec![i64::MIN, i64::MAX])),
        ("nested", compound(vec![("deep", compound(vec![]))])),
        ("ends", NbtTag::List { tag_type: 0, items: vec![NbtTag::End, NbtTag::End] }),
    ])
}

#[test]
fn round_trip_every_variant_both_orders() {
    for e in [Endian::Big, Endian::Little] {
        let v = every_kind();
        let bytes = encode(&v, e);
        let mut r = NbtReader::new(&bytes, e);
        assert_eq!(r.read_tag(10).unwrap(), v);
        assert_eq!(r.cursor, bytes.len());
    }
}

#[test]
fn skip_ends_where_read_ends() {
    for e in [Endian::Big, Endian::Little] {
        let v = every_kind();
        let mut bytes = encode(&v, e);
        bytes.extend_from_slice(&[7, 7, 7]);
        let mut a = NbtReader::new(&bytes, e);
        a.read_tag(10).unwrap();
        let mut b = NbtReader::new(&bytes, e);
        b.skip_tag(10).unwrap();
        assert_eq!(a.cursor, b.cursor);
        assert_eq!(b.cursor, bytes.len() - 3);
    }
}

#[test]
fn skip_large_list_of_compounds_by_byte_accounting() {
    let mut items = Vec::new();
    for i in 0..10_000 {
        items.push(compound(vec![("n", NbtTag::Int(i)), ("s", NbtTag::String("x".to_string()))]));
    }
    let list = NbtTag::List { tag_type: 10, items };
    let bytes = encode(&list, Endian::Big);
    // 5 header bytes, then per item: Int entry 1+2+1+4, String entry 1+2+1+2+1, End 1
    assert_eq!(bytes.len(), 5 + 10_000 * (8 + 7 + 1));
    let mut r = NbtReader::new(&bytes, Endian::Big);
    r.skip_tag(9).unwrap();
    assert_eq!(r.cursor, bytes.len());
}

#[test]
fn selective_read_keeps_only_wanted_fields() {
    let doc = compound(vec![
        ("a", NbtTag::Int(1)),
        ("big", NbtTag::LongArray(vec![9; 100])),
        ("b", NbtTag::String("two".to_string())),
    ]);
    let bytes = encode(&doc, Endian::Big);
    let mut r = NbtReader::new(&bytes, Endian::Big);
    let sel = r.read_compound_selective(&["b", "a"]).unwrap();
    assert_eq!(r.cursor, bytes.len());
    assert_eq!(sel.get_i64("a"), Some(1));
    assert_eq!(sel.get_string("b"), "two");
    assert!(sel.get("big").is_none());
    let full = NbtReader::new(&bytes, Endian::Big).read_tag(10).unwrap();
    assert_eq!(sel.get("a"), full.get("a"));
    assert_eq!(sel.get("b"), full.get("b"));
}

#[test]
fn selective_read_of_absent_field_is_empty_compound() {
    let doc = compound(vec![("a", NbtTag::Int(1))]);
    let bytes = encode(&doc, Endian::Big);
    let mut r = NbtReader::new(&bytes, Endian::Big);
    let sel = r.read_compound_selective(&["missing"]).unwrap();
    assert_eq!(sel, NbtTag::Compound(CompoundMap::new()));
}

#[test]
fn duplicate_keys_keep_the_last_value() {
    // {"k": 1b, "k": 2b}
    let bytes = [1u8, 0, 1, b'k', 1, 1, 0, 1, b'k', 2, 0];
    let mut r = NbtReader::new(&bytes, Endian::Big);
    let v = r.read_tag(10).unwrap();
    assert_eq!(v, compound(vec![("k", NbtTag::Byte(2))]));
}

#[test]
fn find_path_probes_without_moving_cursor() {
    let doc = compound(vec![("a", NbtTag::Int(1)), ("b", NbtTag::Int(2))]);
    let mut w = NbtWriter::new(Endian::Big);
    w.write_u8(10);
    w.write_string("root").unwrap();
    w.write_tag(&doc).unwrap();
    let bytes = w.into_bytes();
    let mut r = NbtReader::new(&bytes, Endian::Big);
    r.cursor = 3;
    assert_eq!(r.find_path("b").unwrap(), Some(NbtTag::Int(2)));
    assert_eq!(r.find_path("zzz").unwrap(), None);
    assert_eq!(r.cursor, 3);
}

#[test]
fn errors_of_the_reader() {
    let mut r = NbtReader::new(&[0, 1], Endian::Big);
    assert_eq!(r.read_i32(), Err(NbtError::UnexpectedEof));
    assert_eq!(r.cursor, 0);
    assert_eq!(r.read_tag(13), Err(NbtError::InvalidTagType(13)));
    let bad = [0u8, 2, 0xff, 0xfe];
    let mut r = NbtReader::new(&bad, Endian::Big);
    assert_eq!(r.read_string(), Err(NbtError::InvalidUtf8));
    let mut r = NbtReader::new(&[5, 0, 0, 0, 1], Endian::Big);
    assert_eq!(r.skip_tag(7), Err(NbtError::UnexpectedEof));
}

#[test]
fn reader_primitives_and_remaining() {
    let bytes = [0x01u8, 0x02, 0x03, 0x04, 0x05, 0x06, 0x07, 0x08];
    let mut r = NbtReader::new(&bytes, Endian::Little);
    assert_eq!(r.read_i16().unwrap(), 0x0201);
    assert_eq!(r.remaining(), 6);
    assert_eq!(r.read_bytes(2).unwrap(), &[3, 4]);
    assert_eq!(r.read_i8().unwrap(), 5);
    r.cursor = 0;
    assert_eq!(r.read_i64().unwrap(), 0x0807060504030201);
    r.cursor = 100;
    assert_eq!(r.remaining(), 0);
}

#[test]
fn errors_of_the_writer() {
    let mut w = NbtWriter::new(Endian::Big);
    let long = "a".repeat(70_000);
    assert_eq!(w.write_string(&long), Err(NbtError::InvalidStringLength(70_000)));
    let mixed = NbtTag::List { tag_type: 3, items: vec![NbtTag::Int(1), NbtTag::Byte(2)] };
    assert_eq!(w.write_tag(&mixed), Err(NbtError::ListTypeMismatch { expected: 3, found: 1 }));
    let with_end = compound(vec![("e", NbtTag::End)]);
    assert_eq!(w.write_tag(&with_end), Err(NbtError::InvalidTagType(0)));
    assert!(w.into_bytes().is_empty());
}

#[test]
fn writer_arrays_and_numbers() {
    let mut w = NbtWriter::new(Endian::Big);
    w.write_i16(-2);
    w.write_int_array(&[1, -1]).unwrap();
    w.write_long_array(&[2]).unwrap();
    w.write_byte_array(&[-1]).unwrap();
    w.write_i8(-1);
    assert_eq!(
        w.into_bytes(),
        vec![
            0xff, 0xfe, 0, 0, 0, 2, 0, 0, 0, 1, 0xff, 0xff, 0xff, 0xff, 0, 0, 0, 1, 0, 0, 0, 0, 0, 0, 0,
            2, 0, 0, 0, 1, 0xff, 0xff
        ]
    );
}

#[test]
fn in_place_edits_through_mutable_views() {
    let mut root = compound(vec![("a", NbtTag::Int(1))]);
    root.as_compound_mut().unwrap().insert("a".to_string(), NbtTag::Int(5));
    root.as_compound_mut().unwrap().insert("b".to_string(), NbtTag::Byte(0));
    assert_eq!(root.get_i64("a"), Some(5));
    assert_eq!(root.get_bool("b"), false);
    let keys = root.as_compound().unwrap().keys();
    assert_eq!(keys, vec!["a".to_string(), "b".to_string()]);
    assert!(NbtTag::Int(1).as_compound_mut().is_none());

    let mut list = NbtTag::list(3);
    {
        let (t, items) = list.as_list_mut().unwrap();
        assert_eq!(*t, 3);
        items.push(NbtTag::integer(9));
    }
    assert!(list.is_list());
    assert_eq!(list.as_list().unwrap().1.len(), 1);
    assert_eq!(NbtTag::byte(1), NbtTag::Byte(1));
    assert_eq!(NbtTag::string("s").as_string(), "s");
    assert!(NbtTag::compound().is_compound());
    let map = NbtTag::compound();
    assert!(map.as_compound().unwrap().is_empty());
    assert!(!map.as_compound().unwrap().contains_key("x"));
}

#[test]
fn get_bool_treats_signed_zero_as_false() {
    let v = compound(vec![
        ("neg_zero", NbtTag::Float((-0.0f32).to_bits())),
        ("nan", NbtTag::Double(f64::NAN.to_bits())),
        ("one", NbtTag::Long(1)),
        ("text", NbtTag::String("1".to_string())),
    ]);
    assert!(!v.get_bool("neg_zero"));
    assert!(v.get_bool("nan"));
    assert!(v.get_bool("one"));
    assert!(!v.get_bool("text"));
    assert!(!v.get_bool("absent"));
}

#[test]
fn selective_read_keeps_fields_before_a_fault() {
    // {"a": 1b} then an entry of unknown type 13
    let bytes = [1u8, 0, 1, b'a', 1, 13, 0, 1, b'b', 0];
    let mut r = NbtReader::new(&bytes, Endian::Big);
    let sel = r.read_compound_selective(&["a", "b"]).unwrap();
    assert_eq!(sel, compound(vec![("a", NbtTag::Byte(1))]));
    assert_eq!(r.cursor, 5);
    // a truncated body keeps nothing when the first entry is cut
    let mut r = NbtReader::new(&[8u8, 0, 1], Endian::Big);
    assert_eq!(r.read_compound_selective(&["a"]).unwrap(), NbtTag::Compound(CompoundMap::new()));
    assert_eq!(r.cursor, 0);
}

#[test]
fn find_path_refuses_a_root_that_is_not_a_compound() {
    let bytes = [8u8, 0, 0, 0, 0];
    let mut r = NbtReader::new(&bytes, Endian::Big);
    assert_eq!(r.find_path("x"), Err(NbtError::InvalidHeader));
}
