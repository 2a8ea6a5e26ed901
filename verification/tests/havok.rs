use ffxiv_tools::havok::object::HavokValue;
use ffxiv_tools::havok::reader::HavokBinaryTagFileReader;
use ffxiv_tools::havok::types::{HavokTagType, HavokValueType};

/// The packed encoding of a small integer.
fn p(v: i32) -> Vec<u8> {
    let neg = v < 0;
    let mut m = v.unsigned_abs();
    let mut first = (((m & 0x3f) as u8) << 1) | (neg as u8);
    m >>= 6;
    let mut out = Vec::new();
    if m != 0 {
        first |= 0x80;
    }
    out.push(first);
    while m != 0 {
        let mut b = (m & 0x7f) as u8;
        m >>= 7;
        if m != 0 {
            b |= 0x80;
        }
        out.push(b);
    }
    out
}

fn s(text: &str) -> Vec<u8> {
    let mut out = p(text.len() as i32);
    out.extend_from_slice(text.as_bytes());
    out
}

fn signature() -> Vec<u8> {
    vec![0x1e, 0x0d, 0xb0, 0xca, 0xce, 0xfa, 0x11, 0xd0]
}

fn file_info() -> Vec<u8> {
    let mut d = p(1);
    d.extend(p(3));
    d
}

fn file_end() -> Vec<u8> {
    p(7)
}

/// A type record: name, version 0, parent, then (name, type word, class name) members.
fn type_record(name: &str, parent: i32, members: &[(&str, i32, Option<&str>)]) -> Vec<u8> {
    let mut d = p(2);
    d.extend(s(name));
    d.extend(p(0));
    d.extend(p(parent));
    d.extend(p(members.len() as i32));
    for (n, t, c) in members {
        d.extend(s(n));
        d.extend(p(*t));
        if let Some(c) = c {
            d.extend(s(c));
        }
    }
    d
}

fn string_of(v: &HavokValue) -> String {
    match v {
        HavokValue::String(s) => s.clone(),
        _ => panic!("not a string"),
    }
}

fn simple_file() -> Vec<u8> {
    let mut d = signature();
    d.extend(file_info());
    d.extend(type_record("Root", 0, &[("a", 2, None), ("s", 10, None)]));
    d.extend(p(4));
    d.extend(p(1));
    d.push(0b11);
    d.extend(p(5));
    d.extend(s("hi"));
    d.extend(file_end());
    d
}

#[test]
fn reads_a_simple_file() {
    let f = HavokBinaryTagFileReader::read(&simple_file());
    assert_eq!(f.types.len(), 2);
    assert_eq!(f.types[1].name, "Root");
    assert_eq!(f.types[1].parent, Some(0));
    assert_eq!(f.types[1].members.len(), 2);
    assert_eq!(f.types[1].members[1].type_.bits(), 10);
    assert_eq!(f.objects.len(), 2);
    assert_eq!(f.root, 1);
    let root = &f.objects[f.root];
    assert_eq!(root.object_type, 1);
    assert!(matches!(root.get(0), Some(HavokValue::Integer(5))));
    assert_eq!(string_of(root.get(1).unwrap()), "hi");
    assert!(f.objects[0].data.is_empty());
}

#[test]
fn absent_members_get_defaults() {
    let mut d = signature();
    d.extend(file_info());
    d.extend(type_record("Root", 0, &[("a", 2, None), ("arr", 0x12, None), ("s", 10, None)]));
    d.extend(p(4));
    d.extend(p(1));
    d.push(0b100);
    d.extend(s("x"));
    d.extend(file_end());
    let f = HavokBinaryTagFileReader::read(&d);
    let root = &f.objects[f.root];
    assert!(matches!(root.get(0), Some(HavokValue::Integer(0))));
    match root.get(1) {
        Some(HavokValue::Array(items)) => assert!(items.is_empty()),
        _ => panic!("expected an empty array"),
    }
    assert_eq!(string_of(root.get(2).unwrap()), "x");
}

#[test]
fn packed_integers_with_sign_and_continuation() {
    let mut d = signature();
    d.extend(file_info());
    d.extend(type_record("Root", 0, &[("a", 2, None), ("b", 2, None), ("c", 2, None)]));
    d.extend(p(4));
    d.extend(p(1));
    d.push(0b111);
    d.extend(p(-7));
    d.extend(p(1000));
    d.extend(p(-123_456));
    d.extend(file_end());
    let f = HavokBinaryTagFileReader::read(&d);
    let root = &f.objects[f.root];
    assert!(matches!(root.get(0), Some(HavokValue::Integer(-7))));
    assert!(matches!(root.get(1), Some(HavokValue::Integer(1000))));
    assert!(matches!(root.get(2), Some(HavokValue::Integer(-123_456))));
}

#[test]
fn remembered_strings_are_reused() {
    let mut d = signature();
    d.extend(file_info());
    d.extend(type_record("Root", 0, &[("s", 10, None), ("t", 10, None), ("u", 10, None)]));
    d.extend(p(4));
    d.extend(p(1));
    d.push(0b111);
    d.extend(p(-2));
    d.extend(p(-0));
    d.extend(s("new"));
    d.extend(file_end());
    let f = HavokBinaryTagFileReader::read(&d);
    let root = &f.objects[f.root];
    assert_eq!(string_of(root.get(0).unwrap()), "Root");
    assert_eq!(string_of(root.get(1).unwrap()), "");
    assert_eq!(string_of(root.get(2).unwrap()), "new");
}

#[test]
fn child_types_inherit_members() {
    let mut d = signature();
    d.extend(file_info());
    d.extend(type_record("Base", 0, &[("a", 2, None)]));
    d.extend(type_record("Child", 1, &[("b", 1, None)]));
    d.extend(p(4));
    d.extend(p(2));
    d.push(0b11);
    d.extend(p(9));
    d.push(200);
    d.extend(file_end());
    let f = HavokBinaryTagFileReader::read(&d);
    assert_eq!(f.types[2].members.len(), 2);
    assert_eq!(f.types[2].members[0].name, "a");
    assert_eq!(f.types[2].declared.len(), 1);
    assert_eq!(f.types[2].declared[0].name, "b");
    assert_eq!(f.types[2].parent, Some(1));
    let root = &f.objects[f.root];
    assert!(matches!(root.get(0), Some(HavokValue::Integer(9))));
    assert!(matches!(root.get(1), Some(HavokValue::Integer(200))));
}

#[test]
fn object_references_are_resolved() {
    let mut d = signature();
    d.extend(file_info());
    d.extend(type_record("Node", 0, &[("next", 0x18, Some("Node")), ("v", 2, None)]));
    d.extend(p(4));
    d.extend(p(1));
    d.push(0b11);
    d.extend(p(2));
    d.extend(p(2));
    d.extend(p(1));
    d.extend(p(10));
    d.extend(p(4));
    d.extend(p(1));
    d.push(0b10);
    d.extend(p(20));
    d.extend(file_end());
    let f = HavokBinaryTagFileReader::read(&d);
    assert_eq!(f.root, 1);
    let root = &f.objects[f.root];
    match root.get(0) {
        Some(HavokValue::Array(items)) => {
            assert_eq!(items.len(), 2);
            assert!(matches!(items[0], HavokValue::Object(2)));
            assert!(matches!(items[1], HavokValue::Object(1)));
        },
        _ => panic!("expected an array"),
    }
    assert!(matches!(f.objects[2].get(1), Some(HavokValue::Integer(20))));
}

#[test]
fn arrays_of_structures_become_objects() {
    let mut d = signature();
    d.extend(file_info());
    d.extend(type_record("Pt", 0, &[("x", 2, None), ("y", 2, None)]));
    d.extend(type_record("Root", 0, &[("pts", 0x19, Some("Pt"))]));
    d.extend(p(4));
    d.extend(p(2));
    d.push(0b1);
    d.extend(p(2));
    d.push(0b10);
    d.extend(p(0));
    d.extend(p(7));
    d.extend(p(8));
    d.extend(file_end());
    let f = HavokBinaryTagFileReader::read(&d);
    let root = &f.objects[f.root];
    let (a, b) = match root.get(0) {
        Some(HavokValue::Array(items)) => match (&items[0], &items[1]) {
            (HavokValue::Object(a), HavokValue::Object(b)) => (*a, *b),
            _ => panic!("expected objects"),
        },
        _ => panic!("expected an array"),
    };
    assert_eq!(f.objects[a].object_type, 1);
    assert!(f.objects[a].get(0).is_none());
    assert!(matches!(f.objects[a].get(1), Some(HavokValue::Integer(7))));
    assert!(matches!(f.objects[b].get(1), Some(HavokValue::Integer(8))));
}

#[test]
fn outer_structures_come_before_those_of_their_columns() {
    let mut d = signature();
    d.extend(file_info());
    d.extend(type_record("Inner", 0, &[("v", 2, None)]));
    d.extend(type_record("Outer", 0, &[("inner", 0x19, Some("Inner"))]));
    d.extend(type_record("Root", 0, &[("outers", 0x19, Some("Outer"))]));
    d.extend(p(4));
    d.extend(p(3));
    d.push(0b1);
    d.extend(p(2));
    d.push(0b1);
    d.push(0b1);
    d.extend(p(0));
    d.extend(p(7));
    d.extend(p(8));
    d.extend(file_end());
    let f = HavokBinaryTagFileReader::read(&d);
    assert_eq!(f.root, 5);
    let root = &f.objects[f.root];
    match root.get(0) {
        Some(HavokValue::Array(items)) => {
            assert!(matches!(items[0], HavokValue::Object(1)));
            assert!(matches!(items[1], HavokValue::Object(2)));
        },
        _ => panic!("expected an array"),
    }
    assert_eq!(f.objects[1].object_type, 2);
    assert!(matches!(f.objects[1].get(0), Some(HavokValue::Object(3))));
    assert!(matches!(f.objects[2].get(0), Some(HavokValue::Object(4))));
    assert_eq!(f.objects[3].object_type, 1);
    assert!(matches!(f.objects[3].get(0), Some(HavokValue::Integer(7))));
    assert!(matches!(f.objects[4].get(0), Some(HavokValue::Integer(8))));
}

#[test]
fn reals_and_vectors_keep_their_bits() {
    let mut d = signature();
    d.extend(file_info());
    d.extend(type_record("Root", 0, &[("r", 3, None), ("v", 0x14, None)]));
    d.extend(p(4));
    d.extend(p(1));
    d.push(0b11);
    d.extend(1.5f32.to_le_bytes());
    d.extend(p(1));
    for x in [1.0f32, 2.0, 3.0, 4.0] {
        d.extend(x.to_le_bytes());
    }
    d.extend(file_end());
    let f = HavokBinaryTagFileReader::read(&d);
    let root = &f.objects[f.root];
    match root.get(0) {
        Some(HavokValue::Real(bits)) => assert_eq!(f32::from_bits(*bits), 1.5),
        _ => panic!("expected a real"),
    }
    match root.get(1) {
        Some(HavokValue::Array(items)) => match &items[0] {
            HavokValue::Vec(v) => assert_eq!(v.iter().map(|b| f32::from_bits(*b)).collect::<Vec<_>>(), vec![1.0, 2.0, 3.0, 4.0]),
            _ => panic!("expected a vector"),
        },
        _ => panic!("expected an array"),
    }
}

#[test]
fn malformed_files_are_rejected() {
    assert!(HavokBinaryTagFileReader::try_read(&[1, 2, 3]).is_none());
    let mut bad = simple_file();
    bad[0] = 0;
    assert!(HavokBinaryTagFileReader::try_read(&bad).is_none());
    let mut bad = simple_file();
    bad[7] = 0xd1;
    assert!(HavokBinaryTagFileReader::try_read(&bad).is_none());
    let mut d = signature();
    d.extend(p(1));
    d.extend(p(2));
    d.extend(file_end());
    assert!(HavokBinaryTagFileReader::try_read(&d).is_none());
    let good = simple_file();
    assert!(HavokBinaryTagFileReader::try_read(&good[..good.len() - 1]).is_none());
    let mut d = signature();
    d.extend(file_info());
    d.extend(file_end());
    assert!(HavokBinaryTagFileReader::try_read(&d).is_none());
    let mut d = signature();
    d.extend(file_info());
    d.extend(p(5));
    assert!(HavokBinaryTagFileReader::try_read(&d).is_none());
}

#[test]
fn well_formed_files_read_the_same_both_ways() {
    let checked = HavokBinaryTagFileReader::try_read(&simple_file()).unwrap();
    let direct = HavokBinaryTagFileReader::read(&simple_file());
    assert_eq!(checked.root, direct.root);
    assert_eq!(checked.objects.len(), direct.objects.len());
    assert_eq!(checked.types.len(), direct.types.len());
}

#[test]
fn unresolvable_reference_is_rejected() {
    let mut d = signature();
    d.extend(file_info());
    d.extend(type_record("Node", 0, &[("next", 0x18, Some("Node"))]));
    d.extend(p(4));
    d.extend(p(1));
    d.push(0b1);
    d.extend(p(1));
    d.extend(p(9));
    d.extend(file_end());
    assert!(HavokBinaryTagFileReader::try_read(&d).is_none());
}

#[test]
fn vector_member_without_data_is_rejected() {
    let mut d = signature();
    d.extend(file_info());
    d.extend(type_record("Root", 0, &[("v", 4, None)]));
    d.extend(p(4));
    d.extend(p(1));
    d.push(0);
    d.extend(file_end());
    assert!(HavokBinaryTagFileReader::try_read(&d).is_none());
}

#[test]
fn value_type_words() {
    let t = HavokValueType::from_bits(0x19).unwrap();
    assert!(t.is_array());
    assert!(!t.is_tuple());
    assert_eq!(t.base_type().bits(), 9);
    assert!(HavokValueType::from_bits(0x40).is_none());
    let v = HavokValueType::from_bits(0x27).unwrap();
    assert!(v.is_tuple());
    assert!(v.is_vec());
    assert_eq!(v.vec_size(), 16);
}

#[test]
fn tag_codes() {
    assert_eq!(HavokTagType::from_raw(1), HavokTagType::FileInfo);
    assert_eq!(HavokTagType::from_raw(2), HavokTagType::Type);
    assert_eq!(HavokTagType::from_raw(4), HavokTagType::ObjectRemember);
    assert_eq!(HavokTagType::from_raw(7), HavokTagType::FileEnd);
    assert_eq!(HavokTagType::from_raw(255), HavokTagType::Eof);
    assert_eq!(HavokTagType::from_raw(42), HavokTagType::Invalid);
}
