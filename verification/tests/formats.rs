//! Checks of the byte formats: variable-length integers, deltas and pack
//! indexes.

use gust::errors::GitError;
use gust::idx::Idx;
use gust::object::delta::apply_delta;
use gust::object::diff::DeltaDiff;
use gust::object::metadata::Metadata;
use gust::object::types::ObjectType;
use gust::object::Object;
use gust::utils::{
    read_offset_encoding, read_size_encoding, read_type_and_size, write_offset_encoding,
    write_size_encoding,
};

#[test]
fn size_encoding_reads_back() {
    for n in [0u64, 1, 127, 128, 233, 966, 300_000, u64::MAX] {
        let bytes = write_size_encoding(n);
        let mut pos = 0;
        assert_eq!(n, read_size_encoding(&bytes, &mut pos).unwrap());
        assert_eq!(bytes.len(), pos);
    }
    assert_eq!(vec![233, 1], write_size_encoding(233));
}

#[test]
fn offset_encoding_reads_back() {
    for n in [0u64, 1, 127, 128, 966, 16517, 1_000_000] {
        let bytes = write_offset_encoding(n);
        let mut pos = 0;
        assert_eq!(n, read_offset_encoding(&bytes, &mut pos).unwrap());
        assert_eq!(bytes.len(), pos);
    }
    assert_eq!(vec![0x86, 0x46], write_offset_encoding(966));
}

#[test]
fn type_and_size_of_a_packed_object() {
    let mut pos = 0;
    let (t, size) = read_type_and_size(&[0xb5, 0x01], &mut pos).unwrap();
    assert_eq!(3, t);
    assert_eq!(21, size);
    assert_eq!(2, pos);
    let mut pos = 0;
    assert!(matches!(read_type_and_size(&[0xb5], &mut pos), Err(GitError::UnexpectedEof)));
}

#[test]
fn delta_of_a_diff_rebuilds_the_new_data() {
    let old = b"hello world".to_vec();
    let new = b"hello there world".to_vec();
    let mut diff = DeltaDiff::start(
        Metadata::new(ObjectType::Blob, &old),
        Metadata::new(ObjectType::Blob, &new),
    );
    diff.equal(0, 0, 6).unwrap();
    diff.insert(6, 6, 6).unwrap();
    diff.equal(6, 12, 5).unwrap();
    assert_eq!(11, diff.ssam);
    let delta = diff.get_delta_metadata();
    let base = Object { object_type: ObjectType::Blob, contents: old };
    let rebuilt = apply_delta(&delta, &base).unwrap();
    assert_eq!(ObjectType::Blob, rebuilt.object_type);
    assert_eq!(new, rebuilt.contents);
}

#[test]
fn long_inserts_are_split() {
    let old = b"a".to_vec();
    let new = vec![7u8; 300];
    let mut diff = DeltaDiff::start(
        Metadata::new(ObjectType::Blob, &old),
        Metadata::new(ObjectType::Blob, &new),
    );
    diff.insert(0, 0, 300).unwrap();
    assert_eq!(3, diff.ops.len());
    assert_eq!(127, diff.ops[0].len);
    assert_eq!(46, diff.ops[2].len);
    let delta = diff.get_delta_metadata();
    let base = Object { object_type: ObjectType::Blob, contents: old };
    assert_eq!(new, apply_delta(&delta, &base).unwrap().contents);
}

#[test]
fn delta_errors() {
    let base = Object { object_type: ObjectType::Blob, contents: b"abc".to_vec() };
    match apply_delta(&[4, 1, 1, b'x'], &base) {
        Err(GitError::Other(m)) => assert_eq!("Incorrect base object length", m),
        _ => panic!("a wrong base length was accepted"),
    }
    match apply_delta(&[3, 1, 0], &base) {
        Err(GitError::Other(m)) => assert_eq!("Invalid data instruction", m),
        _ => panic!("an empty insert was accepted"),
    }
    match apply_delta(&[3, 1, 0x91, 2, 5], &base) {
        Err(GitError::Other(m)) => assert_eq!("Invalid copy instruction", m),
        _ => panic!("a copy past the base was accepted"),
    }
    match apply_delta(&[3, 2, 1, b'x'], &base) {
        Err(GitError::Other(m)) => assert_eq!("Incorrect object length", m),
        _ => panic!("a wrong result length was accepted"),
    }
    assert!(matches!(apply_delta(&[3, 1, 5, b'x'], &base), Err(GitError::UnexpectedEof)));
    let copy = apply_delta(&[3, 2, 0x91, 1, 2], &base).unwrap();
    assert_eq!(b"bc".to_vec(), copy.contents);
}

fn one_object_idx() -> Vec<u8> {
    let mut data = vec![0xff, 0x74, 0x4f, 0x63, 0, 0, 0, 2];
    for k in 0..256u32 {
        let count: u32 = if k >= 0x64 { 1 } else { 0 };
        data.extend_from_slice(&count.to_be_bytes());
    }
    let id = gust::hash::Hash::from_str("6414e45babf0bdd043ba40d31123053cfebef26c").unwrap();
    data.extend_from_slice(&id.0);
    data.extend_from_slice(&[0xde, 0xad, 0xbe, 0xef]);
    data.extend_from_slice(&12u32.to_be_bytes());
    data.extend_from_slice(&[0x11; 20]);
    data.extend_from_slice(&[0x22; 20]);
    data
}

#[test]
fn index_of_one_object() {
    let mut idx = Idx::new();
    idx.decode(one_object_idx()).unwrap();
    assert_eq!(2, idx.version);
    assert_eq!(1, idx.number_of_objects);
    assert_eq!(1, idx.idx_items.len());
    assert_eq!("6414e45babf0bdd043ba40d31123053cfebef26c", idx.idx_items[0].id.to_string());
    assert_eq!(12, idx.idx_items[0].offset);
    assert_eq!("1111111111111111111111111111111111111111", idx.pack_signature.to_string());
    assert_eq!("64", idx.sha1_prefix(0x64));
    assert_eq!("0a", idx.sha1_prefix(10));
}

#[test]
fn index_with_a_bad_header() {
    let mut idx = Idx::new();
    match idx.decode(vec![1, 2, 3, 4]) {
        Err(GitError::InvalidIdxFile(m)) => assert_eq!("Invalid idx header: [1, 2, 3, 4]", m),
        _ => panic!("a bad header was accepted"),
    }
    assert_eq!(0, idx.number_of_objects);
}

fn pack_of(objects: &[Object]) -> Vec<u8> {
    let mut cache = gust::pack::cache::PackObjectCache::new();
    for (i, o) in objects.iter().enumerate() {
        cache.update(o.duplicate(), 12 + i as u64);
    }
    let pack = gust::pack::Pack {
        head: *b"PACK",
        version: 2,
        number_of_objects: objects.len() as u32,
        signature: gust::git::ID { bytes: vec![], hash: String::new() },
        result: cache,
    };
    pack.encode(None)
}

#[test]
fn packs_decoded_together() {
    let a = Object { object_type: ObjectType::Blob, contents: b"first".to_vec() };
    let b = Object { object_type: ObjectType::Tree, contents: b"second".to_vec() };
    let packs = vec![pack_of(&[a.duplicate()]), pack_of(&[b.duplicate()])];
    let all = gust::pack::Pack::multi_decode(&packs, &vec![]).unwrap();
    assert_eq!([0u8; 4], all.head);
    assert_eq!(0, all.number_of_objects);
    assert_eq!(b"first".to_vec(), all.result.Hash_object(a.hash()).unwrap().contents);
    assert_eq!(ObjectType::Tree, all.result.hash_object(b.hash()).unwrap().object_type);
    assert_eq!(b"second".to_vec(), all.result.Offset_object(12).unwrap().contents);
}

#[test]
fn pack_decoded_by_its_index() {
    let a = Object { object_type: ObjectType::Blob, contents: b"first".to_vec() };
    let data = pack_of(&[a.duplicate()]);
    let mut idx = Idx::new();
    idx.number_of_objects = 1;
    idx.idx_items.push(gust::idx::IdxItem {
        id: gust::git::ID::from_bytes(&a.hash().0),
        crc32: String::new(),
        offset: 12,
    });
    let pack = gust::pack::Pack::decode_by_idx(&idx, &data, &vec![]).unwrap();
    assert_eq!(*b"PACK", pack.head);
    assert_eq!(1, pack.number_of_objects);
    assert!(pack.result.offset_object(12).is_none());
}

#[test]
fn four_bytes_in_network_order() {
    assert_eq!(vec![0x10, 0x0f, 0x11, 0x09], gust::utils::u32_vec(0x100f1109));
    let mut data = b"PACK\0\0\0\x02\0\0\0\x01".to_vec();
    data.extend_from_slice(b"body");
    data.extend_from_slice(&[7u8; 20]);
    assert_eq!(b"body".to_vec(), gust::utils::get_pack_raw_data(data));
}

#[test]
fn hash_from_raw_bytes() {
    let raw: Vec<u8> = (1..=20).collect();
    let h = gust::hash::Hash::from_row(&raw);
    assert_eq!(1, h.get_first());
    assert_eq!("0102030405060708090a0b0c0d0e0f1011121314", h.to_plain_str());
    assert!(gust::hash::Hash::from_bytes(b"0102").is_none());
}

#[test]
fn metadata_made_a_delta() {
    let mut m = Metadata::new(ObjectType::Blob, &b"hello".to_vec());
    let id = m.id;
    m.change_to_delta(ObjectType::OffsetDelta, vec![1, 2, 3], vec![9]);
    assert_eq!(ObjectType::OffsetDelta, m.t);
    assert_eq!(3, m.size);
    assert_eq!(vec![9], m.delta_header);
    assert_eq!(id, m.id);
}

#[test]
fn blob_named_in_a_tree() {
    let blob = gust::git::Blob {
        meta: gust::git::Metadata {
            t: gust::git::Type::Blob,
            h: gust::git::Hash::Sha1,
            id: gust::git::ID::from_string("82352c3a6a7a8bd32011751699c7a3648d1b5d3c"),
            size: 16,
            data: b"# Hello Gitmega\n".to_vec(),
        },
        data: b"# Hello Gitmega\n".to_vec(),
    };
    let item = blob.to_tree_item("gitmega.md".to_string()).unwrap();
    assert_eq!(b"100644".to_vec(), item.mode);
    assert_eq!("gitmega.md", item.filename);
    assert_eq!("82352c3a6a7a8bd32011751699c7a3648d1b5d3c", item.id.to_string());
}
