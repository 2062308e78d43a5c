//! Checks of the library on concrete values: the laws, the edge cases and
//! the error variants.

use std::io::Write;

use gust::errors::GitError;
use gust::git::{AuthorSign, Commit, Tag, Tree, TreeItemType, Type, ID};
use gust::lfs::{add_locks, delete_lock, filter_locks, Lock};
use gust::object::loose::{read_object, read_unpacked_object, try_read_object};
use gust::object::metadata::Metadata;
use gust::object::types::ObjectType;
use gust::object::Object;
use gust::pack::cache::PackObjectCache;
use gust::pack::files::{find_pack_files, get_hash_form_filename};
use gust::pack::{next_object, Pack};

fn zlib(bytes: &[u8]) -> Vec<u8> {
    let mut e = flate2::write::ZlibEncoder::new(Vec::new(), flate2::Compression::default());
    e.write_all(bytes).unwrap();
    e.finish().unwrap()
}

fn other_message(e: GitError) -> String {
    match e {
        GitError::Other(m) => m,
        other => panic!("unexpected error {:?}", other),
    }
}

#[test]
fn sha1_of_known_inputs() {
    let empty = gust::hash::Hash::new(&Vec::new());
    assert_eq!("da39a3ee5e6b4b0d3255bfef95601890afd80709", empty.to_plain_str());
    let abc = gust::hash::Hash::new(&b"abc".to_vec());
    assert_eq!("a9993e364706816aba3e25717850c26c9cd0d89d", abc.to_plain_str());
}

#[test]
fn blob_id_of_hello_gitmega() {
    let meta = Metadata::new(ObjectType::Blob, &b"# Hello Gitmega\n".to_vec());
    assert_eq!("82352c3a6a7a8bd32011751699c7a3648d1b5d3c", meta.id.to_plain_str());
    assert_eq!(16, meta.size);
}

#[test]
fn loose_object_reads_back_typed_as_commit() {
    let meta = Metadata::new(ObjectType::Blob, &b"hello".to_vec());
    let file = meta.loose_object_bytes();
    let object = read_unpacked_object(&file).unwrap();
    assert_eq!(ObjectType::Commit, object.object_type);
    assert_eq!(b"hello".to_vec(), object.contents);
}

#[test]
fn loose_object_read_errors() {
    let e = read_unpacked_object(b"not zlib at all").unwrap_err();
    assert_eq!("corrupt deflate stream", other_message(e));

    let e = read_unpacked_object(&zlib(b"blob")).unwrap_err();
    assert!(matches!(e, GitError::UnexpectedEof));

    let e = read_unpacked_object(&zlib(b"blob 5")).unwrap_err();
    assert!(matches!(e, GitError::UnexpectedEof));

    let e = read_unpacked_object(&zlib(b"blob 1x\0hi")).unwrap_err();
    assert_eq!("Invalid object size: [49, 120]", other_message(e));

    let e = read_unpacked_object(&zlib(b"blob 3\0hello")).unwrap_err();
    assert_eq!("Incorrect object size", other_message(e));
}

#[test]
fn read_object_checks_the_id() {
    let file = zlib(b"commit 5\0hello");
    let expected = Object { object_type: ObjectType::Commit, contents: b"hello".to_vec() }.hash();
    let object = read_object(&expected, &file).unwrap();
    assert_eq!(b"hello".to_vec(), object.contents);

    let wrong = gust::hash::Hash([0u8; 20]);
    let message = other_message(read_object(&wrong, &file).unwrap_err());
    assert_eq!(
        format!("Object {} has wrong hash {}", wrong.to_plain_str(), expected.to_plain_str()),
        message
    );

    assert!(try_read_object(&expected, b"garbage").is_none());
    assert!(try_read_object(&expected, &file).unwrap().is_ok());
}

#[test]
fn stored_blob_reads_with_its_id() {
    let file = zlib(b"blob 16\0# Hello Gitmega\n");
    let meta = gust::git::Metadata::read_object_from_data(&file).unwrap();
    assert_eq!(Type::Blob, meta.t);
    assert_eq!("82352c3a6a7a8bd32011751699c7a3648d1b5d3c", meta.id.to_string());
    assert_eq!(16, meta.size);
    assert_eq!(b"# Hello Gitmega\n".to_vec(), meta.data);
}

#[test]
fn stored_object_of_unknown_type() {
    let file = zlib(b"blub 2\0hi");
    match gust::git::Metadata::read_object_from_data(&file) {
        Err(GitError::InvalidObjectType(t)) => assert_eq!("blub", t),
        _ => panic!("an unknown type was accepted"),
    }
    assert!(gust::git::Metadata::try_read_object_from_data(&zlib(b"blob")).is_none());
    match gust::git::Metadata::try_read_object_from_data(b"plain") {
        Some(Err(GitError::Other(m))) => assert_eq!("corrupt deflate stream", m),
        _ => panic!("bytes that are no zlib stream were read"),
    }
}

fn blank_meta(t: Type) -> gust::git::Metadata {
    gust::git::Metadata {
        t,
        h: gust::git::Hash::Sha1,
        size: 0,
        id: ID { bytes: vec![], hash: String::new() },
        data: vec![],
    }
}

fn sign(t: &str, timestamp: usize) -> AuthorSign {
    AuthorSign {
        t: t.to_string(),
        name: "Quanyi Ma".to_string(),
        email: "eli@patch.sh".to_string(),
        timestamp,
        timezone: "+0800".to_string(),
    }
}

fn blank_sign() -> AuthorSign {
    AuthorSign {
        t: String::new(),
        name: String::new(),
        email: String::new(),
        timestamp: 0,
        timezone: String::new(),
    }
}

fn commit_with(parents: Vec<ID>) -> Commit {
    Commit {
        meta: blank_meta(Type::Commit),
        tree_id: ID::from_string("9bbe4087bedef91e50dc0c1a930c1d3e86fd5f20"),
        parent_tree_ids: parents,
        author: sign("author", 1649521615),
        committer: sign("committer", 1649521616),
        message: "Add gust.md\n".to_string(),
    }
}

fn decoded_commit(data: Vec<u8>) -> Commit {
    let mut c = Commit {
        meta: blank_meta(Type::Commit),
        tree_id: ID { bytes: vec![], hash: String::new() },
        parent_tree_ids: vec![],
        author: blank_sign(),
        committer: blank_sign(),
        message: String::new(),
    };
    c.meta.data = data;
    c.decode_meta().unwrap();
    c
}

#[test]
fn commit_decodes_what_it_encoded() {
    let commit = commit_with(vec![ID::from_string("1b490ec04712d147bbe7c8b3a6d86ed4d3587a6a")]);
    let meta = commit.encode_metadata().unwrap();
    let back = decoded_commit(meta.data);
    assert_eq!("9bbe4087bedef91e50dc0c1a930c1d3e86fd5f20", back.tree_id.to_string());
    assert_eq!(1, back.parent_tree_ids.len());
    assert_eq!("1b490ec04712d147bbe7c8b3a6d86ed4d3587a6a", back.parent_tree_ids[0].to_string());
    assert_eq!("author", back.author.t);
    assert_eq!("Quanyi Ma", back.author.name);
    assert_eq!("eli@patch.sh", back.author.email);
    assert_eq!(1649521615, back.author.timestamp);
    assert_eq!("+0800", back.author.timezone);
    assert_eq!("committer", back.committer.t);
    assert_eq!(1649521616, back.committer.timestamp);
    assert_eq!("Add gust.md\n", back.message);
}

#[test]
fn commit_with_two_parents_repeats_the_first() {
    let commit = commit_with(vec![
        ID::from_string("1b490ec04712d147bbe7c8b3a6d86ed4d3587a6a"),
        ID::from_string("3b8bc1e152af7ed6b69f2acfa8be709d1733e1bb"),
    ]);
    let meta = commit.encode_metadata().unwrap();
    let back = decoded_commit(meta.data);
    assert_eq!(2, back.parent_tree_ids.len());
    assert_eq!("1b490ec04712d147bbe7c8b3a6d86ed4d3587a6a", back.parent_tree_ids[0].to_string());
    assert_eq!("1b490ec04712d147bbe7c8b3a6d86ed4d3587a6a", back.parent_tree_ids[1].to_string());
}

#[test]
fn commit_without_parent_keeps_its_parent_list() {
    let commit = commit_with(vec![]);
    let meta = commit.encode_metadata().unwrap();
    let mut c = commit_with(vec![ID::from_string("1b490ec04712d147bbe7c8b3a6d86ed4d3587a6a")]);
    c.meta.data = meta.data;
    c.decode_meta().unwrap();
    assert_eq!(1, c.parent_tree_ids.len());
}

#[test]
fn tag_decodes_what_it_encoded() {
    let tag = Tag {
        meta: blank_meta(Type::Tag),
        object: ID::from_string("6414e45babf0bdd043ba40d31123053cfebef26c"),
        t: Type::Commit,
        tag: "v1.1.0".to_string(),
        tagger: sign("tagger", 1653037847),
        message: "\nIt's a lastest object\n".to_string(),
    };
    let meta = tag.encode_metadata().unwrap();
    let mut back = Tag {
        meta: blank_meta(Type::Tag),
        object: ID { bytes: vec![], hash: String::new() },
        t: Type::Blob,
        tag: String::new(),
        tagger: blank_sign(),
        message: String::new(),
    };
    back.meta.data = meta.data;
    back.decode_metadata().unwrap();
    assert_eq!("6414e45babf0bdd043ba40d31123053cfebef26c", back.object.to_string());
    assert_eq!(Type::Commit, back.t);
    assert_eq!("v1.1.0", back.tag);
    assert_eq!(1653037847, back.tagger.timestamp);
    assert_eq!("Quanyi Ma", back.tagger.name);
    assert_eq!("\nIt's a lastest object\n", back.message);
}

fn hex_bytes(text: &str) -> Vec<u8> {
    (0..text.len()).step_by(2).map(|i| u8::from_str_radix(&text[i..i + 2], 16).unwrap()).collect()
}

#[test]
fn tree_decodes_two_items() {
    let mut data = b"100644 gitmega.md\0".to_vec();
    data.extend(hex_bytes("fc1a505ac94f98cc5f29100a2d9aef97027a32fb"));
    data.extend(b"100644 gust.md\0");
    data.extend(hex_bytes("a3b55a2ce16d2429dae2d690d2c15bcf26fbe33c"));
    assert_eq!(73, data.len());
    let mut tree = Tree { meta: blank_meta(Type::Tree), tree_items: vec![] };
    tree.meta.data = data;
    tree.decode_metadata().unwrap();
    assert_eq!(2, tree.tree_items.len());
    assert_eq!("gitmega.md", tree.tree_items[0].filename);
    assert_eq!("fc1a505ac94f98cc5f29100a2d9aef97027a32fb", tree.tree_items[0].id.to_string());
    assert_eq!(b"100644".to_vec(), tree.tree_items[0].mode);
    assert!(matches!(tree.tree_items[0].item_type, TreeItemType::Blob));
    assert_eq!("gust.md", tree.tree_items[1].filename);
    assert_eq!("a3b55a2ce16d2429dae2d690d2c15bcf26fbe33c", tree.tree_items[1].id.to_string());
    assert_eq!(b"100644".to_vec(), tree.tree_items[1].mode);
    assert!(matches!(tree.tree_items[1].item_type, TreeItemType::Blob));
}

#[test]
fn blobs_are_equal_by_file_name() {
    let meta = Metadata::new(ObjectType::Blob, &b"a".to_vec());
    let mut a = gust::object::base::Blob::new(meta);
    assert_eq!("", a.filename);
    assert_eq!(1, a.meta.size);
    let mut b = gust::object::base::Blob::new(Metadata::new(ObjectType::Blob, &b"bb".to_vec()));
    a.filename = "x.md".to_string();
    b.filename = "x.md".to_string();
    assert!(a == b);
    b.filename = "y.md".to_string();
    assert!(a != b);
}

struct Recorder(gust::pack::diff::DeltaDiff);

impl diffs::Diff for Recorder {
    type Error = ();
    fn equal(&mut self, old: usize, new: usize, len: usize) -> Result<(), ()> {
        self.0.equal(old, new, len)
    }
    fn insert(&mut self, old: usize, new: usize, len: usize) -> Result<(), ()> {
        self.0.insert(old, new, len)
    }
}

#[test]
fn mod_test_imara_diff() {
    let a: Vec<u8> = vec![0, 1, 3, 4, 5];
    let b: Vec<u8> = vec![6, 53, 43, 24, 8, 0, 1, 3, 4, 5];
    let mut diff = Recorder(gust::pack::diff::DeltaDiff::new(a.len(), b.len()));
    diffs::myers::diff(&mut diff, &a, 0, a.len(), &b, 0, b.len()).unwrap();
    println!("{:?}", diff.0);
}

#[test]
fn recorded_runs_of_a_diff() {
    let mut diff = gust::pack::diff::DeltaDiff::new(5, 10);
    diff.insert(0, 0, 5).unwrap();
    diff.equal(0, 5, 5).unwrap();
    assert_eq!(5, diff.ssam);
    assert_eq!(2, diff.ops.len());
    assert_eq!(gust::pack::diff::Optype::DATA, diff.ops[0].ins);
    assert_eq!(5, diff.ops[1].begin);
    assert!(diff.ops[1].conver_to_delta().is_empty());
}

#[test]
fn pack_files_found_by_name() {
    let names = vec![
        "pack-8d36a6464e1f284e5e9d06683689ee751d4b2687.idx".to_string(),
        "pack-8d36a6464e1f284e5e9d06683689ee751d4b2687.pack".to_string(),
        "pack-6590ba86f4e863e1c2c985b046e1d2f1a78a0089.pack".to_string(),
    ];
    let found = find_pack_files(&names);
    assert_eq!(2, found.len());
    assert_eq!(1, found[0].0);
    assert_eq!("8d36a6464e1f284e5e9d06683689ee751d4b2687", found[0].1.to_plain_str());
    assert_eq!(2, found[1].0);
    assert_eq!("6590ba86f4e863e1c2c985b046e1d2f1a78a0089", found[1].1.to_plain_str());
    assert_eq!(
        "8d36a6464e1f284e5e9d06683689ee751d4b2687",
        get_hash_form_filename(&names[1])
    );
}

fn object(t: ObjectType, data: &[u8]) -> Object {
    Object { object_type: t, contents: data.to_vec() }
}

#[test]
fn cache_reads_back_what_was_recorded() {
    let mut cache = PackObjectCache::new();
    let a = object(ObjectType::Blob, b"first");
    let b = object(ObjectType::Tree, b"second");
    let ha = a.hash();
    let hb = b.hash();
    cache.update(a, 12);
    cache.update(b, 40);
    assert_eq!(b"first".to_vec(), cache.offset_object(12).unwrap().contents);
    assert_eq!(b"second".to_vec(), cache.offset_object(40).unwrap().contents);
    assert!(cache.offset_object(13).is_none());
    assert_eq!(ObjectType::Blob, cache.hash_object(ha).unwrap().object_type);
    assert_eq!(b"second".to_vec(), cache.hash_object(hb).unwrap().contents);
    cache.update(object(ObjectType::Blob, b"third"), 12);
    assert_eq!(b"third".to_vec(), cache.offset_object(12).unwrap().contents);
    assert_eq!(b"first".to_vec(), cache.hash_object(ha).unwrap().contents);
    cache.clean();
    assert!(cache.offset_object(12).is_none());
}

#[test]
fn pack_written_from_objects_decodes_to_them() {
    let mut cache = PackObjectCache::new();
    let objects = vec![
        object(ObjectType::Blob, b"# Hello Gitmega\n"),
        object(ObjectType::Commit, b"tree 9bbe\n"),
        object(ObjectType::Blob, b"# Hello Gitmega\n"),
        object(ObjectType::Tag, b""),
    ];
    let mut offset = 12;
    for o in objects.iter() {
        cache.update(o.duplicate(), offset);
        offset += 7;
    }
    let pack = Pack {
        head: *b"PACK",
        version: 2,
        number_of_objects: 4,
        signature: ID { bytes: vec![], hash: String::new() },
        result: cache,
    };
    let written = pack.encode(None);
    let back = Pack::decode_checked(&written, &vec![]).unwrap();
    assert_eq!(*b"PACK", back.head);
    assert_eq!(2, back.version);
    assert_eq!(3, back.number_of_objects);
    for o in objects.iter() {
        let found = back.result.hash_object(o.hash()).unwrap();
        assert_eq!(o.contents, found.contents);
        assert_eq!(o.object_type, found.object_type);
    }
}

#[test]
fn pack_decode_errors() {
    match Pack::decode_checked(b"PAKC\0\0\0\x02\0\0\0\0", &vec![]) {
        Err(GitError::InvalidPackHeader(m)) => assert_eq!("80,65,75,67", m),
        _ => panic!("a bad magic was accepted"),
    }
    match Pack::decode_checked(b"PACK\0\0\0\x03\0\0\0\0", &vec![]) {
        Err(GitError::InvalidPackFile(m)) => assert_eq!("Current File", m),
        _ => panic!("a bad version was accepted"),
    }
    assert!(matches!(
        Pack::decode_checked(b"PACK\0\0\0\x02\0\0\0\x01", &vec![]),
        Err(GitError::UnexpectedEof)
    ));
    assert!(matches!(
        Pack::decode_checked(b"PACK\0\0\0\x02\0\0\0\0", &vec![]),
        Err(GitError::UnexpectedEof)
    ));
    assert!(matches!(Pack::decode_checked(b"PAC", &vec![]), Err(GitError::UnexpectedEof)));
}

fn read_error(data: &[u8], offset: u64) -> GitError {
    let mut cache = PackObjectCache::new();
    match next_object(data, offset, &mut cache, &vec![]) {
        Err(e) => e,
        Ok(_) => panic!("a malformed object was read"),
    }
}

fn info_message(e: GitError) -> String {
    match e {
        GitError::InvalidObjectInfo(m) => m,
        other => panic!("unexpected error {:?}", other),
    }
}

/// A blob "abc" at offset 0, then an offset delta against it.
fn blob_then_delta(delta: &[u8]) -> (Vec<u8>, u64) {
    let mut data = vec![0x33];
    data.extend(zlib(b"abc"));
    let at = data.len();
    data.push(0x60);
    data.push(at as u8);
    data.extend(zlib(delta));
    (data, at as u64)
}

#[test]
fn pack_object_faults() {
    assert!(matches!(read_error(&[0x95], 0), GitError::UnexpectedEof));
    assert!(matches!(read_error(&[0x30], 2), GitError::UnexpectedEof));
    let mut long = vec![0x80; 11];
    long.push(0x01);
    assert_eq!("invalid object header", info_message(read_error(&long, 0)));
    match read_error(&[0x50, 0x00], 0) {
        GitError::InvalidObjectType(m) => assert_eq!("5", m),
        other => panic!("unexpected error {:?}", other),
    }
    assert_eq!("invalid zlib stream", info_message(read_error(&[0x33, 0xff, 0xff], 0)));
    let mut sized = vec![0x34];
    sized.extend(zlib(b"abc"));
    assert_eq!("Incorrect object size", info_message(read_error(&sized, 0)));
    assert_eq!("Invalid OffsetDelta offset", info_message(read_error(&[0x60, 0x05], 0)));
    assert_eq!("Invalid OffsetDelta offset", info_message(read_error(&[0x60, 0x00], 0)));
    assert!(matches!(read_error(&[0x60, 0x80], 0), GitError::UnexpectedEof));
    assert!(matches!(read_error(&[0x70, 1, 2, 3, 4, 5], 0), GitError::UnexpectedEof));
    let mut missing = vec![0x70];
    missing.extend([0u8; 20]);
    match read_error(&missing, 0) {
        GitError::NotFountHashValue(m) => assert_eq!("0".repeat(40), m),
        other => panic!("unexpected error {:?}", other),
    }

    let (data, at) = blob_then_delta(b"");
    assert_eq!("invalid delta header", info_message(read_error(&data, at)));
    let (data, at) = blob_then_delta(&[5, 2, 0x02, b'x', b'y']);
    assert_eq!("Incorrect base object length", other_message(read_error(&data, at)));
    let (data, at) = blob_then_delta(&[3, 5, 0x02, b'x', b'y']);
    assert_eq!("Incorrect object length", other_message(read_error(&data, at)));
    let (data, at) = blob_then_delta(&[3, 1, 0x00]);
    assert_eq!("Invalid data instruction", other_message(read_error(&data, at)));

    let (data, at) = blob_then_delta(&[3, 5, 0x02, b'x', b'y', 0x90, 0x03]);
    let mut cache = PackObjectCache::new();
    let (o, end) = next_object(&data, at, &mut cache, &vec![]).unwrap();
    assert_eq!(b"xyabc".to_vec(), o.contents);
    assert_eq!(ObjectType::Blob, o.object_type);
    assert_eq!(data.len(), end);
}

fn lock(id: &str, path: &str, owner: Option<&str>, at: &str) -> Lock {
    Lock {
        id: id.to_string(),
        path: path.to_string(),
        owner: owner.map(|o| o.to_string()),
        locked_at: at.to_string(),
    }
}

#[test]
fn deleting_a_lock_removes_its_id() {
    let locks = vec![
        lock("1", "a.bin", None, "2023-01-01"),
        lock("2", "b.bin", Some("eli"), "2023-01-02"),
        lock("", "c.bin", None, "2023-01-03"),
        lock("3", "c.bin", None, "2023-01-04"),
    ];
    let (deleted, rest) = delete_lock(&locks, "1", false).unwrap();
    assert_eq!("a.bin", deleted.path);
    assert_eq!(vec!["2", "3"], rest.iter().map(|l| l.id.as_str()).collect::<Vec<_>>());

    assert!(delete_lock(&locks, "2", false).is_err());
    let (deleted, _) = delete_lock(&locks, "2", true).unwrap();
    assert_eq!(Some("eli".to_string()), deleted.owner);
    match delete_lock(&locks, "9", true) {
        Err(gust::errors::GitLFSError::GeneralError(m)) => assert_eq!("", m),
        _ => panic!("an unknown id was deleted"),
    }
}

#[test]
fn added_locks_are_kept_in_time_order() {
    let existing = vec![lock("1", "a", None, "2023-01-03"), lock("2", "b", None, "2023-01-05")];
    let added = vec![lock("3", "c", None, "2023-01-04"), lock("4", "d", None, "2023-01-01")];
    let all = add_locks(&existing, &added);
    assert_eq!(vec!["4", "1", "3", "2"], all.iter().map(|l| l.id.as_str()).collect::<Vec<_>>());
}

#[test]
fn listing_locks_by_page() {
    let locks = vec![
        lock("1", "a", None, "t1"),
        lock("2", "b", None, "t2"),
        lock("3", "a", None, "t3"),
        lock("4", "a", None, "t4"),
        lock("5", "a", None, "t5"),
    ];
    let (page, next) = filter_locks(&locks, "a", "", "2").unwrap();
    assert_eq!(vec!["1", "3"], page.iter().map(|l| l.id.as_str()).collect::<Vec<_>>());
    assert_eq!("4", next);

    let (page, next) = filter_locks(&locks, "", "3", "").unwrap();
    assert_eq!(3, page.len());
    assert_eq!("", next);

    assert!(filter_locks(&locks, "", "9", "").is_err());
    let (page, _) = filter_locks(&locks, "a", "", "-0").unwrap();
    assert!(page.is_empty());
}
