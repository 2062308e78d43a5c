//! Scenarios of object ids, objects and their encodings.

use gust::git::{AuthorSign, Commit, Metadata, Tag, Type, ID};
use gust::object::types::ObjectType;
use gust::object::Object;
use gust::utils::{write_offset_encoding, write_size_encoding};

#[test]
fn test_hash() {
    let test_hash = gust::hash::Hash::from_str("18fd2deaaf152c7f1222c52fb2673f6192b375f0").unwrap();
    let result_hash: [u8; 20] = [
        24, 253, 45, 234, 175, 21, 44, 127, 18, 34, 197, 47, 178, 103, 63, 97, 146, 179, 117, 240,
    ];

    assert_eq!(test_hash.0, result_hash);
    assert_eq!(String::from("18"), test_hash.to_folder());
    assert_eq!(String::from("fd2deaaf152c7f1222c52fb2673f6192b375f0"), test_hash.to_filename());
}

#[test]
fn test_hash_with_zero() {
    let test_hash = gust::hash::Hash::from_str("08fd2deaaf152c7f1222c52fb2673f6192b37500").unwrap();
    let result_hash: [u8; 20] = [
        8, 253, 45, 234, 175, 21, 44, 127, 18, 34, 197, 47, 178, 103, 63, 97, 146, 179, 117, 0,
    ];
    assert_eq!(test_hash.0, result_hash);
}

#[test]
fn test_error_hash() {
    let test_str = "18fd2deaaf152c7f1222c52fb2673f6192z375f0";
    let test_hash = match gust::hash::Hash::from_str(test_str) {
        Ok(_) => panic!("an invalid hash was accepted"),
        Err(e) => e,
    };
    assert_eq!(format!("The {} is not a valid Hash value ", test_str), test_hash.to_string());
}

fn empty_meta(t: Type) -> Metadata {
    Metadata {
        t,
        h: gust::git::Hash::Sha1,
        size: 0,
        id: ID { bytes: vec![], hash: "".to_string() },
        data: vec![],
    }
}

fn sign(t: &str, timestamp: usize) -> AuthorSign {
    AuthorSign {
        t: t.to_string(),
        name: "Quanyi Ma".to_string(),
        email: "eli@patch.sh".to_string(),
        timestamp,
        timezone: "+0800".to_string(),
    }
}

fn tag_fixture() -> Tag {
    Tag {
        meta: empty_meta(Type::Tag),
        object: ID::from_string("6414e45babf0bdd043ba40d31123053cfebef26c"),
        t: Type::Commit,
        tag: "v1.1.0".to_string(),
        tagger: sign("tagger", 1653037847),
        message: "\nIt's a lastest object\n-----BEGIN PGP SIGNATURE-----\n\niQIzBAABCAAdFiEEanuf5/5ADLU2lvsCZL9E4tsHuXIFAmKHWxcACgkQZL9E4tsH\nuXIeFhAAtX+foSvc7/1lb98+QfRjHcpO+LX+LroTaq/QGOTX/2gE+tHD2TJAga1I\nVqDEz8fh8AE366FC7UCjCb5nvsCCox2htzbIxAjsc9L/JckWtxl6WOa/5OZssrDQ\nFtX39BNNl+4TfNn/z1XV+28c9yB1N5HSoP2gzdLoASw3y9n6E0FyzLdoXPILgmJI\nL4DAG/OFkixK+I+TsK+6995497h9BCi3x30dOjfxZS9ptiKhqWulbkflvvM9Cnie\n7obXYmnoe0jBjSfO5GgJlOYcLzE9MMYYzIx47/4lcrCbQXnojkW3KV03PEXGfRCL\nw/y8oBHVvNVRF0Jn+o7F+mzIrbF6Ufku63MfRf7WmbbS3B63CILEjNyuOFoe8mDb\nrmAUffzQSrgnvBk+g01slb6Q+q7Urw6wqHtBPn3ums/inHE9ymTqS7ffmRifUfR8\nD8LvhwpSUI7BdiN6HznRFPxMXzohYIqAJbUltjr4Q7qw/kJI+305Xcs1U5AUIaOp\n77p2UFHRVoMM5mpPOCSwsVJ6cSuOjWXf9afcNMrhgclKefM0aXXnd2p5zTUEe99T\nlAtXHuprRwxtSQUzHxJCdGlUGRGRR2aS9W984SNDVmcegnOIrZD2pVm/tjDwVex5\nMuAuKHr8et1EKyvKCnta6USq7WC2l6RdsCaAYzSTQ7ljEi9A+6Q=\n=/9g0\n-----END PGP SIGNATURE-----\n".to_string(),
    }
}

#[test]
fn tag_test_tag_write_to_file() {
    let mut tag = tag_fixture();
    tag.meta = tag.encode_metadata().unwrap();
    assert_eq!("e5c324b03b72b26f11557c4955c6d17c68dc8595", tag.meta.id.to_string());

    let (path, _) = tag.loose_file("/tmp");
    assert_eq!("/tmp/e5/c324b03b72b26f11557c4955c6d17c68dc8595", path);
}

#[test]
fn git_test_tag_write_to_file() {
    let mut tag = tag_fixture();
    tag.meta = tag.encode_metadata().unwrap();
    assert_eq!("e5c324b03b72b26f11557c4955c6d17c68dc8595", tag.meta.id.to_string());

    let (path, _) = tag.loose_file("/tmp");
    assert_eq!("/tmp/e5/c324b03b72b26f11557c4955c6d17c68dc8595", path);
}

#[test]
fn test_commit_write_to_file() {
    let mut commit = Commit {
        meta: empty_meta(Type::Commit),
        tree_id: ID::from_string("9bbe4087bedef91e50dc0c1a930c1d3e86fd5f20"),
        parent_tree_ids: vec![ID::from_string("1b490ec04712d147bbe7c8b3a6d86ed4d3587a6a")],
        author: sign("author", 1649521615),
        committer: sign("committer", 1649521615),
        message: "gpgsig -----BEGIN PGP SIGNATURE-----\n \n iQIzBAABCAAdFiEEanuf5/5ADLU2lvsCZL9E4tsHuXIFAmJRs88ACgkQZL9E4tsH\n uXJAmBAAtubFjLjNzIgal1/Gwy/zlpw7aQvVO2xcX3Xhbeb0UJyKvrSm/Ht19kiz\n 6Bc8ZV75mpKKip93XAljUgWgAO6Q4DUFnVA5bwF1vvhKHbgXLr+I8q+5GqmLW61U\n oBrB/3aJJ/uAxElQz5nOhgB7ztCfeKQ5egbhBXn9QGqPg/RkfQmDPYsU7evk1J0Z\n CyKinbSNe0c92qE95nURzozFb1zf0rO9NtnpYohFCEO5qyuoV4nz7npnJD4Miqy9\n IUQapeJeZC7eDvU8AWbxARrkXQkyfLSebDVcqbz7WfQz+4dhoK7jADaB48oKpR/K\n bKZDJU9a2t2nPC1ojzjQJgXZ6x4linQofBR8wE1ns3W5RoRgcBSj8dQMNH8wXa/T\n oQD6hlCJpjvbiYHuc3tSgCESI4ZU7zGpL9BAQK+C91T8CUamycF1H7TAHXdzNClR\n bWO4EeRzvwZZyIL029DYFxD2IFN7OQb5jc7JvcroIW8jUN0sMPS6jY+d0bg5pgIs\n yJjmI6qPYy7R35OElfTlw8aVSOAnVbQh7MZt6n3JUyezwK9MwbiKdAYKOLYaVaC0\n ++SY+NV4Dwe6W72KhFhxwOJQRGMfES1mRxy4n85BgqfCGy7STGSBOmon3VZEl89z\n rmvdX0JXy93hGH0oUQINsN9bzpsdaQUWVND8wAnb0+sU4LvJz90=\n =9qni\n -----END PGP SIGNATURE-----\n\nAdd gust.md and modify gitmega.md\n\nSigned-off-by: Quanyi Ma <eli@patch.sh>\n".to_string(),
    };

    commit.meta = commit.encode_metadata().unwrap();
    assert_eq!("3b8bc1e152af7ed6b69f2acfa8be709d1733e1bb", commit.meta.id.to_string());

    let (path, _) = commit.loose_file("/tmp");
    assert_eq!("/tmp/3b/8bc1e152af7ed6b69f2acfa8be709d1733e1bb", path);
}

#[test]
fn git_test_idx_write_to_file() {}

#[test]
fn git_test_pack_write_to_file() {}

#[test]
fn mod_test_idx_write_to_file() {}

#[test]
fn pack_test_pack_write_to_file() {}

#[test]
fn test_obj_hash() {
    let obj = Object {
        object_type: ObjectType::Blob,
        contents: String::from("hello ,sss").into_bytes(),
    };
    println!("{}", obj.hash().to_plain_str());
}

#[test]
fn dex_number() {
    let all_num: usize = 0x100f1109;
    println!("{:x}", (all_num >> 24) as u8);
    println!("{:x}", (all_num >> 16) as u8);
    println!("{:x}", (all_num >> 8) as u8);
    println!("{:x}", (all_num) as u8);
}

#[test]
fn test_write_encode_size() {
    let ns: u64 = 966;
    let re = write_offset_encoding(ns);
    println!("{:?}", re);
}

#[test]
fn test_write_size_encoding() {
    let size = 233;
    let re = write_size_encoding(size);
    println!("{:?}", re);
    println!("");
}

fn read_size_encoding(a: Vec<u8>) -> usize {
    let mut value = 0;
    let mut length = 0;

    for i in a {
        let byte_value = i & 0x7f;
        let more_bytes = (i & 0x8f) != 0;
        value |= (byte_value as usize) << length;
        if !more_bytes {
            return value;
        }
        length += 7;
    }
    value
}

#[test]
fn test_read_size_encodings() {
    let a = vec![233, 1];
    println!("{}", read_size_encoding(a));
}

#[test]
fn test1() {}
