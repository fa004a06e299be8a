use vex::codec::{hex_decode, hex_encode, sha1_digest, zlib_compress, zlib_decompress};
use vex::error::GitError;
use vex::object::{object_compress, object_frame, object_parse, object_read, object_write, store_id, ObjectType};

const HELLO_ID: &str = "ce013625030ba8dba906f756967f9e9ca394464a";

#[test]
fn frame_is_header_nul_data() {
    assert_eq!(object_frame(ObjectType::Blob, b"hello\n"), b"blob 6\0hello\n".to_vec());
    assert_eq!(object_frame(ObjectType::Commit, b""), b"commit 0\0".to_vec());
    assert_eq!(object_frame(ObjectType::Tag, b"xy"), b"tag 2\0xy".to_vec());
}

#[test]
fn blob_id_matches_git() {
    let (oid, store) = object_write(ObjectType::Blob, b"hello\n");
    assert_eq!(oid, HELLO_ID);
    assert_eq!(store, b"blob 6\0hello\n".to_vec());
}

#[test]
fn empty_blob_and_empty_tree_ids() {
    assert_eq!(object_write(ObjectType::Blob, b"").0, "e69de29bb2d1d6434b8b29ae775ad8c2e48c5391");
    assert_eq!(object_write(ObjectType::Tree, b"").0, "4b825dc642cb6eb9a060e54bf8d69288fbee4904");
}

#[test]
fn object_ids_are_forty_lower_hex_digits() {
    for data in [&b""[..], &b"a"[..], &b"\x00\xff binary"[..]] {
        let (oid, _) = object_write(ObjectType::Blob, data);
        assert_eq!(oid.len(), 40);
        assert!(oid.chars().all(|c| c.is_ascii_digit() || ('a'..='f').contains(&c)));
    }
}

#[test]
fn store_id_hashes_framed_bytes() {
    assert_eq!(store_id(b"blob 6\0hello\n"), HELLO_ID);
    assert_eq!(store_id(b"abc"), "a9993e364706816aba3e25717850c26c9cd0d89d");
}

#[test]
fn type_names_round_trip() {
    for kind in [ObjectType::Blob, ObjectType::Tree, ObjectType::Commit, ObjectType::Tag] {
        let name = kind.as_str();
        assert_eq!(ObjectType::from_str(name).unwrap(), kind);
    }
    assert_eq!(ObjectType::Blob.as_str(), "blob");
    assert_eq!(ObjectType::Tree.as_str(), "tree");
    assert_eq!(ObjectType::Commit.as_str(), "commit");
    assert_eq!(ObjectType::Tag.as_str(), "tag");
}

#[test]
fn unknown_type_name_is_an_error() {
    match ObjectType::from_str("blobs") {
        Err(GitError::UnknownObjectType(s)) => assert_eq!(s, "blobs"),
        other => panic!("unexpected {:?}", other),
    }
    assert!(matches!(ObjectType::from_str("Blob"), Err(GitError::UnknownObjectType(_))));
}

#[test]
fn parse_after_frame_gives_type_and_data() {
    for (kind, data) in [
        (ObjectType::Blob, &b"hello\n"[..]),
        (ObjectType::Tree, &b""[..]),
        (ObjectType::Commit, &b"tree x\n\nmsg\n"[..]),
        (ObjectType::Tag, &b"\x00 nul inside"[..]),
    ] {
        let framed = object_frame(kind, data);
        let (k, d) = object_parse(&framed).unwrap();
        assert_eq!(k, kind);
        assert_eq!(d, data.to_vec());
    }
}

#[test]
fn read_after_write_through_compression() {
    let (_, store) = object_write(ObjectType::Blob, b"some file content\n");
    let stored = object_compress(&store).unwrap();
    assert_ne!(stored, store);
    let (kind, data) = object_read(&stored).unwrap();
    assert_eq!(kind, ObjectType::Blob);
    assert_eq!(data, b"some file content\n".to_vec());
}

#[test]
fn header_without_nul_is_invalid() {
    assert!(matches!(object_parse(b"blob 6"), Err(GitError::InvalidObjectHeader)));
}

#[test]
fn header_without_space_is_invalid() {
    assert!(matches!(object_parse(b"blob6\0abcdef"), Err(GitError::InvalidObjectHeader)));
}

#[test]
fn header_not_utf8() {
    match object_parse(b"\xff\xfe 1\0a") {
        Err(GitError::HeaderNotUtf8(m)) => assert_eq!(m, "invalid utf-8 sequence of 1 bytes from index 0"),
        other => panic!("unexpected {:?}", other),
    }
}

#[test]
fn size_that_is_no_number() {
    let size_error = |raw: &[u8]| match object_parse(raw) {
        Err(GitError::InvalidObjectSize(m)) => m,
        other => panic!("unexpected {:?}", other),
    };
    assert_eq!(size_error(b"blob six\0abcdef"), "invalid digit found in string");
    assert_eq!(size_error(b"blob -1\0"), "invalid digit found in string");
    assert_eq!(size_error(b"blob \0"), "cannot parse integer from empty string");
    assert_eq!(size_error(b"blob 99999999999999999999999\0"), "number too large to fit in target type");
}

#[test]
fn size_with_plus_sign_is_accepted() {
    let (k, d) = object_parse(b"blob +2\0ab").unwrap();
    assert_eq!(k, ObjectType::Blob);
    assert_eq!(d, b"ab".to_vec());
}

#[test]
fn size_mismatch_is_malformed() {
    match object_parse(b"blob 3\0ab") {
        Err(GitError::MalformedObject { expected, actual }) => {
            assert_eq!(expected, 3);
            assert_eq!(actual, 2);
        }
        other => panic!("unexpected {:?}", other),
    }
}

#[test]
fn type_checked_after_size() {
    match object_parse(b"blub 1\0a") {
        Err(GitError::UnknownObjectType(s)) => assert_eq!(s, "blub"),
        other => panic!("unexpected {:?}", other),
    }
    assert!(matches!(object_parse(b"blub 2\0a"), Err(GitError::MalformedObject { .. })));
}

#[test]
fn stored_bytes_that_are_no_zlib_stream() {
    assert!(matches!(object_read(b"not a zlib stream"), Err(GitError::CorruptObject)));
}

#[test]
fn hex_encode_is_lower_case() {
    assert_eq!(hex_encode(&[0xde, 0xad, 0x00, 0x0f]), "dead000f");
    assert_eq!(hex_encode(&[]), "");
}

#[test]
fn hex_decode_accepts_both_cases() {
    assert_eq!(hex_decode(b"DEad000F").unwrap(), vec![0xde, 0xad, 0x00, 0x0f]);
    assert!(hex_decode(b"abc").is_err());
    assert!(hex_decode(b"zz").is_err());
}

#[test]
fn sha1_digest_has_twenty_bytes() {
    let d = sha1_digest(b"abc");
    assert_eq!(d.len(), 20);
    assert_eq!(hex_encode(&d), "a9993e364706816aba3e25717850c26c9cd0d89d");
}

#[test]
fn zlib_round_trip() {
    let data = b"aaaaaaaaaaaaaaaaaaaaaaaaaaaaaaaaaaaaaaaa".to_vec();
    let c = zlib_compress(&data).unwrap();
    assert_ne!(c, data);
    assert_eq!(zlib_decompress(&c).unwrap(), data);
    assert!(zlib_decompress(b"\x00\x01\x02").is_none());
}

#[test]
fn compressing_a_frame_succeeds() {
    let (_, store) = object_write(ObjectType::Tree, b"");
    let c = object_compress(&store).unwrap();
    assert_eq!(zlib_decompress(&c).unwrap(), store);
    assert_eq!(zlib_compress(&store).unwrap(), c);
}
