use bitdrift::{MetaInfo, MetaInfoError};
use sha1::{Digest, Sha1};

fn single_file_torrent() -> Vec<u8> {
    let mut v: Vec<u8> = Vec::new();
    v.extend_from_slice(b"d8:announce22:http://example.com/ann4:info");
    v.extend_from_slice(info_dict().as_slice());
    v.extend_from_slice(b"e");
    v
}

fn info_dict() -> Vec<u8> {
    let mut v: Vec<u8> = Vec::new();
    v.extend_from_slice(b"d6:lengthi16384e4:name1:a12:piece lengthi16384e6:pieces20:");
    v.extend_from_slice(&[0u8; 20]);
    v.extend_from_slice(b"e");
    v
}

#[test]
fn test_parse_torrent_file() {
    let data = single_file_torrent();
    let metainfo = MetaInfo::from_bytes(&data);
    assert!(metainfo.is_ok(), "single-file torrent should parse: {:?}", metainfo.err());

    let m = metainfo.unwrap();
    assert_eq!(m.announce, "http://example.com/ann");
    assert_eq!(m.info.name, "a");
    assert_eq!(m.info.piece_length, 16384);
    assert_eq!(m.info.length, Some(16384));
    assert!(m.info.files.is_none());
    assert_eq!(m.num_pieces(), 1);
    assert_eq!(m.total_bytes(), 16384);
}

#[test]
fn info_hash_is_sha1_of_the_info_slice() {
    let data = single_file_torrent();
    let m = MetaInfo::from_bytes(&data).unwrap();

    let expected: [u8; 20] = Sha1::digest(info_dict().as_slice()).into();
    assert_eq!(m.info_hash, expected);
}

#[test]
fn reencoding_info_reproduces_its_bytes_and_hash() {
    let data = single_file_torrent();
    let m = MetaInfo::from_bytes(&data).unwrap();

    let reencoded = m.info.encode();
    assert_eq!(reencoded, info_dict());

    let recomputed: [u8; 20] = Sha1::digest(reencoded.as_slice()).into();
    assert_eq!(m.info_hash, recomputed);
}

#[test]
fn unknown_info_keys_are_kept_for_the_hash() {
    // an extra "source" key inside info must survive re-encoding
    let mut info: Vec<u8> = Vec::new();
    info.extend_from_slice(b"d6:lengthi16384e4:name1:a12:piece lengthi16384e6:pieces20:");
    info.extend_from_slice(&[0u8; 20]);
    info.extend_from_slice(b"6:source3:xyze");

    let mut data: Vec<u8> = Vec::new();
    data.extend_from_slice(b"d8:announce22:http://example.com/ann4:info");
    data.extend_from_slice(info.as_slice());
    data.extend_from_slice(b"e");

    let m = MetaInfo::from_bytes(&data).unwrap();
    assert_eq!(m.info.encode(), info);

    let expected: [u8; 20] = Sha1::digest(info.as_slice()).into();
    assert_eq!(m.info_hash, expected);
}

#[test]
fn multi_file_torrent_parses() {
    // two files of 1024 and 2048 bytes, three 1024-byte pieces
    let mut info: Vec<u8> = Vec::new();
    info.extend_from_slice(b"d5:filesl");
    info.extend_from_slice(b"d6:lengthi1024e4:pathl9:file1.txtee");
    info.extend_from_slice(b"d6:lengthi2048e4:pathl3:sub9:file2.txteee");
    info.extend_from_slice(b"4:name4:test12:piece lengthi1024e6:pieces60:");
    info.extend_from_slice(&[0u8; 60]);
    info.extend_from_slice(b"e");

    let mut data: Vec<u8> = Vec::new();
    data.extend_from_slice(b"d8:announce22:http://example.com/ann4:info");
    data.extend_from_slice(info.as_slice());
    data.extend_from_slice(b"e");

    let m = MetaInfo::from_bytes(&data).unwrap();
    assert_eq!(m.total_bytes(), 3072);
    assert_eq!(m.num_pieces(), 3);
    let files = m.info.files.as_ref().unwrap();
    assert_eq!(files.len(), 2);
    assert_eq!(files[0].length, 1024);
    assert_eq!(files[0].path, vec!["file1.txt".to_string()]);
    assert_eq!(files[1].length, 2048);
    assert_eq!(files[1].path, vec!["sub".to_string(), "file2.txt".to_string()]);
}

#[test]
fn malformed_bencode_is_rejected() {
    let data = b"d8:announce22:http://example.com/ann4:infod".to_vec();
    assert_eq!(MetaInfo::from_bytes(&data).err(), Some(MetaInfoError::MalformedBencode));

    let data2 = b"not bencode at all".to_vec();
    assert_eq!(MetaInfo::from_bytes(&data2).err(), Some(MetaInfoError::MalformedBencode));
}

#[test]
fn trailing_bytes_are_rejected() {
    let mut data = single_file_torrent();
    data.push(b'x');
    assert_eq!(MetaInfo::from_bytes(&data).err(), Some(MetaInfoError::MalformedBencode));
}

#[test]
fn unsorted_info_keys_are_rejected() {
    // "name" before "length" breaks the canonical key order
    let mut data: Vec<u8> = Vec::new();
    data.extend_from_slice(b"d8:announce22:http://example.com/ann4:info");
    data.extend_from_slice(b"d4:name1:a6:lengthi16384e12:piece lengthi16384e6:pieces20:");
    data.extend_from_slice(&[0u8; 20]);
    data.extend_from_slice(b"ee");
    assert_eq!(MetaInfo::from_bytes(&data).err(), Some(MetaInfoError::MalformedBencode));
}

#[test]
fn invalid_announce_url_is_rejected() {
    let mut data: Vec<u8> = Vec::new();
    data.extend_from_slice(b"d8:announce3:not4:info");
    data.extend_from_slice(info_dict().as_slice());
    data.extend_from_slice(b"e");
    assert_eq!(MetaInfo::from_bytes(&data).err(), Some(MetaInfoError::InvalidAnnounce));
}

#[test]
fn wrong_piece_count_is_rejected() {
    // 40 digest bytes announce two pieces, but one piece covers the total
    let mut data: Vec<u8> = Vec::new();
    data.extend_from_slice(b"d8:announce22:http://example.com/ann4:info");
    data.extend_from_slice(b"d6:lengthi16384e4:name1:a12:piece lengthi16384e6:pieces40:");
    data.extend_from_slice(&[0u8; 40]);
    data.extend_from_slice(b"ee");
    assert_eq!(MetaInfo::from_bytes(&data).err(), Some(MetaInfoError::MalformedBencode));
}
