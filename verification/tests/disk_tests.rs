use bitdrift::{initial_bitfield, write_placements, MetaInfo};

fn single_file_metainfo() -> MetaInfo {
    let mut data: Vec<u8> = Vec::new();
    data.extend_from_slice(b"d8:announce22:http://example.com/ann4:info");
    data.extend_from_slice(b"d6:lengthi2048e4:name9:test_file12:piece lengthi1024e6:pieces40:");
    data.extend_from_slice(&[0u8; 40]);
    data.extend_from_slice(b"ee");
    MetaInfo::from_bytes(&data).unwrap()
}

fn multi_file_metainfo() -> MetaInfo {
    // files of 1024 and 2048 bytes, three 1024-byte pieces
    let mut data: Vec<u8> = Vec::new();
    data.extend_from_slice(b"d8:announce22:http://example.com/ann4:info");
    data.extend_from_slice(b"d5:filesl");
    data.extend_from_slice(b"d6:lengthi1024e4:pathl4:test9:file1.txtee");
    data.extend_from_slice(b"d6:lengthi2048e4:pathl4:test9:file2.txtee");
    data.extend_from_slice(b"e4:name12:test_torrent12:piece lengthi1024e6:pieces60:");
    data.extend_from_slice(&[0u8; 60]);
    data.extend_from_slice(b"ee");
    MetaInfo::from_bytes(&data).unwrap()
}

#[test]
fn test_write_piece_command() {
    let m = single_file_metainfo();
    let ops = write_placements(&m, 1, 5).unwrap();
    assert_eq!(ops.len(), 1);
    assert_eq!(ops[0].file_index, 0);
    assert_eq!(ops[0].file_offset, 1024);
    assert_eq!(ops[0].data_start, 0);
    assert_eq!(ops[0].len, 5);
}

#[test]
fn test_write_piece_command_multiple_files() {
    let m = multi_file_metainfo();
    // piece 2 starts at global offset 2048: inside the second file
    let ops = write_placements(&m, 2, 5).unwrap();
    assert_eq!(ops.len(), 1);
    assert_eq!(ops[0].file_index, 1);
    assert_eq!(ops[0].file_offset, 1024);
    assert_eq!(ops[0].data_start, 0);
    assert_eq!(ops[0].len, 5);
}

#[test]
fn a_piece_spanning_two_files_is_split() {
    let m = multi_file_metainfo();
    // piece 0 lies in the first file; a full piece 1 would end in the
    // second: write the whole second piece
    let ops = write_placements(&m, 1, 1024).unwrap();
    assert_eq!(ops.len(), 1);
    assert_eq!(ops[0].file_index, 1);
    assert_eq!(ops[0].file_offset, 0);

    // a run crossing the 1024-byte boundary splits into two writes
    let ops = write_placements(&m, 0, 1024).unwrap();
    assert_eq!(ops.len(), 1);
    assert_eq!(ops[0].file_index, 0);

    // piece 0 of a layout with a 1500-byte first file splits
    let mut data: Vec<u8> = Vec::new();
    data.extend_from_slice(b"d8:announce22:http://example.com/ann4:info");
    data.extend_from_slice(b"d5:filesl");
    data.extend_from_slice(b"d6:lengthi1500e4:pathl1:aee");
    data.extend_from_slice(b"d6:lengthi1572e4:pathl1:bee");
    data.extend_from_slice(b"e4:name1:t12:piece lengthi1024e6:pieces60:");
    data.extend_from_slice(&[0u8; 60]);
    data.extend_from_slice(b"ee");
    let m2 = MetaInfo::from_bytes(&data).unwrap();

    let ops = write_placements(&m2, 1, 1024).unwrap();
    assert_eq!(ops.len(), 2);
    assert_eq!(ops[0].file_index, 0);
    assert_eq!(ops[0].file_offset, 1024);
    assert_eq!(ops[0].data_start, 0);
    assert_eq!(ops[0].len, 476);
    assert_eq!(ops[1].file_index, 1);
    assert_eq!(ops[1].file_offset, 0);
    assert_eq!(ops[1].data_start, 476);
    assert_eq!(ops[1].len, 548);
}

#[test]
fn out_of_range_pieces_get_no_plan() {
    let m = single_file_metainfo();
    assert!(write_placements(&m, 2, 1).is_none());
    assert!(write_placements(&m, 1, 1025).is_none());
}

#[test]
fn a_fresh_torrent_owns_nothing() {
    let m = single_file_metainfo();
    let bf = initial_bitfield(&m);
    assert_eq!(bf.len(), 2);
    assert!(!bf.get(0));
    assert!(!bf.get(1));
}
