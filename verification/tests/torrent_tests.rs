use bitdrift::{Block, MetaInfo, PieceError, Torrent, TorrentError};
use sha1::{Digest, Sha1};

fn torrent_for(content: &[u8], piece_length: u32) -> Torrent {
    let num_pieces = (content.len() as u32 + piece_length - 1) / piece_length;
    let mut digests: Vec<u8> = Vec::new();
    for p in 0..num_pieces {
        let start = (p * piece_length) as usize;
        let end = ((p + 1) * piece_length).min(content.len() as u32) as usize;
        let d: [u8; 20] = Sha1::digest(&content[start..end]).into();
        digests.extend_from_slice(&d);
    }
    let mut data: Vec<u8> = Vec::new();
    data.extend_from_slice(b"d8:announce22:http://example.com/ann4:info");
    data.extend_from_slice(format!("d6:lengthi{}e4:name1:a12:piece lengthi{}e", content.len(), piece_length).as_bytes());
    data.extend_from_slice(format!("6:pieces{}:", digests.len()).as_bytes());
    data.extend_from_slice(&digests);
    data.extend_from_slice(b"ee");
    let metainfo = MetaInfo::from_bytes(&data).unwrap();
    Torrent::from_metainfo(&metainfo)
}

#[test]
fn a_correct_block_completes_and_verifies_its_piece() {
    let content = vec![0x5Au8; 16384];
    let mut t = torrent_for(&content, 16384);
    assert_eq!(t.pieces.len(), 1);
    assert!(!t.owned_bitfield().get(0));

    t.add_block(Block { piece_index: 0, begin: 0, data: content.clone() })
        .unwrap();

    assert!(t.owned_bitfield().get(0));
    assert_eq!(t.pieces[0].request(0, 16384), content);
}

#[test]
fn a_corrupt_block_fails_verification() {
    let content = vec![0x5Au8; 16384];
    let mut t = torrent_for(&content, 16384);

    let r = t.add_block(Block { piece_index: 0, begin: 0, data: vec![0u8; 16384] });
    assert_eq!(r.err(), Some(TorrentError::Piece(PieceError::InvalidHash)));
}

#[test]
fn blocks_for_unknown_pieces_are_refused() {
    let content = vec![1u8; 16384];
    let mut t = torrent_for(&content, 16384);
    let r = t.add_block(Block { piece_index: 7, begin: 0, data: vec![0u8; 16] });
    assert_eq!(r.err(), Some(TorrentError::InvalidPieceIndex));
}

#[test]
fn pieces_accumulate_blocks_until_complete() {
    let mut content = vec![1u8; 16384];
    content.extend_from_slice(&[2u8; 16384]);
    let mut t = torrent_for(&content, 32768);

    t.add_block(Block { piece_index: 0, begin: 0, data: vec![1; 16384] })
        .unwrap();
    assert!(!t.owned_bitfield().get(0));

    t.add_block(Block { piece_index: 0, begin: 16384, data: vec![2; 16384] })
        .unwrap();
    assert!(t.owned_bitfield().get(0));
    assert_eq!(t.pieces[0].request(0, 32768), content);
}

#[test]
fn an_overrunning_block_fails_when_the_piece_is_checked() {
    let content = vec![1u8; 16384];
    let mut t = torrent_for(&content, 16384);
    // a block past the piece's end is appended, completing the byte count
    let r = t.add_block(Block { piece_index: 0, begin: 1000, data: vec![0u8; 16384] });
    assert_eq!(r.err(), Some(TorrentError::Piece(PieceError::InvalidBlock)));
    assert!(!t.owned_bitfield().get(0));
}

#[test]
fn duplicate_blocks_after_verification_do_not_unverify() {
    let content = vec![4u8; 16384];
    let mut t = torrent_for(&content, 16384);
    t.add_block(Block { piece_index: 0, begin: 0, data: content.clone() })
        .unwrap();
    // the piece is already verified: a repeat is refused, the data stays
    let r = t.add_block(Block { piece_index: 0, begin: 0, data: content.clone() });
    assert_eq!(r.err(), Some(TorrentError::Piece(PieceError::InvalidBlock)));
    assert_eq!(t.pieces[0].request(0, 16384), content);
    assert!(t.owned_bitfield().get(0));
}

#[test]
fn the_last_piece_may_be_short() {
    let content = vec![3u8; 16384 + 100];
    let mut t = torrent_for(&content, 16384);
    assert_eq!(t.pieces.len(), 2);
    assert_eq!(t.pieces[1].length, 100);

    t.add_block(Block { piece_index: 1, begin: 0, data: vec![3; 100] })
        .unwrap();
    assert!(t.owned_bitfield().get(1));
    assert!(!t.owned_bitfield().get(0));
}
