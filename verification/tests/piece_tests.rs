use bitdrift::{Block, Piece, PieceError};
use sha1::{Digest, Sha1};

fn two_block_piece_data() -> Vec<u8> {
    let mut data = vec![0xAAu8; 16384];
    data.extend_from_slice(&[0xBBu8; 16384]);
    data
}

#[test]
fn piece_assembles_verifies_and_serves_requests() {
    let data = two_block_piece_data();
    let hash: [u8; 20] = Sha1::digest(data.as_slice()).into();

    let mut piece = Piece::new_unverified(0, hash, 32768);
    assert!(!piece.is_all_blocks_received());

    piece
        .add_block(Block { piece_index: 0, begin: 0, data: vec![0xAA; 16384] })
        .unwrap();
    assert!(!piece.is_all_blocks_received());

    piece
        .add_block(Block { piece_index: 0, begin: 16384, data: vec![0xBB; 16384] })
        .unwrap();
    assert!(piece.is_all_blocks_received());

    let assembled = piece.verify().expect("digest matches");
    assert_eq!(assembled, data);

    assert_eq!(piece.request(0, 32768), data);
    assert_eq!(piece.request(16380, 8), vec![0xAA, 0xAA, 0xAA, 0xAA, 0xBB, 0xBB, 0xBB, 0xBB]);
}

#[test]
fn hash_mismatch_leaves_the_piece_reusable() {
    let mut piece = Piece::new_unverified(0, [0u8; 20], 16);
    piece
        .add_block(Block { piece_index: 0, begin: 0, data: vec![1; 16] })
        .unwrap();
    assert!(piece.is_all_blocks_received());
    assert_eq!(piece.verify().err(), Some(PieceError::InvalidHash));

    // still gathering: more blocks are accepted and a matching buffer passes
    let fixed = vec![2u8; 16];
    let hash: [u8; 20] = Sha1::digest(fixed.as_slice()).into();
    let mut piece2 = Piece::new_unverified(0, hash, 16);
    piece2
        .add_block(Block { piece_index: 0, begin: 0, data: vec![1; 16] })
        .unwrap();
    assert_eq!(piece2.verify().err(), Some(PieceError::InvalidHash));
    piece2
        .add_block(Block { piece_index: 0, begin: 0, data: fixed.clone() })
        .unwrap();
    assert_eq!(piece2.verify().unwrap(), fixed);
}

#[test]
fn incomplete_piece_does_not_verify() {
    let mut piece = Piece::new_unverified(0, [0u8; 20], 32768);
    piece
        .add_block(Block { piece_index: 0, begin: 0, data: vec![0; 16384] })
        .unwrap();
    assert_eq!(piece.verify().err(), Some(PieceError::IncompleteBlocks));
}

#[test]
fn verified_piece_refuses_more_blocks() {
    let data = vec![9u8; 8];
    let hash: [u8; 20] = Sha1::digest(data.as_slice()).into();
    let mut piece = Piece::new_verified(0, hash, 8, data);
    let r = piece.add_block(Block { piece_index: 0, begin: 0, data: vec![0; 8] });
    assert_eq!(r.err(), Some(PieceError::InvalidBlock));
}

#[test]
fn an_overrunning_block_is_kept_and_fails_at_verify() {
    let mut piece = Piece::new_unverified(0, [0u8; 20], 16);
    // the block reaches past the piece's end: it is still appended
    piece
        .add_block(Block { piece_index: 0, begin: 8, data: vec![0; 16] })
        .unwrap();
    assert!(piece.is_all_blocks_received());
    // but it cannot be placed in the 16-byte buffer
    assert_eq!(piece.verify().err(), Some(PieceError::InvalidBlock));
}

#[test]
fn overlapping_blocks_overwrite_in_arrival_order() {
    let mut expected = vec![7u8; 16];
    for i in 4..12 {
        expected[i] = 5;
    }
    let hash: [u8; 20] = Sha1::digest(expected.as_slice()).into();
    let mut piece = Piece::new_unverified(0, hash, 16);
    piece
        .add_block(Block { piece_index: 0, begin: 0, data: vec![7; 16] })
        .unwrap();
    piece
        .add_block(Block { piece_index: 0, begin: 4, data: vec![5; 8] })
        .unwrap();
    assert_eq!(piece.verify().unwrap(), expected);
}
