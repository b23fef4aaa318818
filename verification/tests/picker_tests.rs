use bitdrift::{BitField, BlockInfo, BlockState, PiecePicker, BLOCK_SIZE};

#[test]
fn block_info_new_index_and_matching() {
    let b = BlockInfo::new(3, 2 * BLOCK_SIZE, 1000);
    assert_eq!(b.piece_index, 3);
    assert_eq!(b.begin, 2 * BLOCK_SIZE);
    assert_eq!(b.length, 1000);
    assert_eq!(b.state, BlockState::NotRequested);
    assert_eq!(b.index(), 2);

    let same = BlockInfo::new(3, 2 * BLOCK_SIZE, 1000);
    let other = BlockInfo::new(3, 2 * BLOCK_SIZE, 999);
    assert!(b.is_same_block(&same));
    assert!(!b.is_same_block(&other));
}

#[test]
fn picker_hands_out_blocks_in_order_and_marks_them_requested() {
    // two pieces of 32768, one truncated piece of 8192
    let total: u32 = 2 * 32768 + 8192;
    let mut picker = PiecePicker::new(BitField::repeat(false, 3), total, 32768);
    let peer = BitField::repeat(true, 3);

    let picks: Vec<BlockInfo> = (0..5).map(|_| picker.pick_block(&peer).unwrap()).collect();
    let coords: Vec<(u32, u32, u32)> =
        picks.iter().map(|b| (b.piece_index, b.begin, b.length)).collect();
    assert_eq!(
        coords,
        vec![
            (0, 0, 16384),
            (0, 16384, 16384),
            (1, 0, 16384),
            (1, 16384, 16384),
            (2, 0, 8192),
        ]
    );
    for b in &picks {
        assert_eq!(b.state, BlockState::Requested);
    }
    assert!(picker.pick_block(&peer).is_none());
}

#[test]
fn picker_skips_pieces_the_peer_lacks() {
    let total: u32 = 2 * 16384;
    let mut picker = PiecePicker::new(BitField::repeat(false, 2), total, 16384);
    let mut peer = BitField::repeat(false, 2);
    peer.set(1, true);

    let b = picker.pick_block(&peer).unwrap();
    assert_eq!(b.piece_index, 1);
    assert!(picker.pick_block(&peer).is_none());
}

#[test]
fn picker_skips_pieces_already_owned() {
    let total: u32 = 2 * 16384;
    let mut owned = BitField::repeat(false, 2);
    owned.set(0, true);
    let mut picker = PiecePicker::new(owned, total, 16384);
    let peer = BitField::repeat(true, 2);

    let b = picker.pick_block(&peer).unwrap();
    assert_eq!(b.piece_index, 1);
    assert!(picker.pick_block(&peer).is_none());
}

#[test]
fn mark_received_completes_a_piece_and_sets_its_bit() {
    let total: u32 = 32768 + 16384;
    let mut picker = PiecePicker::new(BitField::repeat(false, 2), total, 32768);

    picker.mark_received(&BlockInfo::new(0, 0, 16384));
    let owned = picker.owned_bitfield();
    assert!(!owned.get(0));

    picker.mark_received(&BlockInfo::new(0, 16384, 16384));
    let owned = picker.owned_bitfield();
    assert!(owned.get(0));
    assert!(!owned.get(1));

    picker.mark_received(&BlockInfo::new(1, 0, 16384));
    let owned = picker.owned_bitfield();
    assert!(owned.get(1));
}

#[test]
fn mark_received_ignores_unknown_blocks() {
    let total: u32 = 16384;
    let mut picker = PiecePicker::new(BitField::repeat(false, 1), total, 16384);
    // wrong length: no record matches, nothing completes
    picker.mark_received(&BlockInfo::new(0, 0, 1000));
    assert!(!picker.owned_bitfield().get(0));
}

#[test]
fn last_block_of_last_piece_is_truncated() {
    // piece length not aligned to the block size either
    let total: u32 = 16384 + 10_000;
    let mut picker = PiecePicker::new(BitField::repeat(false, 2), total, 16384);
    let peer = BitField::repeat(true, 2);

    let b0 = picker.pick_block(&peer).unwrap();
    assert_eq!((b0.piece_index, b0.begin, b0.length), (0, 0, 16384));
    let b1 = picker.pick_block(&peer).unwrap();
    assert_eq!((b1.piece_index, b1.begin, b1.length), (1, 0, 10_000));
    assert!(picker.pick_block(&peer).is_none());
}
