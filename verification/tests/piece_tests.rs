use sha1::{Digest, Sha1};
use torrent_core::piece_manager::{
    Block, BlockFault, BlockInfo, Piece, PieceError, PieceState, BLOCK_SIZE,
    MAX_PENDING_REQUESTS, REQUEST_TIMEOUT,
};

fn sha1_of(data: &[u8]) -> Vec<u8> {
    Sha1::digest(data).to_vec()
}

fn block(piece_index: usize, begin: usize, data: Vec<u8>, at: u64) -> Block {
    let length = data.len();
    Block { info: BlockInfo::new(piece_index, begin, length), data, received_at: at }
}

#[test]
fn new_covers_piece_with_blocks() {
    // 40000 bytes: blocks of 16384, 16384 and 7232.
    let p = Piece::new(3, 40000, vec![0u8; 20]);
    assert_eq!(p.state, PieceState::Pending);
    assert_eq!(p.missing_blocks.len(), 3);
    assert_eq!(p.missing_blocks[0], BlockInfo::new(3, 0, BLOCK_SIZE));
    assert_eq!(p.missing_blocks[1], BlockInfo::new(3, BLOCK_SIZE, BLOCK_SIZE));
    assert_eq!(p.missing_blocks[2], BlockInfo::new(3, 2 * BLOCK_SIZE, 40000 - 2 * BLOCK_SIZE));
    assert!(p.blocks.is_empty());
    assert!(p.requested_blocks.is_empty());
}

#[test]
fn small_piece_is_one_block() {
    let p = Piece::new(0, 100, vec![0u8; 20]);
    assert_eq!(p.missing_blocks.len(), 1);
    assert_eq!(p.missing_blocks[0], BlockInfo::new(0, 0, 100));
}

#[test]
fn requests_move_blocks_and_respect_cap() {
    // 20 blocks declared; only MAX_PENDING_REQUESTS go out at once.
    let length = 20 * BLOCK_SIZE;
    let mut p = Piece::new(0, length, vec![0u8; 20]);
    let mut handed = Vec::new();
    for _ in 0..MAX_PENDING_REQUESTS {
        handed.push(p.get_next_block_request(1000).expect("one more below the cap"));
    }
    assert_eq!(p.requested_blocks.len(), MAX_PENDING_REQUESTS);
    assert!(p.get_next_block_request(1000).is_none());
    assert_eq!(p.missing_blocks.len(), 20 - MAX_PENDING_REQUESTS);
    for (i, b) in handed.iter().enumerate() {
        assert_eq!(*b, BlockInfo::new(0, i * BLOCK_SIZE, BLOCK_SIZE));
    }
}

#[test]
fn timed_out_request_is_reissued() {
    let mut p = Piece::new(0, 100, vec![0u8; 20]);
    let b = p.get_next_block_request(0).unwrap();
    assert_eq!(b, BlockInfo::new(0, 0, 100));
    // While the request is fresh there is nothing to hand out.
    assert!(p.get_next_block_request(REQUEST_TIMEOUT).is_none());
    // One past the timeout the block is missing again and goes out anew.
    let again = p.get_next_block_request(REQUEST_TIMEOUT + 2).unwrap();
    assert_eq!(again, b);
    assert_eq!(p.requested_blocks.len(), 1);
    assert_eq!(p.requested_blocks[0], (b, REQUEST_TIMEOUT + 2));
}

#[test]
fn ingest_validates_block() {
    let mut p = Piece::new(2, 100, vec![0u8; 20]);
    let wrong_piece = block(3, 0, vec![1; 10], 5);
    assert_eq!(
        p.add_block(wrong_piece).unwrap_err(),
        PieceError::InvalidBlock(BlockFault::WrongPiece)
    );
    let oversize = block(2, 96, vec![1; 10], 5);
    assert_eq!(
        p.add_block(oversize).unwrap_err(),
        PieceError::InvalidBlock(BlockFault::OutOfBounds)
    );
    assert!(p.blocks.is_empty());
}

#[test]
fn ingest_is_idempotent() {
    // Re-delivering an already-received block is not a failure and leaves
    // the map with one block at the offset, holding the delivered bytes.
    let data: Vec<u8> = (0u8..100).collect();
    let mut p = Piece::new(0, 100, sha1_of(&data));
    let _ = p.get_next_block_request(0).unwrap();
    assert!(p.add_block(block(0, 0, data.clone(), 1)).is_ok());
    assert_eq!(p.blocks.len(), 1);
    assert_eq!(p.state, PieceState::Complete);
    assert!(p.add_block(block(0, 0, data.clone(), 2)).is_ok());
    assert_eq!(p.blocks.len(), 1);
    assert_eq!(p.blocks[0].data, data);
    assert_eq!(p.state, PieceState::Complete);
}

#[test]
fn redelivery_replaces_block_at_offset() {
    // A second block at an already-filled offset replaces the stored one,
    // as a map insert does.
    let good: Vec<u8> = (0u8..100).collect();
    let bad: Vec<u8> = vec![0xEE; 100];
    let mut p = Piece::new(0, 100, sha1_of(&good));
    let _ = p.get_next_block_request(0).unwrap();
    p.add_block(block(0, 0, bad, 1)).unwrap();
    assert!(!p.verify_hash(&p.assemble_piece().unwrap()));
    p.add_block(block(0, 0, good.clone(), 2)).unwrap();
    assert_eq!(p.blocks.len(), 1);
    assert_eq!(p.blocks[0].data, good);
    assert_eq!(p.blocks[0].received_at, 2);
    assert!(p.verify_hash(&p.assemble_piece().unwrap()));
}

#[test]
fn completion_needs_all_bytes() {
    let length = BLOCK_SIZE + 100;
    let data: Vec<u8> = (0..length).map(|i| (i % 256) as u8).collect();
    let mut p = Piece::new(0, length, sha1_of(&data));
    let b1 = p.get_next_block_request(0).unwrap();
    let b2 = p.get_next_block_request(0).unwrap();
    assert!(!p.is_complete());
    p.add_block(block(0, b2.begin, data[b2.begin..b2.begin + b2.length].to_vec(), 1)).unwrap();
    assert!(!p.is_complete());
    assert_eq!(p.state, PieceState::Pending);
    p.add_block(block(0, b1.begin, data[b1.begin..b1.begin + b1.length].to_vec(), 2)).unwrap();
    assert!(p.is_complete());
    assert_eq!(p.state, PieceState::Complete);
}

#[test]
fn assemble_orders_blocks_by_offset() {
    let length = BLOCK_SIZE + 100;
    let data: Vec<u8> = (0..length).map(|i| (i * 3 % 256) as u8).collect();
    let mut p = Piece::new(0, length, sha1_of(&data));
    let b1 = p.get_next_block_request(0).unwrap();
    let b2 = p.get_next_block_request(0).unwrap();
    // Deliver in reverse order; assembly is addressed by offset.
    p.add_block(block(0, b2.begin, data[b2.begin..b2.begin + b2.length].to_vec(), 1)).unwrap();
    p.add_block(block(0, b1.begin, data[b1.begin..b1.begin + b1.length].to_vec(), 2)).unwrap();
    assert_eq!(p.assemble_piece().unwrap(), data);
    assert!(p.verify_hash(&data));
    assert!(!p.verify_hash(&vec![0u8; length]));
}

#[test]
fn assemble_requires_completion() {
    let p = Piece::new(0, 100, vec![0u8; 20]);
    assert_eq!(p.assemble_piece().unwrap_err(), PieceError::PieceNotComplete);
}

#[test]
fn reset_repopulates_missing() {
    let data: Vec<u8> = (0u8..100).collect();
    let mut p = Piece::new(0, 100, sha1_of(&data));
    let _ = p.get_next_block_request(7).unwrap();
    p.add_block(block(0, 0, data, 8)).unwrap();
    assert_eq!(p.state, PieceState::Complete);
    p.reset();
    assert_eq!(p.state, PieceState::Pending);
    assert!(p.blocks.is_empty());
    assert!(p.requested_blocks.is_empty());
    assert_eq!(p.missing_blocks, vec![BlockInfo::new(0, 0, 100)]);
    assert!(p.download_start.is_none());
    assert!(p.download_complete.is_none());
}
