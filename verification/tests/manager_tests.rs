use sha1::{Digest, Sha1};
use torrent_core::block_manager::{BlockManager, DownloadError, DownloadStats};
use torrent_core::files::FileStorage;
use torrent_core::piece_manager::{Block, PieceState};
use torrent_core::torrent::Torrent;

fn sha1_of(data: &[u8]) -> Vec<u8> {
    Sha1::digest(data).to_vec()
}

fn payload(n: usize) -> Vec<u8> {
    (0..n).map(|i| (i * 13 % 251) as u8).collect()
}

/// A three-piece single-file torrent with multi-block pieces: 100000 bytes
/// under 40000-byte pieces.
fn three_piece_setup() -> (Torrent, Vec<u8>) {
    let data = payload(100000);
    let torrent = Torrent {
        announce: "http://tracker.example".to_string(),
        info_hash: vec![7u8; 20],
        piece_length: 40000,
        pieces: data.chunks(40000).map(|c| sha1_of(c)).collect(),
        name: "file.bin".to_string(),
        length: 100000,
        files: None,
    };
    (torrent, data)
}

fn fresh_manager() -> (BlockManager, Vec<u8>) {
    let (torrent, data) = three_piece_setup();
    let storage = FileStorage::from(torrent.clone(), "dl".to_string());
    (BlockManager::new(torrent, storage), data)
}

#[test]
fn new_queues_all_pieces_when_storage_is_empty() {
    let (mut m, _) = fresh_manager();
    assert_eq!(m.stats.total_pieces, 3);
    assert_eq!(m.stats.verified_pieces, 0);
    assert_eq!(m.get_missing_piece_count(), 3);
    assert!(!m.is_download_complete());
    assert_eq!(m.get_next_piece_to_download(), Some(0));
    assert_eq!(m.get_next_piece_to_download(), Some(1));
    assert_eq!(m.get_next_piece_to_download(), Some(2));
    assert_eq!(m.get_next_piece_to_download(), None);
}

#[test]
fn full_download_any_order() {
    // Correct blocks delivered with pieces and blocks out of order: after
    // the last block everything is verified and the bytes sit in storage.
    let (mut m, data) = fresh_manager();
    let mut now: u64 = 1;
    for &piece in &[1usize, 2, 0] {
        let mut requests = Vec::new();
        while let Some(b) = m.get_next_block_request(piece, now) {
            requests.push(b);
        }
        requests.reverse();
        for info in requests {
            let lo = piece * 40000 + info.begin;
            let block = Block {
                info,
                data: data[lo..lo + info.length].to_vec(),
                received_at: now,
            };
            now += 1;
            m.handle_block_received(block).unwrap();
        }
        assert_eq!(m.get_piece_state(piece), Some(PieceState::Verified));
        assert!(m.has_piece(piece));
    }
    assert!(m.is_download_complete());
    let stats: DownloadStats = m.get_stats();
    assert_eq!(stats.verified_pieces, 3);
    assert_eq!(stats.failed_pieces, 0);
    assert_eq!(m.get_missing_piece_count(), 0);
    // The assembled payload is in storage, piece by piece, and the single
    // output file holds exactly the payload.
    for i in 0..3usize {
        let lo = i * 40000;
        let hi = (lo + 40000).min(100000);
        assert_eq!(m.storage.read_piece(i).unwrap(), data[lo..hi].to_vec());
    }
    assert_eq!(m.storage.contents[0], data);
}

#[test]
fn hash_rejection_resets_and_requeues() {
    // Ingest all blocks of piece 0 with data whose digest is wrong: the
    // piece goes Complete, fails verification, is reset to Pending, the
    // failure is counted, the index re-enters the queue, and no bytes reach
    // storage.
    let (mut m, _) = fresh_manager();
    assert_eq!(m.get_next_piece_to_download(), Some(0));
    let mut requests = Vec::new();
    while let Some(b) = m.get_next_block_request(0, 1) {
        requests.push(b);
    }
    assert_eq!(m.get_piece_state(0), Some(PieceState::InProgress));
    let n = requests.len();
    for (k, info) in requests.into_iter().enumerate() {
        let bogus = Block { info, data: vec![0xEEu8; info.length], received_at: 2 };
        let r = m.handle_block_received(bogus);
        if k + 1 < n {
            r.unwrap();
        } else {
            assert_eq!(r.unwrap_err(), DownloadError::HashMismatch(0));
        }
    }
    assert_eq!(m.get_piece_state(0), Some(PieceState::Pending));
    assert_eq!(m.stats.failed_pieces, 1);
    assert!(!m.has_piece(0));
    assert!(m.storage.read_piece(0).is_err());
    // Piece 0 is back in the queue after the two still-pending ones.
    assert_eq!(m.get_next_piece_to_download(), Some(1));
    assert_eq!(m.get_next_piece_to_download(), Some(2));
    assert_eq!(m.get_next_piece_to_download(), Some(0));
}

#[test]
fn resume_marks_stored_pieces_verified() {
    // A download directory already holding the verified bytes of pieces 0
    // and 2 resumes with exactly those Verified, without any block traffic.
    let (torrent, data) = three_piece_setup();
    let mut storage = FileStorage::from(torrent.clone(), "dl".to_string());
    storage.write_piece(0, &data[0..40000]).unwrap();
    storage.write_piece(2, &data[80000..100000]).unwrap();
    let mut m = BlockManager::new(torrent, storage);
    assert_eq!(m.get_piece_state(0), Some(PieceState::Verified));
    assert_eq!(m.get_piece_state(1), Some(PieceState::Pending));
    assert_eq!(m.get_piece_state(2), Some(PieceState::Verified));
    assert_eq!(m.stats.verified_pieces, 2);
    assert_eq!(m.get_missing_piece_count(), 1);
    assert_eq!(m.get_next_piece_to_download(), Some(1));
    assert_eq!(m.get_next_piece_to_download(), None);
}

#[test]
fn invalid_blocks_are_rejected_and_not_credited() {
    let (mut m, data) = fresh_manager();
    // Unknown piece index.
    let stray = Block {
        info: torrent_core::piece_manager::BlockInfo::new(9, 0, 4),
        data: vec![1, 2, 3, 4],
        received_at: 1,
    };
    assert_eq!(m.handle_block_received(stray).unwrap_err(), DownloadError::InvalidPieceIndex);
    // A block reaching past its piece.
    let oversize = Block {
        info: torrent_core::piece_manager::BlockInfo::new(2, 19999, 2),
        data: vec![0, 0],
        received_at: 1,
    };
    match m.handle_block_received(oversize).unwrap_err() {
        DownloadError::InvalidBlock(_) => {}
        other => panic!("expected an invalid-block failure, got {:?}", other),
    }
    assert_eq!(m.stats.downloaded_bytes, 0);
    // A well-formed block is credited.
    let info = m.get_next_block_request(0, 5).unwrap();
    let fine = Block { info, data: data[0..info.length].to_vec(), received_at: 6 };
    m.handle_block_received(fine).unwrap();
    assert_eq!(m.stats.downloaded_bytes, info.length);
    assert_eq!(m.stats.last_update, Some(6));
}

#[test]
fn eta_comes_from_rate_and_remaining() {
    let stats = DownloadStats {
        total_pieces: 4,
        completed_pieces: 1,
        verified_pieces: 1,
        failed_pieces: 0,
        total_bytes: 4000,
        downloaded_bytes: 1000,
        download_start: Some(0),
        last_update: Some(10_000),
        ..Default::default()
    };
    // 1000 bytes in 10 s is 100 bytes/s; 3000 bytes remain: 30 s.
    assert_eq!(stats.eta_seconds(), Some(30));
    let idle = DownloadStats::default();
    assert_eq!(idle.eta_seconds(), None);
}
