use sha1::{Digest, Sha1};
use torrent_core::files::{FileStorage, StorageError};
use torrent_core::torrent::{Torrent, TorrentFile};

fn sha1_of(data: &[u8]) -> Vec<u8> {
    Sha1::digest(data).to_vec()
}

fn hashes(data: &[u8], piece_length: usize) -> Vec<Vec<u8>> {
    data.chunks(piece_length).map(sha1_of).collect()
}

fn payload(n: usize) -> Vec<u8> {
    (0..n).map(|i| (i * 7 % 251) as u8).collect()
}

fn single_file_torrent(total: usize, piece_length: usize, data: &[u8]) -> Torrent {
    Torrent {
        announce: "http://tracker.example".to_string(),
        info_hash: vec![9u8; 20],
        piece_length,
        pieces: hashes(data, piece_length),
        name: "file.bin".to_string(),
        length: total,
        files: None,
    }
}

/// The multi-file layout of the offset example: files of 10, 25 and 5 bytes
/// under 16-byte pieces.
fn multi_file_torrent(data: &[u8]) -> Torrent {
    Torrent {
        announce: "http://tracker.example".to_string(),
        info_hash: vec![9u8; 20],
        piece_length: 16,
        pieces: hashes(data, 16),
        name: "root".to_string(),
        length: 40,
        files: Some(vec![
            TorrentFile { path: vec!["a".to_string()], length: 10 },
            TorrentFile { path: vec!["b".to_string()], length: 25 },
            TorrentFile { path: vec!["c".to_string()], length: 5 },
        ]),
    }
}

#[test]
fn file_map_single_file() {
    let data = payload(100);
    let t = single_file_torrent(100, 40, &data);
    let s = FileStorage::from(t, "dl".to_string());
    assert_eq!(s.file_map.len(), 1);
    assert_eq!(s.file_map[0].path, vec!["dl".to_string(), "file.bin".to_string()]);
    assert_eq!(s.file_map[0].start_offset, 0);
    assert_eq!(s.file_map[0].length, 100);
    assert!(!s.file_map[0].is_complete);
    assert_eq!(s.get_total_bytes(), 100);
    assert_eq!(s.get_download_dir(), "dl");
}

#[test]
fn file_map_multi_file_offsets() {
    let data = payload(40);
    let t = multi_file_torrent(&data);
    let s = FileStorage::from(t, "dl".to_string());
    assert_eq!(s.file_map.len(), 3);
    assert_eq!(s.file_map[0].path, vec!["dl".to_string(), "root".to_string(), "a".to_string()]);
    assert_eq!(s.file_map[0].start_offset, 0);
    assert_eq!(s.file_map[1].start_offset, 10);
    assert_eq!(s.file_map[2].start_offset, 35);
}

#[test]
fn multi_file_offset_coverage() {
    // Piece 0 bytes [0,16) affect (a, 0, 10) and (b, 0, 6); piece 1 bytes
    // [16,32) affect (b, 6, 25) and (c, 0, 7); piece 2 bytes [32,40) affect
    // (c, 7, 5) and stop at the total length.
    let data = payload(40);
    let t = multi_file_torrent(&data);
    let s = FileStorage::from(t, "dl".to_string());
    // Triples are (mapping index, overlap start, overlap end) in piece
    // space; the per-file window of file i is the overlap shifted by its
    // start offset.
    let p0 = s.get_affected_files(0, 16);
    assert_eq!(p0, vec![(0usize, 0usize, 10usize), (1usize, 10usize, 16usize)]);
    let p1 = s.get_affected_files(16, 32);
    assert_eq!(p1, vec![(1usize, 16usize, 32usize)]);
    let p2 = s.get_affected_files(32, 40);
    assert_eq!(p2, vec![(1usize, 32usize, 35usize), (2usize, 35usize, 40usize)]);
    // In file-b coordinates piece 1 covers [6, 22) of b, inside (b, 6, 25).
    assert_eq!(p1[0].1 - s.file_map[1].start_offset, 6);
    assert_eq!(p1[0].2 - s.file_map[1].start_offset, 22);
}

#[test]
fn write_then_read_identity() {
    let data = payload(100);
    let t = single_file_torrent(100, 40, &data);
    let mut s = FileStorage::from(t, "dl".to_string());
    for i in 0..3usize {
        let lo = i * 40;
        let hi = (lo + 40).min(100);
        s.write_piece(i, &data[lo..hi]).unwrap();
        assert_eq!(s.read_piece(i).unwrap(), data[lo..hi].to_vec());
    }
}

#[test]
fn write_then_read_identity_multi_file() {
    let data = payload(40);
    let t = multi_file_torrent(&data);
    let mut s = FileStorage::from(t, "dl".to_string());
    // Write out of order.
    for &i in &[2usize, 0, 1] {
        let lo = i * 16;
        let hi = (lo + 16).min(40);
        s.write_piece(i, &data[lo..hi]).unwrap();
    }
    for i in 0..3usize {
        let lo = i * 16;
        let hi = (lo + 16).min(40);
        assert_eq!(s.read_piece(i).unwrap(), data[lo..hi].to_vec());
    }
    // The file buffers match the concatenation.
    assert_eq!(s.contents[0], data[0..10].to_vec());
    assert_eq!(s.contents[1], data[10..35].to_vec());
    assert_eq!(s.contents[2], data[35..40].to_vec());
}

#[test]
fn write_rejects_wrong_hash_and_writes_nothing() {
    let data = payload(100);
    let t = single_file_torrent(100, 40, &data);
    let mut s = FileStorage::from(t, "dl".to_string());
    let bogus = vec![0xAAu8; 40];
    assert_eq!(s.write_piece(0, &bogus).unwrap_err(), StorageError::HashMismatch(0));
    assert!(s.read_piece(0).is_err());
}

#[test]
fn write_rejects_bad_index() {
    let data = payload(100);
    let t = single_file_torrent(100, 40, &data);
    let mut s = FileStorage::from(t, "dl".to_string());
    assert_eq!(s.write_piece(3, &data[0..40]).unwrap_err(), StorageError::InvalidPieceIndex);
}

#[test]
fn read_missing_file_reports_short_file() {
    let data = payload(100);
    let t = single_file_torrent(100, 40, &data);
    let s = FileStorage::from(t, "dl".to_string());
    match s.read_piece(0) {
        Err(StorageError::MissingOrShortFile(i)) => assert_eq!(i, 0),
        other => panic!("expected a short-file failure, got {:?}", other),
    }
}

#[test]
fn is_piece_complete_drives_resume() {
    let data = payload(100);
    let t = single_file_torrent(100, 40, &data);
    let mut s = FileStorage::from(t, "dl".to_string());
    assert_eq!(s.is_piece_complete(0).unwrap(), false);
    s.write_piece(0, &data[0..40]).unwrap();
    assert_eq!(s.is_piece_complete(0).unwrap(), true);
    assert_eq!(s.is_piece_complete(1).unwrap(), false);
    let (complete, total) = s.get_completion_status().unwrap();
    assert_eq!((complete, total), (1, 3));
    assert_eq!(s.get_missing_pieces().unwrap(), vec![1usize, 2usize]);
}

#[test]
fn restore_file_keeps_partial_bytes() {
    // A partial copy found on disk resumes: the full first piece verifies,
    // the truncated rest does not.
    let data = payload(100);
    let t = single_file_torrent(100, 40, &data);
    let mut s = FileStorage::from(t, "dl".to_string());
    s.restore_file(0, data[0..60].to_vec());
    assert!(!s.file_map[0].is_complete);
    assert_eq!(s.is_piece_complete(0).unwrap(), true);
    assert_eq!(s.is_piece_complete(1).unwrap(), false);
    // A full copy marks the mapping complete and every piece verifies.
    s.restore_file(0, data.clone());
    assert!(s.file_map[0].is_complete);
    let (complete, total) = s.get_completion_status().unwrap();
    assert_eq!((complete, total), (3, 3));
}

#[test]
fn verify_piece_hash_checks_digest() {
    let data = payload(100);
    let t = single_file_torrent(100, 40, &data);
    let s = FileStorage::from(t, "dl".to_string());
    assert_eq!(s.verify_piece_hash(0, &data[0..40]).unwrap(), true);
    assert_eq!(s.verify_piece_hash(0, &data[40..80]).unwrap(), false);
    assert!(s.verify_piece_hash(9, &data[0..40]).is_err());
}

#[test]
fn sparse_write_zero_fills_gap() {
    // Writing piece 1 before piece 0 extends the file with zeros below it.
    let data = payload(100);
    let t = single_file_torrent(100, 40, &data);
    let mut s = FileStorage::from(t, "dl".to_string());
    s.write_piece(1, &data[40..80]).unwrap();
    assert_eq!(s.contents[0].len(), 80);
    assert_eq!(&s.contents[0][0..40], &vec![0u8; 40][..]);
    assert_eq!(&s.contents[0][40..80], &data[40..80]);
}
