use sha1::{Digest, Sha1};
use torrent_core::bencode::BencodeValue;
use torrent_core::torrent::{MetainfoError, MetainfoField, Torrent};

fn sha1_of(data: &[u8]) -> Vec<u8> {
    Sha1::digest(data).to_vec()
}

fn piece_hashes(data: &[u8], piece_length: usize) -> Vec<u8> {
    let mut out = Vec::new();
    for chunk in data.chunks(piece_length) {
        out.extend_from_slice(&sha1_of(chunk));
    }
    out
}

fn single_file_info(name: &str, length: i64, piece_length: i64, pieces: Vec<u8>) -> BencodeValue {
    BencodeValue::Dictionary(vec![
        (b"length".to_vec(), BencodeValue::Integer(length)),
        (b"name".to_vec(), BencodeValue::Bytes(name.as_bytes().to_vec())),
        (b"piece length".to_vec(), BencodeValue::Integer(piece_length)),
        (b"pieces".to_vec(), BencodeValue::Bytes(pieces)),
    ])
}

fn torrent_bytes(announce: &str, info: BencodeValue) -> Vec<u8> {
    BencodeValue::Dictionary(vec![
        (b"announce".to_vec(), BencodeValue::Bytes(announce.as_bytes().to_vec())),
        (b"info".to_vec(), info),
    ])
    .encode()
}

fn sample_single_file() -> (Vec<u8>, Vec<u8>) {
    // 100 payload bytes, 40-byte pieces.
    let data: Vec<u8> = (0u8..100).collect();
    let pieces = piece_hashes(&data, 40);
    let bytes = torrent_bytes(
        "http://tracker.example/announce",
        single_file_info("file.bin", 100, 40, pieces),
    );
    (bytes, data)
}

#[test]
fn from_bytes_reads_single_file_fields() {
    let (bytes, _) = sample_single_file();
    let t = Torrent::from_bytes(&bytes).expect("valid torrent");
    assert_eq!(t.announce, "http://tracker.example/announce");
    assert_eq!(t.name, "file.bin");
    assert_eq!(t.piece_length, 40);
    assert_eq!(t.length, 100);
    assert!(t.files.is_none());
    assert_eq!(t.pieces.len(), 3);
    assert_eq!(t.info_hash.len(), 20);
}

#[test]
fn piece_math_boundary() {
    // total_length = 100, piece_length = 40: three pieces, the last 20 bytes.
    let (bytes, _) = sample_single_file();
    let t = Torrent::from_bytes(&bytes).unwrap();
    assert_eq!(t.pieces.len(), 3);
    assert_eq!(t.length - (t.pieces.len() - 1) * t.piece_length, 20);
}

#[test]
fn fingerprint_is_sha1_of_info_subtree() {
    let (bytes, _) = sample_single_file();
    let t = Torrent::from_bytes(&bytes).unwrap();
    let data: Vec<u8> = (0u8..100).collect();
    let info = single_file_info("file.bin", 100, 40, piece_hashes(&data, 40));
    assert_eq!(t.info_hash, sha1_of(&info.encode()));
}

#[test]
fn fingerprint_stable_across_decodes_and_key_order() {
    let data: Vec<u8> = (7u8..107).collect();
    let pieces = piece_hashes(&data, 40);
    let info = || single_file_info("x", 100, 40, pieces.clone());
    // The same info under differently arranged top-level keys.
    let a = BencodeValue::Dictionary(vec![
        (b"announce".to_vec(), BencodeValue::Bytes(b"http://a".to_vec())),
        (b"info".to_vec(), info()),
    ])
    .encode();
    let b = BencodeValue::Dictionary(vec![
        (b"announce".to_vec(), BencodeValue::Bytes(b"http://b/other".to_vec())),
        (b"comment".to_vec(), BencodeValue::Bytes(b"unrelated".to_vec())),
        (b"info".to_vec(), info()),
    ])
    .encode();
    let h1 = Torrent::extract_info_hash(&a).unwrap();
    let h1_again = Torrent::extract_info_hash(&a).unwrap();
    let h2 = Torrent::extract_info_hash(&b).unwrap();
    assert_eq!(h1, h1_again);
    assert_eq!(h1, h2);
}

#[test]
fn multi_file_lengths_sum() {
    // Files of 10, 25 and 5 bytes under 16-byte pieces.
    let data: Vec<u8> = (0u8..40).collect();
    let pieces = piece_hashes(&data, 16);
    let file = |name: &str, len: i64| {
        BencodeValue::Dictionary(vec![
            (b"length".to_vec(), BencodeValue::Integer(len)),
            (
                b"path".to_vec(),
                BencodeValue::List(vec![BencodeValue::Bytes(name.as_bytes().to_vec())]),
            ),
        ])
    };
    let info = BencodeValue::Dictionary(vec![
        (
            b"files".to_vec(),
            BencodeValue::List(vec![file("a", 10), file("b", 25), file("c", 5)]),
        ),
        (b"name".to_vec(), BencodeValue::Bytes(b"root".to_vec())),
        (b"piece length".to_vec(), BencodeValue::Integer(16)),
        (b"pieces".to_vec(), BencodeValue::Bytes(pieces)),
    ]);
    let bytes = torrent_bytes("http://t", info);
    let t = Torrent::from_bytes(&bytes).unwrap();
    assert_eq!(t.length, 40);
    let files = t.files.as_ref().unwrap();
    assert_eq!(files.len(), 3);
    assert_eq!(files[0].path, vec!["a".to_string()]);
    assert_eq!(files[0].length, 10);
    assert_eq!(files[1].length, 25);
    assert_eq!(files[2].length, 5);
    assert_eq!(t.pieces.len(), 3);
}

#[test]
fn rejects_missing_announce() {
    let data: Vec<u8> = (0u8..10).collect();
    let info = single_file_info("f", 10, 10, piece_hashes(&data, 10));
    let bytes = BencodeValue::Dictionary(vec![(b"info".to_vec(), info)]).encode();
    assert_eq!(
        Torrent::from_bytes(&bytes).unwrap_err(),
        MetainfoError::Missing(MetainfoField::Announce)
    );
}

#[test]
fn rejects_pieces_not_multiple_of_twenty() {
    let info = BencodeValue::Dictionary(vec![
        (b"length".to_vec(), BencodeValue::Integer(10)),
        (b"name".to_vec(), BencodeValue::Bytes(b"f".to_vec())),
        (b"piece length".to_vec(), BencodeValue::Integer(10)),
        (b"pieces".to_vec(), BencodeValue::Bytes(vec![0u8; 19])),
    ]);
    let bytes = torrent_bytes("http://t", info);
    assert_eq!(
        Torrent::from_bytes(&bytes).unwrap_err(),
        MetainfoError::Malformed(MetainfoField::Pieces)
    );
}

#[test]
fn rejects_wrong_piece_count() {
    // 100 bytes at piece length 40 needs 3 digests, not 2.
    let info = single_file_info("f", 100, 40, vec![0u8; 40]);
    let bytes = torrent_bytes("http://t", info);
    assert_eq!(
        Torrent::from_bytes(&bytes).unwrap_err(),
        MetainfoError::Malformed(MetainfoField::Pieces)
    );
}

#[test]
fn rejects_nonpositive_piece_length() {
    let info = single_file_info("f", 10, 0, vec![0u8; 20]);
    let bytes = torrent_bytes("http://t", info);
    assert_eq!(
        Torrent::from_bytes(&bytes).unwrap_err(),
        MetainfoError::Malformed(MetainfoField::PieceLength)
    );
}

#[test]
fn rejects_syntax_errors() {
    assert!(matches!(
        Torrent::from_bytes(b"not bencode"),
        Err(MetainfoError::Syntax(_))
    ));
}

#[test]
fn extractors_agree_with_from_bytes() {
    let (bytes, _) = sample_single_file();
    let t = Torrent::from_bytes(&bytes).unwrap();
    assert_eq!(Torrent::extract_announce(&bytes).unwrap(), t.announce);
    assert_eq!(Torrent::extract_name(&bytes).unwrap(), t.name);
    assert_eq!(Torrent::extract_piece_length(&bytes).unwrap(), t.piece_length);
    assert_eq!(Torrent::extract_length(&bytes).unwrap(), t.length);
    assert_eq!(Torrent::extract_pieces(&bytes).unwrap(), t.pieces);
    assert_eq!(Torrent::extract_info_hash(&bytes).unwrap(), t.info_hash);
    assert!(Torrent::extract_files(&bytes).unwrap().is_none());
}

#[test]
fn encode_bencode_appends() {
    let mut buf = vec![1u8, 2u8];
    Torrent::encode_bencode(&BencodeValue::Integer(5), &mut buf).unwrap();
    assert_eq!(buf, vec![1u8, 2u8, b'i', b'5', b'e']);
}
