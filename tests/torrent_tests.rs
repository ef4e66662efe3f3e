use bittorrent::error::Error;
use bittorrent::torrent::{parse_info, parse_torrent, PieceInfo, TorrentInfo, TorrentType};
use sha1::{Digest, Sha1};

fn bencoded_torrent(announce: &str, name: &str, length: u64, piece_length: u64, pieces: &[u8]) -> Vec<u8> {
    let mut out = Vec::new();
    out.extend_from_slice(format!("d8:announce{}:{}4:infod", announce.len(), announce).as_bytes());
    out.extend_from_slice(format!("6:lengthi{}e4:name{}:{}", length, name.len(), name).as_bytes());
    out.extend_from_slice(format!("12:piece lengthi{}e6:pieces{}:", piece_length, pieces.len()).as_bytes());
    out.extend_from_slice(pieces);
    out.extend_from_slice(b"ee");
    out
}

fn sample_pieces() -> Vec<u8> {
    let mut pieces = Vec::new();
    for h in [
        "e876f67a2a8886e8f36b136726c30fa29703022d",
        "6e2275e604a0766656736e81ff10b55204ad8d35",
        "f00d937a0213df1982bc8d097227ad9e909acc17",
    ] {
        pieces.extend_from_slice(&hex::decode(h).unwrap());
    }
    pieces
}

#[test]
fn test_get_piece_info() {
    let info = TorrentInfo::new(
        "test".as_bytes().to_vec(),
        TorrentType::SingleFile { length: 100 },
        100,
        vec![[1u8; 20]],
    );
    let piece_info = info.get_piece_info(0).expect("piece 0 should exist");
    assert_eq!(PieceInfo { index: 0, length: 100, hash: [1u8; 20], file_start_pos: 0 }, piece_info);
    let piece_info = info.get_piece_info(1);
    assert!(piece_info.is_err(), "piece 1 should not exist");

    let info = TorrentInfo::new(
        "test".as_bytes().to_vec(),
        TorrentType::SingleFile { length: 101 },
        100,
        vec![[1u8; 20], [2u8; 20]],
    );
    let piece_info = info.get_piece_info(0).expect("piece 0 should exist");
    assert_eq!(PieceInfo { index: 0, length: 100, hash: [1u8; 20], file_start_pos: 0 }, piece_info);
    let piece_info = info.get_piece_info(1).expect("piece 1 should exist");
    assert_eq!(PieceInfo { index: 1, length: 1, hash: [2u8; 20], file_start_pos: 100 }, piece_info);
    let piece_info = info.get_piece_info(2);
    assert!(piece_info.is_err(), "piece 2 should not exist");
    assert_eq!(Err(Error::OutOfRange), info.get_piece_info(2));
}

#[test]
fn all_pieces_of_a_short_last_piece() {
    let info = TorrentInfo::new(
        "test".as_bytes().to_vec(),
        TorrentType::SingleFile { length: 101 },
        100,
        vec![[1u8; 20], [2u8; 20]],
    );
    let all = info.get_all_pieces_info();
    assert_eq!(2, all.len());
    assert_eq!(100, all[0].length);
    assert_eq!(1, all[1].length);
    assert_eq!(100, all[1].file_start_pos);
}

#[test]
fn reference_torrent_info() {
    let data = bencoded_torrent(
        "http://bittorrent-test-tracker.codecrafters.io/announce",
        "sample.txt",
        92063,
        32768,
        &sample_pieces(),
    );
    let torrent = parse_torrent(&data).unwrap();
    assert_eq!("http://bittorrent-test-tracker.codecrafters.io/announce", torrent.announce);
    assert_eq!(92063, torrent.info.get_length());
    assert_eq!(32768, torrent.info.piece_length);
    assert!(torrent.info.is_single_file());
    assert_eq!("d69f91e6b2ae4c542468d1073a71d4ea13879a7f", hex::encode(torrent.info.get_info_hash()));
    assert_eq!(
        vec![
            "e876f67a2a8886e8f36b136726c30fa29703022d".to_string(),
            "6e2275e604a0766656736e81ff10b55204ad8d35".to_string(),
            "f00d937a0213df1982bc8d097227ad9e909acc17".to_string(),
        ],
        torrent.info.get_encoded_piece_hashes()
    );
}

#[test]
fn info_hash_is_sha1_of_canonical_info() {
    let data = bencoded_torrent("http://t/a", "f", 5, 3, &[7u8; 40]);
    let torrent = parse_torrent(&data).unwrap();
    let encoded = torrent.info.encode_info();
    assert_eq!(
        b"d6:lengthi5e4:name1:f12:piece lengthi3e6:pieces40:".to_vec(),
        encoded[..encoded.len() - 41].to_vec()
    );
    let mut expected = [0u8; 20];
    expected.copy_from_slice(&Sha1::digest(&encoded));
    assert_eq!(expected, torrent.info.get_info_hash());
    assert_ne!(encoded[..20].to_vec(), torrent.info.get_info_hash().to_vec());
}

#[test]
fn info_round_trips_through_its_encoding() {
    let data = bencoded_torrent("http://t/a", "payload.bin", 70000, 32768, &[9u8; 60]);
    let torrent = parse_torrent(&data).unwrap();
    let again = parse_info(&torrent.info.encode_info()).unwrap();
    assert_eq!(torrent.info, again);
    assert_eq!(torrent.info.get_info_hash(), again.get_info_hash());
}

#[test]
fn piece_count_must_match_length() {
    let ok = bencoded_torrent("http://t/a", "f", 101, 100, &[1u8; 40]);
    let torrent = parse_torrent(&ok).unwrap();
    assert_eq!(2, torrent.info.pieces.len());
    let too_few = bencoded_torrent("http://t/a", "f", 101, 100, &[1u8; 20]);
    assert_eq!(Err(Error::Malformed), parse_torrent(&too_few).map(|_| ()));
    let too_long_piece = bencoded_torrent("http://t/a", "f", 10, 100, &[1u8; 20]);
    assert_eq!(Err(Error::Malformed), parse_torrent(&too_long_piece).map(|_| ()));
    let ragged = bencoded_torrent("http://t/a", "f", 101, 100, &[1u8; 39]);
    assert_eq!(Err(Error::Malformed), parse_torrent(&ragged).map(|_| ()));
    let zero_piece = bencoded_torrent("http://t/a", "f", 101, 0, &[1u8; 20]);
    assert_eq!(Err(Error::Malformed), parse_torrent(&zero_piece).map(|_| ()));
}

#[test]
fn multi_file_torrents_are_unsupported() {
    let data = b"d8:announce3:x/y4:infod5:filesld6:lengthi3e4:pathl1:aeee4:name1:d12:piece lengthi4e6:pieces20:aaaaaaaaaaaaaaaaaaaaee";
    assert_eq!(Err(Error::Unsupported), parse_torrent(data).map(|_| ()));
    let info = TorrentInfo::new(
        b"d".to_vec(),
        TorrentType::MultiFile { files: bittorrent::bencode::Value::List(vec![]) },
        4,
        vec![],
    );
    assert!(!info.is_single_file());
}

#[test]
fn malformed_metainfo_is_rejected() {
    assert_eq!(Err(Error::Malformed), parse_torrent(b"i3e").map(|_| ()));
    assert_eq!(Err(Error::Malformed), parse_torrent(b"d4:infodee").map(|_| ()));
    assert_eq!(Err(Error::Malformed), parse_torrent(b"not bencode").map(|_| ()));
}

#[test]
fn info_hash_covers_keys_the_model_does_not_read() {
    let info = b"d6:lengthi5e4:name1:f12:piece lengthi5e6:pieces20:aaaaaaaaaaaaaaaaaaaa7:privatei1ee";
    let mut data = b"d8:announce10:http://t/a4:info".to_vec();
    data.extend_from_slice(info);
    data.push(b'e');
    let torrent = parse_torrent(&data).unwrap();
    let mut expected = [0u8; 20];
    expected.copy_from_slice(&Sha1::digest(info));
    assert_eq!(expected, torrent.info.get_info_hash());
    assert_eq!(info.to_vec(), torrent.info.encode_info());
}

#[test]
fn announce_must_be_utf8() {
    let data = b"d8:announce2:\xff\xfe4:infod6:lengthi5e4:name1:f12:piece lengthi5e6:pieces20:aaaaaaaaaaaaaaaaaaaaee";
    assert_eq!(Err(Error::Malformed), parse_torrent(data).map(|_| ()));
}

#[test]
fn built_info_hashes_its_own_dictionary() {
    let info = TorrentInfo::new(b"f".to_vec(), TorrentType::SingleFile { length: 5 }, 5, vec![[97u8; 20]]);
    let encoded = info.encode_info();
    assert_eq!(b"d6:lengthi5e4:name1:f12:piece lengthi5e6:pieces20:aaaaaaaaaaaaaaaaaaaae".to_vec(), encoded);
    assert_eq!(Ok(info), parse_info(&encoded));
}
