use bittorrent::peer::Peer;
use bittorrent::scheduler::PieceQueue;
use bittorrent::torrent::{TorrentInfo, TorrentType};
use sha1::{Digest, Sha1};

fn sha1_of(data: &[u8]) -> [u8; 20] {
    let mut h = [0u8; 20];
    h.copy_from_slice(&Sha1::digest(data));
    h
}

/// Serves `payload` block by block and writes each finished piece at its place in `out`.
fn download_into(info: &TorrentInfo, payload: &[u8], out: &mut Vec<u8>) {
    let peer = Peer { peer_id: [1; 20], has_pieces: vec![0xff] };
    let mut queue = PieceQueue::new(info);
    while let Some(piece) = queue.pop() {
        let mut download = peer.download_piece(piece).unwrap();
        while let Some(request) = download.next_request() {
            let bytes = request.to_bytes();
            let begin = u32::from_be_bytes([bytes[4], bytes[5], bytes[6], bytes[7]]) as usize;
            let length = u32::from_be_bytes([bytes[8], bytes[9], bytes[10], bytes[11]]) as usize;
            let start = piece.file_start_pos as usize + begin;
            let mut response = Vec::new();
            response.extend_from_slice(&piece.index.to_be_bytes());
            response.extend_from_slice(&(begin as u32).to_be_bytes());
            response.extend_from_slice(&payload[start..start + length]);
            download.accept_block(&response).unwrap();
        }
        let data = download.finish().unwrap();
        let at = piece.file_start_pos as usize;
        out[at..at + data.len()].copy_from_slice(&data);
    }
}

#[test]
fn assembled_output_matches_every_piece_hash() {
    let payload: Vec<u8> = (0..40000u32).map(|i| (i * 7 % 256) as u8).collect();
    let piece_length = 16384 + 100;
    let pieces: Vec<[u8; 20]> = payload.chunks(piece_length).map(sha1_of).collect();
    assert_eq!(3, pieces.len());
    let info = TorrentInfo::new(
        b"payload".to_vec(),
        TorrentType::SingleFile { length: payload.len() as u32 },
        piece_length as u32,
        pieces.clone(),
    );
    let mut out = vec![0u8; payload.len()];
    download_into(&info, &payload, &mut out);
    assert_eq!(payload.len(), out.len());
    for (i, hash) in pieces.iter().enumerate() {
        let start = i * piece_length;
        let end = ((i + 1) * piece_length).min(out.len());
        assert_eq!(*hash, sha1_of(&out[start..end]));
    }
    assert_eq!(payload, out);
}

#[test]
fn downloading_again_over_a_complete_file_changes_nothing() {
    let payload: Vec<u8> = (0..1000u32).map(|i| (i % 13) as u8).collect();
    let pieces: Vec<[u8; 20]> = payload.chunks(300).map(sha1_of).collect();
    let info = TorrentInfo::new(b"payload".to_vec(), TorrentType::SingleFile { length: 1000 }, 300, pieces);
    let mut first = vec![0u8; 1000];
    download_into(&info, &payload, &mut first);
    let mut second = first.clone();
    download_into(&info, &payload, &mut second);
    assert_eq!(first, second);
    assert_eq!(payload, second);
}
