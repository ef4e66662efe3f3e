use bittorrent::error::Error;
use bittorrent::scheduler::{worker_count, PieceQueue};
use bittorrent::torrent::{parse_torrent, TorrentInfo, TorrentType};
use bittorrent::tracker::{announce_query, deserialize_peers, my_peer_id, parse_peers_response, PeerAddress, MY_PORT};

fn reference_peers() -> Vec<u8> {
    vec![
        165, 232, 33, 77, 0xc9, 0x0b, 178, 62, 85, 20, 0xc9, 0x21, 178, 62, 82, 89, 0xc8, 0xf8,
    ]
}

#[test]
fn compact_peers() {
    let peers = deserialize_peers(&reference_peers()).unwrap();
    assert_eq!(
        vec![
            PeerAddress { ip: [165, 232, 33, 77], port: 51467 },
            PeerAddress { ip: [178, 62, 85, 20], port: 51489 },
            PeerAddress { ip: [178, 62, 82, 89], port: 51448 },
        ],
        peers
    );
    assert_eq!(Err(Error::Malformed), deserialize_peers(&[1, 2, 3, 4, 5]));
    assert_eq!(Ok(vec![]), deserialize_peers(&[]));
}

#[test]
fn tracker_success_response() {
    let mut body = b"d8:completei3e10:incompletei1e8:intervali60e12:min intervali60e5:peers18:".to_vec();
    body.extend_from_slice(&reference_peers());
    body.push(b'e');
    let response = parse_peers_response(&body).unwrap();
    assert_eq!(Some(3), response.complete);
    assert_eq!(Some(1), response.incomplete);
    assert_eq!(Some(60), response.interval);
    assert_eq!(Some(60), response.min_interval);
    assert_eq!(3, response.peers.len());
    assert_eq!(PeerAddress { ip: [165, 232, 33, 77], port: 51467 }, response.peers[0]);

    let minimal = b"d5:peers6:\x01\x02\x03\x04\x00\x50e";
    let response = parse_peers_response(minimal).unwrap();
    assert_eq!(None, response.interval);
    assert_eq!(vec![PeerAddress { ip: [1, 2, 3, 4], port: 80 }], response.peers);
}

#[test]
fn tracker_failure_responses() {
    assert_eq!(
        Err(Error::TrackerRejected(b"bad hash".to_vec())),
        parse_peers_response(b"d14:failure reason8:bad hashe")
    );
    assert_eq!(Err(Error::Malformed), parse_peers_response(b"d5:peers5:abcdee"));
    assert_eq!(Err(Error::Malformed), parse_peers_response(b"d8:intervali5ee"));
    assert_eq!(Err(Error::Malformed), parse_peers_response(b"le"));
    assert_eq!(Err(Error::Malformed), parse_peers_response(b"<html>"));
}

#[test]
fn announce_parameters() {
    let data = b"d8:announce10:http://t/a4:infod6:lengthi92063e4:name1:f12:piece lengthi32768e6:pieces60:aaaaaaaaaaaaaaaaaaaaaaaaaaaaaaaaaaaaaaaaaaaaaaaaaaaaaaaaaaaaee";
    let torrent = parse_torrent(data).unwrap();
    let query = announce_query(&torrent.info);
    assert_eq!(torrent.info.get_info_hash(), query.info_hash);
    assert_eq!(*b"00112233445566778899", query.peer_id);
    assert_eq!(*b"00112233445566778899", my_peer_id());
    assert_eq!(6881, query.port);
    assert_eq!(MY_PORT, query.port);
    assert_eq!(0, query.uploaded);
    assert_eq!(0, query.downloaded);
    assert_eq!(92063, query.left);
    assert!(query.compact);
}

#[test]
fn queue_hands_out_each_piece_once() {
    let info = TorrentInfo::new(
        b"f".to_vec(),
        TorrentType::SingleFile { length: 250 },
        100,
        vec![[1u8; 20], [2u8; 20], [3u8; 20]],
    );
    let mut queue = PieceQueue::new(&info);
    assert_eq!(3, queue.len());
    let mut seen = Vec::new();
    while let Some(piece) = queue.pop() {
        assert_eq!(info.get_piece_info(piece.index), Ok(piece));
        seen.push(piece.index);
    }
    assert_eq!(vec![0, 1, 2], seen);
    assert_eq!(0, queue.len());
    assert!(queue.pop().is_none());
}

#[test]
fn workers_are_capped_by_pieces_and_peers() {
    assert_eq!(3, worker_count(3, 5));
    assert_eq!(2, worker_count(7, 2));
    assert_eq!(0, worker_count(4, 0));
}
