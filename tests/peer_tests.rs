use bittorrent::error::Error;
use bittorrent::peer::{piece_exists, Peer, PeerSession, SetupAction, SetupState};
use bittorrent::torrent::PieceInfo;
use bittorrent::wire::{
    check_message_type, frame_payload_length, handshake_message, validate_handshake, write_message,
    BlockRequestRaw, MessageType, BLOCK_SIZE,
};
use sha1::{Digest, Sha1};

fn sha1_of(data: &[u8]) -> [u8; 20] {
    let mut h = [0u8; 20];
    h.copy_from_slice(&Sha1::digest(data));
    h
}

fn piece_response(index: u32, begin: u32, block: &[u8]) -> Vec<u8> {
    let mut r = Vec::new();
    r.extend_from_slice(&index.to_be_bytes());
    r.extend_from_slice(&begin.to_be_bytes());
    r.extend_from_slice(block);
    r
}

#[test]
fn test_next_block_params() {
    let params = Peer::next_block_params(0, 300).expect("block 0 should exist");
    assert_eq!((0, 300), params);
    let params = Peer::next_block_params(1, 300);
    assert!(params.is_none(), "block 1 should not exist");

    let params = Peer::next_block_params(0, BLOCK_SIZE).expect("block 0 should exist");
    assert_eq!((0, BLOCK_SIZE), params);
    let params = Peer::next_block_params(1, BLOCK_SIZE);
    assert!(params.is_none(), "block 1 should not exist");

    let params = Peer::next_block_params(0, BLOCK_SIZE + 1).expect("block 0 should exist");
    assert_eq!((0, BLOCK_SIZE), params);
    let params = Peer::next_block_params(1, BLOCK_SIZE + 1).expect("block 1 should exist");
    assert_eq!((BLOCK_SIZE, 1), params);
    let params = Peer::next_block_params(2, BLOCK_SIZE + 1);
    assert!(params.is_none(), "block 2 should not exist");
}

#[test]
fn test_has_piece() {
    let pieces = [0b11100000, 0b10010000];
    assert!(piece_exists(0, &pieces));
    assert!(piece_exists(1, &pieces));
    assert!(piece_exists(2, &pieces));
    assert!(!piece_exists(3, &pieces));
    assert!(!piece_exists(4, &pieces));
    assert!(!piece_exists(7, &pieces));
    assert!(piece_exists(8, &pieces));
    assert!(!piece_exists(9, &pieces));
    assert!(!piece_exists(10, &pieces));
    assert!(piece_exists(11, &pieces));
    assert!(!piece_exists(15, &pieces));
    assert!(!piece_exists(16, &pieces));
    assert!(!piece_exists(100, &pieces));
}

#[test]
fn bitfield_bit_order_matches_shift_formula() {
    let bitfield = [0b1010_0101u8, 0b0100_0010, 0xff];
    for k in 0u32..24 {
        let expected = (bitfield[(k >> 3) as usize] >> (7 - (k & 7))) & 1 == 1;
        assert_eq!(expected, piece_exists(k, &bitfield));
    }
    assert!(!piece_exists(24, &bitfield));
}

#[test]
fn handshake_layout_and_validation() {
    let info_hash = [0xabu8; 20];
    let my_id = *b"00112233445566778899";
    let msg = handshake_message(&info_hash, &my_id);
    assert_eq!(68, msg.len());
    assert_eq!(19, msg[0]);
    assert_eq!(b"BitTorrent protocol".to_vec(), msg[1..20].to_vec());
    assert_eq!(vec![0u8; 8], msg[20..28].to_vec());
    assert_eq!(info_hash.to_vec(), msg[28..48].to_vec());
    assert_eq!(my_id.to_vec(), msg[48..68].to_vec());

    let mut reply = handshake_message(&info_hash, &[0x2d; 20]);
    assert_eq!(Ok([0x2d; 20]), validate_handshake(&info_hash, &reply));
    assert_eq!(Err(Error::ProtocolViolation), validate_handshake(&[0u8; 20], &reply));
    reply[5] = b'x';
    assert_eq!(Err(Error::ProtocolViolation), validate_handshake(&info_hash, &reply));
    assert_eq!(Err(Error::ProtocolViolation), validate_handshake(&info_hash, &reply[..67]));
}

#[test]
fn frames_and_requests() {
    assert_eq!(vec![0, 0, 0, 1, 2], write_message(MessageType::Interested, &[]));
    let request = BlockRequestRaw::new(1, 16384, 300).to_bytes();
    assert_eq!(vec![0, 0, 0, 1, 0, 0, 0x40, 0, 0, 0, 1, 0x2c], request);
    assert_eq!(
        vec![0, 0, 0, 13, 6, 0, 0, 0, 1, 0, 0, 0x40, 0, 0, 0, 1, 0x2c],
        write_message(MessageType::Block, &request)
    );
    assert_eq!(Ok(12), frame_payload_length(&[0, 0, 0, 13]));
    assert_eq!(Err(Error::ProtocolViolation), frame_payload_length(&[0, 0, 0, 0]));
    assert_eq!(Ok(16392), frame_payload_length(&[0, 0, 0x40, 0x09]));
    assert_eq!(Err(Error::ProtocolViolation), frame_payload_length(&[0, 0, 0x40, 0x0a]));
    assert_eq!(Ok(()), check_message_type(7, MessageType::Piece));
    assert_eq!(Err(Error::ProtocolViolation), check_message_type(0, MessageType::Unchoke));
}

#[test]
fn block_responses_are_checked() {
    let block = [5u8; 10];
    let ok = piece_response(3, 16384, &block);
    assert_eq!(Ok(block.to_vec()), Peer::extract_block_from_response(&ok, 3, 16384, 10));
    assert_eq!(Err(Error::ProtocolViolation), Peer::extract_block_from_response(&ok, 4, 16384, 10));
    assert_eq!(Err(Error::ProtocolViolation), Peer::extract_block_from_response(&ok, 3, 0, 10));
    assert_eq!(Err(Error::ProtocolViolation), Peer::extract_block_from_response(&ok, 3, 16384, 11));
}

#[test]
fn piece_download_in_blocks() {
    let data: Vec<u8> = (0..(BLOCK_SIZE + 5)).map(|i| (i % 251) as u8).collect();
    let piece = PieceInfo { index: 2, length: BLOCK_SIZE + 5, hash: sha1_of(&data), file_start_pos: 0 };
    let peer = Peer { peer_id: [0; 20], has_pieces: vec![0b0010_0000] };
    assert!(peer.download_piece(PieceInfo { index: 0, ..piece }).is_err());
    let mut dl = peer.download_piece(piece).unwrap();

    let first = dl.next_request().unwrap().to_bytes();
    assert_eq!(BlockRequestRaw::new(2, 0, BLOCK_SIZE).to_bytes(), first);
    assert_eq!(
        Err(Error::ProtocolViolation),
        dl.accept_block(&piece_response(2, 1, &data[..BLOCK_SIZE as usize]))
    );
    dl.accept_block(&piece_response(2, 0, &data[..BLOCK_SIZE as usize])).unwrap();
    let second = dl.next_request().unwrap().to_bytes();
    assert_eq!(BlockRequestRaw::new(2, BLOCK_SIZE, 5).to_bytes(), second);
    dl.accept_block(&piece_response(2, BLOCK_SIZE, &data[BLOCK_SIZE as usize..])).unwrap();
    assert!(dl.next_request().is_none());
    assert_eq!(Ok(data.clone()), dl.finish());
}

#[test]
fn piece_with_wrong_hash_fails() {
    let data = vec![1u8, 2, 3];
    let piece = PieceInfo { index: 0, length: 3, hash: [0u8; 20], file_start_pos: 0 };
    let peer = Peer { peer_id: [0; 20], has_pieces: vec![0x80] };
    let mut dl = peer.download_piece(piece).unwrap();
    dl.accept_block(&piece_response(0, 0, &data)).unwrap();
    assert_eq!(Err(Error::IntegrityFailure), dl.finish());
}

#[test]
fn session_setup_reaches_ready() {
    let info_hash = [7u8; 20];
    let my_id = *b"00112233445566778899";
    let mut session = PeerSession::new(info_hash, my_id);
    match session.next_action() {
        SetupAction::ExchangeHandshake(bytes) => assert_eq!(handshake_message(&info_hash, &my_id), bytes),
        _ => panic!("expected a handshake"),
    }
    session.on_handshake(&handshake_message(&info_hash, &[9u8; 20]));
    assert_eq!(SetupState::Handshaked, session.state);
    assert!(matches!(session.next_action(), SetupAction::Receive(MessageType::PiecesBitfield)));
    session.on_frame(5, vec![0, 0x40]);
    assert_eq!(SetupState::HaveBitfield, session.state);
    match session.next_action() {
        SetupAction::Send(bytes) => assert_eq!(vec![0, 0, 0, 1, 2], bytes),
        _ => panic!("expected interested"),
    }
    session.on_sent();
    assert!(matches!(session.next_action(), SetupAction::Receive(MessageType::Unchoke)));
    session.on_frame(1, vec![]);
    assert!(matches!(session.next_action(), SetupAction::Done));
    let peer = session.into_peer().unwrap();
    assert_eq!([9u8; 20], peer.peer_id);
    assert!(peer.has_piece(9));
    assert!(!peer.has_piece(8));
}

#[test]
fn session_setup_failures() {
    let info_hash = [7u8; 20];
    let mut session = PeerSession::new(info_hash, [0u8; 20]);
    session.on_handshake(&handshake_message(&[8u8; 20], &[9u8; 20]));
    assert_eq!(SetupState::Failed, session.state);
    assert!(matches!(session.next_action(), SetupAction::Abort));
    assert!(session.into_peer().is_none());

    let mut session = PeerSession::new(info_hash, [0u8; 20]);
    session.on_handshake(&handshake_message(&info_hash, &[9u8; 20]));
    session.on_frame(5, vec![0, 0]);
    assert_eq!(SetupState::Failed, session.state);

    let mut session = PeerSession::new(info_hash, [0u8; 20]);
    session.on_handshake(&handshake_message(&info_hash, &[9u8; 20]));
    session.on_frame(5, vec![1]);
    session.on_sent();
    session.on_frame(0, vec![]);
    assert_eq!(SetupState::Failed, session.state);
}
