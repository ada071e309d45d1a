use bittorrent_core::{
    block_count, block_length, new_content, place_piece, Error, PeerConnection,
    PeerConnectionResponse, PeerState, PieceDownload, Torrent, TorrentInfo,
};
use sha1::{Digest, Sha1};

const PEER_ID: &str = "00112233445566778899";

fn piece_data(len: usize) -> Vec<u8> {
    (0..len).map(|i| (i * 7 % 256) as u8).collect()
}

/// A torrent of one piece that holds `data`.
fn single_piece(data: &[u8]) -> Torrent {
    Torrent {
        announce: "http://tracker".to_string(),
        info: TorrentInfo {
            name: "piece".to_string(),
            length: data.len(),
            piece_length: data.len(),
            pieces: Sha1::digest(data).to_vec(),
        },
    }
}

fn reply(index: u32, begin: u32, block: &[u8]) -> Vec<u8> {
    let mut payload = index.to_be_bytes().to_vec();
    payload.extend_from_slice(&begin.to_be_bytes());
    payload.extend_from_slice(block);
    payload
}

#[test]
fn message_ids() {
    assert_eq!(PeerConnection::CHOKE, 0);
    assert_eq!(PeerConnection::UNCHOKE, 1);
    assert_eq!(PeerConnection::INTERESTED, 2);
    assert_eq!(PeerConnection::NOTINTERESTED, 3);
    assert_eq!(PeerConnection::HAVE, 4);
    assert_eq!(PeerConnection::BITFIELD, 5);
    assert_eq!(PeerConnection::REQUEST, 6);
    assert_eq!(PeerConnection::PIECE, 7);
    assert_eq!(PeerConnection::CANCEL, 8);
}

#[test]
fn the_handshake_to_send() {
    let hash: Vec<u8> = (1..=20).collect();
    let message = PeerConnection::new().handshake(&hash, PEER_ID).unwrap();
    assert_eq!(message.len(), 68);
    assert_eq!(message[0], 19);
    assert_eq!(&message[1..20], b"BitTorrent protocol");
    assert_eq!(&message[20..28], &[0u8; 8]);
    assert_eq!(&message[28..48], hash.as_slice());
    assert_eq!(&message[48..68], PEER_ID.as_bytes());
}

#[test]
fn a_handshake_needs_ids_of_twenty_bytes() {
    let c = PeerConnection::new();
    assert_eq!(c.handshake(&[0u8; 19], PEER_ID), Err(Error::ProtocolViolation));
    assert_eq!(c.handshake(&[0u8; 21], PEER_ID), Err(Error::ProtocolViolation));
    assert_eq!(c.handshake(&[0u8; 20], "short"), Err(Error::ProtocolViolation));
}

#[test]
fn the_handshake_that_arrived() {
    let mut reply = vec![19u8];
    reply.extend_from_slice(b"BitTorrent protocol");
    reply.extend_from_slice(&[0u8; 8]);
    reply.extend_from_slice(&[0xaa; 20]);
    reply.extend_from_slice(&[0xbb; 20]);
    let mut c = PeerConnection::new();
    c.connect();
    let response = c.handshake_reply(&reply).unwrap();
    assert_eq!(
        response,
        PeerConnectionResponse { info_hash: vec![0xaa; 20], peer_id: vec![0xbb; 20] }
    );
    assert_eq!(c.state, PeerState::Handshaken);
    assert!(response.confirms(&[0xaa; 20]));
    assert!(!response.confirms(&[0xab; 20]));
}

#[test]
fn a_handshake_that_is_cut_short() {
    let mut c = PeerConnection::new();
    c.connect();
    assert_eq!(c.handshake_reply(&[0u8; 67]), Err(Error::ProtocolViolation));
    assert_eq!(c.handshake_reply(&[0u8; 69]), Err(Error::ProtocolViolation));
    assert_eq!(c.handshake_reply(&[]), Err(Error::ProtocolViolation));
    assert_eq!(c.state, PeerState::Connected);
}

#[test]
fn a_handshake_goes_round() {
    let hash = [7u8; 20];
    let mut c = PeerConnection::new();
    c.connect();
    let sent = c.handshake(&hash, PEER_ID).unwrap();
    let response = c.handshake_reply(&sent).unwrap();
    assert!(response.confirms(&hash));
    assert_eq!(response.peer_id, PEER_ID.as_bytes().to_vec());
}

#[test]
fn the_states_of_a_connection() {
    let mut c = PeerConnection::new();
    assert_eq!(c.state, PeerState::Disconnected);
    c.connect();
    assert_eq!(c.state, PeerState::Connected);
    c.handshake_reply(&[0u8; 68]).unwrap();
    assert_eq!(c.state, PeerState::Handshaken);
    c.wait(PeerConnection::BITFIELD, &[5, 0xff]).unwrap();
    assert_eq!(c.state, PeerState::Handshaken);
    c.wait(PeerConnection::UNCHOKE, &[1]).unwrap();
    assert_eq!(c.state, PeerState::Unchoked);
    c.wait(PeerConnection::CHOKE, &[0]).unwrap();
    assert_eq!(c.state, PeerState::Choked);
    assert_eq!(c.wait(PeerConnection::UNCHOKE, &[7]), Err(Error::ProtocolViolation));
    assert_eq!(c.state, PeerState::Choked);
}

#[test]
fn frames_a_message() {
    let c = PeerConnection::new();
    assert_eq!(c.send_message(7, &[1, 2, 3]), Ok(vec![0, 0, 0, 4, 7, 1, 2, 3]));
    assert_eq!(c.send_message(2, &[]), Ok(vec![0, 0, 0, 1, 2]));
    let long = vec![9u8; 300];
    let framed = c.send_message(5, &long).unwrap();
    assert_eq!(&framed[0..5], &[0, 0, 1, 45, 5]);
    assert_eq!(&framed[5..], long.as_slice());
}

#[test]
fn frames_interested() {
    assert_eq!(PeerConnection::new().send_interested(), vec![0, 0, 0, 1, 2]);
}

#[test]
fn frames_a_request() {
    assert_eq!(
        PeerConnection::new().send_request(1, 16384, 0x01020304),
        vec![0, 0, 0, 13, 6, 0, 0, 0, 1, 0, 0, 0x40, 0, 1, 2, 3, 4]
    );
    assert_eq!(
        PeerConnection::new().send_request(u32::MAX, 0, u32::MAX),
        vec![0, 0, 0, 13, 6, 255, 255, 255, 255, 0, 0, 0, 0, 255, 255, 255, 255]
    );
}

#[test]
fn reads_a_length_prefix() {
    assert_eq!(PeerConnection::frame_length(&[0, 0, 0, 1]), Ok(1));
    assert_eq!(PeerConnection::frame_length(&[0, 0, 0x40, 9]), Ok(16393));
    assert_eq!(PeerConnection::frame_length(&[1, 2, 3, 4]), Ok(0x01020304));
}

#[test]
fn a_length_prefix_that_announces_nothing() {
    assert_eq!(PeerConnection::frame_length(&[0, 0, 0, 0]), Err(Error::ProtocolViolation));
    assert_eq!(PeerConnection::frame_length(&[0, 0, 1]), Err(Error::ProtocolViolation));
    assert_eq!(PeerConnection::frame_length(&[0, 0, 0, 1, 0]), Err(Error::ProtocolViolation));
}

#[test]
fn takes_in_the_message_that_was_waited_for() {
    let mut c = PeerConnection::new();
    assert_eq!(c.wait(PeerConnection::PIECE, &[7, 1, 2, 3]), Ok(vec![1, 2, 3]));
    assert_eq!(c.wait(PeerConnection::UNCHOKE, &[1]), Ok(vec![]));
}

#[test]
fn another_message_than_the_one_waited_for() {
    let mut c = PeerConnection::new();
    assert_eq!(c.wait(PeerConnection::PIECE, &[0]), Err(Error::ProtocolViolation));
    assert_eq!(c.wait(PeerConnection::PIECE, &[]), Err(Error::ProtocolViolation));
}

#[test]
fn a_frame_goes_round() {
    let mut c = PeerConnection::new();
    let framed = c.send_message(PeerConnection::PIECE, &[5, 6, 7, 8, 9]).unwrap();
    assert_eq!(PeerConnection::frame_length(&framed[0..4]), Ok(framed.len() - 4));
    assert_eq!(c.wait(PeerConnection::PIECE, &framed[4..]), Ok(vec![5, 6, 7, 8, 9]));
}

#[test]
fn blocks_of_a_piece() {
    assert_eq!(block_count(32769), 3);
    assert_eq!(block_length(32769, 0), 16384);
    assert_eq!(block_length(32769, 1), 16384);
    assert_eq!(block_length(32769, 2), 1);
}

#[test]
fn blocks_of_pieces_at_the_edges() {
    assert_eq!(block_count(0), 0);
    assert_eq!(block_count(1), 1);
    assert_eq!(block_length(1, 0), 1);
    assert_eq!(block_count(16384), 1);
    assert_eq!(block_length(16384, 0), 16384);
    assert_eq!(block_count(16385), 2);
    assert_eq!(block_length(16385, 1), 1);
    assert_eq!(block_count(32768), 2);
    assert_eq!(block_length(32768, 1), 16384);
}

#[test]
fn the_requests_for_a_piece() {
    let data = piece_data(32769);
    let c = PeerConnection::new();
    let d = c.download_piece(&single_piece(&data), 0).unwrap();
    assert_eq!(d.piece_index(), 0);
    assert_eq!(d.piece_length(), 32769);
    assert_eq!(
        d.requests(),
        vec![c.send_request(0, 0, 16384), c.send_request(0, 16384, 16384), c.send_request(0, 32768, 1)]
    );
}

#[test]
fn the_requests_for_the_last_piece() {
    let info = TorrentInfo {
        name: "n".to_string(),
        length: 1000,
        piece_length: 400,
        pieces: vec![0u8; 60],
    };
    let d = PieceDownload::new(&info, 2).unwrap();
    assert_eq!(d.piece_length(), 200);
    assert_eq!(d.requests(), vec![PeerConnection::new().send_request(2, 0, 200)]);
}

#[test]
fn blocks_in_order_assemble_the_piece() {
    let data = piece_data(40000);
    let mut d = PieceDownload::new(&single_piece(&data).info, 0).unwrap();
    assert!(!d.is_complete());
    assert_eq!(d.receive(&reply(0, 0, &data[0..16384])), Ok(()));
    assert_eq!(d.receive(&reply(0, 16384, &data[16384..32768])), Ok(()));
    assert!(!d.is_complete());
    assert_eq!(d.receive(&reply(0, 32768, &data[32768..])), Ok(()));
    assert!(d.is_complete());
    assert_eq!(d.finish(), Ok(data));
}

#[test]
fn blocks_out_of_order_assemble_the_piece() {
    let data = piece_data(20000);
    let mut d = PieceDownload::new(&single_piece(&data).info, 0).unwrap();
    assert_eq!(d.receive(&reply(0, 16384, &data[16384..])), Ok(()));
    assert_eq!(d.receive(&reply(0, 0, &data[0..16384])), Ok(()));
    assert!(d.is_complete());
    assert_eq!(d.finish(), Ok(data));
}

#[test]
fn a_reply_for_another_piece_is_passed_over() {
    let data = piece_data(100);
    let mut d = PieceDownload::new(&single_piece(&data).info, 0).unwrap();
    assert_eq!(d.receive(&reply(3, 0, &[0xff; 100])), Ok(()));
    assert!(!d.is_complete());
    assert_eq!(d.receive(&reply(0, 0, &data)), Ok(()));
    assert!(d.is_complete());
    assert_eq!(d.finish(), Ok(data));
}

#[test]
fn a_reply_after_the_last_is_passed_over() {
    let data = piece_data(100);
    let mut d = PieceDownload::new(&single_piece(&data).info, 0).unwrap();
    assert_eq!(d.receive(&reply(0, 0, &data)), Ok(()));
    assert_eq!(d.receive(&reply(0, 0, &[0xff; 100])), Ok(()));
    assert_eq!(d.finish(), Ok(data));
}

#[test]
fn a_corrupted_piece_fails_verification() {
    let data = piece_data(20000);
    let mut corrupted = data.clone();
    corrupted[12345] ^= 1;
    let mut d = PieceDownload::new(&single_piece(&data).info, 0).unwrap();
    assert_eq!(d.receive(&reply(0, 0, &corrupted[0..16384])), Ok(()));
    assert_eq!(d.receive(&reply(0, 16384, &corrupted[16384..])), Ok(()));
    assert!(d.is_complete());
    assert_eq!(d.finish(), Err(Error::VerificationFailure));
}

#[test]
fn an_incomplete_piece_fails_verification() {
    let data = piece_data(20000);
    let mut d = PieceDownload::new(&single_piece(&data).info, 0).unwrap();
    assert_eq!(d.receive(&reply(0, 0, &data[0..16384])), Ok(()));
    assert_eq!(d.finish(), Err(Error::VerificationFailure));
}

#[test]
fn a_piece_is_checked_against_a_known_digest() {
    let info = TorrentInfo {
        name: "abc".to_string(),
        length: 3,
        piece_length: 3,
        pieces: vec![
            0xa9, 0x99, 0x3e, 0x36, 0x47, 0x06, 0x81, 0x6a, 0xba, 0x3e, 0x25, 0x71, 0x78, 0x50, 0xc2,
            0x6c, 0x9c, 0xd0, 0xd8, 0x9d,
        ],
    };
    let mut d = PieceDownload::new(&info, 0).unwrap();
    assert_eq!(d.receive(&reply(0, 0, b"abc")), Ok(()));
    assert_eq!(d.finish(), Ok(b"abc".to_vec()));
}

#[test]
fn a_piece_is_checked_against_a_given_digest() {
    let data = piece_data(10);
    let info = single_piece(&data).info;
    let mut right = PieceDownload::new(&info, 0).unwrap();
    assert_eq!(right.receive(&reply(0, 0, &data)), Ok(()));
    assert_eq!(right.finish_with(&info.pieces), Ok(data.clone()));
    let mut wrong = PieceDownload::new(&info, 0).unwrap();
    assert_eq!(wrong.receive(&reply(0, 0, &data)), Ok(()));
    assert_eq!(wrong.finish_with(&[0u8; 20]), Err(Error::VerificationFailure));
    let early = PieceDownload::new(&info, 0).unwrap();
    assert_eq!(early.finish_with(&info.pieces), Err(Error::VerificationFailure));
}

#[test]
fn a_block_outside_the_piece_is_a_violation() {
    let data = piece_data(100);
    let mut d = PieceDownload::new(&single_piece(&data).info, 0).unwrap();
    assert_eq!(d.receive(&reply(0, 1, &data)), Err(Error::ProtocolViolation));
    assert_eq!(d.receive(&reply(0, 101, &[])), Err(Error::ProtocolViolation));
    assert_eq!(d.receive(&reply(0, u32::MAX, &[1])), Err(Error::ProtocolViolation));
    assert!(!d.is_complete());
    assert_eq!(d.receive(&reply(0, 0, &data)), Ok(()));
    assert_eq!(d.finish(), Ok(data));
}

#[test]
fn a_reply_that_is_cut_short_is_a_violation() {
    let data = piece_data(100);
    let mut d = PieceDownload::new(&single_piece(&data).info, 0).unwrap();
    assert_eq!(d.receive(&[0, 0, 0, 0, 0, 0, 0]), Err(Error::ProtocolViolation));
    assert_eq!(d.receive(&[]), Err(Error::ProtocolViolation));
}

#[test]
fn a_piece_that_is_not_there() {
    let data = piece_data(100);
    let t = single_piece(&data);
    assert!(matches!(PieceDownload::new(&t.info, 1), Err(Error::IndexOutOfRange)));
    assert!(matches!(
        PeerConnection::new().download_piece(&t, u32::MAX),
        Err(Error::IndexOutOfRange)
    ));
}

#[test]
fn a_piece_of_a_torrent_that_contradicts_itself() {
    let info = TorrentInfo {
        name: "n".to_string(),
        length: 700,
        piece_length: 400,
        pieces: vec![0u8; 60],
    };
    assert!(matches!(PieceDownload::new(&info, 2), Err(Error::MalformedTorrent)));
}

#[test]
fn pieces_are_placed_at_their_offsets() {
    let info = TorrentInfo {
        name: "n".to_string(),
        length: 1000,
        piece_length: 400,
        pieces: vec![0u8; 60],
    };
    let data = piece_data(1000);
    let mut content = new_content(&info);
    assert_eq!(content, vec![0u8; 1000]);
    assert_eq!(place_piece(&mut content, &info, 2, &data[800..]), Ok(()));
    assert_eq!(place_piece(&mut content, &info, 0, &data[0..400]), Ok(()));
    assert_eq!(place_piece(&mut content, &info, 1, &data[400..800]), Ok(()));
    assert_eq!(content, data);
}

#[test]
fn a_piece_of_the_wrong_size_is_not_placed() {
    let info = TorrentInfo {
        name: "n".to_string(),
        length: 1000,
        piece_length: 400,
        pieces: vec![0u8; 60],
    };
    let mut content = new_content(&info);
    assert_eq!(place_piece(&mut content, &info, 2, &[1u8; 400]), Err(Error::VerificationFailure));
    assert_eq!(place_piece(&mut content, &info, 0, &[1u8; 399]), Err(Error::VerificationFailure));
    assert_eq!(place_piece(&mut content, &info, 3, &[1u8; 400]), Err(Error::IndexOutOfRange));
    let mut short = vec![0u8; 500];
    assert_eq!(place_piece(&mut short, &info, 1, &[1u8; 400]), Err(Error::MalformedTorrent));
    assert_eq!(content, vec![0u8; 1000]);
    assert_eq!(short, vec![0u8; 500]);
}
