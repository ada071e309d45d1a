use bittorrent_core::{
    decode_compact_peers, Error, PeerAddress, TorrentInfo, TrackerRequest, TrackerResponse,
};

#[test]
fn one_compact_peer() {
    let blob = [0x7f, 0x00, 0x00, 0x01, 0x1a, 0xe1];
    assert_eq!(
        decode_compact_peers(&blob),
        Ok(vec![PeerAddress { ip: [127, 0, 0, 1], port: 6881 }])
    );
    let response = TrackerResponse { interval: 60, peers: blob.to_vec() };
    assert_eq!(response.from_peers(), Ok(vec!["127.0.0.1:6881".to_string()]));
}

#[test]
fn several_compact_peers() {
    let blob = [10, 0, 0, 2, 0, 80, 255, 255, 255, 255, 255, 255, 0, 0, 0, 0, 0, 0];
    let response = TrackerResponse { interval: 0, peers: blob.to_vec() };
    assert_eq!(
        response.from_peers(),
        Ok(vec![
            "10.0.0.2:80".to_string(),
            "255.255.255.255:65535".to_string(),
            "0.0.0.0:0".to_string(),
        ])
    );
    assert_eq!(
        decode_compact_peers(&blob).unwrap()[1],
        PeerAddress { ip: [255, 255, 255, 255], port: 65535 }
    );
}

#[test]
fn no_peers() {
    assert_eq!(decode_compact_peers(&[]), Ok(vec![]));
    let response = TrackerResponse { interval: 1, peers: vec![] };
    assert_eq!(response.from_peers(), Ok(vec![]));
}

#[test]
fn a_list_that_is_no_whole_number_of_records() {
    assert_eq!(decode_compact_peers(&[1, 2, 3, 4, 5]), Err(Error::MalformedPeerList));
    assert_eq!(decode_compact_peers(&[1, 2, 3, 4, 5, 6, 7]), Err(Error::MalformedPeerList));
    let response = TrackerResponse { interval: 1, peers: vec![0; 13] };
    assert_eq!(response.from_peers(), Err(Error::MalformedPeerList));
}

#[test]
fn an_address_as_text() {
    let peer = PeerAddress { ip: [192, 168, 1, 20], port: 51413 };
    assert_eq!(peer.to_string(), "192.168.1.20:51413");
}

#[test]
fn parses_a_reply() {
    let mut reply = b"d8:intervali1800e5:peers6:".to_vec();
    reply.extend_from_slice(&[0x7f, 0x00, 0x00, 0x01, 0x1a, 0xe1]);
    reply.push(b'e');
    assert_eq!(
        TrackerResponse::from_bytes(&reply),
        Ok(TrackerResponse { interval: 1800, peers: vec![0x7f, 0x00, 0x00, 0x01, 0x1a, 0xe1] })
    );
}

#[test]
fn passes_over_keys_of_a_reply_it_does_not_know() {
    let reply = b"d8:completei5e8:intervali60e12:min intervali30e5:peers0:e";
    assert_eq!(
        TrackerResponse::from_bytes(reply),
        Ok(TrackerResponse { interval: 60, peers: vec![] })
    );
}

#[test]
fn a_reply_that_is_no_bencode() {
    assert_eq!(TrackerResponse::from_bytes(b"<html>"), Err(Error::MalformedInput));
    assert_eq!(TrackerResponse::from_bytes(b"d8:intervali60e"), Err(Error::MalformedInput));
}

#[test]
fn a_reply_without_the_fields() {
    assert_eq!(
        TrackerResponse::from_bytes(b"d14:failure reason4:nonee"),
        Err(Error::MalformedPeerList)
    );
    assert_eq!(TrackerResponse::from_bytes(b"d8:intervali60ee"), Err(Error::MalformedPeerList));
    assert_eq!(TrackerResponse::from_bytes(b"d5:peers0:e"), Err(Error::MalformedPeerList));
    assert_eq!(
        TrackerResponse::from_bytes(b"d8:intervali-1e5:peers0:e"),
        Err(Error::MalformedPeerList)
    );
    assert_eq!(
        TrackerResponse::from_bytes(b"d8:interval2:605:peers0:e"),
        Err(Error::MalformedPeerList)
    );
    assert_eq!(
        TrackerResponse::from_bytes(b"d8:intervali60e5:peerslee"),
        Err(Error::MalformedPeerList)
    );
    assert_eq!(TrackerResponse::from_bytes(b"i60e"), Err(Error::MalformedPeerList));
}

#[test]
fn the_request_for_a_torrent() {
    let info = TorrentInfo {
        name: "a".to_string(),
        length: 92063,
        piece_length: 32768,
        pieces: vec![9u8; 60],
    };
    let request = TrackerRequest::new(&info).unwrap();
    assert_eq!(request.info_hash, info.encode_url_hash().unwrap());
    assert_eq!(request.info_hash.len(), 60);
    assert_eq!(request.peer_id, "00112233445566778899");
    assert_eq!(request.port, 6881);
    assert_eq!(request.uploaded, 0);
    assert_eq!(request.downloaded, 0);
    assert_eq!(request.left, 92063);
    assert_eq!(request.compact, 1);
}

#[test]
fn the_url_to_ask() {
    let request = TrackerRequest {
        info_hash: "%01%ab".to_string(),
        peer_id: "00112233445566778899".to_string(),
        port: 6881,
        uploaded: 0,
        downloaded: 0,
        left: 1,
        compact: 1,
    };
    assert_eq!(
        request.announce_url("http://tracker.example/announce"),
        "http://tracker.example/announce?info_hash=%01%ab"
    );
}
