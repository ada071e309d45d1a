use bittorrent_core::{encode, BencodeDict, BencodeValue, Error, Torrent, TorrentInfo};
use sha1::{Digest, Sha1};

fn info(length: usize, piece_length: usize, hashes: usize) -> TorrentInfo {
    let mut pieces = Vec::new();
    for i in 0..hashes * 20 {
        pieces.push((i % 251) as u8);
    }
    TorrentInfo { name: "sample.txt".to_string(), length, piece_length, pieces }
}

fn torrent_file(info_bytes: &[u8]) -> Vec<u8> {
    let mut file = b"d8:announce20:http://tracker/a/b/c4:info".to_vec();
    file.extend_from_slice(info_bytes);
    file.push(b'e');
    file
}

fn info_bytes(pieces: &[u8]) -> Vec<u8> {
    let mut bytes = b"d6:lengthi1000e4:name10:sample.txt12:piece lengthi400e6:pieces".to_vec();
    bytes.extend_from_slice(format!("{}:", pieces.len()).as_bytes());
    bytes.extend_from_slice(pieces);
    bytes.push(b'e');
    bytes
}

#[test]
fn parses_a_torrent_file() {
    let pieces: Vec<u8> = (0..60).collect();
    let t = Torrent::from_file(torrent_file(&info_bytes(&pieces))).unwrap();
    assert_eq!(t.announce, "http://tracker/a/b/c");
    assert_eq!(t.info.name, "sample.txt");
    assert_eq!(t.info.length, 1000);
    assert_eq!(t.info.piece_length, 400);
    assert_eq!(t.info.pieces, pieces);
}

#[test]
fn passes_over_keys_it_does_not_know() {
    let file = b"d8:announce1:u7:comment2:hi4:infod6:lengthi5e4:name1:n12:piece lengthi5e6:pieces0:7:privatei1eee";
    let t = Torrent::from_file(file.to_vec()).unwrap();
    assert_eq!(t.announce, "u");
    assert_eq!(t.info.length, 5);
    assert_eq!(t.info.pieces, Vec::<u8>::new());
}

#[test]
fn a_file_that_is_no_bencode_is_malformed_input() {
    assert_eq!(Torrent::from_file(b"d8:announce".to_vec()), Err(Error::MalformedInput));
    assert_eq!(Torrent::from_file(Vec::new()), Err(Error::MalformedInput));
}

#[test]
fn a_value_that_is_no_dictionary_is_a_malformed_torrent() {
    assert_eq!(Torrent::from_file(b"i1e".to_vec()), Err(Error::MalformedTorrent));
    assert_eq!(Torrent::from_file(b"le".to_vec()), Err(Error::MalformedTorrent));
}

#[test]
fn a_missing_field_is_a_malformed_torrent() {
    let without_announce = b"d4:infod6:lengthi5e4:name1:n12:piece lengthi5e6:pieces0:ee";
    let without_info = b"d8:announce1:ue";
    let without_name = b"d8:announce1:u4:infod6:lengthi5e12:piece lengthi5e6:pieces0:ee";
    let without_length = b"d8:announce1:u4:infod4:name1:n12:piece lengthi5e6:pieces0:ee";
    let without_piece_length = b"d8:announce1:u4:infod6:lengthi5e4:name1:n6:pieces0:ee";
    let without_pieces = b"d8:announce1:u4:infod6:lengthi5e4:name1:n12:piece lengthi5eee";
    assert_eq!(Torrent::from_file(without_announce.to_vec()), Err(Error::MalformedTorrent));
    assert_eq!(Torrent::from_file(without_info.to_vec()), Err(Error::MalformedTorrent));
    assert_eq!(Torrent::from_file(without_name.to_vec()), Err(Error::MalformedTorrent));
    assert_eq!(Torrent::from_file(without_length.to_vec()), Err(Error::MalformedTorrent));
    assert_eq!(Torrent::from_file(without_piece_length.to_vec()), Err(Error::MalformedTorrent));
    assert_eq!(Torrent::from_file(without_pieces.to_vec()), Err(Error::MalformedTorrent));
}

#[test]
fn a_field_of_the_wrong_kind_is_a_malformed_torrent() {
    let announce_is_integer = b"d8:announcei1e4:infod6:lengthi5e4:name1:n12:piece lengthi5e6:pieces0:ee";
    let info_is_list = b"d8:announce1:u4:infolee";
    let length_is_text = b"d8:announce1:u4:infod6:length1:54:name1:n12:piece lengthi5e6:pieces0:ee";
    let length_is_negative = b"d8:announce1:u4:infod6:lengthi-5e4:name1:n12:piece lengthi5e6:pieces0:ee";
    let pieces_is_integer = b"d8:announce1:u4:infod6:lengthi5e4:name1:n12:piece lengthi5e6:piecesi0eee";
    assert_eq!(Torrent::from_file(announce_is_integer.to_vec()), Err(Error::MalformedTorrent));
    assert_eq!(Torrent::from_file(info_is_list.to_vec()), Err(Error::MalformedTorrent));
    assert_eq!(Torrent::from_file(length_is_text.to_vec()), Err(Error::MalformedTorrent));
    assert_eq!(Torrent::from_file(length_is_negative.to_vec()), Err(Error::MalformedTorrent));
    assert_eq!(Torrent::from_file(pieces_is_integer.to_vec()), Err(Error::MalformedTorrent));
}

#[test]
fn a_name_that_is_no_text_is_a_malformed_torrent() {
    let mut file = b"d8:announce1:u4:infod6:lengthi5e4:name1:".to_vec();
    file.push(0xff);
    file.extend_from_slice(b"12:piece lengthi5e6:pieces0:ee");
    assert_eq!(Torrent::from_file(file), Err(Error::MalformedTorrent));
}

#[test]
fn pieces_that_are_no_whole_hashes_are_a_malformed_torrent() {
    let pieces: Vec<u8> = (0..21).collect();
    assert_eq!(
        Torrent::from_file(torrent_file(&info_bytes(&pieces))),
        Err(Error::MalformedTorrent)
    );
}

#[test]
fn piece_count_and_lengths() {
    let i = info(1000, 400, 3);
    assert_eq!(i.piece_count(), 3);
    assert_eq!(i.piece_byte_length(0), Ok(400));
    assert_eq!(i.piece_byte_length(1), Ok(400));
    assert_eq!(i.piece_byte_length(2), Ok(200));
    assert_eq!(i.piece_byte_length(3), Err(Error::IndexOutOfRange));
}

#[test]
fn the_last_piece_may_be_full() {
    let i = info(800, 400, 2);
    assert_eq!(i.piece_byte_length(0), Ok(400));
    assert_eq!(i.piece_byte_length(1), Ok(400));
}

#[test]
fn pieces_that_outgrow_the_content_are_a_malformed_torrent() {
    let i = info(700, 400, 3);
    assert_eq!(i.piece_byte_length(0), Ok(400));
    assert_eq!(i.piece_byte_length(2), Err(Error::MalformedTorrent));
    let huge = info(10, usize::MAX, 3);
    assert_eq!(huge.piece_byte_length(2), Err(Error::MalformedTorrent));
}

#[test]
fn a_torrent_without_pieces_has_no_piece() {
    let i = info(0, 400, 0);
    assert_eq!(i.piece_count(), 0);
    assert_eq!(i.piece_byte_length(0), Err(Error::IndexOutOfRange));
    assert_eq!(i.piece_hash(0), Err(Error::IndexOutOfRange));
}

#[test]
fn piece_hashes_are_slices_of_twenty_bytes() {
    let i = info(1000, 400, 3);
    assert_eq!(i.piece_hash(0), Ok(i.pieces[0..20].to_vec()));
    assert_eq!(i.piece_hash(2), Ok(i.pieces[40..60].to_vec()));
    assert_eq!(i.piece_hash(3), Err(Error::IndexOutOfRange));
    assert_eq!(i.piece_hash(usize::MAX), Err(Error::IndexOutOfRange));
}

#[test]
fn the_dictionary_form_is_written_in_key_order() {
    let i = TorrentInfo {
        name: "a".to_string(),
        length: 12,
        piece_length: 4,
        pieces: vec![1u8; 20],
    };
    let mut expected = b"d6:lengthi12e4:name1:a12:piece lengthi4e6:pieces20:".to_vec();
    expected.extend_from_slice(&[1u8; 20]);
    expected.push(b'e');
    assert_eq!(i.get_bytes(), Ok(expected));
}

#[test]
fn the_dictionary_form_is_what_the_codec_writes() {
    let i = info(1000, 400, 3);
    let mut d = BencodeDict::new();
    d.insert(b"pieces".to_vec(), BencodeValue::ByteString(i.pieces.clone()));
    d.insert(b"name".to_vec(), BencodeValue::ByteString(i.name.as_bytes().to_vec()));
    d.insert(b"piece length".to_vec(), BencodeValue::Integer(400));
    d.insert(b"length".to_vec(), BencodeValue::Integer(1000));
    assert_eq!(i.get_bytes(), Ok(encode(&BencodeValue::Dictionary(d))));
}

#[test]
fn a_name_beyond_ascii_is_written_as_utf8() {
    let i = TorrentInfo { name: "é".to_string(), length: 0, piece_length: 1, pieces: vec![] };
    let mut expected = b"d6:lengthi0e4:name2:".to_vec();
    expected.extend_from_slice("é".as_bytes());
    expected.extend_from_slice(b"12:piece lengthi1e6:pieces0:e");
    assert_eq!(i.get_bytes(), Ok(expected));
}

#[test]
fn the_info_hash_is_the_digest_of_the_info_dictionary() {
    let pieces: Vec<u8> = (100..160).collect();
    let known = info_bytes(&pieces);
    let t = Torrent::from_file(torrent_file(&known)).unwrap();
    assert_eq!(t.info.get_bytes(), Ok(known.clone()));
    assert_eq!(t.info.get_hash(), Ok(Sha1::digest(&known).to_vec()));
}

#[test]
fn the_info_hash_of_known_bytes() {
    let i = TorrentInfo { name: "a".to_string(), length: 1, piece_length: 1, pieces: vec![] };
    assert_eq!(i.get_bytes(), Ok(b"d6:lengthi1e4:name1:a12:piece lengthi1e6:pieces0:e".to_vec()));
    let hash = i.get_hash().unwrap();
    assert_eq!(hash.len(), 20);
    assert_eq!(
        hash,
        Sha1::digest(b"d6:lengthi1e4:name1:a12:piece lengthi1e6:pieces0:e").to_vec()
    );
    assert_ne!(hash, b"d6:lengthi1e4:name1:a12:piece lengthi1e6:pieces0:e".to_vec());
}

#[test]
fn the_info_hash_is_stable() {
    let a = info(1000, 400, 3);
    let b = info(1000, 400, 3);
    assert_eq!(a.get_bytes(), a.get_bytes());
    assert_eq!(a.get_hash(), a.get_hash());
    assert_eq!(a.get_bytes(), b.get_bytes());
    assert_eq!(a.get_hash(), b.get_hash());
}

#[test]
fn the_info_hash_as_text() {
    let i = info(1000, 400, 3);
    let hash = i.get_hash().unwrap();
    let mut hex = String::new();
    let mut escaped = String::new();
    for b in &hash {
        hex.push_str(&format!("{:02x}", b));
        escaped.push_str(&format!("%{:02x}", b));
    }
    assert_eq!(i.to_hash_string(), Ok(hex));
    assert_eq!(i.encode_url_hash(), Ok(escaped));
}

#[test]
fn chunks_are_shown_in_lower_case_hex() {
    let i = info(0, 1, 0);
    assert_eq!(i.chunks_to_hex(&[0x00, 0x0f, 0xa5, 0xff]), Ok("000fa5ff".to_string()));
    assert_eq!(i.chunks_to_hex(&[]), Ok(String::new()));
}
