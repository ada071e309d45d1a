//! The tracker: what the client asks it, and the compact peer list that
//! it answers with.

use vstd::prelude::*;
use vstd::slice::slice_to_vec;
use vstd::string::StringExecFns;
use crate::decimal::{decimal, push_decimal};
use crate::error::Error;
use crate::grammar::decode_spec;
use crate::model::Bencode;
use crate::parser::decode_bytes;
use crate::text::{ascii_text, percent_text, push_ascii};
use crate::torrent::{byte_string_at, integer_at, TorrentInfo};
use crate::value::BencodeValue;

verus! {

/// The key `interval`.
pub open spec fn key_interval() -> Seq<u8> {
    seq![105u8, 110, 116, 101, 114, 118, 97, 108]
}

/// The key `peers`.
pub open spec fn key_peers() -> Seq<u8> {
    seq![112u8, 101, 101, 114, 115]
}

/// The size of one record of a compact peer list: four bytes of address
/// and two of port.
pub const PEER_RECORD_LENGTH: usize = 6;

/// What the client tells the tracker when it announces itself.
#[derive(Debug, Clone, PartialEq, Eq)]
pub struct TrackerRequest {
    /// The info-hash, every byte as a percent escape.
    pub info_hash: String,
    /// The twenty characters by which this client goes.
    pub peer_id: String,
    /// The port on which this client listens.
    pub port: u16,
    /// How many bytes were uploaded so far.
    pub uploaded: u64,
    /// How many bytes were downloaded so far.
    pub downloaded: u64,
    /// How many bytes are still to be downloaded.
    pub left: u64,
    /// Whether the peer list is wanted in compact form: 1 if so.
    pub compact: u8,
}

/// What the tracker answers.
#[derive(Debug, Clone, PartialEq, Eq)]
pub struct TrackerResponse {
    /// How many seconds to wait before the next announce.
    pub interval: u64,
    /// The peers in compact form, six bytes each.
    pub peers: Vec<u8>,
}

/// The address of a peer: an IPv4 address and a port.
#[derive(Debug, Clone, Copy, PartialEq, Eq)]
pub struct PeerAddress {
    /// The four octets of the address, in the order in which they are
    /// written.
    pub ip: [u8; 4],
    /// The port.
    pub port: u16,
}

/// The port that two bytes in big-endian order denote.
pub open spec fn port_of(high: u8, low: u8) -> int {
    high as int * 256 + low as int
}

/// How an address is written: the four octets in decimal with dots
/// between them, a colon, and the port in decimal.
pub open spec fn address_text(ip: Seq<u8>, port: int) -> Seq<char> {
    ascii_text(
        decimal(ip[0] as nat) + seq![46u8] + decimal(ip[1] as nat) + seq![46u8] + decimal(
            ip[2] as nat,
        ) + seq![46u8] + decimal(ip[3] as nat) + seq![58u8] + decimal(port as nat),
    )
}

/// How the peer of a six-byte record is written: its first four bytes are
/// the octets of the address, its last two the port in big-endian order.
pub open spec fn peer_text(record: Seq<u8>) -> Seq<char> {
    address_text(record.subrange(0, 4), port_of(record[4], record[5]))
}

/// Record number `i` of a compact peer list.
pub open spec fn record_at(blob: Seq<u8>, i: int) -> Seq<u8> {
    blob.subrange(6 * i, 6 * i + 6)
}

/// What a tracker's reply says, where it is a dictionary with an
/// `interval` that is no negative number and `peers` that is a byte
/// string.
pub open spec fn response_fields(v: Bencode) -> Option<(int, Seq<u8>)> {
    match v {
        Bencode::Dictionary(d) => match (
            integer_at(d, key_interval()),
            byte_string_at(d, key_peers()),
        ) {
            (Some(interval), Some(peers)) => if 0 <= interval <= u64::MAX {
                Some((interval, peers))
            } else {
                None
            },
            _ => None,
        },
        _ => None,
    }
}

/// What parsing a tracker's reply gives: the interval and the peers, or
/// `MalformedInput` where the bytes are not bencode, or
/// `MalformedPeerList` where the value does not have the two fields.
pub open spec fn parse_response(bytes: Seq<u8>) -> Result<(int, Seq<u8>), Error> {
    match decode_spec(bytes) {
        Err(e) => Err(e),
        Ok(v) => match response_fields(v) {
            Some(fields) => Ok(fields),
            None => Err(Error::MalformedPeerList),
        },
    }
}

impl PeerAddress {
    /// Whether this is the address that the six-byte record `record`
    /// holds.
    pub open spec fn is_record(&self, record: Seq<u8>) -> bool {
        &&& self.ip@ == record.subrange(0, 4)
        &&& self.port == port_of(record[4], record[5])
    }

    /// The address as `a.b.c.d:port`.
    pub fn to_string(&self) -> (s: String)
        ensures
            s@ == address_text(self.ip@, self.port as int),
    {
        let mut bytes: Vec<u8> = Vec::new();
        push_decimal(&mut bytes, self.ip[0] as u64);
        bytes.push(46);
        push_decimal(&mut bytes, self.ip[1] as u64);
        bytes.push(46);
        push_decimal(&mut bytes, self.ip[2] as u64);
        bytes.push(46);
        push_decimal(&mut bytes, self.ip[3] as u64);
        bytes.push(58);
        push_decimal(&mut bytes, self.port as u64);
        let mut s = String::new();
        push_ascii(&mut s, bytes.as_slice());
        assert(s@ =~= address_text(self.ip@, self.port as int));
        s
    }
}

/// Splits a compact peer list into its peers. Fails with
/// `MalformedPeerList` where the list is not a whole number of six-byte
/// records.
pub fn decode_compact_peers(blob: &[u8]) -> (r: Result<Vec<PeerAddress>, Error>)
    ensures
        match r {
            Ok(peers) => blob@.len() % 6 == 0 && peers@.len() == blob@.len() / 6 && forall|i: int|
                0 <= i < peers@.len() ==> (#[trigger] peers@[i]).is_record(record_at(blob@, i)),
            Err(e) => blob@.len() % 6 != 0 && e == Error::MalformedPeerList,
        },
{
    if blob.len() % PEER_RECORD_LENGTH != 0 {
        return Err(Error::MalformedPeerList);
    }
    let n: usize = blob.len() / PEER_RECORD_LENGTH;
    let mut peers: Vec<PeerAddress> = Vec::new();
    let mut i: usize = 0;
    while i < n
        invariant
            i <= n,
            6 * n == blob.len(),
            peers@.len() == i,
            forall|j: int| 0 <= j < i ==> (#[trigger] peers@[j]).is_record(record_at(blob@, j)),
        decreases n - i,
    {
        let at: usize = i * PEER_RECORD_LENGTH;
        let ip: [u8; 4] = [blob[at], blob[at + 1], blob[at + 2], blob[at + 3]];
        let port: u16 = (blob[at + 4] as u16) * 256 + (blob[at + 5] as u16);
        let peer = PeerAddress { ip, port };
        assert(peer.ip@ =~= record_at(blob@, i as int).subrange(0, 4));
        peers.push(peer);
        i += 1;
    }
    Ok(peers)
}

impl TrackerRequest {
    /// The request for the torrent that `data` describes: its info-hash
    /// for the URL, the client's fixed identity and port, nothing up- or
    /// downloaded yet, the whole content left, and the compact form asked
    /// for.
    pub fn new(data: &TorrentInfo) -> (r: Result<TrackerRequest, Error>)
        ensures
            r matches Ok(request) && {
                &&& request.info_hash@ == percent_text(data.info_hash())
                &&& request.peer_id@ == "00112233445566778899"@
                &&& request.port == 6881
                &&& request.uploaded == 0
                &&& request.downloaded == 0
                &&& request.left == data.length
                &&& request.compact == 1
            },
    {
        let info_hash = match data.encode_url_hash() {
            Ok(s) => s,
            Err(e) => {
                return Err(e);
            },
        };
        Ok(
            TrackerRequest {
                info_hash,
                peer_id: String::from_str("00112233445566778899"),
                port: 6881,
                uploaded: 0,
                downloaded: 0,
                left: data.length as u64,
                compact: 1,
            },
        )
    }

    /// The URL to ask: the tracker's URL, `?info_hash=` and the escaped
    /// info-hash. The other fields are sent as further query parameters.
    pub fn announce_url(&self, tracker_url: &str) -> (url: String)
        ensures
            url@ == tracker_url@ + "?info_hash="@ + self.info_hash@,
    {
        let url = String::from_str(tracker_url);
        let url = url.concat("?info_hash=");
        url.concat(self.info_hash.as_str())
    }
}

impl TrackerResponse {
    /// Parses the bytes of a tracker's reply. Fails with `MalformedInput`
    /// where they are not one bencode value, and with `MalformedPeerList`
    /// where the value is no dictionary with an `interval` that is a
    /// number from zero up and `peers` that is a byte string.
    pub fn from_bytes(bytes: &[u8]) -> (r: Result<TrackerResponse, Error>)
        ensures
            match r {
                Ok(response) => parse_response(bytes@) == Ok::<(int, Seq<u8>), Error>(
                    (response.interval as int, response.peers@),
                ),
                Err(e) => parse_response(bytes@) == Err::<(int, Seq<u8>), Error>(e),
            },
    {
        let value = match decode_bytes(bytes) {
            Ok(v) => v,
            Err(e) => {
                return Err(e);
            },
        };
        let interval_key = vec![105u8, 110, 116, 101, 114, 118, 97, 108];
        let peers_key = vec![112u8, 101, 101, 114, 115];
        assert(interval_key@ =~= key_interval());
        assert(peers_key@ =~= key_peers());
        match &value {
            BencodeValue::Dictionary(d) => {
                let interval: u64 = match d.get(interval_key.as_slice()) {
                    Some(BencodeValue::Integer(i)) => {
                        if *i < 0 {
                            return Err(Error::MalformedPeerList);
                        }
                        *i as u64
                    },
                    _ => {
                        return Err(Error::MalformedPeerList);
                    },
                };
                match d.get(peers_key.as_slice()) {
                    Some(BencodeValue::ByteString(b)) => Ok(
                        TrackerResponse { interval, peers: slice_to_vec(b.as_slice()) },
                    ),
                    _ => Err(Error::MalformedPeerList),
                }
            },
            _ => Err(Error::MalformedPeerList),
        }
    }

    /// The peers of the reply, each as `a.b.c.d:port`. Fails with
    /// `MalformedPeerList` where `peers` is not a whole number of six-byte
    /// records.
    pub fn from_peers(&self) -> (r: Result<Vec<String>, Error>)
        ensures
            match r {
                Ok(peers) => self.peers@.len() % 6 == 0 && peers@.len() == self.peers@.len() / 6
                    && forall|i: int|
                    0 <= i < peers@.len() ==> (#[trigger] peers@[i])@ == peer_text(
                        record_at(self.peers@, i),
                    ),
                Err(e) => self.peers@.len() % 6 != 0 && e == Error::MalformedPeerList,
            },
    {
        let addresses = match decode_compact_peers(self.peers.as_slice()) {
            Ok(a) => a,
            Err(e) => {
                return Err(e);
            },
        };
        let mut peers: Vec<String> = Vec::new();
        let mut i: usize = 0;
        while i < addresses.len()
            invariant
                i <= addresses@.len(),
                peers@.len() == i,
                addresses@.len() == self.peers@.len() / 6,
                forall|j: int|
                    0 <= j < addresses@.len() ==> (#[trigger] addresses@[j]).is_record(
                        record_at(self.peers@, j),
                    ),
                forall|j: int|
                    0 <= j < i ==> (#[trigger] peers@[j])@ == peer_text(record_at(self.peers@, j)),
            decreases addresses@.len() - i,
        {
            let text = addresses[i].to_string();
            peers.push(text);
            i += 1;
        }
        Ok(peers)
    }
}

} // verus!
