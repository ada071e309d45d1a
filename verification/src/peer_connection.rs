//! One connection to a peer, seen from the protocol's side: which bytes
//! are to be sent, what the bytes that arrived mean, and in which state
//! the connection is. Reading and writing the socket is the caller's part.

use vstd::prelude::*;
use vstd::slice::{slice_subrange, slice_to_vec};
use vstd::string::StringSliceAdditionalSpecFns;
use crate::download::{start_of, PieceDownload, PieceProgress};
use crate::error::Error;
use crate::lexical::bytes_equal;
use crate::torrent::Torrent;
use crate::wire::{
    be32, be32_value, encode_frame, encode_handshake, encode_request, frame, handshake_bytes,
    lemma_be32_value, lemma_handshake_layout, read_be32, request_payload, HANDSHAKE_LENGTH,
    ID_LENGTH,
};

verus! {

/// What a peer's handshake says of it.
#[derive(Debug, Clone, PartialEq, Eq)]
pub struct PeerConnectionResponse {
    /// The info-hash that the peer sent back, twenty bytes.
    pub info_hash: Vec<u8>,
    /// The id of the peer, twenty bytes.
    pub peer_id: Vec<u8>,
}

/// The states of a connection.
#[derive(Debug, Clone, Copy, PartialEq, Eq, Structural)]
pub enum PeerState {
    /// No transport is open.
    Disconnected,
    /// The transport is open and no handshake was exchanged.
    Connected,
    /// The handshakes were exchanged.
    Handshaken,
    /// The peer said that it will not answer requests.
    Choked,
    /// The peer said that it will answer requests.
    Unchoked,
}

/// The protocol's side of a connection to one peer.
#[derive(Debug, Clone, Copy, PartialEq, Eq)]
pub struct PeerConnection {
    /// The state that the connection is in.
    pub state: PeerState,
}

/// The state after a message with the id `id` was taken in: a `CHOKE`
/// leads to `Choked`, an `UNCHOKE` to `Unchoked`, any other changes
/// nothing.
pub open spec fn state_after(state: PeerState, id: u8) -> PeerState {
    if id == PeerConnection::CHOKE {
        PeerState::Choked
    } else if id == PeerConnection::UNCHOKE {
        PeerState::Unchoked
    } else {
        state
    }
}

/// How many bytes follow a length prefix: the number that its four bytes
/// denote. A prefix that is not four bytes long, or that announces
/// nothing, not even the id of a message, is a `ProtocolViolation`.
pub open spec fn body_length(prefix: Seq<u8>) -> Result<int, Error> {
    if prefix.len() != 4 || be32_value(prefix) == 0 || be32_value(prefix) > usize::MAX {
        Err(Error::ProtocolViolation)
    } else {
        Ok(be32_value(prefix))
    }
}

/// The payload of a message that was waited for: what follows the id,
/// where the id is the expected one. An empty message, or another id, is
/// a `ProtocolViolation`.
pub open spec fn payload_of(id: u8, message: Seq<u8>) -> Result<Seq<u8>, Error> {
    if message.len() == 0 || message[0] != id {
        Err(Error::ProtocolViolation)
    } else {
        Ok(message.skip(1))
    }
}

/// What a handshake that arrived says: the info-hash in the bytes from 28
/// and the peer id in the bytes from 48, where it has sixty-eight bytes.
pub open spec fn handshake_fields(reply: Seq<u8>) -> Result<(Seq<u8>, Seq<u8>), Error> {
    if reply.len() != 68 {
        Err(Error::ProtocolViolation)
    } else {
        Ok((reply.subrange(28, 48), reply.subrange(48, 68)))
    }
}

impl PeerConnectionResponse {
    /// Whether the peer sent back the info-hash `info_hash`. A caller that
    /// goes on after a handshake whose hash is another talks about
    /// another torrent than the peer.
    pub fn confirms(&self, info_hash: &[u8]) -> (b: bool)
        ensures
            b == (self.info_hash@ == info_hash@),
    {
        bytes_equal(self.info_hash.as_slice(), info_hash)
    }
}

impl PeerConnection {
    pub const CHOKE: u8 = 0;

    pub const UNCHOKE: u8 = 1;

    pub const INTERESTED: u8 = 2;

    pub const NOTINTERESTED: u8 = 3;

    pub const HAVE: u8 = 4;

    pub const BITFIELD: u8 = 5;

    pub const REQUEST: u8 = 6;

    pub const PIECE: u8 = 7;

    pub const CANCEL: u8 = 8;

    /// A connection whose transport is yet to be opened.
    pub fn new() -> (c: PeerConnection)
        ensures
            c.state == PeerState::Disconnected,
    {
        PeerConnection { state: PeerState::Disconnected }
    }

    /// Takes note that the transport was opened.
    pub fn connect(&mut self)
        ensures
            final(self).state == PeerState::Connected,
    {
        self.state = PeerState::Connected;
    }

    /// The handshake to send: sixty-eight bytes with the info-hash and
    /// this client's id. Fails with `ProtocolViolation` where one of the
    /// two is not twenty bytes long, as no handshake can carry it.
    pub fn handshake(&self, info_hash: &[u8], peer_id: &str) -> (r: Result<Vec<u8>, Error>)
        ensures
            match r {
                Ok(message) => info_hash@.len() == 20 && peer_id.spec_bytes().len() == 20
                    && message@ == handshake_bytes(info_hash@, peer_id.spec_bytes())
                    && message@.len() == 68,
                Err(e) => e == Error::ProtocolViolation && !(info_hash@.len() == 20
                    && peer_id.spec_bytes().len() == 20),
            },
    {
        let id = peer_id.as_bytes();
        if info_hash.len() != ID_LENGTH || id.len() != ID_LENGTH {
            return Err(Error::ProtocolViolation);
        }
        proof {
            lemma_handshake_layout(info_hash@, id@);
        }
        Ok(encode_handshake(info_hash, id))
    }

    /// Takes in the handshake that the peer sent, and moves to
    /// `Handshaken`. Whether the peer's info-hash is the one that was sent
    /// is for the caller to ask of the result. Fails with
    /// `ProtocolViolation`, and changes nothing, where the reply is not
    /// sixty-eight bytes long.
    pub fn handshake_reply(&mut self, reply: &[u8]) -> (r: Result<PeerConnectionResponse, Error>)
        ensures
            match r {
                Ok(response) => handshake_fields(reply@) == Ok::<(Seq<u8>, Seq<u8>), Error>(
                    (response.info_hash@, response.peer_id@),
                ) && final(self).state == PeerState::Handshaken,
                Err(e) => handshake_fields(reply@) == Err::<(Seq<u8>, Seq<u8>), Error>(e)
                    && final(self).state == old(self).state,
            },
    {
        if reply.len() != HANDSHAKE_LENGTH {
            return Err(Error::ProtocolViolation);
        }
        let info_hash = slice_to_vec(slice_subrange(reply, 28, 28 + ID_LENGTH));
        let peer_id = slice_to_vec(slice_subrange(reply, 48, 48 + ID_LENGTH));
        self.state = PeerState::Handshaken;
        Ok(PeerConnectionResponse { info_hash, peer_id })
    }

    /// The frame to send for a message: the length of id and payload in
    /// four bytes, the id, the payload. Fails with `ProtocolViolation`
    /// where the payload is too long for that length to be written.
    pub fn send_message(&self, id: u8, payload: &[u8]) -> (r: Result<Vec<u8>, Error>)
        ensures
            match r {
                Ok(bytes) => payload@.len() < u32::MAX && bytes@ == frame(id, payload@),
                Err(e) => e == Error::ProtocolViolation && payload@.len() >= u32::MAX,
            },
    {
        if payload.len() >= 0xFFFF_FFFF {
            return Err(Error::ProtocolViolation);
        }
        Ok(encode_frame(id, payload))
    }

    /// The frame to send for `INTERESTED`, which has no payload.
    pub fn send_interested(&self) -> (bytes: Vec<u8>)
        ensures
            bytes@ == frame(PeerConnection::INTERESTED, Seq::empty()),
    {
        let payload: Vec<u8> = Vec::new();
        encode_frame(PeerConnection::INTERESTED, payload.as_slice())
    }

    /// The frame to send for a `REQUEST` of `length` bytes from offset
    /// `begin` of the piece `index`.
    pub fn send_request(&self, index: u32, begin: u32, length: u32) -> (bytes: Vec<u8>)
        ensures
            bytes@ == frame(
                PeerConnection::REQUEST,
                request_payload(index as int, begin as int, length as int),
            ),
    {
        let payload = encode_request(index, begin, length);
        encode_frame(PeerConnection::REQUEST, payload.as_slice())
    }

    /// How many bytes to read behind the length prefix `prefix`: the id of
    /// the message and its payload.
    pub fn frame_length(prefix: &[u8]) -> (r: Result<usize, Error>)
        ensures
            match r {
                Ok(n) => body_length(prefix@) == Ok::<int, Error>(n as int),
                Err(e) => body_length(prefix@) == Err::<int, Error>(e),
            },
    {
        if prefix.len() != 4 {
            return Err(Error::ProtocolViolation);
        }
        assert(prefix@.subrange(0, 4) =~= prefix@);
        let n: u32 = read_be32(prefix, 0);
        if n == 0 || (n as u64) > (usize::MAX as u64) {
            return Err(Error::ProtocolViolation);
        }
        Ok(n as usize)
    }

    /// Takes in a message that was waited for, `message` being what was
    /// read behind the length prefix, and gives its payload. A `CHOKE` or
    /// an `UNCHOKE` that was waited for changes the state. Fails with
    /// `ProtocolViolation`, and changes nothing, where the message is
    /// empty or its id is not `id`.
    pub fn wait(&mut self, id: u8, message: &[u8]) -> (r: Result<Vec<u8>, Error>)
        ensures
            match r {
                Ok(payload) => payload_of(id, message@) == Ok::<Seq<u8>, Error>(payload@)
                    && final(self).state == state_after(old(self).state, id),
                Err(e) => payload_of(id, message@) == Err::<Seq<u8>, Error>(e)
                    && final(self).state == old(self).state,
            },
    {
        if message.len() == 0 || message[0] != id {
            return Err(Error::ProtocolViolation);
        }
        if id == PeerConnection::CHOKE {
            self.state = PeerState::Choked;
        } else if id == PeerConnection::UNCHOKE {
            self.state = PeerState::Unchoked;
        }
        let payload = slice_to_vec(slice_subrange(message, 1, message.len()));
        assert(payload@ =~= message@.skip(1));
        Ok(payload)
    }

    /// Starts the download of the piece `piece_index` of `meta`. The
    /// result holds the requests to send, takes in the replies, and in the
    /// end checks the piece against its hash.
    pub fn download_piece(&self, meta: &Torrent, piece_index: u32) -> (r: Result<
        PieceDownload,
        Error,
    >)
        ensures
            match r {
                Ok(d) => start_of(&meta.info, piece_index as int) == Ok::<PieceProgress, Error>(
                    d@,
                ),
                Err(e) => start_of(&meta.info, piece_index as int) == Err::<PieceProgress, Error>(
                    e,
                ),
            },
    {
        PieceDownload::new(&meta.info, piece_index)
    }
}

/// A handshake that was built is read back: the reply of a peer that
/// sends the same handshake confirms the info-hash.
pub proof fn lemma_handshake_round_trip(info_hash: Seq<u8>, peer_id: Seq<u8>)
    requires
        info_hash.len() == 20,
        peer_id.len() == 20,
    ensures
        handshake_fields(handshake_bytes(info_hash, peer_id)) == Ok::<(Seq<u8>, Seq<u8>), Error>(
            (info_hash, peer_id),
        ),
{
    lemma_handshake_layout(info_hash, peer_id);
}

/// A frame that was built is read back: its first four bytes announce the
/// rest, and the rest is the message with the id and the payload.
pub proof fn lemma_frame_round_trip(id: u8, payload: Seq<u8>)
    requires
        payload.len() < u32::MAX,
        payload.len() < usize::MAX,
    ensures
        frame(id, payload).len() == 5 + payload.len(),
        body_length(frame(id, payload).subrange(0, 4)) == Ok::<int, Error>(
            1 + payload.len() as int,
        ),
        payload_of(id, frame(id, payload).skip(4)) == Ok::<Seq<u8>, Error>(payload),
{
    let f = frame(id, payload);
    lemma_be32_value(1 + payload.len() as int);
    assert(f.subrange(0, 4) =~= be32(1 + payload.len() as int));
    assert(f.skip(4).skip(1) =~= payload);
}

} // verus!
