//! The byte layouts of the peer wire protocol: big-endian numbers, the
//! handshake, and the framing of messages.

use vstd::prelude::*;
use crate::encoder::push_bytes;

verus! {

/// The four bytes of `x` in big-endian order, for `x` below 2^32.
pub open spec fn be32(x: int) -> Seq<u8> {
    seq![
        (x / 16777216 % 256) as u8,
        (x / 65536 % 256) as u8,
        (x / 256 % 256) as u8,
        (x % 256) as u8,
    ]
}

/// The number that the first four bytes of `b` denote in big-endian order.
pub open spec fn be32_value(b: Seq<u8>) -> int {
    b[0] as int * 16777216 + b[1] as int * 65536 + b[2] as int * 256 + b[3] as int
}

/// Reading a number that was written gives it back.
pub proof fn lemma_be32_value(x: int)
    requires
        0 <= x <= u32::MAX,
    ensures
        be32(x).len() == 4,
        be32_value(be32(x)) == x,
{
}

/// Writing a number that was read gives the bytes back.
pub proof fn lemma_be32_bytes(b: Seq<u8>)
    requires
        b.len() == 4,
    ensures
        0 <= be32_value(b) <= u32::MAX,
        be32(be32_value(b)) == b,
{
    let b0: int = b[0] as int;
    let b1: int = b[1] as int;
    let b2: int = b[2] as int;
    let b3: int = b[3] as int;
    let v: int = be32_value(b);
    assert(v == (b0 * 65536 + b1 * 256 + b2) * 256 + b3);
    assert(v % 256 == b3 && v / 256 == b0 * 65536 + b1 * 256 + b2);
    assert(v / 256 == (b0 * 256 + b1) * 256 + b2);
    assert(v / 256 % 256 == b2);
    assert(v / 65536 == b0 * 256 + b1);
    assert(v / 65536 % 256 == b1);
    assert(v / 16777216 == b0);
    assert(be32(v) =~= b);
}

/// Appends `x` in big-endian order.
pub fn push_be32(out: &mut Vec<u8>, x: u32)
    ensures
        final(out)@ == old(out)@ + be32(x as int),
{
    out.push((x / 16777216) as u8);
    out.push((x / 65536 % 256) as u8);
    out.push((x / 256 % 256) as u8);
    out.push((x % 256) as u8);
    assert(out@ =~= old(out)@ + be32(x as int));
}

/// Reads the big-endian number in the four bytes at `at`.
pub fn read_be32(bytes: &[u8], at: usize) -> (x: u32)
    requires
        at + 4 <= bytes@.len(),
    ensures
        x == be32_value(bytes@.subrange(at as int, at + 4)),
{
    let b0: u32 = bytes[at] as u32;
    let b1: u32 = bytes[at + 1] as u32;
    let b2: u32 = bytes[at + 2] as u32;
    let b3: u32 = bytes[at + 3] as u32;
    b0 * 16777216 + b1 * 65536 + b2 * 256 + b3
}

/// The length of a handshake in bytes.
pub const HANDSHAKE_LENGTH: usize = 68;

/// The length of an info-hash and of a peer id in bytes.
pub const ID_LENGTH: usize = 20;

/// The name of the protocol, `BitTorrent protocol`.
pub open spec fn protocol_name() -> Seq<u8> {
    seq![
        66u8, 105, 116, 84, 111, 114, 114, 101, 110, 116, 32, 112, 114, 111, 116, 111, 99, 111, 108,
    ]
}

/// The handshake: the length of the protocol's name, the name, eight
/// reserved zero bytes, the info-hash, the peer id.
pub open spec fn handshake_bytes(info_hash: Seq<u8>, peer_id: Seq<u8>) -> Seq<u8> {
    seq![19u8] + protocol_name() + seq![0u8, 0, 0, 0, 0, 0, 0, 0] + info_hash + peer_id
}

/// A message as it is framed: the length of what follows in four bytes,
/// the id of the message, the payload.
pub open spec fn frame(id: u8, payload: Seq<u8>) -> Seq<u8> {
    be32(1 + payload.len() as int) + seq![id] + payload
}

/// The payload of a request: the index of the piece, where the block
/// begins in it, and the length of the block, four bytes each.
pub open spec fn request_payload(index: int, begin: int, length: int) -> Seq<u8> {
    be32(index) + be32(begin) + be32(length)
}

/// The handshake of twenty-byte ids has sixty-eight bytes, and the ids
/// stand at the offsets 28 and 48.
pub proof fn lemma_handshake_layout(info_hash: Seq<u8>, peer_id: Seq<u8>)
    requires
        info_hash.len() == 20,
        peer_id.len() == 20,
    ensures
        handshake_bytes(info_hash, peer_id).len() == 68,
        handshake_bytes(info_hash, peer_id).subrange(28, 48) == info_hash,
        handshake_bytes(info_hash, peer_id).subrange(48, 68) == peer_id,
{
    let h = handshake_bytes(info_hash, peer_id);
    assert(h.subrange(28, 48) =~= info_hash);
    assert(h.subrange(48, 68) =~= peer_id);
}

/// Builds the handshake of `info_hash` and `peer_id`.
pub fn encode_handshake(info_hash: &[u8], peer_id: &[u8]) -> (out: Vec<u8>)
    ensures
        out@ == handshake_bytes(info_hash@, peer_id@),
{
    let mut out: Vec<u8> = vec![
        19u8, 66, 105, 116, 84, 111, 114, 114, 101, 110, 116, 32, 112, 114, 111, 116, 111, 99, 111,
        108, 0, 0, 0, 0, 0, 0, 0, 0,
    ];
    assert(out@ =~= seq![19u8] + protocol_name() + seq![0u8, 0, 0, 0, 0, 0, 0, 0]);
    push_bytes(&mut out, info_hash);
    push_bytes(&mut out, peer_id);
    out
}

/// Frames a message.
pub fn encode_frame(id: u8, payload: &[u8]) -> (out: Vec<u8>)
    requires
        payload@.len() < u32::MAX,
    ensures
        out@ == frame(id, payload@),
{
    let mut out: Vec<u8> = Vec::new();
    push_be32(&mut out, (payload.len() + 1) as u32);
    out.push(id);
    push_bytes(&mut out, payload);
    assert(out@ =~= frame(id, payload@));
    out
}

/// Builds the payload of a request.
pub fn encode_request(index: u32, begin: u32, length: u32) -> (out: Vec<u8>)
    ensures
        out@ == request_payload(index as int, begin as int, length as int),
        out@.len() == 12,
{
    let mut out: Vec<u8> = Vec::new();
    push_be32(&mut out, index);
    push_be32(&mut out, begin);
    push_be32(&mut out, length);
    out
}

} // verus!
