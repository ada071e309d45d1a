//! Downloading a piece block by block: how a piece is cut into blocks,
//! where the blocks that arrive are put, and how the whole is checked
//! against the recorded hash.

use vstd::prelude::*;
use vstd::slice::slice_subrange;
use crate::error::Error;
use crate::hash::{sha1, sha1_digest};
use crate::lexical::bytes_equal;
use crate::peer_connection::PeerConnection;
use crate::torrent::TorrentInfo;
use crate::wire::{
    be32, be32_value, encode_frame, encode_request, frame, lemma_be32_value, read_be32,
    request_payload,
};

verus! {

/// The size of a block: 16 KiB.
pub const BLOCK_SIZE: usize = 16384;

/// Into how many blocks a piece of `piece_len` bytes is cut.
pub open spec fn block_count_spec(piece_len: int) -> int {
    (piece_len + 16383) / 16384
}

/// Where block number `block` begins in its piece.
pub open spec fn block_begin(block: int) -> int {
    block * 16384
}

/// The length of block number `block` of a piece of `piece_len` bytes:
/// 16 KiB, but for the last block what is left of the piece.
pub open spec fn block_length_spec(piece_len: int, block: int) -> int {
    if block < block_count_spec(piece_len) - 1 {
        16384
    } else {
        piece_len - (block_count_spec(piece_len) - 1) * 16384
    }
}

/// The blocks of a piece lie one behind the other and end where the piece
/// ends; none is empty and none is longer than 16 KiB.
pub proof fn lemma_blocks_partition(piece_len: int, block: int)
    requires
        0 <= piece_len,
        0 <= block < block_count_spec(piece_len),
    ensures
        0 < block_length_spec(piece_len, block) <= 16384,
        block_begin(block) + block_length_spec(piece_len, block) <= piece_len,
        block < block_count_spec(piece_len) - 1 ==> block_begin(block) + block_length_spec(
            piece_len,
            block,
        ) == block_begin(block + 1),
        block == block_count_spec(piece_len) - 1 ==> block_begin(block) + block_length_spec(
            piece_len,
            block,
        ) == piece_len,
{
}

/// Every position of a piece lies in exactly one block: the one whose
/// number is the position divided by the size of a block.
pub proof fn lemma_block_of_position(piece_len: int, position: int)
    requires
        0 <= position < piece_len,
    ensures
        0 <= position / 16384 < block_count_spec(piece_len),
        block_begin(position / 16384) <= position < block_begin(position / 16384)
            + block_length_spec(piece_len, position / 16384),
{
}

/// Into how many blocks a piece of `piece_len` bytes is cut.
pub fn block_count(piece_len: usize) -> (n: usize)
    ensures
        n == block_count_spec(piece_len as int),
{
    if piece_len % BLOCK_SIZE != 0 {
        piece_len / BLOCK_SIZE + 1
    } else {
        piece_len / BLOCK_SIZE
    }
}

/// The length of block number `block` of a piece of `piece_len` bytes.
pub fn block_length(piece_len: usize, block: usize) -> (n: usize)
    requires
        block < block_count_spec(piece_len as int),
    ensures
        n == block_length_spec(piece_len as int, block as int),
{
    if block < block_count(piece_len) - 1 {
        BLOCK_SIZE
    } else {
        piece_len - block * BLOCK_SIZE
    }
}

/// The buffer with `data` written over what it held from position `at`.
pub open spec fn overwrite(buffer: Seq<u8>, at: int, data: Seq<u8>) -> Seq<u8> {
    buffer.subrange(0, at) + data + buffer.subrange(at + data.len(), buffer.len() as int)
}

/// Writes `data` into `buffer` from position `at`.
pub fn write_at(buffer: &mut Vec<u8>, at: usize, data: &[u8])
    requires
        at + data@.len() <= old(buffer)@.len(),
    ensures
        final(buffer)@ == overwrite(old(buffer)@, at as int, data@),
{
    let mut i: usize = 0;
    assert(buffer@ =~= overwrite(old(buffer)@, at as int, data@.take(0)));
    while i < data.len()
        invariant
            i <= data@.len(),
            at + data@.len() <= old(buffer)@.len(),
            buffer.len() == old(buffer)@.len(),
            buffer@ == overwrite(old(buffer)@, at as int, data@.take(i as int)),
        decreases data@.len() - i,
    {
        buffer[at + i] = data[i];
        assert(buffer@ =~= overwrite(old(buffer)@, at as int, data@.take(i + 1)));
        i += 1;
    }
    assert(data@.take(data@.len() as int) =~= data@);
}

/// A buffer of `n` zero bytes.
pub fn zeros(n: usize) -> (buffer: Vec<u8>)
    ensures
        buffer@.len() == n,
        forall|i: int| 0 <= i < n ==> buffer@[i] == 0,
{
    vec![0u8; n]
}

/// How far the download of one piece has come.
pub struct PieceProgress {
    /// The index of the piece.
    pub piece_index: int,
    /// The hash that the piece has to have.
    pub expected: Seq<u8>,
    /// The piece as far as it has arrived; bytes that have not are zero.
    pub buffer: Seq<u8>,
    /// How many replies for this piece were taken in.
    pub received: int,
}

impl PieceProgress {
    /// Whether as many replies were taken in as the piece has blocks.
    pub open spec fn complete(self) -> bool {
        self.received >= block_count_spec(self.buffer.len() as int)
    }

    /// The frame that asks for block number `block`.
    pub open spec fn request(self, block: int) -> Seq<u8> {
        frame(
            PeerConnection::REQUEST,
            request_payload(
                self.piece_index,
                block_begin(block),
                block_length_spec(self.buffer.len() as int, block),
            ),
        )
    }

    /// What taking in the payload of a `PIECE` message leads to. A payload
    /// of less than eight bytes, or a block that does not lie within the
    /// piece, is a `ProtocolViolation`. A reply for another piece, or one
    /// that comes when the piece is complete, changes nothing. Any other
    /// is written at its offset and counted.
    pub open spec fn after_reply(self, payload: Seq<u8>) -> Result<PieceProgress, Error> {
        if payload.len() < 8 {
            Err(Error::ProtocolViolation)
        } else if be32_value(payload.subrange(0, 4)) != self.piece_index || self.complete() {
            Ok(self)
        } else {
            let begin = be32_value(payload.subrange(4, 8));
            let block = payload.skip(8);
            if begin + block.len() > self.buffer.len() {
                Err(Error::ProtocolViolation)
            } else {
                Ok(
                    PieceProgress {
                        buffer: overwrite(self.buffer, begin, block),
                        received: self.received + 1,
                        ..self
                    },
                )
            }
        }
    }

    /// What the finished download gives where the buffer has the digest
    /// `digest`: the piece where it is complete and the digest is the
    /// recorded hash, and `VerificationFailure` otherwise.
    pub open spec fn outcome_with(self, digest: Seq<u8>) -> Result<Seq<u8>, Error> {
        if self.complete() && digest == self.expected {
            Ok(self.buffer)
        } else {
            Err(Error::VerificationFailure)
        }
    }

    /// What the finished download gives: the piece where it is complete
    /// and its SHA-1 digest is the recorded hash, and
    /// `VerificationFailure` otherwise.
    pub open spec fn outcome(self) -> Result<Seq<u8>, Error> {
        self.outcome_with(sha1(self.buffer))
    }
}

/// Where the download of the piece `piece_index` starts: with a buffer of
/// zeros of the piece's size and no reply taken in. Fails as
/// `piece_byte_length` does, and with `MalformedTorrent` where the piece
/// is too large for the offsets of a request, which have four bytes.
pub open spec fn start_of(info: &TorrentInfo, piece_index: int) -> Result<PieceProgress, Error> {
    match info.piece_byte_length_spec(piece_index) {
        Err(e) => Err(e),
        Ok(len) => if len > u32::MAX {
            Err(Error::MalformedTorrent)
        } else {
            Ok(
                PieceProgress {
                    piece_index,
                    expected: info.pieces@.subrange(piece_index * 20, piece_index * 20 + 20),
                    buffer: Seq::new(len as nat, |i: int| 0u8),
                    received: 0,
                },
            )
        },
    }
}

/// The download of one piece: the buffer that the blocks are written to,
/// and the count of the replies that were taken in.
pub struct PieceDownload {
    piece_index: u32,
    expected: Vec<u8>,
    buffer: Vec<u8>,
    received: usize,
}

impl View for PieceDownload {
    type V = PieceProgress;

    closed spec fn view(&self) -> PieceProgress {
        PieceProgress {
            piece_index: self.piece_index as int,
            expected: self.expected@,
            buffer: self.buffer@,
            received: self.received as int,
        }
    }
}

impl PieceDownload {
    #[verifier::type_invariant]
    spec fn in_bounds(self) -> bool {
        &&& self.buffer@.len() <= u32::MAX
        &&& self.received <= block_count_spec(self.buffer@.len() as int)
    }

    /// Starts the download of the piece `piece_index` of `info`.
    pub fn new(info: &TorrentInfo, piece_index: u32) -> (r: Result<PieceDownload, Error>)
        ensures
            match r {
                Ok(d) => start_of(info, piece_index as int) == Ok::<PieceProgress, Error>(d@),
                Err(e) => start_of(info, piece_index as int) == Err::<PieceProgress, Error>(e),
            },
    {
        let len: usize = match info.piece_byte_length(piece_index as usize) {
            Ok(n) => n,
            Err(e) => {
                return Err(e);
            },
        };
        if len > 0xFFFF_FFFF {
            return Err(Error::MalformedTorrent);
        }
        let expected = match info.piece_hash(piece_index as usize) {
            Ok(h) => h,
            Err(e) => {
                return Err(e);
            },
        };
        let buffer = zeros(len);
        assert(buffer@ =~= Seq::new(len as nat, |i: int| 0u8));
        Ok(PieceDownload { piece_index, expected, buffer, received: 0 })
    }

    /// The index of the piece.
    pub fn piece_index(&self) -> (i: u32)
        ensures
            i == self@.piece_index,
    {
        self.piece_index
    }

    /// The size of the piece in bytes.
    pub fn piece_length(&self) -> (n: usize)
        ensures
            n == self@.buffer.len(),
            n <= u32::MAX,
    {
        proof {
            use_type_invariant(self);
        }
        self.buffer.len()
    }

    /// The frames that ask for the blocks of the piece, one for each
    /// block, from the first block to the last.
    pub fn requests(&self) -> (frames: Vec<Vec<u8>>)
        ensures
            frames@.len() == block_count_spec(self@.buffer.len() as int),
            forall|i: int| 0 <= i < frames@.len() ==> (#[trigger] frames@[i])@ == self@.request(i),
    {
        proof {
            use_type_invariant(self);
        }
        let len: usize = self.buffer.len();
        let count: usize = block_count(len);
        let mut frames: Vec<Vec<u8>> = Vec::new();
        let mut i: usize = 0;
        while i < count
            invariant
                i <= count,
                len == self@.buffer.len(),
                len <= u32::MAX,
                count == block_count_spec(len as int),
                frames@.len() == i,
                forall|j: int| 0 <= j < i ==> (#[trigger] frames@[j])@ == self@.request(j),
            decreases count - i,
        {
            proof {
                lemma_blocks_partition(len as int, i as int);
            }
            let begin: u32 = (i * BLOCK_SIZE) as u32;
            let length: u32 = block_length(len, i) as u32;
            let payload = encode_request(self.piece_index, begin, length);
            frames.push(encode_frame(PeerConnection::REQUEST, payload.as_slice()));
            i += 1;
        }
        frames
    }

    /// Takes in the payload of a `PIECE` message: the index of a piece,
    /// an offset, and the bytes of a block. On an error nothing changes.
    pub fn receive(&mut self, payload: &[u8]) -> (r: Result<(), Error>)
        ensures
            match r {
                Ok(()) => old(self)@.after_reply(payload@) == Ok::<PieceProgress, Error>(
                    final(self)@,
                ),
                Err(e) => old(self)@.after_reply(payload@) == Err::<PieceProgress, Error>(e)
                    && final(self)@ == old(self)@,
            },
    {
        proof {
            use_type_invariant(&*self);
        }
        if payload.len() < 8 {
            return Err(Error::ProtocolViolation);
        }
        let index: u32 = read_be32(payload, 0);
        if index != self.piece_index || self.received >= block_count(self.buffer.len()) {
            return Ok(());
        }
        let begin: usize = read_be32(payload, 4) as usize;
        let block = slice_subrange(payload, 8, payload.len());
        assert(block@ =~= payload@.skip(8));
        if block.len() > self.buffer.len() || begin > self.buffer.len() - block.len() {
            return Err(Error::ProtocolViolation);
        }
        // Work on the buffer outside the download, which holds none meanwhile.
        let ghost before = self@;
        let mut buffer: Vec<u8> = Vec::new();
        let count: usize = self.received + 1;
        self.received = 0;
        core::mem::swap(&mut self.buffer, &mut buffer);
        write_at(&mut buffer, begin, block);
        core::mem::swap(&mut self.buffer, &mut buffer);
        self.received = count;
        Ok(())
    }

    /// Whether as many replies were taken in as the piece has blocks.
    pub fn is_complete(&self) -> (b: bool)
        ensures
            b == self@.complete(),
    {
        self.received >= block_count(self.buffer.len())
    }

    /// Ends the download: gives the piece where it is complete and its
    /// SHA-1 digest is the recorded hash, and `VerificationFailure`
    /// otherwise. The bytes of a piece that failed are not given out.
    pub fn finish(self) -> (r: Result<Vec<u8>, Error>)
        ensures
            match r {
                Ok(bytes) => self@.outcome() == Ok::<Seq<u8>, Error>(bytes@),
                Err(e) => self@.outcome() == Err::<Seq<u8>, Error>(e),
            },
    {
        let digest = sha1_digest(self.buffer.as_slice());
        self.finish_with(digest.as_slice())
    }

    /// Ends the download, given the digest of what is in the buffer: gives
    /// the piece where it is complete and `digest` is the recorded hash,
    /// and `VerificationFailure` otherwise.
    pub fn finish_with(self, digest: &[u8]) -> (r: Result<Vec<u8>, Error>)
        ensures
            match r {
                Ok(bytes) => self@.outcome_with(digest@) == Ok::<Seq<u8>, Error>(bytes@),
                Err(e) => self@.outcome_with(digest@) == Err::<Seq<u8>, Error>(e),
            },
    {
        if self.is_complete() && bytes_equal(digest, self.expected.as_slice()) {
            Ok(self.buffer)
        } else {
            Err(Error::VerificationFailure)
        }
    }
}

/// Block number `block` of the piece `data`.
pub open spec fn block_of(data: Seq<u8>, block: int) -> Seq<u8> {
    data.subrange(
        block_begin(block),
        block_begin(block) + block_length_spec(data.len() as int, block),
    )
}

/// The payload of the `PIECE` message that carries block number `block`
/// of the piece `data`, which has the index `piece_index`.
pub open spec fn reply_payload(piece_index: int, data: Seq<u8>, block: int) -> Seq<u8> {
    be32(piece_index) + be32(block_begin(block)) + block_of(data, block)
}

/// What taking in the replies for the blocks `order` of `data`, one after
/// the other, leads to.
pub open spec fn after_replies(p: PieceProgress, data: Seq<u8>, order: Seq<int>) -> Result<
    PieceProgress,
    Error,
>
    decreases order.len(),
{
    if order.len() == 0 {
        Ok(p)
    } else {
        match after_replies(p, data, order.drop_last()) {
            Ok(q) => q.after_reply(reply_payload(p.piece_index, data, order.last())),
            Err(e) => Err(e),
        }
    }
}

/// Replies that arrive before the piece is complete are all written, and
/// the buffer then holds the bytes of `data` in every block that came.
proof fn lemma_replies_written(p: PieceProgress, data: Seq<u8>, order: Seq<int>)
    requires
        0 <= p.piece_index <= u32::MAX,
        p.buffer.len() == data.len(),
        data.len() <= u32::MAX,
        p.received == 0,
        order.len() <= block_count_spec(data.len() as int),
        forall|k: int|
            0 <= k < order.len() ==> 0 <= #[trigger] order[k] < block_count_spec(data.len() as int),
    ensures
        after_replies(p, data, order) matches Ok(q) && {
            &&& q.piece_index == p.piece_index
            &&& q.expected == p.expected
            &&& q.received == order.len()
            &&& q.buffer.len() == data.len()
            &&& forall|k: int, j: int|
                0 <= k < order.len() && block_begin(#[trigger] order[k]) <= j < block_begin(
                    order[k],
                ) + block_length_spec(data.len() as int, order[k]) ==> #[trigger] q.buffer[j]
                    == data[j]
        },
    decreases order.len(),
{
    if order.len() > 0 {
        let front = order.drop_last();
        let b: int = order.last();
        lemma_replies_written(p, data, front);
        let q = after_replies(p, data, front)->Ok_0;
        let payload = reply_payload(p.piece_index, data, b);
        let begin = block_begin(b);
        let block = block_of(data, b);
        lemma_blocks_partition(data.len() as int, b);
        lemma_be32_value(p.piece_index);
        lemma_be32_value(begin);
        assert(payload.subrange(0, 4) =~= be32(p.piece_index));
        assert(payload.subrange(4, 8) =~= be32(begin));
        assert(payload.skip(8) =~= block);
        let r = q.after_reply(payload)->Ok_0;
        assert(r.buffer == overwrite(q.buffer, begin, block));
        assert forall|k: int, j: int|
            0 <= k < order.len() && block_begin(#[trigger] order[k]) <= j < block_begin(order[k])
                + block_length_spec(data.len() as int, order[k]) implies #[trigger] r.buffer[j]
                == data[j] by {
            lemma_blocks_partition(data.len() as int, order[k]);
            if begin <= j < begin + block.len() {
                assert(r.buffer[j] == block[j - begin]);
            } else {
                assert(r.buffer[j] == q.buffer[j]);
                assert(k < front.len());
                assert(front[k] == order[k]);
            }
        }
    }
}

/// The blocks of a piece may arrive in any order. Where one reply comes
/// for each block of `data`, whatever the order, taking them in leaves the
/// download complete with `data` in its buffer; and it then gives out
/// `data` where that has the recorded hash.
pub proof fn lemma_any_order_assembles(p: PieceProgress, data: Seq<u8>, order: Seq<int>)
    requires
        0 <= p.piece_index <= u32::MAX,
        p.buffer.len() == data.len(),
        data.len() <= u32::MAX,
        p.received == 0,
        order.len() == block_count_spec(data.len() as int),
        forall|k: int|
            0 <= k < order.len() ==> 0 <= #[trigger] order[k] < block_count_spec(data.len() as int),
        forall|b: int|
            0 <= b < block_count_spec(data.len() as int) ==> #[trigger] order.contains(b),
    ensures
        after_replies(p, data, order) matches Ok(q) && q.buffer == data && q.complete(),
        sha1(data) == p.expected ==> after_replies(p, data, order)->Ok_0.outcome() == Ok::<
            Seq<u8>,
            Error,
        >(data),
{
    lemma_replies_written(p, data, order);
    let q = after_replies(p, data, order)->Ok_0;
    assert forall|j: int| 0 <= j < data.len() implies q.buffer[j] == data[j] by {
        let b: int = j / 16384;
        lemma_block_of_position(data.len() as int, j);
        assert(order.contains(b));
        let k = choose|k: int| 0 <= k < order.len() && order[k] == b;
        assert(block_begin(order[k]) <= j);
    }
    assert(q.buffer =~= data);
}

/// Blocks that do not overlap may be written in either order.
pub proof fn lemma_overwrite_commutes(buffer: Seq<u8>, a: int, x: Seq<u8>, b: int, y: Seq<u8>)
    requires
        0 <= a,
        a + x.len() <= b,
        b + y.len() <= buffer.len(),
    ensures
        overwrite(overwrite(buffer, a, x), b, y) == overwrite(overwrite(buffer, b, y), a, x),
{
    assert(overwrite(overwrite(buffer, a, x), b, y) =~= overwrite(overwrite(buffer, b, y), a, x));
}

/// The content with the piece `index` put at its place. Fails as
/// `piece_byte_length` does; with `VerificationFailure` where `piece` has
/// not the size of that piece; and with `MalformedTorrent` where the piece
/// would end behind the content.
pub open spec fn with_piece(
    content: Seq<u8>,
    info: &TorrentInfo,
    index: int,
    piece: Seq<u8>,
) -> Result<Seq<u8>, Error> {
    match info.piece_byte_length_spec(index) {
        Err(e) => Err(e),
        Ok(len) => if piece.len() != len {
            Err(Error::VerificationFailure)
        } else if index * info.piece_length + len > content.len() {
            Err(Error::MalformedTorrent)
        } else {
            Ok(overwrite(content, index * info.piece_length, piece))
        },
    }
}

/// In a description that does not contradict itself every piece lies
/// within the content, each begins where the one before it ends, and the
/// last ends where the content ends: the sizes of the pieces add up to
/// `length`.
pub proof fn lemma_pieces_fill_content(info: &TorrentInfo, index: int)
    requires
        info.piece_byte_length_spec(info.piece_count_spec() - 1) is Ok,
        0 <= index < info.piece_count_spec(),
    ensures
        info.piece_byte_length_spec(index) matches Ok(len) && {
            &&& index * info.piece_length + len <= info.length
            &&& index < info.piece_count_spec() - 1 ==> index * info.piece_length + len == (index
                + 1) * info.piece_length
            &&& index == info.piece_count_spec() - 1 ==> index * info.piece_length + len
                == info.length
        },
{
    let count: int = info.piece_count_spec();
    let size: int = info.piece_length as int;
    if index < count - 1 {
        assert((index + 1) * size <= (count - 1) * size) by (nonlinear_arith)
            requires
                index + 1 <= count - 1,
                0 <= size,
        ;
        assert((index + 1) * size == index * size + size) by (nonlinear_arith);
        assert((count - 1) * size == size * (count - 1)) by (nonlinear_arith);
    } else {
        assert((count - 1) * size == size * (count - 1)) by (nonlinear_arith);
    }
}

/// A buffer for the whole content: `length` zero bytes.
pub fn new_content(info: &TorrentInfo) -> (content: Vec<u8>)
    ensures
        content@.len() == info.length,
        forall|i: int| 0 <= i < content@.len() ==> content@[i] == 0,
{
    zeros(info.length)
}

/// Puts the piece `index` at its place in the content, `index` times
/// `piece_length` bytes from the start. On an error nothing changes.
pub fn place_piece(content: &mut Vec<u8>, info: &TorrentInfo, index: usize, piece: &[u8]) -> (r:
    Result<(), Error>)
    ensures
        match r {
            Ok(()) => with_piece(old(content)@, info, index as int, piece@) == Ok::<
                Seq<u8>,
                Error,
            >(final(content)@) && final(content)@.len() == old(content)@.len(),
            Err(e) => with_piece(old(content)@, info, index as int, piece@) == Err::<
                Seq<u8>,
                Error,
            >(e) && final(content)@ == old(content)@,
        },
{
    let len: usize = match info.piece_byte_length(index) {
        Ok(n) => n,
        Err(e) => {
            return Err(e);
        },
    };
    if piece.len() != len {
        return Err(Error::VerificationFailure);
    }
    let index_wide: u128 = index as u128;
    let size_wide: u128 = info.piece_length as u128;
    assert(index_wide * size_wide <= 0xFFFF_FFFF_FFFF_FFFF * 0xFFFF_FFFF_FFFF_FFFF)
        by (nonlinear_arith)
        requires
            index_wide <= 0xFFFF_FFFF_FFFF_FFFF,
            size_wide <= 0xFFFF_FFFF_FFFF_FFFF,
    ;
    let at: u128 = index_wide * size_wide;
    if at + (len as u128) > content.len() as u128 {
        return Err(Error::MalformedTorrent);
    }
    write_at(content, at as usize, piece);
    Ok(())
}

} // verus!
