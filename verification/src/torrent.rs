//! Torrent metadata: the announce URL and the info dictionary, the hash
//! that identifies the torrent, and the arithmetic of its pieces.

use vstd::prelude::*;
use vstd::slice::{slice_subrange, slice_to_vec};
use vstd::utf8::{decode_utf8, encode_utf8, valid_utf8};
use crate::canonical::{lemma_ascending_distinct, lemma_entry_is_got};
use crate::decimal::push_decimal;
use crate::encoder::push_byte_string;
use crate::error::Error;
use crate::grammar::{
    decode_spec, encode_byte_string, encode_entries, encode_spec, int_text,
};
use crate::hash::{sha1, sha1_digest};
use crate::lexical::{lemma_lex_first_difference, lemma_lex_transitive, lex_lt};
use crate::model::{dict_get, keys_ascending, Bencode, Entries};
use crate::parser::decode_bytes;
use crate::roundtrip::lemma_decode_encode;
use crate::text::{hex_text, percent_text, string_from_utf8, to_hex, to_percent};
use crate::value::{BencodeDict, BencodeValue};

verus! {

/// The key `announce`.
pub open spec fn key_announce() -> Seq<u8> {
    seq![97u8, 110, 110, 111, 117, 110, 99, 101]
}

/// The key `info`.
pub open spec fn key_info() -> Seq<u8> {
    seq![105u8, 110, 102, 111]
}

/// The key `length`.
pub open spec fn key_length() -> Seq<u8> {
    seq![108u8, 101, 110, 103, 116, 104]
}

/// The key `name`.
pub open spec fn key_name() -> Seq<u8> {
    seq![110u8, 97, 109, 101]
}

/// The key `piece length`.
pub open spec fn key_piece_length() -> Seq<u8> {
    seq![112u8, 105, 101, 99, 101, 32, 108, 101, 110, 103, 116, 104]
}

/// The key `pieces`.
pub open spec fn key_pieces() -> Seq<u8> {
    seq![112u8, 105, 101, 99, 101, 115]
}

/// The size of one piece hash in bytes.
pub const HASH_LENGTH: usize = 20;

/// What a torrent says of its content.
#[derive(Debug, Clone, PartialEq, Eq)]
pub struct TorrentInfo {
    /// The name under which the content is shown.
    pub name: String,
    /// The size of the content in bytes.
    pub length: usize,
    /// The size of every piece but the last.
    pub piece_length: usize,
    /// The SHA-1 hashes of the pieces, twenty bytes each, in piece order.
    pub pieces: Vec<u8>,
}

/// A torrent: where to announce, and what it holds.
#[derive(Debug, Clone, PartialEq, Eq)]
pub struct Torrent {
    /// The URL of the tracker.
    pub announce: String,
    /// The description of the content.
    pub info: TorrentInfo,
}

/// The fields of an info dictionary that the client reads.
pub struct InfoFields {
    pub name: Seq<u8>,
    pub length: int,
    pub piece_length: int,
    pub pieces: Seq<u8>,
}

/// The fields of a torrent file that the client reads.
pub struct TorrentFields {
    pub announce: Seq<u8>,
    pub info: InfoFields,
}

/// The byte string that `d` binds `k` to, if it binds it to one.
pub open spec fn byte_string_at(d: Entries, k: Seq<u8>) -> Option<Seq<u8>> {
    match dict_get(d, k) {
        Some(Bencode::ByteString(b)) => Some(b),
        _ => None,
    }
}

/// The integer that `d` binds `k` to, if it binds it to one.
pub open spec fn integer_at(d: Entries, k: Seq<u8>) -> Option<int> {
    match dict_get(d, k) {
        Some(Bencode::Integer(i)) => Some(i),
        _ => None,
    }
}

/// The dictionary that `d` binds `k` to, if it binds it to one.
pub open spec fn dictionary_at(d: Entries, k: Seq<u8>) -> Option<Entries> {
    match dict_get(d, k) {
        Some(Bencode::Dictionary(es)) => Some(es),
        _ => None,
    }
}

/// What an info dictionary says, where it has a `name` that is valid
/// UTF-8, a `length` and a `piece length` that are sizes, and `pieces` of
/// a whole number of hashes. Other keys are passed over.
pub open spec fn info_fields(d: Entries) -> Option<InfoFields> {
    match (
        byte_string_at(d, key_name()),
        integer_at(d, key_length()),
        integer_at(d, key_piece_length()),
        byte_string_at(d, key_pieces()),
    ) {
        (Some(name), Some(length), Some(piece_length), Some(pieces)) => if valid_utf8(name) && 0
            <= length <= usize::MAX && 0 <= piece_length <= usize::MAX && pieces.len() % 20 == 0 {
            Some(InfoFields { name, length, piece_length, pieces })
        } else {
            None
        },
        _ => None,
    }
}

/// What a torrent file says, where it is a dictionary with an `announce`
/// that is valid UTF-8 and an `info` dictionary that can be read.
pub open spec fn torrent_fields(v: Bencode) -> Option<TorrentFields> {
    match v {
        Bencode::Dictionary(d) => match (
            byte_string_at(d, key_announce()),
            dictionary_at(d, key_info()),
        ) {
            (Some(announce), Some(info)) => match info_fields(info) {
                Some(fields) => if valid_utf8(announce) {
                    Some(TorrentFields { announce, info: fields })
                } else {
                    None
                },
                None => None,
            },
            _ => None,
        },
        _ => None,
    }
}

/// What parsing the bytes of a torrent file gives: the fields, or
/// `MalformedInput` where the bytes are not bencode, or `MalformedTorrent`
/// where the value lacks a field or has one of the wrong shape.
pub open spec fn parse_torrent(bytes: Seq<u8>) -> Result<TorrentFields, Error> {
    match decode_spec(bytes) {
        Err(e) => Err(e),
        Ok(v) => match torrent_fields(v) {
            Some(fields) => Ok(fields),
            None => Err(Error::MalformedTorrent),
        },
    }
}

/// The byte string bound to `key`.
fn bytes_field<'a>(d: &'a BencodeDict, key: &[u8]) -> (r: Option<&'a Vec<u8>>)
    ensures
        match r {
            Some(b) => byte_string_at(d@, key@) == Some(b@),
            None => byte_string_at(d@, key@) is None,
        },
{
    match d.get(key) {
        Some(BencodeValue::ByteString(b)) => Some(b),
        _ => None,
    }
}

/// The integer bound to `key`, where it is a size.
fn size_field(d: &BencodeDict, key: &[u8]) -> (r: Option<usize>)
    ensures
        match r {
            Some(n) => integer_at(d@, key@) == Some(n as int),
            None => match integer_at(d@, key@) {
                Some(i) => i < 0 || i > usize::MAX,
                None => true,
            },
        },
{
    match d.get(key) {
        Some(BencodeValue::Integer(i)) => {
            if *i < 0 || (*i as u64) > (usize::MAX as u64) {
                None
            } else {
                Some(*i as usize)
            }
        },
        _ => None,
    }
}

/// The dictionary bound to `key`.
fn dict_field<'a>(d: &'a BencodeDict, key: &[u8]) -> (r: Option<&'a BencodeDict>)
    ensures
        match r {
            Some(inner) => dictionary_at(d@, key@) == Some(inner@),
            None => dictionary_at(d@, key@) is None,
        },
{
    match d.get(key) {
        Some(BencodeValue::Dictionary(inner)) => Some(inner),
        _ => None,
    }
}

/// The text that `bytes` encode, where they are valid UTF-8.
fn text_of(bytes: &Vec<u8>) -> (r: Option<String>)
    ensures
        r is Some <==> valid_utf8(bytes@),
        r matches Some(s) ==> s@ == decode_utf8(bytes@),
{
    string_from_utf8(slice_to_vec(bytes.as_slice()))
}

impl TorrentInfo {
    /// The hashes are whole: `pieces` holds a multiple of twenty bytes.
    pub open spec fn well_formed(&self) -> bool {
        self.pieces@.len() % 20 == 0
    }

    /// The number of pieces.
    pub open spec fn piece_count_spec(&self) -> int {
        self.pieces@.len() as int / 20
    }

    /// Whether the struct holds what `fields` says.
    pub open spec fn reflects(&self, fields: InfoFields) -> bool {
        &&& self.name@ == decode_utf8(fields.name)
        &&& self.length == fields.length
        &&& self.piece_length == fields.piece_length
        &&& self.pieces@ == fields.pieces
    }

    /// The entries of the dictionary form, in key order.
    pub open spec fn entries(&self) -> Entries {
        seq![
            (key_length(), Bencode::Integer(self.length as int)),
            (key_name(), Bencode::ByteString(encode_utf8(self.name@))),
            (key_piece_length(), Bencode::Integer(self.piece_length as int)),
            (key_pieces(), Bencode::ByteString(self.pieces@)),
        ]
    }

    /// The dictionary form: the four fields under their keys.
    pub open spec fn dictionary(&self) -> Bencode {
        Bencode::Dictionary(self.entries())
    }

    /// The canonical bencoding of the dictionary form.
    pub open spec fn bencoded(&self) -> Seq<u8> {
        encode_spec(self.dictionary())
    }

    /// The info-hash: the SHA-1 digest of the canonical bencoding.
    pub open spec fn info_hash(&self) -> Seq<u8> {
        sha1(self.bencoded())
    }

    /// The twenty bytes of hash number `index`.
    pub open spec fn piece_hash_spec(&self, index: int) -> Result<Seq<u8>, Error> {
        if 0 <= index < self.piece_count_spec() {
            Ok(self.pieces@.subrange(index * 20, index * 20 + 20))
        } else {
            Err(Error::IndexOutOfRange)
        }
    }

    /// The size of piece number `index`: `piece_length` for every piece
    /// but the last, and for the last what is left of `length`. Where the
    /// pieces before the last are already more than `length`, the
    /// description contradicts itself.
    pub open spec fn piece_byte_length_spec(&self, index: int) -> Result<int, Error> {
        let count = self.piece_count_spec();
        if index < 0 || index >= count {
            Err(Error::IndexOutOfRange)
        } else if index < count - 1 {
            Ok(self.piece_length as int)
        } else if self.piece_length * (count - 1) <= self.length {
            Ok(self.length - self.piece_length * (count - 1))
        } else {
            Err(Error::MalformedTorrent)
        }
    }

    /// Reads the fields out of an info dictionary.
    fn from_dict(d: &BencodeDict) -> (r: Option<TorrentInfo>)
        ensures
            match r {
                Some(info) => info_fields(d@) matches Some(fields) && info.reflects(fields)
                    && info.well_formed(),
                None => info_fields(d@) is None,
            },
    {
        let name_key = vec![110u8, 97, 109, 101];
        let length_key = vec![108u8, 101, 110, 103, 116, 104];
        let piece_length_key = vec![112u8, 105, 101, 99, 101, 32, 108, 101, 110, 103, 116, 104];
        let pieces_key = vec![112u8, 105, 101, 99, 101, 115];
        assert(name_key@ =~= key_name());
        assert(length_key@ =~= key_length());
        assert(piece_length_key@ =~= key_piece_length());
        assert(pieces_key@ =~= key_pieces());
        let name = match bytes_field(d, name_key.as_slice()) {
            Some(b) => match text_of(b) {
                Some(s) => s,
                None => {
                    return None;
                },
            },
            None => {
                return None;
            },
        };
        let length = match size_field(d, length_key.as_slice()) {
            Some(n) => n,
            None => {
                return None;
            },
        };
        let piece_length = match size_field(d, piece_length_key.as_slice()) {
            Some(n) => n,
            None => {
                return None;
            },
        };
        let pieces = match bytes_field(d, pieces_key.as_slice()) {
            Some(b) => {
                if b.len() % HASH_LENGTH != 0 {
                    return None;
                }
                slice_to_vec(b.as_slice())
            },
            None => {
                return None;
            },
        };
        Some(TorrentInfo { name, length, piece_length, pieces })
    }

    /// The number of pieces: one for every twenty bytes of `pieces`.
    pub fn piece_count(&self) -> (n: usize)
        ensures
            n == self.piece_count_spec(),
    {
        self.pieces.len() / HASH_LENGTH
    }

    /// The recorded hash of piece number `index`. Fails with
    /// `IndexOutOfRange` where there is no such piece.
    pub fn piece_hash(&self, index: usize) -> (r: Result<Vec<u8>, Error>)
        ensures
            match r {
                Ok(h) => self.piece_hash_spec(index as int) == Ok::<Seq<u8>, Error>(h@),
                Err(e) => self.piece_hash_spec(index as int) == Err::<Seq<u8>, Error>(e),
            },
    {
        if index >= self.pieces.len() / HASH_LENGTH {
            return Err(Error::IndexOutOfRange);
        }
        let start: usize = index * HASH_LENGTH;
        Ok(slice_to_vec(slice_subrange(self.pieces.as_slice(), start, start + HASH_LENGTH)))
    }

    /// The size in bytes of piece number `index`. Fails with
    /// `IndexOutOfRange` where there is no such piece, and with
    /// `MalformedTorrent` where it is the last and the pieces before it
    /// are more than the content.
    pub fn piece_byte_length(&self, index: usize) -> (r: Result<usize, Error>)
        ensures
            match r {
                Ok(n) => self.piece_byte_length_spec(index as int) == Ok::<int, Error>(n as int),
                Err(e) => self.piece_byte_length_spec(index as int) == Err::<int, Error>(e),
            },
    {
        let count: usize = self.pieces.len() / HASH_LENGTH;
        if index >= count {
            return Err(Error::IndexOutOfRange);
        }
        if index < count - 1 {
            return Ok(self.piece_length);
        }
        let size: u128 = self.piece_length as u128;
        let earlier: u128 = (count - 1) as u128;
        assert(size * earlier <= 0xFFFF_FFFF_FFFF_FFFF * 0xFFFF_FFFF_FFFF_FFFF) by (nonlinear_arith)
            requires
                size <= 0xFFFF_FFFF_FFFF_FFFF,
                earlier <= 0xFFFF_FFFF_FFFF_FFFF,
        ;
        let before: u128 = size * earlier;
        if before <= self.length as u128 {
            Ok(self.length - (before as usize))
        } else {
            Err(Error::MalformedTorrent)
        }
    }

    /// The canonical bencoding of the dictionary form: the keys `length`,
    /// `name`, `piece length` and `pieces`, in that order.
    pub fn get_bytes(&self) -> (r: Result<Vec<u8>, Error>)
        ensures
            r matches Ok(bytes) && bytes@ == self.bencoded(),
    {
        let name_key = vec![110u8, 97, 109, 101];
        let length_key = vec![108u8, 101, 110, 103, 116, 104];
        let piece_length_key = vec![112u8, 105, 101, 99, 101, 32, 108, 101, 110, 103, 116, 104];
        let pieces_key = vec![112u8, 105, 101, 99, 101, 115];
        assert(name_key@ =~= key_name());
        assert(length_key@ =~= key_length());
        assert(piece_length_key@ =~= key_piece_length());
        assert(pieces_key@ =~= key_pieces());
        let ghost es = self.entries();
        let mut out: Vec<u8> = Vec::new();
        out.push(100);
        assert(es.take(0) =~= Entries::empty());
        assert(out@ =~= seq![100u8] + encode_entries(es.take(0)));

        push_byte_string(&mut out, length_key.as_slice());
        push_size(&mut out, self.length);
        proof {
            lemma_encode_next(es, 0);
        }
        assert(out@ =~= seq![100u8] + encode_entries(es.take(1)));

        push_byte_string(&mut out, name_key.as_slice());
        push_byte_string(&mut out, self.name.as_str().as_bytes());
        proof {
            lemma_encode_next(es, 1);
        }
        assert(out@ =~= seq![100u8] + encode_entries(es.take(2)));

        push_byte_string(&mut out, piece_length_key.as_slice());
        push_size(&mut out, self.piece_length);
        proof {
            lemma_encode_next(es, 2);
        }
        assert(out@ =~= seq![100u8] + encode_entries(es.take(3)));

        push_byte_string(&mut out, pieces_key.as_slice());
        push_byte_string(&mut out, self.pieces.as_slice());
        proof {
            lemma_encode_next(es, 3);
            assert(es.take(4) =~= es);
        }
        assert(out@ =~= seq![100u8] + encode_entries(es));

        out.push(101);
        assert(out@ =~= self.bencoded());
        Ok(out)
    }

    /// The info-hash: the SHA-1 digest of `get_bytes`, twenty bytes.
    pub fn get_hash(&self) -> (r: Result<Vec<u8>, Error>)
        ensures
            r matches Ok(hash) && hash@ == self.info_hash() && hash@.len() == 20,
    {
        match self.get_bytes() {
            Ok(bytes) => Ok(sha1_digest(bytes.as_slice())),
            Err(e) => Err(e),
        }
    }

    /// The info-hash in lower-case hex.
    pub fn to_hash_string(&self) -> (r: Result<String, Error>)
        ensures
            r matches Ok(s) && s@ == hex_text(self.info_hash()),
    {
        match self.get_hash() {
            Ok(hash) => Ok(to_hex(hash.as_slice())),
            Err(e) => Err(e),
        }
    }

    /// The info-hash as it stands in a URL: every byte as a percent
    /// escape.
    pub fn encode_url_hash(&self) -> (r: Result<String, Error>)
        ensures
            r matches Ok(s) && s@ == percent_text(self.info_hash()),
    {
        match self.get_hash() {
            Ok(hash) => Ok(to_percent(hash.as_slice())),
            Err(e) => Err(e),
        }
    }

    /// The bytes of `chunck` in lower-case hex.
    pub fn chunks_to_hex(&self, chunck: &[u8]) -> (r: Result<String, Error>)
        ensures
            r matches Ok(s) && s@ == hex_text(chunck@),
    {
        Ok(to_hex(chunck))
    }
}

/// Appends a size as a bencode integer.
fn push_size(out: &mut Vec<u8>, n: usize)
    ensures
        final(out)@ == old(out)@ + encode_spec(Bencode::Integer(n as int)),
{
    out.push(105);
    push_decimal(out, n as u64);
    out.push(101);
    assert(out@ =~= old(out)@ + (seq![105u8] + int_text(n as int) + seq![101u8]));
}

/// Writing one entry more: the entries up to and with number `i` are
/// written as those before it, then its key, then its value.
proof fn lemma_encode_next(es: Entries, i: int)
    requires
        0 <= i < es.len(),
    ensures
        encode_entries(es.take(i + 1)) == encode_entries(es.take(i)) + encode_byte_string(es[i].0)
            + encode_spec(es[i].1),
{
    let longer = es.take(i + 1);
    assert(longer.drop_last() =~= es.take(i));
    assert(longer.last() == es[i]);
}

impl Torrent {
    /// Whether the struct holds what `fields` says.
    pub open spec fn reflects(&self, fields: TorrentFields) -> bool {
        &&& self.announce@ == decode_utf8(fields.announce)
        &&& self.info.reflects(fields.info)
    }

    /// Parses the bytes of a torrent file; `path` holds the bytes, not
    /// where they were found. Fails with `MalformedInput` where they are
    /// not one bencode value, and with `MalformedTorrent` where the value
    /// is no dictionary, where `announce`, `info`, `name`, `length`,
    /// `piece length` or `pieces` is missing or of the wrong kind, where a
    /// text is not valid UTF-8 or a size is negative or too large, or
    /// where `pieces` is not a whole number of hashes.
    pub fn from_file(path: Vec<u8>) -> (r: Result<Torrent, Error>)
        ensures
            match r {
                Ok(t) => parse_torrent(path@) matches Ok(fields) && t.reflects(fields)
                    && t.info.well_formed(),
                Err(e) => parse_torrent(path@) == Err::<TorrentFields, Error>(e),
            },
    {
        let value = match decode_bytes(path.as_slice()) {
            Ok(v) => v,
            Err(e) => {
                return Err(e);
            },
        };
        let announce_key = vec![97u8, 110, 110, 111, 117, 110, 99, 101];
        let info_key = vec![105u8, 110, 102, 111];
        assert(announce_key@ =~= key_announce());
        assert(info_key@ =~= key_info());
        match &value {
            BencodeValue::Dictionary(d) => {
                let announce = match bytes_field(d, announce_key.as_slice()) {
                    Some(b) => b,
                    None => {
                        return Err(Error::MalformedTorrent);
                    },
                };
                let info = match dict_field(d, info_key.as_slice()) {
                    Some(inner) => match TorrentInfo::from_dict(inner) {
                        Some(info) => info,
                        None => {
                            return Err(Error::MalformedTorrent);
                        },
                    },
                    None => {
                        return Err(Error::MalformedTorrent);
                    },
                };
                match text_of(announce) {
                    Some(url) => Ok(Torrent { announce: url, info }),
                    None => Err(Error::MalformedTorrent),
                }
            },
            _ => Err(Error::MalformedTorrent),
        }
    }
}

/// The same description always gives the same bytes and the same hash:
/// both are functions of the four fields alone.
pub proof fn lemma_info_hash_stable(a: TorrentInfo, b: TorrentInfo)
    requires
        a.name@ == b.name@,
        a.length == b.length,
        a.piece_length == b.piece_length,
        a.pieces@ == b.pieces@,
    ensures
        a.bencoded() == b.bencoded(),
        a.info_hash() == b.info_hash(),
{
    assert(a.entries() =~= b.entries());
}

/// The four keys of the dictionary form are in ascending order.
pub proof fn lemma_info_keys_ascending()
    ensures
        lex_lt(key_length(), key_name()),
        lex_lt(key_name(), key_piece_length()),
        lex_lt(key_piece_length(), key_pieces()),
{
    assert(key_length().take(0) =~= key_name().take(0));
    lemma_lex_first_difference(key_length(), key_name(), 0);
    assert(key_name().take(0) =~= key_piece_length().take(0));
    lemma_lex_first_difference(key_name(), key_piece_length(), 0);
    assert(key_piece_length().take(5) =~= key_pieces().take(5));
    lemma_lex_first_difference(key_piece_length(), key_pieces(), 5);
}

/// The dictionary form is a well-formed value where the two sizes fit in
/// 64 bits with a sign, and decoding its bencoding then gives it back.
pub proof fn lemma_dictionary_form(info: TorrentInfo)
    requires
        info.length <= i64::MAX,
        info.piece_length <= i64::MAX,
    ensures
        info.dictionary().well_formed(),
        decode_spec(info.bencoded()) == Ok::<Bencode, Error>(info.dictionary()),
{
    let es = info.entries();
    lemma_info_keys_ascending();
    lemma_lex_transitive(key_length(), key_name(), key_piece_length());
    lemma_lex_transitive(key_length(), key_piece_length(), key_pieces());
    lemma_lex_transitive(key_name(), key_piece_length(), key_pieces());
    assert(keys_ascending(es));
    assert forall|i: int| 0 <= i < es.len() implies (#[trigger] es[i]).1.well_formed() by {
        if i == 0 {
            assert(es[i].1 == Bencode::Integer(info.length as int));
        } else if i == 1 {
            assert(es[i].1 is ByteString);
        } else if i == 2 {
            assert(es[i].1 == Bencode::Integer(info.piece_length as int));
        } else {
            assert(es[i].1 is ByteString);
        }
    }
    lemma_decode_encode(info.dictionary());
}

/// A description that was read from an info dictionary with just the four
/// keys is written as that dictionary was. So the info-hash of a torrent
/// whose info dictionary holds nothing else is the SHA-1 digest of what
/// that dictionary is written as.
pub proof fn lemma_info_bytes_preserved(
    info: TorrentInfo,
    length: int,
    name: Seq<u8>,
    piece_length: int,
    pieces: Seq<u8>,
)
    requires
        info_fields(four_entries(length, name, piece_length, pieces)) matches Some(fields)
            && info.reflects(fields),
    ensures
        info.bencoded() == encode_spec(
            Bencode::Dictionary(four_entries(length, name, piece_length, pieces)),
        ),
        info.info_hash() == sha1(
            encode_spec(Bencode::Dictionary(four_entries(length, name, piece_length, pieces))),
        ),
{
    let es = four_entries(length, name, piece_length, pieces);
    lemma_info_keys_ascending();
    lemma_lex_transitive(key_length(), key_name(), key_piece_length());
    lemma_lex_transitive(key_length(), key_piece_length(), key_pieces());
    lemma_lex_transitive(key_name(), key_piece_length(), key_pieces());
    assert(keys_ascending(es));
    lemma_ascending_distinct(es);
    lemma_entry_is_got(es, 0);
    lemma_entry_is_got(es, 1);
    lemma_entry_is_got(es, 2);
    lemma_entry_is_got(es, 3);
    vstd::utf8::decode_utf8_encode_utf8(name);
    assert(info.entries() =~= es);
}

/// An info dictionary with just the four keys.
pub open spec fn four_entries(
    length: int,
    name: Seq<u8>,
    piece_length: int,
    pieces: Seq<u8>,
) -> Entries {
    seq![
        (key_length(), Bencode::Integer(length)),
        (key_name(), Bencode::ByteString(name)),
        (key_piece_length(), Bencode::Integer(piece_length)),
        (key_pieces(), Bencode::ByteString(pieces)),
    ]
}

} // verus!
