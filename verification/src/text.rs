//! Text: what the standard library's string functions give, and the hex
//! renderings that the client prints.

use vstd::prelude::*;
use vstd::utf8::{decode_utf8, valid_utf8};

verus! {

/// What `{:?}` prints for a string that holds `text`: the text between
/// double quotes, with the characters that cannot stand there written as
/// escapes.
pub uninterp spec fn debug_quoted(text: Seq<char>) -> Seq<char>;

/// The text that a lossy UTF-8 decoding of `bytes` gives: every ill-formed
/// part is replaced by U+FFFD.
pub uninterp spec fn lossy_text(bytes: Seq<u8>) -> Seq<char>;

/// `String::push` of the standard library: appends one character.
#[verifier::external_body]
pub(crate) fn push_char(s: &mut String, c: char)
    ensures
        final(s)@ == old(s)@.push(c),
{
    s.push(c);
}

/// `String::from_utf8` of the standard library: the string whose UTF-8
/// encoding is `bytes`, or nothing where `bytes` is not valid UTF-8.
#[verifier::external_body]
pub(crate) fn string_from_utf8(bytes: Vec<u8>) -> (r: Option<String>)
    ensures
        r is Some <==> valid_utf8(bytes@),
        r matches Some(s) ==> s@ == decode_utf8(bytes@),
{
    String::from_utf8(bytes).ok()
}

/// `String::from_utf8_lossy` of the standard library. On valid UTF-8 it
/// decodes; elsewhere the result is known by its name only.
#[verifier::external_body]
pub(crate) fn string_from_utf8_lossy(bytes: &[u8]) -> (s: String)
    ensures
        s@ == lossy_text(bytes@),
        valid_utf8(bytes@) ==> s@ == decode_utf8(bytes@),
{
    String::from_utf8_lossy(bytes).into_owned()
}

/// The `Debug` rendering of a string slice by the standard library, as
/// `format!("{:?}", s)` gives it.
#[verifier::external_body]
pub(crate) fn string_debug(s: &str) -> (quoted: String)
    ensures
        quoted@ == debug_quoted(s@),
{
    format!("{:?}", s)
}

/// The characters with the code points of `bytes`, one for one. For ASCII
/// bytes this is the text they spell.
pub open spec fn ascii_text(bytes: Seq<u8>) -> Seq<char> {
    Seq::new(bytes.len(), |i: int| bytes[i] as char)
}

/// The lower-case hex digit of a number below sixteen.
pub open spec fn hex_digit(n: int) -> char {
    if n < 10 {
        (48 + n) as u8 as char
    } else {
        (87 + n) as u8 as char
    }
}

/// Two lower-case hex digits for each byte, the high half first.
pub open spec fn hex_text(bytes: Seq<u8>) -> Seq<char> {
    Seq::new(
        2 * bytes.len(),
        |i: int|
            if i % 2 == 0 {
                hex_digit(bytes[i / 2] as int / 16)
            } else {
                hex_digit(bytes[i / 2] as int % 16)
            },
    )
}

/// A percent sign and two lower-case hex digits for each byte.
pub open spec fn percent_text(bytes: Seq<u8>) -> Seq<char> {
    Seq::new(
        3 * bytes.len(),
        |i: int|
            if i % 3 == 0 {
                '%'
            } else if i % 3 == 1 {
                hex_digit(bytes[i / 3] as int / 16)
            } else {
                hex_digit(bytes[i / 3] as int % 16)
            },
    )
}

/// The lower-case hex digit of `n`.
fn hex_char(n: u8) -> (c: char)
    requires
        n < 16,
    ensures
        c == hex_digit(n as int),
{
    if n < 10 {
        (48 + n) as char
    } else {
        (87 + n) as char
    }
}

/// Appends the characters with the code points of `bytes`.
pub fn push_ascii(s: &mut String, bytes: &[u8])
    ensures
        final(s)@ == old(s)@ + ascii_text(bytes@),
{
    let mut i: usize = 0;
    while i < bytes.len()
        invariant
            i <= bytes.len(),
            s@ == old(s)@ + ascii_text(bytes@.take(i as int)),
        decreases bytes.len() - i,
    {
        push_char(s, bytes[i] as char);
        assert(ascii_text(bytes@.take(i + 1)) =~= ascii_text(bytes@.take(i as int)).push(
            bytes@[i as int] as char,
        ));
        i += 1;
    }
    assert(bytes@.take(bytes.len() as int) =~= bytes@);
}

/// The bytes as lower-case hex, two digits each.
pub fn to_hex(bytes: &[u8]) -> (s: String)
    ensures
        s@ == hex_text(bytes@),
{
    let mut s = String::new();
    let mut i: usize = 0;
    while i < bytes.len()
        invariant
            i <= bytes.len(),
            s@ =~= hex_text(bytes@.take(i as int)),
        decreases bytes.len() - i,
    {
        push_char(&mut s, hex_char(bytes[i] / 16));
        push_char(&mut s, hex_char(bytes[i] % 16));
        assert(s@ =~= hex_text(bytes@.take(i + 1)));
        i += 1;
    }
    assert(bytes@.take(bytes.len() as int) =~= bytes@);
    s
}

/// The bytes as percent escapes, `%` and two lower-case hex digits each.
pub fn to_percent(bytes: &[u8]) -> (s: String)
    ensures
        s@ == percent_text(bytes@),
{
    let mut s = String::new();
    let mut i: usize = 0;
    while i < bytes.len()
        invariant
            i <= bytes.len(),
            s@ =~= percent_text(bytes@.take(i as int)),
        decreases bytes.len() - i,
    {
        push_char(&mut s, '%');
        push_char(&mut s, hex_char(bytes[i] / 16));
        push_char(&mut s, hex_char(bytes[i] % 16));
        assert(s@ =~= percent_text(bytes@.take(i + 1)));
        i += 1;
    }
    assert(bytes@.take(bytes.len() as int) =~= bytes@);
    s
}

} // verus!
