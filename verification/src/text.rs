//! Text in the encodings that MDF files use: ISO 8859-1 in the 3.x metadata,
//! and Windows-1252, UTF-8 or UTF-16 in string channels.

use vstd::prelude::*;
use vstd::string::StrSliceExecFns;
use vstd::string::StringExecFns;
use vstd::utf8::decode_utf8;
use vstd::utf8::valid_utf8;

verus! {

/// The longest run of bytes that the string decoders take in one call.
pub const MAX_TEXT_BYTES: usize = 0x1000_0000;

/// `s` without the run of `c` at its end.
pub open spec fn trim_end(s: Seq<char>, c: char) -> Seq<char>
    decreases s.len(),
{
    if s.len() > 0 && s.last() == c {
        trim_end(s.drop_last(), c)
    } else {
        s
    }
}

/// ISO 8859-1: every byte is the character with the same number.
pub open spec fn latin1_text(bytes: Seq<u8>) -> Seq<char> {
    Seq::new(bytes.len(), |i: int| bytes[i] as char)
}

/// UTF-8 text of `bytes`; empty where the bytes are not valid UTF-8.
pub open spec fn utf8_text(bytes: Seq<u8>) -> Seq<char> {
    if valid_utf8(bytes) {
        decode_utf8(bytes)
    } else {
        Seq::empty()
    }
}

/// What `encoding_rs` decodes `bytes` to as Windows-1252.
pub uninterp spec fn windows_1252_text(bytes: Seq<u8>) -> Seq<char>;

/// What `encoding_rs` decodes `bytes` to as UTF-16, big endian.
pub uninterp spec fn utf_16be_text(bytes: Seq<u8>) -> Seq<char>;

/// What `encoding_rs` decodes `bytes` to as UTF-16, little endian.
pub uninterp spec fn utf_16le_text(bytes: Seq<u8>) -> Seq<char>;

/// The text of a string channel's field in Windows-1252 or UTF-16, before
/// the padding is removed.
pub open spec fn utf_16_text(bytes: Seq<u8>, big_endian: bool) -> Seq<char> {
    if big_endian {
        utf_16be_text(bytes)
    } else {
        utf_16le_text(bytes)
    }
}

/// `encoding::Encoding::decode_to` of `encoding::all::ISO_8859_1` with
/// `DecoderTrap::Replace`, on an empty string: each byte becomes the
/// character of the same number, and no byte is an error.
#[verifier::external_body]
pub(crate) fn decode_latin1(bytes: &[u8]) -> (r: String)
    ensures
        r@ == latin1_text(bytes@),
{
    let mut out = String::new();
    let _ = encoding::Encoding::decode_to(
        encoding::all::ISO_8859_1,
        bytes,
        encoding::DecoderTrap::Replace,
        &mut out,
    );
    out
}

/// `encoding_rs::Encoding::decode_without_bom_handling` of
/// `encoding_rs::WINDOWS_1252`: the whole input decoded, malformed input
/// replaced. The result is named, not described. The outside function panics
/// when the buffer size it computes from the input's length overflows.
#[verifier::external_body]
fn decode_windows_1252(bytes: &[u8]) -> (r: String)
    requires
        bytes.len() <= MAX_TEXT_BYTES,
    ensures
        r@ == windows_1252_text(bytes@),
{
    encoding_rs::WINDOWS_1252.decode_without_bom_handling(bytes).0.into_owned()
}

/// `encoding_rs::Encoding::decode_without_bom_handling` of
/// `encoding_rs::UTF_16BE`; see `decode_windows_1252`.
#[verifier::external_body]
fn decode_utf_16be(bytes: &[u8]) -> (r: String)
    requires
        bytes.len() <= MAX_TEXT_BYTES,
    ensures
        r@ == utf_16be_text(bytes@),
{
    encoding_rs::UTF_16BE.decode_without_bom_handling(bytes).0.into_owned()
}

/// `encoding_rs::Encoding::decode_without_bom_handling` of
/// `encoding_rs::UTF_16LE`; see `decode_windows_1252`.
#[verifier::external_body]
fn decode_utf_16le(bytes: &[u8]) -> (r: String)
    requires
        bytes.len() <= MAX_TEXT_BYTES,
    ensures
        r@ == utf_16le_text(bytes@),
{
    encoding_rs::UTF_16LE.decode_without_bom_handling(bytes).0.into_owned()
}

/// `core::str::from_utf8`: succeeds exactly on valid UTF-8, and the string
/// it gives consists of the characters that the bytes encode.
#[verifier::external_body]
fn decode_valid_utf8(bytes: &[u8]) -> (r: Option<String>)
    ensures
        r is Some <==> valid_utf8(bytes@),
        r is Some ==> r->0@ == decode_utf8(bytes@),
{
    match core::str::from_utf8(bytes) {
        Ok(s) => Some(s.to_string()),
        Err(_) => None,
    }
}

/// Removing a run of `c` at the end of `s` gives the same as removing it from
/// `s` cut after any character of that run.
proof fn lemma_trim_end_step(s: Seq<char>, n: int, c: char)
    requires
        0 < n <= s.len(),
        s[n - 1] == c,
        trim_end(s, c) == trim_end(s.subrange(0, n), c),
    ensures
        trim_end(s, c) == trim_end(s.subrange(0, n - 1), c),
{
    assert(s.subrange(0, n).drop_last() =~= s.subrange(0, n - 1));
}

/// Removes the NUL characters at the end of `s`.
pub fn trim_nul(s: &str) -> (r: String)
    ensures
        r@ == trim_end(s@, '\0'),
{
    let mut n: usize = s.unicode_len();
    proof {
        assert(s@.subrange(0, n as int) =~= s@);
    }
    while n > 0 && s.get_char(n - 1) == '\0'
        invariant
            n <= s@.len(),
            trim_end(s@, '\0') == trim_end(s@.subrange(0, n as int), '\0'),
        decreases n,
    {
        proof {
            lemma_trim_end_step(s@, n as int, '\0');
        }
        n -= 1;
    }
    String::from_str(s.substring_char(0, n))
}

/// Decodes ISO 8859-1 text and removes the NUL padding at its end.
pub fn latin1_string(bytes: &[u8]) -> (r: String)
    ensures
        r@ == trim_end(latin1_text(bytes@), '\0'),
{
    let s = decode_latin1(bytes);
    trim_nul(s.as_str())
}

/// Decodes a single-byte (Windows-1252) string field and removes the NUL
/// padding at its end.
pub fn sbc_string(bytes: &[u8]) -> (r: String)
    requires
        bytes.len() <= MAX_TEXT_BYTES,
    ensures
        r@ == trim_end(windows_1252_text(bytes@), '\0'),
{
    let s = decode_windows_1252(bytes);
    trim_nul(s.as_str())
}

/// Decodes a UTF-8 string field and removes the NUL padding at its end. Bytes
/// that are not valid UTF-8 give the empty string.
pub fn utf8_string(bytes: &[u8]) -> (r: String)
    ensures
        r@ == trim_end(utf8_text(bytes@), '\0'),
{
    match decode_valid_utf8(bytes) {
        Some(s) => trim_nul(s.as_str()),
        None => String::new(),
    }
}

/// Decodes a UTF-16 string field in the given byte order and removes the NUL
/// padding at its end.
pub fn utf16_string(bytes: &[u8], big_endian: bool) -> (r: String)
    requires
        bytes.len() <= MAX_TEXT_BYTES,
    ensures
        r@ == trim_end(utf_16_text(bytes@, big_endian), '\0'),
{
    let s = if big_endian {
        decode_utf_16be(bytes)
    } else {
        decode_utf_16le(bytes)
    };
    trim_nul(s.as_str())
}

} // verus!
