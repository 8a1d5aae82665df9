//! Text out of bytes: UTF-8, and the two string layouts of the binary data
//! files.

use vstd::prelude::*;
use vstd::slice::{slice_subrange, slice_to_vec};
use vstd::utf8::{
    decode_utf8, encode_utf8, encode_utf8_decode_utf8, encode_utf8_valid_utf8, is_ascii_chars,
    is_ascii_chars_encode_utf8, valid_utf8,
};
use crate::error::{Error, ErrorKind};
use crate::lexical::{is_ascii_bytes, run_len, scan_run, skip_bytes, ByteClass};
use crate::rule::{decoded, failure, lemma_suffix_of_suffix, within, Rule};

verus! {

/// The text that bytes below 128 spell, one character for each byte.
pub open spec fn ascii_text(bytes: Seq<u8>) -> Seq<char> {
    Seq::new(bytes.len(), |i: int| bytes[i] as char)
}

/// ASCII bytes are UTF-8, and decode to themselves.
pub proof fn lemma_ascii_is_utf8(bytes: Seq<u8>)
    requires
        is_ascii_bytes(bytes),
    ensures
        valid_utf8(bytes),
        decode_utf8(bytes) == ascii_text(bytes),
{
    let chars = ascii_text(bytes);
    assert(is_ascii_chars(chars)) by {
        assert forall|i: int| 0 <= i < chars.len() implies '\0' <= #[trigger] chars[i]
            <= '\u{7f}' by {
            assert(bytes[i] < 0x80);
        }
    }
    is_ascii_chars_encode_utf8(chars);
    assert(encode_utf8(chars) =~= bytes) by {
        assert forall|i: int| 0 <= i < bytes.len() implies encode_utf8(chars)[i] == bytes[i] by {
            assert(bytes[i] < 0x80);
            assert(chars[i] as u8 == encode_utf8(chars)[i]);
        }
    }
    encode_utf8_valid_utf8(chars);
    encode_utf8_decode_utf8(chars);
}

/// `String::from_utf8`: the text that the bytes encode where they are
/// well-formed UTF-8, and nothing where they are not.
#[verifier::external_body]
pub(crate) fn string_from_utf8(bytes: Vec<u8>) -> (r: Option<String>)
    ensures
        r is Some <==> valid_utf8(bytes@),
        r matches Some(text) ==> text@ == decode_utf8(bytes@),
{
    match String::from_utf8(bytes) {
        Ok(text) => Some(text),
        Err(_) => None,
    }
}

/// The text that the bytes encode, where they are UTF-8.
pub fn text_of(bytes: &[u8]) -> (r: Option<String>)
    ensures
        r is Some <==> valid_utf8(bytes@),
        r matches Some(text) ==> text@ == decode_utf8(bytes@),
{
    string_from_utf8(slice_to_vec(bytes))
}

/// The text that ASCII bytes spell.
pub(crate) fn ascii_text_of(bytes: &[u8]) -> (text: String)
    requires
        is_ascii_bytes(bytes@),
    ensures
        text@ == ascii_text(bytes@),
{
    proof {
        lemma_ascii_is_utf8(bytes@);
    }
    match text_of(bytes) {
        Some(text) => text,
        None => unreached(),
    }
}

/// The whole of `s` as UTF-8 text, with nothing left.
pub open spec fn utf8_string(s: Seq<u8>) -> Result<(Seq<u8>, Seq<char>), Error> {
    if valid_utf8(s) {
        Ok((Seq::empty(), decode_utf8(s)))
    } else {
        Err(Error { kind: ErrorKind::Utf8Error, remaining: s.len() as usize })
    }
}

/// Reads the whole input as UTF-8 text; nothing is left of it.
pub fn decode_bytes_as_utf8_string(input: &[u8]) -> (r: Result<(&[u8], String), Error>)
    ensures
        decoded(r, utf8_string(input@)),
        within(r, input@),
{
    match text_of(input) {
        Some(text) => Ok((slice_subrange(input, input.len(), input.len()), text)),
        None => Err(Error { kind: ErrorKind::Utf8Error, remaining: input.len() }),
    }
}

/// Whether two texts are the same.
pub fn same_text(a: &str, b: &str) -> (r: bool)
    ensures
        r == (a@ == b@),
{
    let left = a.as_bytes();
    let right = b.as_bytes();
    proof {
        encode_utf8_decode_utf8(a@);
        encode_utf8_decode_utf8(b@);
    }
    if left.len() != right.len() {
        return false;
    }
    let mut i: usize = 0;
    while i < left.len()
        invariant
            i <= left@.len() == right@.len(),
            forall|k: int| 0 <= k < i ==> left@[k] == right@[k],
            left@ == encode_utf8(a@),
            right@ == encode_utf8(b@),
            decode_utf8(encode_utf8(a@)) == a@,
            decode_utf8(encode_utf8(b@)) == b@,
        decreases left@.len() - i,
    {
        if left[i] != right[i] {
            return false;
        }
        i += 1;
    }
    assert(left@ =~= right@);
    true
}

/// The number that four bytes spell, the lowest byte first.
pub open spec fn le_u32(s: Seq<u8>) -> int {
    s[0] + 0x100 * s[1] + 0x1_0000 * s[2] + 0x100_0000 * s[3]
}

/// A string with its length before it: four bytes of length, the lowest
/// first, and that many bytes of UTF-8 text.
pub open spec fn rle_string(s: Seq<u8>) -> Rule<Seq<char>> {
    let body = s.skip(4);
    let size = le_u32(s);
    if s.len() < 4 {
        failure(ErrorKind::Mismatch, s)
    } else if body.len() < size {
        failure(ErrorKind::Mismatch, body)
    } else if !valid_utf8(body.take(size)) {
        failure(ErrorKind::Utf8Error, body)
    } else {
        Ok((body.skip(size), decode_utf8(body.take(size))))
    }
}

/// Reads a string with its length before it.
pub fn decode_rle_string(input: &[u8]) -> (r: Result<(&[u8], String), Error>)
    ensures
        decoded(r, rle_string(input@)),
        within(r, input@),
{
    if input.len() < 4 {
        return Err(Error { kind: ErrorKind::Mismatch, remaining: input.len() });
    }
    let size: u32 = input[0] as u32 + 0x100 * (input[1] as u32) + 0x1_0000 * (input[2] as u32)
        + 0x100_0000 * (input[3] as u32);
    let body = skip_bytes(input, 4);
    if body.len() < size as usize {
        return Err(Error { kind: ErrorKind::Mismatch, remaining: body.len() });
    }
    let rest = skip_bytes(body, size as usize);
    proof {
        lemma_suffix_of_suffix(rest@, body@, input@);
    }
    match text_of(slice_subrange(body, 0, size as usize)) {
        Some(text) => Ok((rest, text)),
        None => Err(Error { kind: ErrorKind::Utf8Error, remaining: body.len() }),
    }
}

/// A string that a zero byte ends: UTF-8 text without a zero byte, and the
/// zero byte.
pub open spec fn null_terminated_string(s: Seq<u8>) -> Rule<Seq<char>> {
    let n = run_len(s, ByteClass::NonZero) as int;
    if n == s.len() {
        failure(ErrorKind::Mismatch, Seq::<u8>::empty())
    } else if !valid_utf8(s.take(n)) {
        failure(ErrorKind::Utf8Error, s)
    } else {
        Ok((s.skip(n + 1), decode_utf8(s.take(n))))
    }
}

/// Reads a string that a zero byte ends.
pub fn decode_null_terminated_string(input: &[u8]) -> (r: Result<(&[u8], String), Error>)
    ensures
        decoded(r, null_terminated_string(input@)),
        within(r, input@),
{
    let n = scan_run(input, ByteClass::NonZero);
    if n == input.len() {
        return Err(Error { kind: ErrorKind::Mismatch, remaining: 0 });
    }
    let rest = skip_bytes(input, n + 1);
    match text_of(slice_subrange(input, 0, n)) {
        Some(text) => Ok((rest, text)),
        None => Err(Error { kind: ErrorKind::Utf8Error, remaining: input.len() }),
    }
}

} // verus!
