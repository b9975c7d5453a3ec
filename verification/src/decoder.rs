//! The domain rule "plain or base64": content that holds `"://"` is
//! already a list of URIs (`vless://…`, `vmess://…`) and is kept as it is;
//! anything else is a (possibly multi-line) base64 subscription.

use vstd::prelude::*;
use vstd::utf8::{decode_utf8, valid_utf8};
use base64::Engine;
use crate::error::Error;
use crate::text::{
    blank, byte_len, chars_of, contains_chars, contains_seq, is_blank, is_whitespace, is_ws,
    occurs_at, str_byte_len, string_of,
};

verus! {

#[verifier::external_type_specification]
#[verifier::external_body]
pub struct ExDecodeError(base64::DecodeError);

/// The marker of "this is already a URI list".
pub const URI_MARKER: &'static str = "://";

/// `s` with every whitespace character removed.
pub open spec fn compact(s: Seq<char>) -> Seq<char> {
    s.filter(|c: char| !is_ws(c))
}

/// The buffer that the base64 engines allocate for an input of `n` bytes
/// fits in `usize` (their length estimate overflows otherwise).
pub open spec fn decode_estimate_fits(n: nat) -> bool {
    (n / 4 + (if n % 4 > 0 { 1nat } else { 0nat })) * 3 <= usize::MAX
}

/// What the `base64` crate's `STANDARD` engine (RFC 4648 alphabet, padding
/// required, no trailing bits) decodes from the bytes of `text`, if they are
/// valid for it.
pub uninterp spec fn base64_standard_decode(text: Seq<char>) -> Option<Seq<u8>>;

/// What the `base64` crate's `URL_SAFE` engine (`-` and `_` in place of `+`
/// and `/`, padding required, no trailing bits) decodes from the bytes of
/// `text`, if they are valid for it.
pub uninterp spec fn base64_url_safe_decode(text: Seq<char>) -> Option<Seq<u8>>;

/// `STANDARD.decode(text)` of the `base64` crate: the decoded bytes, or its
/// error when `text` is not valid standard base64.
#[verifier::external_body]
fn decode_standard(text: &str) -> (res: Result<Vec<u8>, base64::DecodeError>)
    requires
        decode_estimate_fits(byte_len(text@)),
    ensures
        res is Ok <==> base64_standard_decode(text@) is Some,
        res matches Ok(b) ==> b@ == base64_standard_decode(text@)->0,
{
    base64::engine::general_purpose::STANDARD.decode(text)
}

/// The message (`Display`) of the error that the `base64` crate's
/// `URL_SAFE` engine gives for the bytes of `text` when they are not valid
/// URL-safe base64.
pub uninterp spec fn base64_url_safe_error(text: Seq<char>) -> Seq<char>;

/// The message (`Display`) of the error that `String::from_utf8` gives for
/// `bytes` when they are not valid UTF-8.
pub uninterp spec fn utf8_error_message(bytes: Seq<u8>) -> Seq<char>;

/// `URL_SAFE.decode(text)` of the `base64` crate: the decoded bytes, or the
/// message of its error when `text` is not valid URL-safe base64.
#[verifier::external_body]
fn decode_url_safe(text: &str) -> (res: Result<Vec<u8>, String>)
    requires
        decode_estimate_fits(byte_len(text@)),
    ensures
        res is Ok <==> base64_url_safe_decode(text@) is Some,
        res matches Ok(b) ==> b@ == base64_url_safe_decode(text@)->0,
        res matches Err(m) ==> m@ == base64_url_safe_error(text@),
{
    base64::engine::general_purpose::URL_SAFE.decode(text).map_err(|e| e.to_string())
}

/// `String::from_utf8`: the string when `bytes` are valid UTF-8, else the
/// message of its error.
#[verifier::external_body]
fn utf8_string(bytes: Vec<u8>) -> (res: Result<String, String>)
    ensures
        res is Ok <==> valid_utf8(bytes@),
        res matches Ok(s) ==> s@ == decode_utf8(bytes@),
        res matches Err(m) ==> m@ == utf8_error_message(bytes@),
{
    String::from_utf8(bytes).map_err(|e| e.to_string())
}

/// The bytes that a base64 body decodes to: by the standard alphabet, or
/// else by the URL-safe one.
pub open spec fn base64_bytes(text: Seq<char>) -> Option<Seq<u8>> {
    match base64_standard_decode(text) {
        Some(b) => Some(b),
        None => base64_url_safe_decode(text),
    }
}

/// Whether `raw` is a list of URIs already (it holds `"://"`).
pub open spec fn is_uri_list(raw: Seq<char>) -> bool {
    contains_seq(raw, URI_MARKER@)
}

/// The text that `decode_if_needed` gives for `raw`, if it succeeds.
pub open spec fn decoded_text(raw: Seq<char>) -> Option<Seq<char>> {
    if is_uri_list(raw) {
        Some(raw)
    } else if compact(raw).len() == 0 {
        Some(Seq::<char>::empty())
    } else {
        match base64_bytes(compact(raw)) {
            None => None,
            Some(bytes) => if valid_utf8(bytes) {
                Some(decode_utf8(bytes))
            } else {
                None
            },
        }
    }
}

/// Whitespace inside a base64 body does not matter: two contents without
/// `"://"` that differ only in whitespace decode alike.
pub proof fn lemma_whitespace_ignored(a: Seq<char>, b: Seq<char>)
    requires
        !is_uri_list(a),
        !is_uri_list(b),
        compact(a) == compact(b),
    ensures
        decoded_text(a) == decoded_text(b),
{
}

/// `"://"` occurs in `raw` at index `i`.
pub open spec fn marker_at(raw: Seq<char>, i: int) -> bool {
    0 <= i && i + 3 <= raw.len() && raw[i] == ':' && raw[i + 1] == '/' && raw[i + 2] == '/'
}

/// Content is a URI list exactly when `"://"` occurs somewhere in it, on
/// any line; such content decodes to itself.
pub proof fn lemma_uri_list_anywhere(raw: Seq<char>)
    ensures
        is_uri_list(raw) <==> exists|i: int| marker_at(raw, i),
        (exists|i: int| marker_at(raw, i)) ==> decoded_text(raw) == Some(raw),
{
    reveal_strlit("://");
    let m = seq![':', '/', '/'];
    assert(URI_MARKER@ == m);
    if exists|i: int| marker_at(raw, i) {
        let i = choose|i: int| marker_at(raw, i);
        assert(raw.subrange(i, i + 3) =~= m);
        assert(occurs_at(raw, URI_MARKER@, i));
    }
    if is_uri_list(raw) {
        let i = choose|i: int| occurs_at(raw, URI_MARKER@, i);
        assert(raw.subrange(i, i + 3)[0] == raw[i]);
        assert(raw.subrange(i, i + 3)[1] == raw[i + 1]);
        assert(raw.subrange(i, i + 3)[2] == raw[i + 2]);
        assert(marker_at(raw, i));
    }
}

/// `e` is the error that decoding `raw` fails with: the URL-safe engine's
/// message when neither alphabet decodes the body, else the UTF-8 error's
/// message for the decoded bytes.
pub open spec fn decode_failure(raw: Seq<char>, e: Error) -> bool {
    match base64_bytes(compact(raw)) {
        None => e matches Error::Decode(m) && m@ == base64_url_safe_error(compact(raw)),
        Some(bytes) => e matches Error::NonUtf8(m) && m@ == utf8_error_message(bytes),
    }
}

/// The engines' length estimate fits for every length that a string can
/// have.
proof fn lemma_decode_estimate_fits(n: nat)
    requires
        n <= usize::MAX,
    ensures
        decode_estimate_fits(n),
{
    let q = n / 4;
    assert(4 * q <= n);
    assert(usize::MAX >= 0xffff_ffff);
}

/// The characters of `raw` without its whitespace.
fn compact_chars(raw: &Vec<char>) -> (res: Vec<char>)
    ensures
        res@ == compact(raw@),
{
    let mut res: Vec<char> = Vec::new();
    for i in 0..raw.len()
        invariant
            res@ == compact(raw@.take(i as int)),
    {
        proof {
            reveal_with_fuel(Seq::filter, 1);
            assert(raw@.take(i + 1).drop_last() == raw@.take(i as int));
        }
        if !is_whitespace(raw[i]) {
            res.push(raw[i]);
        }
    }
    assert(raw@.take(raw@.len() as int) == raw@);
    res
}

/// Returns the content as it is, or decoded from base64.
///
/// - Content holding `"://"` is returned unchanged.
/// - Empty or whitespace-only content gives an empty string, not an error.
/// - Whitespace (line breaks included) inside base64 is ignored.
/// - The `STANDARD` alphabet is tried first, then `URL_SAFE`.
pub fn decode_if_needed(raw: &str) -> (res: Result<String, Error>)
    ensures
        is_uri_list(raw@) ==> (res matches Ok(out) && out@ == raw@),
        !is_uri_list(raw@) && compact(raw@).len() == 0 ==> (res matches Ok(out) && out@.len()
            == 0),
        !is_uri_list(raw@) && compact(raw@).len() > 0 ==> match base64_bytes(compact(raw@)) {
            None => res matches Err(e) && decode_failure(raw@, e),
            Some(bytes) => if valid_utf8(bytes) {
                res matches Ok(out) && out@ == decode_utf8(bytes)
            } else {
                res matches Err(e) && decode_failure(raw@, e)
            },
        },
        res is Ok <==> decoded_text(raw@) is Some,
        res matches Ok(out) ==> out@ == decoded_text(raw@)->0,
        res matches Err(e) ==> decode_failure(raw@, e),
        (exists|i: int| marker_at(raw@, i)) ==> (res matches Ok(out) && out@ == raw@),
{
    proof {
        lemma_uri_list_anywhere(raw@);
    }
    let chars = chars_of(raw);
    let marker = chars_of(URI_MARKER);
    if contains_chars(&chars, &marker) {
        return Ok(string_of(&chars));
    }
    let compact_v = compact_chars(&chars);
    if compact_v.len() == 0 {
        let empty = String::new();
        assert(empty@ =~= Seq::<char>::empty());
        return Ok(empty);
    }
    let text = string_of(&compact_v);
    let size = str_byte_len(text.as_str());
    proof {
        lemma_decode_estimate_fits(size as nat);
    }
    let bytes = match decode_standard(text.as_str()) {
        Ok(b) => b,
        Err(_) => match decode_url_safe(text.as_str()) {
            Ok(b) => b,
            Err(message) => return Err(Error::Decode(message)),
        },
    };
    match utf8_string(bytes) {
        Ok(s) => Ok(s),
        Err(message) => Err(Error::NonUtf8(message)),
    }
}

/// Whether the content was base64 (for reports): it holds no `"://"` and
/// is not blank.
pub fn is_encoded(raw: &str) -> (b: bool)
    ensures
        b == (!is_uri_list(raw@) && !is_blank(raw@)),
        b == (!(exists|i: int| marker_at(raw@, i)) && !is_blank(raw@)),
{
    proof {
        lemma_uri_list_anywhere(raw@);
    }
    let chars = chars_of(raw);
    let marker = chars_of(URI_MARKER);
    !contains_chars(&chars, &marker) && !blank(&chars)
}

} // verus!
