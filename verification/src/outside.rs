//! The calls into outside crates, each with what is believed of it.

use vstd::prelude::*;
use vstd::utf8::*;

use crate::json::{Document, DocumentView, Field, Member};

verus! {

/// `chrono::Utc::now().timestamp()`: the seconds from the Unix epoch to the
/// moment of the call. Nothing is claimed of it but that it is not negative:
/// chrono panics where the system's clock shows a moment before the epoch.
#[verifier::external_body]
pub(crate) fn unix_now() -> (now: i64)
    ensures
        0 <= now,
{
    chrono::Utc::now().timestamp()
}

/// Whether a text has the shape of a moment: digits, signs, colons and a `T`, with
/// a `Z` at the end.
pub open spec fn is_stamp(s: Seq<char>) -> bool {
    &&& s.len() > 0
    &&& s.last() == 'Z'
    &&& forall|i: int|
        0 <= i < s.len() ==> {
            let c = #[trigger] s[i];
            '0' <= c <= '9' || c == '+' || c == '-' || c == ':' || c == 'T' || c == 'Z'
        }
}

/// `chrono::Utc::now().to_rfc3339_opts(SecondsFormat::Secs, true)`: the moment of
/// the call as text. Of the text only its shape is claimed: which moment it tells
/// is the clock's. chrono panics where the clock shows a moment before the epoch.
#[verifier::external_body]
pub(crate) fn utc_stamp() -> (stamp: String)
    ensures
        is_stamp(stamp@),
{
    chrono::Utc::now().to_rfc3339_opts(chrono::SecondsFormat::Secs, true)
}

/// `rand::Rng::random` on the thread's generator: an array of random bytes.
/// Nothing is claimed of the bytes. The call panics where the system has no
/// randomness to seed the generator with.
#[verifier::external_body]
pub(crate) fn random_bytes<const N: usize>() -> (bytes: [u8; N]) {
    rand::Rng::random(&mut rand::rng())
}

/// The lower-case hexadecimal digit for `d`.
pub open spec fn lower_hex(d: int) -> char {
    if d < 10 {
        ('0' as int + d) as char
    } else {
        ('a' as int + (d - 10)) as char
    }
}

/// The hexadecimal form of a run of bytes: two digits for each, the high one first.
pub open spec fn hex_of(data: Seq<u8>) -> Seq<char> {
    Seq::new(
        2 * data.len(),
        |i: int|
            if i % 2 == 0 {
                lower_hex(data[i / 2] as int / 16)
            } else {
                lower_hex(data[i / 2] as int % 16)
            },
    )
}

/// `hex::encode`: the bytes as lower-case hexadecimal digits.
#[verifier::external_body]
pub(crate) fn hex_encode(data: &[u8]) -> (text: String)
    ensures
        text@ == hex_of(data@),
{
    hex::encode(data)
}

/// The SHA-256 digest of a run of bytes.
pub uninterp spec fn sha256_of(data: Seq<u8>) -> Seq<u8>;

/// `sha2::Sha256::digest`: the digest, which is 32 bytes long.
#[verifier::external_body]
pub(crate) fn sha256(data: &[u8]) -> (digest: [u8; 32])
    ensures
        digest@ == sha256_of(data@),
{
    <sha2::Sha256 as sha2::Digest>::digest(data).into()
}

/// The document that a JSON text stands for, or nothing where the text is no JSON.
pub uninterp spec fn json_of_text(text: Seq<char>) -> Option<DocumentView>;

/// `serde_json::from_str` into a `serde_json::Value`: what the text stands for,
/// cut down to the outermost object and, in it, to strings and to the unsigned
/// integers of arrays.
#[verifier::external_body]
pub(crate) fn json_from_str(text: &str) -> (document: Option<Document>)
    ensures
        match json_of_text(text@) {
            Some(d) => document matches Some(x) && x@ == d,
            None => document is None,
        },
{
    match serde_json::from_str::<serde_json::Value>(text) {
        Ok(serde_json::Value::Object(map)) => Some(Document::Object(
            map.into_iter().map(|(key, value)| Member { key, value: match value {
                serde_json::Value::String(s) => Field::Text(s),
                serde_json::Value::Array(a) => Field::List(a.iter().map(|n| n.as_u64()).collect()),
                _ => Field::Other,
            } }).collect(),
        )),
        Ok(_) => Some(Document::Other),
        Err(_) => None,
    }
}

/// The document that the bytes of a JSON text stand for, or nothing where they
/// are no JSON.
pub uninterp spec fn json_of_bytes(bytes: Seq<u8>) -> Option<DocumentView>;

/// `serde_json::from_slice` into a `serde_json::Value`: what the bytes stand
/// for, cut down as in [`json_from_str`].
#[verifier::external_body]
pub(crate) fn json_from_slice(bytes: &[u8]) -> (document: Option<Document>)
    ensures
        match json_of_bytes(bytes@) {
            Some(d) => document matches Some(x) && x@ == d,
            None => document is None,
        },
{
    match serde_json::from_slice::<serde_json::Value>(bytes) {
        Ok(serde_json::Value::Object(map)) => Some(Document::Object(
            map.into_iter().map(|(key, value)| Member { key, value: match value {
                serde_json::Value::String(s) => Field::Text(s),
                serde_json::Value::Array(a) => Field::List(a.iter().map(|n| n.as_u64()).collect()),
                _ => Field::Other,
            } }).collect(),
        )),
        Ok(_) => Some(Document::Other),
        Err(_) => None,
    }
}

/// The text that bytes which are no UTF-8 stand for, with a replacement for what
/// cannot be read.
pub uninterp spec fn lossy_text_of(bytes: Seq<u8>) -> Seq<char>;

/// `String::from_utf8_lossy`: the text that the bytes stand for. Where they are
/// UTF-8 it is the text that they encode; of any other bytes only a name is
/// given to the text.
#[verifier::external_body]
pub(crate) fn lossy_text(bytes: &[u8]) -> (text: String)
    ensures
        valid_utf8(bytes@) ==> text@ == decode_utf8(bytes@),
        !valid_utf8(bytes@) ==> text@ == lossy_text_of(bytes@),
{
    String::from_utf8_lossy(bytes).into_owned()
}

} // verus!
