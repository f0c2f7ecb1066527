//! Bytes into text: UTF-8 where they are that, otherwise by a guessed or declared encoding.
use vstd::prelude::*;
use vstd::utf8::{decode_utf8, encode_utf8, valid_utf8};
use crate::text;

verus! {

/// The text of UTF-8 bytes (`String::from_utf8`): it is there exactly when the bytes are valid.
#[verifier::external_body]
pub(crate) fn utf8_text(bytes: &[u8]) -> (r: Option<String>)
    ensures
        r is Some <==> valid_utf8(bytes@),
        r matches Some(s) ==> encode_utf8(s@) == bytes@ && s@ == decode_utf8(bytes@),
{
    String::from_utf8(bytes.to_vec()).ok()
}

/// The name of the encoding that some bytes are most likely in.
pub uninterp spec fn encoding_guess(bytes: Seq<u8>) -> Seq<char>;

/// The text of some bytes in the encoding with a label, and whether some of them are malformed in
/// it, if there is such an encoding.
pub uninterp spec fn decoded_as(label: Seq<char>, bytes: Seq<u8>) -> Option<(Seq<char>, bool)>;

/// Guesses the encoding of some bytes (`chardetng::EncodingDetector`, fed with all of them, no
/// domain, UTF-8 allowed): its name is a function of the bytes, named here.
#[verifier::external_body]
pub(crate) fn guess_encoding(bytes: &[u8]) -> (r: String)
    ensures
        r@ == encoding_guess(bytes@),
{
    let mut det = chardetng::EncodingDetector::new();
    det.feed(bytes, true);
    det.guess(None, true).name().to_string()
}

/// What decoding gives.
pub open spec fn decoding(r: Option<(String, bool)>) -> Option<(Seq<char>, bool)> {
    match r {
        Some(d) => Some((d.0@, d.1)),
        None => None,
    }
}

/// Decodes some bytes (`encoding_rs::Encoding::decode` of the encoding with the label): the text,
/// and whether malformed bytes were replaced in it, are a function of label and bytes, named here.
#[verifier::external_body]
pub(crate) fn decode_as(label: &str, bytes: &[u8]) -> (r: Option<(String, bool)>)
    ensures
        decoding(r) == decoded_as(label@, bytes@),
{
    let encoding = encoding_rs::Encoding::for_label(label.as_bytes())?;
    let (s, _, malformed) = encoding.decode(bytes);
    Some((s.into_owned(), malformed))
}

/// Every byte as the character of its number (Latin-1), which loses nothing.
pub open spec fn latin1(bytes: Seq<u8>) -> Seq<char> {
    Seq::new(bytes.len(), |i: int| bytes[i] as char)
}

/// Every byte as the character of its number.
pub fn latin1_text(bytes: &[u8]) -> (r: String)
    ensures
        r@ == latin1(bytes@),
{
    let mut out = String::new();
    for i in 0..bytes.len()
        invariant
            out@ == latin1(bytes@).take(i as int),
    {
        out.push(bytes[i] as char);
        assert(out@ =~= latin1(bytes@).take(i + 1));
    }
    assert(out@ =~= latin1(bytes@));
    out
}

/// The text of bytes that are not UTF-8, by what decoding them in the guessed encoding gives: that
/// text where every byte is well-formed, and Latin-1 as the lossless last resort.
pub open spec fn guessed_text(bytes: Seq<u8>, d: Option<(Seq<char>, bool)>) -> Seq<char> {
    match d {
        Some((s, malformed)) if !malformed => s,
        _ => latin1(bytes),
    }
}

/// The text of bytes that are not UTF-8, by what decoding them in the guessed encoding gives.
pub fn settle(bytes: &[u8], d: Option<(String, bool)>) -> (r: String)
    ensures
        r@ == guessed_text(bytes@, decoding(d)),
{
    match d {
        Some((s, malformed)) => if malformed {
            latin1_text(bytes)
        } else {
            s
        },
        None => latin1_text(bytes),
    }
}

/// The text of a file: strict UTF-8 first, then its guessed encoding, then Latin-1.
pub open spec fn file_text(bytes: Seq<u8>) -> Seq<char> {
    if valid_utf8(bytes) {
        decode_utf8(bytes)
    } else {
        guessed_text(bytes, decoded_as(encoding_guess(bytes), bytes))
    }
}

/// Decodes a file.
pub fn decode_file(bytes: &[u8]) -> (r: String)
    ensures
        r@ == file_text(bytes@),
{
    match utf8_text(bytes) {
        Some(s) => s,
        None => {
            let label = guess_encoding(bytes);
            settle(bytes, decode_as(label.as_str(), bytes))
        },
    }
}

/// The text of some bytes with what is not UTF-8 replaced.
pub uninterp spec fn utf8_lossy(bytes: Seq<u8>) -> Seq<char>;

/// The text of some bytes, whatever they are (`String::from_utf8_lossy`): a function of the bytes,
/// named here, and of valid UTF-8 exactly its text.
#[verifier::external_body]
pub(crate) fn lossy_text(bytes: &[u8]) -> (r: String)
    ensures
        r@ == utf8_lossy(bytes@),
        valid_utf8(bytes@) ==> r@ == decode_utf8(bytes@),
{
    String::from_utf8_lossy(bytes).into_owned()
}

} // verus!
