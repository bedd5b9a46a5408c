//! The text form of the hashes kept in the hash cache, and reading it back.

use vstd::prelude::*;
use crate::hex::{
    bytes_of_hex, hex16, hex32, hex_from_32, hex_of_bytes, hex_to_32, law_bytes_hex_roundtrip, lemma_hex16,
    lemma_hex32, parse_hex, parse_hex128, parse_hex_u128, parse_hex_u64, write_hex,
};
use crate::text::{chars_of, string_from_chars};

verus! {

/// One cached hash record of a file.
#[derive(Debug)]
pub struct CachedHash {
    /// Hash of the sampled bytes.
    pub partial: Option<u128>,
    /// Digest of the whole content.
    pub full: Option<[u8; 32]>,
}

/// The partial hash written by an optional text, if it reads as a number.
pub open spec fn partial_of_text(t: Option<String>) -> Option<u128> {
    match t {
        Some(s) => parse_hex128(s@),
        None => None,
    }
}

/// The digest written by an optional text, if it reads as 32 bytes.
pub open spec fn full_of_text(t: Option<String>) -> Option<Seq<u8>> {
    match t {
        Some(s) => bytes_of_hex(s@),
        None => None,
    }
}

/// Reads a cache record from the text of its two columns; a column that does not read
/// is taken as absent.
pub fn decode_cached(partial_hex: Option<String>, full_hex: Option<String>) -> (c: CachedHash)
    ensures
        c.partial == partial_of_text(partial_hex),
        match c.full {
            Some(a) => full_of_text(full_hex) == Some(a@),
            None => full_of_text(full_hex) is None,
        },
{
    let partial = match &partial_hex {
        Some(h) => {
            let cs = chars_of(h.as_str());
            parse_hex_u128(cs.as_slice())
        },
        None => None,
    };
    let full = match &full_hex {
        Some(h) => hex_to_32(h.as_str()),
        None => None,
    };
    CachedHash { partial, full }
}

/// Writes a partial hash as 32 lowercase hexadecimal digits.
pub fn partial_text(v: u128) -> (s: String)
    ensures
        s@ == hex32(v),
{
    let cs = write_hex(v, 32);
    string_from_chars(cs.as_slice())
}

/// The text of the two columns of a cache record.
pub fn encode_cached(partial: Option<u128>, full: Option<[u8; 32]>) -> (r: (Option<String>, Option<String>))
    ensures
        match partial {
            Some(v) => r.0 is Some && r.0->0@ == hex32(v),
            None => r.0 is None,
        },
        match full {
            Some(a) => r.1 is Some && r.1->0@ == hex_of_bytes(a@),
            None => r.1 is None,
        },
{
    let p = match partial {
        Some(v) => Some(partial_text(v)),
        None => None,
    };
    let f = match &full {
        Some(a) => Some(hex_from_32(a)),
        None => None,
    };
    (p, f)
}

/// Law: a cache record reads back from the text it is written as.
pub proof fn law_cached_roundtrip(partial: Option<u128>, full: Option<[u8; 32]>, text: (Option<String>, Option<String>))
    requires
        match partial {
            Some(v) => text.0 is Some && text.0->0@ == hex32(v),
            None => text.0 is None,
        },
        match full {
            Some(a) => text.1 is Some && text.1->0@ == hex_of_bytes(a@),
            None => text.1 is None,
        },
    ensures
        partial_of_text(text.0) == partial,
        full_of_text(text.1) == match full {
            Some(a) => Some(a@),
            None => None::<Seq<u8>>,
        },
{
    if let Some(v) = partial {
        lemma_hex32(v);
    }
    if let Some(a) = full {
        law_bytes_hex_roundtrip(a@);
    }
}

/// Writes a perceptual hash as 16 lowercase hexadecimal digits.
pub fn phash_text(h: u64) -> (s: String)
    ensures
        s@ == hex16(h),
{
    let cs = write_hex(h as u128, 16);
    string_from_chars(cs.as_slice())
}

/// Reads a cached perceptual hash; a text that does not read is taken as absent.
pub fn phash_of_text(t: Option<String>) -> (h: Option<u64>)
    ensures
        h == match t {
            Some(s) => parse_hex(s@),
            None => None,
        },
{
    match &t {
        Some(s) => {
            let cs = chars_of(s.as_str());
            parse_hex_u64(cs.as_slice())
        },
        None => None,
    }
}

/// Law: a perceptual hash reads back from its text.
pub proof fn law_phash_roundtrip(h: u64)
    ensures
        parse_hex(hex16(h)) == Some(h),
{
    lemma_hex16(h);
}

} // verus!
