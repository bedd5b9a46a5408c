use dedup_core::cache::{decode_cached, encode_cached, partial_text, phash_of_text, phash_text};
use dedup_core::hex::{hex_from_32, hex_to_32};

#[test]
fn cache_record_roundtrip() {
    let mut digest = [0u8; 32];
    for (i, b) in digest.iter_mut().enumerate() {
        *b = (i as u8).wrapping_mul(37).wrapping_add(5);
    }
    let partial = 0x0123_4567_89ab_cdef_fedc_ba98_7654_3210u128;
    let (p, f) = encode_cached(Some(partial), Some(digest));
    assert_eq!(p.as_deref(), Some("0123456789abcdeffedcba9876543210"));
    let back = decode_cached(p, f);
    assert_eq!(back.partial, Some(partial));
    assert_eq!(back.full, Some(digest));
    let (p, f) = encode_cached(None, None);
    assert!(p.is_none() && f.is_none());
}

#[test]
fn digest_text() {
    let mut d = [0u8; 32];
    d[0] = 0xab;
    d[31] = 0x01;
    let s = hex_from_32(&d);
    assert_eq!(s.len(), 64);
    assert!(s.starts_with("ab00"));
    assert!(s.ends_with("0001"));
    assert_eq!(hex_to_32(&s.to_uppercase()), Some(d));
    assert_eq!(hex_to_32("abc"), None);
    assert_eq!(hex_to_32(&"g".repeat(64)), None);
    assert_eq!(hex_to_32(&"é".repeat(32)), None);
}

#[test]
fn bad_columns_read_as_absent() {
    let c = decode_cached(Some("not hex".to_string()), Some("00".to_string()));
    assert!(c.partial.is_none() && c.full.is_none());
    assert_eq!(partial_text(255), format!("{:032x}", 255u128));
}

#[test]
fn phash_text_roundtrip() {
    assert_eq!(phash_text(0xff), "00000000000000ff");
    assert_eq!(phash_of_text(Some(phash_text(u64::MAX))), Some(u64::MAX));
    assert_eq!(phash_of_text(Some("FF".to_string())), Some(255));
    assert_eq!(phash_of_text(Some("".to_string())), None);
    assert_eq!(phash_of_text(None), None);
}
