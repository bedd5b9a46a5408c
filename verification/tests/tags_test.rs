use dedup_core::tags::read_tags_from_bytes;

fn chunk(id: &[u8], data: &[u8]) -> Vec<u8> {
    let mut v = id.to_vec();
    v.extend_from_slice(&(data.len() as u32).to_le_bytes());
    v.extend_from_slice(data);
    if data.len() % 2 == 1 {
        v.push(0);
    }
    v
}

fn wav_with_info() -> Vec<u8> {
    let mut fmt = Vec::new();
    fmt.extend_from_slice(&1u16.to_le_bytes());
    fmt.extend_from_slice(&1u16.to_le_bytes());
    fmt.extend_from_slice(&8000u32.to_le_bytes());
    fmt.extend_from_slice(&8000u32.to_le_bytes());
    fmt.extend_from_slice(&1u16.to_le_bytes());
    fmt.extend_from_slice(&8u16.to_le_bytes());
    let mut info = b"INFO".to_vec();
    info.extend(chunk(b"IART", b"Artist\0"));
    info.extend(chunk(b"INAM", b"Title\0"));
    let mut body = b"WAVE".to_vec();
    body.extend(chunk(b"fmt ", &fmt));
    body.extend(chunk(b"data", &vec![128u8; 16000]));
    body.extend(chunk(b"LIST", &info));
    chunk(b"RIFF", &body)
}

#[test]
fn tags_read_from_bytes() {
    let t = read_tags_from_bytes(&wav_with_info(), "WAV").expect("tags");
    assert_eq!(t.artist, "Artist");
    assert_eq!(t.title, "Title");
    assert_eq!(t.album, "");
    assert_eq!(t.duration, 2);
}

#[test]
fn unreadable_audio_has_no_tags() {
    assert!(read_tags_from_bytes(b"not audio at all", "mp3").is_none());
    assert!(read_tags_from_bytes(&wav_with_info(), "xyz").is_none());
}
