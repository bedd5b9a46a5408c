use dedup_core::models::{FileEntry, GroupKind, Ratio, ScanOptions};
use dedup_core::videos::{find_similar_videos, is_video_ext, sig_from_string, sig_to_string, video_entries, videos_similar};

fn ratio(r: Ratio) -> f64 {
    r.num as f64 / r.den as f64
}

#[test]
fn signature_roundtrip() {
    let sig = vec![0x0123456789abcdef, 0xfedcba9876543210];
    assert_eq!(sig_from_string(&sig_to_string(&sig)).unwrap(), sig);
}

#[test]
fn similar_sequences_match() {
    let a = vec![10u64, 20, 30, 40, 50, 60, 70, 80];
    let b = vec![11u64, 21, 31, 41, 51, 61, 71, 81];
    let r = ratio(videos_similar(&a, &b, 4));
    assert!(r >= 0.9, "got {r}");
}

#[test]
fn unrelated_sequences_low() {
    let a = vec![0u64; 8];
    let b = vec![u64::MAX; 8];
    let r = ratio(videos_similar(&a, &b, 4));
    assert!(r < 0.3, "got {r}");
}

#[test]
fn signature_text_form() {
    assert_eq!(sig_to_string(&[255, 0]), "00000000000000ff,0000000000000000");
    assert_eq!(sig_to_string(&[]), "");
    assert_eq!(sig_from_string(""), None);
    assert_eq!(sig_from_string("FF,+10"), Some(vec![255, 16]));
    assert_eq!(sig_from_string("ff,,1"), None);
    assert_eq!(sig_from_string("10000000000000000"), None);
    assert_eq!(sig_from_string("-1"), None);
    assert_eq!(sig_from_string("+"), None);
}

#[test]
fn similarity_fraction() {
    // two of four frames of a match b; one of two frames of b matches a
    let a = [0u64, 0, u64::MAX, u64::MAX];
    let b = [1u64, 0x0f0f_0f0f_0f0f_0f0f];
    let r = videos_similar(&a, &b, 4);
    assert_eq!((r.num, r.den), (2 * 2 + 4, 2 * 4 * 2));
    let e = videos_similar(&[], &b, 4);
    assert_eq!((e.num, e.den), (0, 1));
}

#[test]
fn similar_videos_grouped() {
    let videos = vec![
        FileEntry { path: "/v/a.mp4".into(), size: 10, modified: 3, created: 0 },
        FileEntry { path: "/v/b.MKV".into(), size: 20, modified: 1, created: 0 },
        FileEntry { path: "/v/c.avi".into(), size: 30, modified: 2, created: 0 },
    ];
    let sigs = vec![Some(vec![1u64, 2, 3]), Some(vec![1u64, 2, 0xffff_0000]), None];
    let mut opts = ScanOptions::default();
    opts.video_threshold = 4;
    let groups = find_similar_videos(&videos, &sigs, &opts);
    assert_eq!(groups.len(), 1);
    assert!(groups[0].kind == GroupKind::SimilarVideo);
    assert_eq!(groups[0].files[0].path, "/v/b.MKV");
    assert!(is_video_ext(Some("MKV")));
    assert!(!is_video_ext(Some("mp3")));
    assert_eq!(video_entries(&videos).len(), 3);
}
