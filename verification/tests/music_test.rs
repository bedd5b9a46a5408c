use dedup_core::models::{FileEntry, GroupKind, Ratio, ScanOptions};
use dedup_core::music::{duration_in_same_bucket, find_music_duplicates, is_music_ext, music_similarity, TagInfo};

fn ratio(r: Ratio) -> f64 {
    r.num as f64 / r.den as f64
}

fn tags(artist: &str, title: &str, album: &str, duration: u64) -> TagInfo {
    TagInfo { artist: artist.into(), title: title.into(), album: album.into(), duration }
}

#[test]
fn same_song_different_bitrate() {
    let a = tags("周杰伦", "晴天", "叶惠美", 269);
    let b = tags("周杰伦", "晴天", "叶惠美", 269);
    assert!(ratio(music_similarity(&a, &b)) > 0.9);
}

#[test]
fn different_songs_low_similarity() {
    let a = tags("周杰伦", "晴天", "", 269);
    let b = tags("林俊杰", "江南", "", 300);
    assert!(ratio(music_similarity(&a, &b)) < 0.5, "got {}", ratio(music_similarity(&a, &b)));
}

#[test]
fn duration_bucket_works() {
    assert!(duration_in_same_bucket(269, 300));
    assert!(duration_in_same_bucket(269, 240));
    assert!(!duration_in_same_bucket(269, 200));
}

#[test]
fn similarity_exact_weights() {
    // identical text, durations within 10%: 0.9 + 0.1
    let r = music_similarity(&tags("a", "b", "", 100), &tags("a", "b", "", 95));
    assert_eq!(r.num, r.den);
    // identical text, durations within 20% only: 0.9 + 0.05
    let r = music_similarity(&tags("a", "b", "", 100), &tags("a", "b", "", 85));
    assert_eq!(r.num * 100, r.den * 95);
    // unknown duration: text only
    let r = music_similarity(&tags("a", "b", "", 0), &tags("a", "b", "", 85));
    assert_eq!(r.num * 10, r.den * 9);
    assert!(duration_in_same_bucket(0, 999));
}

#[test]
fn comparable_needs_a_text_tag() {
    assert!(!tags(" \t", "\u{3000}", "album", 10).comparable());
    assert!(tags("", "x", "", 0).comparable());
    assert!(TagInfo::default().duration == 0 && !TagInfo::default().comparable());
}

#[test]
fn music_groups() {
    let entries = vec![
        FileEntry { path: "/m/a.mp3".into(), size: 5, modified: 2, created: 0 },
        FileEntry { path: "/m/b.FLAC".into(), size: 9, modified: 1, created: 0 },
        FileEntry { path: "/m/c.txt".into(), size: 5, modified: 1, created: 0 },
        FileEntry { path: "/m/d.ogg".into(), size: 5, modified: 1, created: 0 },
    ];
    let infos = vec![
        Some(tags("Artist", "Song", "", 200)),
        Some(tags("artist", "song", "", 205)),
        Some(tags("Artist", "Song", "", 200)),
        Some(tags("Other", "Tune", "", 200)),
    ];
    let mut opts = ScanOptions::default();
    opts.music_threshold = 80;
    let groups = find_music_duplicates(&entries, &infos, &opts);
    assert_eq!(groups.len(), 1);
    assert!(groups[0].kind == GroupKind::MusicTag);
    let paths: Vec<&str> = groups[0].files.iter().map(|f| f.path.as_str()).collect();
    assert_eq!(paths, vec!["/m/b.FLAC", "/m/a.mp3"]);
    assert!(is_music_ext(Some("Mp3")));
    assert!(!is_music_ext(Some("txt")));
}
