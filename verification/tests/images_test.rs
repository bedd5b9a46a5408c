use dedup_core::bits::hamming;
use dedup_core::bktree::BKTree;
use dedup_core::images::{find_similar_images, image_entries, is_image_ext};
use dedup_core::models::{FileEntry, GroupKind, ScanOptions};

fn entry(path: &str, size: u64, modified: u64) -> FileEntry {
    FileEntry { path: path.to_string(), size, modified, created: 0 }
}

#[test]
fn hamming_works() {
    assert_eq!(hamming(0b1010, 0b1111), 2);
    assert_eq!(hamming(0, 0), 0);
}

#[test]
fn bk_tree_query() {
    let mut tree = BKTree::new();
    let h1 = 0b0000_0000u64;
    let h2 = 0b0000_0011u64;
    let h3 = 0b1111_0000u64;
    tree.insert(h1);
    tree.insert(h2);
    tree.insert(h3);
    let near = tree.query(h1, 2);
    assert!(near.len() >= 2, "radius 2 reaches h1 and h2");
    let near4 = tree.query(h1, 4);
    assert_eq!(near4.len(), 3);
}

#[test]
fn hamming_triangle_example() {
    let (a, b, c) = (0b1100u64, 0b1010u64, 0b0110u64);
    assert!(hamming(a, c) <= hamming(a, b) + hamming(b, c));
    assert_eq!(hamming(u64::MAX, 0), 64);
    assert_eq!(hamming(a, b), hamming(b, a));
}

#[test]
fn bk_tree_query_exact_members() {
    let mut tree = BKTree::new();
    for h in [0u64, 1, 3, 7, 0xff, 0xffff, 1] {
        tree.insert(h);
    }
    let mut found: Vec<u64> = tree.query(0, 3).iter().map(|&i| tree.node_hash(i)).collect();
    found.sort();
    assert_eq!(found, vec![0, 1, 3, 7]);
    assert!(tree.query(0xffff_0000_0000_0000, 3).is_empty());
}

#[test]
fn image_extensions() {
    assert!(is_image_ext(Some("JPG")));
    assert!(is_image_ext(Some("webp")));
    assert!(!is_image_ext(Some("txt")));
    assert!(!is_image_ext(None));
    let entries = vec![entry("/p/a.PNG", 1, 0), entry("/p/b.txt", 1, 0), entry("/p/.png", 1, 0), entry("/p/c.gif", 1, 0)];
    let imgs = image_entries(&entries);
    let paths: Vec<&str> = imgs.iter().map(|e| e.path.as_str()).collect();
    assert_eq!(paths, vec!["/p/a.PNG", "/p/c.gif"]);
}

#[test]
fn similar_images_grouped_by_hash_distance() {
    let images = vec![
        entry("/img/a.png", 100, 5),
        entry("/img/sub/b.png", 200, 3),
        entry("/img/c.png", 100, 1),
        entry("/img/d.png", 100, 1),
    ];
    // a and b differ in 3 bits, c is far from both, d could not be hashed
    let hashes = vec![Some(0x0f0f_0000_0000_0000u64), Some(0x0f0f_0000_0000_0007u64), Some(0xf0f0_ffff_0000_0000u64), None];
    let mut opts = ScanOptions::default();
    opts.image_threshold = 10;
    let groups = find_similar_images(&images, &hashes, &opts);
    assert_eq!(groups.len(), 1);
    assert!(groups[0].kind == GroupKind::SimilarImage);
    let paths: Vec<&str> = groups[0].files.iter().map(|f| f.path.as_str()).collect();
    assert_eq!(paths, vec!["/img/sub/b.png", "/img/a.png"]);
    assert_eq!(groups[0].reclaimable, 100);
    opts.image_threshold = 2;
    assert!(find_similar_images(&images, &hashes, &opts).is_empty());
}

#[test]
fn identical_hashes_join_and_chains_merge() {
    let images = vec![entry("/i/1.png", 1, 1), entry("/i/2.png", 1, 2), entry("/i/3.png", 1, 3), entry("/i/4.png", 1, 4)];
    // 1 and 2 share a hash; 3 is 4 bits from 2; 4 is 4 bits from 3 but 8 from 1
    let hashes = vec![Some(0u64), Some(0u64), Some(0xfu64), Some(0xffu64)];
    let mut opts = ScanOptions::default();
    opts.image_threshold = 4;
    let groups = find_similar_images(&images, &hashes, &opts);
    assert_eq!(groups.len(), 1);
    assert_eq!(groups[0].files.len(), 4);
}

#[test]
fn bk_tree_holds_each_hash_once() {
    let mut tree = BKTree::new();
    for h in [5u64, 5, 9, 5, 9] {
        tree.insert(h);
    }
    assert_eq!(tree.query(0, 64).len(), 2);
}

#[test]
fn gray_thumbnail_of_png() {
    let mut img = image::GrayImage::new(64, 64);
    for (x, _y, p) in img.enumerate_pixels_mut() {
        p.0 = [(x * 4) as u8];
    }
    let mut bytes: Vec<u8> = Vec::new();
    image::DynamicImage::ImageLuma8(img)
        .write_to(&mut std::io::Cursor::new(&mut bytes), image::ImageFormat::Png)
        .unwrap();
    let thumb = dedup_core::images::gray_thumbnail(&bytes, "PNG").expect("decodes");
    assert_eq!(thumb.len(), 1024);
    assert!(thumb[0] < thumb[31], "left is darker than right");
    assert!(dedup_core::images::gray_thumbnail(&bytes, "txt").is_none());
    assert!(dedup_core::images::gray_thumbnail(b"garbage", "png").is_none());
}
