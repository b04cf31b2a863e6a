use beluga::assets::{
    content_type, extension, file_path, is_traversal, relative_part, AssetCache, MAX_ASSET_BYTES,
};

#[test]
fn traversal_is_dot_dot_slash_or_a_segment_of_two_dots() {
    for path in ["..", "../", "/..", "/../", "a/../b", "a/..", "//..", "x../y", ".../", "a/.../b"] {
        assert!(is_traversal(path), "for {:?}", path);
    }
    for path in [
        "", ".", "/", "a", "a/b", "./a", "a/./b", "..a", "a/..b", "a.b", "a/.b./c", ". .",
        "%2e%2e/", "x..", "/x..", "...", "/a/...", "a/b..", "..\\", "a\\..\\b", "/a/..\\b", "....",
    ] {
        assert!(!is_traversal(path), "for {:?}", path);
    }
}

#[test]
fn relative_part_drops_the_separators_in_front() {
    assert_eq!(relative_part("/a/b"), "a/b");
    assert_eq!(relative_part("a/b"), "a/b");
    assert_eq!(relative_part("///a//b/"), "a//b/");
    assert_eq!(relative_part("\\/\\a"), "\\/\\a");
    assert_eq!(relative_part("/\\x"), "\\x");
    assert_eq!(relative_part("/"), "");
    assert_eq!(relative_part(""), "");
    assert_eq!(relative_part("/é/ü"), "é/ü");
}

#[test]
fn extension_is_what_follows_the_last_dot_of_the_last_segment() {
    assert_eq!(extension("/a/b.css"), "css");
    assert_eq!(extension("b.tar.gz"), "gz");
    assert_eq!(extension("/a.b/c"), "");
    assert_eq!(extension("/a.b/c.d"), "d");
    assert_eq!(extension("/a/.hidden"), "");
    assert_eq!(extension(".hidden"), "");
    assert_eq!(extension("/a/.hidden.txt"), "txt");
    assert_eq!(extension("/a/b."), "");
    assert_eq!(extension("/a/b.c/"), "");
    assert_eq!(extension(""), "");
    assert_eq!(extension("/"), "");
    assert_eq!(extension("a\\b.x\\c"), "x\\c");
    assert_eq!(extension("/x\\.css"), "css");
    assert_eq!(extension("/ä.ö/ü.ñandú"), "ñandú");
}

#[test]
fn extension_agrees_with_the_standard_path_on_file_names() {
    for name in ["a.css", "a", ".a", "a.", "a.b.c", ".a.b", "a..b", "index.HTML", "x.y.z.json"] {
        let expected =
            std::path::Path::new(name).extension().and_then(|e| e.to_str()).unwrap_or("");
        assert_eq!(extension(name), expected, "for {:?}", name);
        assert_eq!(extension(&format!("/dir.x/{}", name)), expected, "for {:?}", name);
    }
    // Where a path names no file, the extension is empty.
    assert_eq!(extension("/a/b.css/"), "");
    assert_eq!(extension("/a/b.css/."), "");
}

#[test]
fn content_type_is_guessed_from_the_extension() {
    assert_eq!(content_type("/a/main.css"), "text/css");
    assert_eq!(content_type("/a/main.CSS"), "text/css");
    assert_eq!(content_type("/a/index.html"), "text/html");
    assert_eq!(content_type("/a/logo.png"), "image/png");
    assert_eq!(content_type("/a/photo.jpg"), "image/jpeg");
    assert_eq!(content_type("/a/data.json"), "application/json");
    assert_eq!(content_type("/a/font.woff2"), "font/woff2");
    assert_eq!(content_type("/css"), "application/octet-stream");
    assert_eq!(content_type("/a.css/b"), "application/octet-stream");
    assert_eq!(content_type("/x\\.css"), "text/css");
    assert_eq!(content_type(""), "application/octet-stream");
    assert_eq!(content_type("/a/b.no-such-extension"), "application/octet-stream");
}

#[test]
fn file_path_joins_directory_package_and_path() {
    assert_eq!(file_path("/data/dicts", "en", "/css/a.css"), "/data/dicts/en/css/a.css");
    assert_eq!(file_path("/data/dicts", "en", "css/a.css"), "/data/dicts/en/css/a.css");
    assert_eq!(file_path("C:\\dicts", "fr", "//a"), "C:\\dicts/fr/a");
    assert_eq!(file_path("", "", ""), "//");
}

#[test]
fn cache_gives_back_what_it_took() {
    let mut cache = AssetCache::new(2);
    assert_eq!(cache.get("a"), None);
    assert!(cache.insert("a".to_string(), vec![1]));
    assert!(cache.insert("b".to_string(), vec![2, 2]));
    assert_eq!(cache.get("a"), Some(&vec![1]));
    assert_eq!(cache.get("b"), Some(&vec![2, 2]));
    assert_eq!(cache.get("c"), None);
    assert_eq!(cache.get("A"), None);
}

#[test]
fn cache_replaces_the_content_of_a_path_it_holds() {
    let mut cache = AssetCache::new(2);
    cache.insert("a".to_string(), vec![1]);
    cache.insert("b".to_string(), vec![2]);
    assert!(cache.insert("a".to_string(), vec![3]));
    assert_eq!(cache.get("a"), Some(&vec![3]));
    assert_eq!(cache.get("b"), Some(&vec![2]));
    // Replacing did not make "a" younger: it is still the oldest.
    cache.insert("c".to_string(), vec![4]);
    assert_eq!(cache.get("a"), None);
    assert_eq!(cache.get("b"), Some(&vec![2]));
    assert_eq!(cache.get("c"), Some(&vec![4]));
}

#[test]
fn full_cache_forgets_its_oldest_file() {
    let mut cache = AssetCache::new(3);
    for (name, byte) in [("a", 1u8), ("b", 2), ("c", 3), ("d", 4), ("e", 5)] {
        assert!(cache.insert(name.to_string(), vec![byte]));
    }
    assert_eq!(cache.get("a"), None);
    assert_eq!(cache.get("b"), None);
    assert_eq!(cache.get("c"), Some(&vec![3]));
    assert_eq!(cache.get("d"), Some(&vec![4]));
    assert_eq!(cache.get("e"), Some(&vec![5]));
}

#[test]
fn cache_takes_files_up_to_one_mebibyte() {
    assert_eq!(MAX_ASSET_BYTES, 1024 * 1024);
    let mut cache = AssetCache::new(3);
    assert!(cache.insert("empty".to_string(), vec![]));
    assert!(cache.insert("limit".to_string(), vec![0; MAX_ASSET_BYTES]));
    assert!(!cache.insert("over".to_string(), vec![0; MAX_ASSET_BYTES + 1]));
    assert_eq!(cache.get("empty"), Some(&vec![]));
    assert_eq!(cache.get("limit").map(|content| content.len()), Some(MAX_ASSET_BYTES));
    assert_eq!(cache.get("over"), None);
}

#[test]
fn file_too_large_does_not_displace_what_is_cached() {
    let mut cache = AssetCache::new(1);
    cache.insert("a".to_string(), vec![1]);
    assert!(!cache.insert("a".to_string(), vec![0; MAX_ASSET_BYTES + 1]));
    assert!(!cache.insert("b".to_string(), vec![0; MAX_ASSET_BYTES + 1]));
    assert_eq!(cache.get("a"), Some(&vec![1]));
}

#[test]
fn cache_without_capacity_takes_nothing() {
    let mut cache = AssetCache::new(0);
    assert!(!cache.insert("a".to_string(), vec![1]));
    assert_eq!(cache.get("a"), None);
}
