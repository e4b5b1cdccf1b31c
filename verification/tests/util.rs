use dedup::format::HexFormatter;
use dedup::meta::Meta;
use dedup::meta::Metacache;
use dedup::format::hex_string;
use dedup::listing::should_list;
use dedup::text::file_name_str;
use dedup::text::u64_to_string;

#[test]
fn hexadecimal_rendering_is_lowercase_and_padded() {
    assert_eq!(hex_string(&[]), "");
    assert_eq!(hex_string(&[0x00]), "00");
    assert_eq!(hex_string(&[0xab, 0x00, 0xff, 0x07]), "ab00ff07");
    assert_eq!(HexFormatter(&[0xde, 0xad]).to_hex_string(), "dead");
}

#[test]
fn decimal_rendering_has_no_leading_zeroes() {
    assert_eq!(u64_to_string(0), "0");
    assert_eq!(u64_to_string(7), "7");
    assert_eq!(u64_to_string(1234), "1234");
    assert_eq!(u64_to_string(1000000), "1000000");
}

#[test]
fn hidden_components_exclude_a_path() {
    let no_ignore: Vec<String> = vec![];
    assert!(should_list("a/b.txt", &no_ignore));
    assert!(should_list("./a/b.txt", &no_ignore));
    assert!(!should_list(".git/config", &no_ignore));
    assert!(!should_list("a/.hidden/b.txt", &no_ignore));
    assert!(!should_list("a/.b", &no_ignore));
    assert!(should_list("../a/b.txt", &no_ignore));
}

#[test]
fn ignored_extensions_exclude_a_path() {
    let ignore = vec!["tmp".to_owned(), "bak".to_owned()];
    assert!(!should_list("a/b.tmp", &ignore));
    assert!(!should_list("a/b.bak", &ignore));
    assert!(should_list("a/b.txt", &ignore));
    assert!(should_list("a/b", &ignore));
    // A leading dot is a hidden file, not an extension.
    assert!(!should_list("a/.tmp", &ignore));
}

#[test]
fn file_names_follow_path_normalization() {
    assert_eq!(file_name_str("a/b.txt"), Some("b.txt".to_owned()));
    assert_eq!(file_name_str("./hello.jpg"), Some("hello.jpg".to_owned()));
    assert_eq!(file_name_str("a/b/"), Some("b".to_owned()));
    assert_eq!(file_name_str("."), None);
    assert_eq!(file_name_str("a/.."), None);
}

#[test]
fn metacache_keeps_the_latest_record() {
    let mut cache = Metacache::new();
    cache.insert("a.txt".to_owned(), Meta { created: None, len: 10 });
    cache.insert("a.txt".to_owned(), Meta { created: Some(5), len: 20 });
    let meta = cache.get("a.txt").unwrap();
    assert_eq!(meta.len, 20);
    assert_eq!(meta.created, Some(5));
}
