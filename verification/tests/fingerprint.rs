use dedup::fingerprint::ContentSample;
use dedup::fingerprint::Fingerprint;
use dedup::fingerprint::MAX_SIZE;
use dedup::fingerprint::head_read_len;
use dedup::fingerprint::tail_read;

const CAP: usize = MAX_SIZE as usize;

fn small_sample(path: &str, bytes: Vec<u8>) -> ContentSample {
    assert!(bytes.len() <= CAP);
    ContentSample { path: path.to_owned(), len: bytes.len() as u64, head: bytes, tail: None }
}

fn large_sample(path: &str, len: u64, head: Vec<u8>, tail: Vec<u8>) -> ContentSample {
    assert!(len > MAX_SIZE);
    ContentSample { path: path.to_owned(), len, head, tail: Some(tail) }
}

#[test]
fn head_region_covers_small_files_exactly() {
    assert_eq!(head_read_len(0), 0);
    assert_eq!(head_read_len(100), 100);
    assert_eq!(head_read_len(MAX_SIZE - 1), MAX_SIZE - 1);
    assert_eq!(head_read_len(MAX_SIZE), MAX_SIZE);
    assert_eq!(head_read_len(MAX_SIZE + 1), MAX_SIZE);
}

#[test]
fn tail_region_never_overlaps_the_head() {
    assert_eq!(tail_read(MAX_SIZE), None);
    assert_eq!(tail_read(MAX_SIZE - 1), None);
    // One byte over the cap: the tail is that single last byte.
    assert_eq!(tail_read(MAX_SIZE + 1), Some((MAX_SIZE, 1)));
    // Far over the cap: a full tail region ending at the file's end.
    assert_eq!(tail_read(3 * MAX_SIZE), Some((2 * MAX_SIZE, MAX_SIZE)));
    for len in [MAX_SIZE + 1, MAX_SIZE + 2, 2 * MAX_SIZE, 2 * MAX_SIZE + 7] {
        let (offset, size) = tail_read(len).unwrap();
        assert!(offset >= MAX_SIZE);
        assert_eq!(offset + size, len);
    }
}

#[test]
fn small_file_fingerprints_are_exact_around_the_cap() {
    for len in [CAP - 1, CAP] {
        let a = vec![0x5au8; len];
        let mut b = a.clone();
        let fa = Fingerprint::from_sample(&small_sample("a", a.clone()));
        let fa2 = Fingerprint::from_sample(&small_sample("a2", a.clone()));
        assert!(fa == fa2);
        // Flip one byte in the middle: the fingerprint must change.
        b[len / 2] ^= 1;
        let fb = Fingerprint::from_sample(&small_sample("b", b));
        assert!(fa != fb);
    }

    // Just over the cap the tail region appears; identical regions still
    // give identical fingerprints.
    let len = (CAP + 1) as u64;
    let head = vec![0x5au8; CAP];
    let fa = Fingerprint::from_sample(&large_sample("a", len, head.clone(), vec![7u8]));
    let fb = Fingerprint::from_sample(&large_sample("b", len, head.clone(), vec![7u8]));
    assert!(fa == fb);
    let fc = Fingerprint::from_sample(&large_sample("c", len, head, vec![8u8]));
    assert!(fa != fc);
}

#[test]
fn fingerprints_of_different_lengths_differ() {
    let fa = Fingerprint::from_sample(&small_sample("a", vec![0u8; 10]));
    let fb = Fingerprint::from_sample(&small_sample("b", vec![0u8; 11]));
    assert!(fa != fb);
    assert_eq!(fa.length(), 10);
    assert_eq!(fb.length(), 11);
}

#[test]
fn large_files_sharing_head_and_tail_collapse() {
    // Two files of equal length over twice the cap whose bytes differ only
    // in the unread middle: the engine deliberately reports them as
    // duplicates.
    let len = (2 * CAP + 1) as u64;
    let head = vec![0x11u8; CAP];
    let tail = vec![0x22u8; CAP];
    let fa = Fingerprint::from_sample(&large_sample("a", len, head.clone(), tail.clone()));
    let fb = Fingerprint::from_sample(&large_sample("b", len, head, tail));
    assert!(fa == fb);

    let samples = vec![
        large_sample("a", len, vec![0x11u8; CAP], vec![0x22u8; CAP]),
        large_sample("b", len, vec![0x11u8; CAP], vec![0x22u8; CAP]),
    ];
    let groups = dedup::single::build_conflicts_by_imprint(&samples);
    assert_eq!(groups.len(), 1);
    assert_eq!(groups[0].1, vec!["a".to_owned(), "b".to_owned()]);
}

#[test]
fn fingerprint_hex_identity_is_stable() {
    let s = small_sample("a", b"hello".to_vec());
    let fp = Fingerprint::from_sample(&s);
    let hex = fp.to_hex_string();
    assert_eq!(hex.len(), 64);
    assert!(hex.chars().all(|c| c.is_ascii_hexdigit()));
    assert_eq!(hex, Fingerprint::from_sample(&s).to_hex_string());
}
