use dedup::config::SortOrder;
use dedup::fingerprint::ContentSample;
use dedup::meta::Meta;
use dedup::meta::Metacache;
use dedup::single::ScanEntry;
use dedup::single::build_conflicts_by_imprint;
use dedup::single::build_conflicts_by_length;
use dedup::single::get_sorter;
use dedup::single::removal_plan;
use dedup::single::render_report;
use dedup::single::report_stats;
use fmtsize::Conventional;
use fmtsize::FmtSize;

fn entry(path: &str, len: u64, created: Option<u64>) -> ScanEntry {
    ScanEntry { path: path.to_owned(), meta: Meta { created, len } }
}

fn sample(path: &str, bytes: &[u8]) -> ContentSample {
    ContentSample { path: path.to_owned(), len: bytes.len() as u64, head: bytes.to_vec(), tail: None }
}

#[test]
fn length_buckets_gate_the_candidates() {
    let entries = vec![
        entry("a.txt", 100, None),
        entry("b.txt", 200, None),
        entry("a-copy.txt", 100, None),
        entry("unique.txt", 7, None),
    ];
    let mut cache = Metacache::new();
    let candidates = build_conflicts_by_length(&entries, &mut cache);
    assert_eq!(candidates, vec!["a.txt".to_owned(), "a-copy.txt".to_owned()]);
    assert_eq!(cache.get("b.txt").unwrap().len, 200);
    assert!(cache.get("missing.txt").is_none());
}

#[test]
fn files_of_different_lengths_never_group() {
    let samples = vec![
        sample("a.txt", b"0123456789"),
        sample("b.txt", b"0123456789x"),
        sample("c.txt", b"0123456789"),
    ];
    let groups = build_conflicts_by_imprint(&samples);
    assert_eq!(groups.len(), 1);
    assert_eq!(groups[0].1, vec!["a.txt".to_owned(), "c.txt".to_owned()]);
}

#[test]
fn same_length_different_content_does_not_group() {
    let samples = vec![sample("a.txt", b"aaaa"), sample("b.txt", b"bbbb")];
    let groups = build_conflicts_by_imprint(&samples);
    assert_eq!(groups.len(), 0);
}

#[test]
fn descriptive_sort_retains_the_wordier_name() {
    let mut paths = vec!["a.txt".to_owned(), "a-copy.txt".to_owned()];
    let cache = Metacache::new();
    let sorter = get_sorter(SortOrder::Descriptive);
    sorter.sort(&cache, &mut paths);
    assert_eq!(paths, vec!["a-copy.txt".to_owned(), "a.txt".to_owned()]);
}

#[test]
fn copy_marker_loses_the_tie() {
    let mut paths = vec!["hello (1).jpg".to_owned(), "hello.jpg".to_owned()];
    let cache = Metacache::new();
    let sorter = get_sorter(SortOrder::Descriptive);
    sorter.sort(&cache, &mut paths);
    assert_eq!(paths, vec!["hello.jpg".to_owned(), "hello (1).jpg".to_owned()]);
}

#[test]
fn created_sort_orders_by_timestamp_and_missing_sorts_last() {
    let mut cache = Metacache::new();
    cache.insert("old.txt".to_owned(), Meta { created: Some(100), len: 1 });
    cache.insert("new.txt".to_owned(), Meta { created: Some(900), len: 1 });
    cache.insert("unknown.txt".to_owned(), Meta { created: None, len: 1 });

    let mut newest = vec!["unknown.txt".to_owned(), "old.txt".to_owned(), "new.txt".to_owned()];
    get_sorter(SortOrder::Newest).sort(&cache, &mut newest);
    assert_eq!(
        newest,
        vec!["new.txt".to_owned(), "old.txt".to_owned(), "unknown.txt".to_owned()]
    );

    let mut oldest = vec!["unknown.txt".to_owned(), "new.txt".to_owned(), "old.txt".to_owned()];
    get_sorter(SortOrder::Oldest).sort(&cache, &mut oldest);
    assert_eq!(
        oldest,
        vec!["old.txt".to_owned(), "new.txt".to_owned(), "unknown.txt".to_owned()]
    );
}

#[test]
fn report_totals_match_forced_removal() {
    let content = b"x".repeat(100);
    let entries = vec![
        entry("a.txt", 100, None),
        entry("a-copy.txt", 100, None),
        entry("b.txt", 200, None),
    ];
    let mut cache = Metacache::new();
    let _ = build_conflicts_by_length(&entries, &mut cache);
    let samples = vec![sample("a.txt", &content), sample("a-copy.txt", &content)];
    let mut groups = build_conflicts_by_imprint(&samples);
    let sorter = get_sorter(SortOrder::Descriptive);
    for g in groups.iter_mut() {
        sorter.sort(&cache, &mut g.1);
    }
    let (count, size) = report_stats(&groups, &cache);
    let (plan, removed) = removal_plan(&groups, &cache);
    assert_eq!(count, plan.len());
    assert_eq!(size, removed);
}

#[test]
fn end_to_end_report_and_removal() {
    let content = b"y".repeat(100);
    let other = b"z".repeat(200);
    let entries = vec![
        entry("a.txt", 100, None),
        entry("a-copy.txt", 100, None),
        entry("b.txt", 200, None),
    ];
    let mut cache = Metacache::new();
    let candidates = build_conflicts_by_length(&entries, &mut cache);
    assert_eq!(candidates, vec!["a.txt".to_owned(), "a-copy.txt".to_owned()]);
    // b.txt has a unique length and is never read or hashed.
    let _ = other;
    let samples = vec![sample("a.txt", &content), sample("a-copy.txt", &content)];
    let mut groups = build_conflicts_by_imprint(&samples);
    assert_eq!(groups.len(), 1);

    let sorter = get_sorter(SortOrder::Descriptive);
    for g in groups.iter_mut() {
        sorter.sort(&cache, &mut g.1);
    }
    assert_eq!(groups[0].1, vec!["a-copy.txt".to_owned(), "a.txt".to_owned()]);

    let lines = render_report(&groups, &cache);
    assert_eq!(lines.len(), 6);
    assert_eq!(lines[0].len(), 64);
    assert_eq!(
        lines[1],
        "================================================================"
    );
    assert_eq!(lines[2], "a-copy.txt");
    assert_eq!(lines[3], "a.txt");
    assert_eq!(lines[4], "");
    let expected_summary = format!("1 duplicates ({})", 100u64.fmt_size(Conventional));
    assert_eq!(lines[5], expected_summary);

    // Were force mode run instead, exactly the non-retained member would
    // go, reclaiming the same total the report printed.
    let (plan, removed) = removal_plan(&groups, &cache);
    assert_eq!(plan, vec!["a.txt".to_owned()]);
    assert_eq!(removed, 100);
}

#[test]
fn empty_scan_reports_zero_duplicates() {
    let cache = Metacache::new();
    let groups = build_conflicts_by_imprint(&Vec::new());
    assert_eq!(groups.len(), 0);
    let lines = render_report(&groups, &cache);
    let expected = format!("0 duplicates ({})", 0u64.fmt_size(Conventional));
    assert_eq!(lines, vec![expected]);
}
