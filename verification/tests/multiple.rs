use dedup::fingerprint::ContentSample;
use dedup::meta::Meta;
use dedup::meta::Metacache;
use dedup::multiple::get_conflicts;
use dedup::multiple::removal_plan;
use dedup::multiple::report_stats;
use dedup::single::ScanEntry;

fn entry(path: &str, len: u64) -> ScanEntry {
    ScanEntry { path: path.to_owned(), meta: Meta { created: None, len } }
}

fn sample(path: &str, bytes: &[u8]) -> ContentSample {
    ContentSample { path: path.to_owned(), len: bytes.len() as u64, head: bytes.to_vec(), tail: None }
}

/// The canonicalized listings and contents of a small fixture tree: the
/// base root is a subfolder holding two byte-identical files, and the
/// compare root is the surrounding folder, so the compare listing also
/// holds every base file.
fn fixture() -> (Vec<ScanEntry>, Vec<ScanEntry>, Vec<ContentSample>) {
    let content = b"alpha beta gamma\n";
    let other = b"something else entirely\n";
    let base = vec![
        entry("./resource/test-folder/subfolder/sub-a.txt", content.len() as u64),
        entry("./resource/test-folder/subfolder/sub-a-copy.txt", content.len() as u64),
    ];
    let compare = vec![
        entry("./resource/test-folder/a.txt", content.len() as u64),
        entry("./resource/test-folder/b.txt", other.len() as u64),
        entry("./resource/test-folder/subfolder/sub-a.txt", content.len() as u64),
        entry("./resource/test-folder/subfolder/sub-a-copy.txt", content.len() as u64),
    ];
    let samples = vec![
        sample("./resource/test-folder/subfolder/sub-a.txt", content),
        sample("./resource/test-folder/subfolder/sub-a-copy.txt", content),
        sample("./resource/test-folder/a.txt", content),
        sample("./resource/test-folder/b.txt", other),
    ];
    (base, compare, samples)
}

#[test]
fn subtree_comparisons_ignore_subtree_files() {
    let (base, compare, samples) = fixture();
    let mut cache = Metacache::new();
    let actual: Vec<String> = get_conflicts(&base, &compare, &samples, &mut cache)
        .into_iter()
        .flat_map(|(_, conflict)| conflict.compare_files)
        .collect();
    let expected = &["./resource/test-folder/a.txt".to_owned()];
    assert_eq!(actual, expected);
}

#[test]
fn subtree_comparisons_do_not_result_in_duplicate_base_files() {
    let (base, compare, samples) = fixture();
    let mut cache = Metacache::new();
    let actual: Vec<String> = get_conflicts(&base, &compare, &samples, &mut cache)
        .into_iter()
        .flat_map(|(_, conflict)| conflict.base_files)
        .collect();
    let expected = &[
        "./resource/test-folder/subfolder/sub-a.txt".to_owned(),
        "./resource/test-folder/subfolder/sub-a-copy.txt".to_owned(),
    ];
    assert_eq!(actual, expected);
}

#[test]
fn comparing_a_tree_against_itself_finds_nothing() {
    let content = b"identical content\n";
    let listing = vec![
        entry("./tree/one.txt", content.len() as u64),
        entry("./tree/two.txt", content.len() as u64),
    ];
    let samples = vec![
        sample("./tree/one.txt", content),
        sample("./tree/two.txt", content),
    ];
    let mut cache = Metacache::new();
    let conflicts = get_conflicts(&listing, &listing, &samples, &mut cache);
    assert_eq!(conflicts.len(), 0);
}

#[test]
fn cross_tree_report_totals_match_forced_removal() {
    let (base, compare, samples) = fixture();
    let mut cache = Metacache::new();
    let conflicts = get_conflicts(&base, &compare, &samples, &mut cache);
    let (count, size) = report_stats(&conflicts, &cache);
    let (plan, removed) = removal_plan(&conflicts, &cache);
    assert_eq!(count, plan.len());
    assert_eq!(size, removed);
    assert_eq!(count, 1);
    assert_eq!(size, b"alpha beta gamma\n".len() as u64);
}

#[test]
fn unreadable_compare_files_are_skipped() {
    let content = b"alpha beta gamma\n";
    let base = vec![entry("./left/a.txt", content.len() as u64)];
    let compare = vec![entry("./right/a.txt", content.len() as u64)];
    // No sample could be read for the compare file: it must neither join
    // nor block a conflict.
    let samples = vec![sample("./left/a.txt", content)];
    let mut cache = Metacache::new();
    let conflicts = get_conflicts(&base, &compare, &samples, &mut cache);
    assert_eq!(conflicts.len(), 0);
}

#[test]
fn cross_tree_report_lines_show_file_names() {
    let (base, compare, samples) = fixture();
    let mut cache = Metacache::new();
    let conflicts = get_conflicts(&base, &compare, &samples, &mut cache);
    let lines = dedup::multiple::render_conflicts(&conflicts, &cache);
    assert_eq!(lines.len(), 8);
    assert_eq!(lines[0].len(), 64);
    assert_eq!(
        lines[1],
        "-------------------------- base files --------------------------"
    );
    assert_eq!(lines[2], "sub-a.txt");
    assert_eq!(lines[3], "sub-a-copy.txt");
    assert_eq!(
        lines[4],
        "-------------------------- duplicates --------------------------"
    );
    assert_eq!(lines[5], "a.txt");
    assert_eq!(lines[6], "");
    assert!(lines[7].starts_with("1 duplicates ("));
}

#[test]
fn sample_targets_cover_matching_base_files_and_all_compare_files() {
    let base = vec![
        entry("./base/match.txt", 10),
        entry("./base/lonely.txt", 99),
    ];
    let compare = vec![entry("./cmp/ten.txt", 10), entry("./cmp/five.txt", 5)];
    let targets = dedup::multiple::sample_targets(&base, &compare);
    assert_eq!(
        targets,
        vec![
            "./base/match.txt".to_owned(),
            "./cmp/ten.txt".to_owned(),
            "./cmp/five.txt".to_owned(),
        ]
    );
}
