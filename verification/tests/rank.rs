use dedup::rank::PathRanker;

#[test]
fn filenames_with_words_outrank_filenames_without() {
    let with_words = "./Video by foo-Bw8_9u_lqjt.mp4";
    let word_free = "./59670723_2289729794623117_1948407069107290112_n.mp4";
    let ranker = PathRanker::new();
    let a = ranker.rank(with_words);
    let b = ranker.rank(word_free);
    assert!(a > b);
}

#[test]
fn segments_outweigh_words() {
    let ranker = PathRanker::new();
    let a = ranker.rank("123/1234.png");
    let b = ranker.rank("Hello world.png");
    assert!(a > b);
}

#[test]
fn files_distinguished_by_parenthetical_numbers_rank_lower() {
    let ranker = PathRanker::new();
    let original = ranker.rank("hello.jpg");
    let duplicate = ranker.rank("hello (1).jpg");
    assert!(original > duplicate);
}

#[test]
fn rank_fields_follow_path_shape() {
    let ranker = PathRanker::new();
    let r = ranker.rank("photos/summer/beach sunset.jpg");
    assert_eq!(r.segments, 3);
    assert_eq!(r.words, 3);
    assert!(r.is_unique);

    let marked = ranker.rank("photos/beach (12).jpg");
    assert!(!marked.is_unique);

    let not_marked = ranker.rank("photos/beach (x1).jpg");
    assert!(not_marked.is_unique);
}

#[test]
fn leading_dot_counts_as_a_segment() {
    let ranker = PathRanker::new();
    let a = ranker.rank("./hello.jpg");
    let b = ranker.rank("hello.jpg");
    assert_eq!(a.segments, 2);
    assert_eq!(b.segments, 1);
    assert_eq!(a.words, b.words);
}

#[test]
fn word_matching_is_case_insensitive() {
    let ranker = PathRanker::new();
    let upper = ranker.rank("VIDEO BY camera.mp4");
    let lower = ranker.rank("video by camera.mp4");
    assert_eq!(upper.words, lower.words);
    assert_eq!(upper.words, 3);
}
