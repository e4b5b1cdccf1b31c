use dedup::config::Args;
use dedup::config::SortOrder;

#[test]
fn sort_orders_parse_by_word_or_letter() {
    assert_eq!("d".parse::<SortOrder>().unwrap(), SortOrder::Descriptive);
    assert_eq!("descriptive".parse::<SortOrder>().unwrap(), SortOrder::Descriptive);
    assert_eq!("DESCRIPTIVE".parse::<SortOrder>().unwrap(), SortOrder::Descriptive);
    assert_eq!("o".parse::<SortOrder>().unwrap(), SortOrder::Oldest);
    assert_eq!("Oldest".parse::<SortOrder>().unwrap(), SortOrder::Oldest);
    assert_eq!("n".parse::<SortOrder>().unwrap(), SortOrder::Newest);
    assert_eq!("newest".parse::<SortOrder>().unwrap(), SortOrder::Newest);
}

#[test]
fn unknown_sort_order_reports_the_input() {
    let err = "sideways".parse::<SortOrder>().unwrap_err();
    assert_eq!(
        err.message(),
        "\"sideways\" is not a valid sort order\nTry one of descriptive, oldest, newest"
    );
}

#[test]
fn args_defaults() {
    let args = Args { path: None, compare: vec![], force: false, sort: None, no_recurse: false };
    assert_eq!(args.path(), ".");
    assert_eq!(args.sort_order(), SortOrder::Descriptive);
    assert!(args.recurse());

    let args = Args {
        path: Some("photos".to_owned()),
        compare: vec!["backup".to_owned()],
        force: true,
        sort: Some(SortOrder::Newest),
        no_recurse: true,
    };
    assert_eq!(args.path(), "photos");
    assert_eq!(args.sort_order(), SortOrder::Newest);
    assert!(!args.recurse());
}

#[test]
fn opts_mirror_args() {
    let opts = dedup::opt::Opts {
        path: None,
        compare: vec![],
        force: false,
        sort: None,
        no_recurse: false,
        command: Some(dedup::opt::Command::Cache),
    };
    assert_eq!(opts.path(), ".");
    assert_eq!(opts.sort_order(), dedup::opt::SortOrder::Descriptive);
    assert!(opts.recurse());
    assert_eq!(
        "x".parse::<dedup::opt::SortOrder>().unwrap_err().message(),
        "\"x\" is not a valid sort order\nTry one of descriptive, oldest, newest"
    );
}
