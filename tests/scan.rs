use ext_size_stats::{
    classify_file, file_extension, scan, summarize, Entry, ExtensionFilter, FileOutcome,
    FileRecord, FilterError, Metadata, SkipReason, SummaryError,
};

fn file(name: &str, len: u64) -> Entry {
    Entry::File {
        name: name.to_string(),
        metadata: Some(Metadata { is_file: true, len }),
    }
}

fn filter_of(exts: &[&str]) -> ExtensionFilter {
    ExtensionFilter::new(exts.iter().map(|e| e.to_string()).collect()).unwrap()
}

fn sizes(records: &[FileRecord]) -> Vec<u64> {
    records.iter().map(|r| r.size_kib).collect()
}

#[test]
fn txt_files_of_a_small_tree() {
    let root = Entry::Directory(vec![
        file("a.txt", 2048),
        file("b.txt", 3000),
        file("c.log", 500),
    ]);
    let records = scan(&vec![root], &filter_of(&["txt"]));
    assert_eq!(records.len(), 2);
    assert_eq!(records[0], FileRecord { name: "a.txt".to_string(), size_kib: 2 });
    assert_eq!(records[1], FileRecord { name: "b.txt".to_string(), size_kib: 2 });
    let s = summarize(&records).unwrap();
    assert_eq!(s.count, 2);
    assert_eq!(s.total_kib, Some(4));
    assert_eq!(s.total_kib.unwrap() as f64 / s.count as f64, 2.0);
    assert_eq!(s.mode_kib, 2);
    assert_eq!(s.median_kib, 2);
    assert_eq!(s.min_kib, 2);
    assert_eq!(s.max_kib, 2);
}

#[test]
fn empty_directory_gives_no_files() {
    let records = scan(&vec![Entry::Directory(vec![])], &filter_of(&["txt"]));
    assert!(records.is_empty());
    assert_eq!(summarize(&records), Err(SummaryError::NoFiles));
}

#[test]
fn only_other_extensions_gives_no_files() {
    let root = Entry::Directory(vec![file("a.log", 4096), file("b.md", 10), file("README", 9)]);
    let records = scan(&vec![root], &filter_of(&["txt"]));
    assert!(records.is_empty());
    assert_eq!(summarize(&records), Err(SummaryError::NoFiles));
}

#[test]
fn nested_root_is_counted_twice() {
    let sub = || Entry::Directory(vec![file("inner.txt", 5120)]);
    let root = Entry::Directory(vec![file("outer.txt", 1024), sub()]);
    let records = scan(&vec![root, sub()], &filter_of(&["txt"]));
    let names: Vec<&str> = records.iter().map(|r| r.name.as_str()).collect();
    assert_eq!(names, vec!["outer.txt", "inner.txt", "inner.txt"]);
    assert_eq!(sizes(&records), vec![1, 5, 5]);
}

#[test]
fn missing_metadata_is_skipped() {
    let root = Entry::Directory(vec![
        file("a.txt", 1024),
        Entry::File { name: "gone.txt".to_string(), metadata: None },
        file("b.txt", 2048),
    ]);
    let records = scan(&vec![root], &filter_of(&["txt"]));
    assert_eq!(sizes(&records), vec![1, 2]);
    assert_eq!(records[1].name, "b.txt");
}

#[test]
fn unreadable_directory_contributes_nothing() {
    let root = Entry::Directory(vec![
        Entry::Unreadable,
        Entry::Directory(vec![file("deep.txt", 3072)]),
        file("top.txt", 0),
    ]);
    let records = scan(&vec![Entry::Unreadable, root], &filter_of(&["txt"]));
    assert_eq!(sizes(&records), vec![3, 0]);
    assert_eq!(records[0].name, "deep.txt");
}

#[test]
fn file_root_contributes_nothing() {
    let records = scan(&vec![file("a.txt", 4096)], &filter_of(&["txt"]));
    assert!(records.is_empty());
}

#[test]
fn several_extensions_case_sensitive() {
    let root = Entry::Directory(vec![
        file("song.als", 1024),
        file("beat.flp", 2048),
        file("loud.ALS", 4096),
        file("note.txt", 8192),
    ]);
    let records = scan(&vec![root], &filter_of(&["als", "flp"]));
    assert_eq!(sizes(&records), vec![1, 2]);
}

#[test]
fn size_is_rounded_down_to_kib() {
    let root = Entry::Directory(vec![file("a.txt", 1023), file("b.txt", 1025), file("c.txt", u64::MAX)]);
    let records = scan(&vec![root], &filter_of(&["txt"]));
    assert_eq!(sizes(&records), vec![0, 1, u64::MAX / 1024]);
}

#[test]
fn classify_gives_each_reason() {
    let f = filter_of(&["txt"]);
    let md = Some(Metadata { is_file: true, len: 10240 });
    assert!(matches!(
        classify_file(&f, &"plain".to_string(), md),
        FileOutcome::Skip(SkipReason::NoExtension)
    ));
    assert!(matches!(
        classify_file(&f, &"a.log".to_string(), md),
        FileOutcome::Skip(SkipReason::ExtensionNotMatched)
    ));
    assert!(matches!(
        classify_file(&f, &"a.txt".to_string(), None),
        FileOutcome::Skip(SkipReason::MetadataUnavailable)
    ));
    assert!(matches!(
        classify_file(&f, &"a.txt".to_string(), Some(Metadata { is_file: false, len: 0 })),
        FileOutcome::Skip(SkipReason::NotRegularFile)
    ));
    match classify_file(&f, &"a.txt".to_string(), md) {
        FileOutcome::Record(r) => {
            assert_eq!(r, FileRecord { name: "a.txt".to_string(), size_kib: 10 })
        }
        FileOutcome::Skip(why) => panic!("skipped: {:?}", why),
    }
}

#[test]
fn extension_of_names() {
    assert_eq!(file_extension("a.txt"), Some("txt".to_string()));
    assert_eq!(file_extension("archive.tar.gz"), Some("gz".to_string()));
    assert_eq!(file_extension("trailing."), Some("".to_string()));
    assert_eq!(file_extension(".profile"), None);
    assert_eq!(file_extension(".config.txt"), Some("txt".to_string()));
    assert_eq!(file_extension("noext"), None);
    assert_eq!(file_extension(""), None);
    assert_eq!(file_extension("café.mü"), Some("mü".to_string()));
}

#[test]
fn filter_needs_a_nonempty_extension() {
    assert_eq!(ExtensionFilter::new(vec![]).unwrap_err(), FilterError::NoExtension);
    assert_eq!(
        ExtensionFilter::new(vec!["".to_string()]).unwrap_err(),
        FilterError::NoExtension
    );
    let f = ExtensionFilter::new(vec!["".to_string(), "txt".to_string()]).unwrap();
    assert!(f.contains(&"txt".to_string()));
    assert!(!f.contains(&"TXT".to_string()));
    assert!(f.accepts_name("a.txt"));
    assert!(!f.accepts_name("txt"));
}
