use activity_stats::path::{file_extension, file_stem, has_extension, is_top_level_jsonl};

#[test]
fn transcript_files() {
    assert!(is_top_level_jsonl(true, Some("abc.jsonl")));
    assert!(is_top_level_jsonl(true, Some("a.b.jsonl")));
    assert!(!is_top_level_jsonl(false, Some("abc.jsonl")));
    assert!(!is_top_level_jsonl(true, Some(".jsonl")));
    assert!(!is_top_level_jsonl(true, Some("abc.JSONL")));
    assert!(!is_top_level_jsonl(true, Some("abc.jsonl.bak")));
    assert!(!is_top_level_jsonl(true, None));
}

#[test]
fn extensions() {
    assert_eq!(file_extension("notes.md"), Some("md".to_string()));
    assert_eq!(file_extension("archive.tar.gz"), Some("gz".to_string()));
    assert_eq!(file_extension("trailing."), Some("".to_string()));
    assert_eq!(file_extension(".hidden"), None);
    assert_eq!(file_extension("plain"), None);
    assert!(has_extension(Some("notes.md"), "md"));
    assert!(!has_extension(Some("notes.mdx"), "md"));
    assert!(!has_extension(None, "md"));
}

#[test]
fn stems() {
    assert_eq!(file_stem(Some("abc.jsonl")), "abc");
    assert_eq!(file_stem(Some("a.b.jsonl")), "a.b");
    assert_eq!(file_stem(Some(".jsonl")), ".jsonl");
    assert_eq!(file_stem(Some("plain")), "plain");
    assert_eq!(file_stem(None), "");
}
