use diary_core::diary::Clock;
use diary_core::diary::FixedClock;
use diary_core::entryinput::editor_seed;
use diary_core::entryinput::entry_has_content;
use diary_core::entryinput::read_from_editor;
use diary_core::key::format_file_name;
use diary_core::store::collect_dates;
use diary_core::store::entry_file_accepted;
use diary_core::store::file_directory;
use diary_core::text::append_merge;
use diary_core::text::normalize_entry_text;
use diary_core::Diary;
use diary_core::DiaryEntryKey;
use diary_core::MatchingDateBehavior;
use diary_core::TagIndex;

fn key(s: &str) -> DiaryEntryKey {
    DiaryEntryKey::parse_from_string(s).expect("key should parse")
}

fn fixed_diary() -> Diary<FixedClock> {
    Diary::open_custom(FixedClock::new(key("2020-08-30 13:37 +0000")))
}

fn temp_index(dir: &tempfile::TempDir) -> TagIndex {
    let root = dir.path().to_str().expect("utf-8 temp path").to_string();
    let mut index = TagIndex::new(&root).unwrap();
    index.initdb().unwrap();
    index
}

#[test]
fn normalization_trims_and_adds_newline() {
    assert_eq!(normalize_entry_text("hello  \n\t "), "hello\n");
    assert_eq!(normalize_entry_text("hello"), "hello\n");
    assert_eq!(normalize_entry_text(""), "\n");
}

#[test]
fn append_merge_stacks_with_blank_line() {
    assert_eq!(append_merge("old text\n", "new text\n"), "old text\n\nnew text\n");
}

#[test]
fn overwrite_discards_old_text() {
    let dir = tempfile::tempdir().unwrap();
    let mut index = temp_index(&dir);
    let diary = fixed_diary();
    let old = "earlier words\n".to_string();
    let (_, text) = diary
        .add_entry(
            &mut index,
            "fresh words",
            Some(key("2020-08-30 13:37 +0000")),
            Some(&old),
            MatchingDateBehavior::Overwrite,
        )
        .unwrap();
    assert_eq!(text, "fresh words\n");
}

#[test]
fn append_keeps_old_text_as_prefix() {
    let dir = tempfile::tempdir().unwrap();
    let mut index = temp_index(&dir);
    let diary = fixed_diary();
    let old = "first thought  \n".to_string();
    let (_, text) = diary
        .add_entry(
            &mut index,
            "second thought",
            Some(key("2020-08-30 13:37 +0000")),
            Some(&old),
            MatchingDateBehavior::Append,
        )
        .unwrap();
    assert_eq!(text, "first thought\n\nsecond thought\n");
}

#[test]
fn append_on_fresh_key_writes_new_text_alone() {
    let dir = tempfile::tempdir().unwrap();
    let mut index = temp_index(&dir);
    let diary = fixed_diary();
    let (_, text) = diary
        .add_entry(
            &mut index,
            "only thought",
            Some(key("2020-08-30 13:37 +0000")),
            None,
            MatchingDateBehavior::Append,
        )
        .unwrap();
    assert_eq!(text, "only thought\n");
}

#[test]
fn resolve_key_prefers_the_caller_key() {
    let diary = fixed_diary();
    let given = key("1999-01-02 03:04 +0000");
    assert_eq!(diary.resolve_key(Some(given)), given);
    assert_eq!(diary.resolve_key(None), key("2020-08-30 13:37 +0000"));
    assert_eq!(diary.clock.now(), key("2020-08-30 13:37 +0000"));
}

#[test]
fn file_layout_names_match() {
    let k = key("2020-08-30 13:37 +0000");
    let (year_dir, month_dir) = file_directory(&k);
    assert_eq!(year_dir, "2020");
    assert_eq!(month_dir, "08");
    let name = format_file_name(&k);
    assert_eq!(name, "20200830T1337");
    assert!(entry_file_accepted(&year_dir, &month_dir, &name));
    assert!(!entry_file_accepted(&"2021".to_string(), &month_dir, &name));
    assert!(!entry_file_accepted(&year_dir, &"09".to_string(), &name));
}

#[test]
fn collect_dates_skips_misplaced_and_unparsable_files() {
    let files = vec![
        ("2020".to_string(), "08".to_string(), "20200830T1337".to_string()),
        ("2020".to_string(), "09".to_string(), "20200830T1337".to_string()),
        ("2020".to_string(), "08".to_string(), "notes.txt".to_string()),
        ("2019".to_string(), "12".to_string(), "20191231T2359".to_string()),
    ];
    let keys = collect_dates(&files);
    assert_eq!(keys, vec![key("2020-08-30 13:37 +0000"), key("2019-12-31 23:59 +0000")]);
}

#[test]
fn listing_is_empty_on_an_empty_store() {
    let diary = fixed_diary();
    assert_eq!(diary.list_keys(&Vec::new()), Vec::<DiaryEntryKey>::new());
}

#[test]
fn listing_sorts_ascending_regardless_of_walk_order() {
    let diary = fixed_diary();
    let files = vec![
        ("2021".to_string(), "01".to_string(), "20210101T0900".to_string()),
        ("2019".to_string(), "06".to_string(), "20190615T1200".to_string()),
        ("2020".to_string(), "08".to_string(), "20200830T1337".to_string()),
    ];
    let keys = diary.list_keys(&files);
    assert_eq!(
        keys,
        vec![
            key("2019-06-15 12:00 +0000"),
            key("2020-08-30 13:37 +0000"),
            key("2021-01-01 09:00 +0000"),
        ],
    );
}

#[test]
fn add_entry_tags_come_from_new_text_only() {
    // The documented limitation: appending does not re-index tags that
    // stand only in the old text.
    let dir = tempfile::tempdir().unwrap();
    let mut index = temp_index(&dir);
    let diary = fixed_diary();
    let k = key("2020-08-30 13:37 +0000");
    diary.add_entry(&mut index, "#older note", Some(k), None, MatchingDateBehavior::Append).unwrap();
    let old = "#older note\n".to_string();
    diary
        .add_entry(&mut index, "#newer note", Some(k), Some(&old), MatchingDateBehavior::Append)
        .unwrap();
    let tags: Vec<String> = vec!["older".to_string()];
    assert_eq!(diary.search_tags(&index, &tags).unwrap(), Vec::<DiaryEntryKey>::new());
    let tags: Vec<String> = vec!["newer".to_string()];
    assert_eq!(diary.search_tags(&index, &tags).unwrap(), vec![k]);
}

#[test]
fn editor_seed_skips_empty_text() {
    assert_eq!(editor_seed(""), None);
    assert_eq!(editor_seed("draft"), Some("draft"));
}

#[test]
fn read_from_editor_passes_text_through() {
    assert_eq!(read_from_editor(Some("edited".to_string())).unwrap(), "edited");
    assert!(read_from_editor(None).is_err());
}

#[test]
fn blank_entries_hold_no_content() {
    assert!(!entry_has_content("  \t\n "));
    assert!(!entry_has_content(""));
    assert!(entry_has_content(" a "));
}
