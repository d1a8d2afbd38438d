use diary_core::diary::FixedClock;
use diary_core::index::make_placeholders;
use diary_core::index::TagIndexError;
use diary_core::Diary;
use diary_core::DiaryEntryKey;
use diary_core::MatchingDateBehavior;
use diary_core::TagIndex;

fn key(s: &str) -> DiaryEntryKey {
    DiaryEntryKey::parse_from_string(s).expect("key should parse")
}

fn temp_root(dir: &tempfile::TempDir) -> String {
    dir.path().to_str().expect("utf-8 temp path").to_string()
}

fn fixed_diary() -> Diary<FixedClock> {
    Diary::open_custom(FixedClock::new(key("2020-08-30 13:37 +0000")))
}

fn strings(words: &[&str]) -> Vec<String> {
    words.iter().map(|w| w.to_string()).collect()
}

#[test]
fn test_tags_store() {
    let dir = tempfile::tempdir().unwrap();
    let diary = fixed_diary();
    let mut index = TagIndex::new(&temp_root(&dir)).unwrap();
    index.initdb().unwrap();
    let key1 = key("2020-08-30 13:37 +03:00");
    let key2 = key("2020-08-31 13:37 +03:00");
    let (rkey1, _) = diary
        .add_entry(
            &mut index,
            "#(hello world)# #with #tags",
            Some(key1),
            None,
            MatchingDateBehavior::Append,
        )
        .unwrap();
    let (rkey2, _) = diary
        .add_entry(
            &mut index,
            "another note, #more #tags",
            Some(key2),
            None,
            MatchingDateBehavior::Append,
        )
        .unwrap();
    assert_eq!(key1, rkey1);
    assert_eq!(key2, rkey2);
    let keys = diary.search_tags(&index, &strings(&["tags"])).unwrap();
    assert_eq!(keys, vec![key1, key2]);
    let keys = diary.search_tags(&index, &strings(&["hello world"])).unwrap();
    assert_eq!(keys, vec![key1]);
    let keys = diary.search_tags(&index, &strings(&["with", "more"])).unwrap();
    assert_eq!(keys, vec![key1, key2]);
}

#[test]
fn test_tags_store_reindex() {
    let dir = tempfile::tempdir().unwrap();
    let diary = fixed_diary();
    let mut index = TagIndex::new(&temp_root(&dir)).unwrap();
    index.initdb().unwrap();
    let key1 = key("2020-08-30 13:37 +03:00");
    let key2 = key("2020-08-31 13:37 +03:00");
    let (rkey1, text1) = diary
        .add_entry(
            &mut index,
            "#(hello world)# #with #tags",
            Some(key1),
            None,
            MatchingDateBehavior::Append,
        )
        .unwrap();
    let (rkey2, text2) = diary
        .add_entry(
            &mut index,
            "another note, #more #tags",
            Some(key2),
            None,
            MatchingDateBehavior::Append,
        )
        .unwrap();
    assert_eq!(key1, rkey1);
    assert_eq!(key2, rkey2);

    diary.reindex(&mut index, &vec![(key1, text1), (key2, text2)]).unwrap();

    let keys = diary.search_tags(&index, &strings(&["tags"])).unwrap();
    assert_eq!(keys, vec![key1, key2]);
    let keys = diary.search_tags(&index, &strings(&["hello world"])).unwrap();
    assert_eq!(keys, vec![key1]);
    let keys = diary.search_tags(&index, &strings(&["with", "more"])).unwrap();
    assert_eq!(keys, vec![key1, key2]);
}

#[test]
fn reindex_recovers_from_corruption() {
    let dir = tempfile::tempdir().unwrap();
    let diary = fixed_diary();
    let mut index = TagIndex::new(&temp_root(&dir)).unwrap();
    index.initdb().unwrap();
    let key1 = key("2020-08-30 13:37 +0000");
    let key2 = key("2020-08-31 13:37 +0000");
    let (_, text1) = diary
        .add_entry(&mut index, "#alpha #shared", Some(key1), None, MatchingDateBehavior::Overwrite)
        .unwrap();
    let (_, text2) = diary
        .add_entry(&mut index, "#beta #shared", Some(key2), None, MatchingDateBehavior::Overwrite)
        .unwrap();
    let before_alpha = diary.search_tags(&index, &strings(&["alpha"])).unwrap();
    let before_shared = diary.search_tags(&index, &strings(&["shared"])).unwrap();

    // Corrupt the index behind the library's back.
    let db_path = dir.path().join("index.sqlite");
    let conn = rusqlite::Connection::open(&db_path).unwrap();
    conn.execute("DELETE FROM tag WHERE tag = 'alpha'", ()).unwrap();
    conn.execute("INSERT INTO tag (tag, entry_key) VALUES ('bogus', '20200830T1337+0000')", ())
        .unwrap();
    drop(conn);

    diary.reindex(&mut index, &vec![(key1, text1), (key2, text2)]).unwrap();

    assert_eq!(diary.search_tags(&index, &strings(&["alpha"])).unwrap(), before_alpha);
    assert_eq!(diary.search_tags(&index, &strings(&["shared"])).unwrap(), before_shared);
    assert_eq!(diary.search_tags(&index, &strings(&["bogus"])).unwrap(), Vec::new());
}

#[test]
fn search_with_empty_tag_list_is_empty() {
    let dir = tempfile::tempdir().unwrap();
    let mut index = TagIndex::new(&temp_root(&dir)).unwrap();
    index.initdb().unwrap();
    index.set_tags(&key("2020-08-30 13:37 +0000"), &strings(&["a"])).unwrap();
    assert_eq!(index.search_tags(&Vec::new()).unwrap(), Vec::new());
}

#[test]
fn set_tags_replaces_stale_rows() {
    let dir = tempfile::tempdir().unwrap();
    let mut index = TagIndex::new(&temp_root(&dir)).unwrap();
    index.initdb().unwrap();
    let k = key("2020-08-30 13:37 +0000");
    index.set_tags(&k, &strings(&["old", "both"])).unwrap();
    index.set_tags(&k, &strings(&["both", "new"])).unwrap();
    assert_eq!(index.search_tags(&strings(&["old"])).unwrap(), Vec::new());
    assert_eq!(index.search_tags(&strings(&["new"])).unwrap(), vec![k]);
    assert_eq!(index.search_tags(&strings(&["both"])).unwrap(), vec![k]);
}

#[test]
fn duplicate_match_is_reported_once_per_row() {
    // An entry matching two queried tags comes back once per matching row.
    let dir = tempfile::tempdir().unwrap();
    let mut index = TagIndex::new(&temp_root(&dir)).unwrap();
    index.initdb().unwrap();
    let k = key("2020-08-30 13:37 +0000");
    index.set_tags(&k, &strings(&["x", "y"])).unwrap();
    let found = index.search_tags(&strings(&["x", "y"])).unwrap();
    assert_eq!(found, vec![k, k]);
}

#[test]
fn unreadable_root_is_a_db_error() {
    let missing = "/nonexistent-diary-root/deeper".to_string();
    match TagIndex::new(&missing) {
        Err(TagIndexError::DBError(_)) => {},
        other => panic!("expected a database error, got {:?}", other.is_ok()),
    }
}

#[test]
fn malformed_stored_key_is_an_index_format_error() {
    let dir = tempfile::tempdir().unwrap();
    let mut index = TagIndex::new(&temp_root(&dir)).unwrap();
    index.initdb().unwrap();
    index.set_tags(&key("2020-08-30 13:37 +0000"), &strings(&["good"])).unwrap();
    let db_path = dir.path().join("index.sqlite");
    let conn = rusqlite::Connection::open(&db_path).unwrap();
    conn.execute("INSERT INTO tag (tag, entry_key) VALUES ('good', 'not a key')", ()).unwrap();
    drop(conn);
    match index.search_tags(&strings(&["good"])) {
        Err(TagIndexError::IndexFormatError(msg)) => {
            assert!(msg.contains("not a key"));
        },
        other => panic!("expected an index format error, got {:?}", other.is_ok()),
    }
}

#[test]
fn initdb_is_idempotent_and_keeps_rows() {
    let dir = tempfile::tempdir().unwrap();
    let mut index = TagIndex::new(&temp_root(&dir)).unwrap();
    index.initdb().unwrap();
    let k = key("2020-08-30 13:37 +0000");
    index.set_tags(&k, &strings(&["kept"])).unwrap();
    index.initdb().unwrap();
    assert_eq!(index.search_tags(&strings(&["kept"])).unwrap(), vec![k]);
}

#[test]
fn placeholders_join_question_marks() {
    assert_eq!(make_placeholders(1), "?");
    assert_eq!(make_placeholders(3), "?, ?, ?");
}
