use diary_core::tags::exec_first_close;
use diary_core::tags::exec_hash_run;
use diary_core::tags::exec_is_close_at;
use diary_core::tags::exec_phrase_at;
use diary_core::tags::exec_word_at;
use diary_core::tags::find_tags;
use diary_core::text::normalize_entry_text;

fn chars(s: &str) -> Vec<char> {
    s.chars().collect()
}

#[test]
fn phrase_start_matches_one() {
    let v = chars("#(foo");
    assert_eq!(exec_hash_run(&v, 0), 1);
    assert_eq!(v[1], '(');
}

#[test]
fn phrase_start_matches_many() {
    let v = chars("###(foo");
    assert_eq!(exec_hash_run(&v, 0), 3);
    assert_eq!(v[3], '(');
}

#[test]
fn phrase_end_matches_one() {
    let v = chars(")##");
    assert!(exec_is_close_at(&v, 0, 1));
}

#[test]
fn phrase_end_matches_many() {
    let v = chars(")##");
    assert!(exec_is_close_at(&v, 0, 2));
}

#[test]
fn phrase_end_requires_enough() {
    let v = chars(")##");
    assert!(!exec_is_close_at(&v, 0, 3));
}

#[test]
fn phrase_content_char_takes_one() {
    let v = chars("op)#");
    assert!(!exec_is_close_at(&v, 0, 1));
}

#[test]
fn phrase_content_until_collects_all() {
    let v = chars("#(ab)#");
    assert_eq!(exec_first_close(&v, 0, 1), Some(4));
    assert_eq!(&v[0..4], ['#', '(', 'a', 'b']);
}

#[test]
fn phrase_hash_matches_one() {
    let v = chars("#(ab)#");
    let (content, next) = exec_phrase_at(&v, 0).expect("phrase expected");
    assert_eq!(content, chars("ab"));
    assert_eq!(next, 6);
}

#[test]
fn phrase_hash_matches_two() {
    let v = chars("##(bc)##");
    let (content, next) = exec_phrase_at(&v, 0).expect("phrase expected");
    assert_eq!(content, chars("bc"));
    assert_eq!(next, 8);
}

#[test]
fn word_hash_matches() {
    let v = chars("#asdf");
    let (content, next) = exec_word_at(&v, 0).expect("word expected");
    assert_eq!(content, chars("asdf"));
    assert_eq!(next, 5);
}

#[test]
fn text_parts_collects_all() {
    let tags = find_tags("ab ##(cd)###z qw");
    assert_eq!(tags, vec!["cd", "z"]);
}

#[test]
fn find_tags_finds_tags() {
    let tags = find_tags("hello #world this is a #(phrase tag)#, whee");
    assert_eq!(tags, vec!["phrase tag", "world"]);
}

#[test]
fn find_tags_deduplicates_tags() {
    let tags = find_tags("#a #b #a #b #c #a #c");
    assert_eq!(tags, vec!["a", "b", "c"]);
}

#[test]
fn find_tags_empty_input_finds_nothing() {
    assert_eq!(find_tags(""), Vec::<String>::new());
    assert_eq!(find_tags("no tags at all"), Vec::<String>::new());
}

#[test]
fn phrase_nesting_needs_matching_close() {
    // A two-hash open runs past a one-hash close; only )## ends it.
    let tags = find_tags("##(a )# b)## x");
    assert_eq!(tags, vec!["a )# b"]);
}

#[test]
fn phrase_without_close_falls_back_to_text() {
    // No matching close: the hashes and paren are plain text, but the
    // word tag inside is still found from the next position on.
    assert_eq!(find_tags("#(never closed"), Vec::<String>::new());
    assert_eq!(find_tags("##(x)#"), vec!["x"]);
}

#[test]
fn phrase_with_empty_content_is_no_tag() {
    assert_eq!(find_tags("#()#"), Vec::<String>::new());
}

#[test]
fn word_tag_stops_at_non_alphanumeric() {
    assert_eq!(find_tags("#ab,cd"), vec!["ab"]);
    assert_eq!(find_tags("## nothing"), Vec::<String>::new());
}

#[test]
fn tags_survive_storage_normalization() {
    // Extract, store (trim + newline), re-extract: the same tag set.
    let text = "note #one and #(two words)#   \t ";
    let stored = normalize_entry_text(text);
    assert_eq!(find_tags(text), find_tags(stored.as_str()));
}
