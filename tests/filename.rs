use prism::{extract_id, last_tag, local_ids};

fn id(name: &str) -> Option<String> {
    extract_id(name)
}

#[test]
fn id_from_trailing_tag() {
    assert_eq!(id("My Video [abc123].opus"), Some("abc123".to_string()));
}

#[test]
fn last_tag_wins() {
    assert_eq!(id("[bad][good123].ext"), Some("good123".to_string()));
    assert_eq!(id("Title [x] more [y_2] end.opus"), Some("y_2".to_string()));
}

#[test]
fn no_brackets_no_id() {
    assert_eq!(id("no-brackets.opus"), None);
}

#[test]
fn empty_name_has_no_id() {
    assert_eq!(id(""), None);
}

#[test]
fn empty_brackets_are_no_tag() {
    assert_eq!(id("song [].opus"), None);
    assert_eq!(id("song [] [ok].opus"), Some("ok".to_string()));
}

#[test]
fn non_word_characters_break_a_tag() {
    // `-` and spaces are not word characters.
    assert_eq!(id("song [a-b].opus"), None);
    assert_eq!(id("song [a b].opus"), None);
    assert_eq!(id("[good] [a-b].opus"), Some("good".to_string()));
}

#[test]
fn unicode_word_characters_count() {
    assert_eq!(id("canción [añb9].opus"), Some("añb9".to_string()));
}

#[test]
fn nested_brackets_take_the_inner_tag() {
    assert_eq!(id("a [[inner]] b"), Some("inner".to_string()));
}

#[test]
fn unclosed_bracket_is_no_tag() {
    assert_eq!(id("title [abc"), None);
    assert_eq!(id("title [abc] [def"), Some("abc".to_string()));
}

#[test]
fn listing_drops_names_without_id() {
    let names = vec![
        "One [id1].opus".to_string(),
        "cover.jpg".to_string(),
        "Two [id2].opus".to_string(),
        "notes".to_string(),
    ];
    let r = local_ids(&names);
    assert_eq!(r.ids, vec!["id1".to_string(), "id2".to_string()]);
    assert_eq!(r.unmatched, vec![1, 3]);
}

#[test]
fn empty_listing_gives_nothing() {
    let r = local_ids(&Vec::new());
    assert!(r.ids.is_empty());
    assert!(r.unmatched.is_empty());
}

#[test]
fn last_tag_follows_the_given_word_flags() {
    // "[ab][c]": with every letter a word character, the last tag is "c".
    let name = "[ab][c]";
    let all = vec![false, true, true, false, false, true, false];
    assert_eq!(last_tag(name, &all), Some("c".to_string()));
    // Where `c` is taken for a non-word character, "ab" is the last tag.
    let no_c = vec![false, true, true, false, false, false, false];
    assert_eq!(last_tag(name, &no_c), Some("ab".to_string()));
    let none = vec![false; 7];
    assert_eq!(last_tag(name, &none), None);
}

#[test]
fn last_tag_ignores_flags_on_brackets() {
    let name = "[[x]]";
    let all = vec![true; 5];
    assert_eq!(last_tag(name, &all), Some("x".to_string()));
}
