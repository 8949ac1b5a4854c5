use word_index::mt::MtDeque;
use word_index::word_count::{compatibility_case_fold, count_words, index_files_from_deque};
use word_index::word_map::WordMap;

#[test]
fn case_fold_lowers_ascii() {
    assert_eq!(compatibility_case_fold("Hello"), "hello");
    assert_eq!(compatibility_case_fold("WORLD"), "world");
}

#[test]
fn case_fold_expands_sharp_s() {
    assert_eq!(compatibility_case_fold("Stra\u{00df}e"), "strasse");
}

#[test]
fn case_fold_decomposes_compatibility_forms() {
    // Fullwidth letters are compatibility-equivalent to ASCII.
    assert_eq!(compatibility_case_fold("\u{ff21}\u{ff22}\u{ff23}"), "abc");
    // An accented letter decomposes into base letter plus combining mark.
    assert_eq!(compatibility_case_fold("\u{00c9}"), "e\u{0301}");
}

#[test]
fn case_fold_is_idempotent_on_samples() {
    for s in ["Hello", "Stra\u{00df}e", "\u{ff21}bc", "\u{00c9}cole", "mixedCASE123"] {
        let once = compatibility_case_fold(s);
        let twice = compatibility_case_fold(&once);
        assert_eq!(once, twice);
    }
}

#[test]
fn count_words_counts_case_insensitively() {
    let mut indexes: MtDeque<Option<WordMap>> = MtDeque::new();
    count_words("The the THE", &mut indexes);
    let map = indexes.pop_front().unwrap();
    assert_eq!(map.get_count(&String::from("the")), 3);
    assert_eq!(map.num_entries(), 1);
}

#[test]
fn count_words_splits_on_punctuation() {
    let mut indexes: MtDeque<Option<WordMap>> = MtDeque::new();
    count_words("one,two;three one!", &mut indexes);
    let map = indexes.pop_front().unwrap();
    assert_eq!(map.get_count(&String::from("one")), 2);
    assert_eq!(map.get_count(&String::from("two")), 1);
    assert_eq!(map.get_count(&String::from("three")), 1);
    assert_eq!(map.get_count(&String::from("four")), 0);
}

#[test]
fn indexer_drains_contents_and_reposts_sentinel() {
    let mut contents: MtDeque<Option<String>> = MtDeque::new();
    contents.push_back(Some(String::from("alpha beta")));
    contents.push_back(Some(String::from("beta")));
    contents.push_back(None);
    let mut indexes: MtDeque<Option<WordMap>> = MtDeque::new();
    index_files_from_deque(&mut contents, &mut indexes);
    // The sentinel is put back for sibling indexers.
    assert_eq!(contents.len(), 1);
    assert_eq!(contents.pop_front(), None);
    // One partial map per content string, most recent in front.
    assert_eq!(indexes.len(), 2);
    let second = indexes.pop_front().unwrap();
    assert_eq!(second.get_count(&String::from("beta")), 1);
    let first = indexes.pop_front().unwrap();
    assert_eq!(first.get_count(&String::from("alpha")), 1);
    assert_eq!(first.get_count(&String::from("beta")), 1);
}
