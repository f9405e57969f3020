use harper_core::{Dictionary, WordMetadata};
use harper_ingest::dictionary::dict_from_text;

fn chars(s: &str) -> Vec<char> {
    s.chars().collect()
}

#[test]
fn distinct_lines_give_one_entry_each() {
    let dict = dict_from_text("apple\nbanana\ncherry\n");
    assert_eq!(dict.word_count(), 3);
    for w in ["apple", "banana", "cherry"] {
        assert!(dict.contains_word(&chars(w)));
        assert_eq!(dict.get_word_metadata(&chars(w)), Some(&WordMetadata::default()));
    }
}

#[test]
fn repeated_line_gives_one_entry() {
    let dict = dict_from_text("apple\napple\n");
    assert_eq!(dict.word_count(), 1);
    assert!(dict.contains_word(&chars("apple")));
}

#[test]
fn empty_word_list_gives_empty_dictionary() {
    assert_eq!(dict_from_text("").word_count(), 0);
}

#[test]
fn whole_line_is_one_word() {
    let dict = dict_from_text("New York\n");
    assert_eq!(dict.word_count(), 1);
    assert!(dict.contains_word(&chars("New York")));
    assert!(!dict.contains_word(&chars("New")));
}

#[test]
fn crlf_word_list_is_read_like_lf() {
    let dict = dict_from_text("alpha\r\nbeta\r\n");
    assert_eq!(dict.word_count(), 2);
    assert!(dict.contains_word(&chars("beta")));
}

#[test]
fn words_differing_in_case_share_an_entry() {
    let dict = dict_from_text("Harper\nharper\n");
    assert_eq!(dict.word_count(), 1);
}

#[test]
fn every_loaded_word_has_default_metadata() {
    let dict = dict_from_text("alpha\nbeta gamma\n\ndelta\r\n");
    assert_eq!(dict.word_count(), 4);
    for w in ["alpha", "beta gamma", "", "delta"] {
        assert_eq!(dict.get_word_metadata(&chars(w)), Some(&WordMetadata::default()), "{:?}", w);
    }
}

#[test]
fn doubled_word_list_gives_same_dictionary() {
    let once = dict_from_text("red\ngreen\nblue\n");
    let twice = dict_from_text("red\ngreen\nblue\nred\ngreen\nblue\n");
    assert_eq!(once, twice);
}

#[test]
fn line_order_does_not_matter() {
    let a = dict_from_text("red\ngreen\nblue");
    let b = dict_from_text("blue\nred\ngreen");
    assert_eq!(a, b);
}

#[test]
fn case_variants_keep_last_spelling() {
    let dict = dict_from_text("Harper\nharper\n");
    assert_eq!(dict.get_correct_capitalization_of(&chars("HARPER")), Some(&chars("harper")[..]));
}
