use aislobsterble::dictionary::Dictionary;
use aislobsterble::text::to_uppercase_ascii;

#[test]
fn entries_are_upper_cased_at_load() {
    let lines = vec![String::from("cat"), String::from("Dog")];
    let dictionary = Dictionary::new(&lines);
    assert!(dictionary.contains(&String::from("CAT")));
    assert!(dictionary.contains(&String::from("DOG")));
    // Exact membership is case-sensitive against the folded entries.
    assert!(!dictionary.contains(&String::from("cat")));
    assert!(!dictionary.contains(&String::from("BIRD")));
}

#[test]
fn folded_queries_are_case_insensitive() {
    let lines = vec![String::from("WoRd")];
    let dictionary = Dictionary::new(&lines);
    assert!(dictionary.contains_folded(&String::from("word")));
    assert!(dictionary.contains_folded(&String::from("WORD")));
    assert!(dictionary.contains_folded(&String::from("wOrD")));
    assert!(!dictionary.contains_folded(&String::from("words")));
}

#[test]
fn ascii_case_folding_leaves_other_characters_alone() {
    assert_eq!(to_uppercase_ascii("caT!7z"), String::from("CAT!7Z"));
    assert_eq!(to_uppercase_ascii(""), String::from(""));
    assert_eq!(to_uppercase_ascii("ALREADY"), String::from("ALREADY"));
}
