use drawguess::word_pack::WordPack;

fn sample() -> WordPack {
    WordPack::parse("Animals\nCreatures great and small\ncat,kitty\ndog\nFISH , goldfish ")
        .expect("pack parses")
}

#[test]
fn parse_header() {
    let pack = sample();
    assert_eq!(pack.get_name(), "Animals");
    assert_eq!(pack.get_description(), "Creatures great and small");
    assert_eq!(pack.list_len(), 3);
}

#[test]
fn parse_normalizes_words() {
    let pack = sample();
    assert_eq!(pack.get_word(0), "cat");
    assert_eq!(pack.get_word(1), "dog");
    assert_eq!(pack.get_word(2), "fish");
    assert_eq!(pack.get_alternate(2, 0), "goldfish");
}

#[test]
fn parse_needs_two_header_lines() {
    assert!(WordPack::parse("OnlyName").is_none());
    assert!(WordPack::parse("").is_none());
    assert!(WordPack::parse("Name\nDescription").is_some());
}

#[test]
fn parse_skips_blank_and_duplicate_lines() {
    let pack = WordPack::parse("N\nD\ncat\n\n ,, \ncat,copy\ndog").expect("pack parses");
    assert_eq!(pack.list_len(), 2);
    assert_eq!(pack.get_word(0), "cat");
    // the duplicate "cat" line was dropped entirely, alternates included
    let (hit, alt) = pack.word_matches(0, &"copy".to_string());
    assert!(!hit);
    assert_eq!(alt, None);
    assert_eq!(pack.get_word(1), "dog");
}

#[test]
fn matching_primary_and_alternates() {
    let pack = sample();
    assert_eq!(pack.word_matches(0, &"cat".to_string()), (true, None));
    assert_eq!(pack.word_matches(0, &"kitty".to_string()), (true, Some(0)));
    assert_eq!(pack.word_matches(0, &"dog".to_string()), (false, None));
    assert_eq!(pack.word_matches(2, &"goldfish".to_string()), (true, Some(0)));
}
