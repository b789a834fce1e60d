use anagrams::anagram::AnagramFinder;
use anagrams::text::strip_blanks;
use anagrams::word::{build_trie, Letter};

fn dictionary(words: &[&str]) -> Letter {
    let words: Vec<String> = words.iter().map(|w| String::from(*w)).collect();
    build_trie(&words)
}

fn texts(found: &[(String, String)]) -> Vec<String> {
    let mut texts: Vec<String> = found.iter().map(|(text, _)| text.clone()).collect();
    texts.sort();
    texts
}

const ANT: &str = "63b07e828bf016e976ff95d6ee07a105";
const AN_ANT: &str = "07726f7a1207016ef8f3d08916d37f1c";
const ANT_AN: &str = "e689934c41c63586ef4c8870643ff952";
const ATE: &str = "1f0cec14e2c5effcbff50f2feb9495f6";
const EAT: &str = "9a97eda6d89f5c9e84560468a0679707";
const TEA: &str = "7239ea2b5dc943f61f3c0a0276c20974";

#[test]
fn test_empty_phrase_input() {
    assert!(AnagramFinder::contain_str("", ""));
}

#[test]
fn test_phrase_without_spaces() {
    // Is MIPS simple? It should...
    assert!(AnagramFinder::contain_str("mips", "simple"));
    // ARM seems to be hard
    assert!(!AnagramFinder::contain_str("arm", "hard"));
}

#[test]
fn test_phrase_with_spaces() {
    // positive response: it's a yes for my "dear"
    assert!(AnagramFinder::contain_str("dear", "phrase used here"));
    // negative response: it's a no for my "potatoe" :(
    assert!(!AnagramFinder::contain_str("potatoe", "another phrase"));
}

#[test]
fn contain_str_counts_each_letter() {
    assert!(AnagramFinder::contain_str("aa", "banana"));
    assert!(AnagramFinder::contain_str("aaa", "banana"));
    assert!(!AnagramFinder::contain_str("aaaa", "banana"));
    assert!(!AnagramFinder::contain_str("bb", "banana"));
}

#[test]
fn contain_str_ignores_the_order() {
    assert!(AnagramFinder::contain_str("tna", "ant"));
    assert!(AnagramFinder::contain_str("ant", "tna"));
    assert!(AnagramFinder::contain_str("nat", "a n t"));
}

#[test]
fn contain_str_passes_over_what_is_not_alphabetic() {
    assert!(AnagramFinder::contain_str("a-n't 1", "ant"));
    assert!(AnagramFinder::contain_str("!?", ""));
    assert!(!AnagramFinder::contain_str("a", "-"));
    assert!(!AnagramFinder::contain_str("A", "a"));
}

#[test]
fn contain_char_takes_the_first_occurrence() {
    let phrase = String::from("banana");
    assert_eq!(AnagramFinder::contain_char('a', &phrase), Some(String::from("bnana")));
    assert_eq!(AnagramFinder::contain_char('n', &phrase), Some(String::from("baana")));
    assert_eq!(AnagramFinder::contain_char('b', &phrase), Some(String::from("anana")));
    assert_eq!(phrase, "banana");
}

#[test]
fn contain_char_fails_on_a_missing_letter() {
    assert_eq!(AnagramFinder::contain_char('x', &String::from("banana")), None);
    assert_eq!(AnagramFinder::contain_char('a', &String::new()), None);
    assert_eq!(AnagramFinder::contain_char('B', &String::from("banana")), None);
}

#[test]
fn contain_char_has_other_characters_for_nothing() {
    let phrase = String::from("a-b");
    assert_eq!(AnagramFinder::contain_char('-', &phrase), Some(String::from("a-b")));
    assert_eq!(AnagramFinder::contain_char(' ', &phrase), Some(String::from("a-b")));
    assert_eq!(AnagramFinder::contain_char('7', &String::new()), Some(String::new()));
}

#[test]
fn contain_char_handles_letters_beyond_ascii() {
    let phrase = String::from("köln");
    assert_eq!(AnagramFinder::contain_char('ö', &phrase), Some(String::from("kln")));
    assert_eq!(AnagramFinder::contain_char('o', &phrase), None);
}

#[test]
fn verify_gives_the_md5_digest_in_hex() {
    let head = dictionary(&[]);
    let hashes = ["900150983cd24fb0d6963f7d28e17f72", "d41d8cd98f00b204e9800998ecf8427e"];
    let finder = AnagramFinder::new(&head, "abc", &hashes, 1);
    assert_eq!(finder.verify("abc"), Some(String::from("900150983cd24fb0d6963f7d28e17f72")));
    assert_eq!(finder.verify(""), Some(String::from("d41d8cd98f00b204e9800998ecf8427e")));
    assert_eq!(finder.verify("abd"), None);
}

#[test]
fn verify_compares_exactly() {
    let head = dictionary(&[]);
    let hashes = ["900150983CD24FB0D6963F7D28E17F72", "abc", "900150983cd24fb0d6963f7d28e17f7"];
    let finder = AnagramFinder::new(&head, "abc", &hashes, 1);
    assert_eq!(finder.verify("abc"), None);
}

#[test]
fn accept_hands_back_an_accepted_digest() {
    let head = dictionary(&[]);
    let hashes = ["one", "two"];
    let finder = AnagramFinder::new(&head, "", &hashes, 1);
    assert_eq!(finder.accept(String::from("two")), Some(String::from("two")));
    assert_eq!(finder.accept(String::from("three")), None);
    assert_eq!(finder.accept(String::new()), None);
}

#[test]
fn search_single_word_among_prefixes() {
    // "a" + "nt" and "an" + "t" fail for want of the words "nt" and "t"
    let head = dictionary(&["a", "an", "ant"]);
    let hashes = [ANT];
    let mut finder = AnagramFinder::new(&head, "ant", &hashes, 2);
    let found = finder.search();
    assert_eq!(found, vec![(String::from("ant"), String::from(ANT))]);
}

#[test]
fn search_finds_each_one_word_anagram() {
    let head = dictionary(&["ate", "eat", "tea", "a", "et"]);
    let hashes = [ATE, EAT, TEA];
    let mut finder = AnagramFinder::new(&head, "eat", &hashes, 1);
    let found = finder.search();
    assert_eq!(texts(&found), vec!["ate", "eat", "tea"]);
}

#[test]
fn search_emits_only_the_accepted_digest() {
    let head = dictionary(&["ate", "eat", "tea", "a", "et"]);
    let hashes = [TEA];
    let mut finder = AnagramFinder::new(&head, "eat", &hashes, 1);
    let found = finder.search();
    assert_eq!(found, vec![(String::from("tea"), String::from(TEA))]);
}

#[test]
fn search_finds_anagrams_of_several_words() {
    let head = dictionary(&["an", "ant", "a", "ant"]);
    let hashes = [AN_ANT, ANT_AN];
    let mut finder = AnagramFinder::new(&head, "anant", &hashes, 2);
    let found = finder.search();
    assert_eq!(texts(&found), vec!["an ant", "ant an"]);
    for (text, _) in &found {
        let mut used: Vec<char> = text.chars().filter(|c| *c != ' ').collect();
        used.sort();
        assert_eq!(used, vec!['a', 'a', 'n', 'n', 't']);
        assert!(text.split_whitespace().count() <= 2);
    }
}

#[test]
fn search_keeps_to_the_word_limit() {
    let head = dictionary(&["an", "ant", "a", "ant"]);
    let hashes = [AN_ANT, ANT_AN];
    let mut finder = AnagramFinder::new(&head, "anant", &hashes, 1);
    assert_eq!(finder.search(), vec![]);
}

#[test]
fn search_with_limit_zero_still_finds_single_words() {
    let head = dictionary(&["ant", "an"]);
    let hashes = [ANT, AN_ANT];
    let mut finder = AnagramFinder::new(&head, "tan", &hashes, 0);
    assert_eq!(finder.search(), vec![(String::from("ant"), String::from(ANT))]);
}

#[test]
fn search_without_accepted_hashes_finds_nothing() {
    let head = dictionary(&["ate", "eat", "tea", "a", "et"]);
    let hashes: [&str; 0] = [];
    let mut finder = AnagramFinder::new(&head, "eat", &hashes, 4);
    assert_eq!(finder.search(), vec![]);
}

#[test]
fn search_over_an_unsatisfiable_phrase_finds_nothing() {
    let head = dictionary(&["dog", "cat"]);
    let hashes = [ANT, TEA];
    let mut finder = AnagramFinder::new(&head, "xyz", &hashes, 4);
    assert_eq!(finder.search(), vec![]);
}

#[test]
fn search_over_an_empty_dictionary_finds_nothing() {
    let head = dictionary(&[]);
    let hashes = [ANT];
    let mut finder = AnagramFinder::new(&head, "ant", &hashes, 4);
    assert_eq!(finder.search(), vec![]);
}

#[test]
fn search_over_an_empty_phrase_finds_nothing() {
    let head = dictionary(&["a"]);
    let hashes = ["d41d8cd98f00b204e9800998ecf8427e"];
    let mut finder = AnagramFinder::new(&head, "", &hashes, 4);
    assert_eq!(finder.search(), vec![]);
}

#[test]
fn search_strips_no_separator() {
    // the space is never used up, so no text is complete
    let head = dictionary(&["abc"]);
    let hashes = ["900150983cd24fb0d6963f7d28e17f72"];
    let mut finder = AnagramFinder::new(&head, "a bc", &hashes, 1);
    assert_eq!(finder.search(), vec![]);
    let mut finder = AnagramFinder::new(&head, "abc", &hashes, 1);
    assert_eq!(
        finder.search(),
        vec![(String::from("abc"), String::from("900150983cd24fb0d6963f7d28e17f72"))]
    );
}

#[test]
fn search_finds_nothing_in_a_phrase_with_separators() {
    let head = dictionary(&["an", "ant"]);
    let hashes = [AN_ANT];
    for phrase in [" ant\tan\n", "ant an", "antan ", "\tantan"] {
        let mut finder = AnagramFinder::new(&head, phrase, &hashes, 3);
        assert_eq!(finder.search(), vec![]);
    }
}

#[test]
fn search_finds_what_the_stripped_phrase_holds() {
    let head = dictionary(&["an", "ant"]);
    let hashes = [AN_ANT];
    let letters = strip_blanks(" ant\tan\n");
    assert_eq!(letters, "antan");
    let mut finder = AnagramFinder::new(&head, &letters, &hashes, 3);
    assert_eq!(finder.search(), vec![(String::from("an ant"), String::from(AN_ANT))]);
}

#[test]
fn search_tested_searches_over_a_trie_of_letters() {
    let head = dictionary(&["ate", "eat", "tea"]);
    let hashes = [TEA];
    let mut finder = AnagramFinder::new(&head, "eat", &hashes, 1);
    assert_eq!(finder.search_tested(), Some(vec![(String::from("tea"), String::from(TEA))]));
    let mut finder = AnagramFinder::new(&head, "e at", &hashes, 2);
    assert_eq!(finder.search_tested(), Some(vec![]));
}

#[test]
fn search_tested_refuses_another_trie() {
    let hashes = [TEA];
    for words in [["tea", "it's"], ["tea", "t e"], ["tea", "r2"]] {
        let head = dictionary(&words);
        let mut finder = AnagramFinder::new(&head, "eat", &hashes, 1);
        assert_eq!(finder.search_tested(), None);
    }
}

#[test]
fn search_needs_every_character_of_the_phrase() {
    // the digit is never used up, so no text is complete
    let head = dictionary(&["ant"]);
    let hashes = [ANT];
    let mut finder = AnagramFinder::new(&head, "ant1", &hashes, 3);
    assert_eq!(finder.search(), vec![]);
}

#[test]
fn search_comes_in_the_order_of_the_traversal() {
    let head = dictionary(&["tea", "ate", "eat"]);
    let hashes = [ATE, EAT, TEA];
    let mut finder = AnagramFinder::new(&head, "eat", &hashes, 1);
    let found = finder.search();
    let order: Vec<&str> = found.iter().map(|(text, _)| text.as_str()).collect();
    assert_eq!(order, vec!["tea", "ate", "eat"]);
}

#[test]
fn search_solves_the_rabbit_phrase() {
    let head = dictionary(&[
        "printout", "stout", "yawls", "ty", "outlaws", "printouts", "wu", "lisp", "not", "statutory",
    ]);
    let hashes = [
        "e4820b45d2277f3844eac66c903e84be",
        "23170acc097c24edb98fc5488ab033fe",
        "665e5bcb0c20062fe8abaaf4628bb154",
    ];
    let letters = strip_blanks("poultry outwits ants");
    let mut finder = AnagramFinder::new(&head, &letters, &hashes, 4);
    let found = finder.search();
    assert_eq!(
        texts(&found),
        vec!["printout stout yawls", "ty outlaws printouts", "wu lisp not statutory"]
    );
    assert_eq!(found.len(), 3);
    for (text, hash) in &found {
        assert_eq!(finder.verify(text), Some(hash.clone()));
        assert!(text.split_whitespace().count() <= 4);
        for word in text.split(' ') {
            assert!(AnagramFinder::contain_str(word, "poultry outwits ants"));
        }
        let mut used: Vec<char> = text.chars().filter(|c| c.is_alphabetic()).collect();
        let mut given: Vec<char> =
            "poultry outwits ants".chars().filter(|c| c.is_alphabetic()).collect();
        used.sort();
        given.sort();
        assert_eq!(used, given);
    }
}

#[test]
fn search_finds_each_match_once() {
    let head = dictionary(&["an", "ant", "a", "ant", "an", "na"]);
    let hashes = [AN_ANT, ANT_AN, AN_ANT];
    let mut finder = AnagramFinder::new(&head, "anant", &hashes, 3);
    let found = finder.search();
    assert_eq!(texts(&found), vec!["an ant", "ant an"]);
}

#[test]
fn combine_adds_behind_what_was_found() {
    let head = dictionary(&["ant", "tan"]);
    let hashes = [ANT];
    let finder = AnagramFinder::new(&head, "ant", &hashes, 1);
    let mut found = vec![(String::from("before"), String::from("0"))];
    finder.combine(&head, &String::new(), &String::from("nat"), &mut found);
    assert_eq!(
        found,
        vec![
            (String::from("before"), String::from("0")),
            (String::from("ant"), String::from(ANT)),
        ]
    );
}

#[test]
fn extend_follows_one_branch() {
    let head = dictionary(&["ant", "tan"]);
    let hashes = [ANT, "b2f2f3bc4de3e3dc1a7bbdb3c0a4b4e3"];
    let finder = AnagramFinder::new(&head, "ant", &hashes, 1);
    let t = &head.children()[1];
    assert_eq!(t.character(), 't');
    let mut found = Vec::new();
    finder.extend(t, &String::new(), &String::from("ant"), &mut found);
    assert_eq!(found, vec![]);
    let a = &head.children()[0];
    finder.extend(a, &String::new(), &String::from("ant"), &mut found);
    assert_eq!(found, vec![(String::from("ant"), String::from(ANT))]);
}
