use anagrams::dictionary::{
    comes_before, count_bytes, filter_words, insert_ascending, less, only_letters, split_lines,
};
use anagrams::word::build_trie;

fn list(words: &[&str]) -> Vec<String> {
    words.iter().map(|w| String::from(*w)).collect()
}

#[test]
fn split_lines_parts_as_lines_does() {
    for text in [
        "", "a", "a\n", "a\nb", "a\n\nb", "\n", "\n\n", "a\r\nb", "a\r\n", "\r\n", "a\rb", "a\r",
        "\r", "a\r\r\n", "\r\r", "a\n\rb\n", "one\ntwo\r\nthree", "  x \n y",
    ] {
        let expected: Vec<String> = text.lines().map(String::from).collect();
        assert_eq!(split_lines(text), expected);
    }
}

#[test]
fn split_lines_drops_the_line_endings() {
    assert_eq!(split_lines("one\ntwo\r\nthree"), list(&["one", "two", "three"]));
    assert_eq!(split_lines("one\n\ntwo\n"), list(&["one", "", "two"]));
    assert_eq!(split_lines("a\rb\r"), list(&["a\rb\r"]));
    assert_eq!(split_lines(""), Vec::<String>::new());
}

#[test]
fn less_orders_as_strings_do() {
    let texts = ["", "a", "ab", "abc", "b", "ba", "B", "köln", "kz", "zebra", "ö"];
    for a in texts {
        for b in texts {
            assert_eq!(less(a, b), a < b);
        }
    }
    assert!(less("", "a"));
    assert!(less("ab", "abc"));
    assert!(less("abc", "b"));
    assert!(!less("b", "abc"));
    assert!(!less("a", "a"));
    assert!(!less("", ""));
}

#[test]
fn count_bytes_counts_the_encoding() {
    assert_eq!(count_bytes(""), 0);
    assert_eq!(count_bytes("ant"), 3);
    assert_eq!(count_bytes("köln"), 5);
    assert_eq!(count_bytes("京"), 3);
}

#[test]
fn comes_before_puts_the_shorter_first() {
    assert!(comes_before("zz", "aaa"));
    assert!(!comes_before("aaa", "zz"));
    assert!(comes_before("abc", "abd"));
    assert!(!comes_before("abd", "abc"));
    assert!(!comes_before("abc", "abc"));
    // two bytes for the umlaut
    assert!(comes_before("zz", "ö"));
    assert!(comes_before("az", "ö"));
}

#[test]
fn only_letters_rejects_what_is_no_letter() {
    assert!(only_letters("ant"));
    assert!(only_letters("Köln"));
    assert!(only_letters(""));
    assert!(!only_letters("an t"));
    assert!(!only_letters("it's"));
    assert!(!only_letters("r2"));
    assert!(!only_letters("ant\r"));
}

#[test]
fn insert_ascending_keeps_order_and_holds_no_word_twice() {
    let mut words = Vec::new();
    for word in ["tea", "at", "zebra", "ate", "at", "a", "tea", "eat"] {
        insert_ascending(&mut words, String::from(word));
    }
    assert_eq!(words, list(&["a", "at", "ate", "eat", "tea", "zebra"]));
}

#[test]
fn filter_words_normalises_filters_and_sorts() {
    let content = String::from("Tea\nate\n\nEAT\nx1\ntea\nzebra\na\nat\r\neta\nt e");
    let words = filter_words(&content, "eat", 2);
    assert_eq!(words, list(&["at", "ate", "eat", "eta", "tea"]));
}

#[test]
fn filter_words_applies_the_least_length() {
    let content = String::from("a\nat\nate\n");
    assert_eq!(filter_words(&content, "eat", 0), list(&["a", "at", "ate"]));
    assert_eq!(filter_words(&content, "eat", 1), list(&["a", "at", "ate"]));
    assert_eq!(filter_words(&content, "eat", 3), list(&["ate"]));
    assert_eq!(filter_words(&content, "eat", 4), Vec::<String>::new());
}

#[test]
fn filter_words_counts_the_letters_of_the_phrase() {
    let content = String::from("too\nto\noot\nroot\n");
    assert_eq!(filter_words(&content, "to or", 1), list(&["to", "oot", "too", "root"]));
    assert_eq!(filter_words(&content, "tor", 1), list(&["to"]));
}

#[test]
fn filter_words_of_nothing_is_nothing() {
    assert_eq!(filter_words(&String::new(), "eat", 2), Vec::<String>::new());
    assert_eq!(filter_words(&String::from("ate\neat"), "", 2), Vec::<String>::new());
}

#[test]
fn filter_words_gives_a_trie_of_letters() {
    let content = String::from("Printout\nstout\nyawls\nit's\nants\nx-ray\n\nTY\n");
    let words = filter_words(&content, "poultry outwits ants", 2);
    assert_eq!(words, list(&["ty", "ants", "stout", "yawls", "printout"]));
    assert!(build_trie(&words).is_lexical());
}
