use anagrams::text::{blank, count_words, letter, remove_first, same, strip_blanks};

#[test]
fn blank_is_the_space_and_other_whitespace() {
    assert!(blank(' '));
    assert!(blank('\t'));
    assert!(blank('\n'));
    assert!(blank('\u{a0}'));
    assert!(!blank('a'));
    assert!(!blank('-'));
    assert!(!blank('_'));
}

#[test]
fn letter_is_alphabetic() {
    assert!(letter('a'));
    assert!(letter('Z'));
    assert!(letter('ö'));
    assert!(letter('京'));
    assert!(!letter(' '));
    assert!(!letter('1'));
    assert!(!letter('\''));
    assert!(!letter('_'));
}

#[test]
fn strip_blanks_keeps_the_rest_in_order() {
    assert_eq!(strip_blanks("poultry outwits ants"), "poultryoutwitsants");
    assert_eq!(strip_blanks("  a\tb\nc  "), "abc");
    assert_eq!(strip_blanks("it's 1"), "it's1");
    assert_eq!(strip_blanks(""), "");
    assert_eq!(strip_blanks(" \n"), "");
}

#[test]
fn count_words_counts_as_split_whitespace_does() {
    for text in ["", " ", "a", "a ", " a", "a b", "a  b", "  a  b  ", "an ant", "a\tb\nc", "x y z "] {
        assert_eq!(count_words(text), text.split_whitespace().count());
    }
    assert_eq!(count_words(""), 0);
    assert_eq!(count_words("ant"), 1);
    assert_eq!(count_words("ant "), 1);
    assert_eq!(count_words("an ant"), 2);
    assert_eq!(count_words(" an  ant  a "), 3);
}

#[test]
fn remove_first_takes_one_occurrence() {
    assert_eq!(remove_first("banana", 'n'), Some(String::from("baana")));
    assert_eq!(remove_first("banana", 'b'), Some(String::from("anana")));
    assert_eq!(remove_first("a", 'a'), Some(String::new()));
    assert_eq!(remove_first("banana", 'x'), None);
    assert_eq!(remove_first("", 'a'), None);
}

#[test]
fn same_compares_character_by_character() {
    let texts = ["", "a", "ab", "abc", "abd", "b", "A", "köln", "koln", "ab "];
    for a in texts {
        for b in texts {
            assert_eq!(same(a, b), a == b);
        }
    }
    assert!(same("", ""));
    assert!(same("tea", "tea"));
    assert!(!same("tea", "te"));
    assert!(!same("te", "tea"));
    assert!(!same("tea", "ten"));
}
