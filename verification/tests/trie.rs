use anagrams::word::{build_node, build_trie, find_or_insert_node, Letter, HEAD_CHARACTER};

fn list(words: &[&str]) -> Vec<String> {
    words.iter().map(|w| String::from(*w)).collect()
}

/// The tree as nested text: the character, a mark where a word ends, and the
/// children in brackets.
fn shape(node: &Letter) -> String {
    let mut text = String::new();
    text.push(node.character());
    if node.is_word() {
        text.push('*');
    }
    if !node.children().is_empty() {
        text.push('(');
        for child in node.children() {
            text.push_str(&shape(child));
        }
        text.push(')');
    }
    text
}

fn accepts(node: &Letter, word: &str) -> bool {
    let mut node = node;
    for c in word.chars() {
        match node.children().iter().find(|child| child.character() == c) {
            Some(child) => node = child,
            None => return false,
        }
    }
    node.is_word()
}

fn paths(node: &Letter, word: &[char]) -> usize {
    match word.split_first() {
        None => usize::from(node.is_word()),
        Some((first, rest)) => node
            .children()
            .iter()
            .filter(|child| child.character() == *first)
            .map(|child| paths(child, rest))
            .sum(),
    }
}

#[test]
fn test_build_tree_from_simple_word() {
    let words = vec![String::from("abalone")];

    let tree = build_trie(&words);

    assert_eq!(1, tree.children().len());
}

#[test]
fn test_build_tree_from_multiple_words() {
    let words = vec![String::from("abalone"), String::from("convene")];

    let tree = build_trie(&words);

    assert_eq!(2, tree.children().len());
}

#[test]
fn new_letter_is_a_leaf() {
    let letter = Letter::new('q');
    assert_eq!(letter.character(), 'q');
    assert!(!letter.is_word());
    assert!(letter.children().is_empty());
}

#[test]
fn set_word_sets_and_clears_the_mark() {
    let mut letter = Letter::new('q');
    letter.set_word(true);
    assert!(letter.is_word());
    letter.set_word(true);
    assert!(letter.is_word());
    letter.set_word(false);
    assert!(!letter.is_word());
    assert_eq!(letter.character(), 'q');
}

#[test]
fn children_mut_gives_the_list_itself() {
    let mut letter = Letter::new('q');
    letter.children_mut().push(Letter::new('u'));
    letter.children_mut().push(Letter::new('i'));
    assert_eq!(shape(&letter), "q(ui)");
    letter.children_mut().remove(0);
    assert_eq!(shape(&letter), "q(i)");
}

#[test]
fn empty_list_gives_a_bare_head() {
    let tree = build_trie(&Vec::new());
    assert_eq!(tree.character(), HEAD_CHARACTER);
    assert_eq!(tree.character(), '_');
    assert!(!tree.is_word());
    assert!(tree.children().is_empty());
}

#[test]
fn build_trie_shares_prefixes_in_order_of_insertion() {
    let tree = build_trie(&list(&["ant", "an", "tea", "a", "ten"]));
    assert_eq!(shape(&tree), "_(a*(n*(t*))t(e(a*n*)))");
}

#[test]
fn build_trie_accepts_its_words_and_no_others() {
    let words = ["a", "an", "ant", "tea"];
    let tree = build_trie(&list(&words));
    for word in words {
        assert!(accepts(&tree, word));
        let letters: Vec<char> = word.chars().collect();
        assert_eq!(paths(&tree, &letters), 1);
    }
    for word in ["", "t", "te", "at", "anta", "n", "teas"] {
        assert!(!accepts(&tree, word));
        let letters: Vec<char> = word.chars().collect();
        assert_eq!(paths(&tree, &letters), 0);
    }
}

#[test]
fn head_is_no_word_without_an_empty_entry() {
    assert!(!build_trie(&list(&["a", "b"])).is_word());
    assert!(build_trie(&list(&["a", "", "b"])).is_word());
}

#[test]
fn building_twice_from_a_word_is_building_once() {
    let once = build_trie(&list(&["ant"]));
    let twice = build_trie(&list(&["ant", "ant"]));
    assert_eq!(shape(&once), shape(&twice));
    assert_eq!(shape(&twice), "_(a(n(t*)))");
    let apart = build_trie(&list(&["ant", "an", "ant", "an"]));
    assert_eq!(shape(&apart), shape(&build_trie(&list(&["ant", "an"]))));
}

#[test]
fn build_node_adds_one_word() {
    let mut head = Letter::new('_');
    build_node(&String::from("ab"), &mut head);
    assert_eq!(shape(&head), "_(a(b*))");
    build_node(&String::from("a"), &mut head);
    assert_eq!(shape(&head), "_(a*(b*))");
    build_node(&String::from("ab"), &mut head);
    assert_eq!(shape(&head), "_(a*(b*))");
    build_node(&String::new(), &mut head);
    assert_eq!(shape(&head), "_*(a*(b*))");
}

#[test]
fn find_or_insert_node_finds_the_first_or_adds_the_last() {
    let mut parent = Letter::new('_');
    find_or_insert_node('x', &mut parent);
    find_or_insert_node('y', &mut parent).set_word(true);
    assert_eq!(shape(&parent), "_(xy*)");
    let found = find_or_insert_node('x', &mut parent);
    assert_eq!(found.character(), 'x');
    found.children_mut().push(Letter::new('z'));
    assert_eq!(shape(&parent), "_(x(z)y*)");
    assert_eq!(find_or_insert_node('w', &mut parent).character(), 'w');
    assert_eq!(shape(&parent), "_(x(z)y*w)");
}

#[test]
fn find_or_insert_node_takes_the_first_of_equal_children() {
    let mut parent = Letter::new('_');
    parent.children_mut().push(Letter::new('x'));
    parent.children_mut().push(Letter::new('x'));
    find_or_insert_node('x', &mut parent).set_word(true);
    assert_eq!(shape(&parent), "_(x*x)");
}

#[test]
fn is_lexical_asks_letters_below_the_head() {
    assert!(build_trie(&list(&["ant", "köln", "Tea"])).is_lexical());
    assert!(build_trie(&Vec::new()).is_lexical());
    assert!(!build_trie(&list(&["ant", "it's"])).is_lexical());
    assert!(!build_trie(&list(&["an t"])).is_lexical());
    assert!(!build_trie(&list(&["r2"])).is_lexical());
    // the head's own character is not asked
    assert!(Letter::new('_').is_lexical());
}
