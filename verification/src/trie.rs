use crate::text::is_letter;
use vstd::prelude::*;

verus! {

/// The mathematical tree that a node of the dictionary stands for: a
/// character, the mark of a word's end, and the trees below it in the order in
/// which they were added.
pub ghost struct Trie {
    pub character: char,
    pub is_word: bool,
    pub children: Seq<Trie>,
}

/// The index of the first tree in `children` that holds `c`, or their number
/// when none does.
pub open spec fn position(children: Seq<Trie>, c: char) -> int
    decreases children.len(),
{
    if children.len() == 0 {
        0
    } else if children[0].character == c {
        0
    } else {
        1 + position(children.drop_first(), c)
    }
}

/// The trie of a word list: the words added one after the other below a root
/// that holds `root`.
pub open spec fn trie_of(root: char, words: Seq<Seq<char>>) -> Trie
    decreases words.len(),
{
    if words.len() == 0 {
        Trie::leaf(root)
    } else {
        trie_of(root, words.drop_last()).insert(words.last())
    }
}

impl Trie {
    /// A node that holds `c`, with nothing below it, where no word ends.
    pub open spec fn leaf(c: char) -> Trie {
        Trie { character: c, is_word: false, children: Seq::empty() }
    }

    /// The tree with `word` added below this node: the walk takes, for each
    /// character, the first child that holds it, or adds a child behind the
    /// others; where the word ends the node is marked.
    pub open spec fn insert(self, word: Seq<char>) -> Trie
        decreases word.len(),
    {
        if word.len() == 0 {
            Trie { is_word: true, ..self }
        } else {
            let i = position(self.children, word[0]);
            let rest = word.drop_first();
            if i < self.children.len() {
                Trie { children: self.children.update(i, self.children[i].insert(rest)), ..self }
            } else {
                Trie { children: self.children.push(Trie::leaf(word[0]).insert(rest)), ..self }
            }
        }
    }

    /// Whether `word` is spelled by a walk from this node down to a node that
    /// is marked as a word's end. The node's own character is not part of the
    /// word.
    pub open spec fn accepts(self, word: Seq<char>) -> bool
        decreases word.len(),
    {
        if word.len() == 0 {
            self.is_word
        } else {
            exists|i: int|
                0 <= i < self.children.len() && (#[trigger] self.children[i]).character == word[0]
                    && self.children[i].accepts(word.drop_first())
        }
    }

    /// Whether `path`, a sequence of child indices, leads from this node to a
    /// node marked as a word's end, and the characters along it spell `word`.
    pub open spec fn marks(self, path: Seq<int>, word: Seq<char>) -> bool
        decreases path.len(),
    {
        if path.len() == 0 {
            word.len() == 0 && self.is_word
        } else {
            0 <= path[0] < self.children.len() && word.len() > 0
                && self.children[path[0]].character == word[0]
                && self.children[path[0]].marks(path.drop_first(), word.drop_first())
        }
    }

    /// No two children of one node hold the same character, anywhere in the
    /// tree.
    pub open spec fn distinct(self) -> bool
        decreases self,
    {
        &&& forall|i: int, j: int|
            0 <= i < j < self.children.len() ==> (#[trigger] self.children[i]).character != (
            #[trigger] self.children[j]).character
        &&& forall|i: int|
            0 <= i < self.children.len() ==> (#[trigger] self.children[i]).distinct()
    }

    /// Every node below this one holds a letter.
    pub open spec fn lexical(self) -> bool
        decreases self,
    {
        forall|i: int|
            0 <= i < self.children.len() ==> is_letter((#[trigger] self.children[i]).character)
                && self.children[i].lexical()
    }
}

/// What `position` returns: an index up to the number of children, before
/// which no child holds `c`, and at which, if it is an index, a child does.
pub proof fn lemma_position(children: Seq<Trie>, c: char)
    ensures
        0 <= position(children, c) <= children.len(),
        forall|j: int| 0 <= j < position(children, c) ==> (#[trigger] children[j]).character != c,
        position(children, c) < children.len() ==> children[position(children, c)].character == c,
    decreases children.len(),
{
    if children.len() > 0 && children[0].character != c {
        let rest = children.drop_first();
        lemma_position(rest, c);
        assert forall|j: int| 0 <= j < position(children, c) implies (#[trigger] children[j]).character
            != c by {
            if j > 0 {
                assert(children[j] == rest[j - 1]);
            }
        }
    }
}

/// An index that holds `c` and has no earlier one that does is the position of
/// `c`; so is the number of children when none holds it.
pub proof fn lemma_position_is(children: Seq<Trie>, c: char, i: int)
    requires
        0 <= i <= children.len(),
        forall|j: int| 0 <= j < i ==> (#[trigger] children[j]).character != c,
        i < children.len() ==> children[i].character == c,
    ensures
        position(children, c) == i,
{
    lemma_position(children, c);
}

/// Adding a word leaves the node's own character as it was.
pub proof fn lemma_insert_character(t: Trie, word: Seq<char>)
    ensures
        t.insert(word).character == t.character,
{
}

/// After `word` was added the tree accepts `word`, what it accepted before,
/// and nothing else.
pub proof fn lemma_insert_accepts(t: Trie, word: Seq<char>, other: Seq<char>)
    ensures
        t.insert(word).accepts(other) <==> (other == word || t.accepts(other)),
    decreases word.len(),
{
    let after = t.insert(word);
    if word.len() == 0 {
        if other.len() == 0 {
            assert(other =~= word);
        }
    } else if other.len() == 0 {
    } else {
        let i = position(t.children, word[0]);
        let rest = word.drop_first();
        let tail = other.drop_first();
        lemma_position(t.children, word[0]);
        let below = if i < t.children.len() {
            t.children[i]
        } else {
            Trie::leaf(word[0])
        };
        lemma_insert_accepts(below, rest, tail);
        lemma_insert_character(below, rest);
        assert(after.children[i] == below.insert(rest));
        if after.accepts(other) {
            let j = choose|j: int|
                0 <= j < after.children.len() && (#[trigger] after.children[j]).character
                    == other[0] && after.children[j].accepts(tail);
            if j == i {
                if tail == rest {
                    assert(other[0] == word[0]);
                    assert(other =~= seq![other[0]] + tail);
                    assert(word =~= seq![word[0]] + rest);
                } else {
                    assert(below.accepts(tail));
                    assert(i < t.children.len());
                    assert(t.children[i].accepts(tail));
                }
            } else {
                assert(after.children[j] == t.children[j]);
            }
        }
        if other == word {
            assert(after.children[i].accepts(tail));
        }
        if t.accepts(other) {
            let j = choose|j: int|
                0 <= j < t.children.len() && (#[trigger] t.children[j]).character == other[0]
                    && t.children[j].accepts(tail);
            if j == i {
                assert(after.children[i].accepts(tail));
            } else {
                assert(after.children[j] == t.children[j]);
                assert(after.children[j].accepts(tail));
            }
        }
    }
}

/// Adding a word keeps the children of every node distinct.
pub proof fn lemma_insert_distinct(t: Trie, word: Seq<char>)
    requires
        t.distinct(),
    ensures
        t.insert(word).distinct(),
    decreases word.len(),
{
    if word.len() > 0 {
        let after = t.insert(word);
        let i = position(t.children, word[0]);
        let rest = word.drop_first();
        lemma_position(t.children, word[0]);
        let below = if i < t.children.len() {
            t.children[i]
        } else {
            Trie::leaf(word[0])
        };
        lemma_insert_distinct(below, rest);
        lemma_insert_character(below, rest);
        assert(after.children[i] == below.insert(rest));
        assert forall|a: int, b: int| 0 <= a < b < after.children.len() implies (
        #[trigger] after.children[a]).character != (#[trigger] after.children[b]).character by {
            if a < t.children.len() {
                assert(after.children[a].character == t.children[a].character);
            }
            if b < t.children.len() {
                assert(after.children[b].character == t.children[b].character);
            }
        }
        assert forall|a: int| 0 <= a < after.children.len() implies (
        #[trigger] after.children[a]).distinct() by {
            if a != i {
                assert(after.children[a] == t.children[a]);
            }
        }
    }
}

/// Adding a word made of letters keeps every node below the root a letter.
pub proof fn lemma_insert_lexical(t: Trie, word: Seq<char>)
    requires
        t.lexical(),
        forall|k: int| 0 <= k < word.len() ==> is_letter(#[trigger] word[k]),
    ensures
        t.insert(word).lexical(),
    decreases word.len(),
{
    if word.len() > 0 {
        let after = t.insert(word);
        let i = position(t.children, word[0]);
        let rest = word.drop_first();
        lemma_position(t.children, word[0]);
        let below = if i < t.children.len() {
            t.children[i]
        } else {
            Trie::leaf(word[0])
        };
        assert forall|k: int| 0 <= k < rest.len() implies is_letter(#[trigger] rest[k]) by {
            assert(rest[k] == word[k + 1]);
        }
        lemma_insert_lexical(below, rest);
        lemma_insert_character(below, rest);
        assert(after.children[i] == below.insert(rest));
        assert forall|a: int| 0 <= a < after.children.len() implies is_letter(
            (#[trigger] after.children[a]).character,
        ) && after.children[a].lexical() by {
            if a != i {
                assert(after.children[a] == t.children[a]);
            }
        }
    }
}

/// Adding the same word a second time changes nothing: the end of a word is
/// a mark, not a count.
pub proof fn law_insert_idempotent(t: Trie, word: Seq<char>)
    ensures
        t.insert(word).insert(word) == t.insert(word),
    decreases word.len(),
{
    let once = t.insert(word);
    if word.len() > 0 {
        let i = position(t.children, word[0]);
        let rest = word.drop_first();
        lemma_position(t.children, word[0]);
        let below = if i < t.children.len() {
            t.children[i]
        } else {
            Trie::leaf(word[0])
        };
        lemma_insert_character(below, rest);
        law_insert_idempotent(below, rest);
        assert(once.children[i] == below.insert(rest));
        assert forall|j: int| 0 <= j < i implies (#[trigger] once.children[j]).character
            != word[0] by {
            assert(once.children[j] == t.children[j]);
        }
        lemma_position_is(once.children, word[0], i);
        assert(once.children.update(i, once.children[i].insert(rest)) =~= once.children);
    }
}

/// Adding a word that a tree with distinct children already accepts changes
/// nothing.
pub proof fn law_insert_present(t: Trie, word: Seq<char>)
    requires
        t.distinct(),
        t.accepts(word),
    ensures
        t.insert(word) == t,
    decreases word.len(),
{
    if word.len() > 0 {
        let i = position(t.children, word[0]);
        let rest = word.drop_first();
        lemma_position(t.children, word[0]);
        let j = choose|j: int|
            0 <= j < t.children.len() && (#[trigger] t.children[j]).character == word[0]
                && t.children[j].accepts(rest);
        assert(i <= j);
        if i < j {
            assert(t.children[i].character != t.children[j].character);
        }
        law_insert_present(t.children[i], rest);
        assert(t.children.update(i, t.children[i].insert(rest)) =~= t.children);
    }
}

/// A tree of letters accepts words of letters only.
pub proof fn lemma_lexical_accepts(t: Trie, word: Seq<char>)
    requires
        t.lexical(),
        t.accepts(word),
    ensures
        forall|k: int| 0 <= k < word.len() ==> is_letter(#[trigger] word[k]),
    decreases word.len(),
{
    if word.len() > 0 {
        let rest = word.drop_first();
        let i = choose|i: int|
            0 <= i < t.children.len() && (#[trigger] t.children[i]).character == word[0]
                && t.children[i].accepts(rest);
        lemma_lexical_accepts(t.children[i], rest);
        assert forall|k: int| 0 <= k < word.len() implies is_letter(#[trigger] word[k]) by {
            if k > 0 {
                assert(word[k] == rest[k - 1]);
            }
        }
    }
}

/// An accepted word has a path that marks it.
pub proof fn lemma_accepted_has_path(t: Trie, word: Seq<char>) -> (path: Seq<int>)
    requires
        t.accepts(word),
    ensures
        t.marks(path, word),
    decreases word.len(),
{
    if word.len() == 0 {
        Seq::empty()
    } else {
        let rest = word.drop_first();
        let i = choose|i: int|
            0 <= i < t.children.len() && (#[trigger] t.children[i]).character == word[0]
                && t.children[i].accepts(rest);
        let below = lemma_accepted_has_path(t.children[i], rest);
        let path = seq![i] + below;
        assert(path.drop_first() =~= below);
        path
    }
}

/// A word that a path marks is accepted.
pub proof fn lemma_path_is_accepted(t: Trie, path: Seq<int>, word: Seq<char>)
    requires
        t.marks(path, word),
    ensures
        t.accepts(word),
    decreases path.len(),
{
    if path.len() > 0 {
        lemma_path_is_accepted(t.children[path[0]], path.drop_first(), word.drop_first());
    }
}

/// Where the children of every node are distinct, two paths that mark the same
/// word are the same path.
pub proof fn lemma_path_unique(t: Trie, first: Seq<int>, second: Seq<int>, word: Seq<char>)
    requires
        t.distinct(),
        t.marks(first, word),
        t.marks(second, word),
    ensures
        first == second,
    decreases first.len(),
{
    if first.len() == 0 {
        assert(second.len() == 0);
        assert(first =~= second);
    } else {
        assert(second.len() > 0);
        let i = first[0];
        let j = second[0];
        if i < j {
            assert(t.children[i].character != t.children[j].character);
        }
        if j < i {
            assert(t.children[j].character != t.children[i].character);
        }
        lemma_path_unique(t.children[i], first.drop_first(), second.drop_first(), word.drop_first());
        assert(first =~= seq![i] + first.drop_first());
        assert(second =~= seq![j] + second.drop_first());
    }
}

/// The trie of a word list has distinct children everywhere, accepts the
/// words of the list and no others, and keeps the character of its root.
pub proof fn lemma_trie_of(root: char, words: Seq<Seq<char>>)
    ensures
        trie_of(root, words).distinct(),
        trie_of(root, words).character == root,
        forall|word: Seq<char>| #[trigger] trie_of(root, words).accepts(word) <==> words.contains(word),
    decreases words.len(),
{
    let t = trie_of(root, words);
    if words.len() == 0 {
        assert forall|word: Seq<char>| #[trigger] t.accepts(word) <==> words.contains(word) by {}
    } else {
        let before = trie_of(root, words.drop_last());
        let last = words.last();
        lemma_trie_of(root, words.drop_last());
        lemma_insert_distinct(before, last);
        lemma_insert_character(before, last);
        assert forall|word: Seq<char>| #[trigger] t.accepts(word) <==> words.contains(word) by {
            lemma_insert_accepts(before, last, word);
            if words.contains(word) {
                let k = choose|k: int| 0 <= k < words.len() && words[k] == word;
                if k < words.len() - 1 {
                    assert(words.drop_last()[k] == word);
                }
            }
            if words.drop_last().contains(word) {
                let k = choose|k: int| 0 <= k < words.drop_last().len() && words.drop_last()[k] == word;
                assert(words[k] == word);
            }
            if word == last {
                assert(words[words.len() - 1] == word);
            }
        }
    }
}

/// The trie of a list of words made of letters holds letters below its root.
pub proof fn lemma_trie_of_lexical(root: char, words: Seq<Seq<char>>)
    requires
        forall|k: int, i: int|
            0 <= k < words.len() && 0 <= i < words[k].len() ==> is_letter(#[trigger] words[k][i]),
    ensures
        trie_of(root, words).lexical(),
    decreases words.len(),
{
    if words.len() > 0 {
        let init = words.drop_last();
        assert forall|k: int, i: int| 0 <= k < init.len() && 0 <= i < init[k].len() implies is_letter(
            #[trigger] init[k][i],
        ) by {
            assert(init[k] == words[k]);
        }
        lemma_trie_of_lexical(root, init);
        lemma_insert_lexical(trie_of(root, init), words.last());
    }
}

/// Each word of the list is marked by exactly one path of the list's trie,
/// and a word that is not in the list by none.
pub proof fn law_round_trip(root: char, words: Seq<Seq<char>>, word: Seq<char>)
    ensures
        words.contains(word) ==> exists|path: Seq<int>|
            {
                &&& #[trigger] trie_of(root, words).marks(path, word)
                &&& forall|other: Seq<int>| #[trigger]
                    trie_of(root, words).marks(other, word) ==> other == path
            },
        !words.contains(word) ==> forall|path: Seq<int>| !#[trigger] trie_of(root, words).marks(
            path,
            word,
        ),
{
    let t = trie_of(root, words);
    lemma_trie_of(root, words);
    if words.contains(word) {
        assert(t.accepts(word));
        let path = lemma_accepted_has_path(t, word);
        assert forall|other: Seq<int>| #[trigger] t.marks(other, word) implies other == path by {
            lemma_path_unique(t, other, path, word);
        }
    } else {
        assert(!t.accepts(word));
        assert forall|path: Seq<int>| !#[trigger] t.marks(path, word) by {
            if t.marks(path, word) {
                lemma_path_is_accepted(t, path, word);
            }
        }
    }
}

/// A list in which a word stands twice in a row has the trie of the list in
/// which it stands once.
pub proof fn law_build_idempotent(root: char, words: Seq<Seq<char>>, word: Seq<char>)
    ensures
        trie_of(root, words.push(word).push(word)) == trie_of(root, words.push(word)),
{
    let once = words.push(word);
    let twice = once.push(word);
    assert(twice.drop_last() =~= once);
    law_insert_idempotent(trie_of(root, once.drop_last()), word);
}

/// A word that the list already holds can be added at its end without
/// changing the trie.
pub proof fn law_build_repeated(root: char, words: Seq<Seq<char>>, word: Seq<char>)
    requires
        words.contains(word),
    ensures
        trie_of(root, words.push(word)) == trie_of(root, words),
{
    lemma_trie_of(root, words);
    assert(words.push(word).drop_last() =~= words);
    law_insert_present(trie_of(root, words), word);
}

} // verus!
