use crate::text::{all_letters, is_letter, letter, views};
use crate::trie::{
    lemma_position_is, lemma_trie_of, lemma_trie_of_lexical, position, trie_of, Trie,
};
use vstd::prelude::*;

verus! {

/// The character of a trie's root. It stands for no letter and is never
/// compared with one.
pub const HEAD_CHARACTER: char = '_';

/// Each node in the trie represents a letter.
pub struct Letter {
    /// character representing the letter
    character: char,
    /// next possible letters
    children: Vec<Letter>,
    /// set true if this is the last letter of a word
    is_word: bool,
}

impl View for Letter {
    type V = Trie;

    open spec fn view(&self) -> Trie {
        self.trie()
    }
}

/// The trees that a sequence of nodes stands for, in order.
pub open spec fn forest(nodes: Seq<Letter>) -> Seq<Trie> {
    Seq::new(nodes.len(), |i: int| nodes[i]@)
}

impl Letter {
    /// The tree below this node, itself included.
    pub closed spec fn trie(self) -> Trie
        decreases self,
    {
        Trie {
            character: self.character,
            is_word: self.is_word,
            children: Seq::new(
                self.children@.len(),
                |i: int|
                    if 0 <= i < self.children@.len() {
                        self.children@[i].trie()
                    } else {
                        arbitrary()
                    },
            ),
        }
    }

    /// The view of a node, one level unfolded.
    proof fn lemma_view(self)
        ensures
            self@ == (Trie {
                character: self.character,
                is_word: self.is_word,
                children: forest(self.children@),
            }),
    {
        assert(self@.children.len() == self.children@.len());
        assert forall|i: int| 0 <= i < self.children@.len() implies self@.children[i]
            == self.children@[i]@ by {}
        assert(self@.children =~= forest(self.children@));
    }

    /// Construct the `Letter` by setting the `character`.
    pub fn new(character: char) -> (letter: Self)
        ensures
            letter@ == Trie::leaf(character),
    {
        let letter = Letter { character: character, children: vec![], is_word: false };
        proof {
            letter.lemma_view();
            assert(forest(letter.children@) =~= Seq::empty());
        }
        letter
    }

    /// Returns the character of the current `Letter`.
    pub fn character(&self) -> (c: char)
        ensures
            c == self@.character,
    {
        self.character
    }

    /// Returns the mutable list of the next possible `Letter`s. Whatever the
    /// caller leaves in the list is what stands below this node afterwards.
    pub fn children_mut(&mut self) -> (children: &mut Vec<Letter>)
        ensures
            forest(children@) == old(self)@.children,
            final(self)@ == (Trie { children: forest(final(children)@), ..old(self)@ }),
    {
        proof {
            self.lemma_view();
            final(self).lemma_view();
        }
        &mut self.children
    }

    /// Returns the list of the next possible `Letter`s.
    pub fn children(&self) -> (children: &Vec<Letter>)
        ensures
            forest(children@) == self@.children,
    {
        proof {
            self.lemma_view();
        }
        &self.children
    }

    /// Sets whether this is the last letter of a word.
    pub fn set_word(&mut self, is_word: bool)
        ensures
            final(self)@ == (Trie { is_word, ..old(self)@ }),
    {
        proof {
            self.lemma_view();
        }
        self.is_word = is_word;
        proof {
            self.lemma_view();
        }
    }

    /// Returns whether this is the last letter of a word.
    pub fn is_word(&self) -> (b: bool)
        ensures
            b == self@.is_word,
    {
        self.is_word
    }

    /// Whether every node below this one holds a letter: what a search asks
    /// of its trie.
    pub fn is_lexical(&self) -> (b: bool)
        ensures
            b == self@.lexical(),
        decreases self,
    {
        proof {
            self.lemma_view();
        }
        let n = self.children.len();
        let mut i: usize = 0;
        while i < n
            invariant
                n == self.children@.len(),
                i <= n,
                self@.children == forest(self.children@),
                forall|j: int|
                    0 <= j < i ==> is_letter((#[trigger] self@.children[j]).character)
                        && self@.children[j].lexical(),
            decreases n - i,
        {
            let child = &self.children[i];
            if !letter(child.character) || !child.is_lexical() {
                assert(self@.children[i as int] == child@);
                return false;
            }
            assert(self@.children[i as int] == child@);
            i = i + 1;
        }
        true
    }
}

/// Creates the trie of a list of words.
///
/// Returns the head of the trie: the tree that comes of adding the words one
/// after the other below a root that holds `HEAD_CHARACTER`. No two children
/// of a node hold the same character, the words that the trie accepts are
/// those of the list, and words made of letters give a trie of letters.
pub fn build_trie(words: &Vec<String>) -> (head: Letter)
    ensures
        head@ == trie_of(HEAD_CHARACTER, views(words@)),
        head@.character == HEAD_CHARACTER,
        head@.distinct(),
        forall|word: Seq<char>| #[trigger] head@.accepts(word) <==> views(words@).contains(word),
        (forall|k: int| 0 <= k < words@.len() ==> all_letters(#[trigger] words@[k]@))
            ==> head@.lexical(),
{
    let mut head = Letter::new(HEAD_CHARACTER);
    let n = words.len();
    assert(views(words@).take(0) =~= Seq::empty());
    for k in 0..n
        invariant
            n == words@.len(),
            head@ == trie_of(HEAD_CHARACTER, views(words@).take(k as int)),
    {
        proof {
            let list = views(words@).take(k + 1);
            assert(list.drop_last() =~= views(words@).take(k as int));
            assert(list.last() == words@[k as int]@);
        }
        build_node(&words[k], &mut head);
    }
    proof {
        let list = views(words@);
        assert(list.take(n as int) =~= list);
        lemma_trie_of(HEAD_CHARACTER, list);
        if forall|k: int| 0 <= k < words@.len() ==> all_letters(#[trigger] words@[k]@) {
            assert forall|k: int, i: int|
                0 <= k < list.len() && 0 <= i < list[k].len() implies is_letter(
                #[trigger] list[k][i],
            ) by {
                assert(all_letters(words@[k]@));
            }
            lemma_trie_of_lexical(HEAD_CHARACTER, list);
        }
    }
    head
}

/// Inserts the `word` in the trie of `Letter`s.
pub fn build_node(word: &String, head: &mut Letter)
    ensures
        final(head)@ == old(head)@.insert(word@),
{
    let ghost goal = old(head)@.insert(word@);
    let mut parent = head;
    assert(word@.skip(0) =~= word@);
    for c in it: word.as_str().chars()
        invariant
            it.seq() == word@,
            final(parent)@ == parent@.insert(word@.skip(it.index() as int)) ==> final(head)@
                == goal,
    {
        let ghost rest = word@.skip(it.index() as int);
        assert(rest.len() > 0 && rest[0] == c);
        assert(rest.drop_first() =~= word@.skip(it.index() + 1));
        let old_parent = parent;
        parent = find_or_insert_node(c, old_parent);
    }
    parent.set_word(true);
}

/// Finds the `Letter` containing the `character` or creates it and inserts it
/// in the trie.
///
/// The node returned is the first child that holds `character`, or a new last
/// child; what the caller makes of it is what stands at that place below
/// `parent` afterwards.
pub fn find_or_insert_node(character: char, parent: &mut Letter) -> (node: &mut Letter)
    ensures
        node@ == (if position(old(parent)@.children, character) < old(parent)@.children.len() {
            old(parent)@.children[position(old(parent)@.children, character)]
        } else {
            Trie::leaf(character)
        }),
        final(parent)@ == (Trie {
            children: if position(old(parent)@.children, character) < old(parent)@.children.len() {
                old(parent)@.children.update(
                    position(old(parent)@.children, character),
                    final(node)@,
                )
            } else {
                old(parent)@.children.push(final(node)@)
            },
            ..old(parent)@
        }),
{
    proof {
        parent.lemma_view();
    }
    let n = parent.children.len();
    let mut i: usize = 0;
    while i < n && parent.children[i].character != character
        invariant
            n == parent.children@.len(),
            i <= n,
            *parent == *old(parent),
            forall|j: int| 0 <= j < i ==> (#[trigger] parent.children@[j]).character != character,
        decreases n - i,
    {
        i = i + 1;
    }
    proof {
        assert forall|j: int| 0 <= j < i implies (#[trigger] parent@.children[j]).character
            != character by {
            parent.children@[j].lemma_view();
        }
        if i < n {
            parent.children@[i as int].lemma_view();
        }
        lemma_position_is(parent@.children, character, i as int);
    }
    if i == n {
        parent.children.push(Letter::new(character));
    }
    let ghost kids = parent.children@;
    let ghost before = old(parent)@.children;
    proof {
        parent.lemma_view();
        final(parent).lemma_view();
        assert(forest(kids) =~= if i == n {
            old(parent)@.children.push(Trie::leaf(character))
        } else {
            old(parent)@.children
        });
    }
    let node = &mut parent.children[i];
    proof {
        let after = forest(kids.update(i as int, *final(node)));
        if i < before.len() {
            assert(after =~= before.update(i as int, final(node)@));
        } else {
            assert(after =~= before.push(final(node)@));
        }
    }
    node
}

} // verus!
