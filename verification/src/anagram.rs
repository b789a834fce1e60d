use crate::digest::{md5_digest, md5_hex};
use crate::search::{law_found_matches, law_found_once, Hit, Search};
use crate::text::{
    alphabetic, alphabetics, count_words, is_letter, lemma_alphabetics_count,
    lemma_alphabetics_prefix, lemma_remove_value, remove_first, same,
};
use crate::word::{forest, Letter};
use vstd::prelude::*;

verus! {

/// The character sequences of a list of string slices, in order.
pub open spec fn slices(list: Seq<&str>) -> Seq<Seq<char>> {
    Seq::new(list.len(), |i: int| list[i]@)
}

/// The letter-consumption rule: a character that is not alphabetic is had for
/// nothing; an alphabetic one takes its first occurrence out of `remaining`,
/// and fails where there is none.
pub open spec fn consume(c: char, remaining: Seq<char>) -> Option<Seq<char>> {
    if !alphabetic(c) {
        Some(remaining)
    } else if remaining.contains(c) {
        Some(remaining.remove_value(c))
    } else {
        None
    }
}

/// What a list of found texts holds, as plain values.
pub open spec fn pairs(found: Seq<(String, String)>) -> Seq<Hit> {
    Seq::new(found.len(), |i: int| (found[i].0@, found[i].1@))
}

/// Configuration used to search for the anagrams.
pub struct AnagramFinder<'a> {
    /// head of the trie of `Letter`s
    head: &'a Letter,
    /// the phrase to search anagrams of, as it was given
    phrase: &'a str,
    /// list of the accepted hashes
    hashes: &'a [&'a str],
    /// maximum words in an anagram
    max_words: usize,
}

impl<'a> View for AnagramFinder<'a> {
    type V = Search;

    closed spec fn view(&self) -> Search {
        Search {
            root: self.head@,
            phrase: self.phrase@,
            hashes: slices(self.hashes@),
            max_words: self.max_words as nat,
        }
    }
}

impl<'a> AnagramFinder<'a> {
    /// Constructs and configures the search of anagrams.
    pub fn new(head: &'a Letter, phrase: &'a str, hashes: &'a [&'a str], max_words: usize) -> (finder:
        AnagramFinder<'a>)
        ensures
            finder@ == (Search {
                root: head@,
                phrase: phrase@,
                hashes: slices(hashes@),
                max_words: max_words as nat,
            }),
    {
        AnagramFinder { head: head, phrase: phrase, hashes: hashes, max_words: max_words }
    }

    /// Verifies if the letters of `input` are contained in a `phrase`: whether
    /// the alphabetic characters of `input`, each counted as often as it
    /// occurs, are among those of `phrase`. Other characters of `input` are
    /// passed over, and the order of the characters plays no part.
    pub fn contain_str(input: &str, phrase: &str) -> (contained: bool)
        ensures
            contained <==> alphabetics(input@).to_multiset().subset_of(alphabetics(phrase@).to_multiset()),
    {
        let mut word = phrase.to_owned();
        proof {
            broadcast use vstd::multiset::group_multiset_axioms;

            assert(input@.take(0) =~= Seq::empty());
            assert(alphabetics(Seq::empty()) =~= Seq::empty());
            Seq::<char>::empty().to_multiset_ensures();
            assert(word@.to_multiset().add(alphabetics(input@.take(0)).to_multiset())
                =~= phrase@.to_multiset());
        }
        for c in it: input.chars()
            invariant
                it.seq() == input@,
                word@.to_multiset().add(alphabetics(input@.take(it.index() as int)).to_multiset())
                    == phrase@.to_multiset(),
        {
            let ghost k = it.index() as int;
            let ghost seen = alphabetics(input@.take(k));
            proof {
                assert(input@.take(k + 1) =~= input@.take(k).push(c));
                Seq::lemma_filter_push(input@.take(k), c, |c: char| alphabetic(c));
            }
            if c.is_alphabetic() {
                match remove_first(word.as_str(), c) {
                    Some(rest) => {
                        proof {
                            broadcast use vstd::multiset::group_multiset_axioms;

                            lemma_remove_value(word@, c);
                            vstd::seq_lib::to_multiset_build(seen, c);
                            assert(rest@.to_multiset().add(seen.push(c).to_multiset())
                                =~= word@.to_multiset().add(seen.to_multiset()));
                        }
                        word = rest;
                    },
                    None => {
                        proof {
                            broadcast use vstd::multiset::group_multiset_axioms;

                            word@.to_multiset_ensures();
                            vstd::seq_lib::to_multiset_build(seen, c);
                            lemma_alphabetics_prefix(input@, k + 1, c);
                            lemma_alphabetics_count(phrase@, c);
                            assert(word@.to_multiset().count(c) == 0);
                            assert(seen.to_multiset().count(c) == phrase@.to_multiset().count(c));
                            assert(alphabetics(input@).to_multiset().count(c) > alphabetics(
                                phrase@,
                            ).to_multiset().count(c));
                        }
                        return false;
                    },
                }
            }
        }
        proof {
            broadcast use vstd::multiset::group_multiset_axioms;

            assert(input@.take(input@.len() as int) =~= input@);
            assert forall|v: char|
                alphabetics(input@).to_multiset().count(v) <= alphabetics(phrase@).to_multiset().count(
                    v,
                ) by {
                lemma_alphabetics_count(input@, v);
                lemma_alphabetics_count(phrase@, v);
            }
        }
        true
    }

    /// Verifies if a letter is contained in a `phrase`.
    ///
    /// Returns a clone of the phrase without the first occurrence of
    /// `character`, or `None` when the `character` isn't contained. A
    /// `character` that is not alphabetic is had for nothing: the clone is the
    /// whole phrase.
    pub fn contain_char(character: char, phrase: &String) -> (remaining: Option<String>)
        ensures
            match remaining {
                Some(remaining) => consume(character, phrase@) == Some(remaining@),
                None => consume(character, phrase@) is None,
            },
    {
        if !character.is_alphabetic() {
            return Some(phrase.clone());
        }
        remove_first(phrase.as_str(), character)
    }

    /// Searches for the anagrams having one of the specified hashes, over a
    /// trie of letters.
    ///
    /// Each anagram comes with its hash, as a tuple `(anagram, hash)`. The
    /// list holds the matches and nothing else: the texts of the anagrams of
    /// the phrase whose digest is accepted, each with that digest. They stand
    /// in the order of the traversal, and each stands once if no two children
    /// of a node of the trie hold the same character.
    ///
    /// The phrase is taken as it is, and every character of it has to be
    /// used up: separators are for the caller to take out beforehand.
    pub fn search(&mut self) -> (found: Vec<(String, String)>)
        requires
            old(self)@.root.lexical(),
        ensures
            final(self)@ == old(self)@,
            pairs(found@) == old(self)@.found(),
            forall|hit: Hit| #[trigger] pairs(found@).contains(hit) <==> old(self)@.is_match(hit),
            old(self)@.root.distinct() ==> pairs(found@).no_duplicates(),
    {
        let phrase = self.phrase.to_owned();
        let mut found: Vec<(String, String)> = Vec::new();
        assert(pairs(found@) =~= Seq::empty());
        self.combine(self.head, &String::new(), &phrase, &mut found);
        proof {
            assert forall|hit: Hit| #[trigger]
                pairs(found@).contains(hit) <==> self@.is_match(hit) by {
                law_found_matches(self@, hit);
            }
            if self@.root.distinct() {
                law_found_once(self@);
            }
        }
        found
    }

    /// Searches as `search` does if the trie is one of letters, and does
    /// nothing if it is not.
    pub fn search_tested(&mut self) -> (found: Option<Vec<(String, String)>>)
        ensures
            final(self)@ == old(self)@,
            match found {
                Some(found) => {
                    &&& old(self)@.root.lexical()
                    &&& pairs(found@) == old(self)@.found()
                    &&& forall|hit: Hit| #[trigger]
                        pairs(found@).contains(hit) <==> old(self)@.is_match(hit)
                    &&& old(self)@.root.distinct() ==> pairs(found@).no_duplicates()
                },
                None => !old(self)@.root.lexical(),
            },
    {
        if self.head.is_lexical() {
            Some(self.search())
        } else {
            None
        }
    }

    /// The recursive method `combine` constructs the anagrams by adding one
    /// character to the prefix: it follows each child of `parent` in turn, as
    /// `extend` does, and adds what is found to `found`.
    ///
    /// # Arguments
    ///
    /// * `parent` - Previous `Letter` containing the last accepted character for the current word
    /// * `prefix` - Accepted String. Can also be seen as the path when traversing the tree
    /// * `phrase` - Remaining characters that are not consumed
    /// * `found` - Anagrams are added behind those that it holds
    pub fn combine(
        &self,
        parent: &Letter,
        prefix: &String,
        phrase: &String,
        found: &mut Vec<(String, String)>,
    )
        requires
            self@.root.lexical(),
            parent@.lexical(),
        ensures
            pairs(final(found)@) == pairs(old(found)@) + self@.found_below(
                parent@.children,
                prefix@,
                phrase@,
            ),
        decreases phrase@.len(), 1nat,
    {
        let children = parent.children();
        let n = children.len();
        assert(parent@.children.take(0) =~= Seq::empty());
        for i in 0..n
            invariant
                n == children@.len(),
                forest(children@) == parent@.children,
                self@.root.lexical(),
                parent@.lexical(),
                pairs(found@) == pairs(old(found)@) + self@.found_below(
                    parent@.children.take(i as int),
                    prefix@,
                    phrase@,
                ),
        {
            let node = &children[i];
            proof {
                let upto = parent@.children.take(i + 1);
                assert(upto.drop_last() =~= parent@.children.take(i as int));
                assert(upto.last() == node@);
            }
            self.extend(node, prefix, phrase, found);
        }
        assert(parent@.children.take(n as int) =~= parent@.children);
    }

    /// One branch of `combine`: the text goes on with the letter of `node`,
    /// if that letter remains in `phrase`.
    ///
    /// With the last letter used at the end of a word the candidate is
    /// complete, and is added to `found` if its hash is accepted. With
    /// letters left the word goes on below `node`; where a word ends at
    /// `node` and the candidate has fewer words than the maximum, a further
    /// word starts at the head of the trie as well.
    pub fn extend(
        &self,
        node: &Letter,
        prefix: &String,
        phrase: &String,
        found: &mut Vec<(String, String)>,
    )
        requires
            self@.root.lexical(),
            is_letter(node@.character),
            node@.lexical(),
        ensures
            pairs(final(found)@) == pairs(old(found)@) + self@.found_through(
                node@,
                prefix@,
                phrase@,
            ),
        decreases phrase@.len(), 0nat,
    {
        let ghost before = pairs(found@);
        let ghost through = self@.found_through(node@, prefix@, phrase@);
        proof {
            if phrase@.contains(node@.character) {
                lemma_remove_value(phrase@, node@.character);
            }
        }
        match Self::contain_char(node.character(), phrase) {
            // a character can be consumed
            Some(remaining_phrase) => {
                // add the character to construct the anagram candidate
                let mut candidate = prefix.clone();
                candidate.push(node.character());

                if remaining_phrase.as_str().is_empty() && node.is_word() {
                    // verify hash of the candidate is one of hashes list
                    match self.verify(candidate.as_str()) {
                        Some(hash) => {
                            // found an anagram
                            found.push((candidate, hash));
                        },
                        None => (),
                    }
                } else if !remaining_phrase.as_str().is_empty() {
                    self.combine(node, &candidate, &remaining_phrase, found);

                    let word_count = count_words(candidate.as_str());

                    if node.is_word() && word_count < self.max_words {
                        candidate.push(' ');
                        self.combine(self.head, &candidate, &remaining_phrase, found);
                    }
                }
            },
            None => (),
        };
        assert(pairs(found@) =~= before + through);
    }

    /// Hands `digest` back if it is one of the provided hashes, character by
    /// character, and `None` if not.
    pub fn accept(&self, digest: String) -> (accepted: Option<String>)
        ensures
            accepted == if self@.hashes.contains(digest@) {
                Some(digest)
            } else {
                None
            },
    {
        let n = self.hashes.len();
        let mut i: usize = 0;
        while i < n
            invariant
                n == self.hashes@.len(),
                i <= n,
                forall|j: int| 0 <= j < i ==> self@.hashes[j] != digest@,
            decreases n - i,
        {
            if same(digest.as_str(), self.hashes[i]) {
                assert(self@.hashes[i as int] == digest@);
                return Some(digest);
            }
            i = i + 1;
        }
        None
    }

    /// Verifies if the hash of the phrase is one of the provided hashes.
    ///
    /// Returns the hash `String` if found or `None` if not. The hash is the
    /// MD5 digest of the phrase in hexadecimal digits, and is compared with
    /// the provided ones character by character.
    pub fn verify(&self, phrase: &str) -> (hash: Option<String>)
        ensures
            match hash {
                Some(hash) => hash@ == md5_hex(phrase@) && self@.hashes.contains(hash@),
                None => !self@.hashes.contains(md5_hex(phrase@)),
            },
    {
        let result = md5_digest(phrase);
        self.accept(result)
    }
}

} // verus!
