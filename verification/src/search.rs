use crate::digest::md5_hex;
use crate::text::{
    all_letters, alphabetic, alphabetics, is_blank, is_letter, join, lemma_alphabetics_are_letters,
    lemma_alphabetics_count, lemma_join_push, lemma_join_start, lemma_letters_all,
    lemma_letters_join, lemma_remove_value, lemma_spell_count, lemma_spell_front,
    lemma_spell_letters, lemma_word_count_join, letters, spell, word_count,
};
use crate::trie::{lemma_lexical_accepts, Trie};
use vstd::prelude::*;

verus! {

/// What a search is configured with, as plain values.
pub ghost struct Search {
    /// the dictionary
    pub root: Trie,
    /// the phrase: what an anagram has to use up, character by character
    pub phrase: Seq<char>,
    /// the digests that are looked for
    pub hashes: Seq<Seq<char>>,
    /// the most words that an anagram may have
    pub max_words: nat,
}

/// A text that was found, with its digest.
pub type Hit = (Seq<char>, Seq<char>);

impl Search {
    /// Whether `words` is an anagram of the phrase: at least one word, no
    /// more than `max_words` unless it is a single one, each of them a word of
    /// the dictionary, and together they hold what the phrase holds, each
    /// character as often. Nothing of the phrase is passed over: a phrase
    /// that holds a separator, or anything else that no word holds, has no
    /// anagram.
    pub open spec fn is_anagram(self, words: Seq<Seq<char>>) -> bool {
        &&& words.len() >= 1
        &&& words.len() == 1 || words.len() <= self.max_words
        &&& forall|i: int|
            0 <= i < words.len() ==> (#[trigger] words[i]).len() > 0 && self.root.accepts(words[i])
        &&& spell(words).to_multiset() == self.phrase.to_multiset()
    }

    /// Whether `hit` is what the search looks for: the text of an anagram,
    /// its words joined by single spaces, with the digest of that text, which
    /// is one of the accepted digests.
    pub open spec fn is_match(self, hit: Hit) -> bool {
        &&& hit.1 == md5_hex(hit.0)
        &&& self.hashes.contains(hit.1)
        &&& exists|words: Seq<Seq<char>>| #[trigger] self.is_anagram(words) && hit.0 == join(words)
    }

    /// What the traversal finds through `children`, one after the other, with
    /// `prefix` assembled and `remaining` still to use up.
    pub open spec fn found_below(
        self,
        children: Seq<Trie>,
        prefix: Seq<char>,
        remaining: Seq<char>,
    ) -> Seq<Hit>
        decreases remaining.len(), children.len(),
    {
        if children.len() == 0 {
            Seq::empty()
        } else {
            self.found_below(children.drop_last(), prefix, remaining) + self.found_through(
                children.last(),
                prefix,
                remaining,
            )
        }
    }

    /// What the traversal finds through `node`, whose letter is the next of
    /// the text. A letter that does not remain ends the branch. Else it is
    /// used up. With nothing left, the text is complete if a word ends at
    /// `node`, and is a hit if its digest is accepted. With something left,
    /// the word goes on below `node`, and where a word ends at `node` and the
    /// text has fewer than `max_words` words, a new word starts at the root.
    pub open spec fn found_through(self, node: Trie, prefix: Seq<char>, remaining: Seq<char>) -> Seq<
        Hit,
    >
        decreases remaining.len(), 0nat,
    {
        if !remaining.contains(node.character) {
            Seq::empty()
        } else {
            let rest = remaining.remove_value(node.character);
            let candidate = prefix.push(node.character);
            proof {
                lemma_remove_value(remaining, node.character);
            }
            if rest.len() == 0 {
                if node.is_word && self.hashes.contains(md5_hex(candidate)) {
                    seq![(candidate, md5_hex(candidate))]
                } else {
                    Seq::empty()
                }
            } else {
                self.found_below(node.children, candidate, rest) + if node.is_word && word_count(
                    candidate,
                ) < self.max_words {
                    self.found_below(self.root.children, candidate.push(' '), rest)
                } else {
                    Seq::empty()
                }
            }
        }
    }

    /// What the whole search finds, in the order of the traversal.
    pub open spec fn found(self) -> Seq<Hit> {
        self.found_below(self.root.children, Seq::empty(), self.phrase)
    }

    /// Where the traversal stands when it looks at the children of `node`:
    /// `prefix` is the words `done` and the start `partial` of a further one,
    /// joined by spaces; the words are dictionary words of letters; whatever
    /// `node` accepts completes `partial` to a dictionary word; what was used
    /// and what remains make up the phrase; and the word under way is within
    /// the limit.
    pub open spec fn stands(
        self,
        done: Seq<Seq<char>>,
        partial: Seq<char>,
        node: Trie,
        prefix: Seq<char>,
        remaining: Seq<char>,
    ) -> bool {
        &&& prefix == join(done.push(partial))
        &&& forall|i: int|
            0 <= i < done.len() ==> (#[trigger] done[i]).len() > 0 && all_letters(done[i])
                && self.root.accepts(done[i])
        &&& all_letters(partial)
        &&& node.lexical()
        &&& forall|tail: Seq<char>| #[trigger]
            node.accepts(tail) ==> self.root.accepts(partial + tail)
        &&& (spell(done) + partial).to_multiset().add(remaining.to_multiset())
            == self.phrase.to_multiset()
        &&& done.len() == 0 || done.len() < self.max_words
    }
}

/// What is in one of two sequences is in both put together, and nothing
/// else is.
proof fn lemma_either(first: Seq<Hit>, second: Seq<Hit>, hit: Hit)
    ensures
        (first + second).contains(hit) <==> first.contains(hit) || second.contains(hit),
{
    if first.contains(hit) {
        let i = choose|i: int| 0 <= i < first.len() && first[i] == hit;
        assert((first + second)[i] == hit);
    }
    if second.contains(hit) {
        let i = choose|i: int| 0 <= i < second.len() && second[i] == hit;
        assert((first + second)[first.len() + i] == hit);
    }
    if (first + second).contains(hit) {
        let i = choose|i: int| 0 <= i < (first + second).len() && (first + second)[i] == hit;
        if i < first.len() {
            assert(first[i] == hit);
        } else {
            assert(second[i - first.len()] == hit);
        }
    }
}

/// What is found through one of the children is found below them.
proof fn lemma_below_includes(
    s: Search,
    children: Seq<Trie>,
    i: int,
    prefix: Seq<char>,
    remaining: Seq<char>,
    hit: Hit,
)
    requires
        0 <= i < children.len(),
        s.found_through(children[i], prefix, remaining).contains(hit),
    ensures
        s.found_below(children, prefix, remaining).contains(hit),
    decreases children.len(),
{
    let init = children.drop_last();
    lemma_either(
        s.found_below(init, prefix, remaining),
        s.found_through(children.last(), prefix, remaining),
        hit,
    );
    if i < children.len() - 1 {
        assert(init[i] == children[i]);
        lemma_below_includes(s, init, i, prefix, remaining, hit);
    }
}

/// The step from a node to its child `i`, whose letter remains: the
/// traversal then stands at the child, with the letter used.
proof fn lemma_step(
    s: Search,
    done: Seq<Seq<char>>,
    partial: Seq<char>,
    parent: Trie,
    i: int,
    prefix: Seq<char>,
    remaining: Seq<char>,
)
    requires
        s.stands(done, partial, parent, prefix, remaining),
        0 <= i < parent.children.len(),
        remaining.contains(parent.children[i].character),
    ensures
        is_letter(parent.children[i].character),
        s.stands(
            done,
            partial.push(parent.children[i].character),
            parent.children[i],
            prefix.push(parent.children[i].character),
            remaining.remove_value(parent.children[i].character),
        ),
        remaining.remove_value(parent.children[i].character).len() == remaining.len() - 1,
{
    broadcast use vstd::multiset::group_multiset_axioms;

    let node = parent.children[i];
    let c = node.character;
    let longer = partial.push(c);
    let rest = remaining.remove_value(c);
    lemma_remove_value(remaining, c);
    lemma_join_push(done, partial, c);
    assert forall|tail: Seq<char>| #[trigger] node.accepts(tail) implies s.root.accepts(
        longer + tail,
    ) by {
        let whole = seq![c] + tail;
        assert(whole[0] == c);
        assert(whole.drop_first() =~= tail);
        assert(parent.accepts(whole));
        assert(partial + whole =~= longer + tail);
    }
    assert(spell(done) + longer =~= (spell(done) + partial).push(c));
    vstd::seq_lib::to_multiset_build(spell(done) + partial, c);
    assert((spell(done) + longer).to_multiset().add(rest.to_multiset()) =~= (spell(done)
        + partial).to_multiset().add(remaining.to_multiset()));
}

/// The step from a node where a word ends to the root, for a further word:
/// the traversal then stands at the root, with the word among those done.
proof fn lemma_restart(
    s: Search,
    done: Seq<Seq<char>>,
    partial: Seq<char>,
    node: Trie,
    prefix: Seq<char>,
    remaining: Seq<char>,
)
    requires
        s.root.lexical(),
        s.stands(done, partial, node, prefix, remaining),
        partial.len() > 0,
        node.is_word,
    ensures
        word_count(prefix) == done.len() + 1,
        word_count(prefix) < s.max_words ==> s.stands(
            done.push(partial),
            Seq::empty(),
            s.root,
            prefix.push(' '),
            remaining,
        ),
{
    let longer = done.push(partial);
    assert forall|i: int| 0 <= i < longer.len() implies (#[trigger] longer[i]).len() > 0
        && all_letters(longer[i]) && s.root.accepts(longer[i]) by {
        if i < done.len() {
            assert(longer[i] == done[i]);
        } else {
            assert(node.accepts(Seq::empty()));
            assert(partial + Seq::<char>::empty() =~= partial);
        }
    }
    lemma_word_count_join(longer);
    lemma_join_start(longer);
    assert(longer.drop_last() =~= done);
    assert(spell(longer) + Seq::<char>::empty() =~= spell(done) + partial);
    assert forall|tail: Seq<char>| #[trigger] s.root.accepts(tail) implies s.root.accepts(
        Seq::<char>::empty() + tail,
    ) by {
        assert(Seq::<char>::empty() + tail =~= tail);
    }
}

/// Whatever the traversal finds below the first `k` children of a node at
/// which it stands is a match.
proof fn lemma_below_sound(
    s: Search,
    done: Seq<Seq<char>>,
    partial: Seq<char>,
    node: Trie,
    k: int,
    prefix: Seq<char>,
    remaining: Seq<char>,
    hit: Hit,
)
    requires
        s.root.lexical(),
        s.stands(done, partial, node, prefix, remaining),
        0 <= k <= node.children.len(),
        s.found_below(node.children.take(k), prefix, remaining).contains(hit),
    ensures
        s.is_match(hit),
    decreases remaining.len(), k,
{
    if k > 0 {
        let upto = node.children.take(k);
        assert(upto.drop_last() =~= node.children.take(k - 1));
        assert(upto.last() == node.children[k - 1]);
        let earlier = s.found_below(node.children.take(k - 1), prefix, remaining);
        let through = s.found_through(node.children[k - 1], prefix, remaining);
        lemma_either(earlier, through, hit);
        if earlier.contains(hit) {
            lemma_below_sound(s, done, partial, node, k - 1, prefix, remaining, hit);
        } else {
            lemma_through_sound(s, done, partial, node, k - 1, prefix, remaining, hit);
        }
    }
}

/// Whatever the traversal finds through a child of a node at which it stands
/// is a match.
proof fn lemma_through_sound(
    s: Search,
    done: Seq<Seq<char>>,
    partial: Seq<char>,
    parent: Trie,
    i: int,
    prefix: Seq<char>,
    remaining: Seq<char>,
    hit: Hit,
)
    requires
        s.root.lexical(),
        s.stands(done, partial, parent, prefix, remaining),
        0 <= i < parent.children.len(),
        s.found_through(parent.children[i], prefix, remaining).contains(hit),
    ensures
        s.is_match(hit),
    decreases remaining.len(), 0int,
{
    broadcast use vstd::multiset::group_multiset_axioms;

    let node = parent.children[i];
    let c = node.character;
    let rest = remaining.remove_value(c);
    let candidate = prefix.push(c);
    let longer = partial.push(c);
    lemma_step(s, done, partial, parent, i, prefix, remaining);
    if rest.len() == 0 {
        let words = done.push(longer);
        assert(hit == (candidate, md5_hex(candidate)));
        assert(node.accepts(Seq::empty()));
        assert(longer + Seq::<char>::empty() =~= longer);
        assert(words.drop_last() =~= done);
        assert(rest =~= Seq::empty());
        rest.to_multiset_ensures();
        assert(spell(words).to_multiset() =~= spell(words).to_multiset().add(rest.to_multiset()));
        assert forall|j: int| 0 <= j < words.len() implies (#[trigger] words[j]).len() > 0
            && s.root.accepts(words[j]) by {
            if j < done.len() {
                assert(words[j] == done[j]);
            }
        }
        assert(s.is_anagram(words));
    } else {
        let onward = s.found_below(node.children, candidate, rest);
        let split = node.is_word && word_count(candidate) < s.max_words;
        let fresh = if split {
            s.found_below(s.root.children, candidate.push(' '), rest)
        } else {
            Seq::empty()
        };
        lemma_either(onward, fresh, hit);
        if onward.contains(hit) {
            assert(node.children.take(node.children.len() as int) =~= node.children);
            lemma_below_sound(
                s,
                done,
                longer,
                node,
                node.children.len() as int,
                candidate,
                rest,
                hit,
            );
        } else {
            assert(split);
            lemma_restart(s, done, longer, node, candidate, rest);
            assert(s.root.children.take(s.root.children.len() as int) =~= s.root.children);
            lemma_below_sound(
                s,
                done.push(longer),
                Seq::empty(),
                s.root,
                s.root.children.len() as int,
                candidate.push(' '),
                rest,
                hit,
            );
        }
    }
}

/// The traversal finds every text that goes on from where it stands: with
/// `tail` the rest of the word under way and `more` the words behind it, all
/// of the dictionary, that use up what remains and keep within the limit.
proof fn lemma_below_complete(
    s: Search,
    done: Seq<Seq<char>>,
    partial: Seq<char>,
    node: Trie,
    prefix: Seq<char>,
    remaining: Seq<char>,
    tail: Seq<char>,
    more: Seq<Seq<char>>,
)
    requires
        s.root.lexical(),
        s.stands(done, partial, node, prefix, remaining),
        tail.len() > 0,
        node.accepts(tail),
        forall|j: int| 0 <= j < more.len() ==> (#[trigger] more[j]).len() > 0 && s.root.accepts(more[j]),
        (tail + spell(more)).to_multiset() == remaining.to_multiset(),
        done.len() + 1 + more.len() == 1 || done.len() + 1 + more.len() <= s.max_words,
        s.hashes.contains(md5_hex(join(done.push(partial + tail) + more))),
    ensures
        s.found_below(node.children, prefix, remaining).contains(
            (join(done.push(partial + tail) + more), md5_hex(join(done.push(partial + tail) + more))),
        ),
    decreases remaining.len(),
{
    broadcast use vstd::multiset::group_multiset_axioms;

    let text = join(done.push(partial + tail) + more);
    let hit = (text, md5_hex(text));
    let shorter = tail.drop_first();
    let i = choose|i: int|
        0 <= i < node.children.len() && (#[trigger] node.children[i]).character == tail[0]
            && node.children[i].accepts(shorter);
    let child = node.children[i];
    let c = child.character;
    let rest = remaining.remove_value(c);
    let candidate = prefix.push(c);
    let longer = partial.push(c);
    let ahead = tail + spell(more);
    assert(ahead[0] == c);
    ahead.to_multiset_ensures();
    remaining.to_multiset_ensures();
    assert(ahead.to_multiset().count(c) > 0);
    assert(remaining.contains(c));
    lemma_step(s, done, partial, node, i, prefix, remaining);
    lemma_remove_value(remaining, c);
    vstd::seq_lib::to_multiset_remove(ahead, 0);
    assert(ahead.remove(0) =~= shorter + spell(more));
    assert((shorter + spell(more)).to_multiset() == rest.to_multiset());
    (shorter + spell(more)).to_multiset_ensures();
    rest.to_multiset_ensures();
    assert(partial + tail =~= longer + shorter);
    let onward = s.found_below(child.children, candidate, rest);
    let split = child.is_word && word_count(candidate) < s.max_words;
    let fresh = if split {
        s.found_below(s.root.children, candidate.push(' '), rest)
    } else {
        Seq::empty()
    };
    if shorter.len() > 0 {
        assert(rest.len() > 0);
        lemma_below_complete(s, done, longer, child, candidate, rest, shorter, more);
        lemma_either(onward, fresh, hit);
    } else if more.len() == 0 {
        assert(shorter + spell(more) =~= Seq::empty());
        assert(rest.len() == 0);
        assert(longer + shorter =~= longer);
        assert(done.push(longer) + more =~= done.push(longer));
        assert(text == candidate);
        assert(s.found_through(child, prefix, remaining) =~= seq![hit]);
        assert(seq![hit][0] == hit);
    } else {
        let next = more[0];
        let others = more.drop_first();
        lemma_spell_front(more);
        assert(shorter + spell(more) =~= next + spell(others));
        assert(rest.len() > 0);
        assert(longer + shorter =~= longer);
        lemma_restart(s, done, longer, child, candidate, rest);
        assert forall|j: int| 0 <= j < others.len() implies (#[trigger] others[j]).len() > 0
            && s.root.accepts(others[j]) by {
            assert(others[j] == more[j + 1]);
        }
        assert(Seq::<char>::empty() + next =~= next);
        assert(done.push(longer).push(next) + others =~= done.push(longer) + more);
        lemma_below_complete(
            s,
            done.push(longer),
            Seq::empty(),
            s.root,
            candidate.push(' '),
            rest,
            next,
            others,
        );
        lemma_either(onward, fresh, hit);
    }
    lemma_below_includes(s, node.children, i, prefix, remaining, hit);
}

/// The traversal stands at the root when it starts.
proof fn lemma_start(s: Search)
    requires
        s.root.lexical(),
    ensures
        s.stands(Seq::empty(), Seq::empty(), s.root, Seq::empty(), s.phrase),
{
    broadcast use vstd::multiset::group_multiset_axioms;

    let none: Seq<Seq<char>> = Seq::empty();
    let nothing: Seq<char> = Seq::empty();
    assert(join(none.push(nothing)) =~= nothing);
    assert(spell(none) + nothing =~= nothing);
    nothing.to_multiset_ensures();
    assert(nothing.to_multiset().add(s.phrase.to_multiset()) =~= s.phrase.to_multiset());
    assert forall|tail: Seq<char>| #[trigger] s.root.accepts(tail) implies s.root.accepts(
        nothing + tail,
    ) by {
        assert(nothing + tail =~= tail);
    }
}

/// Over a dictionary of letters the search finds the matches and nothing
/// else. A text whose digest is not accepted is never found, nor one that is
/// no anagram of the phrase; and every anagram of the phrase whose digest is
/// accepted is found.
pub proof fn law_found_matches(s: Search, hit: Hit)
    requires
        s.root.lexical(),
    ensures
        s.found().contains(hit) <==> s.is_match(hit),
{
    lemma_start(s);
    let none: Seq<Seq<char>> = Seq::empty();
    let nothing: Seq<char> = Seq::empty();
    if s.found().contains(hit) {
        assert(s.root.children.take(s.root.children.len() as int) =~= s.root.children);
        lemma_below_sound(
            s,
            none,
            nothing,
            s.root,
            s.root.children.len() as int,
            nothing,
            s.phrase,
            hit,
        );
    }
    if s.is_match(hit) {
        let words = choose|words: Seq<Seq<char>>| #[trigger]
            s.is_anagram(words) && hit.0 == join(words);
        let first = words[0];
        let more = words.drop_first();
        lemma_spell_front(words);
        assert(nothing + first =~= first);
        assert(none.push(first) + more =~= words);
        assert forall|j: int| 0 <= j < more.len() implies (#[trigger] more[j]).len() > 0
            && s.root.accepts(more[j]) by {
            assert(more[j] == words[j + 1]);
        }
        lemma_below_complete(s, none, nothing, s.root, nothing, s.phrase, first, more);
    }
}

/// The words of an anagram over a dictionary of letters are made of letters.
pub proof fn lemma_anagram_letters(s: Search, words: Seq<Seq<char>>)
    requires
        s.root.lexical(),
        s.is_anagram(words),
    ensures
        forall|i: int| 0 <= i < words.len() ==> all_letters(#[trigger] words[i]),
{
    assert forall|i: int| 0 <= i < words.len() implies all_letters(#[trigger] words[i]) by {
        lemma_lexical_accepts(s.root, words[i]);
    }
}

/// The phrase of a search that has an anagram over a dictionary of letters
/// is made of letters.
pub proof fn lemma_anagram_phrase(s: Search, words: Seq<Seq<char>>)
    requires
        s.root.lexical(),
        s.is_anagram(words),
    ensures
        all_letters(s.phrase),
{
    lemma_anagram_letters(s, words);
    lemma_spell_letters(words);
    let used = spell(words);
    used.to_multiset_ensures();
    s.phrase.to_multiset_ensures();
    assert forall|i: int| 0 <= i < s.phrase.len() implies is_letter(#[trigger] s.phrase[i]) by {
        assert(s.phrase.contains(s.phrase[i]));
        assert(used.to_multiset().count(s.phrase[i]) > 0);
        assert(used.contains(s.phrase[i]));
        let j = choose|j: int| 0 <= j < used.len() && used[j] == s.phrase[i];
        assert(is_letter(used[j]));
    }
}

/// No letter is made up, dropped or doubled: the letters of an anagram's
/// text, its separating spaces left aside, are the letters of the phrase,
/// each as often.
pub proof fn law_letter_conservation(s: Search, words: Seq<Seq<char>>)
    requires
        s.root.lexical(),
        s.is_anagram(words),
    ensures
        letters(join(words)).to_multiset() == letters(s.phrase).to_multiset(),
{
    lemma_anagram_letters(s, words);
    lemma_letters_join(words);
    lemma_anagram_phrase(s, words);
    lemma_letters_all(s.phrase);
}

/// The same of the alphabetic characters, where no alphabetic character is
/// a separator: those of an anagram's text are those of the phrase, each as
/// often.
pub proof fn law_alphabetic_conservation(s: Search, words: Seq<Seq<char>>)
    requires
        s.root.lexical(),
        s.is_anagram(words),
        forall|c: char| alphabetic(c) ==> !is_blank(c),
    ensures
        alphabetics(join(words)).to_multiset() == alphabetics(s.phrase).to_multiset(),
{
    law_letter_conservation(s, words);
    lemma_alphabetics_are_letters(join(words));
    lemma_alphabetics_are_letters(s.phrase);
}

/// The text of an anagram has as many words as the anagram has, which is no
/// more than the limit of the search, if that is at least one.
pub proof fn law_word_count_bound(s: Search, words: Seq<Seq<char>>)
    requires
        s.root.lexical(),
        s.is_anagram(words),
        s.max_words >= 1,
    ensures
        word_count(join(words)) == words.len(),
        word_count(join(words)) <= s.max_words,
{
    lemma_anagram_letters(s, words);
    lemma_word_count_join(words);
}

/// Where the phrase is made of letters, words of the dictionary within the
/// limit whose text has the letters of the phrase, each as often, are an
/// anagram of the phrase.
pub proof fn lemma_anagram_by_letters(s: Search, words: Seq<Seq<char>>)
    requires
        s.root.lexical(),
        all_letters(s.phrase),
        words.len() >= 1,
        words.len() == 1 || words.len() <= s.max_words,
        forall|i: int|
            0 <= i < words.len() ==> (#[trigger] words[i]).len() > 0 && s.root.accepts(words[i]),
        letters(join(words)).to_multiset() == letters(s.phrase).to_multiset(),
    ensures
        s.is_anagram(words),
{
    assert forall|i: int| 0 <= i < words.len() implies all_letters(#[trigger] words[i]) by {
        lemma_lexical_accepts(s.root, words[i]);
    }
    lemma_letters_join(words);
    lemma_letters_all(s.phrase);
}

/// Every text of dictionary words within the limit that has the letters of
/// the phrase, each as often, and an accepted digest, is found, where the
/// phrase is made of letters.
pub proof fn law_found_complete(s: Search, words: Seq<Seq<char>>)
    requires
        s.root.lexical(),
        all_letters(s.phrase),
        words.len() >= 1,
        words.len() == 1 || words.len() <= s.max_words,
        forall|i: int|
            0 <= i < words.len() ==> (#[trigger] words[i]).len() > 0 && s.root.accepts(words[i]),
        letters(join(words)).to_multiset() == letters(s.phrase).to_multiset(),
        s.hashes.contains(md5_hex(join(words))),
    ensures
        s.found().contains((join(words), md5_hex(join(words)))),
{
    lemma_anagram_by_letters(s, words);
    law_found_matches(s, (join(words), md5_hex(join(words))));
}

/// A phrase that holds a character that is no letter, a separator or
/// another, is never used up: the search finds nothing.
pub proof fn law_nothing_beside_letters(s: Search)
    requires
        s.root.lexical(),
        !all_letters(s.phrase),
    ensures
        s.found().len() == 0,
{
    if s.found().len() > 0 {
        let hit = s.found()[0];
        assert(s.found().contains(hit));
        law_found_matches(s, hit);
        let words = choose|words: Seq<Seq<char>>| #[trigger]
            s.is_anagram(words) && hit.0 == join(words);
        lemma_anagram_phrase(s, words);
    }
}

/// With no accepted digest the search finds nothing.
pub proof fn law_nothing_accepted(s: Search)
    requires
        s.root.lexical(),
        s.hashes.len() == 0,
    ensures
        s.found().len() == 0,
{
    if s.found().len() > 0 {
        let hit = s.found()[0];
        assert(s.found().contains(hit));
        law_found_matches(s, hit);
    }
}

/// Each word of an anagram is made of letters that the phrase can supply:
/// its alphabetic characters, each as often as it occurs, are among those of
/// the phrase.
pub proof fn law_anagram_contained(s: Search, words: Seq<Seq<char>>, i: int)
    requires
        s.is_anagram(words),
        0 <= i < words.len(),
    ensures
        alphabetics(words[i]).to_multiset().subset_of(alphabetics(s.phrase).to_multiset()),
{
    broadcast use vstd::multiset::group_multiset_axioms;

    assert forall|v: char|
        alphabetics(words[i]).to_multiset().count(v) <= alphabetics(s.phrase).to_multiset().count(
            v,
        ) by {
        lemma_spell_count(words, i, v);
        lemma_alphabetics_count(words[i], v);
        lemma_alphabetics_count(s.phrase, v);
    }
}

/// Where the phrase cannot supply the letters of any word of the
/// dictionary, the search finds nothing.
pub proof fn law_nothing_contained(s: Search)
    requires
        s.root.lexical(),
        forall|word: Seq<char>|
            word.len() > 0 && #[trigger] s.root.accepts(word) ==> !alphabetics(
                word,
            ).to_multiset().subset_of(alphabetics(s.phrase).to_multiset()),
    ensures
        s.found().len() == 0,
{
    if s.found().len() > 0 {
        let hit = s.found()[0];
        assert(s.found().contains(hit));
        law_found_matches(s, hit);
        let words = choose|words: Seq<Seq<char>>| #[trigger]
            s.is_anagram(words) && hit.0 == join(words);
        law_anagram_contained(s, words, 0);
        assert(s.root.accepts(words[0]));
    }
}

/// Whatever is found through the first `k` children of a node goes on from
/// `prefix` with the character of one of them.
proof fn lemma_below_shape(
    s: Search,
    node: Trie,
    k: int,
    prefix: Seq<char>,
    remaining: Seq<char>,
    hit: Hit,
) -> (i: int)
    requires
        0 <= k <= node.children.len(),
        s.found_below(node.children.take(k), prefix, remaining).contains(hit),
    ensures
        0 <= i < k,
        hit.0.len() > prefix.len(),
        hit.0.take((prefix.len() + 1) as int) == prefix.push(node.children[i].character),
    decreases remaining.len(), k,
{
    let upto = node.children.take(k);
    assert(k > 0);
    assert(upto.drop_last() =~= node.children.take(k - 1));
    assert(upto.last() == node.children[k - 1]);
    let earlier = s.found_below(node.children.take(k - 1), prefix, remaining);
    let through = s.found_through(node.children[k - 1], prefix, remaining);
    lemma_either(earlier, through, hit);
    if earlier.contains(hit) {
        lemma_below_shape(s, node, k - 1, prefix, remaining, hit)
    } else {
        lemma_through_shape(s, node.children[k - 1], prefix, remaining, hit);
        k - 1
    }
}

/// Whatever is found through a node goes on from `prefix` with the
/// character of the node.
proof fn lemma_through_shape(
    s: Search,
    node: Trie,
    prefix: Seq<char>,
    remaining: Seq<char>,
    hit: Hit,
)
    requires
        s.found_through(node, prefix, remaining).contains(hit),
    ensures
        hit.0.len() > prefix.len(),
        hit.0.take((prefix.len() + 1) as int) == prefix.push(node.character),
    decreases remaining.len(), 0int,
{
    let c = node.character;
    let rest = remaining.remove_value(c);
    let candidate = prefix.push(c);
    lemma_remove_value(remaining, c);
    if rest.len() == 0 {
        assert(hit.0 == candidate);
        assert(candidate.take((prefix.len() + 1) as int) =~= candidate);
    } else {
        let onward = s.found_below(node.children, candidate, rest);
        let split = node.is_word && word_count(candidate) < s.max_words;
        let fresh = if split {
            s.found_below(s.root.children, candidate.push(' '), rest)
        } else {
            Seq::empty()
        };
        lemma_either(onward, fresh, hit);
        if onward.contains(hit) {
            assert(node.children.take(node.children.len() as int) =~= node.children);
            let i = lemma_below_shape(s, node, node.children.len() as int, candidate, rest, hit);
            assert(hit.0.take((prefix.len() + 1) as int) =~= hit.0.take((candidate.len() + 1) as int).take(
                (prefix.len() + 1) as int,
            ));
            assert(candidate.push(node.children[i].character).take((prefix.len() + 1) as int)
                =~= candidate);
        } else {
            assert(s.root.children.take(s.root.children.len() as int) =~= s.root.children);
            let i = lemma_below_shape(
                s,
                s.root,
                s.root.children.len() as int,
                candidate.push(' '),
                rest,
                hit,
            );
            assert(hit.0.take((prefix.len() + 1) as int) =~= hit.0.take((candidate.len() + 2) as int).take(
                (prefix.len() + 1) as int,
            ));
            assert(candidate.push(' ').push(s.root.children[i].character).take((prefix.len() + 1) as int)
                =~= candidate);
        }
    }
}

/// Below the first `k` children of a node whose children are distinct,
/// nothing is found twice.
proof fn lemma_below_once(s: Search, node: Trie, k: int, prefix: Seq<char>, remaining: Seq<char>)
    requires
        s.root.lexical(),
        s.root.distinct(),
        node.lexical(),
        node.distinct(),
        0 <= k <= node.children.len(),
    ensures
        s.found_below(node.children.take(k), prefix, remaining).no_duplicates(),
    decreases remaining.len(), k,
{
    if k > 0 {
        let upto = node.children.take(k);
        assert(upto.drop_last() =~= node.children.take(k - 1));
        assert(upto.last() == node.children[k - 1]);
        let last = node.children[k - 1];
        let earlier = s.found_below(node.children.take(k - 1), prefix, remaining);
        let through = s.found_through(last, prefix, remaining);
        lemma_below_once(s, node, k - 1, prefix, remaining);
        lemma_through_once(s, last, prefix, remaining);
        assert forall|a: int, b: int| 0 <= a < earlier.len() && 0 <= b < through.len() implies earlier[a]
            != through[b] by {
            if earlier[a] == through[b] {
                let hit = earlier[a];
                assert(earlier.contains(hit));
                assert(through.contains(hit));
                let i = lemma_below_shape(s, node, k - 1, prefix, remaining, hit);
                lemma_through_shape(s, last, prefix, remaining, hit);
                assert(prefix.push(node.children[i].character)[prefix.len() as int]
                    == prefix.push(last.character)[prefix.len() as int]);
                assert(node.children[i].character != node.children[k - 1].character);
            }
        }
        vstd::seq_lib::lemma_no_dup_in_concat(earlier, through);
    }
}

/// Through a node of a trie of letters whose children are distinct, nothing
/// is found twice.
proof fn lemma_through_once(s: Search, node: Trie, prefix: Seq<char>, remaining: Seq<char>)
    requires
        s.root.lexical(),
        s.root.distinct(),
        node.lexical(),
        node.distinct(),
    ensures
        s.found_through(node, prefix, remaining).no_duplicates(),
    decreases remaining.len(), 0int,
{
    let c = node.character;
    if remaining.contains(c) {
        let rest = remaining.remove_value(c);
        let candidate = prefix.push(c);
        lemma_remove_value(remaining, c);
        if rest.len() > 0 {
            let onward = s.found_below(node.children, candidate, rest);
            let split = node.is_word && word_count(candidate) < s.max_words;
            let fresh = if split {
                s.found_below(s.root.children, candidate.push(' '), rest)
            } else {
                Seq::empty()
            };
            assert(node.children.take(node.children.len() as int) =~= node.children);
            assert(s.root.children.take(s.root.children.len() as int) =~= s.root.children);
            lemma_below_once(s, node, node.children.len() as int, candidate, rest);
            if split {
                lemma_below_once(s, s.root, s.root.children.len() as int, candidate.push(' '), rest);
            }
            assert forall|a: int, b: int| 0 <= a < onward.len() && 0 <= b < fresh.len() implies onward[a]
                != fresh[b] by {
                if onward[a] == fresh[b] {
                    let hit = onward[a];
                    assert(onward.contains(hit));
                    assert(fresh.contains(hit));
                    let i = lemma_below_shape(
                        s,
                        node,
                        node.children.len() as int,
                        candidate,
                        rest,
                        hit,
                    );
                    let j = lemma_below_shape(
                        s,
                        s.root,
                        s.root.children.len() as int,
                        candidate.push(' '),
                        rest,
                        hit,
                    );
                    let longer = candidate.push(' ').push(s.root.children[j].character);
                    assert(hit.0[candidate.len() as int] == hit.0.take((candidate.len() + 1) as int)[candidate.len() as int]);
                    assert(hit.0[candidate.len() as int] == hit.0.take((candidate.len() + 2) as int)[candidate.len() as int]);
                    assert(longer[candidate.len() as int] == ' ');
                    assert(candidate.push(node.children[i].character)[candidate.len() as int]
                        == node.children[i].character);
                    assert(is_letter(node.children[i].character));
                }
            }
            vstd::seq_lib::lemma_no_dup_in_concat(onward, fresh);
        }
    }
}

/// Over a trie of letters in which no two children of a node hold the same
/// character, the search finds each match once.
pub proof fn law_found_once(s: Search)
    requires
        s.root.lexical(),
        s.root.distinct(),
    ensures
        s.found().no_duplicates(),
{
    assert(s.root.children.take(s.root.children.len() as int) =~= s.root.children);
    lemma_below_once(s, s.root, s.root.children.len() as int, Seq::empty(), s.phrase);
}

} // verus!
