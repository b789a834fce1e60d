use vstd::prelude::*;
use vstd::std_specs::iter::IteratorSpec;

verus! {

/// Whether `c` has the Unicode property `Alphabetic`.
pub uninterp spec fn alphabetic(c: char) -> bool;

/// Whether `c` has the Unicode property `White_Space`.
pub uninterp spec fn whitespace(c: char) -> bool;

/// `char::is_alphabetic` answers whether its argument has the Unicode property
/// `Alphabetic`; the tables behind it are not restated here.
pub assume_specification[ char::is_alphabetic ](c: char) -> (b: bool)
    ensures
        b == alphabetic(c),
;

/// `char::is_whitespace` answers whether its argument has the Unicode property
/// `White_Space`; the tables behind it are not restated here.
pub assume_specification[ char::is_whitespace ](c: char) -> (b: bool)
    ensures
        b == whitespace(c),
;

/// A character that separates words: the space that the search itself puts
/// between two words, and whatever Unicode counts as whitespace.
pub open spec fn is_blank(c: char) -> bool {
    c == ' ' || whitespace(c)
}

/// A character that a dictionary word is made of: alphabetic, and no
/// separator.
pub open spec fn is_letter(c: char) -> bool {
    alphabetic(c) && !is_blank(c)
}

/// Whether every character of `word` is a letter.
pub open spec fn all_letters(word: Seq<char>) -> bool {
    forall|i: int| 0 <= i < word.len() ==> is_letter(#[trigger] word[i])
}

/// The character sequences of a list of strings, in order.
pub open spec fn views(words: Seq<String>) -> Seq<Seq<char>> {
    Seq::new(words.len(), |i: int| words[i]@)
}

/// `String::push` appends the character to the end of the string.
pub assume_specification[ String::push ](s: &mut String, c: char)
    ensures
        final(s)@ == old(s)@.push(c),
;

/// Decides `is_blank`.
pub fn blank(c: char) -> (b: bool)
    ensures
        b == is_blank(c),
{
    c == ' ' || c.is_whitespace()
}

/// Decides `is_letter`.
pub fn letter(c: char) -> (b: bool)
    ensures
        b == is_letter(c),
{
    c.is_alphabetic() && !blank(c)
}

/// The sequence without its separators.
pub open spec fn without_blanks(s: Seq<char>) -> Seq<char> {
    s.filter(|c: char| !is_blank(c))
}

/// The alphabetic characters of a sequence, in order.
pub open spec fn alphabetics(s: Seq<char>) -> Seq<char> {
    s.filter(|c: char| alphabetic(c))
}

/// The characters of a sequence that are letters, in order.
pub open spec fn letters(s: Seq<char>) -> Seq<char> {
    s.filter(|c: char| is_letter(c))
}

/// The words one behind the other, with nothing between them.
pub open spec fn spell(words: Seq<Seq<char>>) -> Seq<char>
    decreases words.len(),
{
    if words.len() == 0 {
        Seq::empty()
    } else {
        spell(words.drop_last()) + words.last()
    }
}

/// The words one behind the other, with a single space between two of them.
pub open spec fn join(words: Seq<Seq<char>>) -> Seq<char>
    decreases words.len(),
{
    if words.len() == 0 {
        Seq::empty()
    } else if words.len() == 1 {
        words[0]
    } else {
        join(words.drop_last()).push(' ') + words.last()
    }
}

/// The number of words in a text: of the places where a character that is
/// no separator stands first or behind a separator.
pub open spec fn word_count(s: Seq<char>) -> nat
    decreases s.len(),
{
    if s.len() == 0 {
        0
    } else {
        let before = s.drop_last();
        let starts = !is_blank(s.last()) && (before.len() == 0 || is_blank(before.last()));
        word_count(before) + if starts {
            1nat
        } else {
            0nat
        }
    }
}

/// A text has at most as many words as characters.
pub proof fn lemma_word_count_bound(s: Seq<char>)
    ensures
        word_count(s) <= s.len(),
    decreases s.len(),
{
    if s.len() > 0 {
        lemma_word_count_bound(s.drop_last());
    }
}

/// Taking out the first `c` takes one `c` out of the multiset, and nothing
/// else.
pub proof fn lemma_remove_value(s: Seq<char>, c: char)
    requires
        s.contains(c),
    ensures
        s.remove_value(c).len() == s.len() - 1,
        s.remove_value(c).to_multiset() == s.to_multiset().remove(c),
        s.to_multiset().count(c) > 0,
        s.to_multiset() == s.remove_value(c).to_multiset().insert(c),
{
    broadcast use vstd::multiset::group_multiset_axioms;

    s.index_of_first_ensures(c);
    let i = s.index_of_first(c).unwrap();
    vstd::seq_lib::to_multiset_remove(s, i);
    s.to_multiset_ensures();
    assert(s.to_multiset() =~= s.to_multiset().remove(c).insert(c));
}

/// How often a character stands in what a filter keeps of a text: as often
/// as in the text if the filter keeps it, and never otherwise.
pub proof fn lemma_filter_count(s: Seq<char>, keep: spec_fn(char) -> bool, v: char)
    ensures
        s.filter(keep).to_multiset().count(v) == if keep(v) {
            s.to_multiset().count(v)
        } else {
            0
        },
    decreases s.len(),
{
    broadcast use vstd::multiset::group_multiset_axioms;

    if s.len() == 0 {
        assert(s.filter(keep) =~= Seq::empty());
        s.to_multiset_ensures();
        s.filter(keep).to_multiset_ensures();
    } else {
        let before = s.drop_last();
        let last = s.last();
        assert(s =~= before.push(last));
        lemma_filter_count(before, keep, v);
        Seq::lemma_filter_push(before, last, keep);
        vstd::seq_lib::to_multiset_build(before, last);
        if keep(last) {
            vstd::seq_lib::to_multiset_build(before.filter(keep), last);
        }
    }
}

/// How often a character stands among the alphabetic characters of a text:
/// as often as in the text if it is alphabetic, and never otherwise.
pub proof fn lemma_alphabetics_count(s: Seq<char>, v: char)
    ensures
        alphabetics(s).to_multiset().count(v) == if alphabetic(v) {
            s.to_multiset().count(v)
        } else {
            0
        },
{
    lemma_filter_count(s, |c: char| alphabetic(c), v);
}

/// The alphabetic characters of the first `k` characters are among those of
/// the text.
pub proof fn lemma_alphabetics_prefix(s: Seq<char>, k: int, v: char)
    requires
        0 <= k <= s.len(),
    ensures
        alphabetics(s.take(k)).to_multiset().count(v) <= alphabetics(s).to_multiset().count(v),
{
    broadcast use vstd::multiset::group_multiset_axioms;

    let keep = |c: char| alphabetic(c);
    assert(s =~= s.take(k) + s.skip(k));
    Seq::filter_distributes_over_add(s.take(k), s.skip(k), keep);
    vstd::seq_lib::lemma_multiset_commutative(alphabetics(s.take(k)), alphabetics(s.skip(k)));
}

/// A character put behind the last word of a joined text is put behind
/// that word.
pub proof fn lemma_join_push(words: Seq<Seq<char>>, last: Seq<char>, c: char)
    ensures
        join(words.push(last)).push(c) == join(words.push(last.push(c))),
{
    let shorter = words.push(last);
    let longer = words.push(last.push(c));
    assert(shorter.drop_last() =~= words);
    assert(longer.drop_last() =~= words);
    if words.len() > 0 {
        assert(join(shorter).push(c) =~= join(longer));
    }
}

/// A space behind a joined text starts a word that is empty so far.
pub proof fn lemma_join_start(words: Seq<Seq<char>>)
    requires
        words.len() > 0,
    ensures
        join(words.push(Seq::empty())) == join(words).push(' '),
{
    let longer = words.push(Seq::empty());
    assert(longer.drop_last() =~= words);
    assert(join(longer) =~= join(words).push(' '));
}

/// The first word can be split off what the words spell.
pub proof fn lemma_spell_front(words: Seq<Seq<char>>)
    requires
        words.len() > 0,
    ensures
        spell(words) == words[0] + spell(words.drop_first()),
    decreases words.len(),
{
    if words.len() == 1 {
        assert(words.drop_last() =~= Seq::empty());
        assert(words.drop_first() =~= Seq::empty());
        assert(spell(words) =~= words[0] + spell(words.drop_first()));
    } else {
        let init = words.drop_last();
        lemma_spell_front(init);
        assert(init.drop_first() =~= words.drop_first().drop_last());
        assert(spell(words) =~= words[0] + spell(words.drop_first()));
    }
}

/// A character stands in what the words spell at least as often as in one
/// of the words.
pub proof fn lemma_spell_count(words: Seq<Seq<char>>, i: int, v: char)
    requires
        0 <= i < words.len(),
    ensures
        words[i].to_multiset().count(v) <= spell(words).to_multiset().count(v),
    decreases words.len(),
{
    broadcast use vstd::multiset::group_multiset_axioms;

    let init = words.drop_last();
    vstd::seq_lib::lemma_multiset_commutative(spell(init), words.last());
    if i < words.len() - 1 {
        assert(init[i] == words[i]);
        lemma_spell_count(init, i, v);
    }
}

/// A word without separators, put where a text is empty or ends in a
/// separator, adds one word to the text.
pub proof fn lemma_word_count_append(base: Seq<char>, word: Seq<char>)
    requires
        word.len() > 0,
        all_letters(word),
        base.len() == 0 || is_blank(base.last()),
    ensures
        word_count(base + word) == word_count(base) + 1,
    decreases word.len(),
{
    let text = base + word;
    let init = word.drop_last();
    assert(text.drop_last() =~= base + init);
    assert(text.last() == word.last());
    assert(is_letter(word[word.len() - 1]));
    if init.len() == 0 {
        assert(base + init =~= base);
    } else {
        assert(all_letters(init)) by {
            assert forall|i: int| 0 <= i < init.len() implies is_letter(#[trigger] init[i]) by {
                assert(init[i] == word[i]);
            }
        }
        lemma_word_count_append(base, init);
        assert((base + init).last() == init.last());
        assert(is_letter(word[init.len() - 1]));
        assert(init.last() == word[init.len() - 1]);
    }
}

/// Words of letters, none of them empty, joined by single spaces, are
/// counted as that many words.
pub proof fn lemma_word_count_join(words: Seq<Seq<char>>)
    requires
        forall|i: int| 0 <= i < words.len() ==> (#[trigger] words[i]).len() > 0 && all_letters(words[i]),
    ensures
        word_count(join(words)) == words.len(),
    decreases words.len(),
{
    if words.len() == 1 {
        lemma_word_count_append(Seq::empty(), words[0]);
        assert(Seq::<char>::empty() + words[0] =~= words[0]);
    } else if words.len() > 1 {
        let init = words.drop_last();
        assert forall|i: int| 0 <= i < init.len() implies (#[trigger] init[i]).len() > 0
            && all_letters(init[i]) by {
            assert(init[i] == words[i]);
        }
        lemma_word_count_join(init);
        let base = join(init).push(' ');
        assert(base.drop_last() =~= join(init));
        assert(word_count(base) == word_count(join(init)));
        lemma_word_count_append(base, words.last());
    }
}

/// The letters of a text made of letters are the text.
pub proof fn lemma_letters_all(word: Seq<char>)
    requires
        all_letters(word),
    ensures
        letters(word) == word,
    decreases word.len(),
{
    let keep = |c: char| is_letter(c);
    if word.len() == 0 {
        assert(letters(word) =~= word);
    } else {
        let init = word.drop_last();
        assert(word =~= init.push(word.last()));
        assert(all_letters(init)) by {
            assert forall|i: int| 0 <= i < init.len() implies is_letter(#[trigger] init[i]) by {
                assert(init[i] == word[i]);
            }
        }
        lemma_letters_all(init);
        assert(is_letter(word[word.len() - 1]));
        Seq::lemma_filter_push(init, word.last(), keep);
    }
}

/// What words of letters spell is made of letters.
pub proof fn lemma_spell_letters(words: Seq<Seq<char>>)
    requires
        forall|i: int| 0 <= i < words.len() ==> all_letters(#[trigger] words[i]),
    ensures
        all_letters(spell(words)),
    decreases words.len(),
{
    if words.len() > 0 {
        let init = words.drop_last();
        assert forall|i: int| 0 <= i < init.len() implies all_letters(#[trigger] init[i]) by {
            assert(init[i] == words[i]);
        }
        lemma_spell_letters(init);
        assert(all_letters(words[words.len() - 1]));
        assert forall|i: int| 0 <= i < spell(words).len() implies is_letter(
            #[trigger] spell(words)[i],
        ) by {
            if i < spell(init).len() {
                assert(spell(words)[i] == spell(init)[i]);
            } else {
                assert(spell(words)[i] == words.last()[i - spell(init).len()]);
            }
        }
    }
}

/// The letters of words of letters joined by spaces are what the words
/// spell: the spaces between them are no letters.
pub proof fn lemma_letters_join(words: Seq<Seq<char>>)
    requires
        forall|i: int| 0 <= i < words.len() ==> all_letters(#[trigger] words[i]),
    ensures
        letters(join(words)) == spell(words),
    decreases words.len(),
{
    let keep = |c: char| is_letter(c);
    if words.len() == 0 {
        assert(letters(join(words)) =~= spell(words));
    } else {
        let init = words.drop_last();
        let last = words.last();
        assert(all_letters(words[words.len() - 1]));
        lemma_letters_all(last);
        if words.len() == 1 {
            assert(init =~= Seq::empty());
            assert(spell(init) =~= Seq::empty());
            assert(spell(words) =~= last);
        } else {
            assert forall|i: int| 0 <= i < init.len() implies all_letters(#[trigger] init[i]) by {
                assert(init[i] == words[i]);
            }
            lemma_letters_join(init);
            Seq::lemma_filter_push(join(init), ' ', keep);
            Seq::filter_distributes_over_add(join(init).push(' '), last, keep);
        }
    }
}

/// Taking the separators out of a text takes none of its letters.
pub proof fn lemma_letters_stripped(s: Seq<char>)
    ensures
        letters(without_blanks(s)) == letters(s),
    decreases s.len(),
{
    let keep = |c: char| is_letter(c);
    let solid = |c: char| !is_blank(c);
    if s.len() == 0 {
        assert(without_blanks(s) =~= s);
    } else {
        let init = s.drop_last();
        let last = s.last();
        assert(s =~= init.push(last));
        lemma_letters_stripped(init);
        Seq::lemma_filter_push(init, last, keep);
        Seq::lemma_filter_push(init, last, solid);
        if !is_blank(last) {
            Seq::lemma_filter_push(without_blanks(init), last, keep);
        }
    }
}

/// Where no alphabetic character is a separator, the alphabetic characters
/// of a text are its letters.
pub proof fn lemma_alphabetics_are_letters(s: Seq<char>)
    requires
        forall|c: char| alphabetic(c) ==> !is_blank(c),
    ensures
        alphabetics(s) == letters(s),
    decreases s.len(),
{
    if s.len() == 0 {
        assert(alphabetics(s) =~= letters(s));
    } else {
        let init = s.drop_last();
        let last = s.last();
        assert(s =~= init.push(last));
        lemma_alphabetics_are_letters(init);
        Seq::lemma_filter_push(init, last, |c: char| alphabetic(c));
        Seq::lemma_filter_push(init, last, |c: char| is_letter(c));
    }
}

/// A copy of `s` without its separators, for a search: it has the letters of
/// `s`, and a search would never use up a separator.
pub fn strip_blanks(s: &str) -> (stripped: String)
    ensures
        stripped@ == without_blanks(s@),
        letters(stripped@) == letters(s@),
{
    let mut stripped = String::new();
    assert(s@.take(0) =~= Seq::empty());
    for c in it: s.chars()
        invariant
            it.seq() == s@,
            stripped@ == without_blanks(s@.take(it.index() as int)),
    {
        proof {
            let k = it.index() as int;
            assert(s@.take(k + 1) =~= s@.take(k).push(c));
            Seq::lemma_filter_push(s@.take(k), c, |c: char| !is_blank(c));
        }
        if !blank(c) {
            stripped.push(c);
        }
    }
    assert(s@.take(s@.len() as int) =~= s@);
    proof {
        lemma_letters_stripped(s@);
    }
    stripped
}

/// Counts the words of `s` as `str::split_whitespace` parts them.
pub fn count_words(s: &str) -> (n: usize)
    ensures
        n == word_count(s@),
{
    let total = s.unicode_len();
    let mut n: usize = 0;
    let mut in_word = false;
    assert(s@.take(0) =~= Seq::empty());
    for c in it: s.chars()
        invariant
            it.seq() == s@,
            total == s@.len(),
            n == word_count(s@.take(it.index() as int)),
            in_word == (it.index() > 0 && !is_blank(s@[it.index() - 1])),
    {
        proof {
            let k = it.index() as int;
            let next = s@.take(k + 1);
            assert(next.drop_last() =~= s@.take(k));
            assert(next.last() == c);
            lemma_word_count_bound(next);
        }
        let b = blank(c);
        if !b && !in_word {
            n = n + 1;
        }
        in_word = !b;
    }
    assert(s@.take(s@.len() as int) =~= s@);
    n
}

/// Whether two string slices hold the same characters.
pub fn same(a: &str, b: &str) -> (equal: bool)
    ensures
        equal == (a@ == b@),
{
    let mut left = a.chars();
    let mut right = b.chars();
    let ghost mut k: int = 0;
    proof {
        assert(a@.skip(0) =~= a@);
        assert(b@.skip(0) =~= b@);
        assert(a@.take(0) =~= b@.take(0));
    }
    loop
        invariant
            0 <= k <= a@.len(),
            k <= b@.len(),
            a@.take(k) == b@.take(k),
            left.remaining() == a@.skip(k),
            right.remaining() == b@.skip(k),
            left.obeys_prophetic_iter_laws(),
            right.obeys_prophetic_iter_laws(),
        decreases a@.len() - k,
    {
        let x = left.next();
        let y = right.next();
        match x {
            None => {
                proof {
                    if y is None {
                        assert(a@ =~= a@.take(k));
                        assert(b@ =~= b@.take(k));
                    }
                }
                return y.is_none();
            },
            Some(x) => match y {
                None => {
                    return false;
                },
                Some(y) => {
                    if x != y {
                        assert(a@[k] != b@[k]);
                        return false;
                    }
                    proof {
                        assert(a@.take(k + 1) =~= a@.take(k).push(x));
                        assert(b@.take(k + 1) =~= b@.take(k).push(y));
                        assert(a@.skip(k).drop_first() =~= a@.skip(k + 1));
                        assert(b@.skip(k).drop_first() =~= b@.skip(k + 1));
                        k = k + 1;
                    }
                },
            },
        }
    }
}

/// A copy of `s` without the first `c` in it, if there is one.
pub fn remove_first(s: &str, c: char) -> (rest: Option<String>)
    ensures
        match rest {
            Some(rest) => s@.contains(c) && rest@ == s@.remove_value(c),
            None => !s@.contains(c),
        },
{
    let mut rest = String::new();
    let mut found = false;
    let ghost at: int = 0;
    assert(s@.take(0) =~= Seq::empty());
    for x in it: s.chars()
        invariant
            it.seq() == s@,
            !found ==> rest@ == s@.take(it.index() as int),
            !found ==> forall|j: int| 0 <= j < it.index() ==> s@[j] != c,
            found ==> 0 <= at < it.index() && s@[at] == c,
            found ==> forall|j: int| 0 <= j < at ==> s@[j] != c,
            found ==> rest@ == s@.take(it.index() as int).remove(at),
    {
        let ghost k = it.index() as int;
        if !found && x == c {
            found = true;
            proof {
                at = k;
                assert(s@.take(k + 1).remove(at) =~= s@.take(k));
            }
        } else {
            rest.push(x);
            proof {
                if found {
                    assert(s@.take(k + 1).remove(at) =~= s@.take(k).remove(at).push(x));
                } else {
                    assert(s@.take(k + 1) =~= s@.take(k).push(x));
                }
            }
        }
    }
    proof {
        assert(s@.take(s@.len() as int) =~= s@);
        s@.index_of_first_ensures(c);
        if found {
            assert(s@.index_of_first(c) == Some(at));
        } else {
            assert(!s@.contains(c));
        }
    }
    if found {
        Some(rest)
    } else {
        None
    }
}

} // verus!
