use crate::anagram::AnagramFinder;
use crate::text::{all_letters, alphabetics, is_letter, letter, views};
use vstd::prelude::*;
use vstd::std_specs::iter::IteratorSpec;

verus! {

/// A line without the carriage return at its end, if it has one.
pub open spec fn without_return(line: Seq<char>) -> Seq<char> {
    if line.len() > 0 && line.last() == '\r' {
        line.drop_last()
    } else {
        line
    }
}

/// What stands behind the last line feed of a text.
pub open spec fn unfinished(text: Seq<char>) -> Seq<char>
    decreases text.len(),
{
    if text.len() == 0 || text.last() == '\n' {
        Seq::empty()
    } else {
        unfinished(text.drop_last()).push(text.last())
    }
}

/// The lines of a text that a line feed ends, each without that line feed
/// and without a carriage return before it.
pub open spec fn finished(text: Seq<char>) -> Seq<Seq<char>>
    decreases text.len(),
{
    if text.len() == 0 {
        Seq::empty()
    } else if text.last() == '\n' {
        finished(text.drop_last()).push(without_return(unfinished(text.drop_last())))
    } else {
        finished(text.drop_last())
    }
}

/// The lines of a text, as `str::lines` parts them: a line ends with a line
/// feed, or with a carriage return and a line feed, and the last line needs
/// no ending.
pub open spec fn lines(text: Seq<char>) -> Seq<Seq<char>> {
    if unfinished(text).len() > 0 {
        finished(text).push(unfinished(text))
    } else {
        finished(text)
    }
}

/// Parts `content` into its lines.
pub fn split_lines(content: &str) -> (parts: Vec<String>)
    ensures
        views(parts@) == lines(content@),
{
    let mut parts: Vec<String> = Vec::new();
    let mut current = String::new();
    let mut held = false;
    proof {
        assert(content@.take(0) =~= Seq::empty());
        assert(views(parts@) =~= finished(content@.take(0)));
    }
    for c in it: content.chars()
        invariant
            it.seq() == content@,
            views(parts@) == finished(content@.take(it.index() as int)),
            unfinished(content@.take(it.index() as int)) == if held {
                current@.push('\r')
            } else {
                current@
            },
            held || current@.len() == 0 || current@.last() != '\r',
    {
        let ghost k = it.index() as int;
        let ghost before = content@.take(k);
        let ghost listed = views(parts@);
        proof {
            let now = content@.take(k + 1);
            assert(now.drop_last() =~= before);
            assert(now.last() == c);
        }
        if c == '\n' {
            proof {
                if held {
                    assert(current@.push('\r').drop_last() =~= current@);
                }
            }
            let line = current;
            current = String::new();
            parts.push(line);
            assert(views(parts@) =~= listed.push(line@));
            held = false;
        } else {
            if held {
                current.push('\r');
            }
            if c == '\r' {
                held = true;
            } else {
                current.push(c);
                held = false;
            }
        }
    }
    assert(content@.take(content@.len() as int) =~= content@);
    if held {
        current.push('\r');
    }
    if !current.as_str().is_empty() {
        let ghost listed = views(parts@);
        let ghost last = current@;
        parts.push(current);
        assert(views(parts@) =~= listed.push(last));
    }
    parts
}

/// The lower-case form of a text, as Unicode defines it.
pub uninterp spec fn lowercase(text: Seq<char>) -> Seq<char>;

/// `str::to_lowercase` gives the lower-case form of the slice as a new
/// string. It depends on the characters alone; the tables behind it are not
/// restated here.
pub assume_specification[ str::to_lowercase ](text: &str) -> (lower: String)
    ensures
        lower@ == lowercase(text@),
;

/// The number of bytes that a text takes in UTF-8.
pub open spec fn byte_len(text: Seq<char>) -> nat {
    vstd::utf8::encode_utf8(text).len()
}

/// Whether `a` comes before `b` in the order of strings: at the first
/// place where they differ `a` has the lesser character, or `a` ends there
/// and `b` goes on.
pub open spec fn lex_less(a: Seq<char>, b: Seq<char>) -> bool
    decreases a.len(),
{
    if b.len() == 0 {
        false
    } else if a.len() == 0 {
        true
    } else if a[0] != b[0] {
        a[0] < b[0]
    } else {
        lex_less(a.drop_first(), b.drop_first())
    }
}

/// Texts that agree in their first `k` characters compare as what follows
/// these.
pub proof fn lemma_lex_less_skip(a: Seq<char>, b: Seq<char>, k: int)
    requires
        0 <= k <= a.len(),
        k <= b.len(),
        a.take(k) == b.take(k),
    ensures
        lex_less(a, b) == lex_less(a.skip(k), b.skip(k)),
    decreases k,
{
    if k == 0 {
        assert(a.skip(0) =~= a);
        assert(b.skip(0) =~= b);
    } else {
        assert(a[0] == a.take(k)[0]);
        assert(b[0] == b.take(k)[0]);
        let x = a.drop_first();
        let y = b.drop_first();
        assert(x.take(k - 1) =~= a.take(k).drop_first());
        assert(y.take(k - 1) =~= b.take(k).drop_first());
        lemma_lex_less_skip(x, y, k - 1);
        assert(x.skip(k - 1) =~= a.skip(k));
        assert(y.skip(k - 1) =~= b.skip(k));
    }
}

/// Decides `lex_less`, as `<` on string slices does.
pub fn less(a: &str, b: &str) -> (before: bool)
    ensures
        before == lex_less(a@, b@),
{
    let mut left = a.chars();
    let mut right = b.chars();
    let ghost mut k: int = 0;
    proof {
        assert(a@.skip(0) =~= a@);
        assert(b@.skip(0) =~= b@);
        assert(a@.take(0) =~= b@.take(0));
    }
    loop
        invariant
            0 <= k <= a@.len(),
            k <= b@.len(),
            a@.take(k) == b@.take(k),
            left.remaining() == a@.skip(k),
            right.remaining() == b@.skip(k),
            left.obeys_prophetic_iter_laws(),
            right.obeys_prophetic_iter_laws(),
        decreases a@.len() - k,
    {
        proof {
            lemma_lex_less_skip(a@, b@, k);
        }
        let y = right.next();
        let x = left.next();
        match y {
            None => {
                return false;
            },
            Some(y) => match x {
                None => {
                    return true;
                },
                Some(x) => {
                    if x != y {
                        return x < y;
                    }
                    proof {
                        assert(a@.take(k + 1) =~= a@.take(k).push(x));
                        assert(b@.take(k + 1) =~= b@.take(k).push(y));
                        assert(a@.skip(k).drop_first() =~= a@.skip(k + 1));
                        assert(b@.skip(k).drop_first() =~= b@.skip(k + 1));
                        k = k + 1;
                    }
                },
            },
        }
    }
}

/// No text comes before itself.
pub proof fn lemma_lex_less_irreflexive(a: Seq<char>)
    ensures
        !lex_less(a, a),
    decreases a.len(),
{
    if a.len() > 0 {
        lemma_lex_less_irreflexive(a.drop_first());
    }
}

/// What comes before a text comes before what that text comes before.
pub proof fn lemma_lex_less_transitive(a: Seq<char>, b: Seq<char>, c: Seq<char>)
    requires
        lex_less(a, b),
        lex_less(b, c),
    ensures
        lex_less(a, c),
    decreases a.len(),
{
    if a.len() > 0 && a[0] == b[0] && b[0] == c[0] {
        lemma_lex_less_transitive(a.drop_first(), b.drop_first(), c.drop_first());
    }
}

/// Of two texts one comes before the other, or they are the same.
pub proof fn lemma_lex_less_total(a: Seq<char>, b: Seq<char>)
    requires
        !lex_less(a, b),
        !lex_less(b, a),
    ensures
        a == b,
    decreases a.len(),
{
    if a.len() == 0 || b.len() == 0 {
        assert(a =~= b);
    } else {
        lemma_lex_less_total(a.drop_first(), b.drop_first());
        assert(a =~= seq![a[0]] + a.drop_first());
        assert(b =~= seq![b[0]] + b.drop_first());
    }
}

/// The order of the word list: the shorter word first, by its bytes, and of
/// two words of one length the one that comes first as a string.
pub open spec fn precedes(a: Seq<char>, b: Seq<char>) -> bool {
    byte_len(a) < byte_len(b) || (byte_len(a) == byte_len(b) && lex_less(a, b))
}

/// Whether each word of a list comes before those behind it. Such a list
/// holds no word twice.
pub open spec fn ascending(words: Seq<Seq<char>>) -> bool {
    forall|i: int, j: int| 0 <= i < j < words.len() ==> precedes(#[trigger] words[i], #[trigger] words[j])
}

/// An ascending list holds no word twice.
pub proof fn lemma_ascending_distinct(words: Seq<Seq<char>>)
    requires
        ascending(words),
    ensures
        words.no_duplicates(),
{
    assert forall|i: int, j: int| 0 <= i < words.len() && 0 <= j < words.len() && i != j implies words[i]
        != words[j] by {
        lemma_lex_less_irreflexive(words[i]);
        if i < j {
            assert(precedes(words[i], words[j]));
        } else {
            assert(precedes(words[j], words[i]));
        }
    }
}

/// Whether an entry, in lower case, is kept for a search over `phrase`: it is
/// not empty, made of letters that the phrase can supply, and has at least
/// `min_word_len` bytes.
pub open spec fn kept(entry: Seq<char>, phrase: Seq<char>, min_word_len: nat) -> bool {
    &&& entry.len() > 0
    &&& all_letters(entry)
    &&& alphabetics(entry).to_multiset().subset_of(alphabetics(phrase).to_multiset())
    &&& byte_len(entry) >= min_word_len
}

/// Whether `word` is the lower-case form of one of the first `upto` lines
/// of `content`, and kept.
pub open spec fn listed(
    content: Seq<char>,
    upto: int,
    phrase: Seq<char>,
    min_word_len: nat,
    word: Seq<char>,
) -> bool {
    &&& kept(word, phrase, min_word_len)
    &&& exists|i: int| 0 <= i < upto && i < lines(content).len() && word == lowercase(#[trigger] lines(content)[i])
}

/// The number of bytes of a string slice.
pub fn count_bytes(text: &str) -> (n: usize)
    ensures
        n == byte_len(text@),
{
    text.as_bytes().len()
}

/// Decides `precedes`.
pub fn comes_before(a: &str, b: &str) -> (before: bool)
    ensures
        before == precedes(a@, b@),
{
    let m = count_bytes(a);
    let n = count_bytes(b);
    m < n || (m == n && less(a, b))
}

/// Whether `text` is made of letters.
pub fn only_letters(text: &str) -> (b: bool)
    ensures
        b == all_letters(text@),
{
    for c in it: text.chars()
        invariant
            it.seq() == text@,
            forall|i: int| 0 <= i < it.index() ==> is_letter(#[trigger] text@[i]),
    {
        if !letter(c) {
            return false;
        }
    }
    true
}

/// Puts `word` at its place in an ascending list, unless the list holds it.
pub fn insert_ascending(words: &mut Vec<String>, word: String)
    requires
        ascending(views(old(words)@)),
    ensures
        ascending(views(final(words)@)),
        forall|other: Seq<char>| #[trigger]
            views(final(words)@).contains(other) <==> (other == word@ || views(old(words)@).contains(
                other,
            )),
{
    let ghost before = views(words@);
    let n = words.len();
    let mut i: usize = 0;
    while i < n && comes_before(words[i].as_str(), word.as_str())
        invariant
            n == words@.len(),
            i <= n,
            *words == *old(words),
            before == views(words@),
            forall|j: int| 0 <= j < i ==> precedes(#[trigger] before[j], word@),
        decreases n - i,
    {
        assert(before[i as int] == words@[i as int]@);
        i = i + 1;
    }
    if i < n {
        assert(before[i as int] == words@[i as int]@);
        if !comes_before(word.as_str(), words[i].as_str()) {
            proof {
                lemma_lex_less_total(word@, before[i as int]);
                assert forall|other: Seq<char>| #[trigger]
                    before.contains(other) <==> (other == word@ || before.contains(other)) by {}
            }
            return;
        }
    }
    words.insert(i, word);
    proof {
        let after = views(words@);
        assert(after =~= before.insert(i as int, word@));
        assert forall|a: int, b: int| 0 <= a < b < after.len() implies precedes(
            #[trigger] after[a],
            #[trigger] after[b],
        ) by {
            if b < i {
                assert(after[a] == before[a] && after[b] == before[b]);
            } else if b == i {
                assert(after[a] == before[a]);
            } else if a < i {
                assert(after[a] == before[a] && after[b] == before[b - 1]);
            } else if a == i {
                assert(after[b] == before[b - 1]);
                if b - 1 > i {
                    assert(precedes(before[i as int], before[b - 1]));
                    if byte_len(word@) == byte_len(before[i as int]) && byte_len(before[i as int])
                        == byte_len(before[b - 1]) {
                        lemma_lex_less_transitive(word@, before[i as int], before[b - 1]);
                    }
                }
            } else {
                assert(after[a] == before[a - 1] && after[b] == before[b - 1]);
            }
        }
        assert forall|other: Seq<char>| #[trigger]
            after.contains(other) <==> (other == word@ || before.contains(other)) by {
            if after.contains(other) {
                let k = choose|k: int| 0 <= k < after.len() && after[k] == other;
                if k < i {
                    assert(before[k] == other);
                } else if k > i {
                    assert(before[k - 1] == other);
                }
            }
            if other == word@ {
                assert(after[i as int] == other);
            }
            if before.contains(other) {
                let k = choose|k: int| 0 <= k < before.len() && before[k] == other;
                if k < i {
                    assert(after[k] == other);
                } else {
                    assert(after[k + 1] == other);
                }
            }
        }
    }
}

/// Reads, filters, transforms and sorts the content of a list of words, one
/// to a line, and returns a vector of words.
///
/// The list holds the lower-case form of each line of `content` that is kept:
/// not empty, made of letters that `phrase` can supply, of at least
/// `min_word_len` bytes. Each word stands once, the shorter before the
/// longer, and words of one length in the order of strings.
pub fn filter_words(content: &String, phrase: &str, min_word_len: usize) -> (words: Vec<String>)
    ensures
        ascending(views(words@)),
        views(words@).no_duplicates(),
        forall|word: Seq<char>| #[trigger]
            views(words@).contains(word) <==> listed(
                content@,
                lines(content@).len() as int,
                phrase@,
                min_word_len as nat,
                word,
            ),
        forall|k: int| 0 <= k < words@.len() ==> all_letters(#[trigger] words@[k]@),
{
    let entries = split_lines(content.as_str());
    let mut words: Vec<String> = Vec::new();
    let n = entries.len();
    let ghost min = min_word_len as nat;
    proof {
        assert(views(words@) =~= Seq::empty());
    }
    for k in 0..n
        invariant
            n == entries@.len(),
            views(entries@) == lines(content@),
            min == min_word_len as nat,
            ascending(views(words@)),
            forall|word: Seq<char>| #[trigger]
                views(words@).contains(word) <==> listed(content@, k as int, phrase@, min, word),
    {
        let lower = entries[k].as_str().to_lowercase();
        assert(lower@ == lowercase(lines(content@)[k as int])) by {
            assert(views(entries@)[k as int] == entries@[k as int]@);
        }
        let keep = !lower.as_str().is_empty() && only_letters(lower.as_str())
            && AnagramFinder::contain_str(lower.as_str(), phrase) && count_bytes(lower.as_str())
            >= min_word_len;
        assert(keep == kept(lower@, phrase@, min));
        if keep {
            insert_ascending(&mut words, lower);
        }
        proof {
            let after = views(words@);
            assert forall|word: Seq<char>| #[trigger]
                after.contains(word) <==> listed(content@, k + 1, phrase@, min, word) by {
                if listed(content@, k + 1, phrase@, min, word) {
                    let i = choose|i: int|
                        0 <= i < k + 1 && i < lines(content@).len() && word == lowercase(
                            #[trigger] lines(content@)[i],
                        );
                    if i < k {
                        assert(listed(content@, k as int, phrase@, min, word));
                    }
                }
                if listed(content@, k as int, phrase@, min, word) {
                    let i = choose|i: int|
                        0 <= i < k && i < lines(content@).len() && word == lowercase(
                            #[trigger] lines(content@)[i],
                        );
                    assert(listed(content@, k + 1, phrase@, min, word));
                }
            }
        }
    }
    proof {
        let list = views(words@);
        lemma_ascending_distinct(list);
        assert forall|k: int| 0 <= k < words@.len() implies all_letters(#[trigger] words@[k]@) by {
            assert(list[k] == words@[k]@);
            assert(list.contains(list[k]));
        }
    }
    words
}

} // verus!
