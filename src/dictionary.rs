//! Loading a user word list, one word per line, into a mutable dictionary.

use vstd::prelude::*;

use harper_core::{MutableDictionary, WordMetadata};

use crate::lines::{char_rows, lines_of, split_lines};
use crate::text::chars_of;

verus! {

#[verifier::external_type_specification]
#[verifier::external_body]
pub struct ExMutableDictionary(MutableDictionary);

/// What a dictionary holds: for each word key, the spelling stored under it.
pub uninterp spec fn dict_entries(d: MutableDictionary) -> Map<u64, Seq<char>>;

/// The keys whose entry carries `WordMetadata::default()`.
pub uninterp spec fn dict_default_keys(d: MutableDictionary) -> Set<u64>;

/// The key under which a dictionary files a word: harper's `WordId`, a fixed
/// hash of the word's normalized, lower-cased characters.
pub uninterp spec fn word_key(w: Seq<char>) -> u64;

/// What adding `words`, in order, to a dictionary that holds `m` leaves:
/// a later word replaces an earlier one with the same key.
pub open spec fn with_words(m: Map<u64, Seq<char>>, words: Seq<Seq<char>>) -> Map<u64, Seq<char>>
    decreases words.len(),
{
    if words.len() == 0 {
        m
    } else {
        with_words(m, words.drop_last()).insert(word_key(words.last()), words.last())
    }
}

/// What a dictionary built from the lines `words` holds.
pub open spec fn entries_of(words: Seq<Seq<char>>) -> Map<u64, Seq<char>> {
    with_words(Map::empty(), words)
}

/// Relies on `MutableDictionary::new`: a dictionary over an empty word map.
#[verifier::external_body]
fn empty_dictionary() -> (r: MutableDictionary)
    ensures
        dict_entries(r).dom() == Set::<u64>::empty(),
        dict_default_keys(r) == Set::<u64>::empty(),
{
    MutableDictionary::new()
}

/// Relies on `MutableDictionary::append_word`, with default metadata: the word
/// map inserts the entry, spelling and default metadata, under the word's
/// `WordId`, replacing any entry there.
#[verifier::external_body]
fn add_word(d: &mut MutableDictionary, w: &Vec<char>)
    ensures
        dict_entries(*final(d)) == dict_entries(*old(d)).insert(word_key(w@), w@),
        dict_default_keys(*final(d)) == dict_default_keys(*old(d)).insert(word_key(w@)),
{
    d.append_word(w, WordMetadata::default())
}

/// A dictionary of the words in `text`: each line is one word, taken whole,
/// and added with default metadata.
pub fn dict_from_text(text: &str) -> (r: MutableDictionary)
    ensures
        dict_entries(r) == entries_of(lines_of(text@)),
        dict_default_keys(r) == dict_entries(r).dom(),
{
    let chars = chars_of(text);
    let lines = split_lines(&chars);
    let mut d = empty_dictionary();
    proof {
        assert(dict_entries(d) =~= entries_of(char_rows(lines@).take(0)));
        assert(dict_default_keys(d) =~= dict_entries(d).dom());
    }
    let mut i: usize = 0;
    while i < lines.len()
        invariant
            0 <= i <= lines.len(),
            dict_entries(d) == entries_of(char_rows(lines@).take(i as int)),
            dict_default_keys(d) == dict_entries(d).dom(),
        decreases lines.len() - i,
    {
        add_word(&mut d, &lines[i]);
        proof {
            let ws = char_rows(lines@);
            assert(ws.take(i + 1).drop_last() =~= ws.take(i as int));
            assert(ws.take(i + 1).last() == lines@[i as int]@);
            assert(dict_default_keys(d) =~= dict_entries(d).dom());
        }
        i += 1;
    }
    proof {
        assert(char_rows(lines@).take(lines.len() as int) =~= char_rows(lines@));
    }
    d
}

/// The words that a dictionary built from `words` holds are keyed by exactly
/// the keys of those words.
pub proof fn lemma_entries_keys(words: Seq<Seq<char>>)
    ensures
        entries_of(words).dom() == words.map_values(|w: Seq<char>| word_key(w)).to_set(),
        entries_of(words).dom().finite(),
    decreases words.len(),
{
    let ks = words.map_values(|w: Seq<char>| word_key(w));
    if words.len() == 0 {
        assert(ks.to_set() =~= Set::<u64>::empty());
        assert(entries_of(words).dom() =~= Set::<u64>::empty());
    } else {
        let init = words.drop_last();
        lemma_entries_keys(init);
        let ki = init.map_values(|w: Seq<char>| word_key(w));
        assert(ks =~= ki.push(word_key(words.last())));
        assert(ks.to_set() =~= ki.to_set().insert(word_key(words.last()))) by {
            assert forall|k: u64| ks.to_set().contains(k) <==> ki.to_set().insert(
                word_key(words.last()),
            ).contains(k) by {
                if ks.to_set().contains(k) {
                    let j = choose|j: int| 0 <= j < ks.len() && ks[j] == k;
                    if j < ki.len() {
                        assert(ki[j] == k);
                    }
                }
                if ki.to_set().contains(k) {
                    let j = choose|j: int| 0 <= j < ki.len() && ki[j] == k;
                    assert(ks[j] == k);
                }
                if k == word_key(words.last()) {
                    assert(ks[ks.len() - 1] == k);
                }
            }
        }
        assert(entries_of(words).dom() =~= entries_of(init).dom().insert(word_key(words.last())));
    }
}

/// A word list of `n` lines whose words all have different keys gives a
/// dictionary of exactly `n` entries, each line stored under its own key.
/// Lines that differ only in letter case share a key, so they are not
/// distinct here.
pub proof fn lemma_distinct_lines_count(text: Seq<char>)
    requires
        forall|i: int, j: int|
            0 <= i < j < lines_of(text).len() ==> word_key(#[trigger] lines_of(text)[i])
                != word_key(#[trigger] lines_of(text)[j]),
    ensures
        entries_of(lines_of(text)).dom().len() == lines_of(text).len(),
        forall|i: int|
            0 <= i < lines_of(text).len() ==> entries_of(lines_of(text))[word_key(
                #[trigger] lines_of(text)[i],
            )] == lines_of(text)[i],
{
    lemma_distinct_count(lines_of(text));
}

proof fn lemma_distinct_count(words: Seq<Seq<char>>)
    requires
        forall|i: int, j: int|
            0 <= i < j < words.len() ==> word_key(#[trigger] words[i]) != word_key(
                #[trigger] words[j],
            ),
    ensures
        entries_of(words).dom().len() == words.len(),
        forall|i: int|
            0 <= i < words.len() ==> entries_of(words)[word_key(#[trigger] words[i])] == words[i],
    decreases words.len(),
{
    if words.len() > 0 {
        let init = words.drop_last();
        assert forall|i: int, j: int| 0 <= i < j < init.len() implies word_key(
            #[trigger] init[i],
        ) != word_key(#[trigger] init[j]) by {
            assert(init[i] == words[i] && init[j] == words[j]);
        }
        lemma_distinct_count(init);
        lemma_entries_keys(init);
        let last = words.last();
        assert(!entries_of(init).dom().contains(word_key(last))) by {
            if entries_of(init).dom().contains(word_key(last)) {
                let ki = init.map_values(|w: Seq<char>| word_key(w));
                let j = choose|j: int| 0 <= j < ki.len() && ki[j] == word_key(last);
                assert(word_key(words[j]) != word_key(words[words.len() - 1]));
            }
        }
        assert forall|i: int| 0 <= i < words.len() implies entries_of(words)[word_key(
            #[trigger] words[i],
        )] == words[i] by {
            if i < words.len() - 1 {
                assert(init[i] == words[i]);
                assert(word_key(words[i]) != word_key(words[words.len() - 1]));
            }
        }
    }
}

/// A line that repeats an earlier one adds no entry: the dictionary keeps
/// exactly one entry for that word, and the entry count does not change.
pub proof fn lemma_repeated_line(words: Seq<Seq<char>>, w: Seq<char>)
    requires
        words.contains(w),
    ensures
        entries_of(words.push(w)).dom() == entries_of(words).dom(),
        entries_of(words.push(w)).dom().len() == entries_of(words).dom().len(),
        entries_of(words.push(w))[word_key(w)] == w,
{
    lemma_entries_keys(words);
    let j = choose|j: int| 0 <= j < words.len() && words[j] == w;
    let ks = words.map_values(|v: Seq<char>| word_key(v));
    assert(ks[j] == word_key(w));
    assert(words.push(w).drop_last() =~= words);
    assert(entries_of(words.push(w)).dom() =~= entries_of(words).dom());
}

/// Adding words replaces, under each of their keys, whatever was there by
/// the last of them with that key, and keeps every other entry.
pub proof fn lemma_with_words_overrides(m: Map<u64, Seq<char>>, words: Seq<Seq<char>>)
    ensures
        with_words(m, words) == m.union_prefer_right(entries_of(words)),
    decreases words.len(),
{
    if words.len() == 0 {
        assert(m.union_prefer_right(entries_of(words)) =~= m);
    } else {
        lemma_with_words_overrides(m, words.drop_last());
        lemma_with_words_overrides(Map::empty(), words.drop_last());
        assert(with_words(m, words) =~= m.union_prefer_right(entries_of(words)));
    }
}

/// Adding `a` and then `b` is adding `a + b`.
pub proof fn lemma_with_words_concat(m: Map<u64, Seq<char>>, a: Seq<Seq<char>>, b: Seq<Seq<char>>)
    ensures
        with_words(with_words(m, a), b) == with_words(m, a + b),
    decreases b.len(),
{
    if b.len() == 0 {
        assert(a + b =~= a);
    } else {
        lemma_with_words_concat(m, a, b.drop_last());
        assert((a + b).drop_last() =~= a + b.drop_last());
        assert((a + b).last() == b.last());
    }
}

/// A word list read twice over gives the same dictionary as the list read
/// once: the same words, and (every entry carrying default metadata) the same
/// metadata.
pub proof fn lemma_doubled_lines(words: Seq<Seq<char>>)
    ensures
        entries_of(words + words) == entries_of(words),
{
    lemma_with_words_concat(Map::empty(), words, words);
    lemma_with_words_overrides(entries_of(words), words);
    assert(entries_of(words).union_prefer_right(entries_of(words)) =~= entries_of(words));
}

/// The keys of a dictionary depend on the set of its lines only, not on
/// their order or repetition.
pub proof fn lemma_line_order_keys(a: Seq<Seq<char>>, b: Seq<Seq<char>>)
    requires
        a.to_set() == b.to_set(),
    ensures
        entries_of(a).dom() == entries_of(b).dom(),
{
    lemma_entries_keys(a);
    lemma_entries_keys(b);
    let ka = a.map_values(|w: Seq<char>| word_key(w));
    let kb = b.map_values(|w: Seq<char>| word_key(w));
    assert forall|k: u64| ka.to_set().contains(k) implies kb.to_set().contains(k) by {
        let i = choose|i: int| 0 <= i < ka.len() && ka[i] == k;
        assert(a.to_set().contains(a[i]));
        let j = choose|j: int| 0 <= j < b.len() && b[j] == a[i];
        assert(kb[j] == k);
    }
    assert forall|k: u64| kb.to_set().contains(k) implies ka.to_set().contains(k) by {
        let j = choose|j: int| 0 <= j < kb.len() && kb[j] == k;
        assert(b.to_set().contains(b[j]));
        let i = choose|i: int| 0 <= i < a.len() && a[i] == b[j];
        assert(ka[i] == k);
    }
    assert(ka.to_set() =~= kb.to_set());
}

/// Two word lists with the same lines in any order give the same dictionary,
/// provided no two lines share a key (lines that differ only in letter case
/// do): then each key holds the one line filed under it.
pub proof fn lemma_line_order(a: Seq<Seq<char>>, b: Seq<Seq<char>>)
    requires
        a.to_set() == b.to_set(),
        forall|i: int, j: int|
            0 <= i < j < a.len() ==> word_key(#[trigger] a[i]) != word_key(#[trigger] a[j]),
        forall|i: int, j: int|
            0 <= i < j < b.len() ==> word_key(#[trigger] b[i]) != word_key(#[trigger] b[j]),
    ensures
        entries_of(a) == entries_of(b),
{
    lemma_line_order_keys(a, b);
    lemma_distinct_count(a);
    lemma_distinct_count(b);
    lemma_entries_keys(a);
    assert forall|k: u64| #[trigger] entries_of(a).contains_key(k) implies entries_of(a)[k]
        == entries_of(b)[k] by {
        let ka = a.map_values(|w: Seq<char>| word_key(w));
        let i = choose|i: int| 0 <= i < ka.len() && ka[i] == k;
        assert(a.to_set().contains(a[i]));
        let j = choose|j: int| 0 <= j < b.len() && b[j] == a[i];
        assert(entries_of(a)[word_key(a[i])] == a[i]);
        assert(entries_of(b)[word_key(b[j])] == b[j]);
    }
    assert(entries_of(a) =~= entries_of(b));
}

} // verus!
