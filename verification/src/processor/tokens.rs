//! Words: the runs of letters, digits and apostrophes of a text.

use crate::processor::ngram::views;
use vstd::prelude::*;

verus! {

/// Whether a character belongs to a word: a lower-case ASCII letter, a
/// digit, the apostrophe, or one of the lower-case accented letters of
/// Czech, Spanish and German.
pub open spec fn is_word_char(c: char) -> bool {
    ||| 'a' <= c <= 'z'
    ||| '0' <= c <= '9'
    ||| c == '\''
    ||| c == '\u{11b}'
    ||| c == '\u{161}'
    ||| c == '\u{10d}'
    ||| c == '\u{159}'
    ||| c == '\u{17e}'
    ||| c == '\u{fd}'
    ||| c == '\u{e1}'
    ||| c == '\u{ed}'
    ||| c == '\u{e9}'
    ||| c == '\u{f1}'
    ||| c == '\u{fc}'
    ||| c == '\u{df}'
    ||| c == '\u{f6}'
    ||| c == '\u{e4}'
    ||| c == '\u{148}'
    ||| c == '\u{16f}'
    ||| c == '\u{fa}'
    ||| c == '\u{f3}'
}

/// Whether a character belongs to a word.
pub fn word_char(c: char) -> (is: bool)
    ensures
        is == is_word_char(c),
{
    (c >= 'a' && c <= 'z') || (c >= '0' && c <= '9') || c == '\'' || c == '\u{11b}' || c
        == '\u{161}' || c == '\u{10d}' || c == '\u{159}' || c == '\u{17e}' || c == '\u{fd}' || c
        == '\u{e1}' || c == '\u{ed}' || c == '\u{e9}' || c == '\u{f1}' || c == '\u{fc}' || c
        == '\u{df}' || c == '\u{f6}' || c == '\u{e4}' || c == '\u{148}' || c == '\u{16f}' || c
        == '\u{fa}' || c == '\u{f3}'
}

/// The words of a text: its maximal runs of word characters, in order. Every
/// other character parts two words and belongs to none.
pub open spec fn words_of(text: Seq<char>) -> Seq<Seq<char>>
    decreases text.len(),
{
    if text.len() == 0 {
        Seq::empty()
    } else if !is_word_char(text.last()) {
        words_of(text.drop_last())
    } else if text.len() >= 2 && is_word_char(text[text.len() - 2]) {
        let before = words_of(text.drop_last());
        before.drop_last().push(before.last().push(text.last()))
    } else {
        words_of(text.drop_last()).push(seq![text.last()])
    }
}

/// Splits a text into its words.
pub fn split_words(text: &str) -> (words: Vec<String>)
    ensures
        views(words@) == words_of(text@),
{
    let mut words: Vec<String> = Vec::new();
    let mut start: usize = 0;
    let mut in_word: bool = false;
    let mut i: usize = 0;
    let length: usize = text.unicode_len();
    assert(text@.take(0) =~= Seq::<char>::empty());
    for c in it: text.chars()
        invariant
            it.seq() == text@,
            length == text@.len(),
            i == it.index(),
            i <= text@.len(),
            in_word <==> i > 0 && is_word_char(text@[i - 1]),
            in_word ==> start < i && words_of(text@.take(i as int)) == views(words@).push(
                text@.subrange(start as int, i as int),
            ),
            !in_word ==> words_of(text@.take(i as int)) == views(words@),
    {
        let ghost seen = text@.take(i as int);
        let ghost more = text@.take(i as int + 1);
        proof {
            assert(c == text@[i as int]);
            assert(more.drop_last() =~= seen);
            assert(more.last() == c);
        }
        if word_char(c) {
            if !in_word {
                start = i;
                in_word = true;
                assert(text@.subrange(i as int, i as int + 1) =~= seq![c]);
            } else {
                proof {
                    let run = text@.subrange(start as int, i as int);
                    let listed = views(words@).push(run);
                    assert(more[more.len() - 2] == text@[i - 1]);
                    assert(listed.drop_last() =~= views(words@));
                    assert(run.push(c) =~= text@.subrange(start as int, i as int + 1));
                }
            }
        } else if in_word {
            let word: String = text.substring_char(start, i).to_owned();
            proof {
                assert(views(words@.push(word)) =~= views(words@).push(word@));
            }
            words.push(word);
            in_word = false;
        }
        i = i + 1;
    }
    assert(text@.take(i as int) =~= text@);
    if in_word {
        let word: String = text.substring_char(start, i).to_owned();
        proof {
            assert(views(words@.push(word)) =~= views(words@).push(word@));
        }
        words.push(word);
    }
    words
}

/// The lower-case form of a text as `str::to_lowercase` gives it.
pub uninterp spec fn lowercase_of(text: Seq<char>) -> Seq<char>;

/// Calls `str::to_lowercase`. The contract gives the result a name and
/// claims nothing of it but that it depends on the text alone, as the
/// conversion follows the Unicode tables and no locale.
#[verifier::external_body]
fn lowercase(text: &str) -> (lower: String)
    ensures
        lower@ == lowercase_of(text@),
{
    text.to_lowercase()
}

/// The words of a text after it was put in lower case.
pub open spec fn lowercase_words_of(text: Seq<char>) -> Seq<Seq<char>> {
    words_of(lowercase_of(text))
}

/// Puts a text in lower case and splits it into its words.
pub fn lowercase_words(text: &str) -> (words: Vec<String>)
    ensures
        views(words@) == lowercase_words_of(text@),
{
    let lower: String = lowercase(text);
    split_words(lower.as_str())
}

/// The words of a list with one space between each two.
pub open spec fn joined(words: Seq<Seq<char>>) -> Seq<char>
    decreases words.len(),
{
    if words.len() == 0 {
        Seq::empty()
    } else if words.len() == 1 {
        words[0]
    } else {
        joined(words.drop_last()) + seq![' '] + words.last()
    }
}

/// Joins words with single spaces.
pub fn join_words(words: &[String]) -> (text: String)
    ensures
        text@ == joined(views(words@)),
{
    let mut text: String = String::new();
    let mut k: usize = 0;
    assert(views(words@).take(0) =~= Seq::<Seq<char>>::empty());
    while k < words.len()
        invariant
            k <= words@.len(),
            text@ == joined(views(words@).take(k as int)),
        decreases words@.len() - k,
    {
        proof {
            reveal_strlit(" ");
            assert(views(words@).take(k as int + 1).drop_last() =~= views(words@).take(k as int));
            assert(views(words@).take(k as int + 1).last() == words@[k as int]@);
            assert(" "@ =~= seq![' ']);
        }
        if k > 0 {
            text.append(" ");
        }
        text.append(words[k].as_str());
        proof {
            if k == 0 {
                assert(text@ =~= words@[0]@);
                assert(views(words@).take(1)[0] == words@[0]@);
            }
        }
        k = k + 1;
    }
    assert(views(words@).take(k as int) =~= views(words@));
    text
}

/// Whether the characters from `start` up to `end` are a maximal run of
/// word characters: all of them belong to a word, and neither the character
/// before them nor the one after them does.
pub open spec fn is_word_span(text: Seq<char>, start: int, end: int) -> bool {
    &&& 0 <= start < end <= text.len()
    &&& forall|i: int| start <= i < end ==> is_word_char(#[trigger] text[i])
    &&& start > 0 ==> !is_word_char(text[start - 1])
    &&& end < text.len() ==> !is_word_char(text[end])
}

/// Where the words of a text stand in it: for each word, where it starts
/// and where it ends.
pub open spec fn word_spans(text: Seq<char>) -> Seq<(int, int)>
    decreases text.len(),
{
    if text.len() == 0 {
        Seq::empty()
    } else if !is_word_char(text.last()) {
        word_spans(text.drop_last())
    } else if text.len() >= 2 && is_word_char(text[text.len() - 2]) {
        let before = word_spans(text.drop_last());
        before.drop_last().push((before.last().0, text.len() as int))
    } else {
        word_spans(text.drop_last()).push((text.len() - 1, text.len() as int))
    }
}

/// The words of a text are its maximal runs of word characters: each word
/// is such a run, the runs stand apart and in the order of the words, and
/// every word character of the text lies in one of them.
pub proof fn lemma_words_are_maximal_runs(text: Seq<char>)
    ensures
        word_spans(text).len() == words_of(text).len(),
        forall|k: int|
            0 <= k < word_spans(text).len() ==> is_word_span(
                text,
                (#[trigger] word_spans(text)[k]).0,
                word_spans(text)[k].1,
            ) && words_of(text)[k] == text.subrange(word_spans(text)[k].0, word_spans(text)[k].1),
        forall|k: int, l: int|
            0 <= k < l < word_spans(text).len() ==> (#[trigger] word_spans(text)[k]).1 < (
            #[trigger] word_spans(text)[l]).0,
        forall|i: int|
            0 <= i < text.len() && is_word_char(#[trigger] text[i]) ==> exists|k: int|
                0 <= k < word_spans(text).len() && (#[trigger] word_spans(text)[k]).0 <= i
                    < word_spans(text)[k].1,
        text.len() > 0 && is_word_char(text.last()) ==> word_spans(text).len() > 0
            && word_spans(text).last().1 == text.len(),
    decreases text.len(),
{
    if text.len() > 0 {
        let init = text.drop_last();
        let c = text.last();
        let n = init.len() as int;
        lemma_words_are_maximal_runs(init);
        let spans = word_spans(init);
        let words = words_of(init);
        let now = word_spans(text);
        let named = words_of(text);
        assert forall|i: int| 0 <= i < n implies init[i] == text[i] by {}
        // No run of the beginning reaches its end unless the beginning ends
        // in a word character.
        assert forall|k: int| 0 <= k < spans.len() && (n == 0 || !is_word_char(init.last()))
            implies (#[trigger] spans[k]).1 < n by {
            assert(is_word_span(init, spans[k].0, spans[k].1));
            if spans[k].1 == n {
                assert(is_word_char(init[n - 1]));
            }
        }
        if !is_word_char(c) {
            assert forall|k: int| 0 <= k < now.len() implies is_word_span(
                text,
                (#[trigger] now[k]).0,
                now[k].1,
            ) && named[k] == text.subrange(now[k].0, now[k].1) by {
                assert(is_word_span(init, spans[k].0, spans[k].1));
                assert(words[k] == init.subrange(spans[k].0, spans[k].1));
                assert(init.subrange(spans[k].0, spans[k].1) =~= text.subrange(
                    spans[k].0,
                    spans[k].1,
                ));
            }
            assert forall|i: int| 0 <= i < text.len() && is_word_char(
                #[trigger] text[i],
            ) implies exists|k: int|
                0 <= k < now.len() && (#[trigger] now[k]).0 <= i < now[k].1 by {
                assert(is_word_char(init[i]));
            }
        } else if text.len() >= 2 && is_word_char(text[text.len() - 2]) {
            assert(init.last() == text[text.len() - 2]);
            let last = spans.len() - 1;
            assert(spans[last].1 == n);
            assert(is_word_span(init, spans[last].0, spans[last].1));
            assert(words[last] == init.subrange(spans[last].0, n));
            assert forall|k: int| 0 <= k < now.len() implies is_word_span(
                text,
                (#[trigger] now[k]).0,
                now[k].1,
            ) && named[k] == text.subrange(now[k].0, now[k].1) by {
                if k < last {
                    assert(now[k] == spans[k]);
                    assert(named[k] == words[k]);
                    assert(is_word_span(init, spans[k].0, spans[k].1));
                    assert(spans[k].1 < spans[last].0);
                    assert(words[k] == init.subrange(spans[k].0, spans[k].1));
                    assert(init.subrange(spans[k].0, spans[k].1) =~= text.subrange(
                        spans[k].0,
                        spans[k].1,
                    ));
                } else {
                    assert(now[k] == (spans[last].0, n + 1));
                    assert(named[k] == words[last].push(c));
                    assert(init.subrange(spans[last].0, n).push(c) =~= text.subrange(
                        spans[last].0,
                        n + 1,
                    ));
                    assert forall|i: int| spans[last].0 <= i < n + 1 implies is_word_char(
                        #[trigger] text[i],
                    ) by {
                        if i < n {
                            assert(is_word_char(init[i]));
                        }
                    }
                }
            }
            assert forall|k: int, l: int| 0 <= k < l < now.len() implies (#[trigger] now[k]).1 < (
            #[trigger] now[l]).0 by {
                assert(now[k] == spans[k]);
                if l < last {
                    assert(now[l] == spans[l]);
                } else {
                    assert(spans[k].1 < spans[last].0);
                }
            }
            assert forall|i: int| 0 <= i < text.len() && is_word_char(
                #[trigger] text[i],
            ) implies exists|k: int|
                0 <= k < now.len() && (#[trigger] now[k]).0 <= i < now[k].1 by {
                if i < n {
                    assert(is_word_char(init[i]));
                    let k = choose|k: int|
                        0 <= k < spans.len() && (#[trigger] spans[k]).0 <= i < spans[k].1;
                    if k < last {
                        assert(now[k] == spans[k]);
                    } else {
                        assert(now[last].0 <= i < now[last].1);
                    }
                } else {
                    assert(now[last].0 <= i < now[last].1);
                }
            }
        } else {
            let last = spans.len() as int;
            assert(n == 0 || !is_word_char(init.last())) by {
                if n > 0 {
                    assert(init.last() == text[text.len() - 2]);
                }
            }
            assert forall|k: int| 0 <= k < now.len() implies is_word_span(
                text,
                (#[trigger] now[k]).0,
                now[k].1,
            ) && named[k] == text.subrange(now[k].0, now[k].1) by {
                if k < last {
                    assert(now[k] == spans[k]);
                    assert(named[k] == words[k]);
                    assert(is_word_span(init, spans[k].0, spans[k].1));
                    assert(spans[k].1 < n);
                    assert(words[k] == init.subrange(spans[k].0, spans[k].1));
                    assert(init.subrange(spans[k].0, spans[k].1) =~= text.subrange(
                        spans[k].0,
                        spans[k].1,
                    ));
                } else {
                    assert(now[k] == (n, n + 1));
                    assert(named[k] =~= text.subrange(n, n + 1));
                }
            }
            assert forall|k: int, l: int| 0 <= k < l < now.len() implies (#[trigger] now[k]).1 < (
            #[trigger] now[l]).0 by {
                assert(now[k] == spans[k]);
                if l < last {
                    assert(now[l] == spans[l]);
                } else {
                    assert(spans[k].1 < n);
                }
            }
            assert forall|i: int| 0 <= i < text.len() && is_word_char(
                #[trigger] text[i],
            ) implies exists|k: int|
                0 <= k < now.len() && (#[trigger] now[k]).0 <= i < now[k].1 by {
                if i < n {
                    assert(is_word_char(init[i]));
                    let k = choose|k: int|
                        0 <= k < spans.len() && (#[trigger] spans[k]).0 <= i < spans[k].1;
                    assert(now[k] == spans[k]);
                } else {
                    assert(now[last].0 <= i < now[last].1);
                }
            }
        }
    }
}

} // verus!
