//! Splitting text into the words a search goes by.

use crate::lists;
use crate::text;
use vstd::prelude::*;

verus! {

/// Whether a character outside ASCII is alphanumeric, as `char::is_alphanumeric` has it.
pub uninterp spec fn is_unicode_alphanumeric(c: char) -> bool;

/// Whether a character outside ASCII is uppercase, as `char::is_uppercase` has it.
pub uninterp spec fn is_unicode_uppercase(c: char) -> bool;

/// Whether a character outside ASCII is lowercase, as `char::is_lowercase` has it.
pub uninterp spec fn is_unicode_lowercase(c: char) -> bool;

/// Whether `c` is an ASCII character.
pub open spec fn is_ascii(c: char) -> bool {
    (c as u32) < 128
}

/// Whether `c` is a letter or a digit.
pub open spec fn alphanumeric(c: char) -> bool {
    if is_ascii(c) {
        'a' <= c <= 'z' || 'A' <= c <= 'Z' || '0' <= c <= '9'
    } else {
        is_unicode_alphanumeric(c)
    }
}

/// Whether `c` is a capital.
pub open spec fn uppercase(c: char) -> bool {
    if is_ascii(c) {
        'A' <= c <= 'Z'
    } else {
        is_unicode_uppercase(c)
    }
}

/// Whether `c` is a small letter.
pub open spec fn lowercase(c: char) -> bool {
    if is_ascii(c) {
        'a' <= c <= 'z'
    } else {
        is_unicode_lowercase(c)
    }
}

/// `char::is_alphanumeric`: of ASCII characters, the letters and the digits.
pub assume_specification[ char::is_alphanumeric ](c: char) -> (found: bool)
    ensures
        found == (if is_ascii(c) {
            'a' <= c <= 'z' || 'A' <= c <= 'Z' || '0' <= c <= '9'
        } else {
            is_unicode_alphanumeric(c)
        }),
;

/// `char::is_uppercase`: of ASCII characters, the letters from `A` to `Z`.
pub assume_specification[ char::is_uppercase ](c: char) -> (found: bool)
    ensures
        found == (if is_ascii(c) {
            'A' <= c <= 'Z'
        } else {
            is_unicode_uppercase(c)
        }),
;

/// `char::is_lowercase`: of ASCII characters, the letters from `a` to `z`.
pub assume_specification[ char::is_lowercase ](c: char) -> (found: bool)
    ensures
        found == (if is_ascii(c) {
            'a' <= c <= 'z'
        } else {
            is_unicode_lowercase(c)
        }),
;

/// Whether `next` belongs to the same word as the character `c` before it: both are
/// alphanumeric, and no camelCase boundary stands between them.
pub open spec fn same_word(c: char, next: char) -> bool {
    alphanumeric(c) && alphanumeric(next) && !(lowercase(c) && uppercase(next))
}

/// The words of `text` as they are written: the runs of alphanumeric characters, broken at
/// camelCase boundaries.
pub open spec fn runs(text: Seq<char>) -> Seq<Seq<char>>
    decreases text.len(),
{
    if text.len() == 0 {
        Seq::empty()
    } else {
        let before = runs(text.drop_last());
        let c = text.last();
        if !alphanumeric(c) {
            before
        } else if text.len() > 1 && same_word(text[text.len() - 2], c) {
            before.drop_last().push(before.last().push(c))
        } else {
            before.push(seq![c])
        }
    }
}

/// The words of `text`, in lowercase.
pub open spec fn words(text: Seq<char>) -> Seq<Seq<char>> {
    runs(text).map_values(|run: Seq<char>| text::lowercase(run))
}

/// Splits text into lowercase words, breaking camelCase and snake_case boundaries.
pub fn split_identifiers(text: &str) -> (tokens: Vec<String>)
    ensures
        lists::texts(tokens@) == words(text@),
{
    let chars = text::chars_of(text);
    let ghost low = |run: Seq<char>| text::lowercase(run);
    let mut tokens: Vec<String> = Vec::new();
    let ghost mut taken: Seq<Seq<char>> = Seq::empty();
    let mut current = String::new();
    let mut previous_was_lowercase = false;
    let mut i: usize = 0;
    assert(runs(text@.take(0)) =~= taken);
    assert(lists::texts(tokens@) =~= taken.map_values(low));
    while i < chars.len()
        invariant
            chars@ == text@,
            i <= text@.len(),
            low == (|run: Seq<char>| text::lowercase(run)),
            current@.len() > 0 <==> i > 0 && alphanumeric(text@[i - 1]),
            previous_was_lowercase <==> i > 0 && alphanumeric(text@[i - 1]) && lowercase(
                text@[i - 1],
            ),
            lists::texts(tokens@) == taken.map_values(low),
            runs(text@.take(i as int)) == (if current@.len() > 0 {
                taken.push(current@)
            } else {
                taken
            }),
        decreases text@.len() - i,
    {
        let ghost had = taken;
        let ghost shown = lists::texts(tokens@);
        let ghost run = current@;
        let ghost head = text@.take(i + 1);
        let character = chars[i];
        proof {
            assert(head.drop_last() =~= text@.take(i as int));
            assert(head.last() == character);
            if i > 0 {
                assert(head[head.len() - 2] == text@[i - 1]);
            }
        }
        if character.is_alphanumeric() {
            if character.is_uppercase() && previous_was_lowercase && !current.as_str().is_empty() {
                tokens.push(text::lowered(current.as_str()));
                current = String::new();
                proof {
                    taken = had.push(run);
                    assert(lists::texts(tokens@) =~= shown.push(low(run)));
                    assert(taken.map_values(low) =~= shown.push(low(run)));
                }
            }
            previous_was_lowercase = character.is_lowercase();
            current.push(character);
            proof {
                if i > 0 && same_word(text@[i - 1], character) {
                    assert(had.push(run).drop_last() =~= had);
                } else {
                    assert(current@ =~= seq![character]);
                }
            }
        } else {
            if !current.as_str().is_empty() {
                tokens.push(text::lowered(current.as_str()));
                current = String::new();
                proof {
                    taken = had.push(run);
                    assert(lists::texts(tokens@) =~= shown.push(low(run)));
                    assert(taken.map_values(low) =~= shown.push(low(run)));
                }
            }
            previous_was_lowercase = false;
        }
        i += 1;
    }
    assert(text@.take(text@.len() as int) =~= text@);
    if !current.as_str().is_empty() {
        let ghost shown = lists::texts(tokens@);
        tokens.push(text::lowered(current.as_str()));
        assert(lists::texts(tokens@) =~= shown.push(low(current@)));
        assert(taken.push(current@).map_values(low) =~= shown.push(low(current@)));
    }
    tokens
}

/// Words too common to search by.
pub open spec fn is_stopword(word: Seq<char>) -> bool {
    ||| word == "the"@
    ||| word == "a"@
    ||| word == "an"@
    ||| word == "and"@
    ||| word == "are"@
    ||| word == "as"@
    ||| word == "at"@
    ||| word == "be"@
    ||| word == "by"@
    ||| word == "code"@
    ||| word == "define"@
    ||| word == "defined"@
    ||| word == "does"@
    ||| word == "file"@
    ||| word == "files"@
    ||| word == "for"@
    ||| word == "from"@
    ||| word == "function"@
    ||| word == "functions"@
    ||| word == "handle"@
    ||| word == "handled"@
    ||| word == "handles"@
    ||| word == "handling"@
    ||| word == "how"@
    ||| word == "implement"@
    ||| word == "implementation"@
    ||| word == "implemented"@
    ||| word == "in"@
    ||| word == "is"@
    ||| word == "it"@
    ||| word == "its"@
    ||| word == "of"@
    ||| word == "on"@
    ||| word == "or"@
    ||| word == "repo"@
    ||| word == "repository"@
    ||| word == "that"@
    ||| word == "this"@
    ||| word == "to"@
    ||| word == "use"@
    ||| word == "used"@
    ||| word == "uses"@
    ||| word == "using"@
    ||| word == "we"@
    ||| word == "what"@
    ||| word == "when"@
    ||| word == "where"@
    ||| word == "which"@
    ||| word == "who"@
    ||| word == "with"@
}

/// Whether a word is too common to search by.
fn is_common(word: &str) -> (common: bool)
    ensures
        common == is_stopword(word@),
{
    text::same_text(word, "the")
        || text::same_text(word, "a")
        || text::same_text(word, "an")
        || text::same_text(word, "and")
        || text::same_text(word, "are")
        || text::same_text(word, "as")
        || text::same_text(word, "at")
        || text::same_text(word, "be")
        || text::same_text(word, "by")
        || text::same_text(word, "code")
        || text::same_text(word, "define")
        || text::same_text(word, "defined")
        || text::same_text(word, "does")
        || text::same_text(word, "file")
        || text::same_text(word, "files")
        || text::same_text(word, "for")
        || text::same_text(word, "from")
        || text::same_text(word, "function")
        || text::same_text(word, "functions")
        || text::same_text(word, "handle")
        || text::same_text(word, "handled")
        || text::same_text(word, "handles")
        || text::same_text(word, "handling")
        || text::same_text(word, "how")
        || text::same_text(word, "implement")
        || text::same_text(word, "implementation")
        || text::same_text(word, "implemented")
        || text::same_text(word, "in")
        || text::same_text(word, "is")
        || text::same_text(word, "it")
        || text::same_text(word, "its")
        || text::same_text(word, "of")
        || text::same_text(word, "on")
        || text::same_text(word, "or")
        || text::same_text(word, "repo")
        || text::same_text(word, "repository")
        || text::same_text(word, "that")
        || text::same_text(word, "this")
        || text::same_text(word, "to")
        || text::same_text(word, "use")
        || text::same_text(word, "used")
        || text::same_text(word, "uses")
        || text::same_text(word, "using")
        || text::same_text(word, "we")
        || text::same_text(word, "what")
        || text::same_text(word, "when")
        || text::same_text(word, "where")
        || text::same_text(word, "which")
        || text::same_text(word, "who")
        || text::same_text(word, "with")
}

/// Whether a word says enough to search by it: it is longer than one character and not too common.
pub open spec fn is_telling(word: Seq<char>) -> bool {
    word.len() > 1 && !is_stopword(word)
}

/// The search tokens of a query: its telling words, each where it first occurs.
pub open spec fn search_tokens(query: Seq<char>) -> Seq<Seq<char>> {
    lists::without_repeats(words(query).filter(|word: Seq<char>| is_telling(word)))
}

/// Splits a query into lowercase search tokens, dropping stopwords and single characters.
pub fn query_tokens(query: &str) -> (tokens: Vec<String>)
    ensures
        lists::texts(tokens@) == search_tokens(query@),
{
    let all = split_identifiers(query);
    let ghost found = words(query@);
    let ghost telling = |word: Seq<char>| is_telling(word);
    let mut kept: Vec<String> = Vec::new();
    let mut i: usize = 0;
    proof {
        reveal(Seq::filter);
        assert(found.take(0).filter(telling) =~= Seq::empty());
        assert(lists::texts(kept@) =~= Seq::empty());
    }
    while i < all.len()
        invariant
            i <= all@.len(),
            found == lists::texts(all@),
            telling == (|word: Seq<char>| is_telling(word)),
            lists::texts(kept@) == found.take(i as int).filter(telling),
        decreases all@.len() - i,
    {
        let word = &all[i];
        let ghost before = lists::texts(kept@);
        if word.as_str().unicode_len() > 1 && !is_common(word.as_str()) {
            kept.push(word.clone());
            assert(lists::texts(kept@) =~= before.push(word@));
        }
        proof {
            assert(found[i as int] == word@);
            assert(found.take(i + 1) =~= found.take(i as int).push(word@));
            found.take(i as int).lemma_filter_push(word@, telling);
        }
        i += 1;
    }
    assert(found.take(found.len() as int) =~= found);
    lists::unique(kept)
}

/// Where the words of `text` stand in it: for each, the position of its first character and the
/// one behind its last.
pub open spec fn word_bounds(text: Seq<char>) -> Seq<(int, int)>
    decreases text.len(),
{
    if text.len() == 0 {
        Seq::empty()
    } else {
        let before = word_bounds(text.drop_last());
        let end = text.len() as int;
        if !alphanumeric(text.last()) {
            before
        } else if text.len() > 1 && same_word(text[end - 2], text.last()) {
            before.drop_last().push((before.last().0, end))
        } else {
            before.push((end - 1, end))
        }
    }
}

/// Whether the character at `i` belongs to the word at `w`.
pub open spec fn is_in_word(text: Seq<char>, w: int, i: int) -> bool {
    0 <= w < word_bounds(text).len() && word_bounds(text)[w].0 <= i < word_bounds(text)[w].1
}

/// Whether the word that the character at `i` belongs to goes on behind it.
pub open spec fn goes_on(text: Seq<char>, i: int) -> bool {
    same_word(text[i], text[i + 1])
}

/// Whether the stretch from `from` to `to` is a whole word: alphanumeric characters without a
/// boundary between them, and a boundary at either end.
pub open spec fn is_whole_word(text: Seq<char>, from: int, to: int) -> bool {
    &&& 0 <= from < to <= text.len()
    &&& forall|i: int| from <= i < to ==> alphanumeric(#[trigger] text[i])
    &&& forall|i: int| from <= i < to - 1 ==> #[trigger] goes_on(text, i)
    &&& from > 0 ==> !goes_on(text, from - 1)
    &&& to < text.len() ==> !goes_on(text, to - 1)
}

/// A whole word stays one when a character follows that does not belong to it.
proof fn lemma_word_stays(text: Seq<char>, c: char, from: int, to: int)
    requires
        is_whole_word(text, from, to),
        to == text.len() ==> !same_word(text.last(), c),
    ensures
        is_whole_word(text.push(c), from, to),
        text.push(c).subrange(from, to) == text.subrange(from, to),
{
    let all = text.push(c);
    assert(all.subrange(from, to) =~= text.subrange(from, to));
    assert forall|i: int| from <= i < to - 1 implies #[trigger] goes_on(all, i) by {
        assert(goes_on(text, i));
    }
    assert forall|i: int| from <= i < to implies alphanumeric(#[trigger] all[i]) by {
        assert(all[i] == text[i]);
    }
    if from > 0 {
        assert(goes_on(all, from - 1) == goes_on(text, from - 1));
    }
    if to < text.len() {
        assert(goes_on(all, to - 1) == goes_on(text, to - 1));
    }
}

/// A word at the end of a text grows by a character that belongs to it.
proof fn lemma_word_grows(text: Seq<char>, c: char, from: int)
    requires
        is_whole_word(text, from, text.len() as int),
        same_word(text.last(), c),
    ensures
        is_whole_word(text.push(c), from, (text.len() + 1) as int),
        text.push(c).subrange(from, (text.len() + 1) as int) == text.subrange(
            from,
            text.len() as int,
        ).push(c),
{
    let all = text.push(c);
    let end = text.len() as int;
    assert(all.subrange(from, end + 1) =~= text.subrange(from, end).push(c));
    assert forall|i: int| from <= i < end implies #[trigger] goes_on(all, i) by {
        if i < end - 1 {
            assert(goes_on(text, i));
        }
    }
    assert forall|i: int| from <= i < end + 1 implies alphanumeric(#[trigger] all[i]) by {
        if i < end {
            assert(all[i] == text[i]);
        }
    }
    if from > 0 {
        assert(goes_on(all, from - 1) == goes_on(text, from - 1));
    }
}

/// The words are whole stretches between boundaries, one after the other.
pub proof fn words_are_whole_stretches(text: Seq<char>)
    ensures
        word_bounds(text).len() == runs(text).len(),
        words(text).len() == runs(text).len(),
        forall|w: int|
            0 <= w < word_bounds(text).len() ==> {
                let (from, to) = #[trigger] word_bounds(text)[w];
                &&& is_whole_word(text, from, to)
                &&& runs(text)[w] == text.subrange(from, to)
                &&& words(text)[w] == text::lowercase(text.subrange(from, to))
            },
        forall|v: int, w: int|
            0 <= v < w < word_bounds(text).len() ==> (#[trigger] word_bounds(text)[v]).1 <= (
            #[trigger] word_bounds(text)[w]).0,
        text.len() > 0 && alphanumeric(text.last()) ==> word_bounds(text).len() > 0
            && word_bounds(text).last().1 == text.len(),
    decreases text.len(),
{
    if text.len() > 0 {
        let rest = text.drop_last();
        let end = text.len() as int;
        let c = text.last();
        let before = word_bounds(rest);
        let all = word_bounds(text);
        words_are_whole_stretches(rest);
        let grows = alphanumeric(c) && end > 1 && same_word(text[end - 2], c);
        if grows {
            assert(rest.last() == text[end - 2]);
        }
        assert(text =~= rest.push(c));
        assert forall|w: int| 0 <= w < all.len() implies {
            let (from, to) = #[trigger] all[w];
            &&& is_whole_word(text, from, to)
            &&& runs(text)[w] == text.subrange(from, to)
        } by {
            let (from, to) = all[w];
            if w < before.len() && !(grows && w == before.len() - 1) {
                assert(before[w] == (from, to));
                if grows {
                    assert(before[w].1 <= before[before.len() - 1].0);
                    assert(is_whole_word(rest, before.last().0, before.last().1));
                }
                lemma_word_stays(rest, c, from, to);
            } else if grows {
                assert(before[w] == (from, end - 1));
                lemma_word_grows(rest, c, from);
            } else {
                assert(text.subrange(end - 1, end) =~= seq![c]);
            }
        }
        assert forall|v: int, w: int| 0 <= v < w < all.len() implies (#[trigger] all[v]).1 <= (
        #[trigger] all[w]).0 by {
            if w < before.len() {
                assert(before[v].1 <= before[w].0);
            } else {
                assert(is_whole_word(rest, before[v].0, before[v].1));
            }
        }
    }
}

/// Every letter and digit is in a word.
pub proof fn every_alphanumeric_is_in_a_word(text: Seq<char>, i: int)
    requires
        0 <= i < text.len(),
        alphanumeric(text[i]),
    ensures
        exists|w: int| is_in_word(text, w, i),
    decreases text.len(),
{
    let rest = text.drop_last();
    let all = word_bounds(text);
    if i < rest.len() {
        every_alphanumeric_is_in_a_word(rest, i);
        let w = choose|w: int| is_in_word(rest, w, i);
        assert(is_in_word(text, w, i));
    } else {
        words_are_whole_stretches(text);
        assert(is_whole_word(text, all[all.len() - 1].0, all[all.len() - 1].1));
        assert(is_in_word(text, all.len() - 1, i));
    }
}

/// Two words of a text: each is a whole stretch, and the earlier one ends before the later begins.
proof fn lemma_two_words(text: Seq<char>, v: int, w: int)
    requires
        0 <= v <= w < word_bounds(text).len(),
    ensures
        is_whole_word(text, word_bounds(text)[v].0, word_bounds(text)[v].1),
        is_whole_word(text, word_bounds(text)[w].0, word_bounds(text)[w].1),
        v < w ==> word_bounds(text)[v].1 <= word_bounds(text)[w].0,
{
    words_are_whole_stretches(text);
}

/// Neighbouring letters and digits are in different words exactly where a small letter meets a
/// capital.
pub proof fn words_break_at_camel_case(text: Seq<char>, i: int, v: int, w: int)
    requires
        0 <= i < text.len() - 1,
        is_in_word(text, v, i),
        is_in_word(text, w, i + 1),
    ensures
        v != w <==> lowercase(text[i]) && uppercase(text[i + 1]),
{
    let bounds = word_bounds(text);
    if v <= w {
        lemma_two_words(text, v, w);
        if v == w {
            assert(goes_on(text, i));
        } else {
            assert(!goes_on(text, bounds[w].0 - 1));
        }
    } else {
        lemma_two_words(text, w, v);
    }
}

/// Letters and digits with any other character between them are in different words.
pub proof fn words_break_at_other_characters(
    text: Seq<char>,
    i: int,
    k: int,
    j: int,
    v: int,
    w: int,
)
    requires
        i < k < j,
        is_in_word(text, v, i),
        is_in_word(text, w, j),
        !alphanumeric(text[k]),
    ensures
        v < w,
{
    if v <= w {
        lemma_two_words(text, v, w);
    } else {
        lemma_two_words(text, w, v);
    }
}

/// No letter or digit is lost and none changes places: the words as they are written, one after
/// the other, are the alphanumeric characters of the text.
pub proof fn words_keep_every_alphanumeric(text: Seq<char>)
    ensures
        lists::joined(runs(text), Seq::empty()) == text.filter(|c: char| alphanumeric(c)),
    decreases text.len(),
{
    let none = Seq::<char>::empty();
    let alnum = |c: char| alphanumeric(c);
    reveal(Seq::filter);
    if text.len() > 0 {
        let rest = text.drop_last();
        let before = runs(rest);
        let c = text.last();
        words_keep_every_alphanumeric(rest);
        assert(text =~= rest.push(c));
        if alphanumeric(c) {
            if text.len() > 1 && same_word(text[text.len() - 2], c) {
                words_are_whole_stretches(rest);
                let grown = before.drop_last().push(before.last().push(c));
                assert(grown.drop_last() =~= before.drop_last());
                assert(lists::joined(grown, none) =~= lists::joined(before, none).push(c));
            } else {
                let grown = before.push(seq![c]);
                assert(grown.drop_last() =~= before);
                assert(lists::joined(grown, none) =~= lists::joined(before, none).push(c));
            }
        }
    }
}

/// The words of an ASCII text are ASCII, as they are written.
proof fn lemma_ascii_run(text: Seq<char>, w: int)
    requires
        vstd::utf8::is_ascii_chars(text),
        0 <= w < runs(text).len(),
    ensures
        runs(text)[w].len() > 0,
        vstd::utf8::is_ascii_chars(runs(text)[w]),
        forall|i: int| 0 <= i < runs(text)[w].len() ==> alphanumeric(#[trigger] runs(text)[w][i]),
{
    words_are_whole_stretches(text);
    let (from, to) = word_bounds(text)[w];
    assert(is_whole_word(text, from, to));
    assert forall|i: int| 0 <= i < to - from implies '\0' <= #[trigger] runs(text)[w][i]
        <= '\u{7f}' && alphanumeric(runs(text)[w][i]) by {
        assert(runs(text)[w][i] == text[from + i]);
    }
}

/// Whether a word is made of small ASCII letters and ASCII digits.
pub open spec fn is_plain_word(word: Seq<char>) -> bool {
    &&& word.len() > 0
    &&& forall|i: int|
        0 <= i < word.len() ==> 'a' <= #[trigger] word[i] <= 'z' || '0' <= word[i] <= '9'
}

/// The words of an ASCII text are made of small letters and digits, and none is empty.
pub proof fn words_are_lowered(text: Seq<char>, w: int)
    requires
        vstd::utf8::is_ascii_chars(text),
        0 <= w < words(text).len(),
    ensures
        is_plain_word(words(text)[w]),
{
    lemma_ascii_run(text, w);
    let run = runs(text)[w];
    let word = text::lowercase(run);
    assert forall|i: int| 0 <= i < word.len() implies 'a' <= #[trigger] word[i] <= 'z' || '0'
        <= word[i] <= '9' by {
        assert(word[i] == text::ascii_lowercase(run[i]));
    }
}

/// The words of an ASCII text, one after the other, are its letters and digits in lowercase.
pub proof fn words_spell_the_text(text: Seq<char>)
    requires
        vstd::utf8::is_ascii_chars(text),
    ensures
        lists::joined(words(text), Seq::empty()) == text.filter(
            |c: char| alphanumeric(c),
        ).map_values(|c: char| text::ascii_lowercase(c)),
{
    words_keep_every_alphanumeric(text);
    assert forall|w: int| 0 <= w < runs(text).len() implies vstd::utf8::is_ascii_chars(
        #[trigger] runs(text)[w],
    ) by {
        lemma_ascii_run(text, w);
    }
    lemma_lowered_in_place(runs(text));
}

/// Texts that are all ASCII can be lowered before or after they are joined.
proof fn lemma_lowered_in_place(list: Seq<Seq<char>>)
    requires
        forall|w: int| 0 <= w < list.len() ==> vstd::utf8::is_ascii_chars(#[trigger] list[w]),
    ensures
        lists::joined(list.map_values(|run: Seq<char>| text::lowercase(run)), Seq::empty())
            == lists::joined(list, Seq::empty()).map_values(|c: char| text::ascii_lowercase(c)),
    decreases list.len(),
{
    let low = |c: char| text::ascii_lowercase(c);
    let lowered = list.map_values(|run: Seq<char>| text::lowercase(run));
    let none = Seq::<char>::empty();
    if list.len() > 0 {
        let rest = list.drop_last();
        assert forall|w: int| 0 <= w < rest.len() implies vstd::utf8::is_ascii_chars(
            #[trigger] rest[w],
        ) by {
            assert(list[w] == rest[w]);
        }
        lemma_lowered_in_place(rest);
        assert(lowered.drop_last() =~= rest.map_values(|run: Seq<char>| text::lowercase(run)));
        assert(vstd::utf8::is_ascii_chars(list[list.len() - 1]));
        assert(lowered.last() == list.last().map_values(low));
        assert(lists::joined(lowered, none) =~= lists::joined(list, none).map_values(low));
    } else {
        assert(lists::joined(list, none).map_values(low) =~= none);
    }
}

/// A plain word behind a character that belongs to no word is a word of its own.
proof fn lemma_next_word(text: Seq<char>, word: Seq<char>)
    requires
        text.len() > 0 ==> !alphanumeric(text.last()),
        is_plain_word(word),
    ensures
        runs(text + word) == runs(text).push(word),
    decreases word.len(),
{
    let all = text + word;
    let rest = word.drop_last();
    let c = word.last();
    assert(all.last() == c);
    assert(all.drop_last() =~= text + rest);
    if word.len() == 1 {
        assert(text + rest =~= text);
        assert(word =~= seq![c]);
        if all.len() > 1 {
            assert(all[all.len() - 2] == text.last());
        }
    } else {
        lemma_next_word(text, rest);
        assert(all[all.len() - 2] == rest.last());
        assert(same_word(rest.last(), c));
        assert(runs(text).push(rest).drop_last() =~= runs(text));
        assert(rest.push(c) =~= word);
    }
}

/// Splitting plain words joined by spaces gives them again.
proof fn lemma_joined_words_split(list: Seq<Seq<char>>)
    requires
        forall|w: int| 0 <= w < list.len() ==> is_plain_word(#[trigger] list[w]),
    ensures
        runs(lists::joined(list, " "@)) == list,
        words(lists::joined(list, " "@)) == list,
    decreases list.len(),
{
    reveal_strlit(" ");
    let none = Seq::<char>::empty();
    let text = lists::joined(list, " "@);
    if list.len() > 0 {
        let rest = list.drop_last();
        let word = list.last();
        assert forall|w: int| 0 <= w < rest.len() implies is_plain_word(#[trigger] rest[w]) by {
            assert(list[w] == rest[w]);
        }
        assert(is_plain_word(list[list.len() - 1]));
        if list.len() == 1 {
            lemma_next_word(none, word);
            assert(none + word =~= text);
            assert(runs(none).push(word) =~= list);
        } else {
            let lead = lists::joined(rest, " "@);
            let spaced = lead + " "@;
            lemma_joined_words_split(rest);
            assert(spaced.drop_last() =~= lead);
            assert(spaced.last() == ' ');
            lemma_next_word(spaced, word);
            assert(rest.push(word) =~= list);
        }
    } else {
        assert(runs(text) =~= list);
    }
    assert forall|w: int| 0 <= w < list.len() implies text::lowercase(#[trigger] list[w])
        == list[w] by {
        assert(is_plain_word(list[w]));
        assert(text::lowercase(list[w]) =~= list[w]);
    }
    assert(words(text) =~= list);
}

/// Splitting again changes nothing: the words of an ASCII text, joined by spaces, split into the
/// same words.
pub proof fn words_split_again(text: Seq<char>)
    requires
        vstd::utf8::is_ascii_chars(text),
    ensures
        words(lists::joined(words(text), " "@)) == words(text),
{
    assert forall|w: int| 0 <= w < words(text).len() implies is_plain_word(
        #[trigger] words(text)[w],
    ) by {
        words_are_lowered(text, w);
    }
    lemma_joined_words_split(words(text));
}

/// Tokenizing again changes nothing: the search tokens of an ASCII query, joined by spaces, are
/// their own search tokens.
pub proof fn tokens_stay_tokens(query: Seq<char>)
    requires
        vstd::utf8::is_ascii_chars(query),
    ensures
        search_tokens(lists::joined(search_tokens(query), " "@)) == search_tokens(query),
{
    let telling = |word: Seq<char>| is_telling(word);
    let tokens = search_tokens(query);
    tokens_are_the_telling_words(query);
    assert forall|i: int| 0 <= i < tokens.len() implies is_plain_word(#[trigger] tokens[i])
        && telling(tokens[i]) by {
        assert(tokens.contains(tokens[i]));
        let w = choose|w: int| 0 <= w < words(query).len() && words(query)[w] == tokens[i];
        words_are_lowered(query, w);
    }
    lemma_joined_words_split(tokens);
    lists::lemma_all_pass(tokens, telling);
    lists::distinct_items_stay(tokens);
}

/// The search tokens are exactly the telling words of the query, each once, in the order in which
/// they first occur.
pub proof fn tokens_are_the_telling_words(query: Seq<char>)
    ensures
        search_tokens(query).no_duplicates(),
        forall|word: Seq<char>| #[trigger]
            search_tokens(query).contains(word) <==> words(query).contains(word) && is_telling(
                word,
            ),
        forall|i: int, j: int, a: int, b: int|
            {
                &&& 0 <= i < j < search_tokens(query).len()
                &&& #[trigger] lists::occurs_first(words(query), search_tokens(query)[i], a)
                &&& #[trigger] lists::occurs_first(words(query), search_tokens(query)[j], b)
            } ==> a < b,
{
    let telling = |word: Seq<char>| is_telling(word);
    let kept = words(query).filter(telling);
    lists::repeats_are_dropped(kept);
    lists::first_occurrences_keep_their_order(words(query), telling);
    assert forall|word: Seq<char>| #[trigger]
        search_tokens(query).contains(word) <==> words(query).contains(word) && is_telling(
            word,
        ) by {
        lists::lemma_filter_contains(words(query), telling, word);
    }
}

/// A word of two characters or more is searched by, unless it is one of these fifty.
pub proof fn only_common_words_are_left_out(word: Seq<char>)
    requires
        word.len() > 1,
    ensures
        !is_telling(word) <==> seq![
                "the"@,
                "a"@,
                "an"@,
                "and"@,
                "are"@,
                "as"@,
                "at"@,
                "be"@,
                "by"@,
                "code"@,
                "define"@,
                "defined"@,
                "does"@,
                "file"@,
                "files"@,
                "for"@,
                "from"@,
                "function"@,
                "functions"@,
                "handle"@,
                "handled"@,
                "handles"@,
                "handling"@,
                "how"@,
                "implement"@,
                "implementation"@,
                "implemented"@,
                "in"@,
                "is"@,
                "it"@,
                "its"@,
                "of"@,
                "on"@,
                "or"@,
                "repo"@,
                "repository"@,
                "that"@,
                "this"@,
                "to"@,
                "use"@,
                "used"@,
                "uses"@,
                "using"@,
                "we"@,
                "what"@,
                "when"@,
                "where"@,
                "which"@,
                "who"@,
                "with"@,
        ].contains(word),
{
    let common = seq![
        "the"@,
        "a"@,
        "an"@,
        "and"@,
        "are"@,
        "as"@,
        "at"@,
        "be"@,
        "by"@,
        "code"@,
        "define"@,
        "defined"@,
        "does"@,
        "file"@,
        "files"@,
        "for"@,
        "from"@,
        "function"@,
        "functions"@,
        "handle"@,
        "handled"@,
        "handles"@,
        "handling"@,
        "how"@,
        "implement"@,
        "implementation"@,
        "implemented"@,
        "in"@,
        "is"@,
        "it"@,
        "its"@,
        "of"@,
        "on"@,
        "or"@,
        "repo"@,
        "repository"@,
        "that"@,
        "this"@,
        "to"@,
        "use"@,
        "used"@,
        "uses"@,
        "using"@,
        "we"@,
        "what"@,
        "when"@,
        "where"@,
        "which"@,
        "who"@,
        "with"@,
    ];
    assert(common[0] == "the"@);
    assert(common[1] == "a"@);
    assert(common[2] == "an"@);
    assert(common[3] == "and"@);
    assert(common[4] == "are"@);
    assert(common[5] == "as"@);
    assert(common[6] == "at"@);
    assert(common[7] == "be"@);
    assert(common[8] == "by"@);
    assert(common[9] == "code"@);
    assert(common[10] == "define"@);
    assert(common[11] == "defined"@);
    assert(common[12] == "does"@);
    assert(common[13] == "file"@);
    assert(common[14] == "files"@);
    assert(common[15] == "for"@);
    assert(common[16] == "from"@);
    assert(common[17] == "function"@);
    assert(common[18] == "functions"@);
    assert(common[19] == "handle"@);
    assert(common[20] == "handled"@);
    assert(common[21] == "handles"@);
    assert(common[22] == "handling"@);
    assert(common[23] == "how"@);
    assert(common[24] == "implement"@);
    assert(common[25] == "implementation"@);
    assert(common[26] == "implemented"@);
    assert(common[27] == "in"@);
    assert(common[28] == "is"@);
    assert(common[29] == "it"@);
    assert(common[30] == "its"@);
    assert(common[31] == "of"@);
    assert(common[32] == "on"@);
    assert(common[33] == "or"@);
    assert(common[34] == "repo"@);
    assert(common[35] == "repository"@);
    assert(common[36] == "that"@);
    assert(common[37] == "this"@);
    assert(common[38] == "to"@);
    assert(common[39] == "use"@);
    assert(common[40] == "used"@);
    assert(common[41] == "uses"@);
    assert(common[42] == "using"@);
    assert(common[43] == "we"@);
    assert(common[44] == "what"@);
    assert(common[45] == "when"@);
    assert(common[46] == "where"@);
    assert(common[47] == "which"@);
    assert(common[48] == "who"@);
    assert(common[49] == "with"@);
    if common.contains(word) {
        let k = choose|k: int| 0 <= k < common.len() && common[k] == word;
        assert(0 <= k < 50);
    }
}

/// Single characters are never searched by, and every word that is searched by is one of the
/// query's.
pub proof fn single_characters_are_no_tokens(query: Seq<char>, i: int)
    requires
        0 <= i < search_tokens(query).len(),
    ensures
        search_tokens(query)[i].len() > 1,
        words(query).contains(search_tokens(query)[i]),
{
    tokens_are_the_telling_words(query);
    assert(search_tokens(query).contains(search_tokens(query)[i]));
}

/// Among ASCII characters the letters and the digits make words, and capitals and small letters
/// are those of the alphabet. Any other character is what Unicode has it to be.
pub proof fn letters_and_digits_make_words(c: char)
    ensures
        '\0' <= c <= '\u{7f}' ==> {
            &&& uppercase(c) <==> 'A' <= c <= 'Z'
            &&& lowercase(c) <==> 'a' <= c <= 'z'
            &&& alphanumeric(c) <==> uppercase(c) || lowercase(c) || '0' <= c <= '9'
        },
        c > '\u{7f}' ==> {
            &&& uppercase(c) == is_unicode_uppercase(c)
            &&& lowercase(c) == is_unicode_lowercase(c)
            &&& alphanumeric(c) == is_unicode_alphanumeric(c)
        },
{
}

} // verus!
