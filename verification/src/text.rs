//! Text as sequences of characters: trimming, truncating, searching and ordering.

use vstd::prelude::*;

verus! {

/// Whether `c` has the Unicode `White_Space` property.
pub open spec fn white_space(c: char) -> bool {
    let u = c as u32;
    ||| 0x09 <= u <= 0x0D
    ||| u == 0x20
    ||| u == 0x85
    ||| u == 0xA0
    ||| u == 0x1680
    ||| 0x2000 <= u <= 0x200A
    ||| u == 0x2028
    ||| u == 0x2029
    ||| u == 0x202F
    ||| u == 0x205F
    ||| u == 0x3000
}

/// `char::is_whitespace` is true exactly of the characters with the `White_Space` property.
pub assume_specification[ char::is_whitespace ](c: char) -> (blank: bool)
    ensures
        blank == white_space(c),
;

/// `String::push` appends one character to the end.
pub assume_specification[ String::push ](s: &mut String, c: char)
    ensures
        final(s)@ == old(s)@.push(c),
;

/// What `str::to_lowercase` makes of a text with a character outside ASCII.
pub uninterp spec fn unicode_lowercase(text: Seq<char>) -> Seq<char>;

/// An ASCII capital becomes its small letter; any other character stays.
pub open spec fn ascii_lowercase(c: char) -> char {
    if 'A' <= c && c <= 'Z' {
        (c as u32 + 32) as char
    } else {
        c
    }
}

/// The lowercase form of a text.
pub open spec fn lowercase(text: Seq<char>) -> Seq<char> {
    if vstd::utf8::is_ascii_chars(text) {
        text.map_values(|c: char| ascii_lowercase(c))
    } else {
        unicode_lowercase(text)
    }
}

/// `str::to_lowercase` lowers ASCII letters one by one in a text that is all ASCII, and is the
/// Unicode lowercase mapping on any other.
pub assume_specification[ str::to_lowercase ](s: &str) -> (low: String)
    ensures
        low@ == (if vstd::utf8::is_ascii_chars(s@) {
            s@.map_values(|c: char| ascii_lowercase(c))
        } else {
            unicode_lowercase(s@)
        }),
;

/// `text` without the white space at its start.
pub open spec fn trimmed_start(text: Seq<char>) -> Seq<char>
    decreases text.len(),
{
    if text.len() > 0 && white_space(text[0]) {
        trimmed_start(text.drop_first())
    } else {
        text
    }
}

/// `text` without the white space at its end.
pub open spec fn trimmed_end(text: Seq<char>) -> Seq<char>
    decreases text.len(),
{
    if text.len() > 0 && white_space(text.last()) {
        trimmed_end(text.drop_last())
    } else {
        text
    }
}

/// `text` without the white space around it.
pub open spec fn trimmed(text: Seq<char>) -> Seq<char> {
    trimmed_end(trimmed_start(text))
}

/// Whether `text` holds nothing but white space.
pub open spec fn is_blank_text(text: Seq<char>) -> bool {
    forall|i: int| 0 <= i < text.len() ==> white_space(#[trigger] text[i])
}

/// The first `max` characters of `text`, or all of it when it is shorter.
pub open spec fn first_chars(text: Seq<char>, max: int) -> Seq<char> {
    if text.len() <= max {
        text
    } else {
        text.take(max)
    }
}

/// How many bytes `text` takes in UTF-8.
pub open spec fn byte_len(text: Seq<char>) -> nat {
    vstd::utf8::encode_utf8(text).len()
}

/// Whether `part` stands in `text` with its first character at `at`.
pub open spec fn stands_at(text: Seq<char>, part: Seq<char>, at: int) -> bool {
    &&& 0 <= at
    &&& at + part.len() <= text.len()
    &&& text.subrange(at, at + part.len()) == part
}

/// Whether `part` stands anywhere in `text`.
pub open spec fn contains_text(text: Seq<char>, part: Seq<char>) -> bool {
    exists|at: int| stands_at(text, part, at)
}

/// Whether `text` begins with `prefix`.
pub open spec fn begins_with(text: Seq<char>, prefix: Seq<char>) -> bool {
    stands_at(text, prefix, 0)
}

/// Whether `text` ends with `suffix`.
pub open spec fn finishes_with(text: Seq<char>, suffix: Seq<char>) -> bool {
    stands_at(text, suffix, text.len() - suffix.len())
}

/// Whether `left` comes no later than `right` when texts are ordered by their code points.
pub open spec fn text_le(left: Seq<char>, right: Seq<char>) -> bool
    decreases left.len(),
{
    if left.len() == 0 {
        true
    } else if right.len() == 0 {
        false
    } else if left[0] == right[0] {
        text_le(left.drop_first(), right.drop_first())
    } else {
        left[0] < right[0]
    }
}

/// The decimal digits of `n`.
pub open spec fn decimal_digits(n: nat) -> Seq<char>
    decreases n,
{
    let digit = (('0' as u32) + n % 10) as char;
    if n < 10 {
        seq![digit]
    } else {
        decimal_digits(n / 10).push(digit)
    }
}

/// The characters of `text`.
pub fn chars_of(text: &str) -> (chars: Vec<char>)
    ensures
        chars@ == text@,
{
    let mut chars: Vec<char> = Vec::new();
    for c in it: text.chars()
        invariant
            it.seq() == text@,
            chars@ == it.seq().take(it.index() as int),
    {
        chars.push(c);
        assert(it.seq().take(it.index() as int).push(c) =~= it.seq().take(it.index() as int + 1));
    }
    assert(text@.take(text@.len() as int) =~= text@);
    chars
}

/// The lowercase form of a text.
pub fn lowered(text: &str) -> (low: String)
    ensures
        low@ == lowercase(text@),
{
    let low = text.to_lowercase();
    assert(low@ =~= lowercase(text@));
    low
}

/// Whether two texts are the same.
pub fn same_text(left: &str, right: &str) -> (same: bool)
    ensures
        same == (left@ == right@),
{
    left.to_owned() == right.to_owned()
}

/// Dropping leading white space leaves what follows the first `count` characters, where those
/// are white space and the next one is not.
proof fn lemma_trimmed_start_skips(text: Seq<char>, count: int)
    requires
        0 <= count <= text.len(),
        forall|i: int| 0 <= i < count ==> white_space(#[trigger] text[i]),
        count == text.len() || !white_space(text[count]),
    ensures
        trimmed_start(text) == text.skip(count),
    decreases count,
{
    if count == 0 {
        assert(text.skip(0) =~= text);
    } else {
        assert(white_space(text[0]));
        let rest = text.drop_first();
        assert forall|i: int| 0 <= i < count - 1 implies white_space(#[trigger] rest[i]) by {
            assert(rest[i] == text[i + 1]);
        }
        lemma_trimmed_start_skips(rest, count - 1);
        assert(rest.skip(count - 1) =~= text.skip(count));
    }
}

/// Dropping trailing white space leaves the first `count` characters, where the ones after them
/// are white space and the last of them is not.
proof fn lemma_trimmed_end_takes(text: Seq<char>, count: int)
    requires
        0 <= count <= text.len(),
        forall|i: int| count <= i < text.len() ==> white_space(#[trigger] text[i]),
        count == 0 || !white_space(text[count - 1]),
    ensures
        trimmed_end(text) == text.take(count),
    decreases text.len() - count,
{
    if count == text.len() {
        assert(text.take(count) =~= text);
    } else {
        assert(white_space(text[text.len() - 1]));
        let rest = text.drop_last();
        assert forall|i: int| count <= i < rest.len() implies white_space(#[trigger] rest[i]) by {
            assert(rest[i] == text[i]);
        }
        lemma_trimmed_end_takes(rest, count);
        assert(rest.take(count) =~= text.take(count));
    }
}

/// `text` without the white space around it.
pub fn trim<'a>(text: &'a str) -> (inner: &'a str)
    ensures
        inner@ == trimmed(text@),
{
    let chars = chars_of(text);
    let mut from: usize = 0;
    while from < chars.len() && chars[from].is_whitespace()
        invariant
            chars@ == text@,
            from <= chars@.len(),
            forall|i: int| 0 <= i < from ==> white_space(#[trigger] chars@[i]),
        ensures
            from == chars@.len() || !white_space(chars@[from as int]),
        decreases chars@.len() - from,
    {
        from += 1;
    }
    let mut to: usize = chars.len();
    while to > from && chars[to - 1].is_whitespace()
        invariant
            chars@ == text@,
            from <= to <= chars@.len(),
            forall|i: int| to <= i < chars@.len() ==> white_space(#[trigger] chars@[i]),
        ensures
            to == from || !white_space(chars@[to - 1]),
        decreases to - from,
    {
        to -= 1;
    }
    proof {
        lemma_trimmed_start_skips(text@, from as int);
        let rest = text@.skip(from as int);
        assert forall|i: int| to - from <= i < rest.len() implies white_space(#[trigger] rest[i]) by {
            assert(rest[i] == chars@[i + from]);
        }
        lemma_trimmed_end_takes(rest, to - from);
        assert(rest.take(to - from) =~= text@.subrange(from as int, to as int));
    }
    text.substring_char(from, to)
}

/// A trimmed text begins and ends with something other than white space, or is empty, and
/// trimming it again changes nothing.
pub proof fn trimming_settles(text: Seq<char>)
    ensures
        trimmed(trimmed(text)) == trimmed(text),
        trimmed(text).len() > 0 ==> !white_space(trimmed(text)[0]) && !white_space(
            trimmed(text).last(),
        ),
{
    let start = trimmed_start(text);
    lemma_trimmed_start_edge(text);
    lemma_trimmed_end_edge(start);
    let inner = trimmed_end(start);
    if inner.len() > 0 {
        lemma_trimmed_start_skips(inner, 0);
        assert(inner.skip(0) =~= inner);
    }
}

proof fn lemma_trimmed_start_edge(text: Seq<char>)
    ensures
        trimmed_start(text).len() > 0 ==> !white_space(trimmed_start(text)[0]),
    decreases text.len(),
{
    if text.len() > 0 && white_space(text[0]) {
        lemma_trimmed_start_edge(text.drop_first());
    }
}

proof fn lemma_trimmed_end_edge(text: Seq<char>)
    ensures
        trimmed_end(text).len() > 0 ==> !white_space(trimmed_end(text).last()),
        trimmed_end(text).len() > 0 ==> trimmed_end(text)[0] == text[0],
        trimmed_end(trimmed_end(text)) == trimmed_end(text),
        trimmed_end(text).len() <= text.len(),
    decreases text.len(),
{
    if text.len() > 0 && white_space(text.last()) {
        lemma_trimmed_end_edge(text.drop_last());
    }
}

/// Trimming leaves nothing exactly when the text holds nothing but white space.
pub proof fn trimming_empties_blank_text(text: Seq<char>)
    ensures
        trimmed(text).len() == 0 <==> is_blank_text(text),
    decreases text.len(),
{
    if text.len() == 0 {
    } else if white_space(text[0]) {
        let rest = text.drop_first();
        trimming_empties_blank_text(rest);
        if is_blank_text(rest) {
            assert forall|i: int| 0 <= i < text.len() implies white_space(#[trigger] text[i]) by {
                if i > 0 {
                    assert(rest[i - 1] == text[i]);
                }
            }
        }
        if is_blank_text(text) {
            assert forall|i: int| 0 <= i < rest.len() implies white_space(#[trigger] rest[i]) by {
                assert(rest[i] == text[i + 1]);
            }
        }
    } else {
        lemma_trimmed_end_keeps_front(text);
    }
}

proof fn lemma_trimmed_end_keeps_front(text: Seq<char>)
    requires
        text.len() > 0,
        !white_space(text[0]),
    ensures
        trimmed_end(text).len() > 0,
    decreases text.len(),
{
    if white_space(text.last()) {
        lemma_trimmed_end_keeps_front(text.drop_last());
    }
}

/// The first `max_chars` characters of `text`, or all of it when it is shorter.
pub fn truncate<'a>(text: &'a str, max_chars: usize) -> (head: &'a str)
    ensures
        head@ == first_chars(text@, max_chars as int),
{
    let len = text.unicode_len();
    if len <= max_chars {
        text
    } else {
        text.substring_char(0, max_chars)
    }
}

/// Whether `part` stands in `text` with its first character at `at`.
fn part_stands_at(text: &Vec<char>, part: &Vec<char>, at: usize) -> (found: bool)
    requires
        at + part@.len() <= text@.len(),
    ensures
        found == stands_at(text@, part@, at as int),
{
    let len: usize = text.len();
    let mut i: usize = 0;
    while i < part.len()
        invariant
            at + part@.len() <= len == text@.len(),
            i <= part@.len(),
            forall|k: int| 0 <= k < i ==> text@[at + k] == #[trigger] part@[k],
        decreases part@.len() - i,
    {
        if text[at + i] != part[i] {
            assert(text@.subrange(at as int, at + part@.len())[i as int] != part@[i as int]);
            return false;
        }
        i += 1;
    }
    assert(text@.subrange(at as int, at + part@.len()) =~= part@);
    true
}

/// Whether `part` stands anywhere in `text`.
pub fn contains_chars(text: &Vec<char>, part: &Vec<char>) -> (found: bool)
    ensures
        found == contains_text(text@, part@),
{
    if part.len() > text.len() {
        return false;
    }
    let last: usize = text.len() - part.len();
    let mut at: usize = 0;
    loop
        invariant
            last == text@.len() - part@.len(),
            at <= last,
            forall|k: int| 0 <= k < at ==> !stands_at(text@, part@, k),
        decreases last - at,
    {
        if part_stands_at(text, part, at) {
            return true;
        }
        if at == last {
            assert forall|k: int| !stands_at(text@, part@, k) by {}
            return false;
        }
        at += 1;
    }
}

/// Whether `text` begins with `prefix`.
pub fn starts_with(text: &str, prefix: &str) -> (found: bool)
    ensures
        found == begins_with(text@, prefix@),
{
    let text = chars_of(text);
    let prefix = chars_of(prefix);
    prefix.len() <= text.len() && part_stands_at(&text, &prefix, 0)
}

/// Whether `text` ends with `suffix`.
pub fn ends_with(text: &str, suffix: &str) -> (found: bool)
    ensures
        found == finishes_with(text@, suffix@),
{
    let text = chars_of(text);
    let suffix = chars_of(suffix);
    suffix.len() <= text.len() && part_stands_at(&text, &suffix, text.len() - suffix.len())
}

/// The decimal digits of `n`.
pub fn decimal(n: u32) -> (digits: String)
    ensures
        digits@ == decimal_digits(n as nat),
    decreases n,
{
    let mut digits = if n < 10 {
        String::new()
    } else {
        decimal(n / 10)
    };
    let digit: u8 = 48u8 + (n % 10) as u8;
    digits.push(digit as char);
    proof {
        assert(digit as char == (('0' as u32) + n as nat % 10) as char);
        assert(Seq::<char>::empty().push(digit as char) =~= seq![digit as char]);
    }
    digits
}

/// A whole number as it is written: its digits, with a minus sign before them if it is negative.
pub open spec fn integer_text(n: int) -> Seq<char> {
    if n < 0 {
        seq!['-'] + decimal_digits((-n) as nat)
    } else {
        decimal_digits(n as nat)
    }
}

/// A whole number as it is written.
pub fn integer(n: i32) -> (written: String)
    ensures
        written@ == integer_text(n as int),
{
    if n < 0 {
        let mut written = String::new();
        written.push('-');
        written.append(decimal((-(n as i64)) as u32).as_str());
        assert(written@ =~= integer_text(n as int));
        written
    } else {
        decimal(n as u32)
    }
}

/// Whether `left` comes no later than `right` when texts are ordered by their code points.
pub fn text_not_after(left: &str, right: &str) -> (ordered: bool)
    ensures
        ordered == text_le(left@, right@),
{
    let first = chars_of(left);
    let second = chars_of(right);
    let mut i: usize = 0;
    proof {
        assert(left@.skip(0) =~= left@);
        assert(right@.skip(0) =~= right@);
    }
    while i < first.len() && i < second.len()
        invariant
            first@ == left@,
            second@ == right@,
            i <= left@.len(),
            i <= right@.len(),
            text_le(left@, right@) == text_le(left@.skip(i as int), right@.skip(i as int)),
        decreases left@.len() - i,
    {
        if first[i] != second[i] {
            return first[i] < second[i];
        }
        assert(left@.skip(i as int).drop_first() =~= left@.skip(i + 1));
        assert(right@.skip(i as int).drop_first() =~= right@.skip(i + 1));
        i += 1;
    }
    i == first.len()
}

/// Code-point order is a total order.
pub proof fn text_order_is_total(a: Seq<char>, b: Seq<char>, c: Seq<char>)
    ensures
        text_le(a, a),
        text_le(a, b) || text_le(b, a),
        text_le(a, b) && text_le(b, a) ==> a == b,
        text_le(a, b) && text_le(b, c) ==> text_le(a, c),
    decreases a.len(),
{
    if a.len() == 0 {
        assert(b.len() == 0 ==> a =~= b);
    } else {
        let (x, y, z) = (a.drop_first(), b.drop_first(), c.drop_first());
        text_order_is_total(x, y, z);
        if b.len() > 0 && x == y && a[0] == b[0] {
            assert(a =~= seq![a[0]] + x);
            assert(b =~= seq![b[0]] + y);
        }
    }
}

/// Trimming takes off white space at both ends and nothing else: whatever stands between two
/// stretches of white space, and has none at its own ends, is what is left.
pub proof fn trimming_leaves_the_core(before: Seq<char>, core: Seq<char>, after: Seq<char>)
    requires
        forall|i: int| 0 <= i < before.len() ==> white_space(#[trigger] before[i]),
        forall|i: int| 0 <= i < after.len() ==> white_space(#[trigger] after[i]),
        core.len() > 0 ==> !white_space(core[0]) && !white_space(core.last()),
    ensures
        trimmed(before + core + after) == core,
{
    let text = before + core + after;
    if core.len() == 0 {
        assert forall|i: int| 0 <= i < text.len() implies white_space(#[trigger] text[i]) by {
            if i < before.len() {
                assert(text[i] == before[i]);
            } else {
                assert(text[i] == after[i - before.len()]);
            }
        }
        trimming_empties_blank_text(text);
        assert(trimmed(text) =~= core);
    } else {
        let from = before.len() as int;
        assert forall|i: int| 0 <= i < from implies white_space(#[trigger] text[i]) by {
            assert(text[i] == before[i]);
        }
        lemma_trimmed_start_skips(text, from);
        let rest = text.skip(from);
        assert(rest =~= core + after);
        lemma_trailing_white_space(core, after);
    }
}

proof fn lemma_trailing_white_space(core: Seq<char>, after: Seq<char>)
    requires
        forall|i: int| 0 <= i < after.len() ==> white_space(#[trigger] after[i]),
        core.len() > 0,
        !white_space(core.last()),
    ensures
        trimmed_end(core + after) == core,
    decreases after.len(),
{
    let all = core + after;
    if after.len() == 0 {
        assert(all =~= core);
    } else {
        let rest = after.drop_last();
        assert forall|i: int| 0 <= i < rest.len() implies white_space(#[trigger] rest[i]) by {
            assert(rest[i] == after[i]);
        }
        assert(all.last() == after[after.len() - 1]);
        assert(all.drop_last() =~= core + rest);
        lemma_trailing_white_space(core, rest);
    }
}

/// Cutting to as many characters as a beginning has gives that beginning, and a text that is no
/// longer than the limit stays whole.
pub proof fn cutting_gives_the_beginning(head: Seq<char>, tail: Seq<char>, max: int)
    requires
        max >= head.len(),
    ensures
        first_chars(head + tail, head.len() as int) == head,
        first_chars(head, max) == head,
{
    assert(first_chars(head + tail, head.len() as int) =~= head);
}

/// An ASCII text is lowered character by character: capitals become the small letter with the
/// same place in the alphabet, and nothing else changes. Any other text has its Unicode lowercase
/// form.
pub proof fn lowering_keeps_places(text: Seq<char>, i: int)
    requires
        0 <= i < text.len(),
    ensures
        (forall|k: int| 0 <= k < text.len() ==> '\0' <= #[trigger] text[k] <= '\u{7f}') ==> {
            &&& lowercase(text).len() == text.len()
            &&& 'A' <= text[i] <= 'Z' ==> lowercase(text)[i] as u32 - 'a' as u32 == text[i] as u32
                - 'A' as u32
            &&& !('A' <= text[i] <= 'Z') ==> lowercase(text)[i] == text[i]
        },
        text[i] > '\u{7f}' ==> lowercase(text) == unicode_lowercase(text),
{
    if text[i] > '\u{7f}' {
        assert(!vstd::utf8::is_ascii_chars(text));
    }
    if forall|k: int| 0 <= k < text.len() ==> '\0' <= #[trigger] text[k] <= '\u{7f}' {
        assert(vstd::utf8::is_ascii_chars(text));
    }
}

/// A text contains a part exactly when it is that part with something, or nothing, around it.
pub proof fn parts_have_surroundings(before: Seq<char>, part: Seq<char>, after: Seq<char>)
    ensures
        contains_text(before + part + after, part),
        begins_with(part + after, part),
        finishes_with(before + part, part),
        forall|text: Seq<char>| #[trigger]
            contains_text(text, part) ==> exists|b: Seq<char>, a: Seq<char>|
                text == #[trigger] ((b + part) + a),
        forall|text: Seq<char>| #[trigger]
            begins_with(text, part) ==> exists|a: Seq<char>| text == #[trigger] (part + a),
        forall|text: Seq<char>| #[trigger]
            finishes_with(text, part) ==> exists|b: Seq<char>| text == #[trigger] (b + part),
{
    let text = before + part + after;
    let at = before.len() as int;
    assert(text.subrange(at, at + part.len()) =~= part);
    assert(stands_at(text, part, at));
    assert((part + after).subrange(0, part.len() as int) =~= part);
    assert((before + part).subrange(at, at + part.len()) =~= part);
    assert forall|text: Seq<char>| #[trigger] contains_text(text, part) implies exists|
        b: Seq<char>,
        a: Seq<char>,
    |
        text == #[trigger] ((b + part) + a) by {
        let at = choose|at: int| stands_at(text, part, at);
        lemma_stands_between(text, part, at);
    }
    assert forall|text: Seq<char>| #[trigger] begins_with(text, part) implies exists|a: Seq<char>|
        text == #[trigger] (part + a) by {
        assert(text =~= part + text.skip(part.len() as int)) by {
            lemma_stands_between(text, part, 0);
        }
    }
    assert forall|text: Seq<char>| #[trigger] finishes_with(text, part) implies exists|
        b: Seq<char>,
    |
        text == #[trigger] (b + part) by {
        assert(text =~= text.take(text.len() - part.len()) + part) by {
            lemma_stands_between(text, part, text.len() - part.len());
        }
    }
}

proof fn lemma_stands_between(text: Seq<char>, part: Seq<char>, at: int)
    requires
        stands_at(text, part, at),
    ensures
        text == (text.take(at) + part) + text.skip(at + part.len()),
{
    let all = (text.take(at) + part) + text.skip(at + part.len());
    assert forall|i: int| 0 <= i < text.len() implies all[i] == text[i] by {
        if at <= i < at + part.len() {
            assert(text.subrange(at, at + part.len())[i - at] == part[i - at]);
        }
    }
    assert(all =~= text);
}

/// Texts are ordered like words in a dictionary: the first character in which two differ decides,
/// and a text comes before whatever goes on after it.
pub proof fn the_first_difference_decides(
    common: Seq<char>,
    left: Seq<char>,
    right: Seq<char>,
)
    ensures
        text_le(common, common + right),
        right.len() > 0 ==> !text_le(common + right, common),
        left.len() > 0 && right.len() > 0 && left[0] != right[0] ==> text_le(
            common + left,
            common + right,
        ) == (left[0] < right[0]),
    decreases common.len(),
{
    let (l, r) = (common + left, common + right);
    if common.len() > 0 {
        let rest = common.drop_first();
        the_first_difference_decides(rest, left, right);
        assert(l.drop_first() =~= rest + left);
        assert(r.drop_first() =~= rest + right);
        assert(l[0] == common[0] && r[0] == common[0]);
    } else {
        assert(l =~= left);
        assert(r =~= right);
    }
}

/// The number that decimal digits stand for.
pub open spec fn digits_value(digits: Seq<char>) -> int
    decreases digits.len(),
{
    if digits.len() == 0 {
        0
    } else {
        digits_value(digits.drop_last()) * 10 + (digits.last() as u32 - '0' as u32)
    }
}

/// Whether `digits` are decimal digits, without a leading zero but for zero itself.
pub open spec fn is_decimal(digits: Seq<char>) -> bool {
    &&& digits.len() > 0
    &&& forall|i: int| 0 <= i < digits.len() ==> '0' <= #[trigger] digits[i] <= '9'
    &&& digits[0] == '0' ==> digits.len() == 1
}

/// What is written for a number reads back as that number: it has decimal digits only, none of
/// them a leading zero but for zero itself, and a minus sign before them exactly where the number
/// is negative.
pub proof fn numbers_read_back(n: int)
    ensures
        n < 0 ==> integer_text(n).len() > 0 && integer_text(n)[0] == '-' && is_decimal(
            integer_text(n).drop_first(),
        ) && digits_value(integer_text(n).drop_first()) == -n,
        n >= 0 ==> is_decimal(integer_text(n)) && digits_value(integer_text(n)) == n,
        n >= 0 ==> decimal_digits(n as nat) == integer_text(n),
{
    if n < 0 {
        lemma_digits_read_back((-n) as nat);
        assert(integer_text(n).drop_first() =~= decimal_digits((-n) as nat));
    } else {
        lemma_digits_read_back(n as nat);
    }
}

proof fn lemma_digits_read_back(n: nat)
    ensures
        decimal_digits(n).len() > 0,
        forall|i: int|
            0 <= i < decimal_digits(n).len() ==> '0' <= #[trigger] decimal_digits(n)[i] <= '9',
        decimal_digits(n)[0] == '0' ==> n == 0 && decimal_digits(n).len() == 1,
        digits_value(decimal_digits(n)) == n,
    decreases n,
{
    let digits = decimal_digits(n);
    let last = (('0' as u32) + n % 10) as char;
    assert('0' <= last <= '9');
    assert(last as u32 - '0' as u32 == n % 10);
    if n < 10 {
        assert(digits.drop_last() =~= Seq::empty());
        assert(digits_value(Seq::empty()) == 0);
    } else {
        lemma_digits_read_back(n / 10);
        assert(digits.drop_last() =~= decimal_digits(n / 10));
        assert(digits[0] == decimal_digits(n / 10)[0]);
    }
}

/// Different numbers are written differently.
pub proof fn numbers_are_told_apart(m: int, n: int)
    requires
        m != n,
    ensures
        integer_text(m) != integer_text(n),
{
    numbers_read_back(m);
    numbers_read_back(n);
    let (left, right) = (integer_text(m), integer_text(n));
    if left == right {
        assert(m >= 0 ==> '0' <= left[0] <= '9');
        assert(n >= 0 ==> '0' <= right[0] <= '9');
        assert(m < 0 ==> left[0] == '-');
        assert(n < 0 ==> right[0] == '-');
        assert(m < 0 ==> digits_value(left.drop_first()) == -m);
        assert(n < 0 ==> digits_value(right.drop_first()) == -n);
    }
}

} // verus!
