//! Whitespace-delimited words of a string, and the strings built from them.

use vstd::prelude::*;
use vstd::string::*;

verus! {

/// Whether `c` is white space in the sense of Unicode: the characters that
/// separate the value tokens of an attribute.
pub open spec fn is_whitespace(c: char) -> bool {
    let u = c as u32;
    ||| 0x09 <= u <= 0x0D
    ||| u == 0x20
    ||| u == 0x85
    ||| u == 0xA0
    ||| u == 0x1680
    ||| 0x2000 <= u <= 0x200A
    ||| u == 0x2028
    ||| u == 0x2029
    ||| u == 0x202F
    ||| u == 0x205F
    ||| u == 0x3000
}

/// The index of the first white space of `s` at or after `from`, or the
/// length of `s` where there is none.
pub open spec fn word_end(s: Seq<char>, from: int) -> int
    decreases s.len() - from,
{
    if from < 0 || from >= s.len() || is_whitespace(s[from]) {
        from
    } else {
        word_end(s, from + 1)
    }
}

/// The words of `s` that begin at or after `from`: the maximal runs of
/// characters that are not white space, in the order in which they stand.
///
/// A word ends behind the place where it begins and within `s`
/// (`lemma_word_end_bounds`), so the last case below never arises: it is
/// there for the recursion to be well founded on the face of it.
pub open spec fn words_from(s: Seq<char>, from: int) -> Seq<Seq<char>>
    decreases s.len() - from,
{
    if from < 0 || from >= s.len() {
        Seq::empty()
    } else if is_whitespace(s[from]) {
        words_from(s, from + 1)
    } else {
        let end = word_end(s, from + 1);
        if from < end <= s.len() {
            seq![s.subrange(from, end)] + words_from(s, end)
        } else {
            Seq::empty()
        }
    }
}

/// The words of `s`.
pub open spec fn words(s: Seq<char>) -> Seq<Seq<char>> {
    words_from(s, 0)
}

/// The first word of `s`, or the empty string where `s` has no word.
pub open spec fn first_word(s: Seq<char>) -> Seq<char> {
    if words(s).len() > 0 {
        words(s)[0]
    } else {
        Seq::empty()
    }
}

/// The words joined into one string, with a single space between neighbours.
pub open spec fn join_words(ws: Seq<Seq<char>>) -> Seq<char>
    decreases ws.len(),
{
    if ws.len() == 0 {
        Seq::empty()
    } else if ws.len() == 1 {
        ws[0]
    } else {
        join_words(ws.drop_last()) + seq![' '] + ws.last()
    }
}

/// A word ends no earlier than it is looked for, and no later than the string.
pub proof fn lemma_word_end_bounds(s: Seq<char>, from: int)
    requires
        0 <= from <= s.len(),
    ensures
        from <= word_end(s, from) <= s.len(),
        forall|k: int| from <= k < word_end(s, from) ==> !is_whitespace(#[trigger] s[k]),
        word_end(s, from) < s.len() ==> is_whitespace(s[word_end(s, from)]),
    decreases s.len() - from,
{
    if from < s.len() && !is_whitespace(s[from]) {
        lemma_word_end_bounds(s, from + 1);
    }
}

/// A stretch without white space is passed over in one step by `word_end`.
pub proof fn lemma_word_end_skips(s: Seq<char>, from: int, to: int)
    requires
        0 <= from <= to <= s.len(),
        forall|k: int| from <= k < to ==> !is_whitespace(#[trigger] s[k]),
    ensures
        word_end(s, from) == word_end(s, to),
    decreases to - from,
{
    if from < to {
        lemma_word_end_skips(s, from + 1, to);
    }
}

/// White space between `from` and `to` holds no word.
pub proof fn lemma_words_skip_whitespace(s: Seq<char>, from: int, to: int)
    requires
        0 <= from <= to <= s.len(),
        forall|k: int| from <= k < to ==> is_whitespace(#[trigger] s[k]),
    ensures
        words_from(s, from) == words_from(s, to),
    decreases to - from,
{
    if from < to {
        lemma_words_skip_whitespace(s, from + 1, to);
    }
}

/// Whether `c` is white space.
pub fn char_is_whitespace(c: char) -> (r: bool)
    ensures
        r == is_whitespace(c),
{
    let u: u32 = c as u32;
    (0x09 <= u && u <= 0x0D) || u == 0x20 || u == 0x85 || u == 0xA0 || u == 0x1680 || (0x2000 <= u
        && u <= 0x200A) || u == 0x2028 || u == 0x2029 || u == 0x202F || u == 0x205F || u == 0x3000
}

/// `String::push`: the character is appended, and nothing else changes.
#[verifier::external_body]
fn push_char(s: &mut String, c: char)
    ensures
        final(s)@ == old(s)@.push(c),
{
    s.push(c)
}

/// `str::eq`: two strings are equal when they hold the same characters.
#[verifier::external_body]
pub(crate) fn str_eq(a: &str, b: &str) -> (r: bool)
    ensures
        r == (a@ == b@),
{
    a == b
}

/// The characters of `s`, one by one.
pub(crate) fn chars_of(s: &str) -> (r: Vec<char>)
    ensures
        r@ == s@,
{
    let mut out: Vec<char> = Vec::new();
    for c in it: s.chars()
        invariant
            it.seq() == s@,
            out@ == s@.take(it.index() as int),
    {
        out.push(c);
        assert(s@.take(it.index() + 1) =~= s@.take(it.index() as int).push(c));
    }
    assert(s@.take(s@.len() as int) =~= s@);
    out
}

/// The string made of the characters from `from` up to `to`.
pub(crate) fn string_of(chars: &Vec<char>, from: usize, to: usize) -> (r: String)
    requires
        from <= to <= chars.len(),
    ensures
        r@ == chars@.subrange(from as int, to as int),
{
    let mut out = String::new();
    let mut i: usize = from;
    while i < to
        invariant
            from <= i <= to <= chars.len(),
            out@ == chars@.subrange(from as int, i as int),
        decreases to - i,
    {
        push_char(&mut out, chars[i]);
        assert(chars@.subrange(from as int, i + 1) =~= chars@.subrange(from as int, i as int).push(
            chars@[i as int],
        ));
        i += 1;
    }
    out
}

/// The first index at or after `from` that holds no white space.
fn skip_whitespace(chars: &Vec<char>, from: usize) -> (r: usize)
    requires
        from <= chars.len(),
    ensures
        from <= r <= chars.len(),
        forall|k: int| from <= k < r ==> is_whitespace(#[trigger] chars@[k]),
        r < chars.len() ==> !is_whitespace(chars@[r as int]),
        words_from(chars@, from as int) == words_from(chars@, r as int),
{
    let mut i: usize = from;
    while i < chars.len() && char_is_whitespace(chars[i])
        invariant
            from <= i <= chars.len(),
            forall|k: int| from <= k < i ==> is_whitespace(#[trigger] chars@[k]),
        decreases chars.len() - i,
    {
        i += 1;
    }
    proof {
        lemma_words_skip_whitespace(chars@, from as int, i as int);
    }
    i
}

/// The first index at or after `from` that holds white space.
fn skip_word(chars: &Vec<char>, from: usize) -> (r: usize)
    requires
        from <= chars.len(),
    ensures
        r == word_end(chars@, from as int),
        from <= r <= chars.len(),
{
    let mut i: usize = from;
    while i < chars.len() && !char_is_whitespace(chars[i])
        invariant
            from <= i <= chars.len(),
            forall|k: int| from <= k < i ==> !is_whitespace(#[trigger] chars@[k]),
        decreases chars.len() - i,
    {
        i += 1;
    }
    proof {
        lemma_word_end_skips(chars@, from as int, i as int);
    }
    i
}

/// Splits `s` at white space into its words.
pub fn split_words(s: &str) -> (r: Vec<String>)
    ensures
        r.deep_view() == words(s@),
{
    let chars = chars_of(s);
    let mut out: Vec<String> = Vec::new();
    let mut i: usize = skip_whitespace(&chars, 0);
    while i < chars.len()
        invariant
            i <= chars.len(),
            chars@ == s@,
            i < chars.len() ==> !is_whitespace(chars@[i as int]),
            out.deep_view() + words_from(s@, i as int) == words(s@),
        decreases chars.len() - i,
    {
        let end = skip_word(&chars, i + 1);
        let word = string_of(&chars, i, end);
        let ghost before = out.deep_view();
        out.push(word);
        let next = skip_whitespace(&chars, end);
        proof {
            assert(out.deep_view() =~= before.push(word@));
            assert(before + (seq![word@] + words_from(s@, end as int)) =~= before.push(word@)
                + words_from(s@, end as int));
        }
        i = next;
    }
    assert(out.deep_view() + Seq::<Seq<char>>::empty() =~= out.deep_view());
    out
}

/// The first word of `s`, or the empty string where `s` has none.
pub fn first_word_of(s: &str) -> (r: String)
    ensures
        r@ == first_word(s@),
{
    let chars = chars_of(s);
    let start = skip_whitespace(&chars, 0);
    if start < chars.len() {
        let end = skip_word(&chars, start + 1);
        string_of(&chars, start, end)
    } else {
        String::new()
    }
}

/// Whether `s` holds at most one word.
pub fn is_single_word(s: &str) -> (r: bool)
    ensures
        r == (words(s@).len() <= 1),
{
    let chars = chars_of(s);
    let start = skip_whitespace(&chars, 0);
    if start < chars.len() {
        let end = skip_word(&chars, start + 1);
        let rest = skip_whitespace(&chars, end);
        if rest < chars.len() {
            assert(words_from(chars@, rest as int).len() > 0) by {
                lemma_word_end_bounds(chars@, rest + 1);
            }
        }
        rest == chars.len()
    } else {
        true
    }
}

/// Joins the words with single spaces.
pub fn join_with_spaces(words: &Vec<String>) -> (r: String)
    ensures
        r@ == join_words(words.deep_view()),
{
    let mut out = String::new();
    let mut i: usize = 0;
    while i < words.len()
        invariant
            i <= words.len(),
            out@ == join_words(words.deep_view().take(i as int)),
        decreases words.len() - i,
    {
        let ghost done = words.deep_view().take(i as int);
        let ghost next = words.deep_view().take(i + 1);
        if i > 0 {
            push_char(&mut out, ' ');
        }
        out.append(words[i].as_str());
        proof {
            assert(next.drop_last() =~= done);
            assert(next.last() == words@[i as int]@);
            if i == 0 {
                assert(out@ =~= next[0]);
            } else {
                assert(out@ =~= join_words(done) + seq![' '] + next.last());
            }
        }
        i += 1;
    }
    assert(words.deep_view().take(words.len() as int) =~= words.deep_view());
    out
}

} // verus!
