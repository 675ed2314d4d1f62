//! Runs of text without the white space that only lays out the source.
//!
//! A document is mostly written with line breaks and indentation that carry
//! no meaning. They are taken away here; white space inside a line, such as
//! the space between a word and an inline element, is kept.

use crate::tokenizer::find_byte;
use vstd::prelude::*;

verus! {

/// The byte of a line break.
pub const NEWLINE: u8 = 0x0A;

/// The byte of a space.
pub const SPACE: u8 = 0x20;

/// The byte of a tab.
pub const TAB: u8 = 0x09;

/// Whether the byte is a space, a tab or a line break.
pub open spec fn is_blank(b: u8) -> bool {
    b == SPACE || b == TAB || b == NEWLINE
}

/// Whether the text is nothing but spaces, tabs and line breaks.
pub open spec fn all_blank(s: Seq<u8>) -> bool {
    forall|i: int| 0 <= i < s.len() ==> is_blank(#[trigger] s[i])
}

/// The number of blank bytes with which the text begins.
pub open spec fn leading_blanks(s: Seq<u8>) -> nat
    decreases s.len(),
{
    if s.len() > 0 && is_blank(s[0]) {
        1 + leading_blanks(s.drop_first())
    } else {
        0
    }
}

/// The number of blank bytes with which the text ends.
pub open spec fn trailing_blanks(s: Seq<u8>) -> nat
    decreases s.len(),
{
    if s.len() > 0 && is_blank(s.last()) {
        1 + trailing_blanks(s.drop_last())
    } else {
        0
    }
}

/// The text without its leading blanks, where it begins with a line break or
/// is blank altogether; else the text as it is.
pub open spec fn trimmed_at_start(s: Seq<u8>) -> Seq<u8> {
    if s.len() > 0 && (s[0] == NEWLINE || all_blank(s)) {
        s.skip(leading_blanks(s) as int)
    } else {
        s
    }
}

/// The text without its trailing blanks, where it holds a line break; else
/// the text as it is.
pub open spec fn trimmed_at_end(s: Seq<u8>) -> Seq<u8> {
    if s.contains(NEWLINE) {
        s.take(s.len() - trailing_blanks(s))
    } else {
        s
    }
}

/// The text as the tree keeps it: trimmed at its start, and what is left of
/// it trimmed at its end.
pub open spec fn normalized_text(s: Seq<u8>) -> Seq<u8> {
    trimmed_at_end(trimmed_at_start(s))
}

/// The leading blanks are blank, and the byte behind them is not.
pub proof fn lemma_leading_blanks(s: Seq<u8>)
    ensures
        leading_blanks(s) <= s.len(),
        forall|i: int| 0 <= i < leading_blanks(s) ==> is_blank(#[trigger] s[i]),
        leading_blanks(s) < s.len() ==> !is_blank(s[leading_blanks(s) as int]),
    decreases s.len(),
{
    if s.len() > 0 && is_blank(s[0]) {
        let rest = s.drop_first();
        lemma_leading_blanks(rest);
        assert forall|i: int| 0 <= i < leading_blanks(s) implies is_blank(#[trigger] s[i]) by {
            if i > 0 {
                assert(s[i] == rest[i - 1]);
            }
        }
        if leading_blanks(s) < s.len() {
            assert(s[leading_blanks(s) as int] == rest[leading_blanks(rest) as int]);
        }
    }
}

/// The trailing blanks are blank, and the byte before them is not.
pub proof fn lemma_trailing_blanks(s: Seq<u8>)
    ensures
        trailing_blanks(s) <= s.len(),
        forall|i: int| s.len() - trailing_blanks(s) <= i < s.len() ==> is_blank(#[trigger] s[i]),
        trailing_blanks(s) < s.len() ==> !is_blank(s[s.len() - trailing_blanks(s) - 1]),
    decreases s.len(),
{
    if s.len() > 0 && is_blank(s.last()) {
        let rest = s.drop_last();
        lemma_trailing_blanks(rest);
        assert forall|i: int| s.len() - trailing_blanks(s) <= i < s.len() implies is_blank(
            #[trigger] s[i],
        ) by {
            if i < s.len() - 1 {
                assert(s[i] == rest[i]);
            }
        }
        if trailing_blanks(s) < s.len() {
            assert(s[s.len() - trailing_blanks(s) - 1] == rest[rest.len() - trailing_blanks(rest)
                - 1]);
        }
    }
}

/// A stretch of blanks at the start, with something else behind it or the
/// end of the text, is the whole of the leading blanks.
pub proof fn lemma_leading_blanks_is(s: Seq<u8>, n: int)
    requires
        0 <= n <= s.len(),
        forall|i: int| 0 <= i < n ==> is_blank(#[trigger] s[i]),
        n < s.len() ==> !is_blank(s[n]),
    ensures
        leading_blanks(s) == n,
{
    lemma_leading_blanks(s);
    let m = leading_blanks(s) as int;
    if m < n {
        assert(is_blank(s[m]));
    } else if m > n {
        assert(is_blank(s[n]));
    }
}

/// A stretch of blanks at the end, with something else before it or the
/// start of the text, is the whole of the trailing blanks.
pub proof fn lemma_trailing_blanks_is(s: Seq<u8>, n: int)
    requires
        0 <= n <= s.len(),
        forall|i: int| s.len() - n <= i < s.len() ==> is_blank(#[trigger] s[i]),
        n < s.len() ==> !is_blank(s[s.len() - n - 1]),
    ensures
        trailing_blanks(s) == n,
{
    lemma_trailing_blanks(s);
    let m = trailing_blanks(s) as int;
    if m < n {
        assert(is_blank(s[s.len() - m - 1]));
    } else if m > n {
        assert(is_blank(s[s.len() - n - 1]));
    }
}

/// Whether the byte is a space, a tab or a line break.
pub fn byte_is_blank(b: u8) -> (r: bool)
    ensures
        r == is_blank(b),
{
    b == SPACE || b == TAB || b == NEWLINE
}

/// The bytes from `from` up to `to`.
fn copy_range(bytes: &Vec<u8>, from: usize, to: usize) -> (r: Vec<u8>)
    requires
        from <= to <= bytes.len(),
    ensures
        r@ == bytes@.subrange(from as int, to as int),
{
    let mut out: Vec<u8> = Vec::new();
    let mut i: usize = from;
    while i < to
        invariant
            from <= i <= to <= bytes.len(),
            out@ == bytes@.subrange(from as int, i as int),
        decreases to - i,
    {
        out.push(bytes[i]);
        assert(bytes@.subrange(from as int, i + 1) =~= bytes@.subrange(from as int, i as int).push(
            bytes@[i as int],
        ));
        i += 1;
    }
    out
}

/// The number of blank bytes with which the text begins.
fn count_leading_blanks(bytes: &Vec<u8>) -> (r: usize)
    ensures
        r == leading_blanks(bytes@),
        r <= bytes.len(),
{
    let mut i: usize = 0;
    while i < bytes.len() && byte_is_blank(bytes[i])
        invariant
            i <= bytes.len(),
            forall|j: int| 0 <= j < i ==> is_blank(#[trigger] bytes@[j]),
        decreases bytes.len() - i,
    {
        i += 1;
    }
    proof {
        lemma_leading_blanks_is(bytes@, i as int);
    }
    i
}

/// The number of blank bytes with which the text ends.
fn count_trailing_blanks(bytes: &Vec<u8>) -> (r: usize)
    ensures
        r == trailing_blanks(bytes@),
        r <= bytes.len(),
{
    let n = bytes.len();
    let mut i: usize = 0;
    while i < n && byte_is_blank(bytes[n - 1 - i])
        invariant
            i <= n,
            n == bytes.len(),
            forall|j: int| n - i <= j < n ==> is_blank(#[trigger] bytes@[j]),
        decreases n - i,
    {
        i += 1;
    }
    proof {
        lemma_trailing_blanks_is(bytes@, i as int);
    }
    i
}

/// Trims a run of text at its start: of all leading blanks where it begins
/// with a line break or holds nothing but blanks, and not at all otherwise.
pub fn trim_start(bytes: &Vec<u8>) -> (r: Vec<u8>)
    ensures
        r@ == trimmed_at_start(bytes@),
{
    let n = bytes.len();
    let blanks = count_leading_blanks(bytes);
    proof {
        lemma_leading_blanks(bytes@);
    }
    if n > 0 && (bytes[0] == NEWLINE || blanks == n) {
        let r = copy_range(bytes, blanks, n);
        assert(r@ =~= bytes@.skip(blanks as int));
        r
    } else {
        let r = copy_range(bytes, 0, n);
        assert(r@ =~= bytes@);
        r
    }
}

/// Trims a run of text at its end, if it holds a line break.
pub fn trim_end(bytes: &Vec<u8>) -> (r: Vec<u8>)
    ensures
        r@ == trimmed_at_end(bytes@),
{
    let n = bytes.len();
    match find_byte(NEWLINE, bytes) {
        Some(_) => {
            let blanks = count_trailing_blanks(bytes);
            let r = copy_range(bytes, 0, n - blanks);
            assert(r@ =~= bytes@.take(n - blanks));
            r
        },
        None => {
            let r = copy_range(bytes, 0, n);
            assert(r@ =~= bytes@);
            r
        },
    }
}

/// Takes from a run of text the white space that only lays out the source.
pub fn normalize_text(bytes: &Vec<u8>) -> (r: Vec<u8>)
    ensures
        r@ == normalized_text(bytes@),
{
    let lead = trim_start(bytes);
    trim_end(&lead)
}

} // verus!
