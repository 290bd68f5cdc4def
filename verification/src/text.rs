//! Characters, identifiers and strings: the vocabulary shared by the checks.
use vstd::prelude::*;
use crate::lex::{agree_from, embeds, lemma_agree_tail, tail_of};

verus! {

/// Whether `c` has the Unicode `Alphabetic` property, as `char::is_alphabetic` reports it.
pub uninterp spec fn char_is_alphabetic(c: char) -> bool;

/// Whether `c` is alphabetic or numeric, as `char::is_alphanumeric` reports it.
pub uninterp spec fn char_is_alphanumeric(c: char) -> bool;

/// Whether `c` has the Unicode `White_Space` property, as `char::is_whitespace` reports it.
pub uninterp spec fn char_is_whitespace(c: char) -> bool;

/// Calls `char::is_alphabetic`. The result is named, not spelled out: the
/// Unicode property table it consults is not restated here, beyond its ASCII
/// part, where exactly the letters `a`-`z` and `A`-`Z` are alphabetic.
#[verifier::external_body]
pub(crate) fn is_alphabetic(c: char) -> (r: bool)
    ensures
        r == char_is_alphabetic(c),
        (c as u32) < 128 ==> (r <==> ('a' <= c <= 'z' || 'A' <= c <= 'Z')),
{
    c.is_alphabetic()
}

/// Calls `char::is_alphanumeric`, which std documents as "alphabetic or
/// numeric". Stated here: every alphabetic character is alphanumeric, and
/// among ASCII characters exactly the letters and the digits `0`-`9` are.
#[verifier::external_body]
pub(crate) fn is_alphanumeric(c: char) -> (r: bool)
    ensures
        r == char_is_alphanumeric(c),
        char_is_alphabetic(c) ==> r,
        (c as u32) < 128 ==> (r <==> ('a' <= c <= 'z' || 'A' <= c <= 'Z' || '0' <= c <= '9')),
{
    c.is_alphanumeric()
}

/// Calls `char::is_whitespace`. The result is named, not spelled out beyond
/// its ASCII part, where exactly space, tab, line feed, vertical tab, form
/// feed and carriage return (`\t` to `\r`) have the `White_Space` property.
#[verifier::external_body]
pub(crate) fn is_whitespace(c: char) -> (r: bool)
    ensures
        r == char_is_whitespace(c),
        (c as u32) < 128 ==> (r <==> (c == ' ' || '\t' <= c <= '\r')),
{
    c.is_whitespace()
}

/// Builds a `String` holding exactly the characters of `chars`, in order,
/// through std's `String::from_iter`.
#[verifier::external_body]
pub(crate) fn string_from_chars(chars: &Vec<char>) -> (s: String)
    ensures
        s@ == chars@,
{
    String::from_iter(chars.iter())
}

/// Collects the characters of `source` in order.
pub(crate) fn source_chars(source: &str) -> (chars: Vec<char>)
    ensures
        chars@ == source@,
{
    let mut chars: Vec<char> = Vec::new();
    for c in it: source.chars()
        invariant
            chars@ == it.seq().take(it.index() as int),
            it.seq() == source@,
    {
        chars.push(c);
    }
    chars
}

/// Whether `c` is alphabetic: spelled out for ASCII, the named property beyond.
pub open spec fn spec_is_alphabetic(c: char) -> bool {
    if (c as u32) < 128 {
        'a' <= c <= 'z' || 'A' <= c <= 'Z'
    } else {
        char_is_alphabetic(c)
    }
}

/// Whether `c` is alphanumeric: spelled out for ASCII, the named property beyond.
pub open spec fn spec_is_alphanumeric(c: char) -> bool {
    if (c as u32) < 128 {
        'a' <= c <= 'z' || 'A' <= c <= 'Z' || '0' <= c <= '9'
    } else {
        char_is_alphanumeric(c)
    }
}

/// A character that may begin an identifier.
pub open spec fn spec_is_ident_start(c: char) -> bool {
    spec_is_alphabetic(c) || c == '_'
}

/// A character that may continue an identifier.
pub open spec fn is_ident_char(c: char) -> bool {
    spec_is_alphanumeric(c) || c == '_'
}

/// The first index at or after `i` that does not hold an identifier character.
pub open spec fn ident_end(s: Seq<char>, i: int) -> int
    decreases s.len() - i,
{
    if i < 0 || i >= s.len() || !is_ident_char(s[i]) {
        i
    } else {
        ident_end(s, i + 1)
    }
}

/// The end of the identifier that starts at `start`: its first character
/// followed by every identifier character after it.
pub open spec fn word_end(s: Seq<char>, start: int) -> int {
    ident_end(s, start + 1)
}

pub proof fn lemma_ident_end(s: Seq<char>, i: int)
    requires
        0 <= i <= s.len(),
    ensures
        i <= ident_end(s, i) <= s.len(),
        forall|k: int| i <= k < ident_end(s, i) ==> is_ident_char(#[trigger] s[k]),
    decreases s.len() - i,
{
    if i < s.len() && is_ident_char(s[i]) {
        lemma_ident_end(s, i + 1);
    }
}

/// The first index at or after `j` that does not hold whitespace.
pub open spec fn ws_end(s: Seq<char>, j: int) -> int
    decreases s.len() - j,
{
    if j < 0 || j >= s.len() || !char_is_whitespace(s[j]) {
        j
    } else {
        ws_end(s, j + 1)
    }
}

pub proof fn lemma_ws_end(s: Seq<char>, j: int)
    requires
        0 <= j <= s.len(),
    ensures
        j <= ws_end(s, j) <= s.len(),
    decreases s.len() - j,
{
    if j < s.len() && char_is_whitespace(s[j]) {
        lemma_ws_end(s, j + 1);
    }
}

/// Returns true if `c` may begin a Rust identifier.
pub(crate) fn is_ident_start(c: char) -> (r: bool)
    ensures
        r == spec_is_ident_start(c),
        (c as u32) < 128 ==> (r <==> ('a' <= c <= 'z' || 'A' <= c <= 'Z' || c == '_')),
{
    is_alphabetic(c) || c == '_'
}

/// Reads the identifier beginning at `start`, returning it and the index past it.
///
/// From a character that may begin an identifier, the identifier read is at
/// least that character long.
pub(crate) fn read_ident(chars: &Vec<char>, start: usize) -> (res: (Vec<char>, usize))
    requires
        start <= chars.len(),
    ensures
        res.1 == ident_end(chars@, start as int),
        res.0@ == chars@.subrange(start as int, res.1 as int),
        start <= res.1 <= chars.len(),
        start < chars.len() && spec_is_ident_start(chars@[start as int]) ==> {
            &&& res.1 == word_end(chars@, start as int)
            &&& start < res.1
        },
{
    let len = chars.len();
    let mut i = start;
    let mut ident: Vec<char> = Vec::new();
    proof {
        lemma_ident_end(chars@, start as int);
    }
    while i < len && (is_alphanumeric(chars[i]) || chars[i] == '_')
        invariant
            start <= i <= len,
            len == chars.len(),
            ident@ == chars@.subrange(start as int, i as int),
            ident_end(chars@, i as int) == ident_end(chars@, start as int),
            i > start ==> is_ident_char(chars@[start as int]),
        decreases len - i,
    {
        ident.push(chars[i]);
        i += 1;
        assert(ident@ =~= chars@.subrange(start as int, i as int));
    }
    proof {
        if start < len && spec_is_ident_start(chars@[start as int]) {
            assert(i > start);
            assert(ident_end(chars@, start as int) == ident_end(chars@, start + 1));
        }
    }
    (ident, i)
}

/// Whether `word` spells `keyword`.
pub(crate) fn word_is(word: &Vec<char>, keyword: &Vec<char>) -> (r: bool)
    ensures
        r == (word@ == keyword@),
{
    if word.len() != keyword.len() {
        return false;
    }
    let mut i: usize = 0;
    while i < word.len()
        invariant
            word.len() == keyword.len(),
            i <= word.len(),
            forall|k: int| 0 <= k < i ==> word@[k] == keyword@[k],
        decreases word.len() - i,
    {
        if word[i] != keyword[i] {
            return false;
        }
        i += 1;
    }
    assert(word@ =~= keyword@);
    true
}

/// An identifier that ends inside `s1`, or runs on a tail of `s2`, ends at
/// the same place, shifted, in `s2`.
pub proof fn lemma_ident_end_embed(s1: Seq<char>, s2: Seq<char>, off: int, i: int)
    requires
        embeds(s1, s2, off),
        0 <= i <= s1.len(),
        ident_end(s1, i) < s1.len() || tail_of(s1, s2, off),
    ensures
        ident_end(s2, off + i) == off + ident_end(s1, i),
    decreases s1.len() - i,
{
    if i < s1.len() {
        assert(s2[off + i] == s1[i]);
        if is_ident_char(s1[i]) {
            lemma_ident_end_embed(s1, s2, off, i + 1);
        }
    }
}

pub proof fn lemma_ws_end_embed(s1: Seq<char>, s2: Seq<char>, off: int, j: int)
    requires
        embeds(s1, s2, off),
        0 <= j <= s1.len(),
        ws_end(s1, j) < s1.len() || tail_of(s1, s2, off),
    ensures
        ws_end(s2, off + j) == off + ws_end(s1, j),
    decreases s1.len() - j,
{
    if j < s1.len() {
        assert(s2[off + j] == s1[j]);
        if char_is_whitespace(s1[j]) {
            lemma_ws_end_embed(s1, s2, off, j + 1);
        }
    }
}

/// Identifiers and whitespace runs read the same in texts that agree from
/// `p` on.
pub proof fn lemma_words_agree(s1: Seq<char>, s2: Seq<char>, p: int, i: int)
    requires
        agree_from(s1, s2, p),
        p <= i <= s1.len(),
    ensures
        ident_end(s1, i) == ident_end(s2, i),
        ws_end(s1, i) == ws_end(s2, i),
{
    let t = s1.subrange(i, s1.len() as int);
    lemma_agree_tail(s1, s2, p, i);
    lemma_ident_end_embed(t, s1, i, 0);
    lemma_ident_end_embed(t, s2, i, 0);
    lemma_ws_end_embed(t, s1, i, 0);
    lemma_ws_end_embed(t, s2, i, 0);
}

} // verus!
