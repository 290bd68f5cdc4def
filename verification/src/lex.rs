//! Skipping comments and literals, the part of the scan where braces,
//! keywords and names do not count.
//!
//! Each scanner is stated as a spec function over the characters and proved
//! against its executable twin. Line numbers are carried along exactly as the
//! scan advances them.
use vstd::prelude::*;

verus! {

/// The first index at or after `i` that holds a line break, or `i` itself
/// once the text is exhausted.
pub open spec fn line_end(s: Seq<char>, i: int) -> int
    decreases s.len() - i,
{
    if i < 0 || i >= s.len() || s[i] == '\n' {
        i
    } else {
        line_end(s, i + 1)
    }
}

pub proof fn lemma_line_end(s: Seq<char>, i: int)
    requires
        0 <= i <= s.len(),
    ensures
        i <= line_end(s, i) <= s.len(),
        line_end(s, i) < s.len() ==> s[line_end(s, i)] == '\n',
        forall|k: int| i <= k < line_end(s, i) ==> #[trigger] s[k] != '\n',
    decreases s.len() - i,
{
    if i < s.len() && s[i] != '\n' {
        lemma_line_end(s, i + 1);
    }
}

/// Skips a line comment that starts at `start`, stopping at its line break.
pub(crate) fn skip_line_comment(chars: &Vec<char>, start: usize) -> (end: usize)
    requires
        start <= chars.len(),
    ensures
        end == line_end(chars@, start as int),
        start <= end <= chars.len(),
        start < chars.len() && chars@[start as int] != '\n' ==> start < end,
{
    let len = chars.len();
    let mut i = start;
    proof {
        lemma_line_end(chars@, start as int);
    }
    while i < len && chars[i] != '\n'
        invariant
            start <= i <= len,
            len == chars.len(),
            line_end(chars@, i as int) == line_end(chars@, start as int),
        decreases len - i,
    {
        i += 1;
    }
    i
}

/// A possibly nested block comment, scanned from `i` with `nesting` comments
/// still open: where the scan stops, and the line it stops on.
pub open spec fn nested_comment_scan(s: Seq<char>, i: int, nesting: nat, line: int) -> (int, int)
    decreases s.len() - i,
{
    if i < 0 || i >= s.len() || nesting == 0 {
        (i, line)
    } else if s[i] == '\n' {
        nested_comment_scan(s, i + 1, nesting, line + 1)
    } else if s[i] == '/' && i + 1 < s.len() && s[i + 1] == '*' {
        nested_comment_scan(s, i + 2, nesting + 1, line)
    } else if s[i] == '*' && i + 1 < s.len() && s[i + 1] == '/' {
        nested_comment_scan(s, i + 2, (nesting - 1) as nat, line)
    } else {
        nested_comment_scan(s, i + 1, nesting, line)
    }
}

pub proof fn lemma_nested_comment_scan(s: Seq<char>, i: int, nesting: nat, line: int)
    requires
        0 <= i <= s.len(),
    ensures
        i <= nested_comment_scan(s, i, nesting, line).0 <= s.len(),
        line <= nested_comment_scan(s, i, nesting, line).1,
        nested_comment_scan(s, i, nesting, line).1 - line <= nested_comment_scan(
            s,
            i,
            nesting,
            line,
        ).0 - i,
    decreases s.len() - i,
{
    if i < s.len() && nesting != 0 {
        if s[i] == '\n' {
            lemma_nested_comment_scan(s, i + 1, nesting, line + 1);
        } else if s[i] == '/' && i + 1 < s.len() && s[i + 1] == '*' {
            lemma_nested_comment_scan(s, i + 2, nesting + 1, line);
        } else if s[i] == '*' && i + 1 < s.len() && s[i + 1] == '/' {
            lemma_nested_comment_scan(s, i + 2, (nesting - 1) as nat, line);
        } else {
            lemma_nested_comment_scan(s, i + 1, nesting, line);
        }
    }
}

/// Skips a possibly nested block comment beginning at `start`, returning the
/// index just past it.
pub(crate) fn skip_block_comment(chars: &Vec<char>, start: usize, line: &mut usize) -> (end: usize)
    requires
        start + 1 < chars.len(),
        nested_comment_scan(chars@, start + 2, 1, *old(line) as int).1 <= usize::MAX,
    ensures
        (end as int, *final(line) as int) == nested_comment_scan(
            chars@,
            start + 2,
            1,
            *old(line) as int,
        ),
        start + 2 <= end <= chars.len(),
        *old(line) <= *final(line),
        *final(line) - *old(line) <= end - start - 2,
{
    let len = chars.len();
    let mut nesting: usize = 1;
    let mut i = start + 2;
    let ghost line0: int = *line as int;
    proof {
        lemma_nested_comment_scan(chars@, start + 2, 1, line0);
    }

    while i < len && nesting > 0
        invariant
            start + 2 <= i <= len,
            len == chars.len(),
            nesting <= i,
            line0 == *old(line),
            line0 <= *line,
            *line - line0 <= i - start - 2,
            nested_comment_scan(chars@, start + 2, 1, line0).1 <= usize::MAX,
            nested_comment_scan(chars@, i as int, nesting as nat, *line as int)
                == nested_comment_scan(chars@, start + 2, 1, line0),
        decreases len - i,
    {
        if chars[i] == '\n' {
            proof {
                lemma_nested_comment_scan(chars@, i + 1, nesting as nat, *line + 1);
            }
            *line += 1;
            i += 1;
        } else if chars[i] == '/' && i + 1 < len && chars[i + 1] == '*' {
            nesting += 1;
            i += 2;
        } else if chars[i] == '*' && i + 1 < len && chars[i + 1] == '/' {
            nesting -= 1;
            i += 2;
        } else {
            i += 1;
        }
    }
    i
}

/// The index of the first character at or after `j` that is not a `#`.
pub open spec fn hash_run_end(s: Seq<char>, j: int) -> int
    decreases s.len() - j,
{
    if j < 0 || j >= s.len() || s[j] != '#' {
        j
    } else {
        hash_run_end(s, j + 1)
    }
}

/// How many `#` follow index `k`, counting at most `hashes` of them.
pub open spec fn closing_hashes(s: Seq<char>, k: int, hashes: int) -> int
    decreases hashes,
{
    if hashes <= 0 || k < 0 || k >= s.len() || s[k] != '#' {
        0
    } else {
        1 + closing_hashes(s, k + 1, hashes - 1)
    }
}

/// The body of a raw string closed by a quote and `hashes` hash signs,
/// scanned from `i`: where it ends, and the line it ends on.
pub open spec fn raw_body_scan(s: Seq<char>, i: int, hashes: int, line: int) -> (int, int)
    decreases s.len() - i,
{
    if i < 0 || i >= s.len() {
        (s.len() as int, line)
    } else if s[i] == '\n' {
        raw_body_scan(s, i + 1, hashes, line + 1)
    } else if s[i] == '"' && closing_hashes(s, i + 1, hashes) == hashes {
        (i + 1 + hashes, line)
    } else {
        raw_body_scan(s, i + 1, hashes, line)
    }
}

/// A raw string `r#"..."#` that starts at `start`, if one does: where it ends
/// and the line it ends on.
pub open spec fn raw_string_scan(s: Seq<char>, start: int, line: int) -> Option<(int, int)> {
    let j = hash_run_end(s, start + 1);
    if j >= s.len() || s[j] != '"' {
        None
    } else {
        Some(raw_body_scan(s, j + 1, j - start - 1, line))
    }
}

pub proof fn lemma_hash_run_end(s: Seq<char>, j: int)
    requires
        0 <= j <= s.len(),
    ensures
        j <= hash_run_end(s, j) <= s.len(),
    decreases s.len() - j,
{
    if j < s.len() && s[j] == '#' {
        lemma_hash_run_end(s, j + 1);
    }
}

pub proof fn lemma_closing_hashes(s: Seq<char>, k: int, hashes: int)
    requires
        0 <= k,
    ensures
        0 <= closing_hashes(s, k, hashes),
        hashes >= 0 ==> closing_hashes(s, k, hashes) <= hashes,
        closing_hashes(s, k, hashes) > 0 ==> k + closing_hashes(s, k, hashes) <= s.len(),
    decreases hashes,
{
    if hashes > 0 && k < s.len() && s[k] == '#' {
        lemma_closing_hashes(s, k + 1, hashes - 1);
    }
}

pub proof fn lemma_raw_body_scan(s: Seq<char>, i: int, hashes: int, line: int)
    requires
        0 <= i <= s.len(),
        hashes >= 0,
    ensures
        i <= raw_body_scan(s, i, hashes, line).0 <= s.len(),
        line <= raw_body_scan(s, i, hashes, line).1,
        raw_body_scan(s, i, hashes, line).1 - line <= raw_body_scan(s, i, hashes, line).0 - i,
    decreases s.len() - i,
{
    if i < s.len() {
        if s[i] == '\n' {
            lemma_raw_body_scan(s, i + 1, hashes, line + 1);
        } else if s[i] == '"' && closing_hashes(s, i + 1, hashes) == hashes {
            lemma_closing_hashes(s, i + 1, hashes);
        } else {
            lemma_raw_body_scan(s, i + 1, hashes, line);
        }
    }
}

pub proof fn lemma_raw_string_scan(s: Seq<char>, start: int, line: int)
    requires
        0 <= start < s.len(),
    ensures
        raw_string_scan(s, start, line) matches Some((end, l)) ==> {
            &&& start < end <= s.len()
            &&& line <= l
            &&& l - line <= end - start
        },
{
    lemma_hash_run_end(s, start + 1);
    let j = hash_run_end(s, start + 1);
    if j < s.len() && s[j] == '"' {
        lemma_raw_body_scan(s, j + 1, j - start - 1, line);
    }
}

/// Skips a raw string beginning at `start`, returning the index just past it.
///
/// Returns `None` if `start` does not in fact begin a raw string.
pub(crate) fn skip_raw_string(chars: &Vec<char>, start: usize, line: &mut usize) -> (end: Option<usize>)
    requires
        start < chars.len(),
        raw_string_scan(chars@, start as int, *old(line) as int) matches Some((e, l)) ==> l <= usize::MAX,
    ensures
        end matches Some(e) ==> raw_string_scan(chars@, start as int, *old(line) as int) == Some(
            (e as int, *final(line) as int),
        ),
        end is None ==> raw_string_scan(chars@, start as int, *old(line) as int) is None
            && *final(line) == *old(line),
        end matches Some(e) ==> start < e <= chars.len(),
        *old(line) <= *final(line),
        end matches Some(e) ==> *final(line) - *old(line) <= e - start,
{
    let len = chars.len();
    let mut j = start + 1;
    let mut hashes = 0usize;
    let ghost line0: int = *line as int;
    proof {
        lemma_hash_run_end(chars@, start + 1);
        lemma_raw_string_scan(chars@, start as int, line0);
    }

    while j < len && chars[j] == '#'
        invariant
            start + 1 <= j <= len,
            len == chars.len(),
            hashes == j - start - 1,
            hash_run_end(chars@, j as int) == hash_run_end(chars@, start + 1),
        decreases len - j,
    {
        hashes += 1;
        j += 1;
    }

    if j >= len || chars[j] != '"' {
        return None;
    }

    let mut i = j + 1;
    proof {
        lemma_raw_body_scan(chars@, i as int, hashes as int, line0);
    }
    while i < len
        invariant
            j + 1 <= i <= len,
            j < len,
            len == chars.len(),
            hashes == j - start - 1,
            line0 == *old(line),
            line0 <= *line,
            *line - line0 <= i - j - 1,
            raw_body_scan(chars@, j + 1, hashes as int, line0).1 <= usize::MAX,
            raw_body_scan(chars@, i as int, hashes as int, *line as int) == raw_body_scan(
                chars@,
                j + 1,
                hashes as int,
                line0,
            ),
            raw_string_scan(chars@, start as int, line0) == Some(
                raw_body_scan(chars@, j + 1, hashes as int, line0),
            ),
        decreases len - i,
    {
        if chars[i] == '\n' {
            proof {
                lemma_raw_body_scan(chars@, i + 1, hashes as int, *line + 1);
            }
            *line += 1;
            i += 1;
            continue;
        }

        if chars[i] == '"' {
            let mut k = i + 1;
            let mut seen = 0usize;
            proof {
                lemma_closing_hashes(chars@, i + 1, hashes as int);
            }
            while k < len && seen < hashes && chars[k] == '#'
                invariant
                    i + 1 <= k <= len,
                    len == chars.len(),
                    seen == k - i - 1,
                    seen <= hashes,
                    closing_hashes(chars@, i + 1, hashes as int) == seen + closing_hashes(
                        chars@,
                        k as int,
                        hashes - seen,
                    ),
                decreases len - k,
            {
                seen += 1;
                k += 1;
            }
            if seen == hashes {
                return Some(k);
            }
        }

        i += 1;
    }

    Some(len)
}

/// An ordinary string literal scanned from `i`, just past its opening quote:
/// where it ends and the line it ends on. A backslash escapes the character
/// after it; an escaped line break still ends a line.
pub open spec fn string_scan(s: Seq<char>, i: int, line: int) -> (int, int)
    decreases s.len() + 1 - i,
{
    if i < 0 || i >= s.len() {
        (s.len() as int, line)
    } else if s[i] == '\\' {
        string_scan(
            s,
            i + 2,
            if i + 1 < s.len() && s[i + 1] == '\n' {
                line + 1
            } else {
                line
            },
        )
    } else if s[i] == '\n' {
        string_scan(s, i + 1, line + 1)
    } else if s[i] == '"' {
        (i + 1, line)
    } else {
        string_scan(s, i + 1, line)
    }
}

pub proof fn lemma_string_scan(s: Seq<char>, i: int, line: int)
    requires
        0 <= i,
    ensures
        string_scan(s, i, line).0 <= s.len(),
        i <= s.len() ==> i <= string_scan(s, i, line).0,
        line <= string_scan(s, i, line).1,
        string_scan(s, i, line).1 - line <= string_scan(s, i, line).0 - i
            || string_scan(s, i, line).1 == line,
    decreases s.len() + 1 - i,
{
    if i < s.len() {
        if s[i] == '\\' {
            if i + 1 < s.len() && s[i + 1] == '\n' {
                lemma_string_scan(s, i + 2, line + 1);
            } else {
                lemma_string_scan(s, i + 2, line);
            }
        } else if s[i] == '\n' {
            lemma_string_scan(s, i + 1, line + 1);
        } else if s[i] != '"' {
            lemma_string_scan(s, i + 1, line);
        }
    }
}

/// Skips an ordinary string beginning at `start`, returning the index just past it.
pub(crate) fn skip_string(chars: &Vec<char>, start: usize, line: &mut usize) -> (end: usize)
    requires
        start < chars.len(),
        chars.len() < usize::MAX,
        string_scan(chars@, start + 1, *old(line) as int).1 <= usize::MAX,
    ensures
        (end as int, *final(line) as int) == string_scan(chars@, start + 1, *old(line) as int),
        start < end <= chars.len(),
        *old(line) <= *final(line),
        *final(line) - *old(line) <= end - start,
{
    let len = chars.len();
    let mut i = start + 1;
    let ghost line0: int = *line as int;

    while i < len
        invariant
            start + 1 <= i <= len + 1,
            len == chars.len(),
            len < usize::MAX,
            line0 == *old(line),
            line0 <= *line,
            *line - line0 <= i - start - 1,
            string_scan(chars@, start + 1, line0).1 <= usize::MAX,
            string_scan(chars@, i as int, *line as int) == string_scan(
                chars@,
                start + 1,
                line0,
            ),
        decreases len + 1 - i,
    {
        if chars[i] == '\\' {
            if i + 1 < len && chars[i + 1] == '\n' {
                proof {
                    lemma_string_scan(chars@, i + 2, *line + 1);
                }
                *line += 1;
            }
            i += 2;
        } else if chars[i] == '\n' {
            proof {
                lemma_string_scan(chars@, i + 1, *line + 1);
            }
            *line += 1;
            i += 1;
        } else if chars[i] == '"' {
            return i + 1;
        } else {
            i += 1;
        }
    }

    len
}

/// The first index at or after `j` that holds a quote or a line break, or
/// `j` itself once the text is exhausted.
pub open spec fn quote_stop(s: Seq<char>, j: int) -> int
    decreases s.len() - j,
{
    if j < 0 || j >= s.len() || s[j] == '\'' || s[j] == '\n' {
        j
    } else {
        quote_stop(s, j + 1)
    }
}

pub proof fn lemma_quote_stop(s: Seq<char>, j: int)
    requires
        0 <= j,
    ensures
        j <= quote_stop(s, j),
        j <= s.len() ==> quote_stop(s, j) <= s.len(),
        j > s.len() ==> quote_stop(s, j) == j,
    decreases s.len() - j,
{
    if j < s.len() && s[j] != '\'' && s[j] != '\n' {
        lemma_quote_stop(s, j + 1);
    }
}

/// Where an apostrophe at `start` stops: past a char literal, or just past
/// itself when it introduces a lifetime.
pub open spec fn quote_end(s: Seq<char>, start: int) -> int {
    if start + 1 < s.len() && s[start + 1] == '\\' {
        let j = quote_stop(s, start + 3);
        if j < s.len() && s[j] == '\'' {
            j + 1
        } else {
            start + 1
        }
    } else if start + 2 < s.len() && s[start + 2] == '\'' {
        start + 3
    } else {
        start + 1
    }
}

/// How many line breaks stand in `s[a..b]`.
pub open spec fn newline_count(s: Seq<char>, a: int, b: int) -> int
    decreases b - a,
{
    if a >= b {
        0
    } else {
        newline_count(s, a, b - 1) + if s[b - 1] == '\n' {
            1int
        } else {
            0int
        }
    }
}

pub proof fn lemma_newline_count(s: Seq<char>, a: int, b: int)
    requires
        a <= b,
    ensures
        0 <= newline_count(s, a, b) <= b - a,
    decreases b - a,
{
    if a < b {
        lemma_newline_count(s, a, b - 1);
    }
}

/// The line a char literal or lifetime at `start` ends on: the line breaks it
/// holds are counted.
pub open spec fn quote_line(s: Seq<char>, start: int, line: int) -> int {
    line + newline_count(s, start + 1, quote_end(s, start))
}

pub proof fn lemma_quote_end(s: Seq<char>, start: int, line: int)
    requires
        0 <= start < s.len(),
    ensures
        start < quote_end(s, start) <= s.len(),
        line <= quote_line(s, start, line),
        quote_line(s, start, line) - line <= quote_end(s, start) - start,
{
    lemma_quote_stop(s, start + 3);
    lemma_newline_count(s, start + 1, quote_end(s, start));
}

/// Skips a char literal beginning at `start`, returning the index just past it.
///
/// An apostrophe that introduces a lifetime rather than a char literal consumes
/// only itself, leaving the identifier to be scanned normally.
pub(crate) fn skip_quote(chars: &Vec<char>, start: usize, line: &mut usize) -> (end: usize)
    requires
        start < chars.len(),
        chars.len() < usize::MAX,
        quote_line(chars@, start as int, *old(line) as int) <= usize::MAX,
    ensures
        end == quote_end(chars@, start as int),
        *final(line) == quote_line(chars@, start as int, *old(line) as int),
        start < end <= chars.len(),
{
    let end = quote_literal_end(chars, start);
    proof {
        lemma_quote_end(chars@, start as int, *line as int);
    }
    let mut k = start + 1;
    let ghost line0 = *line as int;
    while k < end
        invariant
            start + 1 <= k <= end,
            end <= chars.len(),
            line0 == *old(line),
            *line == line0 + newline_count(chars@, start + 1, k as int),
            quote_line(chars@, start as int, line0) <= usize::MAX,
            end == quote_end(chars@, start as int),
        decreases end - k,
    {
        proof {
            lemma_newline_count(chars@, k + 1, end as int);
            lemma_newline_count(chars@, start + 1, k + 1);
            lemma_newline_count_split(chars@, start + 1, k + 1, end as int);
        }
        if chars[k] == '\n' {
            *line += 1;
        }
        k += 1;
    }
    end
}

proof fn lemma_newline_count_split(s: Seq<char>, a: int, m: int, b: int)
    requires
        a <= m <= b,
    ensures
        newline_count(s, a, b) == newline_count(s, a, m) + newline_count(s, m, b),
    decreases b - m,
{
    if m < b {
        lemma_newline_count_split(s, a, m, b - 1);
    }
}

/// Where the char literal or lifetime at `start` ends.
fn quote_literal_end(chars: &Vec<char>, start: usize) -> (end: usize)
    requires
        start < chars.len(),
        chars.len() < usize::MAX,
    ensures
        end == quote_end(chars@, start as int),
        start < end <= chars.len(),
{
    let len = chars.len();

    if start + 1 < len && chars[start + 1] == '\\' {
        let mut j = start + 3;
        proof {
            lemma_quote_stop(chars@, j as int);
        }
        while j < len && chars[j] != '\'' && chars[j] != '\n'
            invariant
                start + 3 <= j,
                j <= len || j == start + 3,
                start + 1 < len,
                len == chars.len(),
                len < usize::MAX,
                quote_stop(chars@, j as int) == quote_stop(chars@, start + 3),
            decreases len - j,
        {
            j += 1;
        }
        if j < len && chars[j] == '\'' {
            return j + 1;
        }
        return start + 1;
    }

    if start + 2 < len && chars[start + 2] == '\'' {
        return start + 3;
    }

    start + 1
}

// ---------------------------------------------------------------------------
// Scanning inside a larger text
// ---------------------------------------------------------------------------

/// `s2` holds `s1` from index `off` on.
pub open spec fn embeds(s1: Seq<char>, s2: Seq<char>, off: int) -> bool {
    &&& 0 <= off
    &&& off + s1.len() <= s2.len()
    &&& forall|k: int| 0 <= k < s1.len() ==> s2[off + k] == #[trigger] s1[k]
}

/// `s1` ends where `s2` ends: every scan sees the same text from `off` on.
pub open spec fn tail_of(s1: Seq<char>, s2: Seq<char>, off: int) -> bool {
    embeds(s1, s2, off) && off + s1.len() == s2.len()
}

/// A line scan that stops inside `s1`, or runs on a tail of `s2`, gives the
/// same stop, shifted, in `s2`.
pub proof fn lemma_line_end_embed(s1: Seq<char>, s2: Seq<char>, off: int, i: int)
    requires
        embeds(s1, s2, off),
        0 <= i <= s1.len(),
        line_end(s1, i) < s1.len() || tail_of(s1, s2, off),
    ensures
        line_end(s2, off + i) == off + line_end(s1, i),
    decreases s1.len() - i,
{
    if i < s1.len() {
        assert(s2[off + i] == s1[i]);
        if s1[i] != '\n' {
            lemma_line_end_embed(s1, s2, off, i + 1);
        }
    }
}

pub proof fn lemma_nested_comment_scan_embed(
    s1: Seq<char>,
    s2: Seq<char>,
    off: int,
    i: int,
    nesting: nat,
    line: int,
)
    requires
        embeds(s1, s2, off),
        0 <= i <= s1.len(),
        nested_comment_scan(s1, i, nesting, line).0 < s1.len() || tail_of(s1, s2, off),
    ensures
        nested_comment_scan(s2, off + i, nesting, line) == (
            off + nested_comment_scan(s1, i, nesting, line).0,
            nested_comment_scan(s1, i, nesting, line).1,
        ),
    decreases s1.len() - i,
{
    if i < s1.len() && nesting != 0 {
        assert(s2[off + i] == s1[i]);
        if i + 1 < s1.len() {
            assert(s2[off + i + 1] == s1[i + 1]);
        }
        if s1[i] == '\n' {
            lemma_nested_comment_scan_embed(s1, s2, off, i + 1, nesting, line + 1);
        } else if s1[i] == '/' && i + 1 < s1.len() && s1[i + 1] == '*' {
            lemma_nested_comment_scan_embed(s1, s2, off, i + 2, nesting + 1, line);
        } else if s1[i] == '*' && i + 1 < s1.len() && s1[i + 1] == '/' {
            lemma_nested_comment_scan_embed(s1, s2, off, i + 2, (nesting - 1) as nat, line);
        } else {
            lemma_nested_comment_scan_embed(s1, s2, off, i + 1, nesting, line);
        }
    }
}

pub proof fn lemma_hash_run_end_embed(s1: Seq<char>, s2: Seq<char>, off: int, j: int)
    requires
        embeds(s1, s2, off),
        0 <= j <= s1.len(),
        hash_run_end(s1, j) < s1.len() || tail_of(s1, s2, off),
    ensures
        hash_run_end(s2, off + j) == off + hash_run_end(s1, j),
    decreases s1.len() - j,
{
    if j < s1.len() {
        assert(s2[off + j] == s1[j]);
        if s1[j] == '#' {
            lemma_hash_run_end_embed(s1, s2, off, j + 1);
        }
    }
}

/// A run of `#` stops at the first character that is not one.
pub proof fn lemma_hash_run_end_before(s: Seq<char>, j: int, q: int)
    requires
        0 <= j <= q < s.len(),
        s[q] != '#',
    ensures
        hash_run_end(s, j) <= q,
    decreases q - j,
{
    if s[j] == '#' {
        lemma_hash_run_end_before(s, j + 1, q);
    }
}

/// Counting closing `#` agrees in `s2` when the count ends inside `s1`: it
/// asks for no more than `s1` holds, or meets a character at `q` that is not
/// a `#`.
pub proof fn lemma_closing_hashes_embed(
    s1: Seq<char>,
    s2: Seq<char>,
    off: int,
    k: int,
    hashes: int,
    q: int,
)
    requires
        embeds(s1, s2, off),
        0 <= k,
        k + hashes <= s1.len() || (k <= q < s1.len() && s1[q] != '#') || tail_of(s1, s2, off),
    ensures
        closing_hashes(s2, off + k, hashes) == closing_hashes(s1, k, hashes),
    decreases hashes,
{
    if hashes > 0 && k < s1.len() {
        assert(s2[off + k] == s1[k]);
        if s1[k] == '#' {
            lemma_closing_hashes_embed(s1, s2, off, k + 1, hashes - 1, q);
        }
    }
}

pub proof fn lemma_raw_body_scan_embed(
    s1: Seq<char>,
    s2: Seq<char>,
    off: int,
    i: int,
    hashes: int,
    line: int,
    q: int,
)
    requires
        embeds(s1, s2, off),
        0 <= i <= s1.len(),
        hashes >= 0,
        (raw_body_scan(s1, i, hashes, line).0 <= q < s1.len() && s1[q] != '#') || tail_of(
            s1,
            s2,
            off,
        ),
    ensures
        raw_body_scan(s2, off + i, hashes, line) == (
            off + raw_body_scan(s1, i, hashes, line).0,
            raw_body_scan(s1, i, hashes, line).1,
        ),
    decreases s1.len() - i,
{
    if i < s1.len() {
        assert(s2[off + i] == s1[i]);
        lemma_raw_body_scan(s1, i + 1, hashes, line);
        lemma_raw_body_scan(s1, i + 1, hashes, line + 1);
        lemma_closing_hashes(s1, i + 1, hashes);
        if s1[i] == '\n' {
            lemma_raw_body_scan_embed(s1, s2, off, i + 1, hashes, line + 1, q);
        } else {
            lemma_closing_hashes_embed(s1, s2, off, i + 1, hashes, q);
            if !(s1[i] == '"' && closing_hashes(s1, i + 1, hashes) == hashes) {
                lemma_raw_body_scan_embed(s1, s2, off, i + 1, hashes, line, q);
            }
        }
    }
}

pub proof fn lemma_string_scan_embed(s1: Seq<char>, s2: Seq<char>, off: int, i: int, line: int)
    requires
        embeds(s1, s2, off),
        0 <= i,
        string_scan(s1, i, line).0 < s1.len() || tail_of(s1, s2, off),
    ensures
        string_scan(s2, off + i, line) == (
            off + string_scan(s1, i, line).0,
            string_scan(s1, i, line).1,
        ),
    decreases s1.len() + 1 - i,
{
    if i < s1.len() {
        assert(s2[off + i] == s1[i]);
        if i + 1 < s1.len() {
            assert(s2[off + i + 1] == s1[i + 1]);
        }
        if s1[i] == '\\' {
            if i + 1 < s1.len() && s1[i + 1] == '\n' {
                lemma_string_scan_embed(s1, s2, off, i + 2, line + 1);
            } else {
                lemma_string_scan_embed(s1, s2, off, i + 2, line);
            }
        } else if s1[i] == '\n' {
            lemma_string_scan_embed(s1, s2, off, i + 1, line + 1);
        } else if s1[i] != '"' {
            lemma_string_scan_embed(s1, s2, off, i + 1, line);
        }
    }
}

pub proof fn lemma_quote_stop_embed(s1: Seq<char>, s2: Seq<char>, off: int, j: int)
    requires
        embeds(s1, s2, off),
        0 <= j,
        quote_stop(s1, j) < s1.len() || tail_of(s1, s2, off),
    ensures
        quote_stop(s2, off + j) == off + quote_stop(s1, j),
    decreases s1.len() - j,
{
    if j < s1.len() {
        assert(s2[off + j] == s1[j]);
        if s1[j] != '\'' && s1[j] != '\n' {
            lemma_quote_stop_embed(s1, s2, off, j + 1);
        }
    }
}

/// A quote scan stops at the latest at a line break.
pub proof fn lemma_quote_stop_before(s: Seq<char>, j: int, q: int)
    requires
        0 <= j <= q < s.len(),
        s[q] == '\n',
    ensures
        quote_stop(s, j) <= q,
    decreases q - j,
{
    if s[j] != '\'' && s[j] != '\n' {
        lemma_quote_stop_before(s, j + 1, q);
    }
}

/// `s1` and `s2` have one length and the same characters from `p` on.
pub open spec fn agree_from(s1: Seq<char>, s2: Seq<char>, p: int) -> bool {
    &&& s1.len() == s2.len()
    &&& 0 <= p
    &&& forall|q: int| p <= q < s1.len() ==> #[trigger] s1[q] == s2[q]
}

/// From `i` on, `s1` and `s2` are both the same tail text.
pub proof fn lemma_agree_tail(s1: Seq<char>, s2: Seq<char>, p: int, i: int)
    requires
        agree_from(s1, s2, p),
        p <= i <= s1.len(),
    ensures
        tail_of(s1.subrange(i, s1.len() as int), s1, i),
        tail_of(s1.subrange(i, s1.len() as int), s2, i),
{
    let t = s1.subrange(i, s1.len() as int);
    assert forall|k: int| 0 <= k < t.len() implies s2[i + k] == #[trigger] t[k] by {
        assert(s1[i + k] == s2[i + k]);
    }
}

/// Line breaks counted from `p` on are the same in texts that agree there.
pub proof fn lemma_newline_count_agree(s1: Seq<char>, s2: Seq<char>, p: int, a: int, b: int)
    requires
        agree_from(s1, s2, p),
        p <= a,
        b <= s1.len(),
    ensures
        newline_count(s1, a, b) == newline_count(s2, a, b),
    decreases b - a,
{
    if a < b {
        lemma_newline_count_agree(s1, s2, p, a, b - 1);
        assert(s1[b - 1] == s2[b - 1]);
    }
}

/// Every scanner started at or after `p` reads the same in texts that agree
/// from `p` on.
pub proof fn lemma_scans_agree(s1: Seq<char>, s2: Seq<char>, p: int, i: int, line: int)
    requires
        agree_from(s1, s2, p),
        p <= i < s1.len(),
    ensures
        line_end(s1, i) == line_end(s2, i),
        i + 2 <= s1.len() ==> nested_comment_scan(s1, i + 2, 1, line) == nested_comment_scan(
            s2,
            i + 2,
            1,
            line,
        ),
        raw_string_scan(s1, i, line) == raw_string_scan(s2, i, line),
        string_scan(s1, i + 1, line) == string_scan(s2, i + 1, line),
        quote_end(s1, i) == quote_end(s2, i),
        quote_line(s1, i, line) == quote_line(s2, i, line),
{
    let t = s1.subrange(i, s1.len() as int);
    lemma_agree_tail(s1, s2, p, i);
    lemma_line_end_embed(t, s1, i, 0);
    lemma_line_end_embed(t, s2, i, 0);
    if i + 2 <= s1.len() {
        lemma_nested_comment_scan_embed(t, s1, i, 2, 1, line);
        lemma_nested_comment_scan_embed(t, s2, i, 2, 1, line);
    }
    lemma_string_scan_embed(t, s1, i, 1, line);
    lemma_string_scan_embed(t, s2, i, 1, line);
    lemma_hash_run_end(t, 1);
    lemma_hash_run_end_embed(t, s1, i, 1);
    lemma_hash_run_end_embed(t, s2, i, 1);
    let j = hash_run_end(t, 1);
    if j < t.len() {
        assert(s1[i + j] == t[j]);
        assert(s2[i + j] == t[j]);
        if t[j] == '"' {
            lemma_raw_body_scan_embed(t, s1, i, j + 1, j - 1, line, 0);
            lemma_raw_body_scan_embed(t, s2, i, j + 1, j - 1, line, 0);
        }
    }
    lemma_quote_stop_embed(t, s1, i, 3);
    lemma_quote_stop_embed(t, s2, i, 3);
    if i + 1 < s1.len() {
        assert(s1[i + 1] == s2[i + 1]);
    }
    if i + 2 < s1.len() {
        assert(s1[i + 2] == s2[i + 2]);
    }
    lemma_quote_stop(s1, i + 3);
    let q = quote_stop(s1, i + 3);
    if q < s1.len() {
        assert(s1[q] == s2[q]);
    }
    lemma_quote_end(s1, i, line);
    lemma_newline_count_agree(s1, s2, p, i + 1, quote_end(s1, i));
}

/// A character that neither escapes, closes nor breaks an ordinary string.
pub open spec fn plain_in_string(c: char) -> bool {
    c != '\\' && c != '"' && c != '\n'
}

/// Where a string ends does not depend on which plain character stands at
/// `k`.
pub proof fn lemma_string_scan_update(s: Seq<char>, i: int, line: int, k: int, c: char)
    requires
        0 <= i,
        0 <= k < s.len(),
        plain_in_string(s[k]),
        plain_in_string(c),
    ensures
        string_scan(s.update(k, c), i, line) == string_scan(s, i, line),
    decreases s.len() + 1 - i,
{
    let s2 = s.update(k, c);
    if i < s.len() {
        assert(s2[i] == s[i] || i == k);
        if i + 1 < s.len() {
            assert(s2[i + 1] == s[i + 1] || i + 1 == k);
        }
        if s[i] == '\\' {
            if i + 1 < s.len() && s[i + 1] == '\n' {
                lemma_string_scan_update(s, i + 2, line + 1, k, c);
            } else {
                lemma_string_scan_update(s, i + 2, line, k, c);
            }
        } else if s[i] == '\n' {
            lemma_string_scan_update(s, i + 1, line + 1, k, c);
        } else if s[i] != '"' {
            lemma_string_scan_update(s, i + 1, line, k, c);
        }
    }
}

} // verus!
