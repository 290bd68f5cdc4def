//! Detects unbalanced brace depth in Rust source that does not compile.
//!
//! The input is treated as text rather than parsed, because this check exists
//! precisely for files that no parser will accept. Braces occurring inside
//! comments, string literals, raw string literals and char literals are
//! ignored, and an apostrophe introducing a lifetime is distinguished from one
//! introducing a char literal.
use vstd::prelude::*;
use crate::lex::{
    agree_from, lemma_scans_agree, lemma_string_scan_update, newline_count, plain_in_string,
    lemma_line_end, lemma_nested_comment_scan, lemma_quote_end, lemma_raw_string_scan,
    lemma_string_scan, line_end, nested_comment_scan, quote_end, raw_string_scan, skip_block_comment,
    skip_line_comment, skip_quote, skip_raw_string, skip_string, string_scan, quote_line,
};
use crate::text::{source_chars, string_from_chars};

verus! {

broadcast use vstd::string::group_string_axioms;

/// A structural problem discovered in the source.
#[derive(Debug, Clone, PartialEq, Eq)]
pub struct Finding {
    /// Line on which the problem originates, counting from one.
    pub line: usize,
    /// Brace depth remaining at the end of the file.
    pub depth: usize,
    /// Human readable explanation.
    pub message: String,
}

/// What a finding says, as plain values.
pub struct FindingView {
    pub line: nat,
    pub depth: nat,
    pub message: Seq<char>,
}

impl View for Finding {
    type V = FindingView;

    open spec fn view(&self) -> FindingView {
        FindingView { line: self.line as nat, depth: self.depth as nat, message: self.message@ }
    }
}

pub open spec fn findings_view(v: Seq<Finding>) -> Seq<FindingView> {
    v.map_values(|f: Finding| f@)
}

/// The character for a decimal digit.
pub open spec fn digit_char(d: nat) -> char {
    (d + 48) as char
}

/// The decimal spelling of `n`, without leading zeros.
pub open spec fn decimal(n: nat) -> Seq<char>
    decreases n,
{
    if n < 10 {
        seq![digit_char(n)]
    } else {
        decimal(n / 10).push(digit_char(n % 10))
    }
}

/// The explanation given for a closing brace with nothing to close.
pub open spec fn stray_message() -> Seq<char> {
    "closing `}` with no matching opening brace"@
}

/// The explanation given when `depth` braces are still open at the end.
pub open spec fn unclosed_message(depth: nat) -> Seq<char> {
    "brace depth ends at "@ + decimal(depth) + "; the `{` opened here was never closed"@
}

/// The braces that count, each with the line it stands on, met by scanning
/// from `i` on line `line`. Comments, strings, raw strings and char literals
/// are stepped over whole.
pub open spec fn brace_tokens(s: Seq<char>, i: int, line: int) -> Seq<(char, int)>
    decreases s.len() - i,
{
    if i < 0 || i >= s.len() {
        seq![]
    } else {
        let c = s[i];
        if c == '\n' {
            brace_tokens(s, i + 1, line + 1)
        } else if c == '/' && i + 1 < s.len() && s[i + 1] == '/' {
            proof {
                lemma_line_end(s, i + 1);
            }
            brace_tokens(s, line_end(s, i), line)
        } else if c == '/' && i + 1 < s.len() && s[i + 1] == '*' {
            proof {
                lemma_nested_comment_scan(s, i + 2, 1, line);
            }
            let (j, l) = nested_comment_scan(s, i + 2, 1, line);
            brace_tokens(s, j, l)
        } else if c == 'r' && i + 1 < s.len() && (s[i + 1] == '"' || s[i + 1] == '#')
            && raw_string_scan(s, i, line) is Some {
            proof {
                lemma_raw_string_scan(s, i, line);
            }
            let (j, l) = raw_string_scan(s, i, line).unwrap();
            brace_tokens(s, j, l)
        } else if c == '"' {
            proof {
                lemma_string_scan(s, i + 1, line);
            }
            let (j, l) = string_scan(s, i + 1, line);
            brace_tokens(s, j, l)
        } else if c == '\'' {
            proof {
                lemma_quote_end(s, i, line);
            }
            brace_tokens(s, quote_end(s, i), quote_line(s, i, line))
        } else if c == '{' || c == '}' {
            seq![(c, line)] + brace_tokens(s, i + 1, line)
        } else {
            brace_tokens(s, i + 1, line)
        }
    }
}

/// Walks the braces in order: the lines of the braces still open (outermost
/// first) and the lines of the closing braces that had nothing to close.
pub open spec fn brace_walk(toks: Seq<(char, int)>) -> (Seq<int>, Seq<int>)
    decreases toks.len(),
{
    if toks.len() == 0 {
        (seq![], seq![])
    } else {
        let (open, strays) = brace_walk(toks.drop_last());
        let (c, line) = toks.last();
        if c == '{' {
            (open.push(line), strays)
        } else if open.len() == 0 {
            (open, strays.push(line))
        } else {
            (open.drop_last(), strays)
        }
    }
}

/// The finding for a closing brace on `line` with nothing to close, in a
/// file that ends at depth `depth`.
pub open spec fn stray_finding(line: int, depth: nat) -> FindingView {
    FindingView { line: line as nat, depth, message: stray_message() }
}

/// The findings for a sequence of braces: every stray closing brace, then,
/// when braces remain open, one finding at the outermost of them. Every
/// finding carries the depth remaining at the end.
pub open spec fn brace_findings(toks: Seq<(char, int)>) -> Seq<FindingView> {
    let (open, strays) = brace_walk(toks);
    let found = strays.map_values(|l: int| stray_finding(l, open.len()));
    if open.len() > 0 {
        found.push(
            FindingView {
                line: open[0] as nat,
                depth: open.len(),
                message: unclosed_message(open.len()),
            },
        )
    } else {
        found
    }
}

/// What `analyze` reports for `s`.
pub open spec fn spec_analyze(s: Seq<char>) -> Seq<FindingView> {
    brace_findings(brace_tokens(s, 0, 1))
}

/// How far the braces in `toks` leave the depth: openings minus closings.
pub open spec fn depth_of(toks: Seq<(char, int)>) -> int
    decreases toks.len(),
{
    if toks.len() == 0 {
        0
    } else {
        depth_of(toks.drop_last()) + if toks.last().0 == '{' {
            1int
        } else {
            -1int
        }
    }
}

/// A balanced sequence: no prefix closes more than it opens, and the whole
/// closes everything it opens.
pub open spec fn balanced(toks: Seq<(char, int)>) -> bool {
    &&& forall|k: int| 0 <= k <= toks.len() ==> depth_of(#[trigger] toks.take(k)) >= 0
    &&& depth_of(toks) == 0
}

proof fn lemma_walk_tracks_depth(toks: Seq<(char, int)>)
    ensures
        brace_walk(toks).1.len() == 0 <==> forall|k: int|
            0 <= k <= toks.len() ==> depth_of(#[trigger] toks.take(k)) >= 0,
        brace_walk(toks).1.len() == 0 ==> brace_walk(toks).0.len() == depth_of(toks),
    decreases toks.len(),
{
    if toks.len() == 0 {
        assert forall|k: int| 0 <= k <= toks.len() implies depth_of(#[trigger] toks.take(k)) >= 0 by {
            assert(toks.take(k).len() == 0);
        }
    } else {
        let prev = toks.drop_last();
        lemma_walk_tracks_depth(prev);
        assert(toks.take(toks.len() as int) =~= toks);
        assert(toks.take(prev.len() as int) =~= prev);
        assert(toks.drop_last() =~= prev);
        assert forall|k: int| 0 <= k <= prev.len() implies #[trigger] toks.take(k) == prev.take(k) by {
            assert(toks.take(k) =~= prev.take(k));
        }
        let (open, found) = brace_walk(prev);
        if found.len() == 0 {
            assert(prev.take(prev.len() as int) =~= prev);
            if forall|k: int| 0 <= k <= toks.len() ==> depth_of(#[trigger] toks.take(k)) >= 0 {
                assert(toks.take(toks.len() as int) == toks);
            }
        } else {
            let k0 = choose|k: int| 0 <= k <= prev.len() && depth_of(#[trigger] prev.take(k)) < 0;
            assert(toks.take(k0) == prev.take(k0));
        }
    }
}

/// An empty report means the source is balanced, and a balanced source gets
/// an empty report.
pub proof fn law_no_findings_iff_balanced(s: Seq<char>)
    ensures
        spec_analyze(s).len() == 0 <==> balanced(brace_tokens(s, 0, 1)),
{
    lemma_walk_tracks_depth(brace_tokens(s, 0, 1));
}

/// The character for the decimal digit `d`.
fn digit(d: usize) -> (c: char)
    requires
        d < 10,
    ensures
        c == digit_char(d as nat),
{
    if d == 0 {
        '0'
    } else if d == 1 {
        '1'
    } else if d == 2 {
        '2'
    } else if d == 3 {
        '3'
    } else if d == 4 {
        '4'
    } else if d == 5 {
        '5'
    } else if d == 6 {
        '6'
    } else if d == 7 {
        '7'
    } else if d == 8 {
        '8'
    } else {
        '9'
    }
}

/// The decimal digits of `n`, most significant first.
fn decimal_chars(n: usize) -> (digits: Vec<char>)
    ensures
        digits@ == decimal(n as nat),
    decreases n,
{
    if n < 10 {
        let mut digits: Vec<char> = Vec::new();
        digits.push(digit(n));
        assert(digits@ =~= seq![digit_char(n as nat)]);
        digits
    } else {
        let mut digits = decimal_chars(n / 10);
        digits.push(digit(n % 10));
        digits
    }
}

/// Scans `source` and reports any brace imbalance.
///
/// An empty vector means the source is balanced.
pub fn analyze(source: &str) -> (findings: Vec<Finding>)
    requires
        source@.len() < usize::MAX,
    ensures
        findings_view(findings@) == spec_analyze(source@),
{
    let chars: Vec<char> = source_chars(source);
    let len = chars.len();

    let mut stray_lines: Vec<usize> = Vec::new();
    let mut open_lines: Vec<usize> = Vec::new();
    let mut line = 1usize;
    let mut i = 0usize;
    let ghost s = chars@;
    let ghost mut seen: Seq<(char, int)> = seq![];

    while i < len
        invariant
            len == chars.len(),
            s == chars@,
            s == source@,
            len < usize::MAX,
            i <= len,
            1 <= line <= i + 1,
            brace_tokens(s, 0, 1) == seen + brace_tokens(s, i as int, line as int),
            brace_walk(seen).0.len() == open_lines.len(),
            forall|k: int|
                0 <= k < open_lines.len() ==> #[trigger] brace_walk(seen).0[k]
                    == open_lines@[k] as int,
            brace_walk(seen).1 == stray_lines@.map_values(|l: usize| l as int),
        decreases len - i,
    {
        let c = chars[i];

        if c == '\n' {
            line += 1;
            i += 1;
            continue;
        }

        if c == '/' && i + 1 < len && chars[i + 1] == '/' {
            i = skip_line_comment(&chars, i);
            continue;
        }

        if c == '/' && i + 1 < len && chars[i + 1] == '*' {
            proof {
                lemma_nested_comment_scan(chars@, i + 2, 1, line as int);
            }
            i = skip_block_comment(&chars, i, &mut line);
            continue;
        }

        if c == 'r' && i + 1 < len && (chars[i + 1] == '"' || chars[i + 1] == '#') {
            let ghost line0 = line as int;
            proof {
                lemma_raw_string_scan(chars@, i as int, line as int);
            }
            if let Some(next) = skip_raw_string(&chars, i, &mut line) {
                assert(raw_string_scan(s, i as int, line0) == Some((next as int, line as int)));
                assert(brace_tokens(s, i as int, line0) == brace_tokens(s, next as int, line as int));
                i = next;
                continue;
            }
        }

        if c == '"' {
            proof {
                lemma_string_scan(chars@, i + 1, line as int);
            }
            i = skip_string(&chars, i, &mut line);
            continue;
        }

        if c == '\'' {
            proof {
                lemma_quote_end(chars@, i as int, line as int);
            }
            i = skip_quote(&chars, i, &mut line);
            continue;
        }

        if c == '{' {
            proof {
                let ghost prev = seen;
                seen = seen.push((c, line as int));
                assert(seen.drop_last() =~= prev);
                assert(brace_tokens(s, 0, 1) =~= seen + brace_tokens(s, i + 1, line as int));
            }
            open_lines.push(line);
            i += 1;
            continue;
        }

        if c == '}' {
            let ghost prev = seen;
            proof {
                seen = seen.push((c, line as int));
                assert(seen.drop_last() =~= prev);
                assert(brace_tokens(s, 0, 1) =~= seen + brace_tokens(s, i + 1, line as int));
            }
            if open_lines.pop().is_none() {
                let ghost before = stray_lines@;
                stray_lines.push(line);
                assert(stray_lines@.map_values(|l: usize| l as int) =~= before.map_values(
                    |l: usize| l as int,
                ).push(line as int));
            }
            i += 1;
            continue;
        }

        i += 1;
    }

    proof {
        assert(seen + brace_tokens(s, i as int, line as int) =~= seen);
    }

    let depth = open_lines.len();
    let ghost strays = brace_walk(seen).1;
    let mut findings: Vec<Finding> = Vec::new();
    let mut k: usize = 0;
    proof {
        assert(findings_view(findings@) =~= strays.take(0).map_values(
            |l: int| stray_finding(l, depth as nat),
        ));
    }
    while k < stray_lines.len()
        invariant
            k <= stray_lines.len(),
            depth == brace_walk(seen).0.len(),
            strays == brace_walk(seen).1,
            strays == stray_lines@.map_values(|l: usize| l as int),
            findings_view(findings@) == strays.take(k as int).map_values(
                |l: int| stray_finding(l, depth as nat),
            ),
        decreases stray_lines.len() - k,
    {
        let ghost before = findings@;
        findings.push(
            Finding {
                line: stray_lines[k],
                depth,
                message: "closing `}` with no matching opening brace".to_string(),
            },
        );
        assert(strays[k as int] == stray_lines@[k as int] as int);
        assert(findings_view(findings@) =~= findings_view(before).push(
            stray_finding(strays[k as int], depth as nat),
        ));
        assert(strays.take(k + 1) =~= strays.take(k as int).push(strays[k as int]));
        assert(strays.take(k + 1).map_values(|l: int| stray_finding(l, depth as nat))
            =~= strays.take(k as int).map_values(|l: int| stray_finding(l, depth as nat)).push(
            stray_finding(strays[k as int], depth as nat),
        ));
        assert(findings_view(findings@) =~= strays.take(k + 1).map_values(
            |l: int| stray_finding(l, depth as nat),
        ));
        k += 1;
    }
    assert(strays.take(stray_lines.len() as int) =~= strays);

    if open_lines.len() > 0 {
        let first = open_lines[0];
        let digits = decimal_chars(depth);
        let mut message = String::from_str("brace depth ends at ");
        message.append(string_from_chars(&digits).as_str());
        message.append("; the `{` opened here was never closed");
        let ghost before = findings@;
        findings.push(Finding { line: first, depth, message });
        assert(findings_view(findings@) =~= findings_view(before).push(
            FindingView {
                line: brace_walk(seen).0[0] as nat,
                depth: brace_walk(seen).0.len(),
                message: unclosed_message(brace_walk(seen).0.len()),
            },
        ));
    }

    findings
}

/// The braces met from `i` on depend only on the text from `i` on.
proof fn lemma_brace_tokens_agree(s1: Seq<char>, s2: Seq<char>, p: int, i: int, line: int)
    requires
        agree_from(s1, s2, p),
        p <= i,
    ensures
        brace_tokens(s1, i, line) == brace_tokens(s2, i, line),
    decreases s1.len() - i,
{
    if i < s1.len() {
        let c = s1[i];
        assert(s2[i] == c);
        if i + 1 < s1.len() {
            assert(s1[i + 1] == s2[i + 1]);
        }
        lemma_scans_agree(s1, s2, p, i, line);
        if c == '\n' {
            lemma_brace_tokens_agree(s1, s2, p, i + 1, line + 1);
        } else if c == '/' && i + 1 < s1.len() && s1[i + 1] == '/' {
            lemma_line_end(s1, i + 1);
            lemma_brace_tokens_agree(s1, s2, p, line_end(s1, i), line);
        } else if c == '/' && i + 1 < s1.len() && s1[i + 1] == '*' {
            lemma_nested_comment_scan(s1, i + 2, 1, line);
            let (j, l) = nested_comment_scan(s1, i + 2, 1, line);
            lemma_brace_tokens_agree(s1, s2, p, j, l);
        } else if c == 'r' && i + 1 < s1.len() && (s1[i + 1] == '"' || s1[i + 1] == '#')
            && raw_string_scan(s1, i, line) is Some {
            lemma_raw_string_scan(s1, i, line);
            let (j, l) = raw_string_scan(s1, i, line).unwrap();
            lemma_brace_tokens_agree(s1, s2, p, j, l);
        } else if c == '"' {
            lemma_string_scan(s1, i + 1, line);
            let (j, l) = string_scan(s1, i + 1, line);
            lemma_brace_tokens_agree(s1, s2, p, j, l);
        } else if c == '\'' {
            lemma_quote_end(s1, i, line);
            lemma_brace_tokens_agree(s1, s2, p, quote_end(s1, i), quote_line(s1, i, line));
        } else {
            lemma_brace_tokens_agree(s1, s2, p, i + 1, line);
        }
    }
}

/// Braces inside a string literal do not count: replacing any plain character
/// of the string that starts at `i` (a `{`, a `}`, or another) by another plain
/// character changes nothing the scan finds from `i` on. A backslash escapes
/// the character after it, so `\"` does not end the string.
pub proof fn law_string_contents_do_not_count(s: Seq<char>, i: int, line: int, k: int, c: char)
    requires
        0 <= i < s.len(),
        s[i] == '"',
        i < k < string_scan(s, i + 1, line).0,
        plain_in_string(s[k]),
        plain_in_string(c),
    ensures
        brace_tokens(s.update(k, c), i, line) == brace_tokens(s, i, line),
{
    let s2 = s.update(k, c);
    lemma_string_scan(s, i + 1, line);
    lemma_string_scan_update(s, i + 1, line, k, c);
    assert(s2[i] == s[i]);
    let (j, l) = string_scan(s, i + 1, line);
    assert(agree_from(s, s2, k + 1));
    lemma_brace_tokens_agree(s, s2, k + 1, j, l);
}

/// Braces inside a char literal do not count: the literal `'x'` at `i` is
/// stepped over whole, so the scan from `i` finds the same braces whatever
/// single character, other than a backslash or a line break, it holds.
pub proof fn law_char_literal_contents_do_not_count(s: Seq<char>, i: int, line: int, c: char)
    requires
        0 <= i,
        i + 2 < s.len(),
        s[i] == '\'',
        s[i + 2] == '\'',
        s[i + 1] != '\\' && s[i + 1] != '\n',
        c != '\\' && c != '\n',
    ensures
        brace_tokens(s.update(i + 1, c), i, line) == brace_tokens(s, i, line),
{
    let s2 = s.update(i + 1, c);
    assert(s2[i] == '\'' && s2[i + 1] == c && s2[i + 2] == '\'');
    assert(quote_end(s, i) == i + 3);
    assert(quote_end(s2, i) == i + 3);
    assert(newline_count(s, i + 1, i + 3) == 0) by {
        reveal_with_fuel(newline_count, 3);
    }
    assert(newline_count(s2, i + 1, i + 3) == 0) by {
        reveal_with_fuel(newline_count, 3);
    }
    assert(agree_from(s, s2, i + 2));
    lemma_brace_tokens_agree(s, s2, i + 2, i + 3, line);
}

} // verus!
