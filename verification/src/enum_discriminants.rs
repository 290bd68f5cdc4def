//! Detects enum variants that resolve to the same discriminant value.
//!
//! `rustc` reports this as E0081, but only once the crate parses. A file
//! holding an unbalanced brace never reaches that stage, so every collision in
//! it stays hidden behind the parse error. This check reads the text directly
//! and reports collisions whether or not the crate compiles.
use vstd::prelude::*;
use crate::lex::{
    lemma_string_scan_update, newline_count, plain_in_string, lemma_line_end, lemma_nested_comment_scan, lemma_quote_end, lemma_raw_string_scan,
    lemma_string_scan, line_end, nested_comment_scan, quote_end, quote_line, raw_string_scan,
    skip_block_comment, skip_line_comment, skip_quote, skip_raw_string, skip_string, string_scan,
};
use crate::text::{
    char_is_whitespace, is_ident_start, is_whitespace, lemma_ident_end, read_ident, source_chars,
    spec_is_ident_start, string_from_chars, word_end, word_is,
};

verus! {

// ---------------------------------------------------------------------------
// Integer literals
// ---------------------------------------------------------------------------

/// `t` less its leading whitespace.
pub open spec fn trim_start(t: Seq<char>) -> Seq<char>
    decreases t.len(),
{
    if t.len() > 0 && char_is_whitespace(t[0]) {
        trim_start(t.drop_first())
    } else {
        t
    }
}

/// `t` less its trailing whitespace.
pub open spec fn trim_end(t: Seq<char>) -> Seq<char>
    decreases t.len(),
{
    if t.len() > 0 && char_is_whitespace(t.last()) {
        trim_end(t.drop_last())
    } else {
        t
    }
}

/// `t` less its leading and trailing whitespace, as `str::trim` leaves it.
pub open spec fn trim(t: Seq<char>) -> Seq<char> {
    trim_end(trim_start(t))
}

/// The characters of `v` from `a` up to `b`.
fn copy_range(v: &Vec<char>, a: usize, b: usize) -> (r: Vec<char>)
    requires
        a <= b <= v.len(),
    ensures
        r@ == v@.subrange(a as int, b as int),
{
    let mut r: Vec<char> = Vec::new();
    let mut k = a;
    while k < b
        invariant
            a <= k <= b,
            b <= v.len(),
            r@ == v@.subrange(a as int, k as int),
        decreases b - k,
    {
        r.push(v[k]);
        k += 1;
        assert(r@ =~= v@.subrange(a as int, k as int));
    }
    r
}

/// Strips leading and trailing whitespace.
fn trim_chars(text: &Vec<char>) -> (r: Vec<char>)
    ensures
        r@ == trim(text@),
{
    let len = text.len();
    let mut a: usize = 0;
    assert(text@.subrange(0, len as int) =~= text@);
    while a < len && is_whitespace(text[a])
        invariant
            a <= len,
            len == text.len(),
            trim_start(text@) == trim_start(text@.subrange(a as int, len as int)),
        decreases len - a,
    {
        assert(text@.subrange(a as int, len as int).drop_first() =~= text@.subrange(
            a + 1,
            len as int,
        ));
        a += 1;
    }
    let ghost u = text@.subrange(a as int, len as int);
    assert(trim_start(text@) == u);
    let mut b: usize = len;
    assert(u.subrange(0, (b - a) as int) =~= u);
    while b > a && is_whitespace(text[b - 1])
        invariant
            a <= b <= len,
            len == text.len(),
            u == text@.subrange(a as int, len as int),
            trim_end(u) == trim_end(u.subrange(0, (b - a) as int)),
        decreases b,
    {
        assert(u.subrange(0, (b - a) as int).drop_last() =~= u.subrange(0, (b - 1 - a) as int));
        b -= 1;
    }
    let r = copy_range(text, a, b);
    assert(r@ =~= u.subrange(0, (b - a) as int));
    r
}

/// The value of `c` as a digit in base `radix`, as `char::to_digit` reads it:
/// `0`-`9`, then `a`-`z` or `A`-`Z` for ten upwards.
pub open spec fn digit_of(c: char, radix: nat) -> Option<nat> {
    let v = c as int;
    let d: int = if 48 <= v <= 57 {
        v - 48
    } else if 97 <= v <= 122 {
        v - 87
    } else if 65 <= v <= 90 {
        v - 55
    } else {
        36
    };
    if 0 <= d < radix {
        Some(d as nat)
    } else {
        None
    }
}

/// The digits of base 36 in order of value, lower case.
pub open spec fn lower_digits() -> Seq<char> {
    seq![
        '0', '1', '2', '3', '4', '5', '6', '7', '8', '9', 'a', 'b', 'c', 'd', 'e', 'f', 'g', 'h',
        'i', 'j', 'k', 'l', 'm', 'n', 'o', 'p', 'q', 'r', 's', 't', 'u', 'v', 'w', 'x', 'y', 'z',
    ]
}

/// The digits of base 36 in order of value, upper case.
pub open spec fn upper_digits() -> Seq<char> {
    seq![
        '0', '1', '2', '3', '4', '5', '6', '7', '8', '9', 'A', 'B', 'C', 'D', 'E', 'F', 'G', 'H',
        'I', 'J', 'K', 'L', 'M', 'N', 'O', 'P', 'Q', 'R', 'S', 'T', 'U', 'V', 'W', 'X', 'Y', 'Z',
    ]
}

/// A character is a digit of value `d` in base `radix` exactly when `d` is
/// below the base and the character is the `d`-th digit, in either case:
/// `F` and `f` are both fifteen in base sixteen.
pub proof fn law_digit_values(c: char, radix: nat, d: nat)
    requires
        2 <= radix <= 36,
    ensures
        digit_of(c, radix) == Some(d) <==> d < radix && (c == lower_digits()[d as int] || c
            == upper_digits()[d as int]),
{
    let lo = lower_digits();
    let up = upper_digits();
    assert(lo.len() == 36 && up.len() == 36);
    assert forall|k: int| 0 <= k < 36 implies (lo[k] as int == if k < 10 {
        48 + k
    } else {
        87 + k
    }) && (up[k] as int == if k < 10 {
        48 + k
    } else {
        55 + k
    }) by {
        assert(lo[k] == lower_digits()[k]);
    }
    if d < 36 {
        assert(lo[d as int] as int == if d < 10 { 48 + d } else { 87 + d });
        assert(up[d as int] as int == if d < 10 { 48 + d } else { 55 + d });
    }
}

/// Whether `c` is a digit in base `radix`.
fn is_digit(c: char, radix: u32) -> (r: Option<u32>)
    requires
        2 <= radix <= 36,
    ensures
        match digit_of(c, radix as nat) {
            Some(d) => r == Some(d as u32),
            None => r is None,
        },
{
    let v = c as u32;
    let d: u32 = if 48 <= v && v <= 57 {
        v - 48
    } else if 97 <= v && v <= 122 {
        v - 87
    } else if 65 <= v && v <= 90 {
        v - 55
    } else {
        36
    };
    if d < radix {
        Some(d)
    } else {
        None
    }
}

/// The base a literal is written in, and the text after its prefix.
pub open spec fn spec_radix_of(body: Seq<char>) -> (nat, Seq<char>) {
    if body.len() >= 2 && body[0] == '0' && body[1] == 'x' {
        (16, body.skip(2))
    } else if body.len() >= 2 && body[0] == '0' && body[1] == 'b' {
        (2, body.skip(2))
    } else if body.len() >= 2 && body[0] == '0' && body[1] == 'o' {
        (8, body.skip(2))
    } else {
        (10, body)
    }
}

fn radix_of(body: &Vec<char>) -> (r: (u32, Vec<char>))
    ensures
        r.0 as nat == spec_radix_of(body@).0,
        r.1@ == spec_radix_of(body@).1,
{
    let len = body.len();
    if len >= 2 && body[0] == '0' && body[1] == 'x' {
        return (16, copy_range(body, 2, len));
    }

    if len >= 2 && body[0] == '0' && body[1] == 'b' {
        return (2, copy_range(body, 2, len));
    }

    if len >= 2 && body[0] == '0' && body[1] == 'o' {
        return (8, copy_range(body, 2, len));
    }

    (10, copy_range(body, 0, len))
}

/// The integer type suffixes a literal may carry: `i8` to `i128`, `isize`,
/// and their unsigned twins.
pub open spec fn spec_is_int_suffix(text: Seq<char>) -> bool {
    &&& text.len() >= 1
    &&& (text[0] == 'i' || text[0] == 'u')
    &&& {
        let w = text.drop_first();
        ||| w == seq!['8']
        ||| w == seq!['1', '6']
        ||| w == seq!['3', '2']
        ||| w == seq!['6', '4']
        ||| w == seq!['1', '2', '8']
        ||| w == seq!['s', 'i', 'z', 'e']
    }
}

fn is_int_suffix(text: &Vec<char>) -> (r: bool)
    ensures
        r == spec_is_int_suffix(text@),
{
    if text.len() < 1 || (text[0] != 'i' && text[0] != 'u') {
        return false;
    }
    let width = copy_range(text, 1, text.len());
    assert(width@ =~= text@.drop_first());
    let n = width.len();
    let r = (n == 1 && width[0] == '8') || (n == 2 && width[0] == '1' && width[1] == '6') || (n == 2
        && width[0] == '3' && width[1] == '2') || (n == 2 && width[0] == '6' && width[1] == '4') || (
    n == 3 && width[0] == '1' && width[1] == '2' && width[2] == '8') || (n == 4 && width[0] == 's'
        && width[1] == 'i' && width[2] == 'z' && width[3] == 'e');
    proof {
        let w = width@;
        if n == 1 && w[0] == '8' {
            assert(w =~= seq!['8']);
        }
        if n == 2 && w[0] == '1' && w[1] == '6' {
            assert(w =~= seq!['1', '6']);
        }
        if n == 2 && w[0] == '3' && w[1] == '2' {
            assert(w =~= seq!['3', '2']);
        }
        if n == 2 && w[0] == '6' && w[1] == '4' {
            assert(w =~= seq!['6', '4']);
        }
        if n == 3 && w[0] == '1' && w[1] == '2' && w[2] == '8' {
            assert(w =~= seq!['1', '2', '8']);
        }
        if n == 4 && w[0] == 's' && w[1] == 'i' && w[2] == 'z' && w[3] == 'e' {
            assert(w =~= seq!['s', 'i', 'z', 'e']);
        }
    }
    r
}

/// The first index at or after `i` whose character is neither `_` nor a digit
/// in base `radix`.
pub open spec fn digit_run_end(t: Seq<char>, i: int, radix: nat) -> int
    decreases t.len() - i,
{
    if i < 0 || i >= t.len() || (t[i] != '_' && digit_of(t[i], radix) is None) {
        i
    } else {
        digit_run_end(t, i + 1, radix)
    }
}

/// The digits of `t`, its `_` separators left out.
pub open spec fn without_separators(t: Seq<char>) -> Seq<char>
    decreases t.len(),
{
    if t.len() == 0 {
        t
    } else if t.last() == '_' {
        without_separators(t.drop_last())
    } else {
        without_separators(t.drop_last()).push(t.last())
    }
}

/// The number the digits `ds` spell in base `radix`.
pub open spec fn digits_value(ds: Seq<char>, radix: nat) -> int
    decreases ds.len(),
{
    if ds.len() == 0 {
        0
    } else {
        digits_value(ds.drop_last(), radix) * radix + match digit_of(ds.last(), radix) {
            Some(d) => d as int,
            None => 0,
        }
    }
}

/// The value of a discriminant written as an integer literal: an optional
/// minus sign, an optional base prefix, digits with optional `_` separators,
/// and an optional integer type suffix. `None` for anything else, and for a
/// magnitude beyond `i64::MAX`.
pub open spec fn spec_parse_discriminant(text: Seq<char>) -> Option<int> {
    let body0 = trim(text);
    let negative = body0.len() > 0 && body0[0] == '-';
    let body = if negative {
        trim(body0.drop_first())
    } else {
        body0
    };
    let radix = spec_radix_of(body).0;
    let rest = spec_radix_of(body).1;
    let end = digit_run_end(rest, 0, radix);
    let digits = without_separators(rest.take(end));
    let tail = rest.skip(end);
    if digits.len() == 0 {
        None
    } else if tail.len() > 0 && !spec_is_int_suffix(tail) {
        None
    } else if digits_value(digits, radix) > i64::MAX {
        None
    } else if negative {
        Some(-digits_value(digits, radix))
    } else {
        Some(digits_value(digits, radix))
    }
}

proof fn lemma_digit_run_end(t: Seq<char>, i: int, radix: nat)
    requires
        0 <= i <= t.len(),
    ensures
        i <= digit_run_end(t, i, radix) <= t.len(),
        digit_run_end(t, i, radix) < t.len() ==> t[digit_run_end(t, i, radix)] != '_' && digit_of(
            t[digit_run_end(t, i, radix)],
            radix,
        ) is None,
        forall|k: int|
            i <= k < digit_run_end(t, i, radix) ==> #[trigger] t[k] == '_' || digit_of(
                t[k],
                radix,
            ) is Some,
    decreases t.len() - i,
{
    if i < t.len() && !(t[i] != '_' && digit_of(t[i], radix) is None) {
        lemma_digit_run_end(t, i + 1, radix);
    }
}

proof fn lemma_digits_value_grows(ds: Seq<char>, c: char, radix: nat)
    requires
        radix >= 1,
        digits_value(ds, radix) >= 0,
    ensures
        digits_value(ds.push(c), radix) >= digits_value(ds, radix),
        digits_value(ds.push(c), radix) >= 0,
{
    assert(ds.push(c).drop_last() =~= ds);
    let v = digits_value(ds, radix);
    assert(v * radix >= v) by (nonlinear_arith)
        requires
            v >= 0,
            radix >= 1,
    ;
}

proof fn lemma_digits_value_nonneg(ds: Seq<char>, radix: nat)
    ensures
        digits_value(ds, radix) >= 0,
    decreases ds.len(),
{
    if ds.len() > 0 {
        lemma_digits_value_nonneg(ds.drop_last(), radix);
        let v = digits_value(ds.drop_last(), radix);
        assert(v * radix >= 0) by (nonlinear_arith)
            requires
                v >= 0,
        ;
    }
}

/// `digits_value` never shrinks as digits are appended.
proof fn lemma_digits_value_prefix(ds: Seq<char>, k: int, radix: nat)
    requires
        0 <= k <= ds.len(),
        radix >= 1,
    ensures
        digits_value(ds.take(k), radix) <= digits_value(ds, radix),
    decreases ds.len() - k,
{
    if k < ds.len() {
        lemma_digits_value_prefix(ds, k + 1, radix);
        lemma_digits_value_nonneg(ds.take(k), radix);
        assert(ds.take(k + 1) =~= ds.take(k).push(ds[k]));
        lemma_digits_value_grows(ds.take(k), ds[k], radix);
    } else {
        assert(ds.take(k) =~= ds);
    }
}

/// Reads the digits of `digits` in base `radix`, or `None` past `i64::MAX`.
fn value_of_digits(digits: &Vec<char>, radix: u32) -> (r: Option<i64>)
    requires
        2 <= radix <= 36,
        forall|k: int| 0 <= k < digits.len() ==> digit_of(#[trigger] digits@[k], radix as nat) is Some,
    ensures
        digits_value(digits@, radix as nat) <= i64::MAX ==> r == Some(
            digits_value(digits@, radix as nat) as i64,
        ),
        digits_value(digits@, radix as nat) > i64::MAX ==> r is None,
        r matches Some(v) ==> v >= 0,
{
    let mut acc: i64 = 0;
    let mut k: usize = 0;
    proof {
        assert(digits@.take(0) =~= seq![]);
    }
    while k < digits.len()
        invariant
            k <= digits.len(),
            2 <= radix <= 36,
            forall|j: int| 0 <= j < digits.len() ==> digit_of(#[trigger] digits@[j], radix as nat) is Some,
            acc as int == digits_value(digits@.take(k as int), radix as nat),
            acc >= 0,
        decreases digits.len() - k,
    {
        let d = match is_digit(digits[k], radix) {
            Some(d) => d,
            None => 0,
        };
        assert(digits@.take(k + 1) =~= digits@.take(k as int).push(digits@[k as int]));
        assert(digits@.take(k + 1).drop_last() =~= digits@.take(k as int));
        let next = match acc.checked_mul(radix as i64) {
            Some(m) => m.checked_add(d as i64),
            None => None,
        };
        match next {
            Some(v) => {
                acc = v;
            },
            None => {
                proof {
                    lemma_digits_value_prefix(digits@, k + 1, radix as nat);
                    assert(acc as int * radix as int >= 0) by (nonlinear_arith)
                        requires
                            acc >= 0,
                            radix >= 2,
                    ;
                }
                return None;
            },
        }
        k += 1;
    }
    assert(digits@.take(k as int) =~= digits@);
    Some(acc)
}

/// Reads an integer literal, or `None` when the discriminant is an expression.
fn parse_discriminant(text: &Vec<char>) -> (r: Option<i64>)
    ensures
        opt_int(r) == spec_parse_discriminant(text@),
{
    let mut body = trim_chars(text);
    let negative = body.len() > 0 && body[0] == '-';

    if negative {
        let after_sign = copy_range(&body, 1, body.len());
        assert(after_sign@ =~= trim(text@).drop_first());
        body = trim_chars(&after_sign);
    }

    let (radix, rest) = radix_of(&body);
    let mut digits: Vec<char> = Vec::new();
    let mut k: usize = 0;
    let ghost r = rest@;
    let ghost rd = radix as nat;

    proof {
        lemma_digit_run_end(r, 0, rd);
        assert(r.take(0) =~= seq![]);
    }
    while k < rest.len() && (rest[k] == '_' || is_digit(rest[k], radix).is_some())
        invariant
            k <= rest.len(),
            r == rest@,
            2 <= radix <= 36,
            rd == radix as nat,
            digit_run_end(r, k as int, rd) == digit_run_end(r, 0, rd),
            digits@ == without_separators(r.take(k as int)),
            forall|j: int| 0 <= j < digits.len() ==> digit_of(#[trigger] digits@[j], rd) is Some,
        decreases rest.len() - k,
    {
        let character = rest[k];
        assert(r.take(k + 1) =~= r.take(k as int).push(character));
        assert(r.take(k + 1).drop_last() =~= r.take(k as int));

        if character != '_' {
            digits.push(character);
        }
        k += 1;
    }
    let end = k;
    assert(end == digit_run_end(r, 0, rd));
    proof {
        let body0 = trim(text@);
        let neg = body0.len() > 0 && body0[0] == '-';
        assert(neg == negative);
        let b = if neg { trim(body0.drop_first()) } else { body0 };
        assert(b == body@);
        assert(spec_radix_of(b).1 == r);
        assert(spec_radix_of(b).0 == rd);
    }
    let tail = copy_range(&rest, end, rest.len());
    assert(tail@ =~= r.skip(end as int));

    if digits.len() == 0 {
        return None;
    }

    if tail.len() > 0 && !is_int_suffix(&tail) {
        return None;
    }

    let parsed = match value_of_digits(&digits, radix) {
        Some(v) => v,
        None => {
            return None;
        },
    };

    proof {
        let dv = digits_value(digits@, rd);
        lemma_digits_value_nonneg(digits@, rd);
        if dv > i64::MAX {
            assert(false);
        }
        assert(parsed as int == dv);
        assert(digits@ == without_separators(r.take(end as int)));
        assert(spec_parse_discriminant(text@) == if negative {
            Some(-dv)
        } else {
            Some(dv)
        });
    }
    Some(
        if negative {
            -parsed
        } else {
            parsed
        },
    )
}

// ---------------------------------------------------------------------------
// Comments, literals and attributes
// ---------------------------------------------------------------------------

/// A comment, string or character literal starting at `i`, if one does:
/// where it ends and the line it ends on. Block comments nest.
pub open spec fn trivia_scan(s: Seq<char>, i: int, line: int) -> Option<(int, int)> {
    if i < 0 || i >= s.len() {
        None
    } else if s[i] == '/' && i + 1 < s.len() && s[i + 1] == '/' {
        Some((line_end(s, i + 2), line))
    } else if s[i] == '/' && i + 1 < s.len() && s[i + 1] == '*' {
        Some(nested_comment_scan(s, i + 2, 1, line))
    } else if s[i] == '"' {
        Some(string_scan(s, i + 1, line))
    } else if s[i] == '\'' {
        Some((quote_end(s, i), quote_line(s, i, line)))
    } else if s[i] == 'r' {
        raw_string_scan(s, i, line)
    } else {
        None
    }
}

/// A char literal `'x'` is trivia stepped over whole, on its own line, whatever
/// single character other than a backslash or a line break it holds.
pub proof fn law_char_literal_is_trivia(s: Seq<char>, i: int, line: int, c: char)
    requires
        0 <= i,
        i + 2 < s.len(),
        s[i] == '\'',
        s[i + 2] == '\'',
        s[i + 1] != '\\' && s[i + 1] != '\n',
        c != '\\' && c != '\n',
    ensures
        trivia_scan(s, i, line) == Some((i + 3, line)),
        trivia_scan(s.update(i + 1, c), i, line) == trivia_scan(s, i, line),
{
    let s2 = s.update(i + 1, c);
    assert(s2[i] == '\'' && s2[i + 1] == c && s2[i + 2] == '\'');
    assert(newline_count(s, i + 1, i + 3) == 0) by {
        reveal_with_fuel(newline_count, 3);
    }
    assert(newline_count(s2, i + 1, i + 3) == 0) by {
        reveal_with_fuel(newline_count, 3);
    }
}

/// A string literal is trivia stepped over whole: replacing any plain
/// character inside the string that starts at `i` by another plain character
/// leaves where the trivia ends, and on which line, unchanged.
pub proof fn law_string_is_trivia(s: Seq<char>, i: int, line: int, k: int, c: char)
    requires
        0 <= i < s.len(),
        s[i] == '"',
        i < k < s.len(),
        plain_in_string(s[k]),
        plain_in_string(c),
    ensures
        trivia_scan(s.update(k, c), i, line) == trivia_scan(s, i, line),
{
    let s2 = s.update(k, c);
    assert(s2[i] == s[i]);
    lemma_string_scan_update(s, i + 1, line, k, c);
}

pub proof fn lemma_trivia_scan(s: Seq<char>, i: int, line: int)
    requires
        0 <= i < s.len(),
    ensures
        trivia_scan(s, i, line) matches Some((j, l)) ==> {
            &&& i < j <= s.len()
            &&& line <= l
            &&& l - line <= j - i
        },
{
    if s[i] == '/' && i + 1 < s.len() && s[i + 1] == '/' {
        lemma_line_end(s, i + 2);
    } else if s[i] == '/' && i + 1 < s.len() && s[i + 1] == '*' {
        lemma_nested_comment_scan(s, i + 2, 1, line);
    } else if s[i] == '"' {
        lemma_string_scan(s, i + 1, line);
    } else if s[i] == '\'' {
        lemma_quote_end(s, i, line);
    } else if s[i] == 'r' {
        lemma_raw_string_scan(s, i, line);
    }
}

/// Skips a comment, string or character literal, if one starts here.
fn skip_trivia(chars: &Vec<char>, index: usize, line: &mut usize) -> (next: Option<usize>)
    requires
        index < chars.len(),
        chars.len() < usize::MAX,
        trivia_scan(chars@, index as int, *old(line) as int) matches Some((j, l)) ==> l <= usize::MAX,
    ensures
        next matches Some(j) ==> trivia_scan(chars@, index as int, *old(line) as int) == Some(
            (j as int, *final(line) as int),
        ),
        next is None ==> trivia_scan(chars@, index as int, *old(line) as int) is None && *final(line)
            == *old(line),
{
    let len = chars.len();
    proof {
        lemma_trivia_scan(chars@, index as int, *line as int);
    }
    if chars[index] == '/' && index + 1 < len && chars[index + 1] == '/' {
        return Some(skip_line_comment(chars, index + 2));
    }
    if chars[index] == '/' && index + 1 < len && chars[index + 1] == '*' {
        return Some(skip_block_comment(chars, index, line));
    }
    if chars[index] == '"' {
        return Some(skip_string(chars, index, line));
    }
    if chars[index] == '\'' {
        return Some(skip_quote(chars, index, line));
    }
    if chars[index] == 'r' {
        return skip_raw_string(chars, index, line);
    }
    None
}

/// Brackets scanned from `i` with `depth` of them open: where the one that
/// opened first closes, and the line it closes on.
pub open spec fn bracket_scan(s: Seq<char>, i: int, depth: nat, line: int) -> (int, int)
    decreases s.len() - i,
{
    if i < 0 || i >= s.len() {
        (i, line)
    } else if s[i] == '\n' {
        bracket_scan(s, i + 1, depth, line + 1)
    } else if s[i] == '[' {
        bracket_scan(s, i + 1, depth + 1, line)
    } else if s[i] == ']' {
        if depth <= 1 {
            (i + 1, line)
        } else {
            bracket_scan(s, i + 1, (depth - 1) as nat, line)
        }
    } else {
        bracket_scan(s, i + 1, depth, line)
    }
}

/// An attribute `#[..]` or `#![..]` starting at `start`: where it ends and
/// the line it ends on. A `#` that opens no attribute is one character long.
pub open spec fn attribute_scan(s: Seq<char>, start: int, line: int) -> (int, int) {
    let o = if start + 1 < s.len() && s[start + 1] == '!' {
        start + 2
    } else {
        start + 1
    };
    if o < s.len() && s[o] == '[' {
        bracket_scan(s, o, 0, line)
    } else {
        (start + 1, line)
    }
}

proof fn lemma_bracket_scan(s: Seq<char>, i: int, depth: nat, line: int)
    requires
        0 <= i <= s.len(),
    ensures
        i <= bracket_scan(s, i, depth, line).0 <= s.len(),
        line <= bracket_scan(s, i, depth, line).1,
        bracket_scan(s, i, depth, line).1 - line <= bracket_scan(s, i, depth, line).0 - i,
    decreases s.len() - i,
{
    if i < s.len() {
        if s[i] == '\n' {
            lemma_bracket_scan(s, i + 1, depth, line + 1);
        } else if s[i] == '[' {
            lemma_bracket_scan(s, i + 1, depth + 1, line);
        } else if s[i] == ']' {
            if depth > 1 {
                lemma_bracket_scan(s, i + 1, (depth - 1) as nat, line);
            }
        } else {
            lemma_bracket_scan(s, i + 1, depth, line);
        }
    }
}

pub proof fn lemma_attribute_scan(s: Seq<char>, start: int, line: int)
    requires
        0 <= start < s.len(),
    ensures
        start < attribute_scan(s, start, line).0 <= s.len(),
        line <= attribute_scan(s, start, line).1,
        attribute_scan(s, start, line).1 - line <= attribute_scan(s, start, line).0 - start,
{
    let o = if start + 1 < s.len() && s[start + 1] == '!' {
        start + 2
    } else {
        start + 1
    };
    if o < s.len() && s[o] == '[' {
        lemma_bracket_scan(s, o, 0, line);
        assert(bracket_scan(s, o, 0, line) == bracket_scan(s, o + 1, 1, line));
        lemma_bracket_scan(s, o + 1, 1, line);
    }
}

fn skip_attribute(chars: &Vec<char>, start: usize, line: &mut usize) -> (end: usize)
    requires
        start < chars.len(),
        attribute_scan(chars@, start as int, *old(line) as int).1 <= usize::MAX,
    ensures
        (end as int, *final(line) as int) == attribute_scan(chars@, start as int, *old(line) as int),
{
    let mut index = start + 1;

    if index < chars.len() && chars[index] == '!' {
        index += 1;
    }

    if !(index < chars.len() && chars[index] == '[') {
        return start + 1;
    }

    let o = index;
    let mut depth = 0usize;
    let ghost line0 = *line as int;

    while index < chars.len()
        invariant
            o <= index <= chars.len(),
            o < chars.len(),
            chars@[o as int] == '[',
            depth <= index,
            index > o ==> depth >= 1,
            index == o ==> depth == 0,
            line0 == *old(line),
            bracket_scan(chars@, index as int, depth as nat, *line as int) == bracket_scan(
                chars@,
                o as int,
                0,
                line0,
            ),
            attribute_scan(chars@, start as int, line0) == bracket_scan(chars@, o as int, 0, line0),
            bracket_scan(chars@, o as int, 0, line0).1 <= usize::MAX,
        decreases chars.len() - index,
    {
        let c = chars[index];
        if c == '\n' {
            proof {
                lemma_bracket_scan(chars@, index + 1, depth as nat, *line + 1);
            }
            *line += 1;
        } else if c == '[' {
            depth += 1;
        } else if c == ']' {
            depth -= 1;

            if depth == 0 {
                return index + 1;
            }
        }

        index += 1;
    }

    index
}

// ---------------------------------------------------------------------------
// Enum headers
// ---------------------------------------------------------------------------

/// The opening brace of an enum body, looked for from `i`: the index just past
/// it, or `None` where a `;` or the end of the text comes first; and the line
/// the search stops on.
pub open spec fn opening_scan(s: Seq<char>, i: int, line: int) -> (Option<int>, int)
    decreases s.len() + 1 - i,
{
    if i < 0 || i >= s.len() {
        (None, line)
    } else if s[i] == '\n' {
        opening_scan(s, i + 1, line + 1)
    } else if s[i] == '{' {
        (Some(i + 1), line)
    } else if s[i] == ';' {
        (None, line)
    } else if trivia_scan(s, i, line) is Some {
        proof {
            lemma_trivia_scan(s, i, line);
        }
        let (j, l) = trivia_scan(s, i, line).unwrap();
        opening_scan(s, j, l)
    } else {
        opening_scan(s, i + 1, line)
    }
}

pub proof fn lemma_opening_scan(s: Seq<char>, i: int, line: int)
    requires
        0 <= i,
    ensures
        line <= opening_scan(s, i, line).1,
        opening_scan(s, i, line).0 matches Some(b) ==> i < b <= s.len() && opening_scan(
            s,
            i,
            line,
        ).1 - line <= b - i,
        i <= s.len() ==> opening_scan(s, i, line).1 - line <= s.len() - i,
    decreases s.len() + 1 - i,
{
    if i < s.len() {
        if s[i] == '\n' {
            lemma_opening_scan(s, i + 1, line + 1);
        } else if s[i] == '{' || s[i] == ';' {
        } else if trivia_scan(s, i, line) is Some {
            lemma_trivia_scan(s, i, line);
            let (j, l) = trivia_scan(s, i, line).unwrap();
            lemma_opening_scan(s, j, l);
        } else {
            lemma_opening_scan(s, i + 1, line);
        }
    }
}

/// The header of an enum, read from just after the keyword: its name and the
/// index just past its opening brace, if it has both; and the line the
/// reading stops on.
pub open spec fn header_scan(s: Seq<char>, i: int, line: int) -> (Option<(Seq<char>, int)>, int)
    decreases s.len() + 1 - i,
{
    if i < 0 || i >= s.len() {
        (None, line)
    } else if s[i] == '\n' {
        header_scan(s, i + 1, line + 1)
    } else if char_is_whitespace(s[i]) {
        header_scan(s, i + 1, line)
    } else if trivia_scan(s, i, line) is Some {
        proof {
            lemma_trivia_scan(s, i, line);
        }
        let (j, l) = trivia_scan(s, i, line).unwrap();
        header_scan(s, j, l)
    } else if spec_is_ident_start(s[i]) {
        let k = word_end(s, i);
        let (b, l) = opening_scan(s, k, line);
        (
            match b {
                Some(body) => Some((s.subrange(i, k), body)),
                None => None,
            },
            l,
        )
    } else {
        (None, line)
    }
}

pub proof fn lemma_header_scan(s: Seq<char>, i: int, line: int)
    requires
        0 <= i,
    ensures
        line <= header_scan(s, i, line).1,
        header_scan(s, i, line).0 matches Some((name, b)) ==> i < b <= s.len() && header_scan(
            s,
            i,
            line,
        ).1 - line <= b - i,
        i <= s.len() ==> header_scan(s, i, line).1 - line <= s.len() - i,
    decreases s.len() + 1 - i,
{
    if i < s.len() {
        if s[i] == '\n' {
            lemma_header_scan(s, i + 1, line + 1);
        } else if char_is_whitespace(s[i]) {
            lemma_header_scan(s, i + 1, line);
        } else if trivia_scan(s, i, line) is Some {
            lemma_trivia_scan(s, i, line);
            let (j, l) = trivia_scan(s, i, line).unwrap();
            lemma_header_scan(s, j, l);
        } else if spec_is_ident_start(s[i]) {
            lemma_ident_end(s, i + 1);
            lemma_opening_scan(s, word_end(s, i), line);
        }
    }
}

fn opening_brace(chars: &Vec<char>, start: usize, line: &mut usize) -> (body: Option<usize>)
    requires
        start <= chars.len() + 1,
        chars.len() < usize::MAX,
        opening_scan(chars@, start as int, *old(line) as int).1 <= usize::MAX,
    ensures
        opening_scan(chars@, start as int, *old(line) as int).1 == *final(line),
        match opening_scan(chars@, start as int, *old(line) as int).0 {
            Some(b) => body == Some(b as usize),
            None => body is None,
        },
        body matches Some(b) ==> b <= chars.len(),
{
    let mut index = start;
    let ghost line0 = *line as int;

    while index < chars.len()
        invariant
            index <= chars.len() + 1,
            chars.len() < usize::MAX,
            line0 == *old(line),
            opening_scan(chars@, index as int, *line as int) == opening_scan(
                chars@,
                start as int,
                line0,
            ),
            opening_scan(chars@, start as int, line0).1 <= usize::MAX,
        decreases chars.len() + 1 - index,
    {
        let current = chars[index];
        proof {
            lemma_opening_scan(chars@, index + 1, *line + 1);
            lemma_opening_scan(chars@, index as int, *line as int);
        }

        if current == '\n' {
            *line += 1;
            index += 1;
            continue;
        }

        if current == '{' {
            return Some(index + 1);
        }

        if current == ';' {
            return None;
        }

        proof {
            lemma_trivia_scan(chars@, index as int, *line as int);
            if trivia_scan(chars@, index as int, *line as int) is Some {
                let (j, l) = trivia_scan(chars@, index as int, *line as int).unwrap();
                lemma_opening_scan(chars@, j, l);
            }
        }
        if let Some(next) = skip_trivia(chars, index, line) {
            index = next;
            continue;
        }

        index += 1;
    }

    None
}

/// Reads the enum name and returns the index just past its opening brace.
fn header(chars: &Vec<char>, start: usize, line: &mut usize) -> (found: Option<(Vec<char>, usize)>)
    requires
        start <= chars.len(),
        chars.len() < usize::MAX,
        header_scan(chars@, start as int, *old(line) as int).1 <= usize::MAX,
    ensures
        header_scan(chars@, start as int, *old(line) as int).1 == *final(line),
        match header_scan(chars@, start as int, *old(line) as int).0 {
            Some((name, b)) => found matches Some((n, body)) && n@ == name && body == b,
            None => found is None,
        },
{
    let mut index = start;
    let ghost line0 = *line as int;

    while index < chars.len()
        invariant
            index <= chars.len() + 1,
            chars.len() < usize::MAX,
            line0 == *old(line),
            header_scan(chars@, index as int, *line as int) == header_scan(
                chars@,
                start as int,
                line0,
            ),
            header_scan(chars@, start as int, line0).1 <= usize::MAX,
        decreases chars.len() + 1 - index,
    {
        let current = chars[index];
        proof {
            lemma_header_scan(chars@, index + 1, *line + 1);
            lemma_header_scan(chars@, index as int, *line as int);
        }

        if current == '\n' {
            *line += 1;
            index += 1;
            continue;
        }

        if is_whitespace(current) {
            index += 1;
            continue;
        }

        proof {
            lemma_trivia_scan(chars@, index as int, *line as int);
            if trivia_scan(chars@, index as int, *line as int) is Some {
                let (j, l) = trivia_scan(chars@, index as int, *line as int).unwrap();
                lemma_header_scan(chars@, j, l);
            }
        }
        if let Some(next) = skip_trivia(chars, index, line) {
            index = next;
            continue;
        }

        if is_ident_start(current) {
            let (name, next) = read_ident(chars, index);
            let body = match opening_brace(chars, next, line) {
                Some(body) => body,
                None => {
                    return None;
                },
            };
            return Some((name, body));
        }

        return None;
    }

    None
}

// ---------------------------------------------------------------------------
// Variants
// ---------------------------------------------------------------------------

/// A variant as plain values: its name, its line, and its discriminant where
/// known.
pub type VariantView = (Seq<char>, int, Option<int>);

#[derive(Debug, Clone, PartialEq, Eq)]
struct Variant {
    name: Vec<char>,
    line: usize,
    value: Option<i64>,
}

pub open spec fn opt_int(o: Option<i64>) -> Option<int> {
    match o {
        Some(v) => Some(v as int),
        None => None,
    }
}

impl View for Variant {
    type V = VariantView;

    closed spec fn view(&self) -> VariantView {
        (self.name@, self.line as int, opt_int(self.value))
    }
}

spec fn variants_view(v: Seq<Variant>) -> Seq<VariantView> {
    v.map_values(|x: Variant| x@)
}

spec fn name_view(n: Option<(Vec<char>, usize)>) -> Option<(Seq<char>, int)> {
    match n {
        Some((w, l)) => Some((w@, l as int)),
        None => None,
    }
}

/// The value after `value`, for a variant that follows without one of its own.
pub open spec fn next_after(value: Option<int>) -> Option<int> {
    match value {
        Some(v) => Some(v + 1),
        None => None,
    }
}

/// The discriminant of a variant: the literal after its `=` when it has one,
/// otherwise the value following the previous variant's.
pub open spec fn variant_value(has_value: bool, text: Seq<char>, next: Option<int>) -> Option<int> {
    if has_value {
        spec_parse_discriminant(trim(text))
    } else {
        next
    }
}

/// The variant a finished entry yields, if it was named, and the value the
/// next variant would take.
pub open spec fn push_spec(
    name: Option<(Seq<char>, int)>,
    has_value: bool,
    text: Seq<char>,
    next: Option<int>,
) -> (Option<VariantView>, Option<int>) {
    match name {
        None => (None, next),
        Some((n, l)) => {
            let v = variant_value(has_value, text, next);
            (Some((n, l, v)), next_after(v))
        },
    }
}

pub open spec fn opt_seq(v: Option<VariantView>) -> Seq<VariantView> {
    match v {
        Some(x) => seq![x],
        None => seq![],
    }
}

/// The variants of an enum body scanned from `i`, with `depth` brackets open,
/// the entry so far (`name`, the value text `text`, whether an `=` was seen)
/// and the value `next` an undecorated variant would take: the variants, the
/// index the scan stops at, and the line it stops on.
pub open spec fn variants_scan(
    s: Seq<char>,
    i: int,
    line: int,
    depth: nat,
    name: Option<(Seq<char>, int)>,
    text: Seq<char>,
    eq: bool,
    next: Option<int>,
) -> (Seq<VariantView>, int, int)
    decreases s.len() + 1 - i,
{
    if i < 0 || i >= s.len() {
        (seq![], i, line)
    } else {
        let c = s[i];
        if c == '\n' {
            variants_scan(s, i + 1, line + 1, depth, name, text, eq, next)
        } else if trivia_scan(s, i, line) is Some {
            proof {
                lemma_trivia_scan(s, i, line);
            }
            let (j, l) = trivia_scan(s, i, line).unwrap();
            variants_scan(s, j, l, depth, name, text, eq, next)
        } else if depth == 0 && c == '#' {
            proof {
                lemma_attribute_scan(s, i, line);
            }
            let (j, l) = attribute_scan(s, i, line);
            variants_scan(s, j, l, depth, name, text, eq, next)
        } else if depth == 0 && spec_is_ident_start(c) {
            proof {
                lemma_ident_end(s, i + 1);
            }
            let k = word_end(s, i);
            let w = s.subrange(i, k);
            if eq {
                variants_scan(s, k, line, depth, name, text + w, eq, next)
            } else if name is None {
                variants_scan(s, k, line, depth, Some((w, line)), text, eq, next)
            } else {
                variants_scan(s, k, line, depth, name, text, eq, next)
            }
        } else if c == '(' || c == '[' || c == '{' {
            variants_scan(s, i + 1, line, depth + 1, name, text, eq, next)
        } else if c == ')' || c == ']' {
            let d = if depth > 0 {
                (depth - 1) as nat
            } else {
                0
            };
            variants_scan(s, i + 1, line, d, name, text, eq, next)
        } else if c == '}' && depth > 0 {
            variants_scan(s, i + 1, line, (depth - 1) as nat, name, text, eq, next)
        } else if c == '}' {
            (opt_seq(push_spec(name, eq, text, next).0), i + 1, line)
        } else if c == ',' && depth == 0 {
            let (v, nx) = push_spec(name, eq, text, next);
            let (rest, e, l) = variants_scan(s, i + 1, line, depth, None, seq![], false, nx);
            (opt_seq(v) + rest, e, l)
        } else if c == '=' && depth == 0 {
            variants_scan(s, i + 1, line, depth, name, text, true, next)
        } else if depth == 0 && eq {
            variants_scan(s, i + 1, line, depth, name, text.push(c), eq, next)
        } else {
            variants_scan(s, i + 1, line, depth, name, text, eq, next)
        }
    }
}

/// The variants of the enum body starting at `start`, the index past it, and
/// the line the body ends on.
pub open spec fn body_scan(s: Seq<char>, start: int, line: int) -> (Seq<VariantView>, int, int) {
    variants_scan(s, start, line, 0, None, seq![], false, Some(0))
}

pub proof fn lemma_variants_scan(
    s: Seq<char>,
    i: int,
    line: int,
    depth: nat,
    name: Option<(Seq<char>, int)>,
    text: Seq<char>,
    eq: bool,
    next: Option<int>,
)
    requires
        0 <= i <= s.len(),
    ensures
        line <= variants_scan(s, i, line, depth, name, text, eq, next).2,
        i <= variants_scan(s, i, line, depth, name, text, eq, next).1 <= s.len(),
        variants_scan(s, i, line, depth, name, text, eq, next).2 - line <= variants_scan(
            s,
            i,
            line,
            depth,
            name,
            text,
            eq,
            next,
        ).1 - i,
    decreases s.len() + 1 - i,
{
    if i < s.len() {
        let c = s[i];
        if c == '\n' {
            lemma_variants_scan(s, i + 1, line + 1, depth, name, text, eq, next);
        } else if trivia_scan(s, i, line) is Some {
            lemma_trivia_scan(s, i, line);
            let (j, l) = trivia_scan(s, i, line).unwrap();
            lemma_variants_scan(s, j, l, depth, name, text, eq, next);
        } else if depth == 0 && c == '#' {
            lemma_attribute_scan(s, i, line);
            let (j, l) = attribute_scan(s, i, line);
            lemma_variants_scan(s, j, l, depth, name, text, eq, next);
        } else if depth == 0 && spec_is_ident_start(c) {
            lemma_ident_end(s, i + 1);
            let k = word_end(s, i);
            let w = s.subrange(i, k);
            if eq {
                lemma_variants_scan(s, k, line, depth, name, text + w, eq, next);
            } else if name is None {
                lemma_variants_scan(s, k, line, depth, Some((w, line)), text, eq, next);
            } else {
                lemma_variants_scan(s, k, line, depth, name, text, eq, next);
            }
        } else if c == '(' || c == '[' || c == '{' {
            lemma_variants_scan(s, i + 1, line, depth + 1, name, text, eq, next);
        } else if c == ')' || c == ']' {
            let d = if depth > 0 {
                (depth - 1) as nat
            } else {
                0
            };
            lemma_variants_scan(s, i + 1, line, d, name, text, eq, next);
        } else if c == '}' && depth > 0 {
            lemma_variants_scan(s, i + 1, line, (depth - 1) as nat, name, text, eq, next);
        } else if c == '}' {
        } else if c == ',' && depth == 0 {
            let (v, nx) = push_spec(name, eq, text, next);
            lemma_variants_scan(s, i + 1, line, depth, None, seq![], false, nx);
        } else if c == '=' && depth == 0 {
            lemma_variants_scan(s, i + 1, line, depth, name, text, true, next);
        } else if depth == 0 && eq {
            lemma_variants_scan(s, i + 1, line, depth, name, text.push(c), eq, next);
        } else {
            lemma_variants_scan(s, i + 1, line, depth, name, text, eq, next);
        }
    }
}

/// A variant being read: its name and line once seen, whether an `=` was
/// seen, and the text after it.
struct Entry<'a> {
    name: Option<(Vec<char>, usize)>,
    has_value: bool,
    value_text: &'a Vec<char>,
}

/// Appends the variant that `entry` names, if any, and advances the implicit
/// value. Returns `false`, changing nothing, when that variant's value is
/// `i64::MAX`, whose successor does not exist.
fn push_variant(variants: &mut Vec<Variant>, next_value: &mut Option<i64>, entry: Entry<'_>) -> (ok: bool)
    ensures
        ok == !(entry.name is Some && variant_value(
            entry.has_value,
            entry.value_text@,
            opt_int(*old(next_value)),
        ) == Some(i64::MAX as int)),
        ok ==> variants_view(final(variants)@) == variants_view(old(variants)@) + opt_seq(
            push_spec(
                name_view(entry.name),
                entry.has_value,
                entry.value_text@,
                opt_int(*old(next_value)),
            ).0,
        ),
        ok ==> opt_int(*final(next_value)) == push_spec(
            name_view(entry.name),
            entry.has_value,
            entry.value_text@,
            opt_int(*old(next_value)),
        ).1,
        !ok ==> final(variants)@ == old(variants)@ && *final(next_value) == *old(next_value),
{
    let (name, line) = match entry.name {
        Some(name) => name,
        None => {
            assert(variants_view(variants@) =~= variants_view(old(variants)@) + seq![]);
            return true;
        },
    };

    let value = if entry.has_value {
        let trimmed = trim_chars(entry.value_text);
        parse_discriminant(&trimmed)
    } else {
        *next_value
    };
    assert(opt_int(value) == variant_value(entry.has_value, entry.value_text@, opt_int(*old(next_value))));

    *next_value = match value {
        Some(current) => {
            if current == i64::MAX {
                return false;
            }
            Some(current + 1)
        },
        None => None,
    };
    let ghost before = variants@;
    variants.push(Variant { name, line, value });
    assert(variants_view(variants@) =~= variants_view(before).push(
        (variants@.last().name@, line as int, opt_int(value)),
    ));
    true
}

/// Appends the characters of `word` to `text`.
fn append_word(text: &mut Vec<char>, word: Vec<char>)
    ensures
        final(text)@ == old(text)@ + word@,
{
    let mut word = word;
    text.append(&mut word);
}

/// No variant reaches `i64::MAX`, the one value that has no successor.
pub open spec fn below_max(vs: Seq<VariantView>) -> bool {
    forall|k: int| 0 <= k < vs.len() ==> (#[trigger] vs[k]).2 != Some(i64::MAX as int)
}

/// Walks the enum body, returning its variants and the index past the close,
/// or `None` when a variant's value is `i64::MAX`.
fn read_variants(chars: &Vec<char>, start: usize, line: &mut usize) -> (res: Option<(Vec<Variant>, usize)>)
    requires
        start <= chars.len(),
        chars.len() < usize::MAX,
        body_scan(chars@, start as int, *old(line) as int).2 <= usize::MAX,
    ensures
        res is Some <==> below_max(body_scan(chars@, start as int, *old(line) as int).0),
        res matches Some(r) ==> {
            &&& variants_view(r.0@) == body_scan(chars@, start as int, *old(line) as int).0
            &&& r.1 as int == body_scan(chars@, start as int, *old(line) as int).1
            &&& *final(line) as int == body_scan(chars@, start as int, *old(line) as int).2
        },
{
    let mut variants: Vec<Variant> = Vec::new();
    let mut depth = 0usize;
    let mut name: Option<(Vec<char>, usize)> = None;
    let mut value_text: Vec<char> = Vec::new();
    let mut seen_equals = false;
    let mut next_value: Option<i64> = Some(0);
    let mut index = start;
    let ghost s = chars@;
    let ghost total = body_scan(s, start as int, *line as int);

    proof {
        assert(variants_view(variants@) =~= seq![]);
        assert(value_text@ =~= seq![]);
    }

    while index < chars.len()
        invariant
            s == chars@,
            chars.len() < usize::MAX,
            index <= chars.len() + 1,
            depth <= index,
            total == body_scan(s, start as int, *old(line) as int),
            total.2 <= usize::MAX,
            below_max(variants_view(variants@)),
            ({
                let cur = variants_scan(
                    s,
                    index as int,
                    *line as int,
                    depth as nat,
                    name_view(name),
                    value_text@,
                    seen_equals,
                    opt_int(next_value),
                );
                &&& total.0 == variants_view(variants@) + cur.0
                &&& total.1 == cur.1
                &&& total.2 == cur.2
            }),
        decreases chars.len() + 1 - index,
    {
        let current = chars[index];
        let ghost cur = variants_scan(
            s,
            index as int,
            *line as int,
            depth as nat,
            name_view(name),
            value_text@,
            seen_equals,
            opt_int(next_value),
        );
        proof {
            lemma_variants_scan(
                s,
                index as int,
                *line as int,
                depth as nat,
                name_view(name),
                value_text@,
                seen_equals,
                opt_int(next_value),
            );
            lemma_variants_scan(
                s,
                index + 1,
                *line + 1,
                depth as nat,
                name_view(name),
                value_text@,
                seen_equals,
                opt_int(next_value),
            );
        }

        if current == '\n' {
            *line += 1;
            index += 1;
            continue;
        }

        proof {
            lemma_trivia_scan(s, index as int, *line as int);
            if trivia_scan(s, index as int, *line as int) is Some {
                let (j, l) = trivia_scan(s, index as int, *line as int).unwrap();
                lemma_variants_scan(
                    s,
                    j,
                    l,
                    depth as nat,
                    name_view(name),
                    value_text@,
                    seen_equals,
                    opt_int(next_value),
                );
            }
        }
        if let Some(next) = skip_trivia(chars, index, line) {
            index = next;
            continue;
        }

        if depth == 0 && current == '#' {
            proof {
                lemma_attribute_scan(s, index as int, *line as int);
                let (j, l) = attribute_scan(s, index as int, *line as int);
                lemma_variants_scan(
                    s,
                    j,
                    l,
                    depth as nat,
                    name_view(name),
                    value_text@,
                    seen_equals,
                    opt_int(next_value),
                );
            }
            index = skip_attribute(chars, index, line);
            continue;
        }

        if depth == 0 && is_ident_start(current) {
            let (word, next) = read_ident(chars, index);

            if seen_equals {
                append_word(&mut value_text, word);
            } else if name.is_none() {
                name = Some((word, *line));
            }

            index = next;
            continue;
        }

        if current == '(' || current == '[' || current == '{' {
            depth += 1;
        } else if current == ')' || current == ']' {
            depth = depth.saturating_sub(1);
        } else if current == '}' && depth > 0 {
            depth -= 1;
        } else if current == '}' {
            let ghost pending = push_spec(name_view(name), seen_equals, value_text@, opt_int(next_value));
            proof {
                assert(total.0 == variants_view(variants@) + opt_seq(pending.0));
                if pending.0 is Some {
                    let k = variants_view(variants@).len() as int;
                    assert(total.0[k] == pending.0.unwrap());
                }
            }
            let entry = Entry { name: name.take(), has_value: seen_equals, value_text: &value_text };
            if !push_variant(&mut variants, &mut next_value, entry) {
                proof {
                    let k = variants_view(variants@).len() as int;
                    assert(total.0[k].2 == Some(i64::MAX as int));
                }
                return None;
            }
            proof {
                assert(below_max(total.0)) by {
                    assert(total.0 == variants_view(variants@));
                }
            }
            return Some((variants, index + 1));
        } else if current == ',' && depth == 0 {
            let ghost pending = push_spec(name_view(name), seen_equals, value_text@, opt_int(next_value));
            proof {
                let rest = variants_scan(s, index + 1, *line as int, 0, None, seq![], false, pending.1);
                assert(total.0 == variants_view(variants@) + (opt_seq(pending.0) + rest.0));
                if pending.0 is Some {
                    let k = variants_view(variants@).len() as int;
                    assert(total.0[k] == pending.0.unwrap());
                }
            }
            let entry = Entry { name: name.take(), has_value: seen_equals, value_text: &value_text };
            if !push_variant(&mut variants, &mut next_value, entry) {
                proof {
                    let k = variants_view(variants@).len() as int;
                    assert(total.0[k].2 == Some(i64::MAX as int));
                }
                return None;
            }
            value_text.clear();
            seen_equals = false;
            proof {
                assert(variants_view(variants@) + variants_scan(
                    s,
                    index + 1,
                    *line as int,
                    0,
                    None,
                    seq![],
                    false,
                    pending.1,
                ).0 =~= total.0);
            }
        } else if current == '=' && depth == 0 {
            seen_equals = true;
        } else if depth == 0 && seen_equals {
            value_text.push(current);
        }

        index += 1;
    }

    proof {
        assert(variants_view(variants@) + seq![] =~= variants_view(variants@));
    }
    Some((variants, index))
}

// ---------------------------------------------------------------------------
// Enum declarations
// ---------------------------------------------------------------------------

/// An enum declaration as plain values: its name and its variants.
pub type DeclView = (Seq<char>, Seq<VariantView>);

/// The keyword that introduces an enum.
pub open spec fn enum_keyword() -> Seq<char> {
    seq!['e', 'n', 'u', 'm']
}

/// The enum declarations met by scanning from `i` on line `line`.
pub open spec fn decls_scan(s: Seq<char>, i: int, line: int) -> Seq<DeclView>
    decreases s.len() + 1 - i,
{
    if i < 0 || i >= s.len() {
        seq![]
    } else {
        let c = s[i];
        if c == '\n' {
            decls_scan(s, i + 1, line + 1)
        } else if trivia_scan(s, i, line) is Some {
            proof {
                lemma_trivia_scan(s, i, line);
            }
            let (j, l) = trivia_scan(s, i, line).unwrap();
            decls_scan(s, j, l)
        } else if spec_is_ident_start(c) {
            proof {
                lemma_ident_end(s, i + 1);
            }
            let k = word_end(s, i);
            if s.subrange(i, k) == enum_keyword() {
                proof {
                    lemma_header_scan(s, k, line);
                }
                let (h, l1) = header_scan(s, k, line);
                match h {
                    Some((name, body)) => {
                        proof {
                            lemma_variants_scan(s, body, l1, 0, None, seq![], false, Some(0));
                        }
                        let (vs, after, l2) = body_scan(s, body, l1);
                        seq![(name, vs)] + decls_scan(s, after, l2)
                    },
                    None => decls_scan(s, k, line),
                }
            } else {
                decls_scan(s, k, line)
            }
        } else {
            decls_scan(s, i + 1, line)
        }
    }
}

/// Every enum declaration in `s`, in order.
pub open spec fn all_declarations(s: Seq<char>) -> Seq<DeclView> {
    decls_scan(s, 0, 1)
}

/// The inputs on which the scan runs to its end: the text's length leaves room
/// for one index past it, and no discriminant is `i64::MAX`, whose successor
/// does not exist.
pub open spec fn scan_fits(s: Seq<char>) -> bool {
    &&& s.len() < usize::MAX
    &&& forall|d: int| 0 <= d < all_declarations(s).len() ==> below_max(#[trigger] all_declarations(s)[d].1)
}

spec fn decl_views(v: Seq<(Vec<char>, Vec<Variant>)>) -> Seq<DeclView> {
    v.map_values(|d: (Vec<char>, Vec<Variant>)| (d.0@, variants_view(d.1@)))
}

/// Every enum declaration in `source`, or `None` when the scan cannot run to
/// its end (see `scan_fits`).
fn declarations(source: &str) -> (res: Option<Vec<(Vec<char>, Vec<Variant>)>>)
    ensures
        res is Some <==> scan_fits(source@),
        res matches Some(found) ==> decl_views(found@) == all_declarations(source@),
{
    let chars = source_chars(source);
    if chars.len() == usize::MAX {
        return None;
    }
    let enum_kw: Vec<char> = vec!['e', 'n', 'u', 'm'];
    let mut found: Vec<(Vec<char>, Vec<Variant>)> = Vec::new();
    let mut index = 0usize;
    let mut line = 1usize;
    let ghost s = chars@;

    proof {
        assert(decl_views(found@) =~= seq![]);
    }

    while index < chars.len()
        invariant
            s == chars@,
            s == source@,
            s.len() < usize::MAX,
            forall|d: int| 0 <= d < found@.len() ==> below_max(#[trigger] decl_views(found@)[d].1),
            enum_kw@ == enum_keyword(),
            index <= chars.len(),
            1 <= line <= index + 1,
            all_declarations(s) == decl_views(found@) + decls_scan(s, index as int, line as int),
        decreases chars.len() - index,
    {
        let current = chars[index];

        if current == '\n' {
            line += 1;
            index += 1;
            continue;
        }

        proof {
            lemma_trivia_scan(s, index as int, line as int);
        }
        if let Some(next) = skip_trivia(&chars, index, &mut line) {
            index = next;
            continue;
        }

        if is_ident_start(current) {
            let (word, next) = read_ident(&chars, index);

            if word_is(&word, &enum_kw) {
                let ghost k = next as int;
                proof {
                    lemma_header_scan(s, k, line as int);
                    let (h, l1) = header_scan(s, k, line as int);
                    if h is Some {
                        let (name, body) = h.unwrap();
                        lemma_variants_scan(s, body, l1, 0, None, seq![], false, Some(0));
                        let (vs, after, l2) = body_scan(s, body, l1);
                        let rest = decls_scan(s, after, l2);
                        assert(all_declarations(s) == decl_views(found@) + (seq![(name, vs)] + rest));
                        let d = decl_views(found@).len() as int;
                        assert(all_declarations(s)[d] == (name, vs));
                    }
                }
                let mut header_line = line;
                if let Some((name, body)) = header(&chars, next, &mut header_line) {
                    line = header_line;
                    let ghost d = decl_views(found@).len() as int;
                    let (variants, after) = match read_variants(&chars, body, &mut line) {
                        Some(r) => r,
                        None => {
                            proof {
                                assert(!below_max(all_declarations(s)[d].1));
                            }
                            return None;
                        },
                    };
                    let ghost before = found@;
                    found.push((name, variants));
                    proof {
                        assert(decl_views(found@) =~= decl_views(before).push(
                            (found@.last().0@, variants_view(found@.last().1@)),
                        ));
                        assert(all_declarations(s) =~= decl_views(found@) + decls_scan(
                            s,
                            after as int,
                            line as int,
                        ));
                    }
                    index = after;
                    continue;
                }
            }

            index = next;
            continue;
        }

        index += 1;
    }

    proof {
        assert(decl_views(found@) + seq![] =~= decl_views(found@));
    }
    Some(found)
}

/// Whether `analyze` can read `source` to its end: `scan_fits` holds, so no
/// discriminant is `i64::MAX`.
pub fn fits(source: &str) -> (r: bool)
    ensures
        r == scan_fits(source@),
{
    declarations(source).is_some()
}

// ---------------------------------------------------------------------------
// Collisions
// ---------------------------------------------------------------------------

/// Two or more variants of one enum resolving to the same discriminant.
#[derive(Debug, Clone, PartialEq, Eq)]
pub struct Collision {
    /// The enum holding the colliding variants.
    pub enum_name: String,
    /// The discriminant the variants share.
    pub value: i64,
    /// The colliding variant names, in declaration order.
    pub variants: Vec<String>,
    /// The line each colliding variant is declared on.
    pub lines: Vec<usize>,
}

/// What a collision says, as plain values.
pub struct CollisionView {
    pub enum_name: Seq<char>,
    pub value: int,
    pub variants: Seq<Seq<char>>,
    pub lines: Seq<int>,
}

impl View for Collision {
    type V = CollisionView;

    open spec fn view(&self) -> CollisionView {
        CollisionView {
            enum_name: self.enum_name@,
            value: self.value as int,
            variants: self.variants@.map_values(|v: String| v@),
            lines: self.lines@.map_values(|l: usize| l as int),
        }
    }
}

pub open spec fn collisions_view(v: Seq<Collision>) -> Seq<CollisionView> {
    v.map_values(|c: Collision| c@)
}

/// A group of variants sharing a value: the value and the members in order.
pub type GroupView = (int, Seq<VariantView>);

/// The first index at or after `k` of the group for value `x`, or `-1`.
pub open spec fn group_index(g: Seq<GroupView>, x: int, k: int) -> int
    decreases g.len() - k,
{
    if k < 0 || k >= g.len() {
        -1
    } else if g[k].0 == x {
        k
    } else {
        group_index(g, x, k + 1)
    }
}

/// The variants of `vs` whose value is known, grouped by value: one group per
/// value in the order the value first appears, members in declaration order.
pub open spec fn value_groups(vs: Seq<VariantView>) -> Seq<GroupView>
    decreases vs.len(),
{
    if vs.len() == 0 {
        seq![]
    } else {
        let g = value_groups(vs.drop_last());
        let v = vs.last();
        match v.2 {
            None => g,
            Some(x) => {
                let k = group_index(g, x, 0);
                if k < 0 {
                    g.push((x, seq![v]))
                } else {
                    g.update(k, (x, g[k].1.push(v)))
                }
            },
        }
    }
}

/// The collision a group of `enum_name` makes, as plain values.
pub open spec fn group_collision(enum_name: Seq<char>, grp: GroupView) -> CollisionView {
    CollisionView {
        enum_name: enum_name,
        value: grp.0,
        variants: grp.1.map_values(|v: VariantView| v.0),
        lines: grp.1.map_values(|v: VariantView| v.1),
    }
}

/// The groups of `g` with more than one member, as collisions of `enum_name`.
pub open spec fn to_collisions(enum_name: Seq<char>, g: Seq<GroupView>) -> Seq<CollisionView>
    decreases g.len(),
{
    if g.len() == 0 {
        seq![]
    } else {
        to_collisions(enum_name, g.drop_last()) + if g.last().1.len() > 1 {
            seq![group_collision(enum_name, g.last())]
        } else {
            seq![]
        }
    }
}

/// The collisions among the variants `vs` of the enum `enum_name`.
pub open spec fn spec_collisions(enum_name: Seq<char>, vs: Seq<VariantView>) -> Seq<CollisionView> {
    to_collisions(enum_name, value_groups(vs))
}

/// The collisions of every declaration in `decls`, enum by enum.
pub open spec fn collisions_of_all(decls: Seq<DeclView>) -> Seq<CollisionView>
    decreases decls.len(),
{
    if decls.len() == 0 {
        seq![]
    } else {
        collisions_of_all(decls.drop_last()) + spec_collisions(decls.last().0, decls.last().1)
    }
}

/// What `analyze` reports for `s`.
pub open spec fn spec_analyze(s: Seq<char>) -> Seq<CollisionView> {
    collisions_of_all(all_declarations(s))
}

spec fn groups_view(groups: Seq<(i64, Vec<usize>)>, vs: Seq<VariantView>) -> Seq<GroupView> {
    groups.map_values(
        |g: (i64, Vec<usize>)| (g.0 as int, g.1@.map_values(|i: usize| vs[i as int])),
    )
}

#[verifier::spinoff_prover]
fn collisions(enum_name: &Vec<char>, variants: &Vec<Variant>) -> (found: Vec<Collision>)
    ensures
        collisions_view(found@) == spec_collisions(enum_name@, variants_view(variants@)),
{
    let ghost vs = variants_view(variants@);
    let mut groups: Vec<(i64, Vec<usize>)> = Vec::new();
    let mut k: usize = 0;

    proof {
        assert(vs.take(0) =~= seq![]);
        assert(groups_view(groups@, vs) =~= seq![]);
    }

    while k < variants.len()
        invariant
            k <= variants.len(),
            vs == variants_view(variants@),
            groups_view(groups@, vs) == value_groups(vs.take(k as int)),
            forall|j: int, i: int|
                0 <= j < groups@.len() && 0 <= i < groups@[j].1@.len() ==> #[trigger] groups@[j].1@[i]
                    < k,
        decreases variants.len() - k,
    {
        let ghost g = groups_view(groups@, vs);
        assert(vs.take(k + 1).drop_last() =~= vs.take(k as int));
        assert(vs.take(k + 1).last() == vs[k as int]);
        assert(vs[k as int] == variants@[k as int]@);

        let value = match variants[k].value {
            Some(value) => value,
            None => {
                k += 1;
                continue;
            },
        };

        let mut gi: usize = 0;
        while gi < groups.len() && groups[gi].0 != value
            invariant
                gi <= groups.len(),
                g == groups_view(groups@, vs),
                group_index(g, value as int, gi as int) == group_index(g, value as int, 0),
                forall|j: int, i: int|
                    0 <= j < groups@.len() && 0 <= i < groups@[j].1@.len() ==> #[trigger] groups@[j].1@[i]
                        < k,
            decreases groups.len() - gi,
        {
            gi += 1;
        }

        let ghost before = groups@;
        if gi < groups.len() {
            let ghost x = value as int;
            assert(group_index(g, x, 0) == gi);
            groups[gi].1.push(k);
            proof {
                assert(groups_view(groups@, vs) =~= g.update(
                    gi as int,
                    (x, g[gi as int].1.push(vs[k as int])),
                )) by {
                    assert forall|j: int| 0 <= j < groups@.len() implies #[trigger] groups_view(
                        groups@,
                        vs,
                    )[j] == g.update(gi as int, (x, g[gi as int].1.push(vs[k as int])))[j] by {
                        if j == gi {
                            assert(groups@[j].1@ =~= before[j].1@.push(k));
                            assert(groups@[j].1@.map_values(|i: usize| vs[i as int])
                                =~= before[j].1@.map_values(|i: usize| vs[i as int]).push(
                                vs[k as int],
                            ));
                        } else {
                            assert(groups@[j] == before[j]);
                        }
                    }
                }
            }
        } else {
            assert(group_index(g, value as int, 0) == -1);
            groups.push((value, vec![k]));
            proof {
                assert(groups@.last().1@.map_values(|i: usize| vs[i as int]) =~= seq![
                    vs[k as int],
                ]);
                assert(groups_view(groups@, vs) =~= g.push((value as int, seq![vs[k as int]])));
            }
        }
        k += 1;
    }
    assert(vs.take(variants.len() as int) =~= vs);

    let ghost all = groups_view(groups@, vs);
    let mut findings: Vec<Collision> = Vec::new();
    let mut gi: usize = 0;

    proof {
        assert(all.take(0) =~= seq![]);
        assert(collisions_view(findings@) =~= seq![]);
    }

    while gi < groups.len()
        invariant
            gi <= groups.len(),
            vs == variants_view(variants@),
            all == groups_view(groups@, vs),
            all == value_groups(vs),
            collisions_view(findings@) == to_collisions(enum_name@, all.take(gi as int)),
            forall|j: int, i: int|
                0 <= j < groups@.len() && 0 <= i < groups@[j].1@.len() ==> #[trigger] groups@[j].1@[i]
                    < variants.len(),
        decreases groups.len() - gi,
    {
        assert(all.take(gi + 1).drop_last() =~= all.take(gi as int));
        assert(all.take(gi + 1).last() == all[gi as int]);
        let members = &groups[gi].1;
        assert(forall|i: int| 0 <= i < members@.len() ==> #[trigger] members@[i] == groups@[gi as int].1@[i]);
        let ghost mv = members@.map_values(|i: usize| vs[i as int]);
        assert(all[gi as int] == (groups@[gi as int].0 as int, mv));

        if members.len() > 1 {
            let mut names: Vec<String> = Vec::new();
            let mut lines: Vec<usize> = Vec::new();
            let mut m: usize = 0;
            proof {
                assert(names@.map_values(|v: String| v@) =~= seq![]);
                assert(lines@.map_values(|l: usize| l as int) =~= seq![]);
            }
            while m < members.len()
                invariant
                    m <= members.len(),
                    vs == variants_view(variants@),
                    mv == members@.map_values(|i: usize| vs[i as int]),
                    forall|i: int| 0 <= i < members@.len() ==> #[trigger] members@[i] < variants.len(),
                    names@.map_values(|v: String| v@) == mv.take(m as int).map_values(
                        |v: VariantView| v.0,
                    ),
                    lines@.map_values(|l: usize| l as int) == mv.take(m as int).map_values(
                        |v: VariantView| v.1,
                    ),
                decreases members.len() - m,
            {
                let idx = members[m];
                let ghost bn = names@;
                let ghost bl = lines@;
                names.push(string_from_chars(&variants[idx].name));
                lines.push(variants[idx].line);
                proof {
                    assert(mv[m as int] == vs[idx as int]);
                    assert(vs[idx as int] == variants@[idx as int]@);
                    assert(mv.take(m + 1) =~= mv.take(m as int).push(mv[m as int]));
                    assert(variants@[idx as int]@.0 == variants@[idx as int].name@);
                    assert(variants@[idx as int]@.1 == variants@[idx as int].line as int);
                    assert(mv.take(m + 1).map_values(|v: VariantView| v.0) =~= mv.take(
                        m as int,
                    ).map_values(|v: VariantView| v.0).push(mv[m as int].0));
                    assert(mv.take(m + 1).map_values(|v: VariantView| v.1) =~= mv.take(
                        m as int,
                    ).map_values(|v: VariantView| v.1).push(mv[m as int].1));
                    assert(names@.map_values(|v: String| v@) =~= bn.map_values(|v: String| v@).push(
                        variants@[idx as int].name@,
                    ));
                    assert(lines@.map_values(|l: usize| l as int) =~= bl.map_values(
                        |l: usize| l as int,
                    ).push(variants@[idx as int].line as int));
                    assert(names@.map_values(|v: String| v@) =~= mv.take(m + 1).map_values(
                        |v: VariantView| v.0,
                    ));
                    assert(lines@.map_values(|l: usize| l as int) =~= mv.take(m + 1).map_values(
                        |v: VariantView| v.1,
                    ));
                }
                m += 1;
            }
            assert(mv.take(members.len() as int) =~= mv);
            let ghost before = findings@;
            findings.push(
                Collision {
                    enum_name: string_from_chars(enum_name),
                    value: groups[gi].0,
                    variants: names,
                    lines,
                },
            );
            proof {
                assert(collisions_view(findings@) =~= collisions_view(before).push(
                    group_collision(enum_name@, all[gi as int]),
                ));
            }
        }
        gi += 1;
    }
    assert(all.take(groups.len() as int) =~= all);
    findings
}

/// Reports every discriminant collision in `source`, enum by enum. `fits`
/// tells beforehand whether `source` meets the requirement.
pub fn analyze(source: &str) -> (findings: Vec<Collision>)
    requires
        scan_fits(source@),
    ensures
        collisions_view(findings@) == spec_analyze(source@),
{
    let mut findings: Vec<Collision> = Vec::new();
    let decls = match declarations(source) {
        Some(decls) => decls,
        None => return findings,
    };
    let ghost all = decl_views(decls@);
    let mut d: usize = 0;

    proof {
        assert(all.take(0) =~= seq![]);
        assert(collisions_view(findings@) =~= seq![]);
    }

    while d < decls.len()
        invariant
            d <= decls.len(),
            all == decl_views(decls@),
            all == all_declarations(source@),
            collisions_view(findings@) == collisions_of_all(all.take(d as int)),
        decreases decls.len() - d,
    {
        assert(all.take(d + 1).drop_last() =~= all.take(d as int));
        assert(all.take(d + 1).last() == all[d as int]);
        let ghost before = findings@;
        let mut found = collisions(&decls[d].0, &decls[d].1);
        let ghost added = found@;
        findings.append(&mut found);
        proof {
            assert(collisions_view(findings@) =~= collisions_view(before) + collisions_view(added));
        }
        d += 1;
    }
    assert(all.take(decls.len() as int) =~= all);
    findings
}

// ---------------------------------------------------------------------------
// Laws
// ---------------------------------------------------------------------------

/// The variants of `vs` whose discriminant is `x`, in declaration order.
pub open spec fn with_value(vs: Seq<VariantView>, x: int) -> Seq<VariantView>
    decreases vs.len(),
{
    if vs.len() == 0 {
        seq![]
    } else {
        with_value(vs.drop_last(), x) + if vs.last().2 == Some(x) {
            seq![vs.last()]
        } else {
            seq![]
        }
    }
}

proof fn lemma_group_index(g: Seq<GroupView>, x: int, k: int)
    requires
        0 <= k <= g.len(),
    ensures
        group_index(g, x, k) == -1 ==> forall|j: int| k <= j < g.len() ==> (#[trigger] g[j]).0 != x,
        group_index(g, x, k) != -1 ==> k <= group_index(g, x, k) < g.len() && g[group_index(
            g,
            x,
            k,
        )].0 == x,
    decreases g.len() - k,
{
    if k < g.len() && g[k].0 != x {
        lemma_group_index(g, x, k + 1);
    }
}

/// The grouping keeps one group per value, holding every variant with it.
spec fn groups_ok(vs: Seq<VariantView>, g: Seq<GroupView>) -> bool {
    &&& forall|k: int| 0 <= k < g.len() ==> (#[trigger] g[k]).1 == with_value(vs, g[k].0)
    &&& forall|j: int, k: int| 0 <= j < k < g.len() ==> (#[trigger] g[j]).0 != (#[trigger] g[k]).0
    &&& forall|x: int| #[trigger] with_value(vs, x).len() > 0 ==> exists|k: int|
        0 <= k < g.len() && (#[trigger] g[k]).0 == x
}

proof fn lemma_value_groups(vs: Seq<VariantView>)
    ensures
        groups_ok(vs, value_groups(vs)),
    decreases vs.len(),
{
    if vs.len() > 0 {
        let p = vs.drop_last();
        let v = vs.last();
        lemma_value_groups(p);
        let g = value_groups(p);
        assert forall|x: int| v.2 != Some(x) implies #[trigger] with_value(vs, x) == with_value(p, x) by {
            assert(with_value(p, x) + seq![] =~= with_value(p, x));
        }
        match v.2 {
            None => {},
            Some(x0) => {
                let k = group_index(g, x0, 0);
                lemma_group_index(g, x0, 0);
                assert(with_value(vs, x0) == with_value(p, x0).push(v));
                let g2 = value_groups(vs);
                if k < 0 {
                    if with_value(p, x0).len() > 0 {
                        let j = choose|j: int| 0 <= j < g.len() && (#[trigger] g[j]).0 == x0;
                        assert(false);
                    }
                    assert(with_value(p, x0) =~= seq![]);
                    assert(g2 == g.push((x0, seq![v])));
                    assert forall|x: int| #[trigger] with_value(vs, x).len() > 0 implies exists|j: int|
                        0 <= j < g2.len() && (#[trigger] g2[j]).0 == x by {
                        if x == x0 {
                            assert(g2[g.len() as int].0 == x);
                        } else {
                            let j = choose|j: int| 0 <= j < g.len() && (#[trigger] g[j]).0 == x;
                            assert(g2[j] == g[j]);
                        }
                    }
                    assert forall|j: int| 0 <= j < g2.len() implies (#[trigger] g2[j]).1 == with_value(
                        vs,
                        g2[j].0,
                    ) by {
                        if j < g.len() {
                            assert(g2[j] == g[j]);
                        }
                    }
                } else {
                    assert(g2 == g.update(k, (x0, g[k].1.push(v))));
                    assert forall|x: int| #[trigger] with_value(vs, x).len() > 0 implies exists|j: int|
                        0 <= j < g2.len() && (#[trigger] g2[j]).0 == x by {
                        if x == x0 {
                            assert(g2[k].0 == x);
                        } else {
                            let j = choose|j: int| 0 <= j < g.len() && (#[trigger] g[j]).0 == x;
                            assert(g2[j].0 == g[j].0);
                        }
                    }
                    assert forall|j: int| 0 <= j < g2.len() implies (#[trigger] g2[j]).1 == with_value(
                        vs,
                        g2[j].0,
                    ) by {
                        if j != k {
                            assert(g2[j] == g[j]);
                            assert(g[j].0 != x0);
                        }
                    }
                    assert forall|a: int, b: int| 0 <= a < b < g2.len() implies (#[trigger] g2[a]).0
                        != (#[trigger] g2[b]).0 by {
                        assert(g2[a].0 == g[a].0);
                        assert(g2[b].0 == g[b].0);
                    }
                }
            },
        }
    }
}

/// `cv` is the collision of one of the groups of `g` with two members or more.
spec fn from_group(name: Seq<char>, g: Seq<GroupView>, cv: CollisionView) -> bool {
    exists|k: int| 0 <= k < g.len() && (#[trigger] g[k]).1.len() > 1 && cv == group_collision(name, g[k])
}

proof fn lemma_to_collisions(name: Seq<char>, g: Seq<GroupView>)
    ensures
        forall|c: int|
            0 <= c < to_collisions(name, g).len() ==> from_group(
                name,
                g,
                #[trigger] to_collisions(name, g)[c],
            ),
        forall|k: int|
            0 <= k < g.len() && (#[trigger] g[k]).1.len() > 1 ==> to_collisions(name, g).contains(
                group_collision(name, g[k]),
            ),
        (forall|j: int, k: int| 0 <= j < k < g.len() ==> (#[trigger] g[j]).0 != (#[trigger] g[k]).0)
            ==> forall|a: int, b: int|
            0 <= a < b < to_collisions(name, g).len() ==> (#[trigger] to_collisions(name, g)[a]).value
                != (#[trigger] to_collisions(name, g)[b]).value,
    decreases g.len(),
{
    if g.len() > 0 {
        let p = g.drop_last();
        lemma_to_collisions(name, p);
        let prev = to_collisions(name, p);
        let cur = to_collisions(name, g);
        let last = g.last();
        assert forall|c: int| 0 <= c < cur.len() implies from_group(name, g, #[trigger] cur[c]) by {
            if c < prev.len() {
                assert(cur[c] == prev[c]);
                assert(from_group(name, p, prev[c]));
                let k = choose|k: int|
                    0 <= k < p.len() && (#[trigger] p[k]).1.len() > 1 && prev[c] == group_collision(name, p[k]);
                assert(g[k] == p[k]);
            } else {
                assert(cur[c] == group_collision(name, last));
                assert(g[g.len() - 1] == last);
            }
        }
        assert forall|k: int| 0 <= k < g.len() && (#[trigger] g[k]).1.len() > 1 implies cur.contains(
            group_collision(name, g[k]),
        ) by {
            if k < p.len() {
                assert(g[k] == p[k]);
                assert(prev.contains(group_collision(name, p[k])));
                let c = choose|c: int| 0 <= c < prev.len() && prev[c] == group_collision(name, p[k]);
                assert(cur[c] == prev[c]);
            } else {
                assert(cur[prev.len() as int] == group_collision(name, last));
            }
        }
        if forall|j: int, k: int| 0 <= j < k < g.len() ==> (#[trigger] g[j]).0 != (#[trigger] g[k]).0 {
            assert forall|j: int, k: int| 0 <= j < k < p.len() implies (#[trigger] p[j]).0 != (
            #[trigger] p[k]).0 by {
                assert(p[j] == g[j] && p[k] == g[k]);
            }
            assert forall|a: int, b: int| 0 <= a < b < cur.len() implies (#[trigger] cur[a]).value
                != (#[trigger] cur[b]).value by {
                if b < prev.len() {
                    assert(cur[a] == prev[a] && cur[b] == prev[b]);
                } else {
                    assert(cur[a] == prev[a]);
                    assert(from_group(name, p, prev[a]));
                    let k = choose|k: int|
                        0 <= k < p.len() && (#[trigger] p[k]).1.len() > 1 && prev[a]
                            == group_collision(name, p[k]);
                    assert(g[k] == p[k]);
                    assert(g[k].0 != g[g.len() - 1].0);
                }
            }
        }
    }
}

proof fn lemma_with_value_one(vs: Seq<VariantView>, x: int, i: int)
    requires
        0 <= i < vs.len(),
        vs[i].2 == Some(x),
    ensures
        with_value(vs, x).len() >= 1,
    decreases vs.len(),
{
    if i < vs.len() - 1 {
        assert(vs.drop_last()[i] == vs[i]);
        lemma_with_value_one(vs.drop_last(), x, i);
    }
}

proof fn lemma_with_value_two(vs: Seq<VariantView>, x: int, i: int, j: int)
    requires
        0 <= i < j < vs.len(),
        vs[i].2 == Some(x),
        vs[j].2 == Some(x),
    ensures
        with_value(vs, x).len() >= 2,
    decreases vs.len(),
{
    let p = vs.drop_last();
    assert(p[i] == vs[i]);
    if j < vs.len() - 1 {
        assert(p[j] == vs[j]);
        lemma_with_value_two(p, x, i, j);
    } else {
        lemma_with_value_one(p, x, i);
    }
}

proof fn lemma_with_value_pair(vs: Seq<VariantView>, x: int)
    requires
        with_value(vs, x).len() >= 2,
    ensures
        exists|i: int, j: int|
            0 <= i < j < vs.len() && (#[trigger] vs[i]).2 == Some(x) && (#[trigger] vs[j]).2 == Some(x),
    decreases vs.len(),
{
    let p = vs.drop_last();
    if vs.last().2 == Some(x) {
        assert(with_value(p, x).len() >= 1);
        lemma_with_value_member(p, x);
        let i = choose|i: int| 0 <= i < p.len() && (#[trigger] p[i]).2 == Some(x);
        assert(vs[i] == p[i]);
        assert(vs[vs.len() - 1].2 == Some(x));
    } else {
        assert(with_value(vs, x) =~= with_value(p, x));
        lemma_with_value_pair(p, x);
        let (i, j) = choose|i: int, j: int|
            0 <= i < j < p.len() && (#[trigger] p[i]).2 == Some(x) && (#[trigger] p[j]).2 == Some(x);
        assert(vs[i] == p[i] && vs[j] == p[j]);
    }
}

proof fn lemma_with_value_member(vs: Seq<VariantView>, x: int)
    requires
        with_value(vs, x).len() >= 1,
    ensures
        exists|i: int| 0 <= i < vs.len() && (#[trigger] vs[i]).2 == Some(x),
    decreases vs.len(),
{
    let p = vs.drop_last();
    if vs.last().2 == Some(x) {
        assert(vs[vs.len() - 1].2 == Some(x));
    } else {
        assert(with_value(vs, x) =~= with_value(p, x));
        lemma_with_value_member(p, x);
        let i = choose|i: int| 0 <= i < p.len() && (#[trigger] p[i]).2 == Some(x);
        assert(vs[i] == p[i]);
    }
}

/// Each collision reported for an enum names exactly its variants that
/// resolve to the shared value, in declaration order with their lines, and
/// there are at least two of them.
pub proof fn law_collision_is_every_variant_with_its_value(
    enum_name: Seq<char>,
    vs: Seq<VariantView>,
    c: int,
)
    requires
        0 <= c < spec_collisions(enum_name, vs).len(),
    ensures
        ({
            let found = spec_collisions(enum_name, vs)[c];
            &&& found.enum_name == enum_name
            &&& found.variants == with_value(vs, found.value).map_values(|v: VariantView| v.0)
            &&& found.lines == with_value(vs, found.value).map_values(|v: VariantView| v.1)
            &&& with_value(vs, found.value).len() >= 2
        }),
{
    let g = value_groups(vs);
    lemma_value_groups(vs);
    lemma_to_collisions(enum_name, g);
    assert(from_group(enum_name, g, spec_collisions(enum_name, vs)[c]));
    let k = choose|k: int|
        0 <= k < g.len() && (#[trigger] g[k]).1.len() > 1 && spec_collisions(enum_name, vs)[c]
            == group_collision(enum_name, g[k]);
    assert(g[k].1 == with_value(vs, g[k].0));
}

/// Every value that two variants of an enum share is reported as a collision
/// of that enum.
pub proof fn law_every_shared_value_is_reported(
    enum_name: Seq<char>,
    vs: Seq<VariantView>,
    i: int,
    j: int,
    x: int,
)
    requires
        0 <= i < j < vs.len(),
        vs[i].2 == Some(x),
        vs[j].2 == Some(x),
    ensures
        exists|c: int|
            0 <= c < spec_collisions(enum_name, vs).len() && (#[trigger] spec_collisions(
                enum_name,
                vs,
            )[c]).value == x,
{
    let g = value_groups(vs);
    lemma_value_groups(vs);
    lemma_to_collisions(enum_name, g);
    lemma_with_value_two(vs, x, i, j);
    let k = choose|k: int| 0 <= k < g.len() && (#[trigger] g[k]).0 == x;
    assert(g[k].1 == with_value(vs, x));
    assert(spec_collisions(enum_name, vs).contains(group_collision(enum_name, g[k])));
    let c = choose|c: int|
        0 <= c < spec_collisions(enum_name, vs).len() && spec_collisions(enum_name, vs)[c]
            == group_collision(enum_name, g[k]);
    assert(spec_collisions(enum_name, vs)[c].value == x);
}

/// The collisions reported for one enum are for distinct values.
pub proof fn law_collision_values_are_distinct(enum_name: Seq<char>, vs: Seq<VariantView>, a: int, b: int)
    requires
        0 <= a < b < spec_collisions(enum_name, vs).len(),
    ensures
        spec_collisions(enum_name, vs)[a].value != spec_collisions(enum_name, vs)[b].value,
{
    lemma_value_groups(vs);
    lemma_to_collisions(enum_name, value_groups(vs));
}

/// Whether two variants of `vs` resolve to the same known value.
pub open spec fn has_shared_value(vs: Seq<VariantView>) -> bool {
    exists|i: int, j: int|
        0 <= i < j < vs.len() && (#[trigger] vs[i]).2 is Some && vs[i].2 == (#[trigger] vs[j]).2
}

/// An enum gets no collision exactly when no two of its variants resolve to
/// the same known value.
pub proof fn law_no_collision_iff_values_distinct(enum_name: Seq<char>, vs: Seq<VariantView>)
    ensures
        spec_collisions(enum_name, vs).len() == 0 <==> !has_shared_value(vs),
{
    if has_shared_value(vs) {
        let (i, j) = choose|i: int, j: int|
            0 <= i < j < vs.len() && (#[trigger] vs[i]).2 is Some && vs[i].2 == (#[trigger] vs[j]).2;
        law_every_shared_value_is_reported(enum_name, vs, i, j, vs[i].2.unwrap());
    }
    if spec_collisions(enum_name, vs).len() > 0 {
        law_collision_is_every_variant_with_its_value(enum_name, vs, 0);
        let x = spec_collisions(enum_name, vs)[0].value;
        lemma_with_value_pair(vs, x);
        let (i, j) = choose|i: int, j: int|
            0 <= i < j < vs.len() && (#[trigger] vs[i]).2 == Some(x) && (#[trigger] vs[j]).2 == Some(x);
        assert(vs[i].2 is Some && vs[i].2 == vs[j].2);
    }
}

proof fn lemma_collisions_of_all_empty(decls: Seq<DeclView>)
    ensures
        collisions_of_all(decls).len() == 0 <==> forall|d: int|
            0 <= d < decls.len() ==> spec_collisions((#[trigger] decls[d]).0, decls[d].1).len() == 0,
    decreases decls.len(),
{
    if decls.len() > 0 {
        let p = decls.drop_last();
        lemma_collisions_of_all_empty(p);
        let last = decls[decls.len() - 1];
        assert(collisions_of_all(decls) == collisions_of_all(p) + spec_collisions(last.0, last.1));
        if forall|d: int|
            0 <= d < decls.len() ==> spec_collisions((#[trigger] decls[d]).0, decls[d].1).len() == 0 {
            assert forall|d: int| 0 <= d < p.len() implies spec_collisions(
                (#[trigger] p[d]).0,
                p[d].1,
            ).len() == 0 by {
                assert(p[d] == decls[d]);
            }
            assert(spec_collisions(last.0, last.1).len() == 0);
        }
        if collisions_of_all(decls).len() == 0 {
            assert forall|d: int| 0 <= d < decls.len() implies spec_collisions(
                (#[trigger] decls[d]).0,
                decls[d].1,
            ).len() == 0 by {
                if d < p.len() {
                    assert(p[d] == decls[d]);
                }
            }
        }
    }
}

/// A source gets no report exactly when no enum declared in it has two
/// variants resolving to the same known value. Values shared by variants of
/// two different enums are never a collision.
pub proof fn law_no_report_iff_every_enum_distinct(s: Seq<char>)
    ensures
        spec_analyze(s).len() == 0 <==> forall|d: int|
            0 <= d < all_declarations(s).len() ==> !has_shared_value(
                (#[trigger] all_declarations(s)[d]).1,
            ),
{
    let decls = all_declarations(s);
    lemma_collisions_of_all_empty(decls);
    assert forall|d: int| 0 <= d < decls.len() implies (spec_collisions(
        (#[trigger] decls[d]).0,
        decls[d].1,
    ).len() == 0 <==> !has_shared_value(decls[d].1)) by {
        law_no_collision_iff_values_distinct(decls[d].0, decls[d].1);
    }
}

proof fn lemma_collisions_of_all_index(decls: Seq<DeclView>, d: int, c: int)
    requires
        0 <= d < decls.len(),
        0 <= c < spec_collisions(decls[d].0, decls[d].1).len(),
    ensures
        collisions_of_all(decls.take(d)).len() + c < collisions_of_all(decls).len(),
        collisions_of_all(decls)[collisions_of_all(decls.take(d)).len() + c] == spec_collisions(
            decls[d].0,
            decls[d].1,
        )[c],
    decreases decls.len(),
{
    let p = decls.drop_last();
    let last = decls[decls.len() - 1];
    assert(collisions_of_all(decls) == collisions_of_all(p) + spec_collisions(last.0, last.1));
    if d == decls.len() - 1 {
        assert(decls.take(d) =~= p);
    } else {
        assert(p[d] == decls[d]);
        lemma_collisions_of_all_index(p, d, c);
        assert(p.take(d) =~= decls.take(d));
    }
}

proof fn lemma_collisions_of_all_source(decls: Seq<DeclView>, e: int)
    requires
        0 <= e < collisions_of_all(decls).len(),
    ensures
        exists|d: int, c: int|
            0 <= d < decls.len() && 0 <= c < spec_collisions(decls[d].0, decls[d].1).len()
                && collisions_of_all(decls)[e] == #[trigger] spec_collisions(decls[d].0, decls[d].1)[c],
    decreases decls.len(),
{
    let p = decls.drop_last();
    let last = decls[decls.len() - 1];
    assert(collisions_of_all(decls) == collisions_of_all(p) + spec_collisions(last.0, last.1));
    if e < collisions_of_all(p).len() {
        lemma_collisions_of_all_source(p, e);
        let (d, c) = choose|d: int, c: int|
            0 <= d < p.len() && 0 <= c < spec_collisions(p[d].0, p[d].1).len()
                && collisions_of_all(p)[e] == #[trigger] spec_collisions(p[d].0, p[d].1)[c];
        assert(p[d] == decls[d]);
    } else {
        let c = e - collisions_of_all(p).len();
        assert(collisions_of_all(decls)[e] == spec_collisions(last.0, last.1)[c]);
        assert(decls[decls.len() - 1] == last);
    }
}

/// Every value that two variants of one declared enum share is reported, for
/// that enum, whatever the other enums of the source hold: the collision names
/// the enum, the value, and every variant resolving to it.
pub proof fn law_every_enum_collision_is_reported(s: Seq<char>, d: int, i: int, j: int, x: int)
    requires
        0 <= d < all_declarations(s).len(),
        0 <= i < j < all_declarations(s)[d].1.len(),
        all_declarations(s)[d].1[i].2 == Some(x),
        all_declarations(s)[d].1[j].2 == Some(x),
    ensures
        exists|c: int|
            0 <= c < spec_analyze(s).len() && (#[trigger] spec_analyze(s)[c]).enum_name
                == all_declarations(s)[d].0 && spec_analyze(s)[c].value == x
                && spec_analyze(s)[c].variants == with_value(all_declarations(s)[d].1, x).map_values(
                |v: VariantView| v.0,
            ),
{
    let decls = all_declarations(s);
    let (name, vs) = decls[d];
    law_every_shared_value_is_reported(name, vs, i, j, x);
    let c = choose|c: int|
        0 <= c < spec_collisions(name, vs).len() && (#[trigger] spec_collisions(name, vs)[c]).value
            == x;
    law_collision_is_every_variant_with_its_value(name, vs, c);
    lemma_collisions_of_all_index(decls, d, c);
    let e = collisions_of_all(decls.take(d)).len() + c;
    assert(spec_analyze(s)[e] == spec_collisions(name, vs)[c]);
}

/// Every reported collision belongs to one declared enum: it carries that
/// enum's name and exactly its variants resolving to the reported value, at
/// least two of them.
pub proof fn law_each_report_belongs_to_an_enum(s: Seq<char>, e: int)
    requires
        0 <= e < spec_analyze(s).len(),
    ensures
        exists|d: int|
            0 <= d < all_declarations(s).len() && spec_analyze(s)[e].enum_name == (
            #[trigger] all_declarations(s)[d]).0 && spec_analyze(s)[e].variants == with_value(
                all_declarations(s)[d].1,
                spec_analyze(s)[e].value,
            ).map_values(|v: VariantView| v.0) && with_value(
                all_declarations(s)[d].1,
                spec_analyze(s)[e].value,
            ).len() >= 2,
{
    let decls = all_declarations(s);
    lemma_collisions_of_all_source(decls, e);
    let (d, c) = choose|d: int, c: int|
        0 <= d < decls.len() && 0 <= c < spec_collisions(decls[d].0, decls[d].1).len()
            && collisions_of_all(decls)[e] == #[trigger] spec_collisions(decls[d].0, decls[d].1)[c];
    law_collision_is_every_variant_with_its_value(decls[d].0, decls[d].1, c);
}

/// The report lists the enums in declaration order: the collisions of an
/// earlier enum come before those of a later one.
pub proof fn law_reports_follow_declaration_order(s: Seq<char>, d1: int, c1: int, d2: int, c2: int)
    requires
        0 <= d1 < d2 < all_declarations(s).len(),
        0 <= c1 < spec_collisions(all_declarations(s)[d1].0, all_declarations(s)[d1].1).len(),
        0 <= c2 < spec_collisions(all_declarations(s)[d2].0, all_declarations(s)[d2].1).len(),
    ensures
        exists|e1: int, e2: int|
            0 <= e1 < e2 < spec_analyze(s).len() && spec_analyze(s)[e1] == spec_collisions(
                all_declarations(s)[d1].0,
                all_declarations(s)[d1].1,
            )[c1] && spec_analyze(s)[e2] == spec_collisions(
                all_declarations(s)[d2].0,
                all_declarations(s)[d2].1,
            )[c2],
{
    let decls = all_declarations(s);
    lemma_collisions_of_all_index(decls, d1, c1);
    lemma_collisions_of_all_index(decls, d2, c2);
    lemma_collisions_of_all_index(decls.take(d2), d1, c1);
    assert(decls.take(d2).take(d1) =~= decls.take(d1));
    assert(decls.take(d2)[d1] == decls[d1]);
    let e1 = collisions_of_all(decls.take(d1)).len() + c1;
    let e2 = collisions_of_all(decls.take(d2)).len() + c2;
    assert(spec_analyze(s)[e1] == spec_collisions(decls[d1].0, decls[d1].1)[c1]);
    assert(spec_analyze(s)[e2] == spec_collisions(decls[d2].0, decls[d2].1)[c2]);
}

} // verus!
