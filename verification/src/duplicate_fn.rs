//! Detects functions defined more than once within a single block.
//!
//! The input is treated as text rather than parsed, because the files this
//! check exists for frequently do not compile. Definitions are attributed to
//! their enclosing block rather than to their brace depth, so the same method
//! name appearing in two different `impl` blocks is not reported.
use vstd::prelude::*;
use crate::lex::{
    agree_from, lemma_newline_count_agree, lemma_scans_agree, lemma_string_scan_update,
    plain_in_string, lemma_line_end, lemma_nested_comment_scan, lemma_quote_end, lemma_raw_string_scan,
    lemma_string_scan, line_end, nested_comment_scan, quote_end, raw_string_scan, skip_block_comment,
    skip_line_comment, skip_quote, skip_raw_string, skip_string, string_scan, quote_line, newline_count,
};
use crate::text::{
    lemma_words_agree, is_ident_start, is_whitespace, lemma_ident_end, lemma_ws_end, read_ident, source_chars,
    spec_is_ident_start, string_from_chars, word_end, word_is, ws_end,
};

verus! {

/// A function name defined more than once within one block.
#[derive(Debug, Clone, PartialEq, Eq)]
pub struct Duplicate {
    /// The repeated function name.
    pub name: String,
    /// Lines on which each definition appears, counting from one.
    pub lines: Vec<usize>,
}

/// What a duplicate says, as plain values.
pub struct DuplicateView {
    pub name: Seq<char>,
    pub lines: Seq<int>,
}

impl View for Duplicate {
    type V = DuplicateView;

    open spec fn view(&self) -> DuplicateView {
        DuplicateView { name: self.name@, lines: self.lines@.map_values(|l: usize| l as int) }
    }
}

pub open spec fn duplicates_view(v: Seq<Duplicate>) -> Seq<DuplicateView> {
    v.map_values(|d: Duplicate| d@)
}

/// A definition as plain values: the block it stands in, its name, its line.
pub type DefView = (int, Seq<char>, int);

/// A single function definition and the block that encloses it.
struct Definition {
    scope: usize,
    name: Vec<char>,
    line: usize,
}

impl View for Definition {
    type V = DefView;

    closed spec fn view(&self) -> DefView {
        (self.scope as int, self.name@, self.line as int)
    }
}

spec fn defs_view(v: Seq<Definition>) -> Seq<DefView> {
    v.map_values(|d: Definition| d@)
}

/// The keyword that introduces a function.
pub open spec fn fn_keyword() -> Seq<char> {
    seq!['f', 'n']
}

/// The block a definition met now belongs to: the innermost open one.
pub open spec fn current_scope(scopes: Seq<int>) -> int {
    if scopes.len() > 0 {
        scopes.last()
    } else {
        0
    }
}

/// The function definitions met by scanning from `i` on line `line`, with
/// `scopes` the blocks open there (innermost last) and `next` the number the
/// next block opened will get. Comments and literals are stepped over whole.
pub open spec fn definitions_from(
    s: Seq<char>,
    i: int,
    line: int,
    scopes: Seq<int>,
    next: int,
) -> Seq<DefView>
    decreases s.len() - i,
{
    if i < 0 || i >= s.len() {
        seq![]
    } else {
        let c = s[i];
        if c == '\n' {
            definitions_from(s, i + 1, line + 1, scopes, next)
        } else if c == '/' && i + 1 < s.len() && s[i + 1] == '/' {
            proof {
                lemma_line_end(s, i + 1);
            }
            definitions_from(s, line_end(s, i), line, scopes, next)
        } else if c == '/' && i + 1 < s.len() && s[i + 1] == '*' {
            proof {
                lemma_nested_comment_scan(s, i + 2, 1, line);
            }
            let (j, l) = nested_comment_scan(s, i + 2, 1, line);
            definitions_from(s, j, l, scopes, next)
        } else if c == 'r' && i + 1 < s.len() && (s[i + 1] == '"' || s[i + 1] == '#')
            && raw_string_scan(s, i, line) is Some {
            proof {
                lemma_raw_string_scan(s, i, line);
            }
            let (j, l) = raw_string_scan(s, i, line).unwrap();
            definitions_from(s, j, l, scopes, next)
        } else if c == '"' {
            proof {
                lemma_string_scan(s, i + 1, line);
            }
            let (j, l) = string_scan(s, i + 1, line);
            definitions_from(s, j, l, scopes, next)
        } else if c == '\'' {
            proof {
                lemma_quote_end(s, i, line);
            }
            definitions_from(s, quote_end(s, i), quote_line(s, i, line), scopes, next)
        } else if c == '{' {
            definitions_from(s, i + 1, line, scopes.push(next), next + 1)
        } else if c == '}' {
            let popped = if scopes.len() > 1 {
                scopes.drop_last()
            } else {
                scopes
            };
            definitions_from(s, i + 1, line, popped, next)
        } else if spec_is_ident_start(c) {
            proof {
                lemma_ident_end(s, i + 1);
            }
            let k = word_end(s, i);
            if s.subrange(i, k) != fn_keyword() {
                definitions_from(s, k, line, scopes, next)
            } else {
                proof {
                    lemma_ws_end(s, k);
                }
                let j = ws_end(s, k);
                let after_line = line + newline_count(s, k, j);
                if j < s.len() && spec_is_ident_start(s[j]) {
                    proof {
                        lemma_ident_end(s, j + 1);
                    }
                    let e = word_end(s, j);
                    seq![(current_scope(scopes), s.subrange(j, e), line)] + definitions_from(
                        s,
                        e,
                        after_line,
                        scopes,
                        next,
                    )
                } else {
                    definitions_from(s, j, after_line, scopes, next)
                }
            }
        } else {
            definitions_from(s, i + 1, line, scopes, next)
        }
    }
}

/// Every function definition in `s`, in order. The whole file is block `0`.
pub open spec fn all_definitions(s: Seq<char>) -> Seq<DefView> {
    definitions_from(s, 0, 1, seq![0], 1)
}

/// Two definitions in the same block under the same name.
pub open spec fn same_key(a: DefView, b: DefView) -> bool {
    a.0 == b.0 && a.1 == b.1
}

/// The lines, in order, of the definitions in `defs` with the key of `d`.
pub open spec fn lines_of(defs: Seq<DefView>, d: DefView) -> Seq<int>
    decreases defs.len(),
{
    if defs.len() == 0 {
        seq![]
    } else {
        lines_of(defs.drop_last(), d) + if same_key(defs.last(), d) {
            seq![defs.last().2]
        } else {
            seq![]
        }
    }
}

/// No definition before index `k` has the key of the one at `k`.
pub open spec fn first_of_key(defs: Seq<DefView>, k: int) -> bool {
    forall|j: int| 0 <= j < k ==> !same_key(#[trigger] defs[j], defs[k])
}

/// The duplicates among the first `n` definitions of `defs`, one per key, in
/// the order each key first appears, each with every line of that key in `defs`.
pub open spec fn duplicate_groups(defs: Seq<DefView>, n: int) -> Seq<DuplicateView>
    decreases n,
{
    if n <= 0 {
        seq![]
    } else {
        let d = defs[n - 1];
        duplicate_groups(defs, n - 1) + if first_of_key(defs, n - 1) && lines_of(defs, d).len()
            > 1 {
            seq![DuplicateView { name: d.1, lines: lines_of(defs, d) }]
        } else {
            seq![]
        }
    }
}

/// What `analyze` reports for `s`.
pub open spec fn spec_analyze(s: Seq<char>) -> Seq<DuplicateView> {
    duplicate_groups(all_definitions(s), all_definitions(s).len() as int)
}

/// Walks the source and records every function definition it finds.
fn collect_definitions(chars: &Vec<char>) -> (found: Vec<Definition>)
    requires
        chars.len() < usize::MAX,
    ensures
        defs_view(found@) == all_definitions(chars@),
{
    let len = chars.len();
    let fn_kw: Vec<char> = vec!['f', 'n'];

    let mut definitions: Vec<Definition> = Vec::new();
    let mut scopes: Vec<usize> = vec![0];
    let mut next_scope = 1usize;
    let mut line = 1usize;
    let mut i = 0usize;
    let ghost s = chars@;

    proof {
        assert(scopes@.map_values(|x: usize| x as int) =~= seq![0int]);
        assert(defs_view(definitions@) =~= seq![]);
    }

    while i < len
        invariant
            len == chars.len(),
            s == chars@,
            fn_kw@ == fn_keyword(),
            len < usize::MAX,
            i <= len,
            1 <= line <= i + 1,
            1 <= next_scope <= i + 1,
            scopes.len() >= 1,
            all_definitions(s) == defs_view(definitions@) + definitions_from(
                s,
                i as int,
                line as int,
                scopes@.map_values(|x: usize| x as int),
                next_scope as int,
            ),
        decreases len - i,
    {
        let c = chars[i];
        let ghost sc = scopes@.map_values(|x: usize| x as int);

        if c == '\n' {
            line += 1;
            i += 1;
            continue;
        }

        if c == '/' && i + 1 < len && chars[i + 1] == '/' {
            i = skip_line_comment(chars, i);
            continue;
        }

        if c == '/' && i + 1 < len && chars[i + 1] == '*' {
            proof {
                lemma_nested_comment_scan(chars@, i + 2, 1, line as int);
            }
            i = skip_block_comment(chars, i, &mut line);
            continue;
        }

        if c == 'r' && i + 1 < len && (chars[i + 1] == '"' || chars[i + 1] == '#') {
            let ghost line0 = line as int;
            proof {
                lemma_raw_string_scan(chars@, i as int, line as int);
            }
            if let Some(next) = skip_raw_string(chars, i, &mut line) {
                assert(raw_string_scan(s, i as int, line0) == Some((next as int, line as int)));
                i = next;
                continue;
            }
        }

        if c == '"' {
            proof {
                lemma_string_scan(chars@, i + 1, line as int);
            }
            i = skip_string(chars, i, &mut line);
            continue;
        }

        if c == '\'' {
            proof {
                lemma_quote_end(chars@, i as int, line as int);
            }
            i = skip_quote(chars, i, &mut line);
            continue;
        }

        if c == '{' {
            scopes.push(next_scope);
            proof {
                assert(scopes@.map_values(|x: usize| x as int) =~= sc.push(next_scope as int));
            }
            next_scope += 1;
            i += 1;
            continue;
        }

        if c == '}' {
            if scopes.len() > 1 {
                scopes.pop();
                proof {
                    assert(scopes@.map_values(|x: usize| x as int) =~= sc.drop_last());
                }
            }
            i += 1;
            continue;
        }

        if is_ident_start(c) {
            let (word, after_word) = read_ident(chars, i);
            i = after_word;

            if !word_is(&word, &fn_kw) {
                continue;
            }

            let fn_line = line;
            let mut j = i;
            let mut newlines = 0usize;
            proof {
                lemma_ws_end(s, i as int);
            }
            while j < len && is_whitespace(chars[j])
                invariant
                    after_word <= j <= len,
                    len == chars.len(),
                    s == chars@,
                    i == after_word,
                    newlines == newline_count(s, i as int, j as int),
                    newlines <= j - i,
                    ws_end(s, j as int) == ws_end(s, i as int),
                decreases len - j,
            {
                if chars[j] == '\n' {
                    newlines += 1;
                }
                j += 1;
            }
            line += newlines;
            i = j;

            if i < len && is_ident_start(chars[i]) {
                let (name, after_name) = read_ident(chars, i);
                let scope = if scopes.len() > 0 {
                    scopes[scopes.len() - 1]
                } else {
                    0
                };
                let ghost before = definitions@;
                definitions.push(Definition { scope, name, line: fn_line });
                proof {
                    assert(defs_view(definitions@) =~= defs_view(before).push(
                        (current_scope(sc), s.subrange(i as int, after_name as int), fn_line as int),
                    ));
                }
                i = after_name;
            }

            continue;
        }

        i += 1;
    }

    proof {
        assert(defs_view(definitions@) + definitions_from(
            s,
            i as int,
            line as int,
            scopes@.map_values(|x: usize| x as int),
            next_scope as int,
        ) =~= defs_view(definitions@));
    }
    definitions
}

} // verus!

verus! {

/// Whether the keys in `handled` include `(scope, name)`.
spec fn key_in(handled: Seq<(usize, Vec<char>)>, scope: int, name: Seq<char>) -> bool {
    exists|h: int| 0 <= h < handled.len() && (#[trigger] handled[h]).0 == scope && handled[h].1@ == name
}

/// Whether one of the first `n` definitions has the key `(scope, name)`.
spec fn key_seen(defs: Seq<DefView>, n: int, scope: int, name: Seq<char>) -> bool {
    exists|j: int| 0 <= j < n && (#[trigger] defs[j]).0 == scope && defs[j].1 == name
}

/// `handled` holds exactly the keys of the first `n` definitions.
#[verifier::opaque]
spec fn handled_inv(handled: Seq<(usize, Vec<char>)>, defs: Seq<DefView>, n: int) -> bool {
    &&& forall|sc: int, nm: Seq<char>| #[trigger] key_in(handled, sc, nm) ==> key_seen(defs, n, sc, nm)
    &&& forall|j: int| 0 <= j < n ==> key_in(handled, (#[trigger] defs[j]).0, defs[j].1)
}

proof fn lemma_handled_seen(handled: Seq<(usize, Vec<char>)>, defs: Seq<DefView>, n: int)
    requires
        0 <= n < defs.len(),
        handled_inv(handled, defs, n),
        key_in(handled, defs[n].0, defs[n].1),
    ensures
        handled_inv(handled, defs, n + 1),
        !first_of_key(defs, n),
{
    reveal(handled_inv);
    assert(key_seen(defs, n, defs[n].0, defs[n].1));
    let j = choose|j: int| 0 <= j < n && (#[trigger] defs[j]).0 == defs[n].0 && defs[j].1 == defs[n].1;
    assert(same_key(defs[j], defs[n]));
    assert forall|sc: int, nm: Seq<char>| #[trigger] key_in(handled, sc, nm) implies key_seen(
        defs,
        n + 1,
        sc,
        nm,
    ) by {
        assert(key_seen(defs, n, sc, nm));
        let k = choose|k: int| 0 <= k < n && (#[trigger] defs[k]).0 == sc && defs[k].1 == nm;
        assert(defs[k].0 == sc && 0 <= k < n + 1);
    }
}

proof fn lemma_handled_new(
    handled: Seq<(usize, Vec<char>)>,
    defs: Seq<DefView>,
    n: int,
    entry: (usize, Vec<char>),
)
    requires
        0 <= n < defs.len(),
        handled_inv(handled, defs, n),
        !key_in(handled, defs[n].0, defs[n].1),
        entry.0 == defs[n].0,
        entry.1@ == defs[n].1,
    ensures
        handled_inv(handled.push(entry), defs, n + 1),
        first_of_key(defs, n),
{
    reveal(handled_inv);
    let pushed = handled.push(entry);
    assert forall|j: int| 0 <= j < n implies !same_key(#[trigger] defs[j], defs[n]) by {
        if same_key(defs[j], defs[n]) {
            assert(key_in(handled, defs[j].0, defs[j].1));
        }
    }
    assert forall|sc: int, nm: Seq<char>| #[trigger] key_in(pushed, sc, nm) implies key_seen(
        defs,
        n + 1,
        sc,
        nm,
    ) by {
        let h = choose|h: int| 0 <= h < pushed.len() && (#[trigger] pushed[h]).0 == sc && pushed[h].1@ == nm;
        if h < handled.len() {
            assert(pushed[h] == handled[h]);
            assert(key_in(handled, sc, nm));
            assert(key_seen(defs, n, sc, nm));
            let k = choose|k: int| 0 <= k < n && (#[trigger] defs[k]).0 == sc && defs[k].1 == nm;
            assert(defs[k].0 == sc && 0 <= k < n + 1);
        } else {
            assert(defs[n].0 == sc && defs[n].1 == nm);
        }
    }
    assert forall|j: int| 0 <= j < n + 1 implies key_in(pushed, (#[trigger] defs[j]).0, defs[j].1) by {
        if j < n {
            assert(key_in(handled, defs[j].0, defs[j].1));
            let h = choose|h: int|
                0 <= h < handled.len() && (#[trigger] handled[h]).0 == defs[j].0 && handled[h].1@ == defs[j].1;
            assert(pushed[h] == handled[h]);
        } else {
            assert(pushed[handled.len() as int] == entry);
        }
    }
}

/// Whether `handled` already holds the key `(scope, name)`.
fn handled_contains(handled: &Vec<(usize, Vec<char>)>, scope: usize, name: &Vec<char>) -> (r: bool)
    ensures
        r == key_in(handled@, scope as int, name@),
{
    let mut h: usize = 0;
    while h < handled.len()
        invariant
            h <= handled.len(),
            forall|k: int|
                0 <= k < h ==> !((#[trigger] handled@[k]).0 == scope && handled@[k].1@ == name@),
        decreases handled.len() - h,
    {
        if handled[h].0 == scope && word_is(&handled[h].1, name) {
            return true;
        }
        h += 1;
    }
    false
}

/// The lines of the definitions in `definitions` with the key `(scope, name)`.
fn lines_for(definitions: &Vec<Definition>, scope: usize, name: &Vec<char>) -> (lines: Vec<usize>)
    ensures
        lines@.map_values(|l: usize| l as int) == lines_of(
            defs_view(definitions@),
            (scope as int, name@, 0),
        ),
{
    let ghost defs = defs_view(definitions@);
    let ghost key: DefView = (scope as int, name@, 0);
    let mut lines: Vec<usize> = Vec::new();
    let mut k: usize = 0;
    proof {
        assert(defs.take(0) =~= seq![]);
        assert(lines@.map_values(|l: usize| l as int) =~= seq![]);
    }
    while k < definitions.len()
        invariant
            k <= definitions.len(),
            defs == defs_view(definitions@),
            key == (scope as int, name@, 0int),
            lines@.map_values(|l: usize| l as int) == lines_of(defs.take(k as int), key),
        decreases definitions.len() - k,
    {
        let ghost before = lines@;
        assert(defs.take(k + 1).drop_last() =~= defs.take(k as int));
        if definitions[k].scope == scope && word_is(&definitions[k].name, name) {
            lines.push(definitions[k].line);
            assert(lines@.map_values(|l: usize| l as int) =~= before.map_values(
                |l: usize| l as int,
            ).push(definitions@[k as int].line as int));
        }
        k += 1;
    }
    assert(defs.take(definitions.len() as int) =~= defs);
    lines
}

/// Scans `source` and reports functions defined more than once in one block.
///
/// An empty vector means no block defines the same function twice.
pub fn analyze(source: &str) -> (duplicates: Vec<Duplicate>)
    requires
        source@.len() < usize::MAX,
    ensures
        duplicates_view(duplicates@) == spec_analyze(source@),
{
    let chars = source_chars(source);
    let definitions = collect_definitions(&chars);
    let ghost defs = defs_view(definitions@);

    let mut duplicates: Vec<Duplicate> = Vec::new();
    let mut handled: Vec<(usize, Vec<char>)> = Vec::new();
    let mut idx: usize = 0;

    proof {
        assert(duplicates_view(duplicates@) =~= seq![]);
    }

    proof {
        reveal(handled_inv);
    }

    while idx < definitions.len()
        invariant
            idx <= definitions.len(),
            defs == defs_view(definitions@),
            defs == all_definitions(source@),
            duplicates_view(duplicates@) == duplicate_groups(defs, idx as int),
            handled_inv(handled@, defs, idx as int),
        decreases definitions.len() - idx,
    {
        let definition = &definitions[idx];
        let ghost d = defs[idx as int];
        assert(d.0 == definition.scope && d.1 == definition.name@);

        if handled_contains(&handled, definition.scope, &definition.name) {
            proof {
                lemma_handled_seen(handled@, defs, idx as int);
                assert(duplicate_groups(defs, idx + 1) =~= duplicate_groups(defs, idx as int));
            }
            idx += 1;
            continue;
        }

        let entry = (definition.scope, definition.name.clone());
        proof {
            lemma_handled_new(handled@, defs, idx as int, entry);
            lemma_lines_of_key_only(defs, (definition.scope as int, definition.name@, 0int), d);
        }

        let lines = lines_for(&definitions, definition.scope, &definition.name);

        let ghost before = duplicates@;
        if lines.len() > 1 {
            let name = string_from_chars(&definition.name);
            duplicates.push(Duplicate { name, lines });
            proof {
                assert(duplicates_view(duplicates@) =~= duplicates_view(before).push(
                    DuplicateView { name: d.1, lines: lines_of(defs, d) },
                ));
            }
        }

        handled.push(entry);
        idx += 1;
    }

    proof {
        assert(defs.len() == idx);
    }
    duplicates
}

/// `lines_of` looks only at the block and the name of the key.
proof fn lemma_lines_of_key_only(defs: Seq<DefView>, a: DefView, b: DefView)
    requires
        a.0 == b.0,
        a.1 == b.1,
    ensures
        lines_of(defs, a) == lines_of(defs, b),
    decreases defs.len(),
{
    if defs.len() > 0 {
        lemma_lines_of_key_only(defs.drop_last(), a, b);
    }
}

} // verus!

verus! {

proof fn lemma_lines_of_none(defs: Seq<DefView>, d: DefView)
    requires
        forall|i: int| 0 <= i < defs.len() ==> !same_key(#[trigger] defs[i], d),
    ensures
        lines_of(defs, d).len() == 0,
    decreases defs.len(),
{
    if defs.len() > 0 {
        let prev = defs.drop_last();
        assert forall|i: int| 0 <= i < prev.len() implies !same_key(#[trigger] prev[i], d) by {
            assert(prev[i] == defs[i]);
        }
        lemma_lines_of_none(prev, d);
        assert(!same_key(defs[defs.len() - 1], d));
    }
}

proof fn lemma_lines_of_single(defs: Seq<DefView>, d: DefView, k: int)
    requires
        0 <= k < defs.len(),
        forall|i: int| 0 <= i < defs.len() && i != k ==> !same_key(#[trigger] defs[i], d),
    ensures
        lines_of(defs, d).len() <= 1,
    decreases defs.len(),
{
    let prev = defs.drop_last();
    if k == defs.len() - 1 {
        assert forall|i: int| 0 <= i < prev.len() implies !same_key(#[trigger] prev[i], d) by {
            assert(prev[i] == defs[i]);
        }
        lemma_lines_of_none(prev, d);
    } else {
        assert forall|i: int| 0 <= i < prev.len() && i != k implies !same_key(#[trigger] prev[i], d) by {
            assert(prev[i] == defs[i]);
        }
        lemma_lines_of_single(prev, d, k);
        assert(!same_key(defs[defs.len() - 1], d));
    }
}

proof fn lemma_lines_of_one(defs: Seq<DefView>, d: DefView, i: int)
    requires
        0 <= i < defs.len(),
        same_key(defs[i], d),
    ensures
        lines_of(defs, d).len() >= 1,
    decreases defs.len(),
{
    if i < defs.len() - 1 {
        assert(defs.drop_last()[i] == defs[i]);
        lemma_lines_of_one(defs.drop_last(), d, i);
    }
}

proof fn lemma_lines_of_two(defs: Seq<DefView>, d: DefView, i: int, j: int)
    requires
        0 <= i < j < defs.len(),
        same_key(defs[i], d),
        same_key(defs[j], d),
    ensures
        lines_of(defs, d).len() >= 2,
    decreases defs.len(),
{
    let prev = defs.drop_last();
    assert(prev[i] == defs[i]);
    if j < defs.len() - 1 {
        assert(prev[j] == defs[j]);
        lemma_lines_of_two(prev, d, i, j);
    } else {
        lemma_lines_of_one(prev, d, i);
    }
}

proof fn lemma_first_occurrence(defs: Seq<DefView>, i: int) -> (f: int)
    requires
        0 <= i < defs.len(),
    ensures
        0 <= f <= i,
        same_key(defs[f], defs[i]),
        first_of_key(defs, f),
    decreases i,
{
    if first_of_key(defs, i) {
        i
    } else {
        let j = choose|j: int| 0 <= j < i && same_key(#[trigger] defs[j], defs[i]);
        let f = lemma_first_occurrence(defs, j);
        assert forall|g: int| 0 <= g < f implies !same_key(#[trigger] defs[g], defs[f]) by {}
        f
    }
}

proof fn lemma_groups_reach(defs: Seq<DefView>, n: int, f: int)
    requires
        0 <= f < n <= defs.len(),
        first_of_key(defs, f),
        lines_of(defs, defs[f]).len() > 1,
    ensures
        duplicate_groups(defs, n).len() > 0,
    decreases n,
{
    if f < n - 1 {
        lemma_groups_reach(defs, n - 1, f);
    }
}

proof fn lemma_groups_empty(defs: Seq<DefView>, n: int)
    requires
        0 <= n <= defs.len(),
        forall|i: int, j: int| 0 <= i < j < defs.len() ==> !same_key(#[trigger] defs[i], #[trigger] defs[j]),
    ensures
        duplicate_groups(defs, n).len() == 0,
    decreases n,
{
    if n > 0 {
        lemma_groups_empty(defs, n - 1);
        let k = n - 1;
        assert forall|i: int| 0 <= i < defs.len() && i != k implies !same_key(#[trigger] defs[i], defs[k]) by {
            if i < k {
                assert(!same_key(defs[i], defs[k]));
            } else {
                assert(!same_key(defs[k], defs[i]));
            }
        }
        lemma_lines_of_single(defs, defs[k], k);
    }
}

/// An empty report means no block defines the same function twice, and a
/// source in which no block does so gets an empty report.
pub proof fn law_no_duplicates_iff_distinct(s: Seq<char>)
    ensures
        spec_analyze(s).len() == 0 <==> forall|i: int, j: int|
            0 <= i < j < all_definitions(s).len() ==> !same_key(
                #[trigger] all_definitions(s)[i],
                #[trigger] all_definitions(s)[j],
            ),
{
    let defs = all_definitions(s);
    if forall|i: int, j: int| 0 <= i < j < defs.len() ==> !same_key(#[trigger] defs[i], #[trigger] defs[j]) {
        lemma_groups_empty(defs, defs.len() as int);
    } else {
        let (i, j) = choose|i: int, j: int|
            0 <= i < j < defs.len() && same_key(#[trigger] defs[i], #[trigger] defs[j]);
        let f = lemma_first_occurrence(defs, i);
        lemma_lines_of_two(defs, defs[f], i, j);
        lemma_groups_reach(defs, defs.len() as int, f);
    }
}

/// Every reported duplicate names at least two definitions.
pub proof fn law_duplicates_have_two_lines(s: Seq<char>, k: int)
    requires
        0 <= k < spec_analyze(s).len(),
    ensures
        spec_analyze(s)[k].lines.len() >= 2,
{
    lemma_groups_lines(all_definitions(s), all_definitions(s).len() as int);
}

proof fn lemma_groups_lines(defs: Seq<DefView>, n: int)
    requires
        0 <= n <= defs.len(),
    ensures
        forall|k: int|
            0 <= k < duplicate_groups(defs, n).len() ==> (#[trigger] duplicate_groups(defs, n)[k]).lines.len()
                >= 2,
    decreases n,
{
    if n > 0 {
        lemma_groups_lines(defs, n - 1);
        let prev = duplicate_groups(defs, n - 1);
        let cur = duplicate_groups(defs, n);
        assert forall|k: int| 0 <= k < cur.len() implies (#[trigger] cur[k]).lines.len() >= 2 by {
            if k < prev.len() {
                assert(cur[k] == prev[k]);
            }
        }
    }
}

/// The entry the definitions with the key of `defs[f]` make.
pub open spec fn group_of(defs: Seq<DefView>, f: int) -> DuplicateView {
    DuplicateView { name: defs[f].1, lines: lines_of(defs, defs[f]) }
}

proof fn lemma_groups_members(defs: Seq<DefView>, n: int)
    requires
        0 <= n <= defs.len(),
    ensures
        forall|k: int|
            0 <= k < duplicate_groups(defs, n).len() ==> exists|f: int|
                0 <= f < n && first_of_key(defs, f) && lines_of(defs, defs[f]).len() > 1
                    && #[trigger] duplicate_groups(defs, n)[k] == group_of(defs, f),
        forall|f: int|
            0 <= f < n && first_of_key(defs, f) && lines_of(defs, defs[f]).len() > 1
                ==> duplicate_groups(defs, n).contains(#[trigger] group_of(defs, f)),
    decreases n,
{
    if n > 0 {
        lemma_groups_members(defs, n - 1);
        let prev = duplicate_groups(defs, n - 1);
        let cur = duplicate_groups(defs, n);
        assert forall|k: int| 0 <= k < cur.len() implies exists|f: int|
            0 <= f < n && first_of_key(defs, f) && lines_of(defs, defs[f]).len() > 1
                && #[trigger] cur[k] == group_of(defs, f) by {
            if k < prev.len() {
                assert(cur[k] == prev[k]);
            } else {
                assert(cur[k] == group_of(defs, n - 1));
            }
        }
        assert forall|f: int|
            0 <= f < n && first_of_key(defs, f) && lines_of(defs, defs[f]).len() > 1 implies cur.contains(
            #[trigger] group_of(defs, f),
        ) by {
            if f < n - 1 {
                assert(prev.contains(group_of(defs, f)));
                let k = choose|k: int| 0 <= k < prev.len() && prev[k] == group_of(defs, f);
                assert(cur[k] == prev[k]);
            } else {
                assert(cur[prev.len() as int] == group_of(defs, f));
            }
        }
    }
}

/// Each reported duplicate is one (block, name) key defined at least twice:
/// it carries that name and the lines of every definition with that key, in
/// order, and comes from the key's first definition.
pub proof fn law_duplicate_is_every_definition_of_its_key(s: Seq<char>, k: int)
    requires
        0 <= k < spec_analyze(s).len(),
    ensures
        exists|f: int|
            0 <= f < all_definitions(s).len() && first_of_key(all_definitions(s), f) && lines_of(
                all_definitions(s),
                all_definitions(s)[f],
            ).len() >= 2 && #[trigger] spec_analyze(s)[k] == group_of(all_definitions(s), f),
{
    let defs = all_definitions(s);
    lemma_groups_members(defs, defs.len() as int);
}

/// Every (block, name) key defined twice is reported, with the lines of all
/// its definitions.
pub proof fn law_every_repeated_definition_is_reported(s: Seq<char>, i: int, j: int)
    requires
        0 <= i < j < all_definitions(s).len(),
        same_key(all_definitions(s)[i], all_definitions(s)[j]),
    ensures
        exists|k: int|
            0 <= k < spec_analyze(s).len() && (#[trigger] spec_analyze(s)[k]).name
                == all_definitions(s)[i].1 && spec_analyze(s)[k].lines == lines_of(
                all_definitions(s),
                all_definitions(s)[i],
            ),
{
    let defs = all_definitions(s);
    let f = lemma_first_occurrence(defs, i);
    lemma_lines_of_key_only(defs, defs[f], defs[i]);
    lemma_lines_of_two(defs, defs[f], i, j);
    lemma_groups_members(defs, defs.len() as int);
    assert(spec_analyze(s).contains(group_of(defs, f)));
    let k = choose|k: int| 0 <= k < spec_analyze(s).len() && spec_analyze(s)[k] == group_of(defs, f);
    assert(spec_analyze(s)[k].name == defs[i].1);
}

/// The definitions met from `i` on depend only on the text from `i` on.
proof fn lemma_definitions_agree(
    s1: Seq<char>,
    s2: Seq<char>,
    p: int,
    i: int,
    line: int,
    scopes: Seq<int>,
    next: int,
)
    requires
        agree_from(s1, s2, p),
        p <= i,
    ensures
        definitions_from(s1, i, line, scopes, next) == definitions_from(s2, i, line, scopes, next),
    decreases s1.len() - i,
{
    if i < s1.len() {
        let c = s1[i];
        assert(s2[i] == c);
        if i + 1 < s1.len() {
            assert(s1[i + 1] == s2[i + 1]);
        }
        lemma_scans_agree(s1, s2, p, i, line);
        if c == '\n' {
            lemma_definitions_agree(s1, s2, p, i + 1, line + 1, scopes, next);
        } else if c == '/' && i + 1 < s1.len() && s1[i + 1] == '/' {
            lemma_line_end(s1, i + 1);
            lemma_definitions_agree(s1, s2, p, line_end(s1, i), line, scopes, next);
        } else if c == '/' && i + 1 < s1.len() && s1[i + 1] == '*' {
            lemma_nested_comment_scan(s1, i + 2, 1, line);
            let (j, l) = nested_comment_scan(s1, i + 2, 1, line);
            lemma_definitions_agree(s1, s2, p, j, l, scopes, next);
        } else if c == 'r' && i + 1 < s1.len() && (s1[i + 1] == '"' || s1[i + 1] == '#')
            && raw_string_scan(s1, i, line) is Some {
            lemma_raw_string_scan(s1, i, line);
            let (j, l) = raw_string_scan(s1, i, line).unwrap();
            lemma_definitions_agree(s1, s2, p, j, l, scopes, next);
        } else if c == '"' {
            lemma_string_scan(s1, i + 1, line);
            let (j, l) = string_scan(s1, i + 1, line);
            lemma_definitions_agree(s1, s2, p, j, l, scopes, next);
        } else if c == '\'' {
            lemma_quote_end(s1, i, line);
            lemma_definitions_agree(
                s1,
                s2,
                p,
                quote_end(s1, i),
                quote_line(s1, i, line),
                scopes,
                next,
            );
        } else if c == '{' {
            lemma_definitions_agree(s1, s2, p, i + 1, line, scopes.push(next), next + 1);
        } else if c == '}' {
            let popped = if scopes.len() > 1 {
                scopes.drop_last()
            } else {
                scopes
            };
            lemma_definitions_agree(s1, s2, p, i + 1, line, popped, next);
        } else if spec_is_ident_start(c) {
            lemma_ident_end(s1, i + 1);
            lemma_words_agree(s1, s2, p, i + 1);
            let k = word_end(s1, i);
            assert(s1.subrange(i, k) =~= s2.subrange(i, k));
            if s1.subrange(i, k) != fn_keyword() {
                lemma_definitions_agree(s1, s2, p, k, line, scopes, next);
            } else {
                lemma_ws_end(s1, k);
                lemma_words_agree(s1, s2, p, k);
                let j = ws_end(s1, k);
                lemma_newline_count_agree(s1, s2, p, k, j);
                let after_line = line + newline_count(s1, k, j);
                if j < s1.len() {
                    assert(s1[j] == s2[j]);
                }
                if j < s1.len() && spec_is_ident_start(s1[j]) {
                    lemma_ident_end(s1, j + 1);
                    lemma_words_agree(s1, s2, p, j + 1);
                    let e = word_end(s1, j);
                    assert(s1.subrange(j, e) =~= s2.subrange(j, e));
                    lemma_definitions_agree(s1, s2, p, e, after_line, scopes, next);
                } else {
                    lemma_definitions_agree(s1, s2, p, j, after_line, scopes, next);
                }
            }
        } else {
            lemma_definitions_agree(s1, s2, p, i + 1, line, scopes, next);
        }
    }
}

/// A char literal is stepped over whole: the definitions found from the
/// literal `'x'` at `i` on, with their blocks, are the same whatever single
/// character, other than a backslash or a line break, it holds; a `{` or `}`
/// in it opens or closes no block.
pub proof fn law_char_literal_opens_no_block(
    s: Seq<char>,
    i: int,
    line: int,
    scopes: Seq<int>,
    next: int,
    c: char,
)
    requires
        0 <= i,
        i + 2 < s.len(),
        s[i] == '\'',
        s[i + 2] == '\'',
        s[i + 1] != '\\' && s[i + 1] != '\n',
        c != '\\' && c != '\n',
    ensures
        definitions_from(s.update(i + 1, c), i, line, scopes, next) == definitions_from(
            s,
            i,
            line,
            scopes,
            next,
        ),
{
    let s2 = s.update(i + 1, c);
    assert(s2[i] == '\'' && s2[i + 1] == c && s2[i + 2] == '\'');
    assert(quote_end(s, i) == i + 3);
    assert(quote_end(s2, i) == i + 3);
    assert(newline_count(s, i + 1, i + 3) == 0) by {
        reveal_with_fuel(newline_count, 3);
    }
    assert(newline_count(s2, i + 1, i + 3) == 0) by {
        reveal_with_fuel(newline_count, 3);
    }
    assert(agree_from(s, s2, i + 2));
    lemma_definitions_agree(s, s2, i + 2, i + 3, line, scopes, next);
}

/// A string literal is stepped over whole: replacing any plain character of
/// the string that starts at `i` by another plain character changes none of
/// the definitions found from `i` on, nor their blocks.
pub proof fn law_string_opens_no_block(
    s: Seq<char>,
    i: int,
    line: int,
    scopes: Seq<int>,
    next: int,
    k: int,
    c: char,
)
    requires
        0 <= i < s.len(),
        s[i] == '"',
        i < k < string_scan(s, i + 1, line).0,
        plain_in_string(s[k]),
        plain_in_string(c),
    ensures
        definitions_from(s.update(k, c), i, line, scopes, next) == definitions_from(
            s,
            i,
            line,
            scopes,
            next,
        ),
{
    let s2 = s.update(k, c);
    lemma_string_scan(s, i + 1, line);
    lemma_string_scan_update(s, i + 1, line, k, c);
    assert(s2[i] == s[i]);
    let (j, l) = string_scan(s, i + 1, line);
    assert(agree_from(s, s2, k + 1));
    lemma_definitions_agree(s, s2, k + 1, j, l, scopes, next);
}

} // verus!
