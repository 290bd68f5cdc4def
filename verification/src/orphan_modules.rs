//! Detects source files that no module declaration references.
//!
//! Rust only compiles a file if some module declares it. A test file added to
//! a directory but never added to `mod.rs` is never compiled and never run,
//! and the suite still passes. This check compares the declarations in one
//! file against the files present alongside it.
//!
//! The declarations are scanned as text rather than parsed, so the check works
//! on a crate that does not currently compile.
use vstd::prelude::*;
use crate::lex::{
    agree_from, lemma_scans_agree, lemma_string_scan_update, plain_in_string,
    embeds, lemma_hash_run_end_before, lemma_hash_run_end_embed, lemma_line_end_embed,
    lemma_nested_comment_scan_embed, lemma_quote_stop_before, lemma_quote_stop_embed,
    lemma_raw_body_scan_embed, lemma_string_scan_embed, tail_of, hash_run_end,
    quote_stop, lemma_hash_run_end, lemma_raw_body_scan, lemma_quote_stop, lemma_line_end,
    lemma_nested_comment_scan, lemma_quote_end, lemma_raw_string_scan,
    lemma_string_scan, line_end, nested_comment_scan, quote_end, raw_string_scan, skip_block_comment,
    skip_line_comment, skip_quote, skip_raw_string, skip_string, string_scan,
};
use crate::text::{
    lemma_words_agree, lemma_ident_end_embed, lemma_ws_end_embed,
    is_ident_start, is_whitespace, lemma_ident_end, lemma_ws_end, read_ident, source_chars,
    spec_is_ident_start, string_from_chars, word_end, word_is, ws_end,
};

verus! {

broadcast use vstd::string::group_string_axioms;

/// A file that no module declaration references.
#[derive(Debug, Clone, PartialEq, Eq)]
pub struct Orphan {
    /// The file name as supplied, such as `funding_events.rs`.
    pub file: String,
    /// The module name that would declare it, such as `funding_events`.
    pub module: String,
}

/// The keyword that declares a module.
pub open spec fn mod_keyword() -> Seq<char> {
    seq!['m', 'o', 'd']
}

/// The module names declared by scanning from `i`. Comments and literals are
/// stepped over whole.
pub open spec fn modules_from(s: Seq<char>, i: int) -> Seq<Seq<char>>
    decreases s.len() - i,
{
    if i < 0 || i >= s.len() {
        seq![]
    } else {
        let c = s[i];
        if c == '/' && i + 1 < s.len() && s[i + 1] == '/' {
            proof {
                lemma_line_end(s, i + 1);
            }
            modules_from(s, line_end(s, i))
        } else if c == '/' && i + 1 < s.len() && s[i + 1] == '*' {
            proof {
                lemma_nested_comment_scan(s, i + 2, 1, 0);
            }
            modules_from(s, nested_comment_scan(s, i + 2, 1, 0).0)
        } else if c == 'r' && i + 1 < s.len() && (s[i + 1] == '"' || s[i + 1] == '#')
            && raw_string_scan(s, i, 0) is Some {
            proof {
                lemma_raw_string_scan(s, i, 0);
            }
            modules_from(s, raw_string_scan(s, i, 0).unwrap().0)
        } else if c == '"' {
            proof {
                lemma_string_scan(s, i + 1, 0);
            }
            modules_from(s, string_scan(s, i + 1, 0).0)
        } else if c == '\'' {
            proof {
                lemma_quote_end(s, i, 0);
            }
            modules_from(s, quote_end(s, i))
        } else if spec_is_ident_start(c) {
            proof {
                lemma_ident_end(s, i + 1);
            }
            let k = word_end(s, i);
            if s.subrange(i, k) != mod_keyword() {
                modules_from(s, k)
            } else {
                proof {
                    lemma_ws_end(s, k);
                }
                let j = ws_end(s, k);
                if j < s.len() && spec_is_ident_start(s[j]) {
                    proof {
                        lemma_ident_end(s, j + 1);
                    }
                    let e = word_end(s, j);
                    seq![s.subrange(j, e)] + modules_from(s, e)
                } else {
                    modules_from(s, j)
                }
            }
        } else {
            modules_from(s, i + 1)
        }
    }
}

/// The module names declared in `s`, in order.
pub open spec fn spec_declared_modules(s: Seq<char>) -> Seq<Seq<char>> {
    modules_from(s, 0)
}

/// The module a file named `file` would be declared as, if it needs
/// declaring: its name less `.rs`, unless that is empty, `mod`, `lib` or `main`.
pub open spec fn spec_module_name_of(file: Seq<char>) -> Option<Seq<char>> {
    if file.len() >= 3 && file.subrange(file.len() - 3, file.len() as int) == seq!['.', 'r', 's'] {
        let stem = file.subrange(0, file.len() - 3);
        if stem.len() == 0 || stem == mod_keyword() || stem == seq!['l', 'i', 'b'] || stem == seq![
            'm',
            'a',
            'i',
            'n',
        ] {
            None
        } else {
            Some(stem)
        }
    } else {
        None
    }
}

/// Whether `file` needs declaring and `declared` does not declare it.
pub open spec fn is_orphan(declared: Seq<Seq<char>>, file: Seq<char>) -> bool {
    &&& spec_module_name_of(file) is Some
    &&& !declared.contains(spec_module_name_of(file).unwrap())
}

/// The orphans among `files`, in order, as (file, module) pairs.
pub open spec fn spec_orphans(declared: Seq<Seq<char>>, files: Seq<Seq<char>>) -> Seq<
    (Seq<char>, Seq<char>),
>
    decreases files.len(),
{
    if files.len() == 0 {
        seq![]
    } else {
        let f = files.last();
        spec_orphans(declared, files.drop_last()) + if is_orphan(declared, f) {
            seq![(f, spec_module_name_of(f).unwrap())]
        } else {
            seq![]
        }
    }
}

/// Returns the files in `file_names` that `declarations` never declares.
///
/// `mod.rs`, `lib.rs`, `main.rs` and non-Rust files are ignored. Reading the
/// directory is the caller's responsibility.
pub fn analyze(declarations: &str, file_names: &[&str]) -> (orphans: Vec<Orphan>)
    requires
        declarations@.len() < usize::MAX,
    ensures
        orphans@.map_values(|o: Orphan| (o.file@, o.module@)) == spec_orphans(
            spec_declared_modules(declarations@),
            file_names@.map_values(|f: &str| f@),
        ),
{
    let declared = declared_modules(declarations);
    let ghost decl = spec_declared_modules(declarations@);
    let ghost files = file_names@.map_values(|f: &str| f@);
    let mut orphans: Vec<Orphan> = Vec::new();
    let mut k: usize = 0;

    proof {
        assert(orphans@.map_values(|o: Orphan| (o.file@, o.module@)) =~= seq![]);
        assert(files.take(0) =~= seq![]);
    }

    while k < file_names.len()
        invariant
            k <= file_names.len(),
            files == file_names@.map_values(|f: &str| f@),
            decl == spec_declared_modules(declarations@),
            declared@.map_values(|d: String| d@) == decl,
            orphans@.map_values(|o: Orphan| (o.file@, o.module@)) == spec_orphans(
                decl,
                files.take(k as int),
            ),
        decreases file_names.len() - k,
    {
        let file = file_names[k];
        let ghost before = orphans@;
        assert(files.take(k + 1).drop_last() =~= files.take(k as int));
        assert(files.take(k + 1).last() == file@);

        if let Some(module) = module_name_of(file) {
            let mut found = false;
            let mut d: usize = 0;
            while d < declared.len()
                invariant
                    d <= declared.len(),
                    declared@.map_values(|x: String| x@) == decl,
                    found == exists|e: int| 0 <= e < d && decl[e] == module@,
                decreases declared.len() - d,
            {
                assert(decl[d as int] == declared@[d as int]@);
                if declared[d] == module {
                    found = true;
                }
                proof {
                    if !found {
                        assert forall|e: int| 0 <= e < d + 1 implies decl[e] != module@ by {
                            if e < d {
                                if decl[e] == module@ {
                                    assert(exists|e2: int| 0 <= e2 < d && decl[e2] == module@);
                                }
                            }
                        }
                    }
                }
                d += 1;
            }
            proof {
                if found {
                    let e = choose|e: int| 0 <= e < declared.len() && decl[e] == module@;
                    assert(decl.contains(module@));
                } else {
                    if decl.contains(module@) {
                        let e = choose|e: int| 0 <= e < decl.len() && decl[e] == module@;
                        assert(false);
                    }
                }
            }
            if !found {
                let file = file.to_owned();
                orphans.push(Orphan { file, module });
                assert(orphans@.map_values(|o: Orphan| (o.file@, o.module@)) =~= before.map_values(
                    |o: Orphan| (o.file@, o.module@),
                ).push((files[k as int], spec_module_name_of(files[k as int]).unwrap())));
            }
        }
        k += 1;
    }

    proof {
        assert(files.take(file_names.len() as int) =~= files);
    }
    orphans
}

/// Returns every module name declared in `source`, in the order they appear.
///
/// Both `mod name;` and `mod name { ... }` count. Declarations inside comments
/// or string literals do not.
pub fn declared_modules(source: &str) -> (modules: Vec<String>)
    requires
        source@.len() < usize::MAX,
    ensures
        modules@.map_values(|m: String| m@) == spec_declared_modules(source@),
{
    let chars = source_chars(source);
    let len = chars.len();
    let mod_kw: Vec<char> = vec!['m', 'o', 'd'];

    let mut modules: Vec<String> = Vec::new();
    let mut i = 0usize;
    let ghost s = chars@;

    proof {
        assert(modules@.map_values(|m: String| m@) =~= seq![]);
    }

    while i < len
        invariant
            len == chars.len(),
            s == chars@,
            s == source@,
            mod_kw@ == mod_keyword(),
            len < usize::MAX,
            i <= len,
            spec_declared_modules(s) == modules@.map_values(|m: String| m@) + modules_from(
                s,
                i as int,
            ),
        decreases len - i,
    {
        let c = chars[i];
        let mut scratch_line = 0usize;

        if c == '/' && i + 1 < len && chars[i + 1] == '/' {
            i = skip_line_comment(&chars, i);
            continue;
        }

        if c == '/' && i + 1 < len && chars[i + 1] == '*' {
            proof {
                lemma_nested_comment_scan(chars@, i + 2, 1, scratch_line as int);
            }
            i = skip_block_comment(&chars, i, &mut scratch_line);
            continue;
        }

        if c == 'r' && i + 1 < len && (chars[i + 1] == '"' || chars[i + 1] == '#') {
            proof {
                lemma_raw_string_scan(chars@, i as int, scratch_line as int);
            }
            if let Some(next) = skip_raw_string(&chars, i, &mut scratch_line) {
                assert(raw_string_scan(s, i as int, 0) == Some((next as int, scratch_line as int)));
                i = next;
                continue;
            }
        }

        if c == '"' {
            proof {
                lemma_string_scan(chars@, i + 1, scratch_line as int);
            }
            i = skip_string(&chars, i, &mut scratch_line);
            continue;
        }

        if c == '\'' {
            proof {
                lemma_quote_end(chars@, i as int, scratch_line as int);
            }
            i = skip_quote(&chars, i, &mut scratch_line);
            continue;
        }

        if is_ident_start(c) {
            let (word, after_word) = read_ident(&chars, i);
            i = after_word;

            if !word_is(&word, &mod_kw) {
                continue;
            }

            proof {
                lemma_ws_end(s, i as int);
            }
            while i < len && is_whitespace(chars[i])
                invariant
                    after_word <= i <= len,
                    len == chars.len(),
                    s == chars@,
                    ws_end(s, i as int) == ws_end(s, after_word as int),
                decreases len - i,
            {
                i += 1;
            }

            if i < len && is_ident_start(chars[i]) {
                let (name, after_name) = read_ident(&chars, i);
                let ghost before = modules@;
                modules.push(string_from_chars(&name));
                proof {
                    assert(modules@.map_values(|m: String| m@) =~= before.map_values(
                        |m: String| m@,
                    ).push(s.subrange(i as int, after_name as int)));
                }
                i = after_name;
            }

            continue;
        }

        i += 1;
    }

    proof {
        assert(modules@.map_values(|m: String| m@) + modules_from(s, i as int) =~= modules@.map_values(
            |m: String| m@,
        ));
    }
    modules
}

/// Returns the module name a file would be declared as, if it needs declaring.
fn module_name_of(file: &str) -> (module: Option<String>)
    ensures
        match spec_module_name_of(file@) {
            Some(m) => module matches Some(x) && x@ == m,
            None => module is None,
        },
{
    let chars = source_chars(file);
    let len = chars.len();
    if len < 3 || chars[len - 3] != '.' || chars[len - 2] != 'r' || chars[len - 1] != 's' {
        proof {
            if len >= 3 {
                let tail = chars@.subrange(len - 3, len as int);
                if tail == seq!['.', 'r', 's'] {
                    assert(tail[0] == '.' && tail[1] == 'r' && tail[2] == 's');
                }
            }
        }
        return None;
    }
    assert(chars@.subrange(len - 3, len as int) =~= seq!['.', 'r', 's']);

    let mut stem: Vec<char> = Vec::new();
    let mut k: usize = 0;
    while k < len - 3
        invariant
            k <= len - 3,
            len == chars.len(),
            len >= 3,
            stem@ == chars@.subrange(0, k as int),
        decreases len - 3 - k,
    {
        stem.push(chars[k]);
        k += 1;
        assert(stem@ =~= chars@.subrange(0, k as int));
    }

    let mod_kw: Vec<char> = vec!['m', 'o', 'd'];
    let lib_kw: Vec<char> = vec!['l', 'i', 'b'];
    let main_kw: Vec<char> = vec!['m', 'a', 'i', 'n'];
    if stem.len() == 0 || word_is(&stem, &mod_kw) || word_is(&stem, &lib_kw) || word_is(
        &stem,
        &main_kw,
    ) {
        return None;
    }

    Some(string_from_chars(&stem))
}

/// A file is reported, under the module it would be declared as, exactly when
/// it is among the files given, it needs declaring, and no declaration names
/// that module.
pub proof fn law_orphan_iff_undeclared(
    declared: Seq<Seq<char>>,
    files: Seq<Seq<char>>,
    file: Seq<char>,
    module: Seq<char>,
)
    ensures
        spec_orphans(declared, files).contains((file, module)) <==> {
            &&& files.contains(file)
            &&& is_orphan(declared, file)
            &&& spec_module_name_of(file) == Some(module)
        },
    decreases files.len(),
{
    if files.len() > 0 {
        let p = files.drop_last();
        let f = files.last();
        law_orphan_iff_undeclared(declared, p, file, module);
        let prev = spec_orphans(declared, p);
        let cur = spec_orphans(declared, files);
        let added: Seq<(Seq<char>, Seq<char>)> = if is_orphan(declared, f) {
            seq![(f, spec_module_name_of(f).unwrap())]
        } else {
            seq![]
        };
        assert(cur == prev + added);
        if cur.contains((file, module)) {
            let c = choose|c: int| 0 <= c < cur.len() && cur[c] == (file, module);
            if c < prev.len() {
                assert(prev[c] == cur[c]);
                assert(prev.contains((file, module)));
                let k = choose|k: int| 0 <= k < p.len() && p[k] == file;
                assert(files[k] == p[k]);
            } else {
                assert(files[files.len() - 1] == f);
            }
        }
        if files.contains(file) && is_orphan(declared, file) && spec_module_name_of(file) == Some(
            module,
        ) {
            let k = choose|k: int| 0 <= k < files.len() && files[k] == file;
            if k < p.len() {
                assert(p[k] == files[k]);
                assert(p.contains(file));
                let c = choose|c: int| 0 <= c < prev.len() && prev[c] == (file, module);
                assert(cur[c] == prev[c]);
            } else {
                assert(cur[prev.len() as int] == (file, module));
            }
        }
    }
}

// ---------------------------------------------------------------------------
// Joined sources
// ---------------------------------------------------------------------------

/// One step of the declaration scan at `i`: the module names it declares and
/// the index it moves on to.
pub open spec fn module_step(s: Seq<char>, i: int) -> (Seq<Seq<char>>, int) {
    let c = s[i];
    if c == '/' && i + 1 < s.len() && s[i + 1] == '/' {
        (seq![], line_end(s, i))
    } else if c == '/' && i + 1 < s.len() && s[i + 1] == '*' {
        (seq![], nested_comment_scan(s, i + 2, 1, 0).0)
    } else if c == 'r' && i + 1 < s.len() && (s[i + 1] == '"' || s[i + 1] == '#')
        && raw_string_scan(s, i, 0) is Some {
        (seq![], raw_string_scan(s, i, 0).unwrap().0)
    } else if c == '"' {
        (seq![], string_scan(s, i + 1, 0).0)
    } else if c == '\'' {
        (seq![], quote_end(s, i))
    } else if spec_is_ident_start(c) {
        let k = word_end(s, i);
        if s.subrange(i, k) != mod_keyword() {
            (seq![], k)
        } else {
            let j = ws_end(s, k);
            if j < s.len() && spec_is_ident_start(s[j]) {
                let e = word_end(s, j);
                (seq![s.subrange(j, e)], e)
            } else {
                (seq![], j)
            }
        }
    } else {
        (seq![], i + 1)
    }
}

pub proof fn lemma_module_step(s: Seq<char>, i: int)
    requires
        0 <= i < s.len(),
    ensures
        i < module_step(s, i).1 <= s.len(),
        modules_from(s, i) == module_step(s, i).0 + modules_from(s, module_step(s, i).1),
{
    let c = s[i];
    let st = module_step(s, i);
    if c == '/' && i + 1 < s.len() && s[i + 1] == '/' {
        lemma_line_end(s, i + 1);
    } else if c == '/' && i + 1 < s.len() && s[i + 1] == '*' {
        lemma_nested_comment_scan(s, i + 2, 1, 0);
    } else if c == 'r' && i + 1 < s.len() && (s[i + 1] == '"' || s[i + 1] == '#')
        && raw_string_scan(s, i, 0) is Some {
        lemma_raw_string_scan(s, i, 0);
    } else if c == '"' {
        lemma_string_scan(s, i + 1, 0);
    } else if c == '\'' {
        lemma_quote_end(s, i, 0);
    } else if spec_is_ident_start(c) {
        lemma_ident_end(s, i + 1);
        let k = word_end(s, i);
        if s.subrange(i, k) == mod_keyword() {
            lemma_ws_end(s, k);
            let j = ws_end(s, k);
            if j < s.len() && spec_is_ident_start(s[j]) {
                lemma_ident_end(s, j + 1);
            }
        }
    }
    assert(modules_from(s, i) == st.0 + modules_from(s, st.1)) by {
        if st.0.len() == 0 {
            assert(st.0 + modules_from(s, st.1) =~= modules_from(s, st.1));
        }
    }
}

/// Whether the declaration scan of `s`, started at `i`, steps onto index `t`:
/// `t` then stands outside every comment and literal.
pub open spec fn scan_reaches(s: Seq<char>, i: int, t: int) -> bool
    decreases s.len() - i,
{
    if i == t {
        true
    } else if i < 0 || i >= s.len() || i > t {
        false
    } else {
        proof {
            lemma_module_step(s, i);
        }
        scan_reaches(s, module_step(s, i).1, t)
    }
}

/// A raw string met inside `s1` reads the same in `s2`: `s1` is a tail of
/// `s2`, or it ends in `;` and a line break that the string stops before.
proof fn lemma_raw_string_scan_embed(s1: Seq<char>, s2: Seq<char>, off: int, start: int)
    requires
        embeds(s1, s2, off),
        0 <= start < s1.len(),
        tail_of(s1, s2, off) || {
            &&& s1.len() >= 2
            &&& s1[s1.len() - 2] == ';'
            &&& start + 1 <= s1.len() - 2
            &&& raw_string_scan(s1, start, 0) matches Some((r, _)) ==> r <= s1.len() - 2
        },
    ensures
        raw_string_scan(s2, off + start, 0) == match raw_string_scan(s1, start, 0) {
            Some((r, l)) => Some((off + r, l)),
            None => None,
        },
{
    let len = s1.len();
    lemma_hash_run_end(s1, start + 1);
    if !tail_of(s1, s2, off) {
        lemma_hash_run_end_before(s1, start + 1, len - 2);
    }
    lemma_hash_run_end_embed(s1, s2, off, start + 1);
    let j = hash_run_end(s1, start + 1);
    if j < len {
        assert(s2[off + j] == s1[j]);
        if s1[j] == '"' {
            lemma_raw_body_scan(s1, j + 1, j - start - 1, 0);
            lemma_raw_body_scan_embed(s1, s2, off, j + 1, j - start - 1, 0, len - 2);
        }
    }
}

/// One scan step inside `s1` takes the same step, shifted, in `s2`, when `s1`
/// is a tail of `s2` or the step stops before a closing `;` and line break.
proof fn lemma_step_embed(s1: Seq<char>, s2: Seq<char>, off: int, i: int)
    requires
        embeds(s1, s2, off),
        0 <= i < s1.len(),
        tail_of(s1, s2, off) || {
            &&& s1.len() >= 2
            &&& s1[s1.len() - 2] == ';'
            &&& s1[s1.len() - 1] == '\n'
            &&& module_step(s1, i).1 <= s1.len() - 2
        },
    ensures
        module_step(s2, off + i) == (module_step(s1, i).0, off + module_step(s1, i).1),
{
    let len = s1.len();
    let tail = tail_of(s1, s2, off);
    let c = s1[i];
    lemma_module_step(s1, i);
    assert(s2[off + i] == c);
    if i + 1 < len {
        assert(s2[off + i + 1] == s1[i + 1]);
    }
    if i + 2 < len {
        assert(s2[off + i + 2] == s1[i + 2]);
    }
    if c == 'r' && (tail || i + 1 <= len - 2) {
        lemma_raw_string_scan_embed(s1, s2, off, i);
    }
    if c == '/' && i + 1 < len && s1[i + 1] == '/' {
        lemma_line_end(s1, i);
        lemma_line_end_embed(s1, s2, off, i);
    } else if c == '/' && i + 1 < len && s1[i + 1] == '*' {
        lemma_nested_comment_scan_embed(s1, s2, off, i + 2, 1, 0);
    } else if c == 'r' && i + 1 < len && (s1[i + 1] == '"' || s1[i + 1] == '#')
        && raw_string_scan(s1, i, 0) is Some {
    } else if c == '"' {
        lemma_string_scan_embed(s1, s2, off, i + 1, 0);
    } else if c == '\'' {
        if i + 1 < len && s1[i + 1] == '\\' {
            lemma_quote_stop(s1, i + 3);
            if !tail {
                lemma_quote_stop_before(s1, i + 3, len - 1);
            }
            lemma_quote_stop_embed(s1, s2, off, i + 3);
            let j = quote_stop(s1, i + 3);
            if j < len {
                assert(s2[off + j] == s1[j]);
            }
        }
    } else if spec_is_ident_start(c) {
        lemma_ident_end(s1, i + 1);
        lemma_ident_end_embed(s1, s2, off, i + 1);
        let k = word_end(s1, i);
        assert(s2.subrange(off + i, off + k) =~= s1.subrange(i, k));
        if s1.subrange(i, k) == mod_keyword() {
            lemma_ws_end(s1, k);
            lemma_ws_end_embed(s1, s2, off, k);
            let j = ws_end(s1, k);
            if j < len {
                assert(s2[off + j] == s1[j]);
                if spec_is_ident_start(s1[j]) {
                    lemma_ident_end(s1, j + 1);
                    lemma_ident_end_embed(s1, s2, off, j + 1);
                    let e = word_end(s1, j);
                    assert(s2.subrange(off + j, off + e) =~= s1.subrange(j, e));
                }
            }
        }
    }
}

/// The scan of `b` inside `a + b` declares what it declares in `b` alone.
proof fn lemma_modules_shift(a: Seq<char>, b: Seq<char>, j: int)
    requires
        0 <= j <= b.len(),
    ensures
        modules_from(a + b, a.len() + j) == modules_from(b, j),
    decreases b.len() - j,
{
    if j < b.len() {
        let s2 = a + b;
        assert(tail_of(b, s2, a.len() as int));
        lemma_module_step(b, j);
        lemma_module_step(s2, a.len() + j);
        lemma_step_embed(b, s2, a.len() as int, j);
        lemma_modules_shift(a, b, module_step(b, j).1);
    }
}

proof fn lemma_modules_prefix(a: Seq<char>, b: Seq<char>, i: int)
    requires
        a.len() >= 2,
        a[a.len() - 2] == ';',
        a[a.len() - 1] == '\n',
        0 <= i,
        scan_reaches(a, i, a.len() - 2),
    ensures
        modules_from(a + b, i) == modules_from(a, i) + modules_from(b, 0),
    decreases a.len() - i,
{
    let s2 = a + b;
    let t = a.len() - 2;
    assert(s2[t] == ';');
    assert(s2[t + 1] == '\n');
    if i == t {
        lemma_module_step(a, t);
        lemma_module_step(a, t + 1);
        lemma_module_step(s2, t);
        lemma_module_step(s2, t + 1);
        lemma_modules_shift(a, b, 0);
        assert(modules_from(a, i) + modules_from(b, 0) =~= modules_from(b, 0));
    } else {
        lemma_module_step(a, i);
        let n = module_step(a, i).1;
        assert(scan_reaches(a, n, t));
        assert(n <= t);
        assert(embeds(a, s2, 0));
        lemma_step_embed(a, s2, 0, i);
        lemma_module_step(s2, i);
        lemma_modules_prefix(a, b, n);
        assert(module_step(a, i).0 + (modules_from(a, n) + modules_from(b, 0)) =~= (module_step(
            a,
            i,
        ).0 + modules_from(a, n)) + modules_from(b, 0));
    }
}

/// Joining two sources: when `a` ends with a `;` and a line break that its
/// scan reaches outside every comment and literal, the modules declared in
/// `a + b` are those declared in `a`, then those declared in `b`.
pub proof fn law_declared_modules_of_joined_sources(a: Seq<char>, b: Seq<char>)
    requires
        a.len() >= 2,
        a[a.len() - 2] == ';',
        a[a.len() - 1] == '\n',
        scan_reaches(a, 0, a.len() - 2),
    ensures
        spec_declared_modules(a + b) == spec_declared_modules(a) + spec_declared_modules(b),
{
    lemma_modules_prefix(a, b, 0);
}

/// A file `<stem>.rs` needs declaring as module `<stem>` whenever the stem is
/// not empty and not exactly `mod`, `lib` or `main`; it is then an orphan
/// exactly when no declaration names the stem.
pub proof fn law_module_name_is_the_stem(declared: Seq<Seq<char>>, stem: Seq<char>)
    requires
        stem.len() > 0,
        stem != mod_keyword(),
        stem != seq!['l', 'i', 'b'],
        stem != seq!['m', 'a', 'i', 'n'],
    ensures
        spec_module_name_of(stem + seq!['.', 'r', 's']) == Some(stem),
        is_orphan(declared, stem + seq!['.', 'r', 's']) <==> !declared.contains(stem),
{
    let f = stem + seq!['.', 'r', 's'];
    assert(f.subrange(f.len() - 3, f.len() as int) =~= seq!['.', 'r', 's']);
    assert(f.subrange(0, f.len() - 3) =~= stem);
}

/// `mod.rs`, `lib.rs`, `main.rs` and `.rs` alone are never modules to declare.
pub proof fn law_module_roots_need_no_declaration(stem: Seq<char>)
    requires
        stem.len() == 0 || stem == mod_keyword() || stem == seq!['l', 'i', 'b'] || stem == seq![
            'm',
            'a',
            'i',
            'n',
        ],
    ensures
        spec_module_name_of(stem + seq!['.', 'r', 's']) is None,
{
    let f = stem + seq!['.', 'r', 's'];
    assert(f.subrange(f.len() - 3, f.len() as int) =~= seq!['.', 'r', 's']);
    assert(f.subrange(0, f.len() - 3) =~= stem);
}

/// The modules declared from `i` on depend only on the text from `i` on.
proof fn lemma_modules_agree(s1: Seq<char>, s2: Seq<char>, p: int, i: int)
    requires
        agree_from(s1, s2, p),
        p <= i,
    ensures
        modules_from(s1, i) == modules_from(s2, i),
    decreases s1.len() - i,
{
    if i < s1.len() {
        let c = s1[i];
        assert(s2[i] == c);
        if i + 1 < s1.len() {
            assert(s1[i + 1] == s2[i + 1]);
        }
        lemma_scans_agree(s1, s2, p, i, 0);
        lemma_module_step(s1, i);
        lemma_module_step(s2, i);
        if spec_is_ident_start(c) {
            lemma_ident_end(s1, i + 1);
            lemma_words_agree(s1, s2, p, i + 1);
            let k = word_end(s1, i);
            assert(s1.subrange(i, k) =~= s2.subrange(i, k));
            lemma_ws_end(s1, k);
            lemma_words_agree(s1, s2, p, k);
            let j = ws_end(s1, k);
            if j < s1.len() {
                assert(s1[j] == s2[j]);
                lemma_ident_end(s1, j + 1);
                lemma_words_agree(s1, s2, p, j + 1);
                assert(s1.subrange(j, word_end(s1, j)) =~= s2.subrange(j, word_end(s1, j)));
            }
        }
        assert(module_step(s1, i) == module_step(s2, i));
        lemma_modules_agree(s1, s2, p, module_step(s1, i).1);
    }
}

/// A char literal is stepped over whole: the modules declared from the literal
/// `'x'` at `i` on are the same whatever single character, other than a
/// backslash or a line break, it holds.
pub proof fn law_char_literal_declares_nothing(s: Seq<char>, i: int, c: char)
    requires
        0 <= i,
        i + 2 < s.len(),
        s[i] == '\'',
        s[i + 2] == '\'',
        s[i + 1] != '\\' && s[i + 1] != '\n',
        c != '\\' && c != '\n',
    ensures
        modules_from(s.update(i + 1, c), i) == modules_from(s, i),
{
    let s2 = s.update(i + 1, c);
    assert(s2[i] == '\'' && s2[i + 1] == c && s2[i + 2] == '\'');
    lemma_module_step(s, i);
    lemma_module_step(s2, i);
    assert(module_step(s, i).1 == i + 3);
    assert(module_step(s2, i).1 == i + 3);
    assert(agree_from(s, s2, i + 2));
    lemma_modules_agree(s, s2, i + 2, i + 3);
}

/// A string literal is stepped over whole: replacing any plain character of
/// the string that starts at `i` by another plain character changes none of
/// the modules declared from `i` on, so `"mod x;"` declares nothing.
pub proof fn law_string_declares_nothing(s: Seq<char>, i: int, k: int, c: char)
    requires
        0 <= i < s.len(),
        s[i] == '"',
        i < k < string_scan(s, i + 1, 0).0,
        plain_in_string(s[k]),
        plain_in_string(c),
    ensures
        modules_from(s.update(k, c), i) == modules_from(s, i),
{
    let s2 = s.update(k, c);
    lemma_string_scan(s, i + 1, 0);
    lemma_string_scan_update(s, i + 1, 0, k, c);
    assert(s2[i] == s[i]);
    lemma_module_step(s, i);
    lemma_module_step(s2, i);
    assert(module_step(s, i) == module_step(s2, i));
    assert(agree_from(s, s2, k + 1));
    lemma_modules_agree(s, s2, k + 1, module_step(s, i).1);
}

} // verus!
