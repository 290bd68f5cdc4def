use soroban_forge::brace_depth::{analyze, Finding};

const CLEAN: &str = "// A balanced file exercising every construct the scanner must ignore.

pub struct Config {
    pub name: &'static str,
}

impl Config {
    pub fn new() -> Self {
        let unbalanced_in_string = \"}{\";
        let raw = r#\"a raw string containing { and \" and }\"#;
        // a brace in a line comment: {
        /* a brace in a block comment: {
           and a /* nested */ one too */
        let brace_char = '{';
        let emoji = '\\u{1F600}';

        let _ = (unbalanced_in_string, raw, brace_char, emoji);

        Self { name: \"ok\" }
    }
}
";

const UNCLOSED_IMPL: &str = "// The impl block opened on line 3 is never closed. This is the shape produced
// by a badly resolved merge conflict.

impl Thing {
    pub fn first(&self) -> u32 {
        1
    }

    pub fn second(&self) -> u32 {
        2
    }
";

const STRAY_CLOSE: &str = "// A closing brace left behind by a badly resolved merge conflict.

fn first() -> u32 {
    1
}
}
";

#[test]
fn balanced_source_produces_no_findings() {
    assert_eq!(analyze(CLEAN), Vec::new());
}

#[test]
fn unclosed_impl_is_reported_at_its_opening_line() {
    let findings = analyze(UNCLOSED_IMPL);

    assert_eq!(findings.len(), 1);
    assert_eq!(findings[0].line, 4);
    assert_eq!(findings[0].depth, 1);
    assert!(findings[0].message.contains("never closed"));
}

#[test]
fn stray_closing_brace_is_reported() {
    let findings = analyze(STRAY_CLOSE);

    assert_eq!(findings.len(), 1);
    assert_eq!(findings[0].line, 6);
    assert!(findings[0].message.contains("no matching opening brace"));
}

#[test]
fn braces_inside_string_literals_are_ignored() {
    assert_eq!(analyze("fn a() { let s = \"{{{\"; }"), Vec::new());
}

#[test]
fn braces_inside_raw_strings_are_ignored() {
    assert_eq!(analyze("fn a() { let s = r#\"{ \" {\"#; }"), Vec::new());
}

#[test]
fn braces_inside_comments_are_ignored() {
    assert_eq!(analyze("fn a() {\n // {\n /* { /* { */ */\n}"), Vec::new());
}

#[test]
fn lifetimes_are_not_mistaken_for_char_literals() {
    assert_eq!(analyze("struct S<'a> { v: &'a str }"), Vec::new());
}

#[test]
fn unicode_escape_braces_are_ignored() {
    assert_eq!(analyze("fn a() { let c = '\\u{1F600}'; }"), Vec::new());
}

#[test]
fn escaped_quote_char_literal_is_handled() {
    assert_eq!(analyze("fn a() { let c = '\\''; }"), Vec::new());
}

#[test]
fn deeply_unbalanced_source_reports_the_outermost_brace() {
    let findings = analyze("mod outer {\n    impl Thing {\n        fn f() {\n");

    assert_eq!(findings.len(), 1);
    assert_eq!(findings[0].line, 1);
    assert_eq!(findings[0].depth, 3);
}

#[test]
fn unclosed_message_spells_the_depth_in_decimal() {
    let findings = analyze("{{{{{{{{{{{{");

    assert_eq!(findings.len(), 1);
    assert_eq!(
        findings[0].message,
        "brace depth ends at 12; the `{` opened here was never closed"
    );
}

#[test]
fn every_stray_closer_is_reported_with_the_final_depth_then_the_unclosed_opener() {
    let findings = analyze("}\n}\n{\n");
    let expected = vec![
        Finding {
            line: 1,
            depth: 1,
            message: "closing `}` with no matching opening brace".to_string(),
        },
        Finding {
            line: 2,
            depth: 1,
            message: "closing `}` with no matching opening brace".to_string(),
        },
        Finding {
            line: 3,
            depth: 1,
            message: "brace depth ends at 1; the `{` opened here was never closed".to_string(),
        },
    ];

    assert_eq!(findings, expected);
}

#[test]
fn a_balanced_sequence_after_a_stray_closer_still_reports_it() {
    let findings = analyze("}{}");

    assert_eq!(findings.len(), 1);
    assert_eq!(findings[0].depth, 0);
}

#[test]
fn lines_inside_block_comments_and_strings_are_counted() {
    let findings = analyze("/*\n\n*/\n\"\n\"\n{");

    assert_eq!(findings.len(), 1);
    assert_eq!(findings[0].line, 6);
}

#[test]
fn an_unterminated_raw_string_hides_the_rest() {
    assert_eq!(analyze("r#\"{ {"), Vec::new());
}

#[test]
fn an_empty_source_is_balanced() {
    assert_eq!(analyze(""), Vec::new());
}

#[test]
fn a_char_literal_brace_and_a_lifetime_on_one_line() {
    assert_eq!(analyze("fn f<'a>(x: &'a u8) { let c = '}'; }"), Vec::new());
}

#[test]
fn a_stray_closer_carries_the_depth_left_at_the_end() {
    let findings = analyze("}\n{\n");

    assert_eq!(findings.len(), 2);
    assert_eq!(findings[0].line, 1);
    assert_eq!(findings[0].depth, 1);
    assert!(findings[0].message.contains("no matching opening brace"));
    assert_eq!(findings[1].line, 2);
    assert_eq!(findings[1].depth, 1);
    assert!(findings[1].message.contains("never closed"));
}

#[test]
fn a_line_break_escaped_inside_a_string_is_still_counted() {
    let findings = analyze("let s = \"a\\\nb\";\n}\n");

    assert_eq!(findings.len(), 1);
    assert_eq!(findings[0].line, 3);
}
