use soroban_forge::duplicate_fn::{analyze, Duplicate};

const DUPLICATED_IN_IMPL: &str = "// `get_escrow` is defined twice inside the same impl block. This is the shape
// a badly resolved merge conflict produces.

impl Escrow {
    pub fn get_escrow(&self) -> u32 {
        1
    }

    pub fn other(&self) -> u32 {
        2
    }

    pub fn get_escrow(&self) -> u32 {
        3
    }
}
";

const SAME_NAME_DISTINCT_IMPLS: &str = "// The same method name in two different impl blocks is legitimate Rust and
// must not be reported.

impl A {
    pub fn value(&self) -> u32 {
        1
    }
}

impl B {
    pub fn value(&self) -> u32 {
        2
    }
}
";

#[test]
fn duplicate_definitions_in_one_impl_are_reported() {
    let duplicates = analyze(DUPLICATED_IN_IMPL);

    assert_eq!(duplicates.len(), 1);
    assert_eq!(duplicates[0].name, "get_escrow");
    assert_eq!(duplicates[0].lines, vec![5, 13]);
}

#[test]
fn same_name_in_distinct_impls_is_not_reported() {
    assert_eq!(analyze(SAME_NAME_DISTINCT_IMPLS), Vec::new());
}

#[test]
fn duplicate_free_functions_are_reported() {
    let duplicates = analyze("fn a() {}\nfn a() {}\n");

    assert_eq!(duplicates.len(), 1);
    assert_eq!(duplicates[0].lines, vec![1, 2]);
}

#[test]
fn distinct_function_names_are_not_reported() {
    assert_eq!(analyze("fn a() {}\nfn b() {}\n"), Vec::new());
}

#[test]
fn a_function_keyword_inside_a_string_is_ignored() {
    assert_eq!(analyze("fn a() {\n let s = \"fn a\";\n}\n"), Vec::new());
}

#[test]
fn a_function_keyword_inside_a_comment_is_ignored() {
    assert_eq!(analyze("fn a() {}\n// fn a() {}\n"), Vec::new());
}

#[test]
fn an_identifier_ending_in_fn_is_not_a_definition() {
    assert_eq!(analyze("fn a() {}\nfn my_fn() {}\n"), Vec::new());
}

#[test]
fn a_function_pointer_type_is_not_a_definition() {
    assert_eq!(analyze("fn a(f: fn(u32) -> u32) {}\n"), Vec::new());
}

#[test]
fn nested_functions_belong_to_their_parent_body() {
    let duplicates = analyze("fn outer() {\n    fn inner() {}\n    fn inner() {}\n}\n");

    assert_eq!(duplicates.len(), 1);
    assert_eq!(duplicates[0].name, "inner");
    assert_eq!(duplicates[0].lines, vec![2, 3]);
}

#[test]
fn lifetimes_do_not_disturb_scanning() {
    assert_eq!(analyze("impl<'a> T<'a> {\n    fn v(&'a self) {}\n}\n"), Vec::new());
}

#[test]
fn three_definitions_are_one_duplicate_with_three_lines() {
    let duplicates = analyze("fn a() {}\nfn b() {}\nfn a() {}\nfn a() {}\n");
    let expected = vec![Duplicate { name: "a".to_string(), lines: vec![1, 3, 4] }];

    assert_eq!(duplicates, expected);
}

#[test]
fn duplicates_are_listed_in_order_of_first_definition() {
    let duplicates = analyze("fn b() {}\nfn a() {}\nfn a() {}\nfn b() {}\n");
    let names: Vec<&str> = duplicates.iter().map(|d| d.name.as_str()).collect();

    assert_eq!(names, vec!["b", "a"]);
    assert_eq!(duplicates[0].lines, vec![1, 4]);
    assert_eq!(duplicates[1].lines, vec![2, 3]);
}

#[test]
fn the_line_is_the_line_of_the_keyword() {
    let duplicates = analyze("fn\n\na() {}\nfn a() {}\n");

    assert_eq!(duplicates.len(), 1);
    assert_eq!(duplicates[0].lines, vec![1, 4]);
}

#[test]
fn a_stray_closing_brace_keeps_the_file_scope() {
    let duplicates = analyze("}\nfn a() {}\n}\nfn a() {}\n");

    assert_eq!(duplicates.len(), 1);
    assert_eq!(duplicates[0].lines, vec![2, 4]);
}

#[test]
fn the_same_name_in_two_sibling_blocks_is_not_reported() {
    assert_eq!(analyze("mod m { fn a() {} }\nmod n { fn a() {} }\n"), Vec::new());
}

#[test]
fn names_with_digits_and_non_ascii_letters_are_read_whole() {
    let duplicates = analyze("fn café9() {}\nfn café() {}\nfn café9() {}\n");

    assert_eq!(duplicates.len(), 1);
    assert_eq!(duplicates[0].name, "café9");
    assert_eq!(duplicates[0].lines, vec![1, 3]);
}

#[test]
fn a_keyword_without_a_name_records_nothing() {
    assert_eq!(analyze("fn (\nfn (\n"), Vec::new());
}

#[test]
fn definitions_after_an_escaped_line_break_keep_their_lines() {
    let duplicates = analyze("const S: &str = \"a\\\nb\";\nfn a() {}\nfn a() {}\n");

    assert_eq!(duplicates.len(), 1);
    assert_eq!(duplicates[0].lines, vec![3, 4]);
}
